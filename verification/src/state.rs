//! The persisted state record.
//!
//! A run of the bot carries exactly two facts across invocations: the opaque
//! credential the remote service issued at registration, and the index of the
//! last line it successfully posted. The credential is held as plain bytes;
//! the library never looks inside it, and [`State::render`] never shows it.

use vstd::prelude::*;
use vstd::string::StringExecFns;

verus! {

/// The record persisted between runs.
pub struct State {
    /// Opaque authorization token issued by the remote service.
    pub credential: Vec<u8>,
    /// Index of the last successfully posted line; `None` before the first
    /// successful post.
    pub last_successful_index: Option<usize>,
}

/// The character standing for the decimal digit `d`.
pub open spec fn digit_char(d: nat) -> char {
    if d == 0 {
        '0'
    } else if d == 1 {
        '1'
    } else if d == 2 {
        '2'
    } else if d == 3 {
        '3'
    } else if d == 4 {
        '4'
    } else if d == 5 {
        '5'
    } else if d == 6 {
        '6'
    } else if d == 7 {
        '7'
    } else if d == 8 {
        '8'
    } else {
        '9'
    }
}

/// The decimal digit characters of `n`, most significant first.
pub open spec fn dec_chars(n: nat) -> Seq<char>
    decreases n,
{
    if n < 10 {
        seq![digit_char(n)]
    } else {
        dec_chars(n / 10).push(digit_char(n % 10))
    }
}

/// The rendered form of a record with index `idx`: the index is shown
/// verbatim, and a fixed redaction marker stands where the credential would
/// be. The rendering is a function of the index alone.
pub open spec fn spec_render(idx: Option<usize>) -> Seq<char> {
    "State { credential: [REDACTED], last_successful_index: "@ + (match idx {
        Option::None => "None"@,
        Option::Some(k) => "Some("@ + dec_chars(k as nat) + ")"@,
    }) + " }"@
}

/// The single-character string for the decimal digit `d`.
fn digit_str(d: usize) -> (r: &'static str)
    requires
        d < 10,
    ensures
        r@ == seq![digit_char(d as nat)],
{
    let r: &'static str = match d {
        0 => "0",
        1 => "1",
        2 => "2",
        3 => "3",
        4 => "4",
        5 => "5",
        6 => "6",
        7 => "7",
        8 => "8",
        _ => "9",
    };
    proof {
        reveal_strlit("0");
        reveal_strlit("1");
        reveal_strlit("2");
        reveal_strlit("3");
        reveal_strlit("4");
        reveal_strlit("5");
        reveal_strlit("6");
        reveal_strlit("7");
        reveal_strlit("8");
        reveal_strlit("9");
        assert(r@ =~= seq![digit_char(d as nat)]);
    }
    r
}

/// Appends the decimal digit characters of `n`.
fn push_dec_chars(out: &mut String, n: usize)
    ensures
        final(out)@ == old(out)@ + dec_chars(n as nat),
    decreases n,
{
    if n >= 10 {
        push_dec_chars(out, n / 10);
    }
    out.append(digit_str(n % 10));
    proof {
        assert(final(out)@ =~= old(out)@ + dec_chars(n as nat));
    }
}

impl State {
    /// The index of the next candidate line: one past the last success, or
    /// the first line when nothing has been posted yet.
    pub open spec fn spec_next_index(self) -> nat {
        match self.last_successful_index {
            Option::None => 0,
            Option::Some(k) => k as nat + 1,
        }
    }

    /// The textual form of the record for logs: the index verbatim, and a
    /// fixed redaction marker in place of the credential.
    pub fn render(&self) -> (out: String)
        ensures
            out@ == spec_render(self.last_successful_index),
    {
        let mut out = String::new();
        out.append("State { credential: [REDACTED], last_successful_index: ");
        match self.last_successful_index {
            None => out.append("None"),
            Some(k) => {
                out.append("Some(");
                push_dec_chars(&mut out, k);
                out.append(")");
            },
        }
        out.append(" }");
        proof {
            assert(out@ =~= spec_render(self.last_successful_index));
        }
        out
    }
}

/// The rendered form of a record depends on its index alone: two records
/// with the same index render identically whatever their credentials, so the
/// rendering carries no information about the credential.
pub proof fn lemma_render_independent_of_credential(a: State, b: State)
    requires
        a.last_successful_index == b.last_successful_index,
    ensures
        spec_render(a.last_successful_index) == spec_render(b.last_successful_index),
{
}

} // verus!
