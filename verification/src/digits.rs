//! Decimal digit strings over bytes.
//!
//! The state file stores its two numbers (the last successful index and the
//! credential length) as ASCII decimal. This module defines the canonical
//! digit string of a number, the value of a digit string, the end of a digit
//! run inside a byte sequence, and executable code to emit and parse digit
//! runs, together with the lemmas the codec's round-trip proof needs.

use vstd::prelude::*;

verus! {

/// Whether a byte is an ASCII decimal digit.
pub open spec fn is_digit(b: u8) -> bool {
    48 <= b <= 57
}

/// The numeric value of one digit byte; bytes outside the digit range count
/// as zero so that the value of a digit string is total.
pub open spec fn digit_val(b: u8) -> nat {
    if is_digit(b) {
        (b - 48) as nat
    } else {
        0
    }
}

/// The canonical decimal digit string of `n`: no leading zeros, and `"0"`
/// for zero, most significant digit first.
pub open spec fn dec_digits(n: nat) -> Seq<u8>
    decreases n,
{
    if n < 10 {
        seq![(48 + n) as u8]
    } else {
        dec_digits(n / 10).push((48 + n % 10) as u8)
    }
}

/// The numeric value of a digit string, most significant digit first.
pub open spec fn digits_val(s: Seq<u8>) -> nat
    decreases s.len(),
{
    if s.len() == 0 {
        0
    } else {
        digits_val(s.drop_last()) * 10 + digit_val(s.last())
    }
}

/// The first position at or after `i` that does not hold a digit (or the end
/// of the sequence), so that `[i, digit_run_end(v, i))` is the maximal digit
/// run starting at `i`.
pub open spec fn digit_run_end(v: Seq<u8>, i: int) -> int
    decreases v.len() - i,
{
    if i < 0 || i >= v.len() {
        i
    } else if is_digit(v[i]) {
        digit_run_end(v, i + 1)
    } else {
        i
    }
}

/// Powers of ten.
pub open spec fn pow10(k: nat) -> nat
    decreases k,
{
    if k == 0 {
        1
    } else {
        10 * pow10((k - 1) as nat)
    }
}

pub proof fn lemma_pow10_pos(k: nat)
    ensures
        pow10(k) >= 1,
    decreases k,
{
    if k > 0 {
        lemma_pow10_pos((k - 1) as nat);
    }
}

/// The canonical digit string of a number is nonempty and made of digits.
pub proof fn lemma_dec_digits_are_digits(n: nat)
    ensures
        dec_digits(n).len() >= 1,
        forall|i: int| 0 <= i < dec_digits(n).len() ==> is_digit(#[trigger] dec_digits(n)[i]),
    decreases n,
{
    if n < 10 {
        assert(dec_digits(n)[0] == (48 + n) as u8);
    } else {
        lemma_dec_digits_are_digits(n / 10);
        let prev = dec_digits(n / 10);
        let d = (48 + n % 10) as u8;
        assert forall|i: int| 0 <= i < dec_digits(n).len() implies is_digit(
            #[trigger] dec_digits(n)[i],
        ) by {
            if i < prev.len() {
                assert(dec_digits(n)[i] == prev[i]);
            } else {
                assert(dec_digits(n)[i] == d);
            }
        }
    }
}

/// Parsing the canonical digit string of `n` gives back `n`.
pub proof fn lemma_dec_digits_value(n: nat)
    ensures
        digits_val(dec_digits(n)) == n,
    decreases n,
{
    if n < 10 {
        let s = dec_digits(n);
        assert(s =~= seq![(48 + n) as u8]);
        assert(s.drop_last() =~= Seq::<u8>::empty());
        assert(s.last() == (48 + n) as u8);
        assert(digits_val(s.drop_last()) == 0);
        assert(digit_val(s.last()) == n);
        assert(digits_val(s) == 0 * 10 + n);
    } else {
        lemma_dec_digits_value(n / 10);
        let s = dec_digits(n);
        assert(s.drop_last() =~= dec_digits(n / 10));
        assert(s.last() == (48 + n % 10) as u8);
        assert(digit_val(s.last()) == n % 10);
        assert(digits_val(s) == (n / 10) * 10 + n % 10);
        assert((n / 10) * 10 + n % 10 == n) by (nonlinear_arith);
    }
}

/// The properties that make `digit_run_end` the end of the maximal digit run.
pub proof fn lemma_digit_run_end_props(v: Seq<u8>, i: int)
    requires
        0 <= i <= v.len(),
    ensures
        i <= digit_run_end(v, i) <= v.len(),
        forall|k: int| i <= k < digit_run_end(v, i) ==> is_digit(#[trigger] v[k]),
        digit_run_end(v, i) < v.len() ==> !is_digit(v[digit_run_end(v, i)]),
    decreases v.len() - i,
{
    if i < v.len() && is_digit(v[i]) {
        lemma_digit_run_end_props(v, i + 1);
    }
}

/// A digit region followed by a non-digit (or the end) is exactly the maximal
/// digit run.
pub proof fn lemma_digit_run_end_exact(v: Seq<u8>, i: int, e: int)
    requires
        0 <= i <= e <= v.len(),
        forall|k: int| i <= k < e ==> is_digit(#[trigger] v[k]),
        e == v.len() || !is_digit(v[e]),
    ensures
        digit_run_end(v, i) == e,
    decreases e - i,
{
    if i == e {
    } else {
        assert(is_digit(v[i]));
        lemma_digit_run_end_exact(v, i + 1, e);
    }
}

/// The value of a concatenation of digit strings.
pub proof fn lemma_digits_val_append(s: Seq<u8>, t: Seq<u8>)
    ensures
        digits_val(s + t) == digits_val(s) * pow10(t.len()) + digits_val(t),
    decreases t.len(),
{
    if t.len() == 0 {
        assert(s + t =~= s);
        assert(pow10(t.len()) == 1);
        assert(digits_val(t) == 0);
        assert(digits_val(s) * 1 == digits_val(s)) by (nonlinear_arith);
    } else {
        lemma_digits_val_append(s, t.drop_last());
        assert((s + t).drop_last() =~= s + t.drop_last());
        assert((s + t).last() == t.last());
        let a = digits_val(s);
        let p = pow10((t.len() - 1) as nat);
        let b = digits_val(t.drop_last());
        let d = digit_val(t.last());
        assert(digits_val(s + t) == (a * p + b) * 10 + d);
        assert((a * p + b) * 10 + d == a * (10 * p) + (b * 10 + d)) by (nonlinear_arith);
        assert(pow10(t.len()) == 10 * p);
        assert(a * (10 * p) == a * pow10(t.len())) by (nonlinear_arith)
            requires
                pow10(t.len()) == 10 * p,
        ;
        assert(digits_val(t) == b * 10 + d);
        assert(digits_val(s + t) == a * pow10(t.len()) + digits_val(t));
    }
}

/// Extending a digit string to the right can only grow its value.
pub proof fn lemma_digits_val_prefix(s: Seq<u8>, t: Seq<u8>)
    ensures
        digits_val(s + t) >= digits_val(s),
{
    lemma_digits_val_append(s, t);
    lemma_pow10_pos(t.len());
    let a = digits_val(s);
    let p = pow10(t.len());
    assert(a * p >= a * 1) by (nonlinear_arith)
        requires
            p >= 1,
            a >= 0,
    ;
}

/// Appends the canonical decimal digit string of `n`.
pub fn push_dec(out: &mut Vec<u8>, n: usize)
    ensures
        final(out)@ == old(out)@ + dec_digits(n as nat),
    decreases n,
{
    if n >= 10 {
        push_dec(out, n / 10);
    }
    out.push(48 + (n % 10) as u8);
    proof {
        assert(final(out)@ =~= old(out)@ + dec_digits(n as nat));
    }
}

/// Parses the maximal digit run starting at `start`, returning its value and
/// its end position; returns `None` when no digit stands at `start` or the
/// value does not fit in `usize`.
pub fn parse_digits(v: &Vec<u8>, start: usize) -> (r: Option<(usize, usize)>)
    requires
        start <= v.len(),
    ensures
        ({
            let e = digit_run_end(v@, start as int);
            let val = digits_val(v@.subrange(start as int, e));
            if e == start || val > usize::MAX {
                r is None
            } else {
                r == Some((val as usize, e as usize))
            }
        }),
{
    let ghost e = digit_run_end(v@, start as int);
    proof {
        lemma_digit_run_end_props(v@, start as int);
    }
    let mut i: usize = start;
    let mut acc: usize = 0;
    while i < v.len() && 48 <= v[i] && v[i] <= 57
        invariant
            start <= i <= e <= v@.len(),
            e == digit_run_end(v@, start as int),
            i <= v@.len(),
            acc == digits_val(v@.subrange(start as int, i as int)),
            forall|k: int| start <= k < e ==> is_digit(#[trigger] v@[k]),
            e < v@.len() ==> !is_digit(v@[e]),
        decreases v@.len() - i,
    {
        let d: u8 = v[i] - 48;
        let ghost done = v@.subrange(start as int, i as int);
        let ghost next = v@.subrange(start as int, i as int + 1);
        proof {
            assert(next.drop_last() =~= done);
            assert(next.last() == v@[i as int]);
            assert(digits_val(next) == acc * 10 + d);
            assert(i < e);
        }
        let stepped: Option<usize> = match acc.checked_mul(10) {
            Some(m) => m.checked_add(d as usize),
            None => None,
        };
        match stepped {
            Some(a2) => {
                acc = a2;
                i = i + 1;
            },
            None => {
                proof {
                    let rest = v@.subrange(i as int + 1, e);
                    assert(v@.subrange(start as int, e) =~= next + rest);
                    lemma_digits_val_prefix(next, rest);
                }
                return None;
            },
        }
    }
    proof {
        assert(i == e);
    }
    if i == start {
        None
    } else {
        Some((acc, i))
    }
}

} // verus!
