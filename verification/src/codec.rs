//! The on-disk encoding of the state record.
//!
//! A state file holds two labelled lines: `index none` or `index <k>`, then
//! `credential <n> <bytes>` where `<n>` is the byte count of the credential,
//! so that the credential may hold any bytes at all. [`decode_state`] accepts
//! exactly the byte sequences that [`spec_decode`] describes, and
//! [`lemma_encode_decode`] proves that decoding inverts encoding for every
//! state record.

use crate::digits::{
    dec_digits, digit_run_end, digits_val, is_digit, lemma_dec_digits_are_digits,
    lemma_dec_digits_value, lemma_digit_run_end_exact, lemma_digit_run_end_props, parse_digits,
    push_dec,
};
use crate::state::State;
use vstd::prelude::*;

verus! {

/// Label opening the index line.
pub open spec fn tag_index() -> Seq<u8> {
    seq![105u8, 110u8, 100u8, 101u8, 120u8, 32u8]
}

/// Label opening the credential line.
pub open spec fn tag_credential() -> Seq<u8> {
    seq![99u8, 114u8, 101u8, 100u8, 101u8, 110u8, 116u8, 105u8, 97u8, 108u8, 32u8]
}

/// Marker standing for an absent index.
pub open spec fn none_marker() -> Seq<u8> {
    seq![110u8, 111u8, 110u8, 101u8]
}

/// The bytes of the index field: the marker, or the decimal index.
pub open spec fn index_field(idx: Option<usize>) -> Seq<u8> {
    match idx {
        Option::None => none_marker(),
        Option::Some(k) => dec_digits(k as nat),
    }
}

/// The encoding of a state record.
pub open spec fn spec_encode(s: State) -> Seq<u8> {
    tag_index() + index_field(s.last_successful_index) + seq![10u8] + tag_credential()
        + dec_digits(s.credential@.len()) + seq![32u8] + s.credential@ + seq![10u8]
}

/// Whether `pat` occurs in `v` at position `i`.
pub open spec fn has_at(v: Seq<u8>, i: int, pat: Seq<u8>) -> bool {
    0 <= i && i + pat.len() <= v.len() && v.subrange(i, i + pat.len()) == pat
}

/// What decoding yields from the bytes `v`: the index and the credential of
/// the record that `v` encodes, or nothing when `v` is not a well-formed
/// record.
pub open spec fn spec_decode(v: Seq<u8>) -> Option<(Option<usize>, Seq<u8>)> {
    if !has_at(v, 0, tag_index()) {
        Option::None
    } else {
        let i = tag_index().len() as int;
        if i < v.len() && v[i] == 110 {
            if has_at(v, i, none_marker()) {
                spec_decode_tail(v, i + none_marker().len(), Option::None)
            } else {
                Option::None
            }
        } else {
            let e = digit_run_end(v, i);
            let val = digits_val(v.subrange(i, e));
            if e == i || val > usize::MAX {
                Option::None
            } else {
                spec_decode_tail(v, e, Option::Some(val as usize))
            }
        }
    }
}

/// Decoding past the index field: the line break, the credential line, and
/// the end of the record.
pub open spec fn spec_decode_tail(v: Seq<u8>, j: int, idx: Option<usize>) -> Option<
    (Option<usize>, Seq<u8>),
> {
    if !(0 <= j < v.len() && v[j] == 10) {
        Option::None
    } else if !has_at(v, j + 1, tag_credential()) {
        Option::None
    } else {
        let p = j + 1 + tag_credential().len();
        let e = digit_run_end(v, p);
        let n = digits_val(v.subrange(p, e));
        if e == p || n > usize::MAX {
            Option::None
        } else if !(e < v.len() && v[e] == 32) {
            Option::None
        } else {
            let c0 = e + 1;
            if c0 + n + 1 == v.len() && v[c0 + n] == 10 {
                Option::Some((idx, v.subrange(c0, c0 + n)))
            } else {
                Option::None
            }
        }
    }
}

/// Builds the index-line label.
fn tag_index_vec() -> (t: Vec<u8>)
    ensures
        t@ == tag_index(),
{
    let mut t: Vec<u8> = Vec::new();
    t.push(105);
    t.push(110);
    t.push(100);
    t.push(101);
    t.push(120);
    t.push(32);
    proof {
        assert(t@ =~= tag_index());
    }
    t
}

/// Builds the credential-line label.
fn tag_credential_vec() -> (t: Vec<u8>)
    ensures
        t@ == tag_credential(),
{
    let mut t: Vec<u8> = Vec::new();
    t.push(99);
    t.push(114);
    t.push(101);
    t.push(100);
    t.push(101);
    t.push(110);
    t.push(116);
    t.push(105);
    t.push(97);
    t.push(108);
    t.push(32);
    proof {
        assert(t@ =~= tag_credential());
    }
    t
}

/// Builds the marker for an absent index.
fn none_marker_vec() -> (t: Vec<u8>)
    ensures
        t@ == none_marker(),
{
    let mut t: Vec<u8> = Vec::new();
    t.push(110);
    t.push(111);
    t.push(110);
    t.push(101);
    proof {
        assert(t@ =~= none_marker());
    }
    t
}

/// Whether `pat` occurs in `v` at position `at`.
fn has_tag(v: &Vec<u8>, at: usize, pat: &Vec<u8>) -> (r: bool)
    ensures
        r == has_at(v@, at as int, pat@),
{
    if at > v.len() || v.len() - at < pat.len() {
        return false;
    }
    proof {
        vstd::std_specs::vec::axiom_spec_len(v);
    }
    let mut k: usize = 0;
    while k < pat.len()
        invariant
            at + pat@.len() <= v@.len() <= usize::MAX,
            k <= pat@.len(),
            forall|t: int| 0 <= t < k ==> v@[at + t] == pat@[t],
        decreases pat@.len() - k,
    {
        if v[at + k] != pat[k] {
            proof {
                assert(v@.subrange(at as int, at + pat@.len())[k as int] != pat@[k as int]);
            }
            return false;
        }
        k += 1;
    }
    proof {
        assert(v@.subrange(at as int, at + pat@.len()) =~= pat@);
    }
    true
}

/// Appends every byte of `src`.
fn push_all(out: &mut Vec<u8>, src: &Vec<u8>)
    ensures
        final(out)@ == old(out)@ + src@,
{
    let mut k: usize = 0;
    while k < src.len()
        invariant
            k <= src@.len(),
            out@ == old(out)@ + src@.subrange(0, k as int),
        decreases src@.len() - k,
    {
        out.push(src[k]);
        proof {
            assert(out@ =~= old(out)@ + src@.subrange(0, k as int + 1));
        }
        k += 1;
    }
    proof {
        assert(old(out)@ + src@.subrange(0, src@.len() as int) =~= old(out)@ + src@);
    }
}

/// Encodes a state record for the state file.
pub fn encode_state(s: &State) -> (out: Vec<u8>)
    ensures
        out@ == spec_encode(*s),
{
    let mut out: Vec<u8> = Vec::new();
    let ti = tag_index_vec();
    push_all(&mut out, &ti);
    match s.last_successful_index {
        None => {
            let nm = none_marker_vec();
            push_all(&mut out, &nm);
        },
        Some(k) => {
            push_dec(&mut out, k);
        },
    }
    out.push(10);
    let tc = tag_credential_vec();
    push_all(&mut out, &tc);
    push_dec(&mut out, s.credential.len());
    out.push(32);
    push_all(&mut out, &s.credential);
    out.push(10);
    proof {
        assert(out@ =~= spec_encode(*s));
    }
    out
}

/// Decodes everything past the index field of a state file.
fn decode_tail(v: &Vec<u8>, j: usize, idx: Option<usize>) -> (r: Option<State>)
    requires
        j <= v@.len(),
    ensures
        ({
            let m = spec_decode_tail(v@, j as int, idx);
            match r {
                Option::Some(s) => m == Option::Some((s.last_successful_index, s.credential@))
                    && s.last_successful_index == idx,
                Option::None => m is None,
            }
        }),
{
    if j >= v.len() || v[j] != 10 {
        return None;
    }
    let tc = tag_credential_vec();
    if !has_tag(v, j + 1, &tc) {
        return None;
    }
    let p = j + 1 + tc.len();
    proof {
        lemma_digit_run_end_props(v@, p as int);
    }
    match parse_digits(v, p) {
        None => None,
        Some((n, e)) => {
            if e >= v.len() || v[e] != 32 {
                return None;
            }
            let c0 = e + 1;
            if n > v.len() - c0 {
                return None;
            }
            let c1 = c0 + n;
            if c1 >= v.len() || v.len() - c1 != 1 || v[c1] != 10 {
                return None;
            }
            proof {
                vstd::std_specs::vec::axiom_spec_len(v);
            }
            let mut cred: Vec<u8> = Vec::new();
            let mut t: usize = 0;
            while t < n
                invariant
                    c0 + n <= v@.len() <= usize::MAX,
                    t <= n,
                    cred@ == v@.subrange(c0 as int, c0 as int + t as int),
                decreases n - t,
            {
                cred.push(v[c0 + t]);
                proof {
                    assert(cred@ =~= v@.subrange(c0 as int, c0 as int + t as int + 1));
                }
                t += 1;
            }
            Some(State { credential: cred, last_successful_index: idx })
        },
    }
}

/// Decodes a state file; yields the record it encodes, or nothing when the
/// bytes are not a well-formed record.
pub fn decode_state(v: &Vec<u8>) -> (r: Option<State>)
    ensures
        ({
            let m = spec_decode(v@);
            match r {
                Option::Some(s) => m == Option::Some((s.last_successful_index, s.credential@)),
                Option::None => m is None,
            }
        }),
{
    let ti = tag_index_vec();
    if !has_tag(v, 0, &ti) {
        return None;
    }
    let i = ti.len();
    if i < v.len() && v[i] == 110 {
        let nm = none_marker_vec();
        if !has_tag(v, i, &nm) {
            return None;
        }
        decode_tail(v, i + nm.len(), None)
    } else {
        proof {
            lemma_digit_run_end_props(v@, i as int);
        }
        match parse_digits(v, i) {
            None => None,
            Some((val, e)) => decode_tail(v, e, Some(val)),
        }
    }
}

/// A region of `v` that holds the canonical digits of `n` and ends before a
/// non-digit byte is the maximal digit run at its start, and it parses back
/// to `n`.
proof fn lemma_digit_region(v: Seq<u8>, i: int, n: nat)
    requires
        0 <= i,
        i + dec_digits(n).len() <= v.len(),
        forall|t: int| 0 <= t < dec_digits(n).len() ==> v[i + t] == #[trigger] dec_digits(n)[t],
        i + dec_digits(n).len() == v.len() || !is_digit(v[i + dec_digits(n).len()]),
    ensures
        digit_run_end(v, i) == i + dec_digits(n).len(),
        digits_val(v.subrange(i, i + dec_digits(n).len())) == n,
{
    lemma_dec_digits_are_digits(n);
    lemma_dec_digits_value(n);
    let e = i + dec_digits(n).len();
    assert forall|k: int| i <= k < e implies is_digit(#[trigger] v[k]) by {
        assert(v[k] == dec_digits(n)[k - i]);
    }
    lemma_digit_run_end_exact(v, i, e);
    assert(v.subrange(i, e) =~= dec_digits(n));
}

/// A sequence that continues, after some prefix, with a line break, the
/// credential line for `c`, and nothing more, decodes past the prefix to `c`.
#[verifier::rlimit(50)]
proof fn lemma_decode_tail_of_shape(x: Seq<u8>, c: Seq<u8>, idx: Option<usize>)
    requires
        c.len() <= usize::MAX,
    ensures
        ({
            let v = x + seq![10u8] + tag_credential() + dec_digits(c.len()) + seq![32u8] + c
                + seq![10u8];
            spec_decode_tail(v, x.len() as int, idx) == Option::Some((idx, c))
        }),
{
    let dl = dec_digits(c.len());
    let v = x + seq![10u8] + tag_credential() + dl + seq![32u8] + c + seq![10u8];
    let j = x.len() as int;
    let p = j + 1 + 11;
    let e = p + dl.len() as int;
    let c0 = e + 1;
    lemma_dec_digits_are_digits(c.len());
    assert(v.len() == x.len() + 1 + 11 + dl.len() + 1 + c.len() + 1);
    assert(v[j] == 10);
    assert(v.subrange(j + 1, p) =~= tag_credential());
    assert(has_at(v, j + 1, tag_credential()));
    assert forall|t: int| 0 <= t < dl.len() implies v[p + t] == #[trigger] dl[t] by {}
    assert(v[e] == 32);
    assert(!is_digit(v[e]));
    lemma_digit_region(v, p, c.len());
    assert(v.subrange(c0, c0 + c.len() as int) =~= c);
    assert(v[c0 + c.len() as int] == 10);
    assert(c0 + c.len() + 1 == v.len());
}

/// Decoding inverts encoding: for every state record, the bytes written for
/// it decode to exactly its index and its credential.
#[verifier::rlimit(50)]
pub proof fn lemma_encode_decode(s: State)
    ensures
        spec_decode(spec_encode(s)) == Option::Some(
            (s.last_successful_index, s.credential@),
        ),
{
    vstd::std_specs::vec::axiom_spec_len(&s.credential);
    let v = spec_encode(s);
    let fi = index_field(s.last_successful_index);
    let x = tag_index() + fi;
    let cred = s.credential@;
    let j = x.len() as int;
    lemma_decode_tail_of_shape(x, cred, s.last_successful_index);
    assert(v =~= x + seq![10u8] + tag_credential() + dec_digits(cred.len()) + seq![32u8] + cred
        + seq![10u8]);
    assert(spec_decode_tail(v, j, s.last_successful_index) == Option::Some(
        (s.last_successful_index, cred),
    ));
    assert(v.len() == 6 + fi.len() + 1 + 11 + dec_digits(cred.len()).len() + 1 + cred.len() + 1);
    assert(v.subrange(0, 6) =~= tag_index());
    assert(has_at(v, 0, tag_index()));
    assert forall|t: int| 0 <= t < fi.len() implies v[6 + t] == #[trigger] fi[t] by {}
    match s.last_successful_index {
        Option::None => {
            assert(fi == none_marker());
            assert(v[6] == 110);
            assert(v.subrange(6, 10) =~= none_marker());
            assert(has_at(v, 6, none_marker()));
            assert(j == 6 + none_marker().len());
        },
        Option::Some(k) => {
            assert(fi == dec_digits(k as nat));
            lemma_dec_digits_are_digits(k as nat);
            assert(v[6] == fi[0]);
            assert(is_digit(v[6]));
            assert(v[6] != 110);
            assert(v[6 + fi.len() as int] == 10);
            lemma_digit_region(v, 6, k as nat);
            assert(digit_run_end(v, 6) == j);
            assert(digits_val(v.subrange(6, j)) == k as nat);
        },
    }
}

/// The encoding is injective: two records whose state files hold the same
/// bytes hold the same index and the same credential.
pub proof fn lemma_encode_injective(a: State, b: State)
    requires
        spec_encode(a) == spec_encode(b),
    ensures
        a.last_successful_index == b.last_successful_index,
        a.credential@ == b.credential@,
{
    lemma_encode_decode(a);
    lemma_encode_decode(b);
}

} // verus!
