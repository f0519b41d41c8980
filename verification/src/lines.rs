//! Splitting the toots file into candidate lines.
//!
//! The toots file is line-oriented: each line is one candidate post. A line
//! ends at a line feed, and a carriage return standing right before the line
//! feed belongs to the ending, not to the line. The final line needs no
//! ending at all, and then it keeps every byte it has.

use vstd::prelude::*;

verus! {

/// The first position at or after `i` that holds a line feed, or the end of
/// the sequence.
pub open spec fn line_end(v: Seq<u8>, i: int) -> int
    decreases v.len() - i,
{
    if i < 0 || i >= v.len() {
        i
    } else if v[i] == 10 {
        i
    } else {
        line_end(v, i + 1)
    }
}

/// A terminated line without its trailing carriage return, if it has one.
pub open spec fn strip_cr(s: Seq<u8>) -> Seq<u8> {
    if s.len() > 0 && s.last() == 13 {
        s.drop_last()
    } else {
        s
    }
}

/// The properties that make `line_end` the end of the current line.
pub proof fn lemma_line_end_props(v: Seq<u8>, i: int)
    requires
        0 <= i <= v.len(),
    ensures
        i <= line_end(v, i) <= v.len(),
        forall|k: int| i <= k < line_end(v, i) ==> v[k] != 10,
        line_end(v, i) < v.len() ==> v[line_end(v, i)] == 10,
    decreases v.len() - i,
{
    if i < v.len() && v[i] != 10 {
        lemma_line_end_props(v, i + 1);
    }
}

/// The lines of `v` from position `i` on.
pub open spec fn lines_from(v: Seq<u8>, i: int) -> Seq<Seq<u8>>
    decreases v.len() - i,
        via lines_from_decreases
{
    if i < 0 || i >= v.len() {
        Seq::empty()
    } else {
        let e = line_end(v, i);
        if e >= v.len() {
            seq![v.subrange(i, e)]
        } else {
            seq![strip_cr(v.subrange(i, e))] + lines_from(v, e + 1)
        }
    }
}

#[via_fn]
proof fn lines_from_decreases(v: Seq<u8>, i: int) {
    if 0 <= i < v.len() {
        lemma_line_end_props(v, i);
    }
}

/// The lines of the whole of `v`.
pub open spec fn spec_lines(v: Seq<u8>) -> Seq<Seq<u8>> {
    lines_from(v, 0)
}

/// Splits a text into its lines: each line loses its ending (a line feed, or
/// a carriage return and a line feed), and a final line without an ending
/// keeps every byte it has. A text without bytes has no lines.
pub fn split_lines(v: &Vec<u8>) -> (r: Vec<Vec<u8>>)
    ensures
        r.deep_view() == spec_lines(v@),
{
    let mut r: Vec<Vec<u8>> = Vec::new();
    let mut i: usize = 0;
    proof {
        vstd::std_specs::vec::axiom_spec_len(v);
        assert(r.deep_view() + lines_from(v@, 0) =~= lines_from(v@, 0));
    }
    while i < v.len()
        invariant
            i <= v@.len() <= usize::MAX,
            lines_from(v@, 0) == r.deep_view() + lines_from(v@, i as int),
        decreases v@.len() - i,
    {
        let ghost le = line_end(v@, i as int);
        proof {
            lemma_line_end_props(v@, i as int);
        }
        let mut e: usize = i;
        while e < v.len() && v[e] != 10
            invariant
                i <= e <= le <= v@.len(),
                le == line_end(v@, i as int),
                forall|k: int| i <= k < le ==> v@[k] != 10,
                le < v@.len() ==> v@[le] == 10,
            decreases v@.len() - e,
        {
            e += 1;
        }
        proof {
            assert(e == le);
        }
        let terminated = e < v.len();
        let end = if terminated && e > i && v[e - 1] == 13 {
            e - 1
        } else {
            e
        };
        let ghost raw = v@.subrange(i as int, e as int);
        proof {
            if terminated {
                assert(v@.subrange(i as int, end as int) =~= strip_cr(raw));
            } else {
                assert(v@.subrange(i as int, end as int) =~= raw);
            }
        }
        let mut line: Vec<u8> = Vec::new();
        let mut t: usize = i;
        while t < end
            invariant
                i <= t <= end <= v@.len(),
                line@ == v@.subrange(i as int, t as int),
            decreases end - t,
        {
            line.push(v[t]);
            proof {
                assert(line@ =~= v@.subrange(i as int, t as int + 1));
            }
            t += 1;
        }
        let ghost r_before = r.deep_view();
        let ghost next = if le < v@.len() {
            le + 1
        } else {
            v@.len() as int
        };
        proof {
            assert(line.deep_view() =~= line@);
            if le >= v@.len() {
                assert(lines_from(v@, i as int) == seq![raw]);
                assert(lines_from(v@, next) =~= Seq::<Seq<u8>>::empty());
                assert(lines_from(v@, i as int) =~= seq![line@] + lines_from(v@, next));
            } else {
                assert(lines_from(v@, i as int) == seq![strip_cr(raw)] + lines_from(v@, next));
            }
        }
        r.push(line);
        proof {
            assert(r.deep_view() =~= r_before.push(line@));
            assert(r_before + (seq![line@] + lines_from(v@, next)) =~= r_before.push(line@)
                + lines_from(v@, next));
        }
        i = if e < v.len() {
            e + 1
        } else {
            v.len()
        };
    }
    proof {
        assert(lines_from(v@, i as int) =~= Seq::<Seq<u8>>::empty());
        assert(r.deep_view() + Seq::<Seq<u8>>::empty() =~= r.deep_view());
    }
    r
}

} // verus!
