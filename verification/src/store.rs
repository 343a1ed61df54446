//! The pixel store: the flattened, sorted sequence of colors read off
//! the decoded image buffer, and the dedup pass over it.

use vstd::prelude::*;
use vstd::relations::sorted_by;
use vstd::seq_lib::lemma_sorted_unique;

use crate::pixel::{lemma_lex_total, lex_le, lex_leq, px_le, Px};

verus! {

/// The sequence of colors held by a flat RGB8 buffer, row-major,
/// three bytes per pixel; a trailing fragment of fewer than three
/// bytes carries no pixel.
pub open spec fn triples(buf: Seq<u8>) -> Seq<Px> {
    Seq::new(
        (buf.len() / 3) as nat,
        |i: int| Px { r: buf[3 * i], g: buf[3 * i + 1], b: buf[3 * i + 2] },
    )
}

/// Reads the interleaved buffer into one color per three bytes.
pub fn pixels_from_buffer(buf: &[u8]) -> (v: Vec<Px>)
    ensures
        v@ == triples(buf@),
{
    let len: usize = buf.len();
    let n: usize = len / 3;
    let mut v: Vec<Px> = Vec::new();
    let mut i: usize = 0;
    while i < n
        invariant
            len == buf@.len(),
            n == buf@.len() / 3,
            3 * (n as int) <= len,
            i <= n,
            v@ =~= triples(buf@).take(i as int),
        decreases n - i,
    {
        assert(3 * (i as int) + 2 < 3 * (n as int));
        let p = Px { r: buf[3 * i], g: buf[3 * i + 1], b: buf[3 * i + 2] };
        v.push(p);
        i = i + 1;
    }
    assert(v@ =~= triples(buf@));
    v
}

proof fn lemma_swap_multiset(s: Seq<Px>, a: int, b: int)
    requires
        0 <= a < b < s.len(),
    ensures
        s.update(a, s[b]).update(b, s[a]).to_multiset() == s.to_multiset(),
{
    broadcast use vstd::seq_lib::to_multiset_update;
    broadcast use vstd::seq_lib::group_to_multiset_ensures;
    broadcast use vstd::multiset::group_multiset_axioms;

    let s1 = s.update(a, s[b]);
    assert(s.contains(s[a]));
    assert(s1[b] == s[b]);
    assert(s1.update(b, s[a]).to_multiset() =~= s.to_multiset());
}

/// Sorts the store ascending by the lexicographic (R, G, B) order.
/// The result is exactly the mathematical sort of the input sequence.
pub fn sort_pixels(v: &mut Vec<Px>)
    ensures
        final(v)@ == old(v)@.sort_by(lex_leq()),
        sorted_by(final(v)@, lex_leq()),
        final(v)@.to_multiset() == old(v)@.to_multiset(),
        final(v)@.len() == old(v)@.len(),
{
    let ghost orig: Seq<Px> = v@;
    let n: usize = v.len();
    let mut i: usize = 1;
    while i < n
        invariant
            n == v@.len(),
            v@.to_multiset() == orig.to_multiset(),
            n == 0 || 1 <= i,
            forall|a: int, b: int| 0 <= a < b < i && b < n ==> lex_le(v@[a], v@[b]),
        decreases n - i,
    {
        let mut j: usize = i;
        while j > 0
            invariant
                n == v@.len(),
                j <= i < n,
                v@.to_multiset() == orig.to_multiset(),
                forall|a: int, b: int| 0 <= a < b < j ==> lex_le(v@[a], v@[b]),
                forall|a: int, b: int| j <= a < b <= i ==> lex_le(v@[a], v@[b]),
                forall|a: int, b: int| 0 <= a < j && j < b <= i ==> lex_le(v@[a], v@[b]),
            ensures
                n == v@.len(),
                j <= i < n,
                v@.to_multiset() == orig.to_multiset(),
                forall|a: int, b: int| 0 <= a < b < j ==> lex_le(v@[a], v@[b]),
                forall|a: int, b: int| j <= a < b <= i ==> lex_le(v@[a], v@[b]),
                forall|a: int, b: int| 0 <= a < j && j < b <= i ==> lex_le(v@[a], v@[b]),
                j == 0 || lex_le(v@[j - 1], v@[j as int]),
            decreases j,
        {
            if px_le(v[j - 1], v[j]) {
                break ;
            }
            let ghost before: Seq<Px> = v@;
            let x = v[j - 1];
            let y = v[j];
            v[j - 1] = y;
            v[j] = x;
            proof {
                assert(v@ =~= before.update(j - 1, before[j as int]).update(
                    j as int,
                    before[j - 1],
                ));
                lemma_swap_multiset(before, j - 1, j as int);
            }
            j = j - 1;
        }
        proof {
            assert forall|a: int, b: int| 0 <= a < b < i + 1 && b < n implies lex_le(
                v@[a],
                v@[b],
            ) by {
                if b < j {
                } else if a >= j {
                } else if b > j {
                } else {
                    // a < j, b == j: step through the element at j - 1
                    assert(lex_le(v@[j - 1], v@[j as int]));
                    if a < j - 1 {
                        assert(lex_le(v@[a], v@[j - 1]));
                    }
                }
            }
        }
        i = i + 1;
    }
    proof {
        lemma_lex_total();
        assert(sorted_by(v@, lex_leq())) by {
            assert forall|a: int, b: int| 0 <= a < b < v@.len() implies lex_leq()(
                v@[a],
                v@[b],
            ) by {
                assert(lex_le(v@[a], v@[b]));
            }
        }
        orig.lemma_sort_by_ensures(lex_leq());
        lemma_sorted_unique(v@, orig.sort_by(lex_leq()), lex_leq());
        broadcast use vstd::seq_lib::group_to_multiset_ensures;

        assert(v@.len() == v@.to_multiset().len());
        assert(orig.len() == orig.to_multiset().len());
    }
}

/// What removing adjacent duplicate colors leaves: the last element is
/// kept only where it differs from the survivor just before it.
pub open spec fn dedup_spec(s: Seq<Px>) -> Seq<Px>
    decreases s.len(),
{
    if s.len() == 0 {
        Seq::empty()
    } else {
        let d = dedup_spec(s.drop_last());
        if d.len() > 0 && d.last() == s.last() {
            d
        } else {
            d.push(s.last())
        }
    }
}

/// Removes adjacent duplicates; on a sorted store this leaves each
/// distinct color exactly once.
pub fn dedup_pixels(v: &Vec<Px>) -> (out: Vec<Px>)
    ensures
        out@ == dedup_spec(v@),
{
    let mut out: Vec<Px> = Vec::new();
    let mut i: usize = 0;
    while i < v.len()
        invariant
            i <= v@.len(),
            out@ == dedup_spec(v@.take(i as int)),
        decreases v@.len() - i,
    {
        let p = v[i];
        let keep: bool = if out.len() == 0 {
            true
        } else {
            !(out[out.len() - 1] == p)
        };
        if keep {
            out.push(p);
        }
        proof {
            assert(v@.take(i as int + 1).drop_last() =~= v@.take(i as int));
            assert(v@.take(i as int + 1).last() == v@[i as int]);
        }
        i = i + 1;
    }
    proof {
        assert(v@.take(v@.len() as int) =~= v@);
    }
    out
}

} // verus!
