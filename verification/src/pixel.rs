//! The color sample type and the Manhattan metric on raw RGB space.

use vstd::prelude::*;

verus! {

/// One color sample: an ordered triple of 8-bit channels (R, G, B).
#[derive(Clone, Copy, PartialEq, Eq, Structural, Debug)]
pub struct Px {
    pub r: u8,
    pub g: u8,
    pub b: u8,
}

/// The all-black color, the initial value of every centroid slot.
pub open spec fn zero_px() -> Px {
    Px { r: 0, g: 0, b: 0 }
}

pub open spec fn abs_diff(x: int, y: int) -> int {
    if x >= y {
        x - y
    } else {
        y - x
    }
}

/// Manhattan distance between two colors: the sum of the absolute
/// per-channel differences. Always in `[0, 765]`.
pub open spec fn dist(a: Px, b: Px) -> int {
    abs_diff(a.r as int, b.r as int) + abs_diff(a.g as int, b.g as int) + abs_diff(
        a.b as int,
        b.b as int,
    )
}

/// Lexicographic order on the (R, G, B) triple; the order every store
/// and the final palette are sorted by.
pub open spec fn lex_le(a: Px, b: Px) -> bool {
    ||| a.r < b.r
    ||| (a.r == b.r && a.g < b.g)
    ||| (a.r == b.r && a.g == b.g && a.b <= b.b)
}

/// `lex_le` as a first-class relation, for the sorting library.
pub open spec fn lex_leq() -> spec_fn(Px, Px) -> bool {
    |a: Px, b: Px| lex_le(a, b)
}

pub proof fn lemma_lex_total()
    ensures
        vstd::relations::total_ordering(lex_leq()),
{
    let r = lex_leq();
    assert forall|x: Px| #[trigger] r(x, x) by {}
    assert forall|x: Px, y: Px| #[trigger] r(x, y) && #[trigger] r(y, x) implies x == y by {}
    assert forall|x: Px, y: Px, z: Px| #[trigger] r(x, y) && #[trigger] r(y, z) implies r(
        x,
        z,
    ) by {}
    assert forall|x: Px, y: Px| #[trigger] r(x, y) || #[trigger] r(y, x) by {}
}

/// Manhattan distance, computed in integers wide enough never to wrap.
pub fn px_dist(a: Px, b: Px) -> (d: u64)
    ensures
        d as int == dist(a, b),
{
    let dr: u64 = if a.r >= b.r {
        (a.r - b.r) as u64
    } else {
        (b.r - a.r) as u64
    };
    let dg: u64 = if a.g >= b.g {
        (a.g - b.g) as u64
    } else {
        (b.g - a.g) as u64
    };
    let db: u64 = if a.b >= b.b {
        (a.b - b.b) as u64
    } else {
        (b.b - a.b) as u64
    };
    dr + dg + db
}

/// Decides the lexicographic (R, G, B) order.
pub fn px_le(a: Px, b: Px) -> (c: bool)
    ensures
        c == lex_le(a, b),
{
    if a.r != b.r {
        a.r < b.r
    } else if a.g != b.g {
        a.g < b.g
    } else {
        a.b <= b.b
    }
}

/// The color held by a flat `[R, G, B]` triple.
pub open spec fn px_of(t: [u8; 3]) -> Px {
    Px { r: t[0], g: t[1], b: t[2] }
}

pub fn px_from_triple(t: &[u8; 3]) -> (p: Px)
    ensures
        p == px_of(*t),
{
    Px { r: t[0], g: t[1], b: t[2] }
}

/// Manhattan distance on flat channel triples.
pub fn color_dist(a: &[u8; 3], b: &[u8; 3]) -> (d: u64)
    ensures
        d as int == dist(px_of(*a), px_of(*b)),
{
    px_dist(px_from_triple(a), px_from_triple(b))
}

/// Copies the first three elements of a slice into a fixed triple.
pub fn clone_array<T: Copy>(slice: &[T]) -> (r: [T; 3])
    requires
        slice@.len() >= 3,
    ensures
        r@ =~= seq![slice@[0], slice@[1], slice@[2]],
{
    [slice[0], slice[1], slice[2]]
}

} // verus!
