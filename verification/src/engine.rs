//! The assign / average / converge loop, and the optional pass that
//! snaps each centroid to the nearest color of its own bin.

use vstd::prelude::*;

use crate::pixel::{dist, px_dist, zero_px, Px};

verus! {

/// The assignment scan for one pixel: walking the first `n` centroids
/// with a best distance that starts at 765, keep every centroid whose
/// distance is at most the best seen so far. Later centroids win ties.
/// Result: `(winning bin, its distance)`.
pub open spec fn assign_scan(p: Px, cents: Seq<Px>, n: nat) -> (int, int)
    decreases n,
{
    if n == 0 {
        (0, 765)
    } else {
        let prev = assign_scan(p, cents, (n - 1) as nat);
        let d = dist(p, cents[n - 1]);
        if d <= prev.1 {
            (n - 1, d)
        } else {
            prev
        }
    }
}

/// The bin a pixel is assigned to: the centroid of least Manhattan
/// distance, the highest such index on a tie.
pub open spec fn best_bin(p: Px, cents: Seq<Px>) -> int {
    assign_scan(p, cents, cents.len() as nat).0
}

/// The scan keeps the last centroid of least distance: its winner is
/// a true minimizer, and every centroid after it sits strictly
/// farther away.
pub proof fn lemma_assign_scan_minimizes(p: Px, cents: Seq<Px>, n: nat)
    requires
        1 <= n <= cents.len(),
    ensures
        0 <= assign_scan(p, cents, n).0 < n,
        assign_scan(p, cents, n).1 == dist(p, cents[assign_scan(p, cents, n).0]),
        forall|j: int| 0 <= j < n ==> assign_scan(p, cents, n).1 <= dist(p, cents[j]),
        forall|j: int|
            assign_scan(p, cents, n).0 < j < n ==> dist(p, cents[j]) > assign_scan(p, cents, n).1,
    decreases n,
{
    if n == 1 {
        assert(assign_scan(p, cents, 0) == (0int, 765int));
        assert(dist(p, cents[0]) <= 765);
    } else {
        lemma_assign_scan_minimizes(p, cents, (n - 1) as nat);
    }
}

/// Decides the bin of one pixel: the centroid of least Manhattan
/// distance, the last such centroid on a tie.
pub fn assign_bin(p: Px, cents: &Vec<Px>) -> (b: usize)
    requires
        cents@.len() >= 1,
    ensures
        b as int == best_bin(p, cents@),
        b < cents@.len(),
        forall|j: int|
            0 <= j < cents@.len() ==> dist(p, cents@[b as int]) <= dist(p, cents@[j]),
        forall|j: int|
            b < j < cents@.len() ==> dist(p, cents@[j]) > dist(p, cents@[b as int]),
{
    let k = cents.len();
    let mut min_d: u64 = 765;
    let mut bin: usize = 0;
    let mut i: usize = 0;
    while i < k
        invariant
            k == cents@.len(),
            i <= k,
            bin < k,
            bin as int == assign_scan(p, cents@, i as nat).0,
            min_d as int == assign_scan(p, cents@, i as nat).1,
        decreases k - i,
    {
        let d = px_dist(p, cents[i]);
        if d <= min_d {
            min_d = d;
            bin = i;
        }
        i = i + 1;
    }
    proof {
        lemma_assign_scan_minimizes(p, cents@, cents@.len() as nat);
    }
    bin
}

/// The pixels of `pixels`, in order, whose assignment under `cents`
/// is bin `b`.
pub open spec fn bin_seq(cents: Seq<Px>, pixels: Seq<Px>, b: int) -> Seq<Px>
    decreases pixels.len(),
{
    if pixels.len() == 0 {
        Seq::empty()
    } else {
        let rest = bin_seq(cents, pixels.drop_last(), b);
        if best_bin(pixels.last(), cents) == b {
            rest.push(pixels.last())
        } else {
            rest
        }
    }
}

pub proof fn lemma_bin_seq_len(cents: Seq<Px>, pixels: Seq<Px>, b: int)
    ensures
        bin_seq(cents, pixels, b).len() <= pixels.len(),
    decreases pixels.len(),
{
    if pixels.len() > 0 {
        lemma_bin_seq_len(cents, pixels.drop_last(), b);
    }
}

/// Every color a bin holds occurs in the store it was built from.
pub proof fn lemma_bin_seq_subset(cents: Seq<Px>, pixels: Seq<Px>, b: int, x: Px)
    requires
        bin_seq(cents, pixels, b).contains(x),
    ensures
        pixels.contains(x),
    decreases pixels.len(),
{
    if pixels.len() > 0 {
        let rest = bin_seq(cents, pixels.drop_last(), b);
        if rest.contains(x) {
            lemma_bin_seq_subset(cents, pixels.drop_last(), b, x);
            let i = choose|i: int| 0 <= i < pixels.drop_last().len() && pixels.drop_last()[i] == x;
            assert(pixels[i] == x);
        } else {
            assert(x == pixels.last());
            assert(pixels[pixels.len() - 1] == x);
        }
    }
}

/// Builds every bin of the current iteration: one scan of the sorted
/// store, re-using the previous assignment over a run of equal pixels.
pub fn make_bins(cents: &Vec<Px>, pixels: &Vec<Px>) -> (bins: Vec<Vec<Px>>)
    requires
        cents@.len() >= 1,
    ensures
        bins@.len() == cents@.len(),
        forall|b: int| 0 <= b < bins@.len() ==> bins@[b]@ == bin_seq(cents@, pixels@, b),
{
    let k = cents.len();
    let mut bins: Vec<Vec<Px>> = Vec::new();
    while bins.len() < k
        invariant
            bins@.len() <= k,
            forall|b: int| 0 <= b < bins@.len() ==> bins@[b]@ == Seq::<Px>::empty(),
        decreases k - bins@.len(),
    {
        bins.push(Vec::new());
    }
    let mut idx: usize = 0;
    let mut prev_bin: usize = 0;
    while idx < pixels.len()
        invariant
            k == cents@.len(),
            1 <= k,
            bins@.len() == k,
            idx <= pixels@.len(),
            forall|b: int| 0 <= b < k ==> bins@[b]@ == bin_seq(cents@, pixels@.take(idx as int), b),
            idx > 0 ==> prev_bin < k && prev_bin as int == best_bin(pixels@[idx - 1], cents@),
        decreases pixels@.len() - idx,
    {
        let p = pixels[idx];
        let bin: usize = if idx > 0 && p == pixels[idx - 1] {
            assert(best_bin(p, cents@) == best_bin(pixels@[idx - 1], cents@));
            prev_bin
        } else {
            assign_bin(p, cents)
        };
        assert(bin as int == best_bin(p, cents@) && bin < k);
        bins[bin].push(p);
        prev_bin = bin;
        proof {
            let ghost prior = pixels@.take(idx as int);
            let ghost t1 = pixels@.take(idx as int + 1);
            assert(t1.drop_last() =~= prior);
            assert(t1.last() == p);
            assert forall|bb: int| 0 <= bb < k implies bins@[bb]@ == bin_seq(cents@, t1, bb) by {
                if bb == bin as int {
                    assert(bin_seq(cents@, t1, bb) == bin_seq(cents@, prior, bb).push(p));
                } else {
                    assert(bin_seq(cents@, t1, bb) == bin_seq(cents@, prior, bb));
                }
            }
        }
        idx = idx + 1;
    }
    proof {
        assert(pixels@.take(pixels@.len() as int) =~= pixels@);
    }
    bins
}

pub open spec fn sum_r(bin: Seq<Px>) -> int
    decreases bin.len(),
{
    if bin.len() == 0 {
        0
    } else {
        sum_r(bin.drop_last()) + bin.last().r as int
    }
}

pub open spec fn sum_g(bin: Seq<Px>) -> int
    decreases bin.len(),
{
    if bin.len() == 0 {
        0
    } else {
        sum_g(bin.drop_last()) + bin.last().g as int
    }
}

pub open spec fn sum_b(bin: Seq<Px>) -> int
    decreases bin.len(),
{
    if bin.len() == 0 {
        0
    } else {
        sum_b(bin.drop_last()) + bin.last().b as int
    }
}

/// An empty bin divides by one instead of zero, so its mean is black.
pub open spec fn bin_divisor(bin: Seq<Px>) -> int {
    if bin.len() == 0 {
        1
    } else {
        bin.len() as int
    }
}

/// The truncating per-channel integer mean of a bin; black where the
/// bin is empty.
pub open spec fn bin_centroid(bin: Seq<Px>) -> Px {
    Px {
        r: (sum_r(bin) / bin_divisor(bin)) as u8,
        g: (sum_g(bin) / bin_divisor(bin)) as u8,
        b: (sum_b(bin) / bin_divisor(bin)) as u8,
    }
}

pub proof fn lemma_sum_bounds(bin: Seq<Px>)
    ensures
        0 <= sum_r(bin) <= 255 * bin.len(),
        0 <= sum_g(bin) <= 255 * bin.len(),
        0 <= sum_b(bin) <= 255 * bin.len(),
    decreases bin.len(),
{
    if bin.len() > 0 {
        lemma_sum_bounds(bin.drop_last());
    }
}

proof fn lemma_mean_in_range(s: int, len: int)
    requires
        0 < len,
        0 <= s <= 255 * len,
    ensures
        0 <= s / len <= 255,
{
    vstd::arithmetic::div_mod::lemma_div_is_ordered(s, 255 * len, len);
    vstd::arithmetic::div_mod::lemma_div_multiples_vanish(255, len);
    vstd::arithmetic::div_mod::lemma_div_is_ordered(0, s, len);
}

/// The truncating mean of one bin.
pub fn bin_mean(bin: &Vec<Px>) -> (c: Px)
    requires
        255 * bin@.len() <= u64::MAX,
    ensures
        c == bin_centroid(bin@),
{
    let n = bin.len();
    let mut r: u64 = 0;
    let mut g: u64 = 0;
    let mut b: u64 = 0;
    let mut i: usize = 0;
    while i < n
        invariant
            n == bin@.len(),
            i <= n,
            255 * bin@.len() <= u64::MAX,
            r as int == sum_r(bin@.take(i as int)),
            g as int == sum_g(bin@.take(i as int)),
            b as int == sum_b(bin@.take(i as int)),
            r <= 255 * (i as u64),
            g <= 255 * (i as u64),
            b <= 255 * (i as u64),
        decreases n - i,
    {
        let p = bin[i];
        proof {
            assert(bin@.take(i as int + 1).drop_last() =~= bin@.take(i as int));
            assert(bin@.take(i as int + 1).last() == bin@[i as int]);
        }
        r = r + p.r as u64;
        g = g + p.g as u64;
        b = b + p.b as u64;
        i = i + 1;
    }
    proof {
        assert(bin@.take(n as int) =~= bin@);
    }
    let len: u64 = if n != 0 {
        n as u64
    } else {
        1
    };
    proof {
        lemma_sum_bounds(bin@);
        lemma_mean_in_range(r as int, len as int);
        lemma_mean_in_range(g as int, len as int);
        lemma_mean_in_range(b as int, len as int);
    }
    Px { r: (r / len) as u8, g: (g / len) as u8, b: (b / len) as u8 }
}

/// One full iteration: assign every pixel, then replace each centroid
/// with its bin's truncating mean.
pub open spec fn refine_spec(cents: Seq<Px>, pixels: Seq<Px>) -> Seq<Px> {
    Seq::new(cents.len(), |b: int| bin_centroid(bin_seq(cents, pixels, b)))
}

/// One assign-then-average iteration over the store.
pub fn refine(cents: &Vec<Px>, pixels: &Vec<Px>) -> (next: Vec<Px>)
    requires
        cents@.len() >= 1,
        255 * pixels@.len() <= u64::MAX,
    ensures
        next@ == refine_spec(cents@, pixels@),
        next@.len() == cents@.len(),
{
    let bins = make_bins(cents, pixels);
    let mut next: Vec<Px> = Vec::new();
    let mut b: usize = 0;
    while b < bins.len()
        invariant
            bins@.len() == cents@.len(),
            1 <= cents@.len(),
            255 * pixels@.len() <= u64::MAX,
            forall|j: int| 0 <= j < bins@.len() ==> bins@[j]@ == bin_seq(cents@, pixels@, j),
            b <= bins@.len(),
            next@ =~= refine_spec(cents@, pixels@).take(b as int),
        decreases bins@.len() - b,
    {
        proof {
            lemma_bin_seq_len(cents@, pixels@, b as int);
        }
        let c = bin_mean(&bins[b]);
        next.push(c);
        b = b + 1;
    }
    proof {
        assert(next@ =~= refine_spec(cents@, pixels@));
    }
    next
}

/// Decides whether two palettes are equal, entry by entry.
pub fn px_vec_eq(a: &Vec<Px>, b: &Vec<Px>) -> (e: bool)
    ensures
        e == (a@ == b@),
{
    if a.len() != b.len() {
        return false;
    }
    let mut i: usize = 0;
    while i < a.len()
        invariant
            a@.len() == b@.len(),
            i <= a@.len(),
            forall|j: int| 0 <= j < i ==> a@[j] == b@[j],
        decreases a@.len() - i,
    {
        if !(a[i] == b[i]) {
            assert(a@[i as int] != b@[i as int]);
            return false;
        }
        i = i + 1;
    }
    proof {
        assert(a@ =~= b@);
    }
    true
}

/// The palette after at most `fuel` refinement steps: iteration stops
/// at the first palette that one further step reproduces.
pub open spec fn iterate(cents: Seq<Px>, pixels: Seq<Px>, fuel: nat) -> Seq<Px>
    decreases fuel,
{
    if fuel == 0 {
        cents
    } else {
        let next = refine_spec(cents, pixels);
        if next == cents {
            cents
        } else {
            iterate(next, pixels, (fuel - 1) as nat)
        }
    }
}

/// Whether the loop reaches a fixed palette within `fuel` steps.
pub open spec fn converges(cents: Seq<Px>, pixels: Seq<Px>, fuel: nat) -> bool
    decreases fuel,
{
    if fuel == 0 {
        false
    } else if refine_spec(cents, pixels) == cents {
        true
    } else {
        converges(refine_spec(cents, pixels), pixels, (fuel - 1) as nat)
    }
}

/// Once the palette stops changing, every further iteration reproduces
/// it exactly.
pub proof fn lemma_converged_fixpoint(cents: Seq<Px>, pixels: Seq<Px>, fuel: nat)
    requires
        refine_spec(cents, pixels) == cents,
    ensures
        iterate(cents, pixels, fuel) == cents,
{
    if fuel > 0 {
        assert(iterate(cents, pixels, fuel) == cents);
    }
}

/// A run that converged ends on a palette that is a fixed point of
/// refinement.
pub proof fn lemma_converges_ends_fixed(cents: Seq<Px>, pixels: Seq<Px>, fuel: nat)
    requires
        converges(cents, pixels, fuel),
    ensures
        refine_spec(iterate(cents, pixels, fuel), pixels) == iterate(cents, pixels, fuel),
    decreases fuel,
{
    let next = refine_spec(cents, pixels);
    if next == cents {
        lemma_converged_fixpoint(cents, pixels, fuel);
    } else {
        lemma_converges_ends_fixed(next, pixels, (fuel - 1) as nat);
    }
}

/// Runs the assign / average loop from the seeded palette until it
/// stops changing, or until the safety cap on iterations is spent.
/// Returns the palette and whether it converged.
pub fn cluster(init: Vec<Px>, pixels: &Vec<Px>, max_iters: u64) -> (res: (Vec<Px>, bool))
    requires
        init@.len() >= 1,
        255 * pixels@.len() <= u64::MAX,
    ensures
        res.0@ == iterate(init@, pixels@, max_iters as nat),
        res.1 == converges(init@, pixels@, max_iters as nat),
        res.0@.len() == init@.len(),
        res.1 ==> refine_spec(res.0@, pixels@) == res.0@,
{
    let ghost orig: Seq<Px> = init@;
    let mut cents = init;
    let mut it: u64 = 0;
    let mut converged = false;
    while it < max_iters
        invariant_except_break
            !converged,
        invariant
            it <= max_iters,
            cents@.len() == orig.len() >= 1,
            255 * pixels@.len() <= u64::MAX,
            iterate(cents@, pixels@, (max_iters - it) as nat) == iterate(
                orig,
                pixels@,
                max_iters as nat,
            ),
            converges(cents@, pixels@, (max_iters - it) as nat) == converges(
                orig,
                pixels@,
                max_iters as nat,
            ),
            converged ==> refine_spec(cents@, pixels@) == cents@ && it < max_iters,
        ensures
            cents@.len() == orig.len(),
            converged ==> refine_spec(cents@, pixels@) == cents@ && it < max_iters,
            !converged ==> it == max_iters,
            iterate(cents@, pixels@, (max_iters - it) as nat) == iterate(
                orig,
                pixels@,
                max_iters as nat,
            ),
            converges(cents@, pixels@, (max_iters - it) as nat) == converges(
                orig,
                pixels@,
                max_iters as nat,
            ),
        decreases max_iters - it,
    {
        let next = refine(&cents, pixels);
        if px_vec_eq(&next, &cents) {
            converged = true;
            break ;
        }
        cents = next;
        it = it + 1;
    }
    proof {
        if converged {
            lemma_converged_fixpoint(cents@, pixels@, (max_iters - it) as nat);
        }
    }
    (cents, converged)
}

/// The snap scan of one bin: walking its colors in order with a best
/// distance that starts at 765, keep the first color strictly closer
/// to the centroid than every color before it. A bin whose colors all
/// sit at the maximal distance, like an empty bin, yields black.
pub open spec fn snap_scan(bin: Seq<Px>, c: Px, n: nat) -> (Px, int)
    decreases n,
{
    if n == 0 {
        (zero_px(), 765)
    } else {
        let prev = snap_scan(bin, c, (n - 1) as nat);
        let d = dist(bin[n - 1], c);
        if d < prev.1 {
            (bin[n - 1], d)
        } else {
            prev
        }
    }
}

/// The color a converged centroid snaps to: the nearest color of its
/// own bin, the first one on a tie.
pub open spec fn snap(bin: Seq<Px>, c: Px) -> Px {
    snap_scan(bin, c, bin.len() as nat).0
}

/// What a snapped centroid can be: a color of its bin, or black.
pub proof fn lemma_snap_in_bin(bin: Seq<Px>, c: Px, n: nat)
    requires
        n <= bin.len(),
    ensures
        snap_scan(bin, c, n).0 == zero_px() || bin.contains(snap_scan(bin, c, n).0),
    decreases n,
{
    if n > 0 {
        lemma_snap_in_bin(bin, c, (n - 1) as nat);
        if dist(bin[n - 1], c) < snap_scan(bin, c, (n - 1) as nat).1 {
            assert(bin.contains(bin[n - 1]));
        }
    }
}

/// The approximation pass over a whole palette.
pub open spec fn approx_spec(cents: Seq<Px>, pixels: Seq<Px>) -> Seq<Px> {
    Seq::new(cents.len(), |b: int| snap(bin_seq(cents, pixels, b), cents[b]))
}

/// Replaces each centroid with the nearest color of its bin, so that
/// every reported color of a populated bin occurs in the image.
pub fn approximate(cents: &Vec<Px>, pixels: &Vec<Px>) -> (out: Vec<Px>)
    requires
        cents@.len() >= 1,
    ensures
        out@ == approx_spec(cents@, pixels@),
        out@.len() == cents@.len(),
{
    let bins = make_bins(cents, pixels);
    let mut out: Vec<Px> = Vec::new();
    let mut b: usize = 0;
    while b < bins.len()
        invariant
            bins@.len() == cents@.len(),
            1 <= cents@.len(),
            forall|j: int| 0 <= j < bins@.len() ==> bins@[j]@ == bin_seq(cents@, pixels@, j),
            b <= bins@.len(),
            out@ =~= approx_spec(cents@, pixels@).take(b as int),
        decreases bins@.len() - b,
    {
        let bin = &bins[b];
        let c = cents[b];
        let mut closest = Px { r: 0, g: 0, b: 0 };
        let mut min_d: u64 = 765;
        let mut i: usize = 0;
        while i < bin.len()
            invariant
                i <= bin@.len(),
                closest == snap_scan(bin@, c, i as nat).0,
                min_d as int == snap_scan(bin@, c, i as nat).1,
            decreases bin@.len() - i,
        {
            let d = px_dist(bin[i], c);
            if d < min_d {
                closest = bin[i];
                min_d = d;
            }
            i = i + 1;
        }
        out.push(closest);
        b = b + 1;
    }
    proof {
        assert(out@ =~= approx_spec(cents@, pixels@));
    }
    out
}

} // verus!
