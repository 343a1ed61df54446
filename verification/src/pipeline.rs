//! The whole run, decoded buffer to sorted palette, as one verified
//! pipeline: store, optional dedup, seeding, clustering, optional
//! snap, final sort.

use vstd::prelude::*;
use vstd::relations::sorted_by;

use crate::engine::{approx_spec, approximate, cluster, converges, iterate};
use crate::pixel::{lex_leq, Px};
use crate::seed::{seed_centroids, seed_spec};
use crate::store::{dedup_pixels, dedup_spec, pixels_from_buffer, sort_pixels, triples};

verus! {

/// The store the clustering loop consumes: the sorted pixels of the
/// buffer, collapsed to unique colors in unweighted mode.
pub open spec fn working_store(buf: Seq<u8>, unweighted: bool) -> Seq<Px> {
    let sorted = triples(buf).sort_by(lex_leq());
    if unweighted {
        dedup_spec(sorted)
    } else {
        sorted
    }
}

/// The candidate colors the seeder scans: always the deduplicated
/// working store, whatever the mode.
pub open spec fn seed_candidates(buf: Seq<u8>, unweighted: bool) -> Seq<Px> {
    dedup_spec(working_store(buf, unweighted))
}

/// The palette of a whole run, sorted ascending.
pub open spec fn palette_spec(
    buf: Seq<u8>,
    k: nat,
    unweighted: bool,
    approx: bool,
    fuel: nat,
) -> Seq<Px> {
    let store = working_store(buf, unweighted);
    let seeded = seed_spec(seed_candidates(buf, unweighted), k);
    let fin = iterate(seeded, store, fuel);
    let snapped = if approx {
        approx_spec(fin, store)
    } else {
        fin
    };
    snapped.sort_by(lex_leq())
}

/// Whether a run reaches a fixed palette within `fuel` iterations.
pub open spec fn run_converges(buf: Seq<u8>, k: nat, unweighted: bool, fuel: nat) -> bool {
    converges(
        seed_spec(seed_candidates(buf, unweighted), k),
        working_store(buf, unweighted),
        fuel,
    )
}

pub proof fn lemma_dedup_len(s: Seq<Px>)
    ensures
        dedup_spec(s).len() <= s.len(),
    decreases s.len(),
{
    if s.len() > 0 {
        lemma_dedup_len(s.drop_last());
    }
}

/// Extracts the K-color palette of a decoded RGB8 buffer.
///
/// `k` must be positive: a run with zero bins has nothing to cluster
/// into, so that configuration is rejected here by contract. An
/// empty buffer is fine and yields K black entries. `max_iters` caps
/// the convergence loop as a safety bound; the returned flag reports
/// whether the loop converged within it.
pub fn extract_palette(
    buf: &[u8],
    k: usize,
    unweighted: bool,
    approx: bool,
    max_iters: u64,
) -> (res: (Vec<Px>, bool))
    requires
        1 <= k,
        765 * (k as int) <= u64::MAX as int,
        255 * (buf@.len() / 3) <= u64::MAX,
    ensures
        res.0@ == palette_spec(buf@, k as nat, unweighted, approx, max_iters as nat),
        res.0@.len() == k,
        sorted_by(res.0@, lex_leq()),
        res.1 == run_converges(buf@, k as nat, unweighted, max_iters as nat),
{
    let mut pixels = pixels_from_buffer(buf);
    sort_pixels(&mut pixels);
    if unweighted {
        pixels = dedup_pixels(&pixels);
        proof {
            lemma_dedup_len(triples(buf@).sort_by(lex_leq()));
        }
    }
    assert(pixels@ == working_store(buf@, unweighted));
    assert(255 * pixels@.len() <= u64::MAX);
    let uniq = dedup_pixels(&pixels);
    let seeded = seed_centroids(&uniq, k);
    let clustered = cluster(seeded, &pixels, max_iters);
    let converged = clustered.1;
    let mut palette = if approx {
        approximate(&clustered.0, &pixels)
    } else {
        clustered.0
    };
    sort_pixels(&mut palette);
    (palette, converged)
}

} // verus!
