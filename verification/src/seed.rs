//! Centroid seeding: a single greedy pass over the sorted unique
//! colors that tries to place K mutually far-apart initial centroids.

use vstd::prelude::*;

use crate::pixel::{dist, px_dist, zero_px, Px};

verus! {

/// The all-zero initial centroid row.
pub open spec fn init_cents(k: nat) -> Seq<Px> {
    Seq::new(k, |i: int| zero_px())
}

/// The initial per-slot separation records: between all-zero centroids
/// every pairwise distance is zero.
pub open spec fn init_maxd(k: nat) -> Seq<int> {
    Seq::new(k, |i: int| 0)
}

/// Sum of the distances from `p` to the first `n` centroids, the one
/// at slot `i` excepted: the total separation `p` would enjoy if it
/// replaced slot `i`.
pub open spec fn sum_except(p: Px, cents: Seq<Px>, i: int, n: nat) -> int
    decreases n,
{
    if n == 0 {
        0
    } else {
        sum_except(p, cents, i, (n - 1) as nat) + if i == n - 1 {
            0
        } else {
            dist(p, cents[n - 1])
        }
    }
}

/// The slot scan for one candidate color: walking slots `0..n`, keep
/// the slot whose hypothetical separation is at least the best seen so
/// far and strictly beats that slot's stored record. Later slots win
/// ties. Result: `(winning slot, its separation)`.
pub open spec fn seed_scan(p: Px, cents: Seq<Px>, maxd: Seq<int>, n: nat) -> (int, int)
    decreases n,
{
    if n == 0 {
        (0, 0)
    } else {
        let prev = seed_scan(p, cents, maxd, (n - 1) as nat);
        let d = sum_except(p, cents, n - 1, cents.len() as nat);
        if d >= prev.1 && d > maxd[n - 1] {
            (n - 1, d)
        } else {
            prev
        }
    }
}

/// One candidate color offered to the centroid row: the winning slot
/// takes the color only where its separation strictly beats the
/// slot's record.
pub open spec fn seed_step(cents: Seq<Px>, maxd: Seq<int>, p: Px) -> (Seq<Px>, Seq<int>) {
    let sc = seed_scan(p, cents, maxd, cents.len() as nat);
    if cents.len() > 0 && sc.1 > maxd[sc.0] {
        (cents.update(sc.0, p), maxd.update(sc.0, sc.1))
    } else {
        (cents, maxd)
    }
}

/// The centroid row and separation records after offering every color
/// of `ps`, in order, to `k` all-zero slots.
pub open spec fn seed_state(ps: Seq<Px>, k: nat) -> (Seq<Px>, Seq<int>)
    decreases ps.len(),
{
    if ps.len() == 0 {
        (init_cents(k), init_maxd(k))
    } else {
        let st = seed_state(ps.drop_last(), k);
        seed_step(st.0, st.1, ps.last())
    }
}

/// The K initial centroids the greedy pass picks from `ps`.
pub open spec fn seed_spec(ps: Seq<Px>, k: nat) -> Seq<Px> {
    seed_state(ps, k).0
}

pub proof fn lemma_seed_state_len(ps: Seq<Px>, k: nat)
    ensures
        seed_state(ps, k).0.len() == k,
        seed_state(ps, k).1.len() == k,
    decreases ps.len(),
{
    if ps.len() > 0 {
        lemma_seed_state_len(ps.drop_last(), k);
        let st = seed_state(ps.drop_last(), k);
        assert(seed_state(ps, k) == seed_step(st.0, st.1, ps.last()));
        let sc = seed_scan(ps.last(), st.0, st.1, st.0.len() as nat);
        lemma_seed_scan_slot(ps.last(), st.0, st.1, st.0.len() as nat);
        if st.0.len() > 0 {
            assert(0 <= sc.0 < st.0.len());
            assert(st.0.update(sc.0, ps.last()).len() == st.0.len());
            assert(st.1.update(sc.0, sc.1).len() == st.1.len());
        }
    }
}

proof fn lemma_seed_scan_slot(p: Px, cents: Seq<Px>, maxd: Seq<int>, n: nat)
    requires
        n <= cents.len(),
    ensures
        0 <= seed_scan(p, cents, maxd, n).0,
        seed_scan(p, cents, maxd, n).0 < n || seed_scan(p, cents, maxd, n).0 == 0,
        0 <= seed_scan(p, cents, maxd, n).1,
    decreases n,
{
    if n > 0 {
        lemma_seed_scan_slot(p, cents, maxd, (n - 1) as nat);
        lemma_sum_except_bound(p, cents, n - 1, cents.len() as nat);
    }
}

pub proof fn lemma_sum_except_bound(p: Px, cents: Seq<Px>, i: int, n: nat)
    ensures
        0 <= sum_except(p, cents, i, n) <= 765 * n,
    decreases n,
{
    if n > 0 {
        lemma_sum_except_bound(p, cents, i, (n - 1) as nat);
    }
}

/// Places `k` initial centroids from the deduplicated color set by the
/// greedy max-separation pass, exactly as `seed_spec` states it.
pub fn seed_centroids(unique: &Vec<Px>, k: usize) -> (cents: Vec<Px>)
    requires
        1 <= k,
        765 * (k as int) <= u64::MAX as int,
    ensures
        cents@ == seed_spec(unique@, k as nat),
        cents@.len() == k,
{
    let mut cents: Vec<Px> = Vec::new();
    let mut maxd: Vec<u64> = Vec::new();
    let mut s: usize = 0;
    while s < k
        invariant
            s <= k,
            cents@ =~= init_cents(s as nat),
            maxd@.len() == s,
            forall|j: int| 0 <= j < s ==> maxd@[j] as int == 0,
        decreases k - s,
    {
        cents.push(Px { r: 0, g: 0, b: 0 });
        maxd.push(0u64);
        s = s + 1;
    }
    proof {
        assert(cents@ =~= seed_state(unique@.take(0), k as nat).0);
        assert(forall|j: int|
            0 <= j < k ==> maxd@[j] as int == seed_state(unique@.take(0), k as nat).1[j]);
    }
    let mut t: usize = 0;
    while t < unique.len()
        invariant
            1 <= k,
            765 * (k as int) <= u64::MAX as int,
            t <= unique@.len(),
            cents@.len() == k,
            maxd@.len() == k,
            cents@ == seed_state(unique@.take(t as int), k as nat).0,
            forall|j: int|
                0 <= j < k ==> maxd@[j] as int == seed_state(unique@.take(t as int), k as nat).1[j],
        decreases unique@.len() - t,
    {
        let p = unique[t];
        let ghost st = seed_state(unique@.take(t as int), k as nat);
        proof {
            lemma_seed_state_len(unique@.take(t as int), k as nat);
        }
        let mut max_i: usize = 0;
        let mut max_d: u64 = 0;
        let mut i: usize = 0;
        while i < k
            invariant
                1 <= k,
                765 * (k as int) <= u64::MAX as int,
                i <= k,
                max_i < k,
                cents@.len() == k,
                maxd@.len() == k,
                cents@ == st.0,
                st.1.len() == k,
                forall|j: int| 0 <= j < k ==> maxd@[j] as int == st.1[j],
                max_i as int == seed_scan(p, cents@, st.1, i as nat).0,
                max_d as int == seed_scan(p, cents@, st.1, i as nat).1,
            decreases k - i,
        {
            let mut d: u64 = 0;
            let mut j: usize = 0;
            while j < k
                invariant
                    i < k,
                    j <= k,
                    765 * (k as int) <= u64::MAX as int,
                    cents@.len() == k,
                    d as int == sum_except(p, cents@, i as int, j as nat),
                    d as int <= 765 * (j as int),
                decreases k - j,
            {
                if j != i {
                    let dd = px_dist(p, cents[j]);
                    d = d + dd;
                }
                j = j + 1;
            }
            if d >= max_d && d > maxd[i] {
                max_i = i;
                max_d = d;
            }
            i = i + 1;
        }
        if max_d > maxd[max_i] {
            maxd[max_i] = max_d;
            cents[max_i] = p;
        }
        proof {
            assert(unique@.take(t as int + 1).drop_last() =~= unique@.take(t as int));
            assert(unique@.take(t as int + 1).last() == unique@[t as int]);
            assert(seed_state(unique@.take(t as int + 1), k as nat) == seed_step(
                st.0,
                st.1,
                p,
            ));
            lemma_seed_scan_slot(p, st.0, st.1, k as nat);
            assert(cents@ =~= seed_state(unique@.take(t as int + 1), k as nat).0);
            assert(forall|j: int|
                0 <= j < k ==> maxd@[j] as int == seed_state(unique@.take(t as int + 1), k as nat).1[j]);
        }
        t = t + 1;
    }
    proof {
        assert(unique@.take(unique@.len() as int) =~= unique@);
    }
    cents
}

} // verus!
