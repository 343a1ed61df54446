//! Properties of the whole run that hold for every image: what the
//! store looks like when clustering begins, what approximate mode may
//! report, and what unweighted mode may depend on.

use vstd::prelude::*;
use vstd::relations::sorted_by;

use crate::engine::{approx_spec, bin_seq, lemma_bin_seq_subset, lemma_snap_in_bin, snap};
use crate::pixel::{lemma_lex_total, lex_le, lex_leq, zero_px, Px};
use crate::pipeline::{palette_spec, seed_candidates, working_store};
use crate::store::{dedup_spec, triples};

verus! {

/// Sorting a store neither adds nor loses colors.
pub proof fn lemma_sort_same_contains(s: Seq<Px>, x: Px)
    ensures
        s.sort_by(lex_leq()).contains(x) <==> s.contains(x),
{
    lemma_lex_total();
    s.lemma_sort_by_ensures(lex_leq());
    broadcast use vstd::seq_lib::group_to_multiset_ensures;

    assert(s.contains(x) <==> s.to_multiset().count(x) > 0);
    assert(s.sort_by(lex_leq()).contains(x) <==> s.sort_by(lex_leq()).to_multiset().count(x) > 0);
}

/// The dedup pass neither adds nor loses colors.
pub proof fn lemma_dedup_same_contains(s: Seq<Px>, x: Px)
    ensures
        dedup_spec(s).contains(x) <==> s.contains(x),
    decreases s.len(),
{
    if s.len() > 0 {
        lemma_dedup_same_contains(s.drop_last(), x);
        let d = dedup_spec(s.drop_last());
        if s.drop_last().contains(x) {
            let i = choose|i: int| 0 <= i < s.drop_last().len() && s.drop_last()[i] == x;
            assert(s[i] == x);
        }
        if s.contains(x) && !(x == s.last()) {
            let i = choose|i: int| 0 <= i < s.len() && s[i] == x;
            assert(s.drop_last()[i] == x);
        }
        if d.len() > 0 && d.last() == s.last() {
            assert(d.contains(d.last()));
        } else {
            assert(dedup_spec(s) == d.push(s.last()));
            assert(dedup_spec(s).last() == s.last());
            assert(dedup_spec(s).contains(s.last()));
            assert forall|c: Px| d.contains(c) implies dedup_spec(s).contains(c) by {
                let i = choose|i: int| 0 <= i < d.len() && d[i] == c;
                assert(dedup_spec(s)[i] == c);
            }
            assert forall|c: Px| dedup_spec(s).contains(c) implies d.contains(c) || c
                == s.last() by {
                let i = choose|i: int| 0 <= i < dedup_spec(s).len() && dedup_spec(s)[i] == c;
                if i < d.len() {
                    assert(d[i] == c);
                }
            }
        }
    }
}

/// On a sorted store the dedup pass leaves a sorted store in which
/// every color occurs exactly once.
pub proof fn lemma_dedup_sorted_distinct(s: Seq<Px>)
    requires
        sorted_by(s, lex_leq()),
    ensures
        sorted_by(dedup_spec(s), lex_leq()),
        dedup_spec(s).no_duplicates(),
    decreases s.len(),
{
    if s.len() > 0 {
        assert(sorted_by(s.drop_last(), lex_leq())) by {
            assert forall|i: int, j: int| 0 <= i < j < s.drop_last().len() implies lex_leq()(
                s.drop_last()[i],
                s.drop_last()[j],
            ) by {
                assert(lex_leq()(s[i], s[j]));
            }
        }
        lemma_dedup_sorted_distinct(s.drop_last());
        let d = dedup_spec(s.drop_last());
        if d.len() > 0 && d.last() == s.last() {
        } else {
            let out = d.push(s.last());
            assert forall|c: Px| d.contains(c) implies lex_le(c, s.last()) && !(c
                == s.last()) by {
                lemma_dedup_same_contains(s.drop_last(), c);
                let i = choose|i: int| 0 <= i < s.drop_last().len() && s.drop_last()[i] == c;
                assert(s[i] == c);
                assert(lex_leq()(s[i], s[s.len() - 1]));
                if c == s.last() {
                    // then the last survivor of `d` would already be it
                    let j = choose|j: int| 0 <= j < d.len() && d[j] == c;
                    assert(lex_leq()(d[j], d[d.len() - 1]));
                    assert(d.contains(d.last()));
                    lemma_dedup_same_contains(s.drop_last(), d.last());
                    let m = choose|m: int|
                        0 <= m < s.drop_last().len() && s.drop_last()[m] == d.last();
                    assert(s[m] == d.last());
                    assert(lex_leq()(s[m], s[s.len() - 1]));
                    assert(lex_le(d.last(), s.last()));
                    assert(lex_le(s.last(), d.last()));
                    assert(d.last() == s.last());
                }
            }
            assert(sorted_by(out, lex_leq())) by {
                assert forall|i: int, j: int| 0 <= i < j < out.len() implies lex_leq()(
                    out[i],
                    out[j],
                ) by {
                    if j < d.len() {
                        assert(lex_leq()(d[i], d[j]));
                    } else {
                        assert(d.contains(d[i]));
                        assert(lex_le(d[i], s.last()));
                    }
                }
            }
            assert(out.no_duplicates()) by {
                assert forall|i: int, j: int|
                    0 <= i < out.len() && 0 <= j < out.len() && i != j implies out[i]
                    != out[j] by {
                    if i < d.len() && j < d.len() {
                        assert(d[i] == out[i] && d[j] == out[j]);
                    } else if i < d.len() {
                        assert(d.contains(d[i]));
                        assert(!(d[i] == s.last()));
                    } else if j < d.len() {
                        assert(d.contains(d[j]));
                        assert(!(d[j] == s.last()));
                    }
                }
            }
        }
    }
}

/// Two sorted stores without duplicates that hold the same colors are
/// the same store.
pub proof fn lemma_sorted_distinct_same_set(x: Seq<Px>, y: Seq<Px>)
    requires
        sorted_by(x, lex_leq()),
        sorted_by(y, lex_leq()),
        x.no_duplicates(),
        y.no_duplicates(),
        forall|c: Px| x.contains(c) <==> y.contains(c),
    ensures
        x == y,
    decreases x.len(),
{
    if x.len() == 0 {
        if y.len() > 0 {
            assert(y.contains(y[0]));
        }
        assert(x =~= y);
    } else if y.len() == 0 {
        assert(x.contains(x[0]));
    } else {
        // the heads are both the least color of the common set
        assert(x.contains(x[0]));
        assert(y.contains(x[0]));
        let i = choose|i: int| 0 <= i < y.len() && y[i] == x[0];
        assert(i == 0 || lex_leq()(y[0], y[i]));
        assert(y.contains(y[0]));
        assert(x.contains(y[0]));
        let j = choose|j: int| 0 <= j < x.len() && x[j] == y[0];
        assert(j == 0 || lex_leq()(x[0], x[j]));
        assert(lex_le(x[0], y[0]) && lex_le(y[0], x[0]));
        assert(x[0] == y[0]);
        let xt = x.drop_first();
        let yt = y.drop_first();
        assert(sorted_by(xt, lex_leq())) by {
            assert forall|a: int, b: int| 0 <= a < b < xt.len() implies lex_leq()(
                xt[a],
                xt[b],
            ) by {
                assert(lex_leq()(x[a + 1], x[b + 1]));
            }
        }
        assert(sorted_by(yt, lex_leq())) by {
            assert forall|a: int, b: int| 0 <= a < b < yt.len() implies lex_leq()(
                yt[a],
                yt[b],
            ) by {
                assert(lex_leq()(y[a + 1], y[b + 1]));
            }
        }
        assert(xt.no_duplicates());
        assert(yt.no_duplicates());
        assert forall|c: Px| xt.contains(c) implies yt.contains(c) by {
            lemma_tail_contains(x, y, c);
        }
        assert forall|c: Px| yt.contains(c) implies xt.contains(c) by {
            lemma_tail_contains(y, x, c);
        }
        lemma_sorted_distinct_same_set(xt, yt);
        assert(x =~= y) by {
            assert(forall|a: int| 1 <= a < x.len() ==> x[a] == xt[a - 1] && y[a] == yt[a - 1]);
        }
    }
}

proof fn lemma_tail_contains(x: Seq<Px>, y: Seq<Px>, c: Px)
    requires
        x.len() > 0,
        y.len() > 0,
        x[0] == y[0],
        x.no_duplicates(),
        y.no_duplicates(),
        forall|e: Px| x.contains(e) <==> y.contains(e),
        x.drop_first().contains(c),
    ensures
        y.drop_first().contains(c),
{
    let i = choose|i: int| 0 <= i < x.drop_first().len() && x.drop_first()[i] == c;
    assert(x[i + 1] == c);
    assert(x.contains(c));
    assert(y.contains(c));
    let j = choose|j: int| 0 <= j < y.len() && y[j] == c;
    if j == 0 {
        // then c is the shared head, and x would hold it twice
        assert(x[0] == c);
        assert(x[i + 1] == x[0]);
        assert(false);
    }
    assert(y.drop_first()[j - 1] == c);
}

/// The store the clustering loop consumes is always sorted ascending
/// by the (R, G, B) order, in either mode.
pub proof fn lemma_store_sorted(buf: Seq<u8>, unweighted: bool)
    ensures
        sorted_by(working_store(buf, unweighted), lex_leq()),
{
    lemma_lex_total();
    triples(buf).lemma_sort_by_ensures(lex_leq());
    if unweighted {
        lemma_dedup_sorted_distinct(triples(buf).sort_by(lex_leq()));
    }
}

/// The palette of a run is a function of the buffer and the
/// configuration alone: two runs over the same input agree exactly.
pub proof fn lemma_run_deterministic(
    r1: Seq<Px>,
    r2: Seq<Px>,
    buf: Seq<u8>,
    k: nat,
    unweighted: bool,
    approx: bool,
    fuel: nat,
)
    requires
        r1 == palette_spec(buf, k, unweighted, approx, fuel),
        r2 == palette_spec(buf, k, unweighted, approx, fuel),
    ensures
        r1 == r2,
{
}

/// In approximate mode every reported color either occurs among the
/// source image's pixels or is the black that an empty or snapless
/// bin reports.
pub proof fn lemma_approx_colors_occur(
    buf: Seq<u8>,
    k: nat,
    unweighted: bool,
    fuel: nat,
    i: int,
)
    requires
        0 <= i < palette_spec(buf, k, unweighted, true, fuel).len(),
    ensures
        triples(buf).contains(palette_spec(buf, k, unweighted, true, fuel)[i]) || palette_spec(
            buf,
            k,
            unweighted,
            true,
            fuel,
        )[i] == zero_px(),
{
    let store = working_store(buf, unweighted);
    let fin = crate::engine::iterate(
        crate::seed::seed_spec(seed_candidates(buf, unweighted), k),
        store,
        fuel,
    );
    let snapped = approx_spec(fin, store);
    let pal = palette_spec(buf, k, unweighted, true, fuel);
    let c = pal[i];
    assert(pal.contains(c));
    lemma_sort_same_contains(snapped, c);
    assert(snapped.contains(c));
    let b = choose|b: int| 0 <= b < snapped.len() && snapped[b] == c;
    assert(c == snap(bin_seq(fin, store, b), fin[b]));
    let bin = bin_seq(fin, store, b);
    lemma_snap_in_bin(bin, fin[b], bin.len() as nat);
    if !(c == zero_px()) {
        lemma_bin_seq_subset(fin, store, b, c);
        assert(store.contains(c));
        if unweighted {
            lemma_dedup_same_contains(triples(buf).sort_by(lex_leq()), c);
        }
        lemma_sort_same_contains(triples(buf), c);
    }
}

/// In unweighted mode the run sees only which colors occur, never how
/// often: two buffers with the same color set yield the same palette.
pub proof fn lemma_unweighted_ignores_multiplicity(
    b1: Seq<u8>,
    b2: Seq<u8>,
    k: nat,
    approx: bool,
    fuel: nat,
)
    requires
        forall|c: Px| triples(b1).contains(c) <==> triples(b2).contains(c),
    ensures
        palette_spec(b1, k, true, approx, fuel) == palette_spec(b2, k, true, approx, fuel),
{
    lemma_lex_total();
    let s1 = triples(b1).sort_by(lex_leq());
    let s2 = triples(b2).sort_by(lex_leq());
    triples(b1).lemma_sort_by_ensures(lex_leq());
    triples(b2).lemma_sort_by_ensures(lex_leq());
    let d1 = dedup_spec(s1);
    let d2 = dedup_spec(s2);
    lemma_dedup_sorted_distinct(s1);
    lemma_dedup_sorted_distinct(s2);
    assert forall|c: Px| d1.contains(c) <==> d2.contains(c) by {
        lemma_dedup_same_contains(s1, c);
        lemma_dedup_same_contains(s2, c);
        lemma_sort_same_contains(triples(b1), c);
        lemma_sort_same_contains(triples(b2), c);
    }
    lemma_sorted_distinct_same_set(d1, d2);
    assert(working_store(b1, true) == working_store(b2, true));
    assert(seed_candidates(b1, true) == seed_candidates(b2, true));
}

} // verus!
