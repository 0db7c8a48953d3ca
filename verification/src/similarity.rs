//! Similarity engine: ranks stored embeddings by distance to a query.
//!
//! The metric is the taxicab (L1) distance: the sum over lanes of the
//! absolute lane difference. The choice of metric changes result order,
//! so it is fixed here once for the whole store. Ties in distance are
//! broken by the lower ordinal, so the earliest inserted record wins and
//! every ranking is deterministic.

use vstd::prelude::*;
use crate::encoder::MAX_DIM;

verus! {

/// Absolute difference of two lanes.
pub open spec fn abs_diff(a: u32, b: u32) -> nat {
    if a >= b {
        (a - b) as nat
    } else {
        (b - a) as nat
    }
}

/// Taxicab distance between two equal-length embeddings: the sum of
/// absolute lane differences.
pub open spec fn spec_dist(a: Seq<u32>, b: Seq<u32>) -> nat
    recommends
        a.len() == b.len(),
    decreases a.len(),
{
    if a.len() == 0 {
        0
    } else {
        spec_dist(a.drop_last(), b.drop_last()) + abs_diff(a.last(), b.last())
    }
}

/// Computes the taxicab distance between two embeddings of equal
/// dimension. The 64-bit accumulator cannot overflow: each lane
/// contributes less than 2^32 and there are at most `MAX_DIM` lanes.
pub fn dist(a: &Vec<u32>, b: &Vec<u32>) -> (d: u64)
    requires
        a@.len() == b@.len(),
        a@.len() <= MAX_DIM,
    ensures
        d as nat == spec_dist(a@, b@),
{
    let n = a.len();
    let mut d: u64 = 0;
    let mut i: usize = 0;
    while i < n
        invariant
            n == a@.len(),
            n == b@.len(),
            n <= MAX_DIM,
            i <= n,
            d as nat == spec_dist(a@.take(i as int), b@.take(i as int)),
            d <= (i as u64) * 0xFFFF_FFFFu64,
        decreases n - i,
    {
        let ai = a[i];
        let bi = b[i];
        let step: u64 = if ai >= bi {
            (ai - bi) as u64
        } else {
            (bi - ai) as u64
        };
        proof {
            assert(a@.take(i + 1).drop_last() =~= a@.take(i as int));
            assert(b@.take(i + 1).drop_last() =~= b@.take(i as int));
            assert(a@.take(i + 1).last() == a@[i as int]);
            assert(b@.take(i + 1).last() == b@[i as int]);
            assert(step <= 0xFFFF_FFFFu64);
            assert(d + step <= (i as u64 + 1) * 0xFFFF_FFFFu64);
            assert((i as u64 + 1) * 0xFFFF_FFFFu64 <= (MAX_DIM as u64) * 0xFFFF_FFFFu64);
        }
        d = d + step;
        i += 1;
    }
    proof {
        assert(a@.take(n as int) =~= a@);
        assert(b@.take(n as int) =~= b@);
    }
    d
}

/// Strict ranking order for query `q` over the stored embeddings `es`:
/// ordinal `i` ranks before ordinal `j` when its embedding is strictly
/// closer to the query, or equally close with the lower ordinal.
pub open spec fn ranks_before(q: Seq<u32>, es: Seq<Seq<u32>>, i: int, j: int) -> bool {
    ||| spec_dist(q, es[i]) < spec_dist(q, es[j])
    ||| (spec_dist(q, es[i]) == spec_dist(q, es[j]) && i < j)
}

/// The embeddings a vector of lane vectors holds, as plain sequences.
pub open spec fn embeddings_of(es: Seq<Vec<u32>>) -> Seq<Seq<u32>> {
    es.map_values(|e: Vec<u32>| e@)
}

/// Whether the ordinal sequence `r` contains ordinal `p`.
pub open spec fn contains_ordinal(r: Seq<usize>, p: int) -> bool {
    exists|a: int| 0 <= a < r.len() && r[a] == p
}

/// What it means for `r` to be the top-`k` ranking of the stored
/// embeddings `es` for query `q`: it holds `min(k, |es|)` valid ordinals,
/// best match first in strict ranking order, and every stored ordinal
/// left out ranks after every ordinal kept. These conditions determine
/// `r` uniquely (`lemma_ranking_unique`).
pub open spec fn is_ranking(q: Seq<u32>, es: Seq<Seq<u32>>, k: int, r: Seq<usize>) -> bool {
    &&& r.len() == vstd::math::min(k, es.len() as int)
    &&& forall|a: int| 0 <= a < r.len() ==> (#[trigger] r[a]) < es.len()
    &&& forall|a: int, b: int|
        0 <= a < b < r.len() ==> #[trigger] ranks_before(q, es, r[a] as int, r[b] as int)
    &&& forall|p: int|
        #![trigger contains_ordinal(r, p)]
        0 <= p < es.len() && !contains_ordinal(r, p) ==> forall|a: int|
            0 <= a < r.len() ==> ranks_before(q, es, #[trigger] r[a] as int, p)
}

/// Returns the ordinals of the `k` stored embeddings closest to `query`,
/// best match first, ties broken by the lower ordinal. If fewer than `k`
/// embeddings are stored, all of them are returned, ordered; searching an
/// empty sequence of entries returns an empty sequence.
///
/// The scan keeps a bounded selection buffer of at most `k` candidates,
/// so the work is O(n * k) rather than a full sort.
pub fn search(query: &Vec<u32>, entries: &Vec<Vec<u32>>, k: usize) -> (r: Vec<usize>)
    requires
        query@.len() <= MAX_DIM,
        forall|i: int|
            0 <= i < entries@.len() ==> (#[trigger] entries@[i])@.len() == query@.len(),
    ensures
        is_ranking(query@, embeddings_of(entries@), k as int, r@),
{
    let ghost es: Seq<Seq<u32>> = embeddings_of(entries@);
    proof {
        assert(es.len() == entries@.len());
        assert(forall|i: int| 0 <= i < es.len() ==> es[i] == (#[trigger] entries@[i])@);
    }
    let n = entries.len();
    let mut best: Vec<usize> = Vec::new();
    let mut dists: Vec<u64> = Vec::new();
    let mut i: usize = 0;
    while i < n
        invariant
            es == embeddings_of(entries@),
            es.len() == entries@.len(),
            n == entries@.len(),
            query@.len() <= MAX_DIM,
            forall|t: int|
                0 <= t < entries@.len() ==> (#[trigger] entries@[t])@.len() == query@.len(),
            forall|t: int| 0 <= t < es.len() ==> es[t] == (#[trigger] entries@[t])@,
            i <= n,
            best@.len() == dists@.len(),
            best@.len() == vstd::math::min(k as int, i as int),
            forall|a: int| 0 <= a < best@.len() ==> (#[trigger] best@[a]) < i,
            forall|a: int|
                0 <= a < best@.len() ==> (#[trigger] dists@[a]) as nat == spec_dist(
                    query@,
                    es[best@[a] as int],
                ),
            forall|a: int, b: int|
                0 <= a < b < best@.len() ==> #[trigger] ranks_before(
                    query@,
                    es,
                    best@[a] as int,
                    best@[b] as int,
                ),
            forall|p: int|
                #![trigger contains_ordinal(best@, p)]
                0 <= p < i && !contains_ordinal(best@, p) ==> forall|a: int|
                    0 <= a < best@.len() ==> ranks_before(query@, es, #[trigger] best@[a] as int, p),
            best@.len() < k ==> forall|p: int| 0 <= p < i ==> contains_ordinal(best@, p),
        decreases n - i,
    {
        let ghost best0 = best@;
        let ghost dists0 = dists@;
        let d = dist(query, &entries[i]);
        let mut pos: usize = 0;
        while pos < best.len() && dists[pos] <= d
            invariant
                best@ == best0,
                dists@ == dists0,
                best@.len() == dists@.len(),
                pos <= best@.len(),
                forall|a: int| 0 <= a < pos ==> (#[trigger] dists@[a]) <= d,
            decreases best@.len() - pos,
        {
            pos += 1;
        }
        proof {
            // everything at or past the insertion point is strictly farther
            assert forall|b: int| pos <= b < best0.len() implies (#[trigger] dists0[b]) > d by {
                if pos < best0.len() {
                    if b > pos {
                        assert(ranks_before(query@, es, best0[pos as int] as int, best0[b] as int));
                    }
                } else {
                    assert(false);
                }
            }
            // everything before the insertion point ranks before ordinal i
            assert forall|a: int| 0 <= a < pos implies ranks_before(
                query@,
                es,
                best0[a] as int,
                i as int,
            ) by {
                assert(dists0[a] <= d);
                assert(best0[a] < i);
            }
            // ordinal i ranks before everything at or past the insertion point
            assert forall|b: int| pos <= b < best0.len() implies ranks_before(
                query@,
                es,
                i as int,
                best0[b] as int,
            ) by {
                assert(dists0[b] > d);
            }
        }
        if best.len() < k {
            // the buffer is not yet full: every processed ordinal is kept
            best.insert(pos, i);
            dists.insert(pos, d);
            proof {
                assert(best@ == best0.insert(pos as int, i));
                assert forall|p: int| 0 <= p < i + 1 implies contains_ordinal(best@, p) by {
                    if p == i {
                        assert(best@[pos as int] == i);
                    } else {
                        assert(contains_ordinal(best0, p));
                        let a = choose|a: int| 0 <= a < best0.len() && best0[a] == p;
                        if a < pos {
                            assert(best@[a] == p);
                        } else {
                            assert(best@[a + 1] == p);
                        }
                    }
                }
                assert forall|a: int, b: int| 0 <= a < b < best@.len() implies ranks_before(
                    query@,
                    es,
                    best@[a] as int,
                    best@[b] as int,
                ) by {}
                assert forall|p: int|
                    0 <= p < i + 1 && !contains_ordinal(best@, p) implies forall|a: int|
                    0 <= a < best@.len() ==> ranks_before(
                        query@,
                        es,
                        #[trigger] best@[a] as int,
                        p,
                    ) by {
                    assert(contains_ordinal(best@, p));
                }
            }
        } else if pos < k {
            // the buffer is full and ordinal i beats its worst candidate:
            // insert i in order and drop the candidate pushed past k
            let ghost evicted = best0[best0.len() - 1];
            best.insert(pos, i);
            dists.insert(pos, d);
            let _ = best.pop();
            let _ = dists.pop();
            proof {
                assert(best@ =~= best0.insert(pos as int, i).drop_last());
                assert(dists@ =~= dists0.insert(pos as int, d).drop_last());
                assert(best@.len() == k);
                // the dropped candidate is the old worst
                assert(best0.insert(pos as int, i)[best0.len() as int] == evicted);
                // i ranks before the old worst
                assert(ranks_before(query@, es, i as int, evicted as int));
                // order among the kept candidates
                assert forall|a: int, b: int| 0 <= a < b < best@.len() implies ranks_before(
                    query@,
                    es,
                    best@[a] as int,
                    best@[b] as int,
                ) by {
                    if a < pos {
                        assert(best@[a] == best0[a]);
                    }
                }
                // every ordinal now left out ranks after every kept one
                assert forall|p: int|
                    0 <= p < i + 1 && !contains_ordinal(best@, p) implies forall|a: int|
                    0 <= a < best@.len() ==> ranks_before(
                        query@,
                        es,
                        #[trigger] best@[a] as int,
                        p,
                    ) by {
                    assert forall|a: int| 0 <= a < best@.len() implies ranks_before(
                        query@,
                        es,
                        best@[a] as int,
                        p,
                    ) by {
                        if p == i as int {
                            assert(best@[pos as int] == i);
                            assert(contains_ordinal(best@, p));
                        } else if p == evicted as int {
                            if a < pos {
                                assert(best@[a] == best0[a]);
                                assert(ranks_before(
                                    query@,
                                    es,
                                    best0[a] as int,
                                    evicted as int,
                                ));
                            } else if a == pos {
                                assert(best@[a] == i);
                            } else {
                                assert(best@[a] == best0[a - 1]);
                                assert(a - 1 < best0.len() - 1);
                                assert(ranks_before(
                                    query@,
                                    es,
                                    best0[a - 1] as int,
                                    evicted as int,
                                ));
                            }
                        } else if contains_ordinal(best0, p) {
                            // p was kept before and not dropped, so it is still kept
                            let w = choose|w: int| 0 <= w < best0.len() && best0[w] == p;
                            assert(w < best0.len() - 1);
                            if w < pos {
                                assert(best@[w] == p);
                            } else {
                                assert(best@[w + 1] == p);
                            }
                            assert(contains_ordinal(best@, p));
                        } else {
                            // p was already left out: it ranks after the old
                            // worst, hence after i, and after every kept old one
                            assert(!contains_ordinal(best0, p));
                            assert(ranks_before(query@, es, evicted as int, p));
                            if a < pos {
                                assert(best@[a] == best0[a]);
                                assert(ranks_before(query@, es, best0[a] as int, p));
                            } else if a == pos {
                                assert(best@[a] == i);
                                assert(ranks_before(query@, es, i as int, evicted as int));
                            } else {
                                assert(best@[a] == best0[a - 1]);
                                assert(ranks_before(query@, es, best0[a - 1] as int, p));
                            }
                        }
                    }
                }
            }
        } else {
            // the buffer is full and ordinal i ranks after all of it
            proof {
                assert(pos == best0.len());
                assert forall|p: int|
                    0 <= p < i + 1 && !contains_ordinal(best@, p) implies forall|a: int|
                    0 <= a < best@.len() ==> ranks_before(
                        query@,
                        es,
                        #[trigger] best@[a] as int,
                        p,
                    ) by {
                    assert forall|a: int| 0 <= a < best@.len() implies ranks_before(
                        query@,
                        es,
                        best@[a] as int,
                        p,
                    ) by {
                        if p == i as int {
                            assert(dists0[a] <= d);
                            assert(best0[a] < i);
                        }
                    }
                }
            }
        }
        i += 1;
    }
    proof {
        assert(is_ranking(query@, es, k as int, best@));
    }
    best
}

/// The ranking for a given query, entry sequence and `k` is unique: any
/// two ordinal sequences satisfying `is_ranking` are equal. Ranking, and
/// therefore querying, is deterministic: repeating a search against an
/// unchanged store returns identical ordered results.
pub proof fn lemma_ranking_unique(
    q: Seq<u32>,
    es: Seq<Seq<u32>>,
    k: int,
    r1: Seq<usize>,
    r2: Seq<usize>,
)
    requires
        is_ranking(q, es, k, r1),
        is_ranking(q, es, k, r2),
    ensures
        r1 == r2,
    decreases r1.len(),
{
    lemma_ranking_prefix_eq(q, es, k, r1, r2, r1.len() as int);
    assert(r1 =~= r2);
}

/// Helper for `lemma_ranking_unique`: the first `j` entries of any two
/// rankings agree.
proof fn lemma_ranking_prefix_eq(
    q: Seq<u32>,
    es: Seq<Seq<u32>>,
    k: int,
    r1: Seq<usize>,
    r2: Seq<usize>,
    j: int,
)
    requires
        is_ranking(q, es, k, r1),
        is_ranking(q, es, k, r2),
        0 <= j <= r1.len(),
    ensures
        forall|a: int| 0 <= a < j ==> r1[a] == r2[a],
    decreases j,
{
    if j > 0 {
        lemma_ranking_prefix_eq(q, es, k, r1, r2, j - 1);
        let j0 = j - 1;
        if r1[j0] != r2[j0] {
            let p1 = r1[j0] as int;
            let p2 = r2[j0] as int;
            // neither candidate can sit in the other ranking's strict prefix,
            // since the prefixes agree and rankings hold distinct ordinals
            assert(forall|a: int| 0 <= a < j0 ==> r1[a] == r2[a]);
            if contains_ordinal(r2, p1) {
                let b = choose|b: int| 0 <= b < r2.len() && r2[b] == p1;
                assert(b != j0);
                if b < j0 {
                    assert(r1[b] == r2[b]);
                    assert(ranks_before(q, es, r1[b] as int, r1[j0] as int));
                    assert(false);
                }
                assert(ranks_before(q, es, p2, p1));
            } else {
                assert(ranks_before(q, es, p2, p1));
            }
            if contains_ordinal(r1, p2) {
                let b = choose|b: int| 0 <= b < r1.len() && r1[b] == p2;
                assert(b != j0);
                if b < j0 {
                    assert(r2[b] == r1[b]);
                    assert(ranks_before(q, es, r2[b] as int, r2[j0] as int));
                    assert(false);
                }
                assert(ranks_before(q, es, p1, p2));
            } else {
                assert(ranks_before(q, es, p1, p2));
            }
            assert(false);
        }
    }
}

} // verus!
