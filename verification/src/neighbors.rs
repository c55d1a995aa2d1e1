//! Neighbor lists: which of the candidates found on the grid a particle
//! keeps, and in what order.

use vstd::prelude::*;
use crate::config::NUM_NEIGHBORS;
use crate::grid::{indices, lemma_filter_no_duplicates};

verus! {

/// One entry of a neighbor list: the neighbor's index in the particle store
/// and the separation that was measured for it.
#[derive(Debug)]
pub struct Neighbor<D> {
    pub index: usize,
    pub r: D,
}

/// The measurement taken for the candidate at position `k`, if any. A
/// position without a measurement counts as out of range.
pub open spec fn measurement<D>(measured: Seq<Option<D>>, k: int) -> Option<D> {
    if 0 <= k < measured.len() {
        measured[k]
    } else {
        None
    }
}

/// Every candidate that has a measurement, in scan order, paired with it.
pub open spec fn accepted<D>(cands: Seq<usize>, measured: Seq<Option<D>>) -> Seq<Neighbor<D>> {
    indices(cands.len()).filter(|k: usize| measurement(measured, k as int) is Some).map_values(
        |k: usize| Neighbor { index: cands[k as int], r: measurement(measured, k as int)->0 },
    )
}

/// The first `cap` entries of a list; all of it if it is shorter.
pub open spec fn capped<T>(s: Seq<T>, cap: int) -> Seq<T> {
    if s.len() <= cap {
        s
    } else {
        s.take(cap)
    }
}

/// Picks a particle's neighbors from the grid's candidates: those with a
/// measurement, first found first, up to the cap on a list's length.
pub fn select_neighbors<D: Copy>(cands: &Vec<usize>, measured: &Vec<Option<D>>) -> (list: Vec<
    Neighbor<D>,
>)
    ensures
        list@ == capped(accepted(cands@, measured@), NUM_NEIGHBORS as int),
{
    let mut list: Vec<Neighbor<D>> = Vec::new();
    let n: usize = cands.len();
    let mut k: usize = 0;
    while k < n
        invariant
            k <= n,
            n == cands@.len(),
            list@ == capped(accepted(cands@.take(k as int), measured@), NUM_NEIGHBORS as int),
        decreases n - k,
    {
        proof {
            lemma_accepted_step(cands@, measured@, k as int);
        }
        if k < measured.len() {
            match measured[k] {
                Some(r) => {
                    if list.len() < NUM_NEIGHBORS {
                        list.push(Neighbor { index: cands[k], r });
                    }
                },
                None => {},
            }
        }
        k += 1;
    }
    proof {
        assert(cands@.take(n as int) =~= cands@);
    }
    list
}

/// Scanning one more candidate appends it if it was measured, and changes
/// nothing otherwise.
pub proof fn lemma_accepted_step<D>(cands: Seq<usize>, measured: Seq<Option<D>>, k: int)
    requires
        0 <= k < cands.len(),
        cands.len() <= usize::MAX,
    ensures
        accepted(cands.take(k + 1), measured) == (if measurement(measured, k) is Some {
            accepted(cands.take(k), measured).push(
                Neighbor { index: cands[k], r: measurement(measured, k)->0 },
            )
        } else {
            accepted(cands.take(k), measured)
        }),
{
    let has = |i: usize| measurement(measured, i as int) is Some;
    let short = cands.take(k);
    let long = cands.take(k + 1);
    let pair_short = |i: usize| Neighbor { index: short[i as int], r: measurement(measured, i as int)->0 };
    let pair_long = |i: usize| Neighbor { index: long[i as int], r: measurement(measured, i as int)->0 };
    assert(indices(long.len()).drop_last() =~= indices(short.len()));
    assert(indices(long.len()).last() == k as usize);
    reveal(Seq::filter);
    let kept = indices(short.len()).filter(has);
    assert forall|i: int| 0 <= i < kept.len() implies pair_short(kept[i]) == pair_long(kept[i]) by {
        indices(short.len()).lemma_filter_contains_rev(has, kept[i]);
        assert(kept.contains(kept[i]));
        let from = choose|from: int| 0 <= from < short.len() && indices(short.len())[from] == kept[i];
        assert(kept[i] == from);
    }
    assert(kept.map_values(pair_short) =~= kept.map_values(pair_long));
    if has(k as usize) {
        assert(kept.push(k as usize).map_values(pair_long) =~= kept.map_values(pair_long).push(
            pair_long(k as usize),
        ));
    }
}

/// Every accepted entry names one of the candidates and carries the
/// measurement taken for it.
pub proof fn lemma_accepted_from_candidates<D>(
    cands: Seq<usize>,
    measured: Seq<Option<D>>,
    at: int,
)
    requires
        cands.len() <= usize::MAX,
        0 <= at < accepted(cands, measured).len(),
    ensures
        exists|k: int|
            0 <= k < cands.len() && measurement(measured, k) == Some(
                accepted(cands, measured)[at].r,
            ) && #[trigger] cands[k] == accepted(cands, measured)[at].index,
{
    let has = |i: usize| measurement(measured, i as int) is Some;
    let kept = indices(cands.len()).filter(has);
    indices(cands.len()).lemma_filter_pred(has, at);
    assert(kept.contains(kept[at]));
    indices(cands.len()).lemma_filter_contains_rev(has, kept[at]);
    let from = choose|from: int| 0 <= from < cands.len() && indices(cands.len())[from] == kept[at];
    assert(cands[from] == accepted(cands, measured)[at].index);
}

/// Every measured candidate is accepted.
pub proof fn lemma_measured_is_accepted<D>(cands: Seq<usize>, measured: Seq<Option<D>>, k: int)
    requires
        cands.len() <= usize::MAX,
        0 <= k < cands.len(),
        measurement(measured, k) is Some,
    ensures
        exists|at: int|
            0 <= at < accepted(cands, measured).len() && #[trigger] accepted(
                cands,
                measured,
            )[at] == (Neighbor { index: cands[k], r: measurement(measured, k)->0 }),
{
    let has = |i: usize| measurement(measured, i as int) is Some;
    let all = indices(cands.len());
    let kept = all.filter(has);
    assert(all[k] == k as usize);
    all.lemma_filter_contains(has, k);
    let at = choose|at: int| 0 <= at < kept.len() && kept[at] == k as usize;
    assert(accepted(cands, measured)[at] == (Neighbor {
        index: cands[k],
        r: measurement(measured, k)->0,
    }));
}

/// Candidates that are all different give entries that all name different
/// particles.
pub proof fn lemma_accepted_distinct<D>(
    cands: Seq<usize>,
    measured: Seq<Option<D>>,
    a: int,
    b: int,
)
    requires
        cands.len() <= usize::MAX,
        cands.no_duplicates(),
        0 <= a < accepted(cands, measured).len(),
        0 <= b < accepted(cands, measured).len(),
        a != b,
    ensures
        accepted(cands, measured)[a].index != accepted(cands, measured)[b].index,
{
    let has = |i: usize| measurement(measured, i as int) is Some;
    let all = indices(cands.len());
    let kept = all.filter(has);
    lemma_filter_no_duplicates(all, has);
    assert(kept.contains(kept[a]));
    assert(kept.contains(kept[b]));
    all.lemma_filter_contains_rev(has, kept[a]);
    all.lemma_filter_contains_rev(has, kept[b]);
    let from_a = choose|from: int| 0 <= from < cands.len() && all[from] == kept[a];
    let from_b = choose|from: int| 0 <= from < cands.len() && all[from] == kept[b];
    assert(from_a != from_b);
}

/// Where nothing is within range, nothing is accepted.
pub proof fn lemma_nothing_measured<D>(cands: Seq<usize>, measured: Seq<Option<D>>)
    requires
        cands.len() <= usize::MAX,
        forall|k: int| 0 <= k < cands.len() ==> measurement(measured, k) is None,
    ensures
        accepted(cands, measured).len() == 0,
{
    if accepted(cands, measured).len() > 0 {
        lemma_accepted_from_candidates(cands, measured, 0);
    }
}

} // verus!
