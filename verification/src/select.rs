//! Choice of the closest candidates as neighbours.

use vstd::prelude::*;
use crate::distance::sum_sq_diff;
use crate::ranked::{ascending, key_lt, BestList, Ranked};
use crate::search::{accounted, rank_of, uniform};

verus! {

/// The points `ids`, each with its distance to `query`.
pub open spec fn ranks_of(points: Seq<Vec<i32>>, query: Seq<i32>, ids: Seq<usize>) -> Seq<Ranked> {
    Seq::new(ids.len(), |i: int| rank_of(points, query, ids[i]))
}

/// `chosen` holds the `max_neighbors` best entries of `all`, or all of them
/// where there are fewer, in ascending rank.
pub open spec fn is_selection(chosen: Seq<Ranked>, all: Seq<Ranked>, max_neighbors: usize) -> bool {
    &&& ascending(chosen)
    &&& chosen.len() <= max_neighbors
    &&& forall|i: int| 0 <= i < chosen.len() ==> all.contains(#[trigger] chosen[i])
    &&& forall|j: int| 0 <= j < all.len() ==> accounted(chosen, max_neighbors, #[trigger] all[j])
}

/// The selection from `candidates`: the ids of the `max_neighbors` points
/// closest to `query`, closest first. There is one such sequence, see
/// `lemma_selection_unique`.
pub open spec fn selection_of(
    points: Seq<Vec<i32>>,
    query: Seq<i32>,
    candidates: Seq<usize>,
    max_neighbors: usize,
) -> Seq<usize> {
    choose|chosen: Seq<usize>|
        is_selection(
            #[trigger] ranks_of(points, query, chosen),
            ranks_of(points, query, candidates),
            max_neighbors,
        )
}

/// Two selections from the same entries agree on their first `i` places.
proof fn lemma_selections_agree(a: Seq<Ranked>, b: Seq<Ranked>, all: Seq<Ranked>, m: usize, i: int)
    requires
        is_selection(a, all, m),
        is_selection(b, all, m),
        0 <= i <= a.len(),
        i <= b.len(),
    ensures
        forall|j: int| 0 <= j < i ==> a[j] == b[j],
    decreases i,
{
    if i > 0 {
        lemma_selections_agree(a, b, all, m, i - 1);
        let k = i - 1;
        let x = a[k];
        let y = b[k];
        if x != y {
            lemma_not_first(a, b, all, m, k);
            lemma_not_first(b, a, all, m, k);
        }
    }
}

/// Where two selections agree before place `k`, the entry of the first at
/// `k` is that of the second, or ranks behind it.
proof fn lemma_not_first(a: Seq<Ranked>, b: Seq<Ranked>, all: Seq<Ranked>, m: usize, k: int)
    requires
        is_selection(a, all, m),
        is_selection(b, all, m),
        0 <= k < a.len(),
        k < b.len(),
        forall|j: int| 0 <= j < k ==> a[j] == b[j],
    ensures
        a[k] == b[k] || key_lt(b[k], a[k]),
{
    let x = a[k];
    assert(all.contains(x));
    let w = choose|w: int| 0 <= w < all.len() && all[w] == x;
    assert(accounted(b, m, all[w]));
    if b.contains(x) {
        let j = choose|j: int| 0 <= j < b.len() && b[j] == x;
        if j < k {
            assert(a[j] == b[j]);
            assert(key_lt(a[j], a[k]));
        } else if j > k {
            assert(key_lt(b[k], b[j]));
        }
    } else {
        if k < b.len() - 1 {
            assert(key_lt(b[k], b[b.len() - 1]));
        }
    }
}

/// There is one selection only.
pub proof fn lemma_best_unique(a: Seq<Ranked>, b: Seq<Ranked>, all: Seq<Ranked>, m: usize)
    requires
        is_selection(a, all, m),
        is_selection(b, all, m),
    ensures
        a == b,
{
    if a.len() <= b.len() {
        lemma_selections_agree(a, b, all, m, a.len() as int);
        lemma_not_longer(a, b, all, m);
    } else {
        lemma_selections_agree(a, b, all, m, b.len() as int);
        lemma_not_longer(b, a, all, m);
    }
    assert(a =~= b);
}

/// A selection that agrees with another one on all its places is as long.
proof fn lemma_not_longer(a: Seq<Ranked>, b: Seq<Ranked>, all: Seq<Ranked>, m: usize)
    requires
        is_selection(a, all, m),
        is_selection(b, all, m),
        a.len() <= b.len(),
        forall|j: int| 0 <= j < a.len() ==> a[j] == b[j],
    ensures
        a.len() == b.len(),
{
    if a.len() < b.len() {
        let n = a.len() as int;
        let z = b[n];
        assert(all.contains(z));
        let w = choose|w: int| 0 <= w < all.len() && all[w] == z;
        assert(accounted(a, m, all[w]));
        if a.contains(z) {
            let j = choose|j: int| 0 <= j < a.len() && a[j] == z;
            assert(b[j] == a[j]);
            assert(key_lt(b[j], b[n]));
        }
    }
}

/// The ids of a selection are the selection of the candidates.
pub proof fn lemma_selection_unique(
    points: Seq<Vec<i32>>,
    query: Seq<i32>,
    chosen: Seq<usize>,
    candidates: Seq<usize>,
    max_neighbors: usize,
)
    requires
        is_selection(
            ranks_of(points, query, chosen),
            ranks_of(points, query, candidates),
            max_neighbors,
        ),
    ensures
        chosen == selection_of(points, query, candidates, max_neighbors),
{
    let other = selection_of(points, query, candidates, max_neighbors);
    let all = ranks_of(points, query, candidates);
    lemma_best_unique(
        ranks_of(points, query, chosen),
        ranks_of(points, query, other),
        all,
        max_neighbors,
    );
    assert(chosen.len() == other.len());
    assert forall|i: int| 0 <= i < chosen.len() implies chosen[i] == other[i] by {
        assert(ranks_of(points, query, chosen)[i] == rank_of(points, query, chosen[i]));
        assert(ranks_of(points, query, other)[i] == rank_of(points, query, other[i]));
    }
    assert(chosen =~= other);
}

/// Picks from `candidates` the `max_neighbors` points closest to `query`,
/// closest first; ties go to the smaller id. This is the plain
/// closest-first choice: no candidate is preferred for the direction it
/// lies in. A candidate that is named twice is chosen once.
pub fn select_neighbors(
    points: &Vec<Vec<i32>>,
    query: &Vec<i32>,
    candidates: &Vec<usize>,
    max_neighbors: usize,
) -> (chosen: Vec<usize>)
    requires
        uniform(points@, query@.len()),
        forall|i: int| 0 <= i < candidates@.len() ==> (#[trigger] candidates@[i]) < points@.len(),
    ensures
        max_neighbors == 0 ==> chosen@.len() == 0,
        max_neighbors >= 1 ==> is_selection(
            ranks_of(points@, query@, chosen@),
            ranks_of(points@, query@, candidates@),
            max_neighbors,
        ),
        max_neighbors >= 1 ==> chosen@ == selection_of(points@, query@, candidates@, max_neighbors),
{
    let mut chosen: Vec<usize> = Vec::new();
    if max_neighbors == 0 {
        return chosen;
    }
    let ghost all = ranks_of(points@, query@, candidates@);
    let mut best = BestList::new(max_neighbors);
    let mut i: usize = 0;
    while i < candidates.len()
        invariant
            i <= candidates.len(),
            uniform(points@, query@.len()),
            forall|j: int| 0 <= j < candidates@.len() ==> (#[trigger] candidates@[j]) < points@.len(),
            all == ranks_of(points@, query@, candidates@),
            best.wf(),
            best.cap == max_neighbors,
            forall|y: Ranked| #[trigger] best@.contains(y) ==> all.contains(y),
            forall|j: int| 0 <= j < i ==> best.accounts_for(#[trigger] all[j]),
        decreases candidates.len() - i,
    {
        let c = candidates[i];
        let d = sum_sq_diff(query, &points[c]);
        let r: Ranked = (c, d);
        proof {
            assert(all[i as int] == r);
            assert(all.contains(r));
        }
        let ghost prev = best;
        best.offer(r);
        proof {
            assert forall|j: int| 0 <= j < i + 1 implies best.accounts_for(#[trigger] all[j]) by {
                if j < i {
                    assert(prev.accounts_for(all[j]));
                    if prev@.contains(all[j]) {
                    } else {
                        assert(prev.excludes(all[j]));
                    }
                }
            }
        }
        i = i + 1;
    }
    let mut k: usize = 0;
    while k < best.items.len()
        invariant
            k <= best.items@.len(),
            chosen@.len() == k,
            forall|j: int| 0 <= j < k ==> (#[trigger] chosen@[j]) == best@[j].0,
        decreases best.items@.len() - k,
    {
        chosen.push(best.items[k].0);
        k = k + 1;
    }
    proof {
        let got = ranks_of(points@, query@, chosen@);
        assert forall|j: int| 0 <= j < best@.len() implies got[j] == #[trigger] best@[j] by {
            assert(best@.contains(best@[j]));
            let y = best@[j];
            let w = choose|w: int| 0 <= w < all.len() && all[w] == y;
            assert(all[w] == rank_of(points@, query@, candidates@[w]));
        }
        assert(got =~= best@);
        assert forall|j: int| 0 <= j < all.len() implies accounted(
            got,
            max_neighbors,
            #[trigger] all[j],
        ) by {
            assert(best.accounts_for(all[j]));
        }
        assert forall|j: int| 0 <= j < got.len() implies all.contains(#[trigger] got[j]) by {
            assert(best@.contains(best@[j]));
        }
        lemma_selection_unique(points@, query@, chosen@, candidates@, max_neighbors);
    }
    chosen
}

/// The ids of a selection are candidates, and none is chosen twice.
pub proof fn lemma_selection_ids(
    points: Seq<Vec<i32>>,
    query: Seq<i32>,
    chosen: Seq<usize>,
    candidates: Seq<usize>,
    max_neighbors: usize,
)
    requires
        is_selection(
            ranks_of(points, query, chosen),
            ranks_of(points, query, candidates),
            max_neighbors,
        ),
    ensures
        chosen.no_duplicates(),
        chosen.len() <= max_neighbors,
        forall|i: int| 0 <= i < chosen.len() ==> candidates.contains(#[trigger] chosen[i]),
{
    let got = ranks_of(points, query, chosen);
    let all = ranks_of(points, query, candidates);
    assert forall|i: int, j: int| 0 <= i < chosen.len() && 0 <= j < chosen.len() && i != j implies chosen[i]
        != chosen[j] by {
        assert(got[i] == rank_of(points, query, chosen[i]));
        assert(got[j] == rank_of(points, query, chosen[j]));
        if i < j {
            assert(key_lt(got[i], got[j]));
        } else {
            assert(key_lt(got[j], got[i]));
        }
    }
    assert forall|i: int| 0 <= i < chosen.len() implies candidates.contains(#[trigger] chosen[i]) by {
        assert(all.contains(got[i]));
        let w = choose|w: int| 0 <= w < all.len() && all[w] == got[i];
        assert(all[w] == rank_of(points, query, candidates[w]));
        assert(got[i] == rank_of(points, query, chosen[i]));
        assert(candidates[w] == chosen[i]);
    }
}

} // verus!
