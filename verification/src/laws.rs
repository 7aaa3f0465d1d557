//! What holds of every well-formed index and of every search result.

use vstd::prelude::*;
use crate::distance::{dist_sq_spec, lemma_sq_diff_bound};
use crate::index::{grown, ids_seq, linked, Index, MAX_LAYERS};
use crate::ranked::{ascending, key_lt, Ranked};
use crate::graph::{connected, joined_lists, layer_wf, pruned_each, without};
use crate::search::{
    accounted, is_beam, is_path, lemma_reach_source, lemma_reach_step, rank_of, reachable,
};
use crate::select::{is_selection, lemma_selection_unique, ranks_of, selection_of};

verus! {

/// Every edge has its back edge: where `q` is a neighbour of `p` on a
/// layer of a well-formed index, `p` is a neighbour of `q` on that layer.
pub proof fn law_symmetry(index: Index, l: int, p: int, q: usize)
    requires
        index.wf(),
        0 <= l <= MAX_LAYERS,
        0 <= p < index.len(),
        index.layers@[l]@[p]@.contains(q),
    ensures
        q < index.len(),
        index.layers@[l]@[q as int]@.contains(p as usize),
{
    let adj = index.layers@[l]@;
    let t = choose|t: int| 0 <= t < adj[p]@.len() && adj[p]@[t] == q;
    assert(adj[p]@[t] < adj.len());
}

/// A point has neighbours only on layers up to the one it is assigned to,
/// and no point is assigned above the layer of the entry point.
pub proof fn law_layers(index: Index, l: int, p: int)
    requires
        index.wf(),
        0 <= l <= MAX_LAYERS,
        0 <= p < index.len(),
    ensures
        index.layers@[l]@[p]@.len() > 0 ==> l <= index.assigned@[p],
        index.entry_point.is_some(),
        index.assigned@[p] <= index.assigned@[index.entry_point.unwrap() as int],
        index.assigned@[index.entry_point.unwrap() as int] == index.top_layer,
{
}

/// The distance of a vector to itself is zero.
pub proof fn law_distance_to_self(x: Seq<i32>)
    ensures
        dist_sq_spec(x, x) == 0,
    decreases x.len(),
{
    if x.len() > 0 {
        law_distance_to_self(x.drop_last());
        lemma_sq_diff_bound(x.last(), x.last());
    }
}

/// The distance is symmetric.
pub proof fn law_distance_symmetric(x: Seq<i32>, y: Seq<i32>)
    requires
        x.len() == y.len(),
    ensures
        dist_sq_spec(x, y) == dist_sq_spec(y, x),
    decreases x.len(),
{
    if x.len() > 0 {
        law_distance_symmetric(x.drop_last(), y.drop_last());
        lemma_sq_diff_bound(x.last(), y.last());
    }
}

/// Whatever a query on a non-empty index answers with is in ascending
/// rank, at most `k` long and at most `ef` long, and holds points of the
/// index only, each with its true distance to the query.
pub proof fn law_answer_is_ranked(index: Index, query: Seq<i32>, k: usize, ef: usize, found: Seq<Ranked>)
    requires
        index.answers(query, k, ef, found),
    ensures
        ascending(found),
        found.len() <= k,
        found.len() <= ef,
        forall|i: int|
            0 <= i < found.len() ==> (#[trigger] found[i]).0 < index.len() && found[i] == rank_of(
                index.points@,
                query,
                found[i].0,
            ),
{
    let (entry, beam) = choose|entry: usize, beam: Seq<Ranked>|
        #![trigger index.is_descent(query, index.entry_point.unwrap(), index.top_layer as int, 0, entry), is_beam(index.points@, index.layer(0), query, seq![entry], ef, beam)]
        index.is_descent(query, index.entry_point.unwrap(), index.top_layer as int, 0, entry)
            && is_beam(index.points@, index.layer(0), query, seq![entry], ef, beam) && found
            == beam.take(if k <= beam.len() {
            k as int
        } else {
            beam.len() as int
        });
    assert forall|i: int| 0 <= i < found.len() implies (#[trigger] found[i]).0 < index.len()
        && found[i] == rank_of(index.points@, query, found[i].0) by {
        assert(found[i] == beam[i]);
    }
    assert forall|i: int, j: int| 0 <= i < j < found.len() implies key_lt(
        #[trigger] found[i],
        #[trigger] found[j],
    ) by {
        assert(found[i] == beam[i]);
        assert(found[j] == beam[j]);
    }
}

/// A beam that is as long as there are points holds every point.
pub proof fn lemma_long_beam_holds_all(
    points: Seq<Vec<i32>>,
    query: Seq<i32>,
    found: Seq<Ranked>,
    p: usize,
)
    requires
        ascending(found),
        forall|i: int|
            0 <= i < found.len() ==> (#[trigger] found[i]).0 < points.len() && found[i] == rank_of(
                points,
                query,
                found[i].0,
            ),
        found.len() >= points.len(),
        p < points.len(),
    ensures
        found.contains(rank_of(points, query, p)),
{
    let n = points.len() as int;
    let ids = Seq::new(found.len(), |i: int| found[i].0 as int);
    assert forall|i: int, j: int| 0 <= i < ids.len() && 0 <= j < ids.len() && i != j implies ids[i]
        != ids[j] by {
        if i < j {
            assert(key_lt(found[i], found[j]));
        } else {
            assert(key_lt(found[j], found[i]));
        }
    }
    ids.unique_seq_to_set();
    let range = vstd::set_lib::set_int_range(0, n);
    vstd::set_lib::lemma_int_range(0, n);
    assert(ids.to_set().subset_of(range)) by {
        assert forall|v: int| ids.to_set().contains(v) implies range.contains(v) by {
            let i = choose|i: int| 0 <= i < ids.len() && ids[i] == v;
            assert(found[i].0 < points.len());
        }
    }
    vstd::set_lib::lemma_len_subset(ids.to_set(), range);
    vstd::set_lib::lemma_subset_equality(ids.to_set(), range);
    assert(range.contains(p as int));
    assert(ids.to_set().contains(p as int));
    let i = choose|i: int| 0 <= i < ids.len() && ids[i] == p as int;
    assert(found[i].0 == p);
    assert(found[i] == rank_of(points, query, p));
}

/// Exactness at full beam: a search whose beam is at least as wide as the
/// number of points finds every point that can be reached from its entry
/// points. (It never finds another: see `is_beam`.)
pub proof fn law_full_beam_finds_the_reachable(
    points: Seq<Vec<i32>>,
    adj: Seq<Seq<usize>>,
    query: Seq<i32>,
    entry_points: Seq<usize>,
    beam_width: usize,
    found: Seq<Ranked>,
    p: usize,
)
    requires
        is_beam(points, adj, query, entry_points, beam_width, found),
        adj.len() == points.len(),
        beam_width >= points.len(),
        reachable(adj, entry_points, p),
    ensures
        found.contains(rank_of(points, query, p)),
{
    let path = choose|path: Seq<usize>| #[trigger]
        is_path(adj, path) && entry_points.contains(path[0]) && path.last() == p;
    lemma_path_is_found(points, adj, query, entry_points, beam_width, found, path, path.len() - 1);
}

/// Each point on a walk from an entry point is found by a full beam.
proof fn lemma_path_is_found(
    points: Seq<Vec<i32>>,
    adj: Seq<Seq<usize>>,
    query: Seq<i32>,
    entry_points: Seq<usize>,
    beam_width: usize,
    found: Seq<Ranked>,
    path: Seq<usize>,
    i: int,
)
    requires
        is_beam(points, adj, query, entry_points, beam_width, found),
        adj.len() == points.len(),
        beam_width >= points.len(),
        is_path(adj, path),
        entry_points.contains(path[0]),
        0 <= i < path.len(),
    ensures
        found.contains(rank_of(points, query, path[i])),
    decreases i,
{
    let y = rank_of(points, query, path[i]);
    assert(path[i] < adj.len());
    if i == 0 {
        let e = choose|e: int| 0 <= e < entry_points.len() && entry_points[e] == path[0];
        assert(accounted(found, beam_width, rank_of(points, query, entry_points[e])));
    } else {
        lemma_path_is_found(points, adj, query, entry_points, beam_width, found, path, i - 1);
        let prev = rank_of(points, query, path[i - 1]);
        let j = choose|j: int| 0 <= j < found.len() && found[j] == prev;
        assert(found[j].0 == path[i - 1]);
        let list = adj[path[i - 1] as int];
        assert(list.contains(path[i]));
        let t = choose|t: int| 0 <= t < list.len() && list[t] == path[i];
        assert(accounted(found, beam_width, rank_of(points, query, adj[found[j].0 as int][t])));
    }
    if !found.contains(y) {
        assert(found.len() == beam_width);
        lemma_long_beam_holds_all(points, query, found, path[i]);
    }
}

/// Exactness of a query at full beam: where every point can be reached on
/// layer 0 from every other and `ef` is at least the number of points, the
/// answer holds the `k` points closest to the query, closest first: each
/// point is in the answer, or the answer is `k` long and the point ranks
/// behind its last entry.
pub proof fn law_full_beam_query_is_exact(
    index: Index,
    query: Seq<i32>,
    k: usize,
    ef: usize,
    found: Seq<Ranked>,
    p: usize,
)
    requires
        index.wf(),
        index.len() > 0,
        k >= 1,
        ef >= index.len(),
        index.answers(query, k, ef, found),
        forall|a: usize, b: usize|
            a < index.len() && b < index.len() ==> #[trigger] reachable(
                index.layer(0),
                seq![a],
                b,
            ),
        p < index.len(),
    ensures
        ascending(found),
        found.len() <= k,
        forall|i: int|
            0 <= i < found.len() ==> (#[trigger] found[i]).0 < index.len() && found[i] == rank_of(
                index.points@,
                query,
                found[i].0,
            ),
        accounted(found, k, rank_of(index.points@, query, p)),
{
    let (entry, beam) = choose|entry: usize, beam: Seq<Ranked>|
        #![trigger index.is_descent(query, index.entry_point.unwrap(), index.top_layer as int, 0, entry), is_beam(index.points@, index.layer(0), query, seq![entry], ef, beam)]
        index.is_descent(query, index.entry_point.unwrap(), index.top_layer as int, 0, entry)
            && is_beam(index.points@, index.layer(0), query, seq![entry], ef, beam) && found
            == beam.take(if k <= beam.len() {
            k as int
        } else {
            beam.len() as int
        });
    let adj = index.layer(0);
    assert(layer_wf(index.layers@[0]@));
    assert(accounted(beam, ef, rank_of(index.points@, query, seq![entry][0])));
    assert(beam.len() > 0);
    assert(beam[0].0 < index.len());
    assert(reachable(adj, seq![entry], beam[0].0));
    index.lemma_descent_in_range(query, index.entry_point.unwrap(), index.top_layer as int, 0, entry);
    assert(reachable(adj, seq![entry], p));
    law_full_beam_finds_the_reachable(index.points@, adj, query, seq![entry], ef, beam, p);
    let y = rank_of(index.points@, query, p);
    let j = choose|j: int| 0 <= j < beam.len() && beam[j] == y;
    if j < found.len() {
        assert(found[j] == y);
    } else {
        assert(found.len() == k);
        assert(found.last() == beam[k - 1]);
        assert(key_lt(beam[k - 1], beam[j]));
    }
}

/// Self-identity at full beam: under the conditions of
/// `law_full_beam_query_is_exact`, a query with the vector of the point
/// `p` answers first with a point at distance zero, which is `p` unless a
/// point with a smaller id lies as close.
pub proof fn law_self_identity(index: Index, k: usize, ef: usize, found: Seq<Ranked>, p: usize)
    requires
        index.wf(),
        p < index.len(),
        k >= 1,
        ef >= index.len(),
        index.answers(index.points@[p as int]@, k, ef, found),
        forall|a: usize, b: usize|
            a < index.len() && b < index.len() ==> #[trigger] reachable(
                index.layer(0),
                seq![a],
                b,
            ),
    ensures
        found.len() > 0,
        found[0].1 == 0,
        found[0].0 <= p,
{
    let query = index.points@[p as int]@;
    law_full_beam_query_is_exact(index, query, k, ef, found, p);
    law_distance_to_self(query);
    let y = rank_of(index.points@, query, p);
    assert(y == (p, 0u128));
    if found.contains(y) {
        let j = choose|j: int| 0 <= j < found.len() && found[j] == y;
        if j > 0 {
            assert(key_lt(found[0], found[j]));
        }
    } else {
        assert(key_lt(found.last(), y));
        if found.len() > 1 {
            assert(key_lt(found[0], found[found.len() - 1]));
        }
    }
}

/// What can be reached on a layer can be reached on the layer grown by a
/// point.
pub proof fn lemma_reach_in_grown(layer: Seq<Seq<usize>>, sources: Seq<usize>, target: usize)
    requires
        reachable(layer, sources, target),
    ensures
        reachable(grown(layer), sources, target),
{
    let path = choose|path: Seq<usize>| #[trigger]
        is_path(layer, path) && sources.contains(path[0]) && path.last() == target;
    let wide = grown(layer);
    assert forall|i: int| 0 < i < path.len() implies wide[path[i - 1] as int].contains(
        #[trigger] path[i],
    ) by {
        assert(path[i - 1] < layer.len());
        assert(wide[path[i - 1] as int] == layer[path[i - 1] as int]);
    }
    assert forall|i: int| 0 <= i < path.len() implies (#[trigger] path[i]) < wide.len() by {
        assert(path[i] < layer.len());
    }
    assert(is_path(wide, path));
}

/// Taking `id` out of a list keeps every other entry, and makes the list
/// no longer.
pub proof fn lemma_without_keeps(s: Seq<usize>, id: usize, p: usize)
    ensures
        without(s, id).len() <= s.len(),
        s.contains(p) && p != id ==> without(s, id).contains(p),
    decreases s.len(),
{
    if s.len() > 0 {
        let rest = s.drop_last();
        lemma_without_keeps(rest, id, p);
        if s.contains(p) && p != id {
            let k = choose|k: int| 0 <= k < s.len() && s[k] == p;
            if k < s.len() - 1 {
                assert(rest[k] == p);
                assert(rest.contains(p));
                if s.last() != id {
                    let w = choose|w: int| 0 <= w < without(rest, id).len() && without(rest, id)[w] == p;
                    assert(without(rest, id).push(s.last())[w] == p);
                }
            } else {
                assert(without(rest, id).push(p)[without(rest, id).len() as int] == p);
            }
        }
    }
}

/// Where no chosen point has more than `max_neighbors` neighbours, pruning
/// changes nothing.
pub proof fn lemma_no_trim(
    points: Seq<Vec<i32>>,
    layer: Seq<Seq<usize>>,
    chosen: Seq<usize>,
    max_neighbors: usize,
)
    requires
        forall|i: int| 0 <= i < chosen.len() ==> layer[(#[trigger] chosen[i]) as int].len() <= max_neighbors,
    ensures
        pruned_each(points, layer, chosen, max_neighbors) == layer,
    decreases chosen.len(),
{
    if chosen.len() > 0 {
        let head = chosen.drop_last();
        assert forall|i: int| 0 <= i < head.len() implies layer[(#[trigger] head[i]) as int].len()
            <= max_neighbors by {
            assert(head[i] == chosen[i]);
        }
        lemma_no_trim(points, layer, head, max_neighbors);
        assert(chosen.last() == chosen[chosen.len() - 1]);
    }
}

/// A list of `n` or fewer distinct ids below `n` is no longer than `n`.
pub proof fn lemma_short_list(s: Seq<usize>, n: nat)
    requires
        s.no_duplicates(),
        forall|i: int| 0 <= i < s.len() ==> (#[trigger] s[i]) < n,
    ensures
        s.len() <= n,
{
    let ids = Seq::new(s.len(), |i: int| s[i] as int);
    assert forall|i: int, j: int| 0 <= i < ids.len() && 0 <= j < ids.len() && i != j implies ids[i]
        != ids[j] by {
        assert(s[i] != s[j]);
    }
    ids.unique_seq_to_set();
    let range = vstd::set_lib::set_int_range(0, n as int);
    vstd::set_lib::lemma_int_range(0, n as int);
    assert(ids.to_set().subset_of(range)) by {
        assert forall|v: int| ids.to_set().contains(v) implies range.contains(v) by {
            let i = choose|i: int| 0 <= i < ids.len() && ids[i] == v;
            assert(s[i] < n);
        }
    }
    vstd::set_lib::lemma_len_subset(ids.to_set(), range);
}

/// What a search found is its own selection: the search keeps no more
/// than the beam, in ascending rank.
pub proof fn lemma_beam_selects_itself(
    points: Seq<Vec<i32>>,
    query: Seq<i32>,
    found: Seq<Ranked>,
    max_neighbors: usize,
)
    requires
        ascending(found),
        found.len() <= max_neighbors,
        forall|i: int| 0 <= i < found.len() ==> (#[trigger] found[i]) == rank_of(points, query, found[i].0),
    ensures
        selection_of(points, query, ids_seq(found), max_neighbors) == ids_seq(found),
{
    let ids = ids_seq(found);
    let all = ranks_of(points, query, ids);
    assert(all =~= found) by {
        assert forall|i: int| 0 <= i < found.len() implies all[i] == found[i] by {
            assert(ids[i] == found[i].0);
        }
    }
    assert forall|j: int| 0 <= j < all.len() implies accounted(all, max_neighbors, #[trigger] all[j]) by {
        assert(all.contains(all[j]));
    }
    assert forall|i: int| 0 <= i < all.len() implies all.contains(#[trigger] all[i]) by {}
    assert(is_selection(all, all, max_neighbors));
    lemma_selection_unique(points, query, ids, ids, max_neighbors);
}

/// The points on a walk through a grown layer that starts at an earlier
/// point are earlier points.
proof fn lemma_walk_stays_old(layer: Seq<Seq<usize>>, path: Seq<usize>, i: int)
    requires
        forall|p: int, t: int|
            0 <= p < layer.len() && 0 <= t < layer[p].len() ==> (#[trigger] layer[p][t]) < layer.len(),
        is_path(grown(layer), path),
        path[0] < layer.len(),
        0 <= i < path.len(),
    ensures
        path[i] < layer.len(),
    decreases i,
{
    if i > 0 {
        lemma_walk_stays_old(layer, path, i - 1);
        let prev = path[i - 1] as int;
        assert(grown(layer)[prev] == layer[prev]);
        assert(grown(layer)[prev].contains(path[i]));
        let t = choose|t: int| 0 <= t < layer[prev].len() && layer[prev][t] == path[i];
        assert(layer[prev][t] < layer.len());
    }
}

/// What can be reached on a grown layer from earlier points is an
/// earlier point, and can be reached on the layer as it was.
pub proof fn lemma_reach_stays_old(layer: Seq<Seq<usize>>, sources: Seq<usize>, target: usize)
    requires
        forall|p: int, t: int|
            0 <= p < layer.len() && 0 <= t < layer[p].len() ==> (#[trigger] layer[p][t]) < layer.len(),
        forall|i: int| 0 <= i < sources.len() ==> (#[trigger] sources[i]) < layer.len(),
        reachable(grown(layer), sources, target),
    ensures
        target < layer.len(),
        reachable(layer, sources, target),
{
    let path = choose|path: Seq<usize>| #[trigger]
        is_path(grown(layer), path) && sources.contains(path[0]) && path.last() == target;
    let e = choose|e: int| 0 <= e < sources.len() && sources[e] == path[0];
    assert(sources[e] < layer.len());
    assert forall|i: int| 0 <= i < path.len() implies (#[trigger] path[i]) < layer.len() by {
        lemma_walk_stays_old(layer, path, i);
    }
    assert forall|i: int| 0 < i < path.len() implies layer[path[i - 1] as int].contains(
        #[trigger] path[i],
    ) by {
        assert(path[i - 1] < layer.len());
        assert(grown(layer)[path[i - 1] as int] == layer[path[i - 1] as int]);
    }
    assert(is_path(layer, path));
}

/// The neighbour lists of a layer of a well-formed index name points of
/// the index only.
proof fn lemma_layer_in_range(index: Index, l: int)
    requires
        index.wf(),
        0 <= l <= MAX_LAYERS,
    ensures
        index.layer(l).len() == index.len(),
        forall|p: int, t: int|
            0 <= p < index.layer(l).len() && 0 <= t < index.layer(l)[p].len() ==> (
            #[trigger] index.layer(l)[p][t]) < index.layer(l).len(),
{
    let adj = index.layers@[l]@;
    assert(layer_wf(adj));
    assert forall|p: int, t: int|
        0 <= p < index.layer(l).len() && 0 <= t < index.layer(l)[p].len() implies (
    #[trigger] index.layer(l)[p][t]) < index.layer(l).len() by {
        assert(index.layer(l)[p] == adj[p]@);
        assert(adj[p]@[t] < adj.len());
    }
}

/// What a search of a grown layer from earlier points finds are earlier
/// points, and it finds one where it sets out from one.
proof fn lemma_beam_stays_old(
    before: Index,
    l: int,
    points: Seq<Vec<i32>>,
    query: Seq<i32>,
    entries: Seq<usize>,
    beam_width: usize,
    found: Seq<Ranked>,
)
    requires
        before.wf(),
        0 <= l <= MAX_LAYERS,
        beam_width >= 1,
        entries.len() > 0,
        forall|i: int| 0 <= i < entries.len() ==> (#[trigger] entries[i]) < before.len(),
        is_beam(points, grown(before.layer(l)), query, entries, beam_width, found),
    ensures
        found.len() > 0,
        forall|i: int| 0 <= i < found.len() ==> (#[trigger] found[i]).0 < before.len(),
{
    lemma_layer_in_range(before, l);
    assert(accounted(found, beam_width, rank_of(points, query, entries[0])));
    assert forall|i: int| 0 <= i < found.len() implies (#[trigger] found[i]).0 < before.len() by {
        lemma_reach_stays_old(before.layer(l), entries, found[i].0);
    }
}

/// A walk down through grown layers that starts at an earlier point ends
/// at one.
proof fn lemma_descent_stays_old(
    after: Index,
    before: Index,
    query: Seq<i32>,
    start: usize,
    from: int,
    to: int,
    entry: usize,
)
    requires
        before.wf(),
        0 <= to,
        from <= MAX_LAYERS,
        start < before.len(),
        after.is_descent(query, start, from, to, entry),
        forall|l: int| to < l <= from ==> #[trigger] after.layer(l) == grown(before.layer(l)),
    ensures
        entry < before.len(),
    decreases from - to,
{
    if from > to {
        let mid = choose|mid: usize| #[trigger]
            after.is_step(query, from, start, mid) && after.is_descent(
                query,
                mid,
                from - 1,
                to,
                entry,
            );
        let beam = choose|beam: Seq<Ranked>| #[trigger]
            is_beam(after.points@, after.layer(from), query, seq![start], 1, beam) && beam.len() > 0
                && mid == beam[0].0;
        assert(after.layer(from) == grown(before.layer(from)));
        assert(seq![start][0] == start);
        lemma_beam_stays_old(before, from, after.points@, query, seq![start], 1, beam);
        lemma_descent_stays_old(after, before, query, mid, from - 1, to, entry);
    }
}

/// Each layer of an insertion hands earlier points down to the layer
/// below, and at least one.
proof fn lemma_built_stays_old(
    after: Index,
    before: Index,
    id: usize,
    max_neighbors: usize,
    first: Seq<usize>,
    top: int,
    k: int,
    next: Seq<usize>,
)
    requires
        before.wf(),
        0 <= k,
        top <= MAX_LAYERS,
        max_neighbors >= 1,
        first.len() > 0,
        forall|i: int| 0 <= i < first.len() ==> (#[trigger] first[i]) < before.len(),
        after.built(before, id, max_neighbors, first, top, k, next),
    ensures
        next.len() > 0,
        forall|i: int| 0 <= i < next.len() ==> (#[trigger] next[i]) < before.len(),
    decreases top - k,
{
    let entries = choose|entries: Seq<usize>| #[trigger]
        linked(
            after.points@,
            grown(before.layer(k)),
            id,
            entries,
            max_neighbors,
            after.layer(k),
            next,
        ) && (if k == top {
            entries == first
        } else {
            after.built(before, id, max_neighbors, first, top, k + 1, entries)
        });
    if k != top {
        lemma_built_stays_old(after, before, id, max_neighbors, first, top, k + 1, entries);
    }
    let query = after.points@[id as int]@;
    let found = choose|found: Seq<Ranked>| #[trigger]
        is_beam(after.points@, grown(before.layer(k)), query, entries, max_neighbors, found) && next
            == ids_seq(found) && after.layer(k) == connected(
            after.points@,
            grown(before.layer(k)),
            id,
            selection_of(after.points@, query, next, max_neighbors),
            max_neighbors,
        );
    lemma_beam_stays_old(before, k, after.points@, query, entries, max_neighbors, found);
    assert forall|i: int| 0 <= i < next.len() implies (#[trigger] next[i]) < before.len() by {
        assert(next[i] == found[i].0);
    }
}

/// The search of layer 0 that an insertion into a non-empty index makes:
/// it sets out from earlier points, at least one, and the layer ends up
/// with the new point connected to the selection from what it finds.
#[verifier::rlimit(40)]
proof fn lemma_search_of_layer_zero(
    before: Index,
    after: Index,
    max_neighbors: usize,
    level: usize,
) -> (r: (Seq<usize>, Seq<Ranked>))
    requires
        before.wf(),
        before.len() >= 1,
        max_neighbors >= 1,
        after.inserted(before, max_neighbors, level),
    ensures
        r.0.len() > 0,
        forall|i: int| 0 <= i < r.0.len() ==> (#[trigger] r.0[i]) < before.len(),
        is_beam(
            after.points@,
            grown(before.layer(0)),
            after.points@[before.len() as int]@,
            r.0,
            max_neighbors,
            r.1,
        ),
        after.layer(0) == connected(
            after.points@,
            grown(before.layer(0)),
            before.len() as usize,
            selection_of(
                after.points@,
                after.points@[before.len() as int]@,
                ids_seq(r.1),
                max_neighbors,
            ),
            max_neighbors,
        ),
{
    let id = before.len() as usize;
    let pts = after.points@;
    let query = pts[id as int]@;
    let wide = grown(before.layer(0));
    let base = before.base_for(level) as int;
    let (entry, last) = choose|entry: usize, last: Seq<usize>|
        #![trigger after.is_descent(after.points@[id as int]@, before.start_for(), before.top_layer as int, base, entry), after.built(before, id, max_neighbors, seq![entry], base, 0, last)]
        after.is_descent(
            after.points@[id as int]@,
            before.start_for(),
            before.top_layer as int,
            base,
            entry,
        ) && after.built(before, id, max_neighbors, seq![entry], base, 0, last);
    lemma_descent_stays_old(
        after,
        before,
        query,
        before.start_for(),
        before.top_layer as int,
        base,
        entry,
    );
    assert(seq![entry][0] == entry);
    let entries = choose|entries: Seq<usize>| #[trigger]
        linked(pts, wide, id, entries, max_neighbors, after.layer(0), last) && (if 0 == base {
            entries == seq![entry]
        } else {
            after.built(before, id, max_neighbors, seq![entry], base, 1, entries)
        });
    if 0 != base {
        lemma_built_stays_old(after, before, id, max_neighbors, seq![entry], base, 1, entries);
    }
    let found = choose|found: Seq<Ranked>| #[trigger]
        is_beam(pts, wide, query, entries, max_neighbors, found) && last == ids_seq(found)
            && after.layer(0) == connected(
            pts,
            wide,
            id,
            selection_of(pts, query, last, max_neighbors),
            max_neighbors,
        );
    (entries, found)
}

/// Where there is room for more neighbours than there are earlier points,
/// joining a new point to some of them prunes nothing.
proof fn lemma_room_for_all(
    before: Index,
    points: Seq<Vec<i32>>,
    chosen: Seq<usize>,
    max_neighbors: usize,
)
    requires
        before.wf(),
        max_neighbors > before.len(),
        chosen.len() <= max_neighbors,
        forall|i: int| 0 <= i < chosen.len() ==> (#[trigger] chosen[i]) <= before.len(),
    ensures
        connected(
            points,
            grown(before.layer(0)),
            before.len() as usize,
            chosen,
            max_neighbors,
        ) == joined_lists(grown(before.layer(0)), before.len() as usize, chosen),
{
    let id = before.len() as usize;
    let n = before.len();
    let wide = grown(before.layer(0));
    let joined = joined_lists(wide, id, chosen);
    assert(layer_wf(before.layers@[0]@));
    assert forall|i: int| 0 <= i < chosen.len() implies joined[(#[trigger] chosen[i]) as int].len()
        <= max_neighbors by {
        let c = chosen[i];
        assert(chosen.contains(c));
        if c == id {
            lemma_without_keeps(chosen, id, c);
        } else {
            assert(wide[c as int] == before.layer(0)[c as int]);
            assert(before.layer(0)[c as int] == before.layers@[0]@[c as int]@);
            lemma_short_list(before.layers@[0]@[c as int]@, n);
        }
    }
    lemma_no_trim(points, joined, chosen, max_neighbors);
}

/// A point inserted into a non-empty index is searched for from the
/// entry point of that index, whatever layer it is drawn on, also one
/// above the top layer. Where layer 0 is connected and there is room for
/// more neighbours than there are points, the new point is joined on
/// layer 0 to every earlier point.
#[verifier::rlimit(40)]
pub proof fn law_new_point_joins_all(
    before: Index,
    after: Index,
    max_neighbors: usize,
    level: usize,
    p: usize,
)
    requires
        before.wf(),
        before.len() >= 1,
        after.inserted(before, max_neighbors, level),
        after.points@.len() == before.len() + 1,
        max_neighbors > before.len(),
        forall|a: usize, b: usize|
            a < before.len() && b < before.len() ==> #[trigger] reachable(
                before.layer(0),
                seq![a],
                b,
            ),
        p < before.len(),
    ensures
        after.layer(0)[before.len() as int].contains(p),
        after.layer(0)[p as int].contains(before.len() as usize),
{
    let id = before.len() as usize;
    let pts = after.points@;
    let query = pts[id as int]@;
    let wide = grown(before.layer(0));
    let (entries, found) = lemma_search_of_layer_zero(before, after, max_neighbors, level);
    let chosen = ids_seq(found);
    lemma_beam_selects_itself(pts, query, found, max_neighbors);
    assert forall|i: int| 0 <= i < chosen.len() implies (#[trigger] chosen[i]) <= before.len() by {
        assert(chosen[i] == found[i].0);
    }
    lemma_room_for_all(before, pts, chosen, max_neighbors);
    let joined = joined_lists(wide, id, chosen);
    assert(after.layer(0) == joined);
    let from = entries[0];
    assert(reachable(before.layer(0), seq![from], p));
    lemma_reach_in_grown(before.layer(0), seq![from], p);
    assert(seq![from][0] == from);
    lemma_reach_from_more(wide, seq![from], entries, p);
    lemma_found_gives_id(pts, wide, query, entries, max_neighbors, found, p);
    lemma_without_keeps(chosen, id, p);
    assert(joined[id as int] == without(chosen, id));
    assert(joined[p as int] == wide[p as int].push(id));
    assert(wide[p as int].push(id)[wide[p as int].len() as int] == id);
}

/// A full beam names every point that can be reached.
proof fn lemma_found_gives_id(
    points: Seq<Vec<i32>>,
    adj: Seq<Seq<usize>>,
    query: Seq<i32>,
    entry_points: Seq<usize>,
    beam_width: usize,
    found: Seq<Ranked>,
    p: usize,
)
    requires
        is_beam(points, adj, query, entry_points, beam_width, found),
        adj.len() == points.len(),
        beam_width >= points.len(),
        reachable(adj, entry_points, p),
    ensures
        ids_seq(found).contains(p),
{
    law_full_beam_finds_the_reachable(points, adj, query, entry_points, beam_width, found, p);
    let w = choose|w: int| 0 <= w < found.len() && found[w] == rank_of(points, query, p);
    assert(ids_seq(found)[w] == p);
}

/// Where lists only grow, what could be reached can still be reached.
pub proof fn lemma_reach_survives(
    old_layer: Seq<Seq<usize>>,
    new_layer: Seq<Seq<usize>>,
    sources: Seq<usize>,
    target: usize,
)
    requires
        reachable(old_layer, sources, target),
        old_layer.len() <= new_layer.len(),
        forall|x: int, y: usize|
            0 <= x < old_layer.len() && #[trigger] old_layer[x].contains(y) ==> new_layer[x].contains(y),
    ensures
        reachable(new_layer, sources, target),
{
    let path = choose|path: Seq<usize>| #[trigger]
        is_path(old_layer, path) && sources.contains(path[0]) && path.last() == target;
    assert forall|i: int| 0 < i < path.len() implies new_layer[path[i - 1] as int].contains(
        #[trigger] path[i],
    ) by {
        assert(path[i - 1] < old_layer.len());
        assert(old_layer[path[i - 1] as int].contains(path[i]));
    }
    assert forall|i: int| 0 <= i < path.len() implies (#[trigger] path[i]) < new_layer.len() by {
        assert(path[i] < old_layer.len());
    }
    assert(is_path(new_layer, path));
}

/// An insertion with room for more neighbours than there are points
/// keeps a connected layer 0 connected: every point, the new one too, can
/// be reached from every other. With `law_full_beam_query_is_exact`, a
/// query with a full beam on an index that was built so is exact.
#[verifier::rlimit(40)]
pub proof fn law_layer_zero_stays_connected(
    before: Index,
    after: Index,
    max_neighbors: usize,
    level: usize,
    a: usize,
    b: usize,
)
    requires
        before.wf(),
        before.len() >= 1,
        after.inserted(before, max_neighbors, level),
        after.points@.len() == before.len() + 1,
        max_neighbors > before.len(),
        forall|a: usize, b: usize|
            a < before.len() && b < before.len() ==> #[trigger] reachable(
                before.layer(0),
                seq![a],
                b,
            ),
        a <= before.len(),
        b <= before.len(),
    ensures
        reachable(after.layer(0), seq![a], b),
{
    let id = before.len() as usize;
    let n = before.len();
    let now = after.layer(0);
    let (entries, found) = lemma_search_of_layer_zero(before, after, max_neighbors, level);
    let chosen = ids_seq(found);
    lemma_beam_selects_itself(after.points@, after.points@[id as int]@, found, max_neighbors);
    assert forall|i: int| 0 <= i < chosen.len() implies (#[trigger] chosen[i]) <= before.len() by {
        assert(chosen[i] == found[i].0);
    }
    lemma_room_for_all(before, after.points@, chosen, max_neighbors);
    assert(now == joined_lists(grown(before.layer(0)), id, chosen));
    assert(now.len() == n + 1);
    assert(seq![a][0] == a);
    assert(seq![a].contains(a));
    lemma_reach_source(now, seq![a], a);
    if a == b {
    } else if b == id {
        law_new_point_joins_all(before, after, max_neighbors, level, a);
        lemma_reach_step(now, seq![a], a, b);
    } else if a == id {
        law_new_point_joins_all(before, after, max_neighbors, level, b);
        lemma_reach_step(now, seq![a], a, b);
    } else {
        assert forall|x: int, y: usize|
            0 <= x < before.layer(0).len() && #[trigger] before.layer(0)[x].contains(y) implies now[x].contains(
            y,
        ) by {
            assert(grown(before.layer(0))[x] == before.layer(0)[x]);
            if chosen.contains(x as usize) {
                let k = choose|k: int| 0 <= k < before.layer(0)[x].len() && before.layer(0)[x][k] == y;
                assert(before.layer(0)[x].push(id)[k] == y);
            }
        }
        lemma_reach_survives(before.layer(0), now, seq![a], b);
    }
}

/// What can be reached from some sources can be reached from more.
pub proof fn lemma_reach_from_more(
    adj: Seq<Seq<usize>>,
    few: Seq<usize>,
    many: Seq<usize>,
    target: usize,
)
    requires
        reachable(adj, few, target),
        forall|i: int| 0 <= i < few.len() ==> many.contains(#[trigger] few[i]),
    ensures
        reachable(adj, many, target),
{
    let path = choose|path: Seq<usize>| #[trigger]
        is_path(adj, path) && few.contains(path[0]) && path.last() == target;
    let e = choose|e: int| 0 <= e < few.len() && few[e] == path[0];
    assert(many.contains(few[e]));
}

} // verus!
