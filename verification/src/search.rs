//! Greedy search of one layer of the graph with a bounded beam.

use vstd::prelude::*;
use crate::distance::{dist_sq_spec, sum_sq_diff};
use crate::ranked::{
    ascending, key_lt, lemma_insert_contains, lemma_remove_first_contains,
    non_descending, offered, queued, BestList, Ranked, SimpleQueue,
};

verus! {

/// Every point has `dim` coordinates.
pub open spec fn uniform(points: Seq<Vec<i32>>, dim: nat) -> bool {
    forall|i: int| 0 <= i < points.len() ==> (#[trigger] points[i])@.len() == dim
}

/// One neighbour list for each of `n` points, holding ids below `n` only.
pub open spec fn layer_ok(adj: Seq<Vec<usize>>, n: nat) -> bool {
    &&& adj.len() == n
    &&& forall|p: int, t: int|
        0 <= p < n && 0 <= t < adj[p]@.len() ==> (#[trigger] adj[p]@[t]) < n
}

/// The neighbour lists of a layer as plain sequences.
pub open spec fn lists(adj: Seq<Vec<usize>>) -> Seq<Seq<usize>> {
    Seq::new(adj.len(), |p: int| adj[p]@)
}

/// The point `id` with its distance to `query`.
pub open spec fn rank_of(points: Seq<Vec<i32>>, query: Seq<i32>, id: usize) -> Ranked {
    (id, dist_sq_spec(query, points[id as int]@) as u128)
}

/// `path` walks along edges of the layer.
pub open spec fn is_path(adj: Seq<Seq<usize>>, path: Seq<usize>) -> bool {
    &&& path.len() >= 1
    &&& forall|i: int| 0 <= i < path.len() ==> (#[trigger] path[i]) < adj.len()
    &&& forall|i: int| 0 < i < path.len() ==> adj[path[i - 1] as int].contains(#[trigger] path[i])
}

/// Some walk along edges of the layer leads from one of `sources` to `target`.
pub open spec fn reachable(adj: Seq<Seq<usize>>, sources: Seq<usize>, target: usize) -> bool {
    exists|path: Seq<usize>| #[trigger]
        is_path(adj, path) && sources.contains(path[0]) && path.last() == target
}

/// `found` keeps `y`, or is a full beam whose worst entry ranks before `y`.
pub open spec fn accounted(found: Seq<Ranked>, beam_width: usize, y: Ranked) -> bool {
    found.contains(y) || (found.len() == beam_width && key_lt(found.last(), y))
}

/// What a search has seen, queued and kept.
pub struct Frontier {
    pub visited: Seq<bool>,
    pub queue: Seq<Ranked>,
    pub best: Seq<Ranked>,
}

/// The frontier once the point `id` has been looked at: a point that was
/// not seen before is marked, queued and offered to the kept entries.
pub open spec fn seen_one(
    f: Frontier,
    points: Seq<Vec<i32>>,
    query: Seq<i32>,
    beam_width: usize,
    id: usize,
) -> Frontier {
    if f.visited[id as int] {
        f
    } else {
        Frontier {
            visited: f.visited.update(id as int, true),
            queue: queued(f.queue, rank_of(points, query, id)),
            best: offered(f.best, rank_of(points, query, id), beam_width),
        }
    }
}

/// The frontier once the points `ids` have been looked at, in their order.
pub open spec fn seen_all(
    f: Frontier,
    points: Seq<Vec<i32>>,
    query: Seq<i32>,
    beam_width: usize,
    ids: Seq<usize>,
) -> Frontier
    decreases ids.len(),
{
    if ids.len() == 0 {
        f
    } else {
        seen_one(
            seen_all(f, points, query, beam_width, ids.drop_last()),
            points,
            query,
            beam_width,
            ids.last(),
        )
    }
}

/// Whether a search that has taken `c` from the queue is over: the beam
/// is full and `c` lies farther from the query than its worst entry.
pub open spec fn converged(f: Frontier, beam_width: usize, c: Ranked) -> bool {
    f.best.len() >= beam_width && f.best.last().1 < c.1
}

/// One step of the search: the best queued point leaves the queue and,
/// unless the search has converged, its neighbours are looked at. The
/// flag tells whether the search is over.
pub open spec fn step(
    f: Frontier,
    points: Seq<Vec<i32>>,
    adj: Seq<Seq<usize>>,
    query: Seq<i32>,
    beam_width: usize,
) -> (Frontier, bool) {
    if f.queue.len() == 0 {
        (f, true)
    } else {
        let c = f.queue[0];
        let taken = Frontier { visited: f.visited, queue: f.queue.remove(0), best: f.best };
        if converged(taken, beam_width, c) {
            (taken, true)
        } else {
            (seen_all(taken, points, query, beam_width, adj[c.0 as int]), false)
        }
    }
}

/// The frontier after at most `fuel` steps.
pub open spec fn run(
    f: Frontier,
    points: Seq<Vec<i32>>,
    adj: Seq<Seq<usize>>,
    query: Seq<i32>,
    beam_width: usize,
    fuel: nat,
) -> Frontier
    decreases fuel,
{
    if fuel == 0 {
        f
    } else {
        let (g, done) = step(f, points, adj, query, beam_width);
        if done {
            g
        } else {
            run(g, points, adj, query, beam_width, (fuel - 1) as nat)
        }
    }
}

/// The frontier that a search sets out with: the entry points looked at.
pub open spec fn seeded(
    points: Seq<Vec<i32>>,
    query: Seq<i32>,
    entry_points: Seq<usize>,
    beam_width: usize,
) -> Frontier {
    seen_all(
        Frontier {
            visited: Seq::new(points.len(), |i: int| false),
            queue: Seq::empty(),
            best: Seq::empty(),
        },
        points,
        query,
        beam_width,
        entry_points,
    )
}

/// What the greedy search of a layer keeps. Every step takes a point out
/// of the queue, and a point is queued once, when it is first seen: so
/// the search is over within as many steps as there are queued and
/// unseen points, and one more.
#[verifier::opaque]
pub open spec fn search_result(
    points: Seq<Vec<i32>>,
    adj: Seq<Seq<usize>>,
    query: Seq<i32>,
    entry_points: Seq<usize>,
    beam_width: usize,
) -> Seq<Ranked> {
    let f = seeded(points, query, entry_points, beam_width);
    run(f, points, adj, query, beam_width, unseen(f.visited) + f.queue.len() + 1).best
}

/// `found` is the result of the greedy search of a layer from
/// `entry_points` with the given beam width. It is in ascending rank and
/// within the beam, each entry is a point with its true distance that can
/// be reached from an entry point, and every entry point and every
/// neighbour of an entry of `found` is accounted for.
pub open spec fn is_beam(
    points: Seq<Vec<i32>>,
    adj: Seq<Seq<usize>>,
    query: Seq<i32>,
    entry_points: Seq<usize>,
    beam_width: usize,
    found: Seq<Ranked>,
) -> bool {
    &&& found == search_result(points, adj, query, entry_points, beam_width)
    &&& ascending(found)
    &&& found.len() <= beam_width
    &&& forall|i: int|
        0 <= i < found.len() ==> (#[trigger] found[i]).0 < points.len() && found[i] == rank_of(
            points,
            query,
            found[i].0,
        )
    &&& forall|i: int| 0 <= i < found.len() ==> reachable(adj, entry_points, (#[trigger] found[i]).0)
    &&& forall|i: int|
        0 <= i < entry_points.len() ==> accounted(
            found,
            beam_width,
            rank_of(points, query, #[trigger] entry_points[i]),
        )
    &&& forall|i: int, t: int|
        0 <= i < found.len() && 0 <= t < adj[found[i].0 as int].len() ==> accounted(
            found,
            beam_width,
            rank_of(points, query, #[trigger] adj[found[i].0 as int][t]),
        )
}

/// A source is reachable from the sources.
pub proof fn lemma_reach_source(adj: Seq<Seq<usize>>, sources: Seq<usize>, target: usize)
    requires
        sources.contains(target),
        target < adj.len(),
    ensures
        reachable(adj, sources, target),
{
    let path = seq![target];
    assert(path[0] == target);
    assert(is_path(adj, path));
}

/// A neighbour of a reachable point is reachable.
pub proof fn lemma_reach_step(adj: Seq<Seq<usize>>, sources: Seq<usize>, via: usize, target: usize)
    requires
        reachable(adj, sources, via),
        adj[via as int].contains(target),
        target < adj.len(),
    ensures
        reachable(adj, sources, target),
{
    let p0 = choose|path: Seq<usize>| #[trigger]
        is_path(adj, path) && sources.contains(path[0]) && path.last() == via;
    let path = p0.push(target);
    assert forall|i: int| 0 < i < path.len() implies adj[path[i - 1] as int].contains(
        #[trigger] path[i],
    ) by {
        if i < p0.len() {
            assert(path[i] == p0[i]);
            assert(path[i - 1] == p0[i - 1]);
        }
    }
    assert(path[0] == p0[0]);
    assert(is_path(adj, path));
}

/// How many points a search has not seen yet.
pub open spec fn unseen(visited: Seq<bool>) -> nat
    decreases visited.len(),
{
    if visited.len() == 0 {
        0
    } else {
        unseen(visited.drop_last()) + if visited.last() {
            0nat
        } else {
            1nat
        }
    }
}

/// Marking an unseen point leaves one unseen point fewer.
pub proof fn lemma_mark_seen(visited: Seq<bool>, i: int)
    requires
        0 <= i < visited.len(),
        !visited[i],
    ensures
        unseen(visited.update(i, true)) + 1 == unseen(visited),
    decreases visited.len(),
{
    if i == visited.len() - 1 {
        assert(visited.update(i, true).drop_last() == visited.drop_last());
    } else {
        lemma_mark_seen(visited.drop_last(), i);
        assert(visited.update(i, true).drop_last() == visited.drop_last().update(i, true));
    }
}

/// All neighbours of `v` have been seen.
pub open spec fn expanded(adj: Seq<Vec<usize>>, visited: Seq<bool>, v: int) -> bool {
    forall|t: int| 0 <= t < adj[v]@.len() ==> visited[(#[trigger] adj[v]@[t]) as int]
}

/// The working state of one layer search.
pub struct SearchState {
    pub visited: Vec<bool>,
    pub candidates: SimpleQueue,
    pub results: BestList,
}

impl SearchState {
    /// What the search has seen, queued and kept.
    pub open spec fn view(&self) -> Frontier {
        Frontier { visited: self.visited@, queue: self.candidates@, best: self.results@ }
    }

    /// The state is consistent with the layer it searches: whatever is
    /// queued or kept has been seen and carries its true distance, every
    /// seen point is reachable from the entry points, and the kept entries
    /// are the best of the seen points.
    pub open spec fn wf(
        &self,
        points: Seq<Vec<i32>>,
        adj: Seq<Vec<usize>>,
        query: Seq<i32>,
        entry_points: Seq<usize>,
        beam_width: usize,
    ) -> bool {
        &&& self.visited@.len() == points.len()
        &&& self.candidates.wf()
        &&& self.results.wf()
        &&& self.results.cap == beam_width
        &&& forall|y: Ranked| #[trigger]
            self.candidates@.contains(y) ==> y.0 < points.len() && self.visited@[y.0 as int] && y
                == rank_of(points, query, y.0)
        &&& forall|y: Ranked| #[trigger]
            self.results@.contains(y) ==> y.0 < points.len() && self.visited@[y.0 as int] && y
                == rank_of(points, query, y.0)
        &&& forall|v: int|
            0 <= v < points.len() && #[trigger] self.visited@[v] ==> self.results.accounts_for(
                rank_of(points, query, v as usize),
            )
        &&& forall|v: int|
            0 <= v < points.len() && #[trigger] self.visited@[v] ==> reachable(
                lists(adj),
                entry_points,
                v as usize,
            )
    }

    /// Every seen point but `except` has been expanded or waits in the queue.
    pub open spec fn frontier_ok(
        &self,
        points: Seq<Vec<i32>>,
        adj: Seq<Vec<usize>>,
        query: Seq<i32>,
        except: int,
    ) -> bool {
        forall|v: int|
            0 <= v < points.len() && #[trigger] self.visited@[v] && v != except ==> expanded(
                adj,
                self.visited@,
                v,
            ) || self.candidates@.contains(rank_of(points, query, v as usize))
    }

    /// Sees the point `id` for the first time: marks it, queues it and
    /// offers it to the kept entries. A point seen before is left alone.
    fn visit(
        &mut self,
        points: &Vec<Vec<i32>>,
        adj: &Vec<Vec<usize>>,
        query: &Vec<i32>,
        entry_points: &Vec<usize>,
        beam_width: usize,
        id: usize,
        Ghost(except): Ghost<int>,
    )
        requires
            old(self).wf(points@, adj@, query@, entry_points@, beam_width),
            old(self).frontier_ok(points@, adj@, query@, except),
            uniform(points@, query@.len()),
            layer_ok(adj@, points@.len()),
            id < points.len(),
            reachable(lists(adj@), entry_points@, id),
        ensures
            final(self).wf(points@, adj@, query@, entry_points@, beam_width),
            final(self).frontier_ok(points@, adj@, query@, except),
            final(self)@ == seen_one(old(self)@, points@, query@, beam_width, id),
            final(self).visited@ == old(self).visited@.update(id as int, true),
            unseen(final(self).visited@) + final(self).candidates@.len() == unseen(
                old(self).visited@,
            ) + old(self).candidates@.len(),
            forall|y: Ranked| #[trigger]
                old(self).candidates@.contains(y) ==> final(self).candidates@.contains(y),
    {
        proof {
            if self.visited@[id as int] {
                assert(self.visited@.update(id as int, true) =~= self.visited@);
            }
        }
        if !self.visited[id] {
            proof {
                lemma_mark_seen(self.visited@, id as int);
            }
            self.visited[id] = true;
            let d = sum_sq_diff(query, &points[id]);
            let r: Ranked = (id, d);
            assert(r == rank_of(points@, query@, id));
            let pos = self.candidates.add(r);
            proof {
                lemma_insert_contains(old(self).candidates@, pos as int, r);
            }
            self.results.offer(r);
            proof {
                assert forall|v: int|
                    0 <= v < points@.len() && #[trigger] self.visited@[v] && v != except implies expanded(
                    adj@,
                    self.visited@,
                    v,
                ) || self.candidates@.contains(rank_of(points@, query@, v as usize)) by {
                    if v != id {
                        assert(old(self).visited@[v]);
                        if expanded(adj@, old(self).visited@, v) {
                            assert(expanded(adj@, self.visited@, v));
                        }
                    }
                }
                assert forall|v: int|
                    0 <= v < points@.len() && #[trigger] self.visited@[v] implies self.results.accounts_for(
                    rank_of(points@, query@, v as usize),
                ) by {
                    if v != id {
                        let y = rank_of(points@, query@, v as usize);
                        assert(old(self).visited@[v]);
                        assert(old(self).results.accounts_for(y));
                        if old(self).results@.contains(y) {
                        } else {
                            assert(old(self).results.excludes(y));
                        }
                    }
                }
            }
        }
    }

    /// Every kept entry has been expanded.
    pub open spec fn settled(
        &self,
        points: Seq<Vec<i32>>,
        adj: Seq<Vec<usize>>,
        query: Seq<i32>,
    ) -> bool {
        forall|v: int|
            0 <= v < points.len() && #[trigger] self.visited@[v] && self.results@.contains(
                rank_of(points, query, v as usize),
            ) ==> expanded(adj, self.visited@, v)
    }

    /// Sees every neighbour of `hub`.
    fn expand(
        &mut self,
        points: &Vec<Vec<i32>>,
        adj: &Vec<Vec<usize>>,
        query: &Vec<i32>,
        entry_points: &Vec<usize>,
        beam_width: usize,
        hub: usize,
    )
        requires
            old(self).wf(points@, adj@, query@, entry_points@, beam_width),
            old(self).frontier_ok(points@, adj@, query@, hub as int),
            uniform(points@, query@.len()),
            layer_ok(adj@, points@.len()),
            hub < points.len(),
            old(self).visited@[hub as int],
        ensures
            final(self).wf(points@, adj@, query@, entry_points@, beam_width),
            final(self).frontier_ok(points@, adj@, query@, -1),
            final(self)@ == seen_all(old(self)@, points@, query@, beam_width, lists(adj@)[hub as int]),
            forall|v: int|
                0 <= v < points@.len() && old(self).visited@[v] ==> #[trigger] final(self).visited@[v],
            unseen(final(self).visited@) + final(self).candidates@.len() == unseen(
                old(self).visited@,
            ) + old(self).candidates@.len(),
    {
        let mut t: usize = 0;
        let ghost nbrs = lists(adj@)[hub as int];
        assert(nbrs == adj@[hub as int]@);
        assert(nbrs.take(0).len() == 0);
        while t < adj[hub].len()
            invariant
                hub < points@.len(),
                t <= adj@[hub as int]@.len(),
                uniform(points@, query@.len()),
                layer_ok(adj@, points@.len()),
                self.wf(points@, adj@, query@, entry_points@, beam_width),
                self.frontier_ok(points@, adj@, query@, hub as int),
                self.visited@[hub as int],
                forall|v: int|
                    0 <= v < points@.len() && old(self).visited@[v] ==> #[trigger] self.visited@[v],
                forall|j: int| 0 <= j < t ==> self.visited@[(#[trigger] adj@[hub as int]@[j]) as int],
                unseen(self.visited@) + self.candidates@.len() == unseen(old(self).visited@) + old(
                    self,
                ).candidates@.len(),
                nbrs == adj@[hub as int]@,
                self@ == seen_all(old(self)@, points@, query@, beam_width, nbrs.take(t as int)),
            decreases adj@[hub as int]@.len() - t,
        {
            let nb = adj[hub][t];
            proof {
                assert(nbrs.take(t + 1).drop_last() == nbrs.take(t as int));
                assert(nbrs.take(t + 1).last() == nb);
                assert(adj@[hub as int]@[t as int] == nb);
                assert(adj@[hub as int]@.contains(nb));
                assert(lists(adj@)[hub as int] == adj@[hub as int]@);
                lemma_reach_step(lists(adj@), entry_points@, hub, nb);
            }
            self.visit(points, adj, query, entry_points, beam_width, nb, Ghost(hub as int));
            t = t + 1;
        }
        proof {
            assert(expanded(adj@, self.visited@, hub as int));
            assert(nbrs.take(nbrs.len() as int) == nbrs);
        }
    }

    /// Takes the best queued point and, unless the search has converged,
    /// expands it. Returns whether the search is over: the queue is empty,
    /// or the beam is full and the best queued point lies farther from the
    /// query than its worst entry.
    fn advance(
        &mut self,
        points: &Vec<Vec<i32>>,
        adj: &Vec<Vec<usize>>,
        query: &Vec<i32>,
        entry_points: &Vec<usize>,
        beam_width: usize,
    ) -> (done: bool)
        requires
            old(self).wf(points@, adj@, query@, entry_points@, beam_width),
            old(self).frontier_ok(points@, adj@, query@, -1),
            uniform(points@, query@.len()),
            layer_ok(adj@, points@.len()),
        ensures
            final(self).wf(points@, adj@, query@, entry_points@, beam_width),
            (final(self)@, done) == step(old(self)@, points@, lists(adj@), query@, beam_width),
            forall|v: int|
                0 <= v < points@.len() && old(self).visited@[v] ==> #[trigger] final(self).visited@[v],
            !done ==> final(self).frontier_ok(points@, adj@, query@, -1),
            !done ==> unseen(final(self).visited@) + final(self).candidates@.len() < unseen(
                old(self).visited@,
            ) + old(self).candidates@.len(),
            done ==> final(self).settled(points@, adj@, query@),
            done ==> unseen(final(self).visited@) + final(self).candidates@.len() <= unseen(
                old(self).visited@,
            ) + old(self).candidates@.len(),
    {
        let ghost queued = self.candidates@;
        proof {
            if queued.len() > 0 {
                lemma_remove_first_contains(queued);
            }
        }
        match self.candidates.pop() {
            None => {
                proof {
                    assert forall|v: int|
                        0 <= v < points@.len() && #[trigger] self.visited@[v] implies expanded(
                        adj@,
                        self.visited@,
                        v,
                    ) by {
                        assert(!queued.contains(rank_of(points@, query@, v as usize)));
                    }
                }
                true
            },
            Some(c) => {
                assert(queued.contains(c));
                let kept = self.results.items.len();
                let over = match self.results.worst() {
                    Some(w) => kept >= beam_width && w.1 < c.1,
                    None => false,
                };
                if over {
                    proof {
                        let worst = self.results@[kept - 1];
                        assert forall|v: int|
                            0 <= v < points@.len() && #[trigger] self.visited@[v]
                                && self.results@.contains(
                                rank_of(points@, query@, v as usize),
                            ) implies expanded(adj@, self.visited@, v) by {
                            let y = rank_of(points@, query@, v as usize);
                            let k = choose|k: int| 0 <= k < self.results@.len() && self.results@[k] == y;
                            assert(k == kept - 1 || key_lt(self.results@[k], worst));
                            if queued.contains(y) {
                                let q = choose|q: int| 0 <= q < queued.len() && queued[q] == y;
                                assert(q == 0 || !key_lt(queued[q], queued[0]));
                                assert(false);
                            }
                        }
                    }
                    true
                } else {
                    let hub = c.0;
                    proof {
                        assert forall|v: int|
                            0 <= v < points@.len() && #[trigger] self.visited@[v] && v != hub implies expanded(
                            adj@,
                            self.visited@,
                            v,
                        ) || self.candidates@.contains(rank_of(points@, query@, v as usize)) by {
                            assert(points@.len() == points.len());
                            let y = rank_of(points@, query@, v as usize);
                            if queued.contains(y) {
                                assert(y != queued[0]);
                            }
                        }
                        assert(non_descending(self.candidates@)) by {
                            assert forall|i: int, j: int|
                                0 <= i < j < self.candidates@.len() implies !key_lt(
                                #[trigger] self.candidates@[j],
                                #[trigger] self.candidates@[i],
                            ) by {
                                assert(self.candidates@[i] == queued[i + 1]);
                                assert(self.candidates@[j] == queued[j + 1]);
                            }
                        }
                    }
                    self.expand(points, adj, query, entry_points, beam_width, hub);
                    false
                }
            },
        }
    }
}

/// Searches one layer greedily from `entry_points` for the points closest
/// to `query`, keeping at most `beam_width` of them.
///
/// The points come back in ascending rank (distance, then id), each with
/// its distance. Each is reachable from an entry point along edges of the
/// layer. The result is a fixed point of the greedy search: every entry
/// point, and every neighbour of a returned point, is itself returned or
/// ranks behind the worst entry of a full beam.
#[verifier::rlimit(40)]
pub fn search_layer(
    points: &Vec<Vec<i32>>,
    adj: &Vec<Vec<usize>>,
    query: &Vec<i32>,
    entry_points: &Vec<usize>,
    beam_width: usize,
) -> (found: Vec<Ranked>)
    requires
        uniform(points@, query@.len()),
        layer_ok(adj@, points@.len()),
        forall|i: int| 0 <= i < entry_points@.len() ==> (#[trigger] entry_points@[i]) < points@.len(),
        beam_width >= 1,
    ensures
        is_beam(points@, lists(adj@), query@, entry_points@, beam_width, found@),
{
    let n = points.len();
    let visited: Vec<bool> = vec![false; n];
    let mut state = SearchState {
        visited,
        candidates: SimpleQueue::new(),
        results: BestList::new(beam_width),
    };
    let ghost blank = state@;
    proof {
        assert(blank.visited =~= Seq::new(points@.len(), |i: int| false));
        assert(entry_points@.take(0).len() == 0);
    }
    let mut i: usize = 0;
    while i < entry_points.len()
        invariant
            i <= entry_points.len(),
            state@ == seen_all(blank, points@, query@, beam_width, entry_points@.take(i as int)),
            uniform(points@, query@.len()),
            layer_ok(adj@, points@.len()),
            forall|j: int|
                0 <= j < entry_points@.len() ==> (#[trigger] entry_points@[j]) < points@.len(),
            state.wf(points@, adj@, query@, entry_points@, beam_width),
            state.frontier_ok(points@, adj@, query@, -1),
            forall|j: int| 0 <= j < i ==> state.visited@[(#[trigger] entry_points@[j]) as int],
        decreases entry_points.len() - i,
    {
        let e = entry_points[i];
        proof {
            assert(entry_points@.take(i + 1).drop_last() == entry_points@.take(i as int));
            assert(entry_points@.take(i + 1).last() == e);
            assert(entry_points@.contains(e));
            lemma_reach_source(lists(adj@), entry_points@, e);
        }
        state.visit(points, adj, query, entry_points, beam_width, e, Ghost(-1));
        i = i + 1;
    }
    proof {
        assert(entry_points@.take(entry_points@.len() as int) == entry_points@);
        assert(state@ == seeded(points@, query@, entry_points@, beam_width));
    }
    let ghost mut fuel: nat = unseen(state.visited@) + state.candidates@.len() + 1;
    let ghost goal = run(state@, points@, lists(adj@), query@, beam_width, fuel);
    let mut done = false;
    while !done
        invariant
            !done ==> fuel > unseen(state.visited@) + state.candidates@.len(),
            !done ==> goal == run(state@, points@, lists(adj@), query@, beam_width, fuel),
            done ==> goal == state@,
            uniform(points@, query@.len()),
            layer_ok(adj@, points@.len()),
            state.wf(points@, adj@, query@, entry_points@, beam_width),
            forall|j: int|
                0 <= j < entry_points@.len() ==> (#[trigger] entry_points@[j]) < points@.len(),
            forall|j: int|
                0 <= j < entry_points@.len() ==> state.visited@[(#[trigger] entry_points@[j]) as int],
            !done ==> state.frontier_ok(points@, adj@, query@, -1),
            done ==> state.settled(points@, adj@, query@),
        decreases
            unseen(state.visited@) + state.candidates@.len() + if done {
                0nat
            } else {
                1nat
            },
    {
        done = state.advance(points, adj, query, entry_points, beam_width);
        proof {
            fuel = (fuel - 1) as nat;
        }
    }
    let ghost seen = state.visited@;
    let ghost last = state;
    let found = state.results.items;
    proof {
        assert(found@ == last.results@);
        reveal(search_result);
        assert(found@ == search_result(points@, lists(adj@), query@, entry_points@, beam_width));
        assert(last.wf(points@, adj@, query@, entry_points@, beam_width));
        assert forall|i: int| 0 <= i < found@.len() implies (#[trigger] found@[i]).0 < points@.len()
            && found@[i] == rank_of(points@, query@, found@[i].0) && reachable(
            lists(adj@),
            entry_points@,
            found@[i].0,
        ) by {
            assert(found@.contains(found@[i]));
        }
        assert forall|i: int| 0 <= i < entry_points@.len() implies accounted(
            found@,
            beam_width,
            rank_of(points@, query@, #[trigger] entry_points@[i]),
        ) by {
            let e = entry_points@[i];
            assert(seen[e as int]);
            assert(last.results.accounts_for(rank_of(points@, query@, e)));
        }
        assert forall|i: int, t: int|
            0 <= i < found@.len() && 0 <= t < lists(adj@)[found@[i].0 as int].len() implies accounted(
            found@,
            beam_width,
            rank_of(points@, query@, #[trigger] lists(adj@)[found@[i].0 as int][t]),
        ) by {
            let v = found@[i].0;
            assert(found@.contains(found@[i]));
            assert(seen[v as int]);
            assert(last.results@.contains(rank_of(points@, query@, v)));
            assert(expanded(adj@, seen, v as int));
            assert(lists(adj@)[v as int] == adj@[v as int]@);
            let nb = adj@[v as int]@[t];
            assert(seen[nb as int]);
            assert(last.results.accounts_for(rank_of(points@, query@, nb)));
        }
    }
    found
}

} // verus!
