//! The index: a store of points and a layered graph over them, with
//! insertion and nearest-neighbour queries.

use vstd::prelude::*;
use crate::error::IndexError;
use crate::graph::{connect, connected, joined, layer_wf};
use crate::ranked::Ranked;
use crate::search::{is_beam, is_path, lists, reachable, search_layer, uniform};
use crate::select::{lemma_selection_ids, select_neighbors, selection_of};

verus! {

/// The highest layer a point can be assigned to.
pub const MAX_LAYERS: usize = 10;

/// An approximate nearest-neighbour index.
///
/// Points are known by their position in `points`. `layers[l][p]` lists the
/// neighbours of point `p` on layer `l`; `assigned[p]` is the highest layer
/// that `p` takes part in. `thresholds` is the table that the layers of
/// new points are drawn from; it stands for the level multiplier.
pub struct Index {
    pub thresholds: Vec<u64>,
    pub points: Vec<Vec<i32>>,
    pub assigned: Vec<usize>,
    pub layers: Vec<Vec<Vec<usize>>>,
    pub top_layer: usize,
    pub entry_point: Option<usize>,
}

/// The ids of ranked points, in their order.
pub open spec fn ids_seq(ranked: Seq<Ranked>) -> Seq<usize> {
    Seq::new(ranked.len(), |i: int| ranked[i].0)
}

/// A layer with one more point, which has no neighbour.
pub open spec fn grown(layer: Seq<Seq<usize>>) -> Seq<Seq<usize>> {
    layer.push(Seq::empty())
}

/// Connecting the point `id` turns the layer `before` into `after` and
/// hands `next` down: a search of `before` from `entries` with a beam of
/// `max_neighbors` finds `next`, and `id` is joined to the selection from
/// `next`, whose points are then pruned.
pub open spec fn linked(
    points: Seq<Vec<i32>>,
    before: Seq<Seq<usize>>,
    id: usize,
    entries: Seq<usize>,
    max_neighbors: usize,
    after: Seq<Seq<usize>>,
    next: Seq<usize>,
) -> bool {
    exists|found: Seq<Ranked>| #[trigger]
        is_beam(points, before, points[id as int]@, entries, max_neighbors, found) && next
            == ids_seq(found) && after == connected(
            points,
            before,
            id,
            selection_of(points, points[id as int]@, next, max_neighbors),
            max_neighbors,
        )
}

/// The ids of ranked points, in their order.
pub fn ids_of(ranked: &Vec<Ranked>) -> (ids: Vec<usize>)
    ensures
        ids@ == ids_seq(ranked@),
{
    let mut ids: Vec<usize> = Vec::new();
    let mut i: usize = 0;
    while i < ranked.len()
        invariant
            i <= ranked@.len(),
            ids@.len() == i,
            forall|j: int| 0 <= j < i ==> (#[trigger] ids@[j]) == ranked@[j].0,
        decreases ranked@.len() - i,
    {
        ids.push(ranked[i].0);
        i = i + 1;
    }
    assert(ids@ =~= ids_seq(ranked@));
    ids
}

/// A layer with one more point, which has no neighbour, is well formed.
pub proof fn lemma_layer_grows(s0: Seq<Vec<usize>>, s1: Seq<Vec<usize>>)
    requires
        layer_wf(s0),
        s1.len() == s0.len() + 1,
        s1.len() <= usize::MAX,
        forall|p: int| 0 <= p < s0.len() ==> #[trigger] s1[p] == s0[p],
        s1[s0.len() as int]@.len() == 0,
    ensures
        layer_wf(s1),
{
    let n = s0.len() as int;
    assert forall|p: int, q: usize|
        0 <= p < s1.len() && q < s1.len() && #[trigger] s1[p]@.contains(q) implies s1[q as int]@.contains(
        p as usize,
    ) by {
        assert(p < n);
        assert(s1[p] == s0[p]);
        let k = choose|k: int| 0 <= k < s0[p]@.len() && s0[p]@[k] == q;
        assert(s0[p]@[k] < n);
        assert(s0[p]@.contains(q));
        assert(s1[q as int] == s0[q as int]);
    }
    assert forall|p: int, t: int| 0 <= p < s1.len() && 0 <= t < s1[p]@.len() implies (
    #[trigger] s1[p]@[t]) < s1.len() by {
        assert(s1[p] == s0[p]);
        assert(s0[p]@[t] < n);
    }
    assert forall|p: int| 0 <= p < s1.len() implies (#[trigger] s1[p])@.no_duplicates() && !s1[p]@.contains(
        p as usize,
    ) by {
        if p < n {
            assert(s1[p] == s0[p]);
        }
    }
}

impl Index {
    /// The number of points.
    pub open spec fn len(&self) -> nat {
        self.points@.len()
    }

    /// The neighbour lists of layer `l`.
    pub open spec fn layer(&self, l: int) -> Seq<Seq<usize>> {
        lists(self.layers@[l]@)
    }

    /// The graph is well formed: one neighbour list per point on each of
    /// the `MAX_LAYERS + 1` layers, every layer symmetric; all points of
    /// one dimension; a point has neighbours only up to its assigned
    /// layer. This much holds while a point is being connected, too.
    pub open spec fn graph_wf(&self) -> bool {
        &&& self.layers@.len() == MAX_LAYERS + 1
        &&& self.assigned@.len() == self.len()
        &&& self.len() <= usize::MAX
        &&& (self.len() > 0 ==> uniform(self.points@, self.points@[0]@.len()))
        &&& forall|l: int|
            0 <= l <= MAX_LAYERS ==> layer_wf((#[trigger] self.layers@[l])@) && self.layers@[l]@.len()
                == self.len()
        &&& forall|l: int, p: int|
            0 <= l <= MAX_LAYERS && 0 <= p < self.len() && (#[trigger] self.layers@[l]@[p])@.len() > 0
                ==> l <= self.assigned@[p]
    }

    /// The invariant of the index: the graph is well formed, no point is
    /// assigned above the top layer, and the entry point, which is missing
    /// only while the index is empty, is assigned to the top layer.
    pub open spec fn wf(&self) -> bool {
        &&& self.graph_wf()
        &&& forall|p: int| 0 <= p < self.len() ==> (#[trigger] self.assigned@[p]) <= self.top_layer
        &&& self.top_layer <= MAX_LAYERS
        &&& match self.entry_point {
            None => self.len() == 0 && self.top_layer == 0,
            Some(e) => e < self.len() && self.assigned@[e as int] == self.top_layer,
        }
    }

    /// No point has more than `max_neighbors` neighbours on any layer.
    pub open spec fn degree_bounded(&self, max_neighbors: usize) -> bool {
        forall|l: int, p: int|
            0 <= l <= MAX_LAYERS && 0 <= p < self.len() ==> (#[trigger] self.layers@[l]@[p])@.len()
                <= max_neighbors
    }

    /// An empty index that draws the layers of its points from `thresholds`.
    pub fn new(thresholds: Vec<u64>) -> (index: Index)
        ensures
            index.wf(),
            index.thresholds == thresholds,
            index.len() == 0,
            index.top_layer == 0,
            index.entry_point.is_none(),
            forall|max_neighbors: usize| #[trigger] index.degree_bounded(max_neighbors),
    {
        let mut layers: Vec<Vec<Vec<usize>>> = Vec::new();
        let mut l: usize = 0;
        while l <= MAX_LAYERS
            invariant
                l <= MAX_LAYERS + 1,
                layers@.len() == l,
                forall|k: int| 0 <= k < l ==> (#[trigger] layers@[k])@.len() == 0,
            decreases MAX_LAYERS + 1 - l,
        {
            layers.push(Vec::new());
            l = l + 1;
        }
        Index {
            thresholds,
            points: Vec::new(),
            assigned: Vec::new(),
            layers,
            top_layer: 0,
            entry_point: None,
        }
    }

    /// The number of points in the index.
    pub fn size(&self) -> (n: usize)
        ensures
            n == self.len(),
    {
        self.points.len()
    }

    /// The dimension of the stored points; `None` while there is none.
    pub fn dimension(&self) -> (dim: Option<usize>)
        ensures
            self.len() == 0 ==> dim.is_none(),
            self.len() > 0 ==> dim == Some(self.points@[0]@.len() as usize),
    {
        if self.points.len() == 0 {
            None
        } else {
            Some(self.points[0].len())
        }
    }

    /// The vector of the point `id`; `None` where there is no such point.
    pub fn point(&self, id: usize) -> (vector: Option<&Vec<i32>>)
        ensures
            id < self.len() ==> vector == Some(&self.points@[id as int]),
            id >= self.len() ==> vector.is_none(),
    {
        if id < self.points.len() {
            Some(&self.points[id])
        } else {
            None
        }
    }

    /// The highest layer that holds a point; 0 while the index is empty.
    pub fn top_layer(&self) -> (top: usize)
        ensures
            top == self.top_layer,
    {
        self.top_layer
    }

    /// The point that searches set out from; `None` while the index is empty.
    pub fn entry_point(&self) -> (entry: Option<usize>)
        ensures
            entry == self.entry_point,
    {
        self.entry_point
    }

    /// The layer that the point `id` is assigned to; `None` where there is
    /// no such point.
    pub fn layer_of(&self, id: usize) -> (level: Option<usize>)
        ensures
            id < self.assigned@.len() ==> level == Some(self.assigned@[id as int]),
            id >= self.assigned@.len() ==> level.is_none(),
    {
        if id < self.assigned.len() {
            Some(self.assigned[id])
        } else {
            None
        }
    }

    /// The neighbours of the point `id` on layer `l`; none where there is
    /// no such point or layer.
    pub fn neighbors(&self, id: usize, l: usize) -> (list: Vec<usize>)
        ensures
            l < self.layers@.len() && id < self.layers@[l as int]@.len() ==> list@ == self.layer(
                l as int,
            )[id as int],
            !(l < self.layers@.len() && id < self.layers@[l as int]@.len()) ==> list@.len() == 0,
    {
        let mut list: Vec<usize> = Vec::new();
        if l < self.layers.len() && id < self.layers[l].len() {
            let mut i: usize = 0;
            while i < self.layers[l][id].len()
                invariant
                    l < self.layers@.len(),
                    id < self.layers@[l as int]@.len(),
                    i <= self.layers@[l as int]@[id as int]@.len(),
                    list@ == self.layers@[l as int]@[id as int]@.take(i as int),
                decreases self.layers@[l as int]@[id as int]@.len() - i,
            {
                list.push(self.layers[l][id][i]);
                proof {
                    let from = self.layers@[l as int]@[id as int]@;
                    assert(from.take(i + 1) == from.take(i as int).push(from[i as int]));
                }
                i = i + 1;
            }
            proof {
                let from = self.layers@[l as int]@[id as int]@;
                assert(from.take(from.len() as int) == from);
            }
        }
        list
    }

    /// Stores `vector` as a new point of layer `level`, without neighbours.
    /// The entry point and the top layer stay as they are.
    fn register(&mut self, vector: Vec<i32>, level: usize) -> (id: usize)
        requires
            old(self).wf(),
            level <= MAX_LAYERS,
            old(self).len() > 0 ==> vector@.len() == old(self).points@[0]@.len(),
        ensures
            final(self).graph_wf(),
            id == old(self).len(),
            final(self).points@ == old(self).points@.push(vector),
            final(self).assigned@ == old(self).assigned@.push(level),
            forall|l: int, p: int|
                0 <= l <= MAX_LAYERS && 0 <= p < old(self).len() ==> #[trigger] final(self).layers@[l]@[p] == old(self).layers@[l]@[p],
            forall|l: int| 0 <= l <= MAX_LAYERS ==> (#[trigger] final(self).layers@[l])@[id as int]@.len() == 0,
            final(self).entry_point == old(self).entry_point,
            final(self).thresholds == old(self).thresholds,
            final(self).top_layer == old(self).top_layer,
    {
        let id = self.points.len();
        let ghost stored = vector;
        self.points.push(vector);
        let grown = self.points.len();
        self.assigned.push(level);
        let mut l: usize = 0;
        while l <= MAX_LAYERS
            invariant
                l <= MAX_LAYERS + 1,
                old(self).wf(),
                id == old(self).len(),
                id + 1 == grown,
                self.points@ == old(self).points@.push(stored),
                self.assigned@ == old(self).assigned@.push(level),
                self.top_layer == old(self).top_layer,
                self.entry_point == old(self).entry_point,
                self.thresholds == old(self).thresholds,
                self.layers@.len() == MAX_LAYERS + 1,
                forall|k: int|
                    0 <= k < l ==> (#[trigger] self.layers@[k])@.len() == id + 1 && self.layers@[k]@[id as int]@.len()
                        == 0,
                forall|k: int, p: int|
                    0 <= k < l && 0 <= p < id ==> #[trigger] self.layers@[k]@[p] == old(self).layers@[k]@[p],
                forall|k: int| l <= k <= MAX_LAYERS ==> #[trigger] self.layers@[k] == old(self).layers@[k],
            decreases MAX_LAYERS + 1 - l,
        {
            self.layers[l].push(Vec::new());
            l = l + 1;
        }
        proof {
            assert forall|l: int| 0 <= l <= MAX_LAYERS implies layer_wf((#[trigger] self.layers@[l])@)
                && self.layers@[l]@.len() == self.len() by {
                assert(layer_wf(old(self).layers@[l]@));
                assert forall|p: int| 0 <= p < id implies #[trigger] self.layers@[l]@[p] == old(self).layers@[l]@[p] by {}
                lemma_layer_grows(old(self).layers@[l]@, self.layers@[l]@);
            }
            assert forall|i: int| 0 <= i < self.points@.len() implies (#[trigger] self.points@[i])@.len()
                == self.points@[0]@.len() by {
                if i < id {
                    assert(self.points@[i] == old(self).points@[i]);
                }
            }
            assert forall|l: int, p: int|
                0 <= l <= MAX_LAYERS && 0 <= p < self.len() && (#[trigger] self.layers@[l]@[p])@.len()
                    > 0 implies l <= self.assigned@[p] by {
                assert(self.layers@[l]@[id as int]@.len() == 0);
                assert(p < id);
                assert(self.layers@[l]@[p] == old(self).layers@[l]@[p]);
                assert(self.assigned@[p] == old(self).assigned@[p]);
            }
        }
        id
    }

    /// A search of layer `layer` with a beam of one that starts at `here`
    /// can end at `there`.
    pub open spec fn is_step(&self, query: Seq<i32>, layer: int, here: usize, there: usize) -> bool {
        exists|beam: Seq<Ranked>| #[trigger]
            is_beam(self.points@, self.layer(layer), query, seq![here], 1, beam) && beam.len() > 0
                && there == beam[0].0
    }

    /// Walking down from layer `from` to layer `to` with a beam of one,
    /// starting at `start`, can end at `entry`: each layer above `to` is
    /// searched from where the search of the layer above ended.
    pub open spec fn is_descent(
        &self,
        query: Seq<i32>,
        start: usize,
        from: int,
        to: int,
        entry: usize,
    ) -> bool
        decreases from - to,
    {
        if from <= to {
            entry == start
        } else {
            exists|mid: usize| #[trigger]
                self.is_step(query, from, start, mid) && self.is_descent(
                    query,
                    mid,
                    from - 1,
                    to,
                    entry,
                )
        }
    }

    /// A walk down from a point of the index ends at a point of the index.
    pub proof fn lemma_descent_in_range(
        &self,
        query: Seq<i32>,
        start: usize,
        from: int,
        to: int,
        entry: usize,
    )
        requires
            start < self.len(),
            self.is_descent(query, start, from, to, entry),
        ensures
            entry < self.len(),
        decreases from - to,
    {
        if from > to {
            let mid = choose|mid: usize| #[trigger]
                self.is_step(query, from, start, mid) && self.is_descent(
                    query,
                    mid,
                    from - 1,
                    to,
                    entry,
                );
            let beam = choose|beam: Seq<Ranked>| #[trigger]
                is_beam(self.points@, self.layer(from), query, seq![start], 1, beam) && beam.len()
                    > 0 && mid == beam[0].0;
            assert(beam[0].0 < self.len());
            self.lemma_descent_in_range(query, mid, from - 1, to, entry);
        }
    }

    /// A point that can be reached on layer `l` from points of that layer
    /// is a point of that layer.
    pub proof fn lemma_on_layer(&self, l: int, sources: Seq<usize>, target: usize)
        requires
            self.graph_wf(),
            0 <= l <= MAX_LAYERS,
            forall|i: int|
                0 <= i < sources.len() ==> (#[trigger] sources[i]) < self.len() && self.assigned@[sources[i] as int]
                    >= l,
            reachable(self.layer(l), sources, target),
        ensures
            target < self.len(),
            self.assigned@[target as int] >= l,
    {
        let adj = self.layers@[l]@;
        assert(layer_wf(adj));
        let path = choose|path: Seq<usize>| #[trigger]
            is_path(lists(adj), path) && sources.contains(path[0]) && path.last() == target;
        let last = path.len() - 1;
        assert(path[last] < adj.len());
        if path.len() == 1 {
            let i = choose|i: int| 0 <= i < sources.len() && sources[i] == path[0];
            assert(sources[i] == target);
        } else {
            let prev = path[last - 1];
            assert(prev < adj.len());
            assert(lists(adj)[prev as int].contains(path[last]));
            assert(adj[prev as int]@.contains(path[last]));
            assert(adj[target as int]@.contains(prev));
            assert(self.layers@[l]@[target as int]@.len() > 0);
        }
    }

    /// Narrows the entry point: searches each layer from `from` down to
    /// the one above `to` with a beam of one, each time starting from the
    /// best point of the layer above, and returns the point to enter
    /// layer `to` at.
    pub fn descend(&self, query: &Vec<i32>, start: usize, from: usize, to: usize) -> (entry: usize)
        requires
            self.graph_wf(),
            start < self.len(),
            from <= MAX_LAYERS,
            to <= from,
            self.assigned@[start as int] >= from,
            query@.len() == self.points@[0]@.len(),
        ensures
            self.is_descent(query@, start, from as int, to as int, entry),
            entry < self.len(),
            self.assigned@[entry as int] >= to,
    {
        let mut cur = start;
        let mut k = from;
        while k > to
            invariant
                self.graph_wf(),
                to <= k <= from,
                from <= MAX_LAYERS,
                cur < self.len(),
                self.assigned@[cur as int] >= k,
                query@.len() == self.points@[0]@.len(),
                forall|e: usize|
                    self.is_descent(query@, cur, k as int, to as int, e) ==> #[trigger] self.is_descent(
                        query@,
                        start,
                        from as int,
                        to as int,
                        e,
                    ),
            decreases k,
        {
            let mut entries: Vec<usize> = Vec::new();
            entries.push(cur);
            assert(entries@ == seq![cur]);
            assert(layer_wf(self.layers@[k as int]@));
            let beam = search_layer(&self.points, &self.layers[k], query, &entries, 1);
            proof {
                assert(entries@[0] == cur);
                assert(beam@.len() > 0);
                self.lemma_on_layer(k as int, entries@, beam@[0].0);
            }
            let ghost mid = cur;
            cur = beam[0].0;
            k = k - 1;
            proof {
                assert(is_beam(self.points@, self.layer(k + 1), query@, seq![mid], 1, beam@));
                assert(self.is_step(query@, k + 1, mid, cur));
                assert forall|e: usize|
                    self.is_descent(query@, cur, k as int, to as int, e) implies #[trigger] self.is_descent(
                    query@,
                    start,
                    from as int,
                    to as int,
                    e,
                ) by {
                    assert(self.is_descent(query@, mid, k + 1, to as int, e));
                }
            }
        }
        cur
    }

    /// Connects the point `id` on layer `k`: searches the layer from
    /// `entries` with a beam of `max_neighbors`, joins `id` to the closest
    /// of what was found and prunes the points that now have too many
    /// neighbours. Returns what the search found, as the entry points of
    /// the layer below.
    #[verifier::rlimit(40)]
    fn link_layer(&mut self, id: usize, k: usize, entries: &Vec<usize>, max_neighbors: usize) -> (next:
        Vec<usize>)
        requires
            old(self).graph_wf(),
            max_neighbors >= 1,
            id < old(self).len(),
            k <= MAX_LAYERS,
            k <= old(self).assigned@[id as int],
            old(self).layers@[k as int]@[id as int]@.len() == 0,
            forall|i: int|
                0 <= i < entries@.len() ==> (#[trigger] entries@[i]) < old(self).len() && old(
                    self,
                ).assigned@[entries@[i] as int] >= k,
        ensures
            final(self).graph_wf(),
            final(self).points == old(self).points,
            final(self).assigned == old(self).assigned,
            final(self).top_layer == old(self).top_layer,
            final(self).entry_point == old(self).entry_point,
            final(self).thresholds == old(self).thresholds,
            forall|l: int|
                0 <= l <= MAX_LAYERS && l != k ==> #[trigger] final(self).layers@[l] == old(self).layers@[l],
            forall|p: int|
                0 <= p < old(self).len() ==> (#[trigger] final(self).layers@[k as int]@[p])@.len()
                    <= max_neighbors || final(self).layers@[k as int]@[p]@.len() <= old(
                    self,
                ).layers@[k as int]@[p]@.len(),
            forall|p: int, q: usize|
                0 <= p < old(self).len() && #[trigger] final(self).layers@[k as int]@[p]@.contains(q)
                    ==> old(self).layers@[k as int]@[p]@.contains(q) || p == id || q == id,
            forall|i: int|
                0 <= i < next@.len() ==> (#[trigger] next@[i]) < old(self).len() && old(
                    self,
                ).assigned@[next@[i] as int] >= k,
            linked(
                old(self).points@,
                old(self).layer(k as int),
                id,
                entries@,
                max_neighbors,
                final(self).layer(k as int),
                next@,
            ),
    {
        assert(layer_wf(self.layers@[k as int]@));
        assert(self.points@[id as int]@.len() == self.points@[0]@.len());
        let found = search_layer(&self.points, &self.layers[k], &self.points[id], entries, max_neighbors);
        let next = ids_of(&found);
        proof {
            assert forall|i: int| 0 <= i < next@.len() implies (#[trigger] next@[i]) < self.len()
                && self.assigned@[next@[i] as int] >= k by {
                assert(next@[i] == found@[i].0);
                self.lemma_on_layer(k as int, entries@, found@[i].0);
            }
        }
        let chosen = select_neighbors(&self.points, &self.points[id], &next, max_neighbors);
        proof {
            lemma_selection_ids(
                self.points@,
                self.points@[id as int]@,
                chosen@,
                next@,
                max_neighbors,
            );
            assert forall|i: int| 0 <= i < chosen@.len() implies (#[trigger] chosen@[i]) < self.len()
                && self.assigned@[chosen@[i] as int] >= k by {
                let c = chosen@[i];
                assert(next@.contains(c));
                let w = choose|w: int| 0 <= w < next@.len() && next@[w] == c;
                assert(next@[w] < self.len());
            }
        }
        connect(&mut self.layers[k], &self.points, id, &chosen, max_neighbors);
        proof {
            assert(is_beam(
                self.points@,
                old(self).layer(k as int),
                self.points@[id as int]@,
                entries@,
                max_neighbors,
                found@,
            ));
            let before = old(self).layers@[k as int]@;
            let after = self.layers@[k as int]@;
            assert forall|l: int| 0 <= l <= MAX_LAYERS implies layer_wf((#[trigger] self.layers@[l])@)
                && self.layers@[l]@.len() == self.len() by {
                if l != k {
                    assert(self.layers@[l] == old(self).layers@[l]);
                }
            }
            assert forall|l: int, p: int|
                0 <= l <= MAX_LAYERS && 0 <= p < self.len() && (#[trigger] self.layers@[l]@[p])@.len()
                    > 0 implies l <= self.assigned@[p] by {
                if l != k {
                    assert(self.layers@[l] == old(self).layers@[l]);
                    assert(old(self).layers@[l]@[p]@.len() > 0);
                } else {
                    let q = after[p]@[0];
                    assert(after[p]@.contains(q));
                    if before[p]@.contains(q) {
                        assert(old(self).layers@[k as int]@[p]@.len() > 0);
                    } else {
                        assert(joined(chosen@, id, p, q));
                        if p != id {
                            let w = choose|w: int| 0 <= w < chosen@.len() && chosen@[w] == p as usize;
                            assert(self.assigned@[chosen@[w] as int] >= k);
                        }
                    }
                }
            }
        }
        next
    }

    /// The layers from `top` down to `k` of `self` are those of `before`
    /// with the point `id` connected: the search of layer `top` starts from
    /// `first`, the search of each layer below from what the search of the
    /// layer above found, and the search of layer `k` found `next`.
    pub open spec fn built(
        &self,
        before: Index,
        id: usize,
        max_neighbors: usize,
        first: Seq<usize>,
        top: int,
        k: int,
        next: Seq<usize>,
    ) -> bool
        decreases top - k,
    {
        k <= top && exists|entries: Seq<usize>| #[trigger]
            linked(
                self.points@,
                grown(before.layer(k)),
                id,
                entries,
                max_neighbors,
                self.layer(k),
                next,
            ) && (if k == top {
                entries == first
            } else {
                self.built(before, id, max_neighbors, first, top, k + 1, entries)
            })
    }

    /// `built` looks at the points and at the layers from `k` to `top` only.
    pub proof fn lemma_built_frame(
        &self,
        other: Index,
        before: Index,
        id: usize,
        max_neighbors: usize,
        first: Seq<usize>,
        top: int,
        k: int,
        next: Seq<usize>,
    )
        requires
            self.built(before, id, max_neighbors, first, top, k, next),
            self.points@ == other.points@,
            forall|l: int| k <= l <= top ==> #[trigger] self.layer(l) == other.layer(l),
        ensures
            other.built(before, id, max_neighbors, first, top, k, next),
        decreases top - k,
    {
        let entries = choose|entries: Seq<usize>| #[trigger]
            linked(
                self.points@,
                grown(before.layer(k)),
                id,
                entries,
                max_neighbors,
                self.layer(k),
                next,
            ) && (if k == top {
                entries == first
            } else {
                self.built(before, id, max_neighbors, first, top, k + 1, entries)
            });
        assert(self.layer(k) == other.layer(k));
        if k != top {
            self.lemma_built_frame(other, before, id, max_neighbors, first, top, k + 1, entries);
        }
        assert(linked(
            other.points@,
            grown(before.layer(k)),
            id,
            entries,
            max_neighbors,
            other.layer(k),
            next,
        ));
    }

    /// `is_descent` looks at the points and at the layers above `to` up to
    /// `from` only.
    pub proof fn lemma_descent_frame(
        &self,
        other: Index,
        query: Seq<i32>,
        start: usize,
        from: int,
        to: int,
        entry: usize,
    )
        requires
            self.is_descent(query, start, from, to, entry),
            self.points@ == other.points@,
            forall|l: int| to < l <= from ==> #[trigger] self.layer(l) == other.layer(l),
        ensures
            other.is_descent(query, start, from, to, entry),
        decreases from - to,
    {
        if from > to {
            let mid = choose|mid: usize| #[trigger]
                self.is_step(query, from, start, mid) && self.is_descent(
                    query,
                    mid,
                    from - 1,
                    to,
                    entry,
                );
            assert(self.layer(from) == other.layer(from));
            let beam = choose|beam: Seq<Ranked>| #[trigger]
                is_beam(self.points@, self.layer(from), query, seq![start], 1, beam) && beam.len() > 0
                    && mid == beam[0].0;
            assert(is_beam(other.points@, other.layer(from), query, seq![start], 1, beam));
            assert(other.is_step(query, from, start, mid));
            self.lemma_descent_frame(other, query, mid, from - 1, to, entry);
        }
    }

    /// The point that the connection of a new point sets out from: the
    /// entry point, or the new point itself where it is the first one.
    pub open spec fn start_for(&self) -> usize {
        if self.len() == 0 {
            0
        } else {
            self.entry_point.unwrap()
        }
    }

    /// The top layer once a point of layer `level` is inserted.
    pub open spec fn top_after(&self, level: usize) -> usize {
        if level > self.top_layer {
            level
        } else {
            self.top_layer
        }
    }

    /// The entry point once a point of layer `level` is inserted: the new
    /// point where it is the first one or lies above the top layer.
    pub open spec fn entry_after(&self, level: usize) -> Option<usize> {
        if self.len() == 0 || level > self.top_layer {
            Some(self.len() as usize)
        } else {
            self.entry_point
        }
    }

    /// The highest layer on which a new point of layer `level` is connected.
    pub open spec fn base_for(&self, level: usize) -> usize {
        if level < self.top_layer {
            level
        } else {
            self.top_layer
        }
    }

    /// `self` is `before` with one more point, of layer `level`, connected
    /// with at most `max_neighbors` neighbours per layer. The search for
    /// the point's neighbours sets out from the entry point of `before` on
    /// its top layer and walks down to the highest layer that the point
    /// shares with `before`; from there down each layer is connected as
    /// `built` says. On the layers above, the point has no neighbour. The
    /// entry point and the top layer change last, by `entry_after` and
    /// `top_after`.
    pub open spec fn inserted(&self, before: Index, max_neighbors: usize, level: usize) -> bool {
        let id = before.len() as usize;
        let base = before.base_for(level);
        &&& self.thresholds == before.thresholds
        &&& self.top_layer == before.top_after(level)
        &&& self.entry_point == before.entry_after(level)
        &&& forall|l: int| base < l <= MAX_LAYERS ==> #[trigger] self.layer(l) == grown(before.layer(l))
        &&& exists|entry: usize, last: Seq<usize>|
            #![trigger self.is_descent(self.points@[id as int]@, before.start_for(), before.top_layer as int, base as int, entry), self.built(before, id, max_neighbors, seq![entry], base as int, 0, last)]
            self.is_descent(
                self.points@[id as int]@,
                before.start_for(),
                before.top_layer as int,
                base as int,
                entry,
            ) && self.built(before, id, max_neighbors, seq![entry], base as int, 0, last)
    }

    /// What an insertion answers: the id of the new point, or why the
    /// vector is refused.
    pub open spec fn insert_outcome(&self, vector: Seq<i32>, max_neighbors: usize) -> Result<
        usize,
        IndexError,
    > {
        if max_neighbors == 0 {
            Err(IndexError::InvalidParameter)
        } else if self.len() > 0 && vector.len() != self.points@[0]@.len() {
            Err(IndexError::DimensionMismatch)
        } else {
            Ok(self.len() as usize)
        }
    }

    /// Inserts `vector` as a new point and returns its id, which is the
    /// number of points stored before.
    ///
    /// `layer` is the layer drawn for the point; it is capped at
    /// `MAX_LAYERS`. The first vector fixes the dimension of the index.
    ///
    /// The search for neighbours sets out from the entry point as it was
    /// before the insertion and walks down, one point per layer, to the
    /// highest layer that the new point shares with the graph. On that
    /// layer and on each one below, the point is connected to at most
    /// `max_neighbors` of the closest points that a search of the layer
    /// finds, and every point that then has more than `max_neighbors`
    /// neighbours is pruned to its closest ones. Only then does the point
    /// become the entry point, where it is the first one or lies above
    /// the top layer, which rises to it.
    ///
    /// A refused insertion changes nothing. An accepted one adds the point,
    /// keeps the graph symmetric, adds no edge between two earlier points,
    /// and leaves every point with at most `max_neighbors` neighbours or
    /// with no more than it had.
    #[verifier::rlimit(40)]
    pub fn insert(&mut self, vector: Vec<i32>, max_neighbors: usize, layer: usize) -> (r: Result<
        usize,
        IndexError,
    >)
        requires
            old(self).wf(),
        ensures
            final(self).wf(),
            r == old(self).insert_outcome(vector@, max_neighbors),
            r.is_err() ==> *final(self) == *old(self),
            r.is_ok() ==> final(self).len() == old(self).len() + 1,
            r.is_ok() ==> final(self).points@ == old(self).points@.push(vector),
            r.is_ok() ==> final(self).assigned@ == old(self).assigned@.push(clamp_layer_spec(layer)),
            r.is_ok() ==> final(self).top_layer == old(self).top_after(clamp_layer_spec(layer)),
            r.is_ok() ==> final(self).entry_point == old(self).entry_after(clamp_layer_spec(layer)),
            r.is_ok() ==> forall|l: int, p: int|
                0 <= l <= MAX_LAYERS && 0 <= p < final(self).len() ==> (#[trigger] final(
                    self).layers@[l]@[p])@.len() <= max_neighbors || (p < old(self).len() && final(
                    self).layers@[l]@[p]@.len() <= old(self).layers@[l]@[p]@.len()),
            r.is_ok() ==> forall|l: int, p: int, q: usize|
                0 <= l <= MAX_LAYERS && 0 <= p < old(self).len() && #[trigger] final(
                    self).layers@[l]@[p]@.contains(q) ==> q == old(self).len() || old(
                    self).layers@[l]@[p]@.contains(q),
            r.is_ok() ==> forall|l: int|
                0 <= l <= MAX_LAYERS && (l > clamp_layer_spec(layer) || l > old(self).top_layer) ==> (
                #[trigger] final(self).layers@[l])@[old(self).len() as int]@.len() == 0,
            r.is_ok() && old(self).degree_bounded(max_neighbors) ==> final(self).degree_bounded(
                max_neighbors,
            ),
            r.is_ok() ==> final(self).inserted(*old(self), max_neighbors, clamp_layer_spec(layer)),
    {
        if max_neighbors == 0 {
            return Err(IndexError::InvalidParameter);
        }
        if self.points.len() > 0 && self.points[0].len() != vector.len() {
            return Err(IndexError::DimensionMismatch);
        }
        let level = clamp_layer(layer);
        let old_top = self.top_layer;
        let old_entry = self.entry_point;
        let id = self.register(vector, level);
        let start = match old_entry {
            Some(e) => e,
            None => id,
        };
        let base = if level < old_top {
            level
        } else {
            old_top
        };
        assert(self.points@[id as int]@.len() == self.points@[0]@.len());
        let entry = self.descend(&self.points[id], start, old_top, base);
        let mut entries: Vec<usize> = Vec::new();
        entries.push(entry);
        let ghost registered = *self;
        let ghost query = self.points@[id as int]@;
        proof {
            assert(entries@ =~= seq![entry]);
            assert forall|l: int| 0 <= l <= MAX_LAYERS implies #[trigger] registered.layer(l) == grown(
                old(self).layer(l),
            ) by {
                assert(registered.layers@[l]@.len() == id + 1);
                assert(layer_wf(old(self).layers@[l]@));
                assert forall|p: int| 0 <= p <= id implies registered.layer(l)[p] == grown(
                    old(self).layer(l),
                )[p] by {
                    if p < id {
                        assert(registered.layers@[l]@[p] == old(self).layers@[l]@[p]);
                    } else {
                        assert(registered.layers@[l]@[id as int]@ =~= Seq::<usize>::empty());
                    }
                }
                assert(registered.layer(l) =~= grown(old(self).layer(l)));
            }
        }
        let mut k1: usize = base + 1;
        while k1 > 0
            invariant
                self.graph_wf(),
                self.points == registered.points,
                self.assigned == registered.assigned,
                self.top_layer == registered.top_layer,
                self.entry_point == registered.entry_point,
                self.thresholds == registered.thresholds,
                self.len() == id + 1,
                max_neighbors >= 1,
                k1 <= base + 1,
                base <= MAX_LAYERS,
                base <= self.assigned@[id as int],
                forall|l: int| 0 <= l < k1 ==> #[trigger] self.layers@[l] == registered.layers@[l],
                forall|l: int| base < l <= MAX_LAYERS ==> #[trigger] self.layers@[l] == registered.layers@[l],
                forall|l: int| 0 <= l <= MAX_LAYERS ==> (#[trigger] registered.layers@[l])@[id as int]@.len() == 0,
                forall|l: int, p: int|
                    0 <= l <= MAX_LAYERS && 0 <= p <= id ==> (#[trigger] self.layers@[l]@[p])@.len()
                        <= max_neighbors || self.layers@[l]@[p]@.len() <= registered.layers@[l]@[p]@.len(),
                forall|l: int, p: int, q: usize|
                    0 <= l <= MAX_LAYERS && 0 <= p <= id && #[trigger] self.layers@[l]@[p]@.contains(q)
                        ==> registered.layers@[l]@[p]@.contains(q) || p == id || q == id,
                forall|i: int|
                    0 <= i < entries@.len() ==> (#[trigger] entries@[i]) <= id && (k1 > 0
                        ==> self.assigned@[entries@[i] as int] >= k1 - 1),
                forall|l: int| 0 <= l <= MAX_LAYERS ==> #[trigger] registered.layer(l) == grown(old(self).layer(l)),
                k1 == base + 1 ==> entries@ == seq![entry],
                k1 <= base ==> self.built(
                    *old(self),
                    id,
                    max_neighbors,
                    seq![entry],
                    base as int,
                    k1 as int,
                    entries@,
                ),
            decreases k1,
        {
            let k = k1 - 1;
            let ghost before = *self;
            let ghost entries_in = entries@;
            assert(self.layers@[k as int] == registered.layers@[k as int]);
            entries = self.link_layer(id, k, &entries, max_neighbors);
            k1 = k;
            proof {
                assert(before.layer(k as int) == registered.layer(k as int));
                assert(linked(
                    self.points@,
                    grown(old(self).layer(k as int)),
                    id,
                    entries_in,
                    max_neighbors,
                    self.layer(k as int),
                    entries@,
                ));
                if k < base {
                    assert forall|l: int| k + 1 <= l <= base implies #[trigger] before.layer(l)
                        == self.layer(l) by {
                        assert(self.layers@[l] == before.layers@[l]);
                    }
                    before.lemma_built_frame(
                        *self,
                        *old(self),
                        id,
                        max_neighbors,
                        seq![entry],
                        base as int,
                        k + 1,
                        entries_in,
                    );
                }
                assert(self.built(
                    *old(self),
                    id,
                    max_neighbors,
                    seq![entry],
                    base as int,
                    k as int,
                    entries@,
                ));
                assert forall|l: int, p: int|
                    0 <= l <= MAX_LAYERS && 0 <= p <= id implies (#[trigger] self.layers@[l]@[p])@.len()
                    <= max_neighbors || self.layers@[l]@[p]@.len() <= registered.layers@[l]@[p]@.len() by {
                    if l != k {
                        assert(self.layers@[l] == before.layers@[l]);
                    }
                }
                assert forall|l: int, p: int, q: usize|
                    0 <= l <= MAX_LAYERS && 0 <= p <= id && #[trigger] self.layers@[l]@[p]@.contains(
                        q,
                    ) implies registered.layers@[l]@[p]@.contains(q) || p == id || q == id by {
                    if l != k {
                        assert(self.layers@[l] == before.layers@[l]);
                    }
                }
            }
        }
        let ghost connected_up = *self;
        if id == 0 || level > old_top {
            self.entry_point = Some(id);
            self.top_layer = level;
        }
        proof {
            connected_up.lemma_built_frame(
                *self,
                *old(self),
                id,
                max_neighbors,
                seq![entry],
                base as int,
                0,
                entries@,
            );
            assert forall|p: int| 0 <= p < self.len() implies (#[trigger] self.assigned@[p])
                <= self.top_layer by {
                if p < id {
                    assert(self.assigned@[p] == old(self).assigned@[p]);
                }
            }
            assert forall|l: int, p: int|
                0 <= l <= MAX_LAYERS && 0 <= p < self.len() implies (#[trigger] self.layers@[l]@[p])@.len()
                <= max_neighbors || (p < old(self).len() && self.layers@[l]@[p]@.len() <= old(
                self).layers@[l]@[p]@.len()) by {
                assert(registered.layers@[l]@[id as int]@.len() == 0);
                if p < id {
                    assert(registered.layers@[l]@[p] == old(self).layers@[l]@[p]);
                }
            }
            assert forall|l: int, p: int, q: usize|
                0 <= l <= MAX_LAYERS && 0 <= p < old(self).len() && #[trigger] self.layers@[l]@[p]@.contains(
                    q,
                ) implies q == old(self).len() || old(self).layers@[l]@[p]@.contains(q) by {
                assert(registered.layers@[l]@[p] == old(self).layers@[l]@[p]);
            }
            assert forall|l: int|
                0 <= l <= MAX_LAYERS && (l > clamp_layer_spec(layer) || l > old(self).top_layer) implies (
            #[trigger] self.layers@[l])@[old(self).len() as int]@.len() == 0 by {
                assert(self.layers@[l] == registered.layers@[l]);
            }
            if old(self).degree_bounded(max_neighbors) {
                assert forall|l: int, p: int|
                    0 <= l <= MAX_LAYERS && 0 <= p < self.len() implies (#[trigger] self.layers@[l]@[p])@.len()
                    <= max_neighbors by {
                    if p < id {
                        assert(old(self).layers@[l]@[p]@.len() <= max_neighbors);
                    }
                }
            }
            assert forall|l: int| base < l <= MAX_LAYERS implies #[trigger] self.layer(l) == grown(
                old(self).layer(l),
            ) by {
                assert(self.layers@[l] == registered.layers@[l]);
                assert(registered.layer(l) == grown(old(self).layer(l)));
            }
            assert forall|l: int| base < l <= old_top implies #[trigger] registered.layer(l) == self.layer(
                l,
            ) by {
                assert(self.layers@[l] == registered.layers@[l]);
            }
            registered.lemma_descent_frame(*self, query, start, old_top as int, base as int, entry);
            assert(start == old(self).start_for());
            assert(base == old(self).base_for(level));
            assert(self.is_descent(
                self.points@[id as int]@,
                old(self).start_for(),
                old(self).top_layer as int,
                base as int,
                entry,
            ));
            assert(self.built(*old(self), id, max_neighbors, seq![entry], base as int, 0, entries@));
        }
        Ok(id)
    }

    /// `found` answers a query on a non-empty index: it holds the `k` best
    /// entries of a search of layer 0 with a beam of `ef` that starts where
    /// the walk down from the entry point ends.
    pub open spec fn answers(&self, query: Seq<i32>, k: usize, ef: usize, found: Seq<Ranked>) -> bool {
        exists|entry: usize, beam: Seq<Ranked>|
            #![trigger self.is_descent(query, self.entry_point.unwrap(), self.top_layer as int, 0, entry), is_beam(self.points@, self.layer(0), query, seq![entry], ef, beam)]
            self.is_descent(query, self.entry_point.unwrap(), self.top_layer as int, 0, entry)
                && is_beam(self.points@, self.layer(0), query, seq![entry], ef, beam) && found
                == beam.take(if k <= beam.len() {
                k as int
            } else {
                beam.len() as int
            })
    }

    /// The points closest to `vector`, at most `k` of them, each with its
    /// squared distance, closest first; ties go to the smaller id.
    ///
    /// The search walks down from the entry point with a beam of one and
    /// searches layer 0 with a beam of `ef`. An empty index answers with
    /// an empty list.
    pub fn query(&self, vector: &Vec<i32>, k: usize, ef: usize) -> (r: Result<Vec<Ranked>, IndexError>)
        requires
            self.wf(),
        ensures
            k == 0 || ef < k ==> r == Err::<Vec<Ranked>, IndexError>(IndexError::InvalidParameter),
            !(k == 0 || ef < k) && self.len() > 0 && vector@.len() != self.points@[0]@.len() ==> r
                == Err::<Vec<Ranked>, IndexError>(IndexError::DimensionMismatch),
            !(k == 0 || ef < k) && !(self.len() > 0 && vector@.len() != self.points@[0]@.len())
                ==> r.is_ok(),
            r.is_ok() && self.len() == 0 ==> r.unwrap()@.len() == 0,
            r.is_ok() && self.len() > 0 ==> self.answers(vector@, k, ef, r.unwrap()@),
    {
        if k == 0 || ef < k {
            return Err(IndexError::InvalidParameter);
        }
        match self.entry_point {
            None => Ok(Vec::new()),
            Some(e) => {
                if self.points[0].len() != vector.len() {
                    return Err(IndexError::DimensionMismatch);
                }
                let entry = self.descend(vector, e, self.top_layer, 0);
                let mut entries: Vec<usize> = Vec::new();
                entries.push(entry);
                assert(entries@ == seq![entry]);
                assert(layer_wf(self.layers@[0]@));
                let mut found = search_layer(&self.points, &self.layers[0], vector, &entries, ef);
                let ghost beam = found@;
                assert(is_beam(self.points@, self.layer(0), vector@, seq![entry], ef, beam));
                if found.len() > k {
                    found.truncate(k);
                }
                proof {
                    assert(found@ == beam.take(if k <= beam.len() {
                        k as int
                    } else {
                        beam.len() as int
                    }));
                }
                Ok(found)
            },
        }
    }
}

/// A drawn layer, capped at `MAX_LAYERS`.
pub open spec fn clamp_layer_spec(layer: usize) -> usize {
    if layer > MAX_LAYERS {
        MAX_LAYERS
    } else {
        layer
    }
}

/// Caps a drawn layer at `MAX_LAYERS`.
pub fn clamp_layer(layer: usize) -> (level: usize)
    ensures
        level == clamp_layer_spec(layer),
{
    if layer > MAX_LAYERS {
        MAX_LAYERS
    } else {
        layer
    }
}

} // verus!
