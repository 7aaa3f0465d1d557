//! One layer of the proximity graph: a neighbour list for every point,
//! kept symmetric, and the edits that an insertion makes to it.

use vstd::prelude::*;
use crate::search::{layer_ok, lists, uniform};
use crate::select::{is_selection, lemma_selection_ids, ranks_of, select_neighbors, selection_of};

verus! {

/// A layer is well formed: every neighbour is a point of the store, no
/// list names a point twice or the point it belongs to, and every edge
/// has its back edge.
pub open spec fn layer_wf(adj: Seq<Vec<usize>>) -> bool {
    &&& adj.len() <= usize::MAX
    &&& layer_ok(adj, adj.len())
    &&& forall|p: int| 0 <= p < adj.len() ==> (#[trigger] adj[p])@.no_duplicates()
    &&& forall|p: int| 0 <= p < adj.len() ==> !(#[trigger] adj[p])@.contains(p as usize)
    &&& symmetric(adj)
}

/// Whenever `q` is a neighbour of `p`, `p` is a neighbour of `q`.
pub open spec fn symmetric(adj: Seq<Vec<usize>>) -> bool {
    forall|p: int, q: usize|
        0 <= p < adj.len() && q < adj.len() && #[trigger] adj[p]@.contains(q)
            ==> adj[q as int]@.contains(p as usize)
}

/// Whether `id` stands in `list`.
pub fn contains_id(list: &Vec<usize>, id: usize) -> (r: bool)
    ensures
        r == list@.contains(id),
{
    let mut i: usize = 0;
    while i < list.len()
        invariant
            i <= list.len(),
            forall|j: int| 0 <= j < i ==> list@[j] != id,
        decreases list.len() - i,
    {
        if list[i] == id {
            return true;
        }
        i = i + 1;
    }
    false
}

/// Takes `id` out of a list without repetitions, keeping the order of the rest.
pub fn remove_id(list: &mut Vec<usize>, id: usize)
    requires
        old(list)@.no_duplicates(),
    ensures
        final(list)@.no_duplicates(),
        old(list)@.contains(id) ==> final(list)@ == old(list)@.remove(old(list)@.index_of(id)),
        !old(list)@.contains(id) ==> final(list)@ == old(list)@,
        forall|y: usize| #[trigger] final(list)@.contains(y) <==> old(list)@.contains(y) && y != id,
        final(list)@.len() <= old(list)@.len(),
{
    let mut i: usize = 0;
    while i < list.len()
        invariant
            i <= list.len(),
            list@ == old(list)@,
            list@.no_duplicates(),
            forall|j: int| 0 <= j < i ==> list@[j] != id,
        decreases list.len() - i,
    {
        if list[i] == id {
            let ghost s0 = list@;
            proof {
                s0.remove_ensures(i as int);
                assert(s0.contains(id));
                let k = s0.index_of(id);
                assert(s0[k] == id);
                assert(k == i);
            }
            list.remove(i);
            proof {
                let s1 = list@;
                assert forall|a: int, b: int| 0 <= a < s1.len() && 0 <= b < s1.len() && a != b implies s1[a]
                    != s1[b] by {
                    let a0 = if a < i { a } else { a + 1 };
                    let b0 = if b < i { b } else { b + 1 };
                    assert(s1[a] == s0[a0]);
                    assert(s1[b] == s0[b0]);
                }
                assert forall|y: usize| #[trigger] s1.contains(y) <==> s0.contains(y) && y != id by {
                    if s1.contains(y) {
                        let a = choose|a: int| 0 <= a < s1.len() && s1[a] == y;
                        let a0 = if a < i { a } else { a + 1 };
                        assert(s1[a] == s0[a0]);
                    }
                    if s0.contains(y) && y != id {
                        let a0 = choose|a0: int| 0 <= a0 < s0.len() && s0[a0] == y;
                        let a = if a0 < i { a0 } else { a0 - 1 };
                        assert(s1[a] == s0[a0]);
                    }
                }
            }
            return ;
        }
        i = i + 1;
    }
}

/// Joins `a` and `b` by an edge, in both directions. Nothing changes where
/// the edge is there already.
pub fn add_edge(adj: &mut Vec<Vec<usize>>, a: usize, b: usize)
    requires
        layer_wf(old(adj)@),
        a < old(adj)@.len(),
        b < old(adj)@.len(),
        a != b,
    ensures
        layer_wf(final(adj)@),
        final(adj)@.len() == old(adj)@.len(),
        forall|p: int|
            0 <= p < old(adj)@.len() && p != a && p != b ==> #[trigger] final(adj)@[p] == old(
                adj,
            )@[p],
        old(adj)@[a as int]@.contains(b) ==> final(adj)@ == old(adj)@,
        !old(adj)@[a as int]@.contains(b) ==> final(adj)@[a as int]@ == old(adj)@[a as int]@.push(b)
            && final(adj)@[b as int]@ == old(adj)@[b as int]@.push(a),
{
    if !contains_id(&adj[a], b) {
        proof {
            if old(adj)@[b as int]@.contains(a) {
                assert(old(adj)@[a as int]@.contains(b));
            }
        }
        adj[a].push(b);
        adj[b].push(a);
        proof {
            let s0 = old(adj)@;
            let s1 = adj@;
            assert(s1[a as int]@ == s0[a as int]@.push(b));
            assert(s1[b as int]@ == s0[b as int]@.push(a));
            assert forall|p: int, t: int| 0 <= p < s1.len() && 0 <= t < s1[p]@.len() implies (
            #[trigger] s1[p]@[t]) < s1.len() by {
                if t < s0[p]@.len() {
                    assert(s1[p]@[t] == s0[p]@[t]);
                }
            }
            assert forall|p: int| 0 <= p < s1.len() implies (#[trigger] s1[p])@.no_duplicates()
                && !s1[p]@.contains(p as usize) by {
                assert(s0[p]@.no_duplicates());
                assert(!s0[p]@.contains(p as usize));
                if p == a || p == b {
                    let x = if p == a { b } else { a };
                    assert(s1[p]@ == s0[p]@.push(x));
                    assert(!s0[p]@.contains(x));
                    assert forall|i: int, j: int|
                        0 <= i < s1[p]@.len() && 0 <= j < s1[p]@.len() && i != j implies s1[p]@[i]
                        != s1[p]@[j] by {
                        if i < s0[p]@.len() {
                            assert(s0[p]@.contains(s0[p]@[i]));
                        }
                        if j < s0[p]@.len() {
                            assert(s0[p]@.contains(s0[p]@[j]));
                        }
                    }
                    if s1[p]@.contains(p as usize) {
                        let k = choose|k: int| 0 <= k < s1[p]@.len() && s1[p]@[k] == p as usize;
                        if k < s0[p]@.len() {
                            assert(s0[p]@[k] == p as usize);
                        }
                    }
                }
            }
            assert forall|p: int, q: usize|
                0 <= p < s1.len() && q < s1.len() && #[trigger] s1[p]@.contains(q) implies s1[q as int]@.contains(
                p as usize,
            ) by {
                lemma_push_contains(s0[a as int]@, b);
                lemma_push_contains(s0[b as int]@, a);
                if s0[p]@.contains(q) {
                    assert(s0[q as int]@.contains(p as usize));
                }
            }
        }
    }
}

/// What taking an id out of a list without repetitions leaves.
pub proof fn lemma_remove_member(s: Seq<usize>, id: usize)
    requires
        s.no_duplicates(),
        s.contains(id),
    ensures
        s.remove(s.index_of(id)).no_duplicates(),
        s.remove(s.index_of(id)).len() == s.len() - 1,
        forall|y: usize| #[trigger] s.remove(s.index_of(id)).contains(y) <==> s.contains(y) && y != id,
{
    let i = s.index_of(id);
    let s1 = s.remove(i);
    s.remove_ensures(i);
    assert forall|a: int, b: int| 0 <= a < s1.len() && 0 <= b < s1.len() && a != b implies s1[a]
        != s1[b] by {
        let a0 = if a < i { a } else { a + 1 };
        let b0 = if b < i { b } else { b + 1 };
        assert(s1[a] == s[a0]);
        assert(s1[b] == s[b0]);
    }
    assert forall|y: usize| #[trigger] s1.contains(y) <==> s.contains(y) && y != id by {
        if s1.contains(y) {
            let a = choose|a: int| 0 <= a < s1.len() && s1[a] == y;
            let a0 = if a < i { a } else { a + 1 };
            assert(s1[a] == s[a0]);
        }
        if s.contains(y) && y != id {
            let a0 = choose|a0: int| 0 <= a0 < s.len() && s[a0] == y;
            let a = if a0 < i { a0 } else { a0 - 1 };
            assert(s1[a] == s[a0]);
        }
    }
}

/// What an appended id does to membership.
pub proof fn lemma_push_contains(s: Seq<usize>, x: usize)
    ensures
        forall|y: usize| #[trigger] s.push(x).contains(y) <==> s.contains(y) || y == x,
{
    assert forall|y: usize| #[trigger] s.push(x).contains(y) <==> s.contains(y) || y == x by {
        if s.push(x).contains(y) {
            let k = choose|k: int| 0 <= k < s.push(x).len() && s.push(x)[k] == y;
            if k < s.len() {
                assert(s[k] == y);
            }
        }
        if s.contains(y) {
            let k = choose|k: int| 0 <= k < s.len() && s[k] == y;
            assert(s.push(x)[k] == y);
        }
        assert(s.push(x)[s.len() as int] == x);
    }
}

/// `s` without the entries that are `id`.
pub open spec fn without(s: Seq<usize>, id: usize) -> Seq<usize>
    decreases s.len(),
{
    if s.len() == 0 {
        s
    } else if s.last() == id {
        without(s.drop_last(), id)
    } else {
        without(s.drop_last(), id).push(s.last())
    }
}

/// What stands in `without(s, id)` stands in `s`.
pub proof fn lemma_without_contains(s: Seq<usize>, id: usize, y: usize)
    requires
        without(s, id).contains(y),
    ensures
        s.contains(y),
        y != id,
    decreases s.len(),
{
    if s.len() > 0 {
        let rest = without(s.drop_last(), id);
        if s.last() == id {
            lemma_without_contains(s.drop_last(), id, y);
            let k = choose|k: int| 0 <= k < s.drop_last().len() && s.drop_last()[k] == y;
            assert(s[k] == y);
        } else {
            lemma_push_contains(rest, s.last());
            if rest.contains(y) {
                lemma_without_contains(s.drop_last(), id, y);
                let k = choose|k: int| 0 <= k < s.drop_last().len() && s.drop_last()[k] == y;
                assert(s[k] == y);
            } else {
                assert(s[s.len() - 1] == y);
            }
        }
    }
}

/// The layer once the point `id`, which had no neighbour, is joined to
/// each point of `chosen` but itself.
pub open spec fn joined_lists(layer: Seq<Seq<usize>>, id: usize, chosen: Seq<usize>) -> Seq<
    Seq<usize>,
> {
    Seq::new(
        layer.len(),
        |p: int|
            if p == id {
                without(chosen, id)
            } else if chosen.contains(p as usize) {
                layer[p].push(id)
            } else {
                layer[p]
            },
    )
}

/// The layer once `c` has cut its neighbours down to the `max_neighbors`
/// closest to it: `c` keeps its selection, and each neighbour that it
/// gives up loses `c`.
pub open spec fn trimmed(
    points: Seq<Vec<i32>>,
    layer: Seq<Seq<usize>>,
    c: usize,
    max_neighbors: usize,
) -> Seq<Seq<usize>> {
    let kept = selection_of(points, points[c as int]@, layer[c as int], max_neighbors);
    Seq::new(
        layer.len(),
        |x: int|
            if x == c {
                kept
            } else if layer[c as int].contains(x as usize) && !kept.contains(x as usize) {
                layer[x].remove(layer[x].index_of(c))
            } else {
                layer[x]
            },
    )
}

/// The layer once each point of `chosen`, in turn, is trimmed if it has
/// more than `max_neighbors` neighbours at that moment.
pub open spec fn pruned_each(
    points: Seq<Vec<i32>>,
    layer: Seq<Seq<usize>>,
    chosen: Seq<usize>,
    max_neighbors: usize,
) -> Seq<Seq<usize>>
    decreases chosen.len(),
{
    if chosen.len() == 0 {
        layer
    } else {
        let so_far = pruned_each(points, layer, chosen.drop_last(), max_neighbors);
        if so_far[chosen.last() as int].len() > max_neighbors {
            trimmed(points, so_far, chosen.last(), max_neighbors)
        } else {
            so_far
        }
    }
}

/// The layer once `id` is joined to `chosen` and the chosen points are
/// pruned.
pub open spec fn connected(
    points: Seq<Vec<i32>>,
    layer: Seq<Seq<usize>>,
    id: usize,
    chosen: Seq<usize>,
    max_neighbors: usize,
) -> Seq<Seq<usize>> {
    pruned_each(points, joined_lists(layer, id, chosen), chosen, max_neighbors)
}

/// The neighbour list of `x` once `c` has cut its edges down to `kept`: the
/// list loses `c` where `x` was a neighbour of `c` and is not kept.
pub open spec fn after_prune(before: Seq<Vec<usize>>, kept: Seq<usize>, c: usize, x: int) -> Seq<
    usize,
> {
    if before[c as int]@.contains(x as usize) && !kept.contains(x as usize) {
        before[x]@.remove(before[x]@.index_of(c))
    } else {
        before[x]@
    }
}

/// Cuts the neighbours of `c` down to the `max_neighbors` closest to it.
/// Each edge that `c` gives up is taken out at its far end too.
#[verifier::rlimit(40)]
pub fn prune(adj: &mut Vec<Vec<usize>>, points: &Vec<Vec<i32>>, c: usize, max_neighbors: usize)
    requires
        layer_wf(old(adj)@),
        old(adj)@.len() == points@.len(),
        c < points@.len(),
        uniform(points@, points@[c as int]@.len()),
        max_neighbors >= 1,
    ensures
        layer_wf(final(adj)@),
        final(adj)@.len() == old(adj)@.len(),
        is_selection(
            ranks_of(points@, points@[c as int]@, final(adj)@[c as int]@),
            ranks_of(points@, points@[c as int]@, old(adj)@[c as int]@),
            max_neighbors,
        ),
        forall|x: int|
            0 <= x < old(adj)@.len() && x != c ==> (#[trigger] final(adj)@[x])@ == after_prune(
                old(adj)@,
                final(adj)@[c as int]@,
                c,
                x,
            ),
        lists(final(adj)@) == trimmed(points@, lists(old(adj)@), c, max_neighbors),
        final(adj)@[c as int]@.len() <= max_neighbors,
        forall|x: int|
            0 <= x < old(adj)@.len() && x != c ==> (#[trigger] final(adj)@[x])@.len() <= old(
                adj,
            )@[x]@.len(),
        forall|x: int, y: usize|
            0 <= x < old(adj)@.len() && #[trigger] final(adj)@[x]@.contains(y) ==> old(
                adj,
            )@[x]@.contains(y),
{
    let ghost s0 = adj@;
    let n = adj.len();
    let mut former: Vec<usize> = Vec::new();
    let mut i: usize = 0;
    while i < adj[c].len()
        invariant
            i <= adj@[c as int]@.len(),
            c < adj@.len(),
            former@ == adj@[c as int]@.take(i as int),
        decreases adj@[c as int]@.len() - i,
    {
        former.push(adj[c][i]);
        proof {
            assert(adj@[c as int]@.take(i + 1) == adj@[c as int]@.take(i as int).push(
                adj@[c as int]@[i as int],
            ));
        }
        i = i + 1;
    }
    assert(former@ == s0[c as int]@);
    proof {
        assert forall|j: int| 0 <= j < former@.len() implies (#[trigger] former@[j]) < points@.len() by {
            assert(s0[c as int]@[j] < n);
        }
    }
    let kept = select_neighbors(points, &points[c], &former, max_neighbors);
    proof {
        lemma_selection_ids(points@, points@[c as int]@, kept@, former@, max_neighbors);
    }
    let mut t: usize = 0;
    while t < former.len()
        invariant
            t <= former@.len(),
            n == s0.len(),
            adj@.len() == n,
            c < n,
            layer_wf(s0),
            former@ == s0[c as int]@,
            adj@[c as int]@ == s0[c as int]@,
            forall|x: int|
                0 <= x < n && x != c ==> (#[trigger] adj@[x])@ == (if former@.take(t as int).contains(
                    x as usize,
                ) && !kept@.contains(x as usize) {
                    s0[x]@.remove(s0[x]@.index_of(c))
                } else {
                    s0[x]@
                }),
        decreases former@.len() - t,
    {
        let x = former[t];
        let ghost a0 = adj@;
        proof {
            assert(s0[c as int]@.contains(x));
            assert(x < n);
            assert(x != c);
            assert(former@.take(t + 1) == former@.take(t as int).push(x));
            lemma_push_contains(former@.take(t as int), x);
            assert(!former@.take(t as int).contains(x)) by {
                if former@.take(t as int).contains(x) {
                    let j = choose|j: int| 0 <= j < t && former@.take(t as int)[j] == x;
                    assert(former@[j] == former@[t as int]);
                }
            }
            assert(a0[x as int]@ == s0[x as int]@);
            assert(s0[x as int]@.contains(c));
        }
        if !contains_id(&kept, x) {
            remove_id(&mut adj[x], c);
        }
        proof {
            assert forall|y: int| 0 <= y < n && y != c implies (#[trigger] adj@[y])@ == (
            if former@.take(t + 1).contains(y as usize) && !kept@.contains(y as usize) {
                s0[y]@.remove(s0[y]@.index_of(c))
            } else {
                s0[y]@
            }) by {
                if y != x {
                    assert(adj@[y] == a0[y]);
                }
            }
        }
        t = t + 1;
    }
    adj[c] = kept;
    proof {
        let s1 = adj@;
        assert(former@.take(former@.len() as int) == former@);
        assert forall|x: int| 0 <= x < n && x != c implies (#[trigger] s1[x])@ == after_prune(
            s0,
            s1[c as int]@,
            c,
            x,
        ) by {}
        lemma_pruned_layer(s0, s1, c);
        assert(lists(s0)[c as int] == s0[c as int]@);
        assert(s1[c as int]@ == selection_of(
            points@,
            points@[c as int]@,
            lists(s0)[c as int],
            max_neighbors,
        ));
        assert forall|x: int| 0 <= x < n implies lists(s1)[x] == trimmed(
            points@,
            lists(s0),
            c,
            max_neighbors,
        )[x] by {
            assert(lists(s0)[x] == s0[x]@);
            if x != c {
                assert(s1[x]@ == after_prune(s0, s1[c as int]@, c, x));
            }
        }
        assert(lists(s1) =~= trimmed(points@, lists(s0), c, max_neighbors));
    }
}

/// A well-formed layer stays so when `c` keeps some of its neighbours,
/// without repetition, and the others drop `c`.
pub proof fn lemma_pruned_layer(s0: Seq<Vec<usize>>, s1: Seq<Vec<usize>>, c: usize)
    requires
        layer_wf(s0),
        s1.len() == s0.len(),
        c < s0.len(),
        s1[c as int]@.no_duplicates(),
        forall|i: int| 0 <= i < s1[c as int]@.len() ==> s0[c as int]@.contains(#[trigger] s1[c as int]@[i]),
        forall|x: int|
            0 <= x < s0.len() && x != c ==> (#[trigger] s1[x])@ == after_prune(s0, s1[c as int]@, c, x),
    ensures
        layer_wf(s1),
        forall|x: int| 0 <= x < s0.len() && x != c ==> (#[trigger] s1[x])@.len() <= s0[x]@.len(),
        forall|x: int, y: usize|
            0 <= x < s0.len() && #[trigger] s1[x]@.contains(y) ==> s0[x]@.contains(y),
{
    let n = s0.len();
    let kept = s1[c as int]@;
    assert forall|x: int, y: usize| 0 <= x < n && #[trigger] s1[x]@.contains(y) implies s0[x]@.contains(
        y,
    ) && (x != c && y == c ==> kept.contains(x as usize)) by {
        if x == c {
            let k = choose|k: int| 0 <= k < kept.len() && kept[k] == y;
            assert(s0[c as int]@.contains(kept[k]));
        } else {
            assert(s1[x]@ == after_prune(s0, kept, c, x));
            assert(s0[x]@.no_duplicates());
            if s0[c as int]@.contains(x as usize) && !kept.contains(x as usize) {
                assert(s0[x]@.contains(c));
                lemma_remove_member(s0[x]@, c);
            } else {
                if y == c {
                    assert(s0[c as int]@.contains(x as usize));
                }
            }
        }
    }
    assert forall|x: int| 0 <= x < n implies (#[trigger] s1[x])@.no_duplicates() && !s1[x]@.contains(
        x as usize,
    ) && (x != c ==> s1[x]@.len() <= s0[x]@.len()) by {
        assert(s0[x]@.no_duplicates());
        assert(!s0[x]@.contains(x as usize));
        if x != c {
            assert(s1[x]@ == after_prune(s0, kept, c, x));
            if s0[c as int]@.contains(x as usize) && !kept.contains(x as usize) {
                assert(s0[x]@.contains(c));
                lemma_remove_member(s0[x]@, c);
            }
        }
    }
    assert forall|p: int, t: int| 0 <= p < n && 0 <= t < s1[p]@.len() implies (#[trigger] s1[p]@[t])
        < n by {
        let y = s1[p]@[t];
        assert(s1[p]@.contains(y));
        assert(s0[p]@.contains(y));
        let k = choose|k: int| 0 <= k < s0[p]@.len() && s0[p]@[k] == y;
        assert(s0[p]@[k] < n);
    }
    assert forall|p: int, q: usize|
        0 <= p < n && q < n && #[trigger] s1[p]@.contains(q) implies s1[q as int]@.contains(
        p as usize,
    ) by {
        assert(s0[p]@.contains(q));
        assert(s0[q as int]@.contains(p as usize));
        assert(p != q);
        if q == c {
            assert(kept.contains(p as usize));
        } else {
            assert(s1[q as int]@ == after_prune(s0, kept, c, q as int));
            if s0[c as int]@.contains(q) && !kept.contains(q) {
                lemma_remove_member(s0[q as int]@, c);
                assert(p != c);
            }
        }
    }
}

/// `q` became a neighbour of `p` by joining the point `id` to `chosen`.
pub open spec fn joined(chosen: Seq<usize>, id: usize, p: int, q: usize) -> bool {
    (p == id && chosen.contains(q)) || (q == id && chosen.contains(p as usize))
}

/// Connects the point `id`, which has no neighbour on this layer yet, to
/// each point of `chosen` but itself, and then prunes every chosen point
/// that has more than `max_neighbors` neighbours.
///
/// Afterwards no point has more neighbours than before unless it has at
/// most `max_neighbors`, and the only new edges join `id` and a chosen point.
#[verifier::rlimit(40)]
pub fn connect(
    adj: &mut Vec<Vec<usize>>,
    points: &Vec<Vec<i32>>,
    id: usize,
    chosen: &Vec<usize>,
    max_neighbors: usize,
)
    requires
        layer_wf(old(adj)@),
        old(adj)@.len() == points@.len(),
        id < points@.len(),
        uniform(points@, points@[id as int]@.len()),
        max_neighbors >= 1,
        chosen@.len() <= max_neighbors,
        forall|i: int| 0 <= i < chosen@.len() ==> (#[trigger] chosen@[i]) < points@.len(),
        chosen@.no_duplicates(),
        old(adj)@[id as int]@.len() == 0,
    ensures
        layer_wf(final(adj)@),
        final(adj)@.len() == old(adj)@.len(),
        lists(final(adj)@) == connected(points@, lists(old(adj)@), id, chosen@, max_neighbors),
        forall|p: int|
            0 <= p < old(adj)@.len() ==> (#[trigger] final(adj)@[p])@.len() <= max_neighbors
                || final(adj)@[p]@.len() <= old(adj)@[p]@.len(),
        forall|p: int, q: usize|
            0 <= p < old(adj)@.len() && #[trigger] final(adj)@[p]@.contains(q) ==> old(
                adj,
            )@[p]@.contains(q) || joined(chosen@, id, p, q),
{
    let ghost s0 = adj@;
    let n = adj.len();
    proof {
        let none = chosen@.take(0);
        assert(none.len() == 0);
        assert forall|p: int| 0 <= p < n implies lists(s0)[p] == joined_lists(lists(s0), id, none)[p] by {
            if p == id {
                assert(s0[p]@ =~= without(none, id));
            }
        }
        assert(lists(s0) =~= joined_lists(lists(s0), id, none));
    }
    let mut j: usize = 0;
    while j < chosen.len()
        invariant
            j <= chosen@.len(),
            layer_wf(adj@),
            layer_wf(s0),
            adj@.len() == n,
            s0.len() == n,
            id < n,
            s0[id as int]@.len() == 0,
            forall|i: int| 0 <= i < chosen@.len() ==> (#[trigger] chosen@[i]) < n,
            chosen@.no_duplicates(),
            lists(adj@) == joined_lists(lists(s0), id, chosen@.take(j as int)),
            adj@[id as int]@.len() <= j,
            forall|p: int|
                0 <= p < n && p != id ==> (#[trigger] adj@[p])@ == s0[p]@ || (adj@[p]@
                    == s0[p]@.push(id) && chosen@.contains(p as usize)),
            forall|p: int, q: usize|
                0 <= p < n && #[trigger] adj@[p]@.contains(q) ==> s0[p]@.contains(q) || joined(
                    chosen@,
                    id,
                    p,
                    q,
                ),
        decreases chosen@.len() - j,
    {
        let c = chosen[j];
        let ghost a0 = adj@;
        proof {
            let head = chosen@.take(j as int);
            assert(chosen@.take(j + 1).drop_last() == head);
            assert(chosen@.take(j + 1).last() == c);
            lemma_push_contains(head, c);
            assert(chosen@.take(j + 1) == head.push(c));
            assert(!head.contains(c)) by {
                if head.contains(c) {
                    let w = choose|w: int| 0 <= w < head.len() && head[w] == c;
                    assert(chosen@[w] == chosen@[j as int]);
                }
            }
            assert(lists(a0)[id as int] == a0[id as int]@);
            assert(lists(a0)[c as int] == a0[c as int]@);
            assert(lists(s0)[c as int] == s0[c as int]@);
            if a0[id as int]@.contains(c) {
                lemma_without_contains(head, id, c);
            }
        }
        if c != id {
            add_edge(adj, id, c);
            proof {
                assert forall|p: int| 0 <= p < n implies lists(adj@)[p] == joined_lists(
                    lists(s0),
                    id,
                    chosen@.take(j + 1),
                )[p] by {
                    assert(lists(a0)[p] == a0[p]@);
                    assert(lists(s0)[p] == s0[p]@);
                    if p != id && p != c {
                        assert(adj@[p] == a0[p]);
                    }
                }
                assert(lists(adj@) =~= joined_lists(lists(s0), id, chosen@.take(j + 1)));
                assert(chosen@.contains(c));
                lemma_push_contains(a0[id as int]@, c);
                lemma_push_contains(a0[c as int]@, id);
                assert forall|p: int| 0 <= p < n && p != id implies (#[trigger] adj@[p])@ == s0[p]@ || (
                adj@[p]@ == s0[p]@.push(id) && chosen@.contains(p as usize)) by {
                    if p == c {
                        if a0[id as int]@.contains(c) {
                        } else {
                            if a0[c as int]@ != s0[c as int]@ {
                                assert(a0[c as int]@[s0[c as int]@.len() as int] == id);
                                assert(a0[c as int]@.contains(id));
                                assert(a0[id as int]@.contains(c));
                            }
                        }
                    } else {
                        assert(adj@[p] == a0[p]);
                    }
                }
                assert forall|p: int, q: usize| 0 <= p < n && #[trigger] adj@[p]@.contains(q) implies s0[p]@.contains(
                    q,
                ) || joined(chosen@, id, p, q) by {
                    if p != id && p != c {
                        assert(adj@[p] == a0[p]);
                    }
                    if !a0[p]@.contains(q) {
                        assert(p == id || p == c);
                    }
                }
            }
        } else {
            proof {
                assert forall|p: int| 0 <= p < n implies lists(adj@)[p] == joined_lists(
                    lists(s0),
                    id,
                    chosen@.take(j + 1),
                )[p] by {
                    assert(lists(a0)[p] == a0[p]@);
                }
                assert(lists(adj@) =~= joined_lists(lists(s0), id, chosen@.take(j + 1)));
            }
        }
        j = j + 1;
    }
    let ghost joined_up = lists(adj@);
    proof {
        assert(chosen@.take(chosen@.len() as int) == chosen@);
        assert(chosen@.take(0).len() == 0);
    }
    proof {
        assert forall|p: int| 0 <= p < n implies (#[trigger] adj@[p])@.len() <= max_neighbors
            || adj@[p]@.len() <= s0[p]@.len() || chosen@.skip(0).contains(p as usize) by {
            assert(chosen@.skip(0) == chosen@);
        }
    }
    let mut j: usize = 0;
    while j < chosen.len()
        invariant
            j <= chosen@.len(),
            layer_wf(adj@),
            adj@.len() == n,
            s0.len() == n,
            n == points@.len(),
            id < n,
            max_neighbors >= 1,
            uniform(points@, points@[id as int]@.len()),
            forall|i: int| 0 <= i < chosen@.len() ==> (#[trigger] chosen@[i]) < n,
            lists(adj@) == pruned_each(points@, joined_up, chosen@.take(j as int), max_neighbors),
            forall|p: int|
                0 <= p < n ==> (#[trigger] adj@[p])@.len() <= max_neighbors || adj@[p]@.len()
                    <= s0[p]@.len() || chosen@.skip(j as int).contains(p as usize),
            forall|p: int, q: usize|
                0 <= p < n && #[trigger] adj@[p]@.contains(q) ==> s0[p]@.contains(q) || joined(
                    chosen@,
                    id,
                    p,
                    q,
                ),
        decreases chosen@.len() - j,
    {
        let c = chosen[j];
        let ghost a0 = adj@;
        proof {
            assert(chosen@.take(j + 1).drop_last() == chosen@.take(j as int));
            assert(chosen@.take(j + 1).last() == c);
            assert(lists(a0)[c as int] == a0[c as int]@);
        }
        if adj[c].len() > max_neighbors {
            prune(adj, points, c, max_neighbors);
        }
        proof {
            assert forall|p: int| 0 <= p < n implies (#[trigger] adj@[p])@.len() <= max_neighbors
                || adj@[p]@.len() <= s0[p]@.len() || chosen@.skip(j + 1).contains(p as usize) by {
                assert(adj@[p]@.len() <= a0[p]@.len() || p == c);
                if p != c && chosen@.skip(j as int).contains(p as usize) {
                    let w = choose|w: int|
                        0 <= w < chosen@.skip(j as int).len() && chosen@.skip(j as int)[w]
                            == p as usize;
                    assert(w > 0);
                    assert(chosen@.skip(j + 1)[w - 1] == p as usize);
                }
            }
        }
        j = j + 1;
    }
    proof {
        assert forall|p: int| 0 <= p < n implies (#[trigger] adj@[p])@.len() <= max_neighbors
            || adj@[p]@.len() <= s0[p]@.len() by {
            assert(chosen@.skip(chosen@.len() as int).len() == 0);
        }
        assert(chosen@.take(chosen@.len() as int) == chosen@);
    }
}

} // verus!
