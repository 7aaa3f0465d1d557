//! Points ranked by their distance to a query, and the two ordered
//! containers that a layer search works with.
//!
//! Ties on the distance are broken by the point id, so the ranking is a
//! strict total order and every search is deterministic.

use vstd::prelude::*;

verus! {

/// A point id with its squared distance to the query at hand.
pub type Ranked = (usize, u128);

/// `a` ranks strictly before `b`: it is closer, or as close with a smaller id.
pub open spec fn key_lt(a: Ranked, b: Ranked) -> bool {
    a.1 < b.1 || (a.1 == b.1 && a.0 < b.0)
}

/// Strictly ascending by rank; such a sequence holds no entry twice.
pub open spec fn ascending(s: Seq<Ranked>) -> bool {
    forall|i: int, j: int| 0 <= i < j < s.len() ==> key_lt(#[trigger] s[i], #[trigger] s[j])
}

/// No entry ranks before one that stands earlier.
pub open spec fn non_descending(s: Seq<Ranked>) -> bool {
    forall|i: int, j: int| 0 <= i < j < s.len() ==> !key_lt(#[trigger] s[j], #[trigger] s[i])
}

/// `pos` is the place of `x` in `s`: the entries before it rank before
/// `x`, the entry at it does not.
pub open spec fn is_place(s: Seq<Ranked>, x: Ranked, pos: int) -> bool {
    &&& 0 <= pos <= s.len()
    &&& forall|j: int| 0 <= j < pos ==> key_lt(#[trigger] s[j], x)
    &&& (pos < s.len() ==> !key_lt(s[pos], x))
}

/// The place of `x` in `s`: the number of leading entries that rank before `x`.
pub open spec fn place(s: Seq<Ranked>, x: Ranked) -> int {
    choose|pos: int| is_place(s, x, pos)
}

/// There is one place only, so a place that was found is `place`.
pub proof fn lemma_place_unique(s: Seq<Ranked>, x: Ranked, pos: int)
    requires
        is_place(s, x, pos),
    ensures
        pos == place(s, x),
{
    let other = place(s, x);
    assert(is_place(s, x, other));
    if other < pos {
        assert(key_lt(s[other], x));
    } else if pos < other {
        assert(key_lt(s[pos], x));
    }
}

/// `s` with `x` queued at its place.
pub open spec fn queued(s: Seq<Ranked>, x: Ranked) -> Seq<Ranked> {
    s.insert(place(s, x), x)
}

/// `s`, which keeps up to `cap` entries, once `x` was offered to it: `x`
/// goes to its place unless it stands there already or the place lies
/// behind a full list; an entry pushed beyond `cap` is dropped.
pub open spec fn offered(s: Seq<Ranked>, x: Ranked, cap: usize) -> Seq<Ranked> {
    let pos = place(s, x);
    if pos < s.len() && s[pos] == x {
        s
    } else if pos == cap {
        s
    } else if s.len() + 1 > cap {
        s.insert(pos, x).drop_last()
    } else {
        s.insert(pos, x)
    }
}

/// What an insertion does to membership.
pub proof fn lemma_insert_contains(s: Seq<Ranked>, pos: int, x: Ranked)
    requires
        0 <= pos <= s.len(),
    ensures
        s.insert(pos, x).contains(x),
        forall|y: Ranked| #[trigger] s.contains(y) ==> s.insert(pos, x).contains(y),
        forall|y: Ranked| #[trigger] s.insert(pos, x).contains(y) ==> s.contains(y) || y == x,
{
    let s1 = s.insert(pos, x);
    s.insert_ensures(pos, x);
    assert(s1[pos] == x);
    assert forall|y: Ranked| #[trigger] s.contains(y) implies s1.contains(y) by {
        let k = choose|k: int| 0 <= k < s.len() && s[k] == y;
        if k < pos {
            assert(s1[k] == y);
        } else {
            assert(s1[k + 1] == s[k]);
        }
    }
    assert forall|y: Ranked| #[trigger] s1.contains(y) implies s.contains(y) || y == x by {
        let k = choose|k: int| 0 <= k < s1.len() && s1[k] == y;
        if k < pos {
            assert(s1[k] == s[k]);
        } else if k > pos {
            assert(s1[k] == s[k - 1]);
        }
    }
}

/// What taking the first entry out does to membership.
pub proof fn lemma_remove_first_contains(s: Seq<Ranked>)
    requires
        s.len() > 0,
    ensures
        forall|y: Ranked| #[trigger] s.contains(y) ==> y == s[0] || s.remove(0).contains(y),
        forall|y: Ranked| #[trigger] s.remove(0).contains(y) ==> s.contains(y),
        forall|k: int| 0 <= k < s.len() - 1 ==> #[trigger] s.remove(0)[k] == s[k + 1],
{
    let s1 = s.remove(0);
    s.remove_ensures(0);
    assert forall|k: int| 0 <= k < s.len() - 1 implies #[trigger] s1[k] == s[k + 1] by {}
    assert forall|y: Ranked| #[trigger] s.contains(y) implies y == s[0] || s1.contains(y) by {
        let k = choose|k: int| 0 <= k < s.len() && s[k] == y;
        if k > 0 {
            assert(s1[k - 1] == s[k]);
        }
    }
    assert forall|y: Ranked| #[trigger] s1.contains(y) implies s.contains(y) by {
        let k = choose|k: int| 0 <= k < s1.len() && s1[k] == y;
        assert(s1[k] == s[k + 1]);
    }
}

/// Decides `key_lt`.
pub fn key_less(a: Ranked, b: Ranked) -> (r: bool)
    ensures
        r == key_lt(a, b),
{
    a.1 < b.1 || (a.1 == b.1 && a.0 < b.0)
}

/// The number of leading entries of `v` that rank strictly before `x`.
fn lower_bound(v: &Vec<Ranked>, x: Ranked) -> (pos: usize)
    ensures
        pos <= v.len(),
        forall|j: int| 0 <= j < pos ==> key_lt(#[trigger] v@[j], x),
        pos < v.len() ==> !key_lt(v@[pos as int], x),
        pos == place(v@, x),
{
    let mut pos: usize = 0;
    while pos < v.len() && key_less(v[pos], x)
        invariant
            pos <= v.len(),
            forall|j: int| 0 <= j < pos ==> key_lt(#[trigger] v@[j], x),
        decreases v.len() - pos,
    {
        pos = pos + 1;
    }
    proof {
        lemma_place_unique(v@, x, pos as int);
    }
    pos
}

/// A min-first priority queue of ranked points.
pub struct SimpleQueue {
    pub queue: Vec<Ranked>,
}

impl SimpleQueue {
    /// The queued entries, best first.
    pub open spec fn view(&self) -> Seq<Ranked> {
        self.queue@
    }

    /// The entries stand in rank order.
    pub open spec fn wf(&self) -> bool {
        non_descending(self.queue@)
    }

    /// An empty queue.
    pub fn new() -> (q: SimpleQueue)
        ensures
            q@ == Seq::<Ranked>::empty(),
            q.wf(),
    {
        SimpleQueue { queue: Vec::new() }
    }

    /// Queues `item` behind the entries that rank before it, and returns
    /// the place it took.
    pub fn add(&mut self, item: Ranked) -> (pos: usize)
        requires
            old(self).wf(),
        ensures
            final(self).wf(),
            pos == place(old(self)@, item),
            pos <= old(self)@.len(),
            final(self)@ == queued(old(self)@, item),
    {
        let pos = lower_bound(&self.queue, item);
        proof {
            self.queue@.insert_ensures(pos as int, item);
        }
        self.queue.insert(pos, item);
        proof {
            let s0 = old(self).queue@;
            let s1 = self.queue@;
            assert forall|i: int, j: int| 0 <= i < j < s1.len() implies !key_lt(
                #[trigger] s1[j],
                #[trigger] s1[i],
            ) by {
                if j < pos {
                } else if j == pos {
                    assert(s1[i] == s0[i]);
                } else {
                    assert(s1[j] == s0[j - 1]);
                    if i < pos {
                        assert(s1[i] == s0[i]);
                    } else if i == pos {
                        assert(!key_lt(s0[pos as int], item));
                        assert(!key_lt(s0[j - 1], s0[pos as int]) || j - 1 == pos);
                    } else {
                        assert(s1[i] == s0[i - 1]);
                    }
                }
            }
        }
        pos
    }

    /// Takes the best entry out; `None` on an empty queue.
    pub fn pop(&mut self) -> (best: Option<Ranked>)
        requires
            old(self).wf(),
        ensures
            final(self).wf(),
            old(self)@.len() == 0 ==> best.is_none() && final(self)@ == old(self)@,
            old(self)@.len() > 0 ==> best == Some(old(self)@[0]) && final(self)@ == old(self)@.remove(
                0,
            ),
    {
        if self.queue.len() == 0 {
            None
        } else {
            proof {
                self.queue@.remove_ensures(0);
            }
            let best = self.queue.remove(0);
            Some(best)
        }
    }

    /// Whether nothing is queued.
    pub fn is_empty(&self) -> (r: bool)
        ensures
            r == (self@.len() == 0),
    {
        self.queue.len() == 0
    }
}

/// The best entries seen so far, at most `cap` of them, in ascending rank.
pub struct BestList {
    pub items: Vec<Ranked>,
    pub cap: usize,
}

impl BestList {
    /// The kept entries, best first.
    pub open spec fn view(&self) -> Seq<Ranked> {
        self.items@
    }

    /// Strictly ascending, within the capacity, which is at least one.
    pub open spec fn wf(&self) -> bool {
        &&& ascending(self.items@)
        &&& self.items@.len() <= self.cap
        &&& self.cap >= 1
    }

    /// The list is full and `y` ranks behind its worst entry.
    pub open spec fn excludes(&self, y: Ranked) -> bool {
        self.items@.len() == self.cap && key_lt(self.items@.last(), y)
    }

    /// `y` is kept, or was beaten by `cap` better entries.
    pub open spec fn accounts_for(&self, y: Ranked) -> bool {
        self.items@.contains(y) || self.excludes(y)
    }

    /// An empty list that keeps up to `cap` entries.
    pub fn new(cap: usize) -> (b: BestList)
        requires
            cap >= 1,
        ensures
            b.wf(),
            b.cap == cap,
            b@ == Seq::<Ranked>::empty(),
    {
        BestList { items: Vec::new(), cap }
    }

    /// The worst kept entry; `None` on an empty list.
    pub fn worst(&self) -> (w: Option<Ranked>)
        ensures
            self@.len() == 0 ==> w.is_none(),
            self@.len() > 0 ==> w == Some(self@.last()),
    {
        let n = self.items.len();
        if n == 0 {
            None
        } else {
            Some(self.items[n - 1])
        }
    }

    /// Offers `x` to the list: afterwards the list holds the `cap` best of
    /// its former entries and `x`. An entry that is already kept is not
    /// kept twice.
    pub fn offer(&mut self, x: Ranked)
        requires
            old(self).wf(),
        ensures
            final(self).wf(),
            final(self).cap == old(self).cap,
            final(self)@ == offered(old(self)@, x, old(self).cap),
            final(self)@.len() >= old(self)@.len(),
            forall|y: Ranked| #[trigger]
                final(self)@.contains(y) ==> old(self)@.contains(y) || y == x,
            final(self).accounts_for(x),
            forall|y: Ranked| #[trigger]
                old(self)@.contains(y) ==> final(self).accounts_for(y),
            forall|y: Ranked| #[trigger] old(self).excludes(y) ==> final(self).excludes(y),
    {
        let pos = lower_bound(&self.items, x);
        let n = self.items.len();
        let ghost s0 = self.items@;
        if pos < n && self.items[pos].0 == x.0 && self.items[pos].1 == x.1 {
            assert(s0[pos as int] == x);
            return ;
        }
        if pos == self.cap {
            return ;
        }
        proof {
            s0.insert_ensures(pos as int, x);
        }
        self.items.insert(pos, x);
        let ghost s1 = self.items@;
        proof {
            assert forall|i: int, j: int| 0 <= i < j < s1.len() implies key_lt(
                #[trigger] s1[i],
                #[trigger] s1[j],
            ) by {
                if j < pos {
                } else if j == pos {
                    assert(s1[i] == s0[i]);
                } else {
                    assert(s1[j] == s0[j - 1]);
                    assert(!key_lt(s0[pos as int], x));
                    assert(s0[pos as int] != x);
                    assert(key_lt(x, s0[pos as int]));
                    assert(j - 1 == pos || key_lt(s0[pos as int], s0[j - 1]));
                    if i < pos {
                        assert(s1[i] == s0[i]);
                    } else if i == pos {
                    } else {
                        assert(s1[i] == s0[i - 1]);
                    }
                }
            }
            assert(s1[pos as int] == x);
            assert forall|y: Ranked| #[trigger] s0.contains(y) implies s1.contains(y) by {
                let k = choose|k: int| 0 <= k < s0.len() && s0[k] == y;
                if k < pos {
                    assert(s1[k] == y);
                } else {
                    assert(s1[k + 1] == s0[k]);
                }
            }
            assert forall|y: Ranked| #[trigger] s1.contains(y) implies s0.contains(y) || y == x by {
                let k = choose|k: int| 0 <= k < s1.len() && s1[k] == y;
                if k < pos {
                    assert(s1[k] == s0[k]);
                } else if k > pos {
                    assert(s1[k] == s0[k - 1]);
                }
            }
        }
        if self.items.len() > self.cap {
            self.items.pop();
            proof {
                let s2 = self.items@;
                let c = self.cap as int;
                assert(s1.len() == c + 1);
                assert(s2 == s1.subrange(0, c));
                assert(s2 =~= s1.drop_last());
                assert(forall|i: int| 0 <= i < c ==> s2[i] == s1[i]);
                assert(s2.last() == s1[c - 1]);
                assert(key_lt(s1[c - 1], s1[c]));
                assert forall|y: Ranked| #[trigger] s1.contains(y) implies s2.contains(y) || (
                key_lt(s2.last(), y)) by {
                    let k = choose|k: int| 0 <= k < s1.len() && s1[k] == y;
                    if k < c {
                        assert(s2[k] == y);
                    }
                }
                assert forall|y: Ranked| #[trigger] s2.contains(y) implies s1.contains(y) by {
                    let k = choose|k: int| 0 <= k < s2.len() && s2[k] == y;
                    assert(s1[k] == y);
                }
                assert(pos < c);
                assert(s1[c] == s0[c - 1]);
                assert(s1.contains(x));
            }
        } else {
            proof {
                assert(s1.contains(x));
            }
        }
    }
}

} // verus!
