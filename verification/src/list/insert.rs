//! Insertion: a new node is linked in behind its predecessors, level by level.

use crate::chain::lemma_level_passed;
use crate::chain::lemma_level_spliced;
use crate::chain::lemma_next_pos;
use crate::chain::link_to;
use crate::chain::next_pos;
use crate::chain::shift;
use crate::level::pick_level;
use crate::list::List;
use crate::model::inserted;
use crate::model::lemma_insert_ascending;
use crate::model::lemma_rank_splits;
use crate::model::rank;
use vstd::prelude::*;

verus! {

impl<T> List<T> {
    /// Level `i` after the node `id`, of a height `h` above `i`, was linked
    /// in at position `k` behind its predecessor `u`.
    proof fn lemma_spliced(
        &self,
        before: &Self,
        ids: Seq<usize>,
        hs: Seq<nat>,
        i: int,
        k: int,
        u: int,
        id: usize,
        h: nat,
    )
        requires
            ids.len() == hs.len(),
            0 <= k <= hs.len(),
            -1 <= u < k,
            u >= 0 ==> hs[u] > i,
            forall|r: int| u < r < k ==> hs[r] <= i,
            0 <= i < h,
            before.shifted_ok(i, k, ids, hs),
            self.order@ == ids.insert(k, id),
            self.heights() == hs.insert(k, h),
            self.link(i, k) == before.link(i, u),
            self.link(i, u) == Some(id),
            forall|p: int|
                -1 <= p <= hs.len() && p != k && p != u ==> #[trigger] self.link(i, p)
                    == before.link(i, p),
        ensures
            self.level_ok(i),
    {
        let f = |p: int| before.link(i, shift(k, p));
        let g = |p: int| self.link(i, p);
        assert forall|p: int| -1 <= p < hs.len() && (p >= 0 ==> hs[p] > i) implies #[trigger] f(p)
            == link_to(ids, next_pos(hs, i, p)) by {
            assert(f(p) == before.link(i, shift(k, p)));
        }
        assert(f(u) == before.link(i, shift(k, u)));
        assert forall|p: int| -1 <= p < k && p != u implies #[trigger] g(p) == f(p) by {
            assert(g(p) == self.link(i, p));
            assert(f(p) == before.link(i, shift(k, p)));
        }
        assert forall|p: int| k <= p < hs.len() implies g(p + 1) == #[trigger] f(p) by {
            assert(g(p + 1) == self.link(i, p + 1));
            assert(f(p) == before.link(i, shift(k, p)));
        }
        lemma_level_spliced(f, g, ids, hs, i, k, u, id, h);
        assert forall|p: int|
            -1 <= p < self.order@.len() && (p >= 0 ==> self.heights()[p]
                > i) implies #[trigger] self.link(i, p) == link_to(
            self.order@,
            next_pos(self.heights(), i, p),
        ) by {
            assert(g(p) == self.link(i, p));
        }
    }

    /// Level `i` after a node of a height `h` not above `i` was put in at
    /// position `k`.
    proof fn lemma_passed(&self, ids: Seq<usize>, hs: Seq<nat>, i: int, k: int, id: usize, h: nat)
        requires
            ids.len() == hs.len(),
            0 <= k <= hs.len(),
            h <= i,
            self.shifted_ok(i, k, ids, hs),
            self.order@ == ids.insert(k, id),
            self.heights() == hs.insert(k, h),
        ensures
            self.level_ok(i),
    {
        let f = |p: int| self.link(i, shift(k, p));
        let g = |p: int| self.link(i, p);
        assert forall|p: int| -1 <= p < hs.len() && (p >= 0 ==> hs[p] > i) implies #[trigger] f(p)
            == link_to(ids, next_pos(hs, i, p)) by {
            assert(f(p) == self.link(i, shift(k, p)));
        }
        assert forall|p: int| -1 <= p < k implies #[trigger] g(p) == f(p) by {
            assert(f(p) == self.link(i, shift(k, p)));
        }
        assert forall|p: int| k <= p < hs.len() implies g(p + 1) == #[trigger] f(p) by {
            assert(f(p) == self.link(i, shift(k, p)));
        }
        lemma_level_passed(f, g, ids, hs, i, k, id, h);
        assert forall|p: int|
            -1 <= p < self.order@.len() && (p >= 0 ==> self.heights()[p]
                > i) implies #[trigger] self.link(i, p) == link_to(
            self.order@,
            next_pos(self.heights(), i, p),
        ) by {
            assert(g(p) == self.link(i, p));
        }
    }
}

impl<T: PartialOrd> List<T> {
    /// Adds empty levels on top until the list has `height` of them, with
    /// the head as the predecessor at each new level.
    fn raise(
        &mut self,
        update: &mut Vec<Option<usize>>,
        Ghost(at): Ghost<Seq<int>>,
        Ghost(k): Ghost<int>,
        height: usize,
    ) -> (more: Ghost<Seq<int>>)
        requires
            old(self).wf_core(),
            old(self).preds_ok(old(update)@, at, k),
            0 <= k <= old(self).order@.len(),
        ensures
            final(self).wf_core(),
            final(self).store == old(self).store,
            final(self).order == old(self).order,
            final(self).head@.len() == if height > old(self).head@.len() {
                height as nat
            } else {
                old(self).head@.len()
            },
            final(self).head@.subrange(0, old(self).head@.len() as int) == old(self).head@,
            final(self).preds_ok(final(update)@, more@, k),
    {
        let ghost mut at = at;
        while self.head.len() < height
            invariant
                self.wf_core(),
                self.store == old(self).store,
                self.order == old(self).order,
                self.head@.len() >= old(self).head@.len(),
                self.head@.len() <= height || self.head@.len() == old(self).head@.len(),
                self.head@.subrange(0, old(self).head@.len() as int) == old(self).head@,
                self.preds_ok(update@, at, k),
                0 <= k <= self.order@.len(),
            decreases height - self.head@.len(),
        {
            let ghost before = *self;
            let ghost before_update = update@;
            let ghost before_at = at;
            let ghost top = self.head@.len() as int;
            self.head.push(None);
            update.push(None);
            proof {
                at = at.push(-1);
                assert(self.heights() == before.heights());
                assert(self@ == before@);
                assert forall|j: int| 0 <= j < self.head@.len() implies self.level_ok(j) by {
                    if j < top {
                        assert(before.level_ok(j));
                        assert forall|p: int|
                            -1 <= p < self.order@.len() && (p >= 0 ==> self.heights()[p]
                                > j) implies #[trigger] self.link(j, p) == link_to(
                            self.order@,
                            next_pos(self.heights(), j, p),
                        ) by {
                            assert(self.link(j, p) == before.link(j, p));
                        }
                    } else {
                        lemma_next_pos(self.heights(), j, -1);
                        let q = next_pos(self.heights(), j, -1);
                        if q < self.order@.len() {
                            assert(self.heights()[q] <= top);
                        }
                    }
                }
                assert forall|j: int| 0 <= j < self.head@.len() implies self.pred_ok(
                    j,
                    update@[j],
                    #[trigger] at[j],
                    k,
                ) by {
                    if j < top {
                        assert(before.pred_ok(j, before_update[j], before_at[j], k));
                    } else {
                        assert forall|r: int| -1 < r < k implies #[trigger] self.heights()[r]
                            <= j by {}
                    }
                }
                assert(self.head@.subrange(0, old(self).head@.len() as int) =~= old(self).head@);
            }
        }
        Ghost(at)
    }

    /// Links a new node that holds `elem` and has `height` levels behind
    /// the predecessors `update`, which a search for `elem` has found.
    fn splice(
        &mut self,
        update: Vec<Option<usize>>,
        Ghost(at): Ghost<Seq<int>>,
        elem: T,
        height: usize,
    )
        requires
            old(self).wf(),
            old(self).preds_ok(update@, at, rank(old(self)@, elem)),
            !old(self)@.contains(elem),
            height >= 1,
        ensures
            final(self).wf(),
            final(self)@ == old(self)@.insert(rank(old(self)@, elem), elem),
            final(self).heights() == old(self).heights().insert(
                rank(old(self)@, elem),
                height as nat,
            ),
            final(self).spec_height() == if height > old(self).spec_height() {
                height as nat
            } else {
                old(self).spec_height()
            },
    {
        let ghost k = rank(self@, elem);
        let ghost e = elem;
        proof {
            lemma_rank_splits(self@, elem);
            lemma_insert_ascending(self@, elem);
        }
        let mut update = update;
        let Ghost(at) = self.raise(&mut update, Ghost(at), Ghost(k), height);
        let ghost mid = *self;
        let ghost ids = self.order@;
        let ghost hs = self.heights();
        let id = self.store.allocate(elem, height);
        self.order = Ghost(ids.insert(k, id));
        let ghost ids2 = ids.insert(k, id);
        let ghost hs2 = hs.insert(k, height as nat);
        let ghost view2 = mid@.insert(k, e);
        proof {
            assert(!ids.contains(id));
            assert(self.heights() =~= hs2);
            assert(self@ =~= view2);
            assert(self.order@.no_duplicates()) by {
                assert forall|a: int, b: int|
                    0 <= a < ids2.len() && 0 <= b < ids2.len() && a != b implies ids2[a]
                    != ids2[b] by {
                    let a0 = if a < k { a } else { a - 1 };
                    let b0 = if b < k { b } else { b - 1 };
                    if a != k && b != k {
                        assert(ids2[a] == ids[a0] && ids2[b] == ids[b0]);
                    } else if a == k {
                        assert(ids.contains(ids[b0]));
                    } else {
                        assert(ids.contains(ids[a0]));
                    }
                }
            }
            assert forall|x: usize| #[trigger]
                self.store@.dom().contains(x) implies self.order@.contains(x) by {
                if x == id {
                    assert(ids2[k] == id);
                } else {
                    assert(ids.contains(x));
                    let p = choose|p: int| 0 <= p < ids.len() && ids[p] == x;
                    assert(ids2[shift(k, p)] == x);
                }
            }
            assert forall|p: int| 0 <= p < self.order@.len() implies self.store@.dom().contains(
                #[trigger] self.order@[p],
            ) by {
                if p != k {
                    let p0 = if p < k { p } else { p - 1 };
                    assert(ids2[p] == ids[p0]);
                }
            }
            assert forall|j: int| 0 <= j < self.head@.len() implies self.shifted_ok(
                j,
                k,
                ids,
                hs,
            ) by {
                assert(mid.level_ok(j));
                assert forall|p: int|
                    -1 <= p < hs.len() && (p >= 0 ==> hs[p] > j) implies #[trigger] self.link(
                    j,
                    shift(k, p),
                ) == link_to(ids, next_pos(hs, j, p)) by {
                    assert(self.link(j, shift(k, p)) == mid.link(j, p));
                }
            }
        }
        let mut i: usize = 0;
        while i < height
            invariant
                0 <= i <= height <= self.head@.len(),
                self.store.wf(),
                self.head@.len() == mid.head@.len(),
                self.order@ == ids2,
                self.heights() == hs2,
                self@ == view2,
                self.order_ok(),
                ids2 == ids.insert(k, id),
                hs2 == hs.insert(k, height as nat),
                ids.len() == hs.len(),
                0 <= k <= ids.len(),
                mid.order@ == ids,
                mid.heights() == hs,
                mid.preds_ok(update@, at, k),
                forall|j: int| 0 <= j < i ==> self.level_ok(j),
                forall|j: int| i <= j < self.head@.len() ==> self.shifted_ok(j, k, ids, hs),
            decreases height - i,
        {
            let ghost before = *self;
            let ghost u = at[i as int];
            assert(mid.pred_ok(i as int, update@[i as int], u, k));
            let pred = update[i];
            proof {
                if u >= 0 {
                    assert(ids2[u] == ids[u]);
                    assert(self.heights()[u] == hs[u]);
                }
                assert(ids2[k] == id);
                assert(self.heights()[k] == height);
            }
            let nxt = self.forward(pred, i);
            assert(nxt == before.link(i as int, u));
            self.store.set_next(id, i, nxt);
            self.set_forward(pred, i, Some(id));
            proof {
                assert(self.heights() =~= hs2);
                assert(self@ =~= view2);
                assert(self.store@.dom() =~= before.store@.dom());
                assert(self.link(i as int, k) == before.link(i as int, u));
                assert(self.link(i as int, u) == Some(id));
                assert forall|p: int|
                    -1 <= p <= hs.len() && p != k && p != u implies #[trigger] self.link(
                    i as int,
                    p,
                ) == before.link(i as int, p) by {
                    if p >= 0 {
                        assert(ids2[p] != ids2[k]);
                        if u >= 0 {
                            assert(ids2[p] != ids2[u]);
                        }
                    }
                }
                self.lemma_spliced(&before, ids, hs, i as int, k, u, id, height as nat);
                assert forall|j: int| 0 <= j < i implies self.level_ok(j) by {
                    assert(before.level_ok(j));
                    assert forall|p: int|
                        -1 <= p < self.order@.len() && (p >= 0 ==> self.heights()[p]
                            > j) implies #[trigger] self.link(j, p) == link_to(
                        self.order@,
                        next_pos(self.heights(), j, p),
                    ) by {
                        assert(self.link(j, p) == before.link(j, p));
                    }
                }
                assert forall|j: int| i < j < self.head@.len() implies self.shifted_ok(
                    j,
                    k,
                    ids,
                    hs,
                ) by {
                    assert(before.shifted_ok(j, k, ids, hs));
                    assert forall|p: int|
                        -1 <= p < hs.len() && (p >= 0 ==> hs[p] > j) implies #[trigger] self.link(
                        j,
                        shift(k, p),
                    ) == link_to(ids, next_pos(hs, j, p)) by {
                        let p2 = shift(k, p);
                        if p2 >= 0 {
                            assert(self.heights()[p2] == hs[p]);
                        }
                        assert(self.link(j, p2) == before.link(j, p2));
                    }
                }
            }
            i += 1;
        }
        proof {
            assert forall|j: int| 0 <= j < self.head@.len() implies self.level_ok(j) by {
                if j >= height {
                    self.lemma_passed(ids, hs, j, k, id, height as nat);
                }
            }
            assert forall|p: int| 0 <= p < self.order@.len() implies 1 <= (
            #[trigger] self.heights()[p]) <= self.head@.len() by {
                if p != k {
                    let p0 = if p < k { p } else { p - 1 };
                    assert(hs2[p] == hs[p0]);
                    assert(1 <= mid.heights()[p0] <= mid.head@.len());
                }
            }
            let top = self.head@.len() - 1;
            if top > 0 {
                assert(self.level_ok(top));
                lemma_next_pos(hs2, top, -1);
                if height > old(self).head@.len() {
                    assert(hs2[k] > top);
                } else {
                    assert(old(self).head@[top].is_some());
                    assert(old(self).level_ok(top));
                    assert(old(self).link(top, -1) == link_to(
                        old(self).order@,
                        next_pos(old(self).heights(), top, -1),
                    ));
                    lemma_next_pos(hs, top, -1);
                    let q = next_pos(hs, top, -1);
                    assert(hs2[shift(k, q)] == hs[q]);
                }
                assert(self.link(top, -1) == link_to(ids2, next_pos(hs2, top, -1)));
            }
        }
    }

    /// Inserts `elem` with a node of `height` levels, unless the list
    /// holds it already; tells whether it was inserted.
    ///
    /// The element takes its place in the ascending order; a height above
    /// that of the list raises the list to it.
    pub fn insert_with_height(&mut self, elem: T, height: usize) -> (added: bool)
        requires
            old(self).wf(),
            height >= 1,
        ensures
            final(self).wf(),
            added == !old(self)@.contains(elem),
            final(self)@ == inserted(old(self)@, elem),
            !added ==> *final(self) == *old(self),
            added ==> final(self).heights() == old(self).heights().insert(
                rank(old(self)@, elem),
                height as nat,
            ),
            added ==> final(self).spec_height() == if height > old(self).spec_height() {
                height as nat
            } else {
                old(self).spec_height()
            },
    {
        let (update, found, at) = self.search(&elem);
        if found {
            return false;
        }
        self.splice(update, at, elem, height);
        true
    }

    /// Inserts `elem`, unless the list holds it already; tells whether it
    /// was inserted.
    ///
    /// The height of the new node is drawn by `pick_level`: it is at most
    /// one above the height of the list.
    pub fn insert(&mut self, elem: T) -> (added: bool)
        requires
            old(self).wf(),
        ensures
            final(self).wf(),
            added == !old(self)@.contains(elem),
            final(self)@ == inserted(old(self)@, elem),
            !added ==> *final(self) == *old(self),
            added ==> 1 <= final(self).heights()[rank(old(self)@, elem)] <= old(self).spec_height()
                + 1,
            added ==> final(self).heights() == old(self).heights().insert(
                rank(old(self)@, elem),
                final(self).heights()[rank(old(self)@, elem)],
            ),
            old(self).spec_height() <= final(self).spec_height() <= old(self).spec_height() + 1,
    {
        let (update, found, at) = self.search(&elem);
        if found {
            return false;
        }
        let height = pick_level(self.head.len());
        proof {
            lemma_rank_splits(self@, elem);
        }
        self.splice(update, at, elem, height);
        true
    }
}

} // verus!
