//! Removal: a node is unlinked from its predecessors, level by level, and freed.

use crate::chain::lemma_level_left;
use crate::chain::lemma_level_unspliced;
use crate::chain::lemma_next_pos;
use crate::chain::lemma_next_pos_unique;
use crate::chain::link_to;
use crate::chain::next_pos;
use crate::chain::shift;
use crate::list::List;
use crate::model::lemma_rank_finds;
use crate::model::lemma_remove_ascending;
use crate::model::rank;
use crate::model::removed;
use vstd::prelude::*;

verus! {

impl<T> List<T> {
    /// Level `i` after the node at position `k`, of a height above `i`, was
    /// unlinked from its predecessor `u`.
    proof fn lemma_unspliced(&self, before: &Self, i: int, k: int, u: int)
        requires
            before.order@.len() == before.heights().len(),
            0 <= k < before.order@.len(),
            before.heights()[k] > i,
            -1 <= u < k,
            u >= 0 ==> before.heights()[u] > i,
            forall|r: int| u < r < k ==> before.heights()[r] <= i,
            before.level_ok(i),
            self.link(i, u) == before.link(i, k),
            forall|p: int|
                -1 <= p < before.order@.len() && p != k && p != u ==> #[trigger] self.link(i, p)
                    == before.link(i, p),
        ensures
            self.shifted_ok(i, k, before.order@.remove(k), before.heights().remove(k)),
    {
        let ids = before.order@;
        let hs = before.heights();
        let f = |p: int| before.link(i, p);
        let g = |p: int| self.link(i, shift(k, p));
        assert forall|p: int| -1 <= p < hs.len() && (p >= 0 ==> hs[p] > i) implies #[trigger] f(p)
            == link_to(ids, next_pos(hs, i, p)) by {
            assert(f(p) == before.link(i, p));
        }
        assert(g(u) == self.link(i, shift(k, u)));
        assert forall|p: int| -1 <= p < k && p != u implies #[trigger] g(p) == f(p) by {
            assert(g(p) == self.link(i, shift(k, p)));
        }
        assert forall|p: int| k < p < hs.len() implies g(p - 1) == #[trigger] f(p) by {
            assert(g(p - 1) == self.link(i, shift(k, p - 1)));
        }
        lemma_level_unspliced(f, g, ids, hs, i, k, u);
        let ids2 = ids.remove(k);
        let hs2 = hs.remove(k);
        assert forall|p: int|
            -1 <= p < hs2.len() && (p >= 0 ==> hs2[p] > i) implies #[trigger] self.link(
            i,
            shift(k, p),
        ) == link_to(ids2, next_pos(hs2, i, p)) by {
            assert(g(p) == self.link(i, shift(k, p)));
        }
    }

    /// Level `i` without the node at position `k`, of a height not above
    /// `i`.
    proof fn lemma_left(&self, i: int, k: int)
        requires
            self.order@.len() == self.heights().len(),
            0 <= k < self.order@.len(),
            self.heights()[k] <= i,
            self.level_ok(i),
        ensures
            self.shifted_ok(i, k, self.order@.remove(k), self.heights().remove(k)),
    {
        let ids = self.order@;
        let hs = self.heights();
        let f = |p: int| self.link(i, p);
        let g = |p: int| self.link(i, shift(k, p));
        assert forall|p: int| -1 <= p < hs.len() && (p >= 0 ==> hs[p] > i) implies #[trigger] f(p)
            == link_to(ids, next_pos(hs, i, p)) by {
            assert(f(p) == self.link(i, p));
        }
        assert forall|p: int| -1 <= p < k implies #[trigger] g(p) == f(p) by {
            assert(g(p) == self.link(i, shift(k, p)));
        }
        assert forall|p: int| k < p < hs.len() implies g(p - 1) == #[trigger] f(p) by {
            assert(g(p - 1) == self.link(i, shift(k, p - 1)));
        }
        lemma_level_left(f, g, ids, hs, i, k);
        let ids2 = ids.remove(k);
        let hs2 = hs.remove(k);
        assert forall|p: int|
            -1 <= p < hs2.len() && (p >= 0 ==> hs2[p] > i) implies #[trigger] self.link(
            i,
            shift(k, p),
        ) == link_to(ids2, next_pos(hs2, i, p)) by {
            assert(g(p) == self.link(i, shift(k, p)));
        }
    }
}

impl<T: PartialOrd> List<T> {
    /// Drops the empty levels from the top, down to the topmost level in
    /// use, or to a single level.
    fn lower(&mut self)
        requires
            old(self).wf_core(),
        ensures
            final(self).wf(),
            final(self).store == old(self).store,
            final(self).order == old(self).order,
            final(self).head@.len() <= old(self).head@.len(),
    {
        while self.head.len() > 1 && self.head[self.head.len() - 1].is_none()
            invariant
                self.wf_core(),
                self.store == old(self).store,
                self.order == old(self).order,
                self.head@.len() <= old(self).head@.len(),
            decreases self.head@.len(),
        {
            let ghost before = *self;
            let ghost top = self.head@.len() - 1;
            self.head.pop();
            proof {
                assert(self.heights() == before.heights());
                assert(self@ == before@);
                assert(before.level_ok(top));
                assert(before.link(top, -1) == link_to(
                    before.order@,
                    next_pos(before.heights(), top, -1),
                ));
                lemma_next_pos(before.heights(), top, -1);
                assert forall|j: int| 0 <= j < self.head@.len() implies self.level_ok(j) by {
                    assert(before.level_ok(j));
                    assert forall|p: int|
                        -1 <= p < self.order@.len() && (p >= 0 ==> self.heights()[p]
                            > j) implies #[trigger] self.link(j, p) == link_to(
                        self.order@,
                        next_pos(self.heights(), j, p),
                    ) by {
                        assert(self.link(j, p) == before.link(j, p));
                    }
                }
            }
        }
    }

    /// Unlinks and frees the node at position `k`, given its predecessors
    /// `update`, which a search for its element has found.
    fn unsplice(&mut self, update: Vec<Option<usize>>, Ghost(at): Ghost<Seq<int>>, Ghost(k): Ghost<int>)
        requires
            old(self).wf(),
            old(self).preds_ok(update@, at, k),
            0 <= k < old(self)@.len(),
        ensures
            final(self).wf(),
            final(self)@ == old(self)@.remove(k),
            final(self).heights() == old(self).heights().remove(k),
            final(self).spec_height() <= old(self).spec_height(),
    {
        let ghost ids = self.order@;
        let ghost hs = self.heights();
        let ghost view0 = self@;
        let ghost ids2 = ids.remove(k);
        let ghost hs2 = hs.remove(k);
        let ghost u0 = at[0];
        assert(self.pred_ok(0, update@[0], u0, k));
        assert(self.level_ok(0));
        proof {
            if u0 + 1 < k {
                assert(self.heights()[u0 + 1] <= 0);
            }
            lemma_next_pos_unique(hs, 0, u0, k);
            assert(self.link(0, u0) == link_to(ids, next_pos(hs, 0, u0)));
        }
        let first = self.forward(update[0], 0);
        let target = first.unwrap();
        assert(target == ids[k]);
        let levels = self.head.len();
        let mut i: usize = 0;
        while i < levels
            invariant
                0 <= i <= levels,
                levels == self.head@.len(),
                self.store.wf(),
                self.order@ == ids,
                self.heights() == hs,
                self@ == view0,
                self.order_ok(),
                ids.len() == hs.len(),
                0 <= k < ids.len(),
                target == ids[k],
                ids2 == ids.remove(k),
                hs2 == hs.remove(k),
                old(self).preds_ok(update@, at, k),
                old(self).head@.len() == levels,
                old(self).heights() == hs,
                old(self).order@ == ids,
                forall|j: int| 0 <= j < i ==> self.shifted_ok(j, k, ids2, hs2),
                forall|j: int| i <= j < levels ==> self.level_ok(j),
            decreases levels - i,
        {
            let ghost before = *self;
            let ghost u = at[i as int];
            assert(old(self).pred_ok(i as int, update@[i as int], u, k));
            assert(self.level_ok(i as int));
            let pred = update[i];
            proof {
                if u >= 0 {
                    assert(self.heights()[u] == hs[u]);
                }
                assert(self.link(i as int, u) == link_to(ids, next_pos(hs, i as int, u)));
                lemma_next_pos(hs, i as int, u);
                if hs[k] > i {
                    lemma_next_pos_unique(hs, i as int, u, k);
                }
            }
            let link = self.forward(pred, i);
            let hit = match link {
                Some(x) => x == target,
                None => false,
            };
            assert(hit == (hs[k] > i)) by {
                let q = next_pos(hs, i as int, u);
                if q < ids.len() && q != k {
                    assert(ids[q] != ids[k]);
                }
            }
            if hit {
                assert(self.heights()[k] == hs[k]);
                let nxt = self.store.next(target, i);
                self.set_forward(pred, i, nxt);
                proof {
                    assert(self.heights() =~= hs);
                    assert(self@ =~= view0);
                    assert(self.store@.dom() =~= before.store@.dom());
                    assert(self.link(i as int, u) == before.link(i as int, k));
                    assert forall|p: int|
                        -1 <= p < ids.len() && p != k && p != u implies #[trigger] self.link(
                        i as int,
                        p,
                    ) == before.link(i as int, p) by {
                        if p >= 0 && u >= 0 {
                            assert(ids[p] != ids[u]);
                        }
                    }
                    self.lemma_unspliced(&before, i as int, k, u);
                    assert forall|j: int| 0 <= j < i implies self.shifted_ok(j, k, ids2, hs2) by {
                        assert(before.shifted_ok(j, k, ids2, hs2));
                        assert forall|p: int|
                            -1 <= p < hs2.len() && (p >= 0 ==> hs2[p]
                                > j) implies #[trigger] self.link(j, shift(k, p)) == link_to(
                            ids2,
                            next_pos(hs2, j, p),
                        ) by {
                            let p2 = shift(k, p);
                            if p2 >= 0 {
                                assert(self.heights()[p2] == hs2[p]);
                            }
                            assert(self.link(j, p2) == before.link(j, p2));
                        }
                    }
                    assert forall|j: int| i < j < levels implies self.level_ok(j) by {
                        assert(before.level_ok(j));
                        assert forall|p: int|
                            -1 <= p < self.order@.len() && (p >= 0 ==> self.heights()[p]
                                > j) implies #[trigger] self.link(j, p) == link_to(
                            self.order@,
                            next_pos(self.heights(), j, p),
                        ) by {
                            assert(self.link(j, p) == before.link(j, p));
                        }
                    }
                }
            } else {
                proof {
                    self.lemma_left(i as int, k);
                }
            }
            i += 1;
        }
        let ghost linked = *self;
        self.store.release(target);
        self.order = Ghost(ids2);
        proof {
            assert(self.heights() =~= hs2) by {
                assert forall|p: int| 0 <= p < hs2.len() implies self.heights()[p] == hs2[p] by {
                    assert(ids2[p] == ids[shift(k, p)]);
                    assert(ids[shift(k, p)] != ids[k]);
                }
            }
            assert(self@ =~= view0.remove(k)) by {
                assert forall|p: int| 0 <= p < ids2.len() implies self@[p] == view0.remove(k)[p] by {
                    assert(ids2[p] == ids[shift(k, p)]);
                    assert(ids[shift(k, p)] != ids[k]);
                }
            }
            lemma_remove_ascending(view0, k);
            assert(self.order@.no_duplicates()) by {
                assert forall|a: int, b: int|
                    0 <= a < ids2.len() && 0 <= b < ids2.len() && a != b implies ids2[a]
                    != ids2[b] by {
                    assert(ids2[a] == ids[shift(k, a)] && ids2[b] == ids[shift(k, b)]);
                }
            }
            assert forall|x: usize| #[trigger]
                self.store@.dom().contains(x) implies self.order@.contains(x) by {
                assert(ids.contains(x));
                let p = choose|p: int| 0 <= p < ids.len() && ids[p] == x;
                let p2 = if p < k { p } else { p - 1 };
                assert(ids2[p2] == x);
            }
            assert forall|p: int| 0 <= p < self.order@.len() implies self.store@.dom().contains(
                #[trigger] self.order@[p],
            ) by {
                assert(ids2[p] == ids[shift(k, p)]);
                assert(ids[shift(k, p)] != ids[k]);
            }
            assert forall|p: int| 0 <= p < self.order@.len() implies 1 <= (
            #[trigger] self.heights()[p]) <= self.head@.len() by {
                assert(hs2[p] == hs[shift(k, p)]);
                assert(1 <= old(self).heights()[shift(k, p)] <= old(self).head@.len());
            }
            assert forall|j: int| 0 <= j < self.head@.len() implies self.level_ok(j) by {
                assert(linked.shifted_ok(j, k, ids2, hs2));
                assert forall|p: int|
                    -1 <= p < self.order@.len() && (p >= 0 ==> self.heights()[p]
                        > j) implies #[trigger] self.link(j, p) == link_to(
                    self.order@,
                    next_pos(self.heights(), j, p),
                ) by {
                    let p2 = shift(k, p);
                    if p >= 0 {
                        assert(ids2[p] == ids[p2]);
                        assert(ids[p2] != ids[k]);
                    }
                    assert(self.link(j, p) == linked.link(j, p2));
                }
            }
        }
        self.lower();
    }

    /// Removes `elem`, if the list holds it; tells whether it was removed.
    ///
    /// The list sinks to the height of its tallest remaining node.
    pub fn remove(&mut self, elem: &T) -> (taken: bool)
        requires
            old(self).wf(),
        ensures
            final(self).wf(),
            taken == old(self)@.contains(*elem),
            final(self)@ == removed(old(self)@, *elem),
            !taken ==> *final(self) == *old(self),
            taken ==> final(self).heights() == old(self).heights().remove(
                rank(old(self)@, *elem),
            ),
    {
        let (update, found, at) = self.search(elem);
        if !found {
            return false;
        }
        proof {
            lemma_rank_finds(self@, *elem);
        }
        self.unsplice(update, at, Ghost(rank(self@, *elem)));
        true
    }
}

} // verus!
