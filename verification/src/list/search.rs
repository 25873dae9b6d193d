//! The search that every other operation starts with.

use crate::chain::lemma_next_pos;
use crate::chain::link_to;
use crate::chain::next_pos;
use crate::list::List;
use crate::model::lemma_rank_finds;
use crate::model::lemma_rank_splits;
use crate::model::rank;
use crate::order::less;
use crate::order::lt;
use crate::order::same;
use vstd::prelude::*;

verus! {

impl<T: PartialOrd> List<T> {
    /// Finds, from the top level down, the last node below `target` at each
    /// level, and tells whether `target` is in the list.
    pub(super) fn search(&self, target: &T) -> (r: (Vec<Option<usize>>, bool, Ghost<Seq<int>>))
        requires
            self.wf_core(),
        ensures
            self.preds_ok(r.0@, r.2@, rank(self@, *target)),
            r.1 == self@.contains(*target),
    {
        let levels = self.head.len();
        let ghost k = rank(self@, *target);
        let ghost n = self.order@.len();
        proof {
            lemma_rank_splits(self@, *target);
        }
        let mut update: Vec<Option<usize>> = Vec::new();
        while update.len() < levels
            invariant
                update@.len() <= levels,
            decreases levels - update@.len(),
        {
            update.push(None);
        }
        let mut at: Ghost<Seq<int>> = Ghost(Seq::new(levels as nat, |i: int| -1int));
        let mut cur: Option<usize> = None;
        let mut pos: Ghost<int> = Ghost(-1);
        let mut i: usize = levels;
        while i > 0
            invariant
                self.wf_core(),
                levels == self.head@.len(),
                n == self.order@.len(),
                k == rank(self@, *target),
                0 <= k <= n,
                forall|j: int| 0 <= j < k ==> lt(#[trigger] self@[j], *target),
                forall|j: int| k <= j < n ==> !lt(#[trigger] self@[j], *target),
                0 <= i <= levels,
                update@.len() == levels,
                at@.len() == levels,
                -1 <= pos@ < k,
                cur == link_to(self.order@, pos@),
                pos@ >= 0 ==> self.heights()[pos@] >= i,
                forall|j: int|
                    i <= j < levels ==> self.pred_ok(j, update@[j], #[trigger] at@[j], k),
            decreases i,
        {
            i = i - 1;
            assert(self.level_ok(i as int));
            let mut nxt = self.forward(cur, i);
            assert(nxt == self.link(i as int, pos@));
            while nxt.is_some() && less(self.store.elem(nxt.unwrap()), target)
                invariant
                    self.wf_core(),
                    n == self.order@.len(),
                    0 <= k <= n,
                    forall|j: int| 0 <= j < k ==> lt(#[trigger] self@[j], *target),
                    forall|j: int| k <= j < n ==> !lt(#[trigger] self@[j], *target),
                    i < self.head@.len(),
                    self.level_ok(i as int),
                    -1 <= pos@ < k,
                    cur == link_to(self.order@, pos@),
                    pos@ >= 0 ==> self.heights()[pos@] > i,
                    nxt == link_to(self.order@, next_pos(self.heights(), i as int, pos@)),
                decreases n - pos@,
            {
                proof {
                    lemma_next_pos(self.heights(), i as int, pos@);
                    let q = next_pos(self.heights(), i as int, pos@);
                    assert(lt(self@[q], *target));
                    pos@ = q;
                }
                cur = nxt;
                nxt = self.forward(cur, i);
                assert(nxt == self.link(i as int, pos@));
            }
            proof {
                lemma_next_pos(self.heights(), i as int, pos@);
                let q = next_pos(self.heights(), i as int, pos@);
                if q < n {
                    assert(!lt(self@[q], *target));
                }
                assert(q >= k);
            }
            update[i] = cur;
            proof {
                at@ = at@.update(i as int, pos@);
            }
        }
        let ghost u = at@[0];
        assert(self.pred_ok(0, update@[0], u, k));
        assert(self.level_ok(0));
        let first = self.forward(update[0], 0);
        assert(first == self.link(0, u));
        proof {
            lemma_next_pos(self.heights(), 0, u);
        }
        let found = match first {
            Some(id) => same(self.store.elem(id), target),
            None => false,
        };
        proof {
            lemma_next_pos(self.heights(), 0, u);
            let q = next_pos(self.heights(), 0, u);
            if u + 1 < k {
                assert(self.heights()[u + 1] <= 0);
            }
            if u + 1 < q {
                assert(self.heights()[u + 1] <= 0);
            }
            assert(q == k);
            lemma_rank_finds(self@, *target);
        }
        (update, found, at)
    }
}

} // verus!
