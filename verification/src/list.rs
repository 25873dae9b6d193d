//! The skip list.

use crate::chain::lemma_next_pos;
use crate::chain::lemma_next_pos_unique;
use crate::chain::link_to;
use crate::chain::next_pos;
use crate::chain::shift;
use crate::laws::law_ascending_distinct;
use crate::laws::law_level_subsequence;
use crate::laws::law_levels_nested;
use crate::laws::law_max_height;
use crate::list::iter::IntoIter;
use crate::list::iter::Iter;
use crate::model::ascending;
use crate::model::embeds;
use crate::model::lemma_level_zero;
use crate::model::level_from;
use crate::model::max_height;
use crate::model::subsequence;
use crate::order::lt;
use crate::order::total_order;
use crate::store::NodeStore;
use crate::store::NodeView;
use vstd::prelude::*;

mod insert;
pub mod iter;
mod remove;
mod search;

verus! {

/// An ordered set of elements of `T`, kept as a skip list.
///
/// The nodes live in a store and are linked by their identities. The head
/// holds, for each level, the first node of that level's chain; its length
/// is the height of the list.
pub struct List<T> {
    store: NodeStore<T>,
    head: Vec<Option<usize>>,
    /// The identities of the nodes in ascending order of their elements.
    order: Ghost<Seq<usize>>,
}

impl<T> View for List<T> {
    type V = Seq<T>;

    /// The elements in ascending order.
    closed spec fn view(&self) -> Seq<T> {
        Seq::new(self.order@.len(), |p: int| self.store@[self.order@[p]].elem)
    }
}

impl<T> List<T> {
    /// The height of each node, in the order of the elements:
    /// `heights()[p]` is the height of the node that holds `self@[p]`.
    pub closed spec fn heights(&self) -> Seq<nat> {
        Seq::new(self.order@.len(), |p: int| self.store@[self.order@[p]].next.len())
    }

    /// The height of the list: the number of its levels.
    pub closed spec fn spec_height(&self) -> nat {
        self.head@.len()
    }

    /// The elements of level `i`: those whose nodes have a height above
    /// `i`, in ascending order.
    pub open spec fn level(&self, i: nat) -> Seq<T> {
        level_from(self@, self.heights(), i, 0)
    }

    /// The link at level `i` of the node at position `p`, or of the head
    /// where `p` is -1.
    spec fn link(&self, i: int, p: int) -> Option<usize> {
        if p < 0 {
            self.head@[i]
        } else {
            self.store@[self.order@[p]].next[i]
        }
    }

    /// The chain of level `i` runs through the nodes with a height above
    /// `i`, in ascending order.
    spec fn level_ok(&self, i: int) -> bool {
        forall|p: int|
            -1 <= p < self.order@.len() && (p >= 0 ==> self.heights()[p] > i) ==> #[trigger] self.link(
                i,
                p,
            ) == link_to(self.order@, next_pos(self.heights(), i, p))
    }

    /// `level_ok` for a list that holds one node more, at position `k`,
    /// than the identities `ids` and heights `hs` speak of: the links of the
    /// other nodes at level `i` are those of the list without that node.
    spec fn shifted_ok(&self, i: int, k: int, ids: Seq<usize>, hs: Seq<nat>) -> bool {
        forall|p: int|
            -1 <= p < hs.len() && (p >= 0 ==> hs[p] > i) ==> #[trigger] self.link(i, shift(k, p))
                == link_to(ids, next_pos(hs, i, p))
    }

    /// `order` names the live nodes, each once.
    spec fn order_ok(&self) -> bool {
        &&& self.order@.no_duplicates()
        &&& forall|p: int|
            0 <= p < self.order@.len() ==> self.store@.dom().contains(#[trigger] self.order@[p])
        &&& forall|id: usize| #[trigger]
            self.store@.dom().contains(id) ==> self.order@.contains(id)
    }
}

impl<T: PartialOrd> List<T> {
    /// All that well-formedness asks but that the top level is in use.
    spec fn wf_core(&self) -> bool {
        &&& total_order::<T>()
        &&& self.store.wf()
        &&& self.order_ok()
        &&& self.head@.len() >= 1
        &&& forall|p: int|
            0 <= p < self.order@.len() ==> 1 <= (#[trigger] self.heights()[p]) <= self.head@.len()
        &&& ascending(self@)
        &&& forall|i: int| 0 <= i < self.head@.len() ==> self.level_ok(i)
    }

    /// The list is well-formed: the elements ascend without repetition,
    /// every level's chain links exactly the nodes that reach it, in
    /// ascending order, and no level above the first is empty.
    pub closed spec fn wf(&self) -> bool {
        &&& self.wf_core()
        &&& self.head@.len() > 1 ==> self.head@[self.head@.len() - 1].is_some()
    }

    /// At each level `i`, `update[i]` is the last node with a height above
    /// `i` before position `k`, or nothing if the head is; `at[i]` is its
    /// position.
    spec fn preds_ok(&self, update: Seq<Option<usize>>, at: Seq<int>, k: int) -> bool {
        &&& update.len() == self.head@.len()
        &&& at.len() == self.head@.len()
        &&& forall|i: int|
            0 <= i < self.head@.len() ==> self.pred_ok(i, update[i], #[trigger] at[i], k)
    }

    spec fn pred_ok(&self, i: int, link: Option<usize>, u: int, k: int) -> bool {
        &&& -1 <= u < k
        &&& link == link_to(self.order@, u)
        &&& u >= 0 ==> self.heights()[u] > i
        &&& forall|r: int| u < r < k ==> #[trigger] self.heights()[r] <= i
    }

    /// The elements of a well-formed list ascend strictly, so none of them
    /// occurs twice.
    pub proof fn lemma_ascending(&self)
        requires
            self.wf(),
        ensures
            ascending(self@),
            self@.no_duplicates(),
    {
        law_ascending_distinct(self@);
    }

    /// A well-formed list has a totally ordered element type.
    pub proof fn lemma_total_order(&self)
        requires
            self.wf(),
        ensures
            total_order::<T>(),
    {
    }

    /// The height of a well-formed list is at least 1, and it is the
    /// greatest height of its nodes, or 1 where it has none. Every node has
    /// a height of at least 1.
    pub proof fn lemma_height(&self)
        requires
            self.wf(),
        ensures
            self.spec_height() >= 1,
            self.spec_height() == max_height(self.heights()),
            self.heights().len() == self@.len(),
            forall|p: int| 0 <= p < self@.len() ==> 1 <= #[trigger] self.heights()[p],
    {
        let hs = self.heights();
        let top = self.head@.len() - 1;
        law_max_height(hs);
        assert forall|p: int| 0 <= p < self@.len() implies 1 <= #[trigger] self.heights()[p] by {
            assert(1 <= self.heights()[p] <= self.head@.len());
        }
        if max_height(hs) != 1 {
            let p = choose|p: int| 0 <= p < hs.len() && #[trigger] hs[p] == max_height(hs);
            assert(1 <= self.heights()[p] <= self.head@.len());
        }
        if top > 0 {
            assert(self.level_ok(top));
            assert(self.link(top, -1) == link_to(self.order@, next_pos(hs, top, -1)));
            lemma_next_pos(hs, top, -1);
            assert(hs[next_pos(hs, top, -1)] <= max_height(hs));
        }
    }

    /// In a well-formed list level 0 is the whole list, and every level is
    /// a subsequence of it and of the level below: a node that is found at
    /// level `i` is found at every level below `i`, and two such nodes in
    /// the same order.
    pub proof fn lemma_levels(&self, i: nat)
        requires
            self.wf(),
        ensures
            self.level(0) == self@,
            subsequence(self.level(i), self@),
            subsequence(self.level(i + 1), self.level(i)),
            ascending(self.level(i)),
    {
        self.lemma_height();
        law_levels_nested(self@, self.heights(), i, i + 1);
        lemma_level_zero(self@, self.heights(), 0);
        assert(self@.skip(0) =~= self@);
        law_level_subsequence(self@, self.heights(), i);
        let a = self.level(i);
        let at = choose|at: Seq<int>| embeds(a, self@, at);
        assert forall|x: int, y: int| #![trigger a[x], a[y]] 0 <= x < y < a.len() implies lt(
            a[x],
            a[y],
        ) by {
            assert(at[x] < at[y]);
            assert(lt(self@[at[x]], self@[at[y]]));
        }
    }

    /// An empty list, of height 1.
    pub fn new() -> (list: Self)
        requires
            total_order::<T>(),
        ensures
            list.wf(),
            list@ == Seq::<T>::empty(),
            list.heights() == Seq::<nat>::empty(),
            list.spec_height() == 1,
    {
        let mut head: Vec<Option<usize>> = Vec::new();
        head.push(None);
        let list = List { store: NodeStore::new(), head, order: Ghost(Seq::empty()) };
        proof {
            assert(list@ =~= Seq::<T>::empty());
            assert(list.heights() =~= Seq::<nat>::empty());
            assert(next_pos(list.heights(), 0, -1) == 0);
        }
        list
    }

    /// The number of elements.
    pub fn len(&self) -> (n: usize)
        requires
            self.wf(),
        ensures
            n == self@.len(),
    {
        proof {
            self.order@.unique_seq_to_set();
            assert(self.order@.to_set() =~= self.store@.dom());
        }
        self.store.len()
    }

    /// Whether the list holds no element.
    pub fn is_empty(&self) -> (b: bool)
        requires
            self.wf(),
        ensures
            b == (self@.len() == 0),
    {
        self.len() == 0
    }

    /// The height of the list.
    pub fn height(&self) -> (h: usize)
        requires
            self.wf(),
        ensures
            h == self.spec_height(),
            h >= 1,
    {
        self.head.len()
    }

    /// The link at `level` of node `at`, or of the head where `at` is
    /// nothing.
    fn forward(&self, at: Option<usize>, level: usize) -> (link: Option<usize>)
        requires
            self.store.wf(),
            match at {
                Some(id) => self.store@.dom().contains(id) && level < self.store@[id].next.len(),
                None => level < self.head@.len(),
            },
        ensures
            link == match at {
                Some(id) => self.store@[id].next[level as int],
                None => self.head@[level as int],
            },
    {
        match at {
            Some(id) => self.store.next(id, level),
            None => self.head[level],
        }
    }

    /// Sets the link at `level` of node `at`, or of the head where `at` is
    /// nothing.
    fn set_forward(&mut self, at: Option<usize>, level: usize, link: Option<usize>)
        requires
            old(self).store.wf(),
            match at {
                Some(id) => old(self).store@.dom().contains(id) && level < old(
                    self,
                ).store@[id].next.len(),
                None => level < old(self).head@.len(),
            },
        ensures
            final(self).store.wf(),
            final(self).order == old(self).order,
            match at {
                Some(id) => final(self).head@ == old(self).head@ && final(self).store@ == old(
                    self,
                ).store@.insert(
                    id,
                    NodeView {
                        elem: old(self).store@[id].elem,
                        next: old(self).store@[id].next.update(level as int, link),
                    },
                ),
                None => final(self).store@ == old(self).store@ && final(self).head@ == old(
                    self,
                ).head@.update(level as int, link),
            },
    {
        match at {
            Some(id) => {
                self.store.set_next(id, level, link);
            },
            None => {
                self.head[level] = link;
            },
        }
    }

    /// Removes all elements: the list is as new.
    pub fn clear(&mut self)
        requires
            old(self).wf(),
        ensures
            final(self).wf(),
            final(self)@ == Seq::<T>::empty(),
            final(self).heights() == Seq::<nat>::empty(),
            final(self).spec_height() == 1,
    {
        self.store.clear();
        self.head.clear();
        self.head.push(None);
        self.order = Ghost(Seq::empty());
        proof {
            assert(self@ =~= Seq::<T>::empty());
            assert(self.heights() =~= Seq::<nat>::empty());
            assert(next_pos(self.heights(), 0, -1) == 0);
        }
    }

    /// The least element, if there is any.
    pub fn first(&self) -> (least: Option<&T>)
        requires
            self.wf(),
        ensures
            match least {
                Some(e) => self@.len() > 0 && *e == self@[0],
                None => self@.len() == 0,
            },
    {
        proof {
            assert(self.level_ok(0));
            assert(self.link(0, -1) == link_to(self.order@, next_pos(self.heights(), 0, -1)));
            lemma_next_pos(self.heights(), 0, -1);
            if self.order@.len() > 0 {
                lemma_next_pos_unique(self.heights(), 0, -1, 0);
            }
        }
        match self.head[0] {
            Some(id) => Some(self.store.elem(id)),
            None => None,
        }
    }

    /// A traversal of all elements in ascending order.
    pub fn iter(&self) -> (it: Iter<'_, T>)
        requires
            self.wf(),
        ensures
            it.wf(),
            it.list() == *self,
            it.level() == 0,
            it.remaining() == self@,
    {
        proof {
            lemma_level_zero(self@, self.heights(), 0);
            assert(self@.skip(0) =~= self@);
        }
        Iter::start(self, 0)
    }

    /// A traversal of the elements of `level` in ascending order: of those
    /// whose nodes have a height above `level`.
    pub fn iter_level(&self, level: usize) -> (it: Iter<'_, T>)
        requires
            self.wf(),
        ensures
            it.wf(),
            it.list() == *self,
            it.level() == level,
            it.remaining() == self.level(level as nat),
    {
        Iter::start(self, level)
    }

    /// A traversal that takes the list apart in ascending order.
    pub fn into_iter(self) -> (it: IntoIter<T>)
        where T: Copy
        requires
            self.wf(),
        ensures
            it.wf(),
            it.remaining() == self@,
    {
        IntoIter::start(self)
    }

    /// Whether `elem` is in the list.
    pub fn contains(&self, elem: &T) -> (b: bool)
        requires
            self.wf(),
        ensures
            b == self@.contains(*elem),
    {
        let (_, found, _) = self.search(elem);
        found
    }
}

} // verus!
