//! Traversal of a list, level by level.

use crate::chain::lemma_next_pos;
use crate::chain::link_to;
use crate::chain::next_pos;
use crate::list::List;
use crate::model::lemma_level_skips;
use crate::model::lemma_rank_is;
use crate::model::level_from;
use crate::order::lemma_lt_trichotomy;
use crate::order::lt;
use vstd::prelude::*;

verus! {

/// A forward traversal of one level of a list, in ascending order. At
/// level 0 it yields every element.
pub struct Iter<'a, T> {
    list: &'a List<T>,
    level: usize,
    /// The node to yield next.
    next: Option<usize>,
    /// The position of that node, or the length of the list at the end.
    pos: Ghost<int>,
}

/// A traversal that owns its list and takes the elements out in ascending
/// order.
pub struct IntoIter<T>(List<T>);

impl<'a, T: PartialOrd> Iter<'a, T> {
    /// The traversal stands at a node of its level in a well-formed list,
    /// or at the end.
    pub closed spec fn wf(&self) -> bool {
        &&& self.list.wf()
        &&& 0 <= self.pos@ <= self.list.order@.len()
        &&& self.next == link_to(self.list.order@, self.pos@)
        &&& self.pos@ < self.list.order@.len() ==> self.level < self.list.heights()[self.pos@]
    }

    /// The list that is traversed.
    pub closed spec fn list(&self) -> List<T> {
        *self.list
    }

    /// The level that is traversed.
    pub closed spec fn level(&self) -> nat {
        self.level as nat
    }

    /// The elements still to come, in the order in which they come.
    pub closed spec fn remaining(&self) -> Seq<T> {
        level_from(self.list@, self.list.heights(), self.level as nat, self.pos@)
    }

    /// Starts a traversal of `level` of `list`.
    pub(crate) fn start(list: &'a List<T>, level: usize) -> (it: Self)
        requires
            list.wf(),
        ensures
            it.wf(),
            it.list() == *list,
            it.level() == level,
            it.remaining() == list.level(level as nat),
    {
        let ghost n = list.order@.len() as int;
        if level < list.head.len() {
            proof {
                assert(list.level_ok(level as int));
                assert(list.link(level as int, -1) == link_to(
                    list.order@,
                    next_pos(list.heights(), level as int, -1),
                ));
                lemma_next_pos(list.heights(), level as int, -1);
                lemma_level_skips(
                    list@,
                    list.heights(),
                    level as nat,
                    0,
                    next_pos(list.heights(), level as int, -1),
                );
            }
            Iter {
                list,
                level,
                next: list.head[level],
                pos: Ghost(next_pos(list.heights(), level as int, -1)),
            }
        } else {
            proof {
                lemma_level_skips(list@, list.heights(), level as nat, 0, n);
            }
            Iter { list, level, next: None, pos: Ghost(n) }
        }
    }

    /// Yields the next element of the level, if there is one, and moves
    /// on behind it.
    pub fn next(&mut self) -> (item: Option<&'a T>)
        requires
            old(self).wf(),
        ensures
            final(self).wf(),
            final(self).list() == old(self).list(),
            final(self).level() == old(self).level(),
            match item {
                Some(e) => old(self).remaining().len() > 0 && *e == old(self).remaining()[0]
                    && final(self).remaining() == old(self).remaining().skip(1),
                None => old(self).remaining().len() == 0 && final(self).remaining() == old(
                    self,
                ).remaining(),
            },
    {
        let list: &'a List<T> = self.list;
        match self.next {
            Some(id) => {
                let ghost p = self.pos@;
                let ghost q = next_pos(list.heights(), self.level as int, p);
                proof {
                    assert(list.level_ok(self.level as int));
                    assert(list.link(self.level as int, p) == link_to(list.order@, q));
                    lemma_next_pos(list.heights(), self.level as int, p);
                    lemma_level_skips(list@, list.heights(), self.level as nat, p + 1, q);
                    assert(old(self).remaining().skip(1) =~= level_from(
                        list@,
                        list.heights(),
                        self.level as nat,
                        p + 1,
                    ));
                }
                let item = list.store.elem(id);
                self.next = list.store.next(id, self.level);
                self.pos = Ghost(q);
                Some(item)
            },
            None => None,
        }
    }
}

impl<T: PartialOrd + Copy> IntoIter<T> {
    /// The list is well-formed.
    pub closed spec fn wf(&self) -> bool {
        self.0.wf()
    }

    /// The elements still to come, in the order in which they come.
    pub closed spec fn remaining(&self) -> Seq<T> {
        self.0@
    }

    /// Starts to take `list` apart.
    pub(crate) fn start(list: List<T>) -> (it: Self)
        requires
            list.wf(),
        ensures
            it.wf(),
            it.remaining() == list@,
    {
        IntoIter(list)
    }

    /// Takes the least element out of the list and yields it, if there is
    /// one.
    pub fn next(&mut self) -> (item: Option<T>)
        requires
            old(self).wf(),
        ensures
            final(self).wf(),
            match item {
                Some(e) => old(self).remaining().len() > 0 && e == old(self).remaining()[0]
                    && final(self).remaining() == old(self).remaining().skip(1),
                None => old(self).remaining().len() == 0 && final(self).remaining() == old(
                    self,
                ).remaining(),
            },
    {
        let least = match self.0.first() {
            Some(e) => *e,
            None => {
                return None;
            },
        };
        proof {
            self.0.lemma_ascending();
            let s = self.0@;
            assert forall|j: int| 0 <= j < s.len() implies !lt(#[trigger] s[j], least) by {
                self.0.lemma_total_order();
                lemma_lt_trichotomy(s[j], least);
            }
            lemma_rank_is(s, least, 0);
            assert(s.remove(0) =~= s.skip(1));
            assert(s.contains(s[0]));
        }
        self.0.remove(&least);
        Some(least)
    }
}

} // verus!
