//! What holds of every list, whatever was done to it.

use crate::model::ascending;
use crate::model::embeds;
use crate::model::inserted;
use crate::model::inserted_last;
use crate::model::lemma_insert_ascending;
use crate::model::lemma_rank_finds;
use crate::model::lemma_rank_splits;
use crate::model::lemma_remove_ascending;
use crate::model::level_from;
use crate::model::max_height;
use crate::model::rank;
use crate::model::removed;
use crate::model::replay;
use crate::model::subsequence;
use crate::order::lemma_lt_trichotomy;
use crate::order::lt;
use crate::order::total_order;
use vstd::prelude::*;

verus! {

/// An insertion keeps the elements strictly ascending.
pub proof fn law_insert_ascending<T: PartialOrd>(s: Seq<T>, e: T)
    requires
        total_order::<T>(),
        ascending(s),
    ensures
        ascending(inserted(s, e)),
{
    if !s.contains(e) {
        lemma_insert_ascending(s, e);
    }
}

/// A removal keeps the elements strictly ascending.
pub proof fn law_remove_ascending<T: PartialOrd>(s: Seq<T>, e: T)
    requires
        total_order::<T>(),
        ascending(s),
    ensures
        ascending(removed(s, e)),
{
    if s.contains(e) {
        lemma_rank_finds(s, e);
        lemma_remove_ascending(s, rank(s, e));
    }
}

/// After an insertion of `e` the list holds `e` and what it held before,
/// and nothing else.
pub proof fn law_insert_contains<T: PartialOrd>(s: Seq<T>, e: T, x: T)
    requires
        total_order::<T>(),
        ascending(s),
    ensures
        inserted(s, e).contains(x) <==> x == e || s.contains(x),
{
    if !s.contains(e) {
        lemma_rank_splits(s, e);
        let k = rank(s, e);
        let t = s.insert(k, e);
        assert(t[k] == e);
        if s.contains(x) {
            let j = choose|j: int| 0 <= j < s.len() && s[j] == x;
            assert(t[if j < k { j } else { j + 1 }] == x);
        }
        if t.contains(x) && x != e {
            let j = choose|j: int| 0 <= j < t.len() && t[j] == x;
            assert(s[if j < k { j } else { j - 1 }] == x);
        }
    }
}

/// After a removal of `e` the list holds what it held before but `e`.
pub proof fn law_remove_contains<T: PartialOrd>(s: Seq<T>, e: T, x: T)
    requires
        total_order::<T>(),
        ascending(s),
    ensures
        removed(s, e).contains(x) <==> x != e && s.contains(x),
{
    if s.contains(e) {
        lemma_rank_finds(s, e);
        let k = rank(s, e);
        let t = s.remove(k);
        if s.contains(x) && x != e {
            let j = choose|j: int| 0 <= j < s.len() && s[j] == x;
            assert(t[if j < k { j } else { j - 1 }] == x);
        }
        if t.contains(x) {
            let j = choose|j: int| 0 <= j < t.len() && t[j] == x;
            let j0 = if j < k { j } else { j + 1 };
            assert(s[j0] == x);
        }
    }
}

/// To insert an element twice in a row is to insert it once: the list
/// holds it after the first insertion, and the second changes nothing.
pub proof fn law_insert_twice<T: PartialOrd>(s: Seq<T>, e: T)
    requires
        total_order::<T>(),
        ascending(s),
    ensures
        inserted(s, e).contains(e),
        inserted(inserted(s, e), e) == inserted(s, e),
        inserted(inserted(s, e), e).len() == inserted(s, e).len(),
{
    law_insert_contains(s, e, e);
}

/// To remove an element that the list does not hold changes nothing.
pub proof fn law_remove_absent<T: PartialOrd>(s: Seq<T>, e: T)
    requires
        !s.contains(e),
    ensures
        removed(s, e) == s,
{
}

/// Whatever insertions and removals are made on an empty list, in whatever
/// order, its elements ascend strictly.
pub proof fn law_replay_ascending<T: PartialOrd>(ops: Seq<(bool, T)>)
    requires
        total_order::<T>(),
    ensures
        ascending(replay(ops)),
    decreases ops.len(),
{
    if ops.len() > 0 {
        law_replay_ascending(ops.drop_last());
        if ops.last().0 {
            law_insert_ascending(replay(ops.drop_last()), ops.last().1);
        } else {
            law_remove_ascending(replay(ops.drop_last()), ops.last().1);
        }
    }
}

/// After any run of insertions and removals on an empty list, the list
/// holds an element if and only if the element was inserted and not removed
/// afterwards.
pub proof fn law_replay_contains<T: PartialOrd>(ops: Seq<(bool, T)>, e: T)
    requires
        total_order::<T>(),
    ensures
        replay(ops).contains(e) <==> inserted_last(ops, e),
    decreases ops.len(),
{
    if ops.len() > 0 {
        let before = ops.drop_last();
        let last = ops.len() - 1;
        let x = ops.last().1;
        law_replay_contains(before, e);
        law_replay_ascending(before);
        if ops.last().0 {
            law_insert_contains(replay(before), x, e);
        } else {
            law_remove_contains(replay(before), x, e);
        }
        if inserted_last(ops, e) {
            let i = choose|i: int|
                0 <= i < ops.len() && #[trigger] ops[i] == (true, e) && forall|j: int|
                    i < j < ops.len() ==> #[trigger] ops[j] != (false, e);
            if i < last {
                assert(before[i] == (true, e));
                assert forall|j: int| i < j < before.len() implies #[trigger] before[j] != (
                    false,
                    e,
                ) by {
                    assert(ops[j] != (false, e));
                }
                assert(inserted_last(before, e));
                assert(ops[last] != (false, e));
            }
        }
        if inserted_last(before, e) && ops.last() != (false, e) {
            let i = choose|i: int|
                0 <= i < before.len() && #[trigger] before[i] == (true, e) && forall|j: int|
                    i < j < before.len() ==> #[trigger] before[j] != (false, e);
            assert(ops[i] == (true, e));
            assert forall|j: int| i < j < ops.len() implies #[trigger] ops[j] != (false, e) by {
                if j < last {
                    assert(before[j] != (false, e));
                }
            }
        }
        if ops.last() == (true, e) {
            assert(ops[last] == (true, e));
        }
    } else {
        assert(!replay(ops).contains(e));
    }
}

/// The greatest height is at least 1 and at least every height, and it is
/// 1 or one of the heights.
pub proof fn law_max_height(hs: Seq<nat>)
    ensures
        max_height(hs) >= 1,
        forall|p: int| 0 <= p < hs.len() ==> #[trigger] hs[p] <= max_height(hs),
        max_height(hs) == 1 || exists|p: int| 0 <= p < hs.len() && #[trigger] hs[p] == max_height(hs),
    decreases hs.len(),
{
    if hs.len() > 0 {
        let t = hs.drop_last();
        law_max_height(t);
        assert forall|p: int| 0 <= p < hs.len() implies #[trigger] hs[p] <= max_height(hs) by {
            if p < t.len() {
                assert(t[p] <= max_height(t));
            }
        }
        if max_height(hs) != 1 {
            if hs.last() > max_height(t) {
                assert(hs[hs.len() - 1] == max_height(hs));
            } else {
                let p = choose|p: int| 0 <= p < t.len() && #[trigger] t[p] == max_height(t);
                assert(hs[p] == max_height(hs));
            }
        }
    }
}

/// A place for each element of a level from position `p` on in the whole
/// list, none of them before `p`.
pub proof fn lemma_level_embeds<T>(s: Seq<T>, hs: Seq<nat>, i: nat, p: int) -> (at: Seq<int>)
    requires
        0 <= p <= s.len(),
    ensures
        embeds(level_from(s, hs, i, p), s, at),
        forall|j: int| 0 <= j < at.len() ==> #[trigger] at[j] >= p,
    decreases s.len() - p,
{
    if p >= s.len() {
        Seq::empty()
    } else {
        let rest = lemma_level_embeds(s, hs, i, p + 1);
        if hs[p] > i {
            let at = seq![p] + rest;
            let a = level_from(s, hs, i, p);
            assert forall|x: int, y: int| 0 <= x < y < a.len() implies #[trigger] at[x]
                < #[trigger] at[y] by {
                if x > 0 {
                    assert(rest[x - 1] < rest[y - 1]);
                } else {
                    assert(rest[y - 1] >= p + 1);
                }
            }
            assert forall|j: int| 0 <= j < a.len() implies 0 <= #[trigger] at[j] < s.len() && a[j]
                == s[at[j]] by {
                if j > 0 {
                    assert(0 <= rest[j - 1] < s.len());
                }
            }
            at
        } else {
            rest
        }
    }
}

/// Every level is a subsequence of the level below all others, which is
/// the whole list: what is found at level `i` is found in the list, in the
/// same order.
pub proof fn law_level_subsequence<T>(s: Seq<T>, hs: Seq<nat>, i: nat)
    ensures
        subsequence(level_from(s, hs, i, 0), s),
{
    let at = lemma_level_embeds(s, hs, i, 0);
}

/// A level holds what the levels above it hold, and in the same order: a
/// node that reaches level `j` reaches every level `i` below it.
pub proof fn law_levels_nested<T>(s: Seq<T>, hs: Seq<nat>, i: nat, j: nat)
    requires
        i <= j,
    ensures
        subsequence(level_from(s, hs, j, 0), level_from(s, hs, i, 0)),
{
    let at = lemma_levels_embed(s, hs, i, j, 0);
}

/// A place for each element of level `j` from position `p` on in level
/// `i` from position `p` on.
pub proof fn lemma_levels_embed<T>(s: Seq<T>, hs: Seq<nat>, i: nat, j: nat, p: int) -> (at: Seq<int>)
    requires
        i <= j,
        0 <= p,
    ensures
        embeds(level_from(s, hs, j, p), level_from(s, hs, i, p), at),
    decreases s.len() - p,
{
    if p >= s.len() {
        Seq::empty()
    } else {
        let rest = lemma_levels_embed(s, hs, i, j, p + 1);
        let a = level_from(s, hs, j, p);
        let b = level_from(s, hs, i, p);
        let a1 = level_from(s, hs, j, p + 1);
        let b1 = level_from(s, hs, i, p + 1);
        if hs[p] > i {
            let moved = Seq::new(rest.len(), |x: int| rest[x] + 1);
            let at = if hs[p] > j {
                seq![0int] + moved
            } else {
                moved
            };
            assert forall|x: int| 0 <= x < a.len() implies 0 <= #[trigger] at[x] < b.len() && a[x]
                == b[at[x]] by {
                if hs[p] > j {
                    if x > 0 {
                        assert(0 <= rest[x - 1] < b1.len() && a1[x - 1] == b1[rest[x - 1]]);
                    }
                } else {
                    assert(0 <= rest[x] < b1.len() && a1[x] == b1[rest[x]]);
                }
            }
            assert forall|x: int, y: int| 0 <= x < y < a.len() implies #[trigger] at[x]
                < #[trigger] at[y] by {
                if hs[p] > j {
                    if x > 0 {
                        assert(rest[x - 1] < rest[y - 1]);
                    } else {
                        assert(0 <= rest[y - 1]);
                    }
                } else {
                    assert(rest[x] < rest[y]);
                }
            }
            at
        } else {
            rest
        }
    }
}

/// An ascending sequence holds no element twice.
pub proof fn law_ascending_distinct<T: PartialOrd>(s: Seq<T>)
    requires
        total_order::<T>(),
        ascending(s),
    ensures
        s.no_duplicates(),
{
    assert forall|i: int, j: int| 0 <= i < s.len() && 0 <= j < s.len() && i != j implies s[i]
        != s[j] by {
        if i < j {
            assert(lt(s[i], s[j]));
        } else {
            assert(lt(s[j], s[i]));
        }
        lemma_lt_trichotomy(s[i], s[j]);
    }
}

} // verus!
