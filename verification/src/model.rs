//! The list as a mathematical value: an ascending sequence of elements,
//! each with the height of its node.

use crate::order::lemma_lt_transitive;
use crate::order::lemma_lt_trichotomy;
use crate::order::lt;
use crate::order::total_order;
use vstd::prelude::*;

verus! {

/// `s` is strictly ascending: every element is below all that follow it.
pub open spec fn ascending<T: PartialOrd>(s: Seq<T>) -> bool {
    forall|i: int, j: int| #![trigger s[i], s[j]] 0 <= i < j < s.len() ==> lt(s[i], s[j])
}

/// The number of elements of `s` that are below `e`. In an ascending
/// sequence this is the position of `e`, or where `e` would belong.
pub open spec fn rank<T: PartialOrd>(s: Seq<T>, e: T) -> int
    decreases s.len(),
{
    if s.len() == 0 {
        0
    } else if lt(s.last(), e) {
        rank(s.drop_last(), e) + 1
    } else {
        rank(s.drop_last(), e)
    }
}

/// The rank of `e` splits an ascending sequence into the elements below
/// `e` and the others.
pub proof fn lemma_rank_splits<T: PartialOrd>(s: Seq<T>, e: T)
    requires
        total_order::<T>(),
        ascending(s),
    ensures
        0 <= rank(s, e) <= s.len(),
        forall|j: int| 0 <= j < rank(s, e) ==> lt(#[trigger] s[j], e),
        forall|j: int| rank(s, e) <= j < s.len() ==> !lt(#[trigger] s[j], e),
    decreases s.len(),
{
    if s.len() > 0 {
        let t = s.drop_last();
        lemma_rank_splits(t, e);
        if lt(s.last(), e) {
            assert forall|j: int| 0 <= j < s.len() implies lt(#[trigger] s[j], e) by {
                if j < s.len() - 1 {
                    lemma_lt_transitive(s[j], s.last(), e);
                }
            }
            if rank(t, e) < t.len() {
                assert(lt(t[rank(t, e)], e));
            }
        } else {
            assert forall|j: int| 0 <= j < rank(s, e) implies lt(#[trigger] s[j], e) by {
                assert(lt(t[j], e));
            }
            assert forall|j: int| rank(s, e) <= j < s.len() implies !lt(#[trigger] s[j], e) by {
                if j < s.len() - 1 {
                    assert(!lt(t[j], e));
                }
            }
        }
    }
}

/// A position that splits `s` into the elements below `e` and the others is
/// the rank of `e`.
pub proof fn lemma_rank_is<T: PartialOrd>(s: Seq<T>, e: T, k: int)
    requires
        0 <= k <= s.len(),
        forall|j: int| 0 <= j < k ==> lt(#[trigger] s[j], e),
        forall|j: int| k <= j < s.len() ==> !lt(#[trigger] s[j], e),
    ensures
        rank(s, e) == k,
    decreases s.len(),
{
    if s.len() > 0 {
        let t = s.drop_last();
        if k == s.len() {
            assert(lt(s[k - 1], e));
            assert forall|j: int| 0 <= j < k - 1 implies lt(#[trigger] t[j], e) by {
                assert(lt(s[j], e));
            }
            lemma_rank_is(t, e, k - 1);
        } else {
            assert(!lt(s[s.len() - 1], e));
            assert forall|j: int| 0 <= j < k implies lt(#[trigger] t[j], e) by {
                assert(lt(s[j], e));
            }
            assert forall|j: int| k <= j < t.len() implies !lt(#[trigger] t[j], e) by {
                assert(!lt(s[j], e));
            }
            lemma_rank_is(t, e, k);
        }
    }
}

/// In an ascending sequence an element stands at its rank and nowhere else.
pub proof fn lemma_rank_finds<T: PartialOrd>(s: Seq<T>, e: T)
    requires
        total_order::<T>(),
        ascending(s),
    ensures
        s.contains(e) <==> rank(s, e) < s.len() && s[rank(s, e)] == e,
        forall|j: int| 0 <= j < s.len() && s[j] == e ==> j == rank(s, e),
{
    lemma_rank_splits(s, e);
    let k = rank(s, e);
    lemma_lt_trichotomy(e, e);
    assert forall|j: int| 0 <= j < s.len() && s[j] == e implies j == k by {
        if j < k {
            assert(lt(s[j], e));
        } else if j > k {
            assert(lt(s[k], s[j]));
            assert(!lt(s[k], e));
        }
    }
    if s.contains(e) {
        let j = choose|j: int| 0 <= j < s.len() && s[j] == e;
        assert(j == k);
    }
}

/// Putting a new element in at its rank keeps the sequence ascending.
pub proof fn lemma_insert_ascending<T: PartialOrd>(s: Seq<T>, e: T)
    requires
        total_order::<T>(),
        ascending(s),
        !s.contains(e),
    ensures
        ascending(s.insert(rank(s, e), e)),
{
    lemma_rank_splits(s, e);
    let k = rank(s, e);
    let t = s.insert(k, e);
    assert forall|i: int, j: int| #![trigger t[i], t[j]] 0 <= i < j < t.len() implies lt(
        t[i],
        t[j],
    ) by {
        if i == k {
            assert(t[j] == s[j - 1]);
            assert(!lt(s[j - 1], e));
            assert(s.contains(s[j - 1]));
            lemma_lt_trichotomy(s[j - 1], e);
        } else if j == k {
            assert(t[i] == s[i]);
            assert(lt(s[i], e));
        } else {
            let a = if i < k { i } else { i - 1 };
            let b = if j < k { j } else { j - 1 };
            assert(t[i] == s[a]);
            assert(t[j] == s[b]);
            assert(lt(s[a], s[b]));
        }
    }
}

/// Taking an element out keeps the sequence ascending.
pub proof fn lemma_remove_ascending<T: PartialOrd>(s: Seq<T>, k: int)
    requires
        ascending(s),
        0 <= k < s.len(),
    ensures
        ascending(s.remove(k)),
{
    let t = s.remove(k);
    assert forall|i: int, j: int| #![trigger t[i], t[j]] 0 <= i < j < t.len() implies lt(
        t[i],
        t[j],
    ) by {
        let a = if i < k { i } else { i + 1 };
        let b = if j < k { j } else { j + 1 };
        assert(t[i] == s[a]);
        assert(t[j] == s[b]);
        assert(lt(s[a], s[b]));
    }
}

/// The elements of `s` from position `p` on whose nodes take part in level
/// `i`: those with a height above `i`, in their order.
pub open spec fn level_from<T>(s: Seq<T>, hs: Seq<nat>, i: nat, p: int) -> Seq<T>
    decreases s.len() - p,
{
    if p < 0 || p >= s.len() {
        Seq::empty()
    } else if hs[p] > i {
        seq![s[p]] + level_from(s, hs, i, p + 1)
    } else {
        level_from(s, hs, i, p + 1)
    }
}

/// Positions whose nodes do not reach level `i` add nothing to it.
pub proof fn lemma_level_skips<T>(s: Seq<T>, hs: Seq<nat>, i: nat, p: int, q: int)
    requires
        0 <= p <= q <= s.len(),
        forall|r: int| p <= r < q ==> hs[r] <= i,
    ensures
        level_from(s, hs, i, p) == level_from(s, hs, i, q),
    decreases q - p,
{
    if p < q {
        lemma_level_skips(s, hs, i, p + 1, q);
    }
}

/// Every node reaches level 0: it is the whole list.
pub proof fn lemma_level_zero<T>(s: Seq<T>, hs: Seq<nat>, p: int)
    requires
        0 <= p <= s.len(),
        forall|r: int| 0 <= r < s.len() ==> hs[r] >= 1,
    ensures
        level_from(s, hs, 0, p) == s.skip(p),
    decreases s.len() - p,
{
    if p < s.len() {
        lemma_level_zero(s, hs, p + 1);
        assert(s.skip(p) =~= seq![s[p]] + s.skip(p + 1));
    } else {
        assert(s.skip(p) =~= Seq::<T>::empty());
    }
}

/// `s` with `e` put in at its place, unless `s` holds `e` already.
pub open spec fn inserted<T: PartialOrd>(s: Seq<T>, e: T) -> Seq<T> {
    if s.contains(e) {
        s
    } else {
        s.insert(rank(s, e), e)
    }
}

/// `s` with `e` taken out, if `s` holds `e`.
pub open spec fn removed<T: PartialOrd>(s: Seq<T>, e: T) -> Seq<T> {
    if s.contains(e) {
        s.remove(rank(s, e))
    } else {
        s
    }
}

/// The list that a run of insertions and removals builds from the empty
/// list: `(true, e)` inserts `e`, `(false, e)` removes it.
pub open spec fn replay<T: PartialOrd>(ops: Seq<(bool, T)>) -> Seq<T>
    decreases ops.len(),
{
    if ops.len() == 0 {
        Seq::empty()
    } else if ops.last().0 {
        inserted(replay(ops.drop_last()), ops.last().1)
    } else {
        removed(replay(ops.drop_last()), ops.last().1)
    }
}

/// `e` was inserted in the run `ops` and not removed afterwards.
pub open spec fn inserted_last<T>(ops: Seq<(bool, T)>, e: T) -> bool {
    exists|i: int|
        0 <= i < ops.len() && #[trigger] ops[i] == (true, e) && forall|j: int|
            i < j < ops.len() ==> #[trigger] ops[j] != (false, e)
}

/// The greatest of the heights `hs`, or 1 where there is none.
pub open spec fn max_height(hs: Seq<nat>) -> nat
    decreases hs.len(),
{
    if hs.len() == 0 {
        1
    } else if hs.last() > max_height(hs.drop_last()) {
        hs.last()
    } else {
        max_height(hs.drop_last())
    }
}

/// `at` places `a` in `b`: it gives each element of `a` a position in `b`
/// that holds the same element, later elements later positions.
pub open spec fn embeds<T>(a: Seq<T>, b: Seq<T>, at: Seq<int>) -> bool {
    &&& at.len() == a.len()
    &&& forall|j: int| 0 <= j < a.len() ==> 0 <= #[trigger] at[j] < b.len() && a[j] == b[at[j]]
    &&& forall|i: int, j: int| 0 <= i < j < a.len() ==> #[trigger] at[i] < #[trigger] at[j]
}

/// `a` is a subsequence of `b`: the elements of `a` occur in `b`, in the
/// same order.
pub open spec fn subsequence<T>(a: Seq<T>, b: Seq<T>) -> bool {
    exists|at: Seq<int>| embeds(a, b, at)
}

} // verus!
