//! The shape of one level of the list, over positions.
//!
//! The nodes of a list are numbered by position in ascending order of their
//! elements, from 0; position -1 stands for the head. A node of height `h`
//! takes part in the levels below `h`. At level `i` every participant, and
//! the head, links to the next participant behind it, or to nothing.

use vstd::prelude::*;

verus! {

/// The position of the first node behind position `p` whose height is above
/// `i`, or the number of nodes if there is none.
pub open spec fn next_pos(hs: Seq<nat>, i: int, p: int) -> int
    decreases hs.len() - p,
{
    if p < -1 || p + 1 >= hs.len() {
        hs.len() as int
    } else if hs[p + 1] > i {
        p + 1
    } else {
        next_pos(hs, i, p + 1)
    }
}

/// The link that leads to position `q`: the identity of the node there, or
/// nothing where `q` is behind the last node.
pub open spec fn link_to(ids: Seq<usize>, q: int) -> Option<usize> {
    if 0 <= q < ids.len() {
        Some(ids[q])
    } else {
        None
    }
}

/// Where position `p` comes to stand once a node is put in at position
/// `k`; also, where position `p` stood before the node at `k` was taken
/// out.
pub open spec fn shift(k: int, p: int) -> int {
    if p < k {
        p
    } else {
        p + 1
    }
}

/// The links `f` of level `i`, given by position, are those of a list whose
/// nodes have the identities `ids` and the heights `hs`.
pub open spec fn level_linked(
    f: spec_fn(int) -> Option<usize>,
    ids: Seq<usize>,
    hs: Seq<nat>,
    i: int,
) -> bool {
    forall|p: int|
        -1 <= p < hs.len() && (p >= 0 ==> hs[p] > i) ==> #[trigger] f(p) == link_to(
            ids,
            next_pos(hs, i, p),
        )
}

/// What `next_pos` finds: a position behind `p`, of a participant of level
/// `i` unless it is the end, with no participant in between.
pub proof fn lemma_next_pos(hs: Seq<nat>, i: int, p: int)
    requires
        -1 <= p < hs.len(),
    ensures
        p < next_pos(hs, i, p) <= hs.len(),
        next_pos(hs, i, p) < hs.len() ==> hs[next_pos(hs, i, p)] > i,
        forall|r: int| p < r < next_pos(hs, i, p) ==> hs[r] <= i,
    decreases hs.len() - p,
{
    if p + 1 < hs.len() && hs[p + 1] <= i {
        lemma_next_pos(hs, i, p + 1);
    }
}

/// Only one position has the properties of `next_pos`.
pub proof fn lemma_next_pos_unique(hs: Seq<nat>, i: int, p: int, q: int)
    requires
        -1 <= p < q <= hs.len(),
        q < hs.len() ==> hs[q] > i,
        forall|r: int| p < r < q ==> hs[r] <= i,
    ensures
        next_pos(hs, i, p) == q,
    decreases q - p,
{
    if p + 1 < q {
        lemma_next_pos_unique(hs, i, p + 1, q);
    }
}

/// A node of height `h` above `i` is put at position `k`, behind its
/// predecessor `u` at level `i`: it takes over the link of `u`, and `u`
/// links to it.
pub proof fn lemma_level_spliced(
    f: spec_fn(int) -> Option<usize>,
    g: spec_fn(int) -> Option<usize>,
    ids: Seq<usize>,
    hs: Seq<nat>,
    i: int,
    k: int,
    u: int,
    id: usize,
    h: nat,
)
    requires
        ids.len() == hs.len(),
        0 <= k <= hs.len(),
        -1 <= u < k,
        u >= 0 ==> hs[u] > i,
        forall|r: int| u < r < k ==> hs[r] <= i,
        0 <= i < h,
        level_linked(f, ids, hs, i),
        g(k) == f(u),
        g(u) == Some(id),
        forall|p: int| -1 <= p < k && p != u ==> #[trigger] g(p) == f(p),
        forall|p: int| k <= p < hs.len() ==> g(p + 1) == #[trigger] f(p),
    ensures
        level_linked(g, ids.insert(k, id), hs.insert(k, h), i),
{
    let ids2 = ids.insert(k, id);
    let hs2 = hs.insert(k, h);
    assert forall|p: int| -1 <= p < hs2.len() && (p >= 0 ==> hs2[p] > i) implies #[trigger] g(p)
        == link_to(ids2, next_pos(hs2, i, p)) by {
        if p == k {
            lemma_next_pos(hs, i, u);
            let q = next_pos(hs, i, u);
            assert(f(u) == link_to(ids, q));
            assert(q >= k);
            lemma_next_pos_unique(hs2, i, k, q + 1);
        } else if p == u {
            lemma_next_pos_unique(hs2, i, u, k);
        } else if p < k {
            lemma_next_pos(hs, i, p);
            let q = next_pos(hs, i, p);
            assert(f(p) == link_to(ids, q));
            assert(p < u);
            assert(q <= u);
            lemma_next_pos_unique(hs2, i, p, q);
        } else {
            lemma_next_pos(hs, i, p - 1);
            let q = next_pos(hs, i, p - 1);
            assert(f(p - 1) == link_to(ids, q));
            lemma_next_pos_unique(hs2, i, p, q + 1);
        }
    }
}

/// A node of height `h`, not above `i`, is put at position `k`: level `i`
/// keeps its links.
pub proof fn lemma_level_passed(
    f: spec_fn(int) -> Option<usize>,
    g: spec_fn(int) -> Option<usize>,
    ids: Seq<usize>,
    hs: Seq<nat>,
    i: int,
    k: int,
    id: usize,
    h: nat,
)
    requires
        ids.len() == hs.len(),
        0 <= k <= hs.len(),
        h <= i,
        level_linked(f, ids, hs, i),
        forall|p: int| -1 <= p < k ==> #[trigger] g(p) == f(p),
        forall|p: int| k <= p < hs.len() ==> g(p + 1) == #[trigger] f(p),
    ensures
        level_linked(g, ids.insert(k, id), hs.insert(k, h), i),
{
    let ids2 = ids.insert(k, id);
    let hs2 = hs.insert(k, h);
    assert forall|p: int| -1 <= p < hs2.len() && (p >= 0 ==> hs2[p] > i) implies #[trigger] g(p)
        == link_to(ids2, next_pos(hs2, i, p)) by {
        if p < k {
            lemma_next_pos(hs, i, p);
            let q = next_pos(hs, i, p);
            assert(f(p) == link_to(ids, q));
            if q < k {
                lemma_next_pos_unique(hs2, i, p, q);
            } else {
                lemma_next_pos_unique(hs2, i, p, q + 1);
            }
        } else {
            lemma_next_pos(hs, i, p - 1);
            let q = next_pos(hs, i, p - 1);
            assert(f(p - 1) == link_to(ids, q));
            lemma_next_pos_unique(hs2, i, p, q + 1);
        }
    }
}

/// The node at position `k`, of a height above `i`, is taken out: its
/// predecessor `u` at level `i` takes over its link.
pub proof fn lemma_level_unspliced(
    f: spec_fn(int) -> Option<usize>,
    g: spec_fn(int) -> Option<usize>,
    ids: Seq<usize>,
    hs: Seq<nat>,
    i: int,
    k: int,
    u: int,
)
    requires
        ids.len() == hs.len(),
        0 <= k < hs.len(),
        hs[k] > i,
        -1 <= u < k,
        u >= 0 ==> hs[u] > i,
        forall|r: int| u < r < k ==> hs[r] <= i,
        level_linked(f, ids, hs, i),
        g(u) == f(k),
        forall|p: int| -1 <= p < k && p != u ==> #[trigger] g(p) == f(p),
        forall|p: int| k < p < hs.len() ==> g(p - 1) == #[trigger] f(p),
    ensures
        level_linked(g, ids.remove(k), hs.remove(k), i),
{
    let ids2 = ids.remove(k);
    let hs2 = hs.remove(k);
    assert forall|p: int| -1 <= p < hs2.len() && (p >= 0 ==> hs2[p] > i) implies #[trigger] g(p)
        == link_to(ids2, next_pos(hs2, i, p)) by {
        if p == u {
            lemma_next_pos(hs, i, k);
            let q = next_pos(hs, i, k);
            assert(f(k) == link_to(ids, q));
            lemma_next_pos_unique(hs2, i, u, q - 1);
        } else if p < k {
            lemma_next_pos(hs, i, p);
            let q = next_pos(hs, i, p);
            assert(f(p) == link_to(ids, q));
            assert(p < u);
            assert(q <= u);
            lemma_next_pos_unique(hs2, i, p, q);
        } else {
            lemma_next_pos(hs, i, p + 1);
            let q = next_pos(hs, i, p + 1);
            assert(f(p + 1) == link_to(ids, q));
            lemma_next_pos_unique(hs2, i, p, q - 1);
        }
    }
}

/// The node at position `k`, of a height not above `i`, is taken out: level
/// `i` keeps its links.
pub proof fn lemma_level_left(
    f: spec_fn(int) -> Option<usize>,
    g: spec_fn(int) -> Option<usize>,
    ids: Seq<usize>,
    hs: Seq<nat>,
    i: int,
    k: int,
)
    requires
        ids.len() == hs.len(),
        0 <= k < hs.len(),
        hs[k] <= i,
        level_linked(f, ids, hs, i),
        forall|p: int| -1 <= p < k ==> #[trigger] g(p) == f(p),
        forall|p: int| k < p < hs.len() ==> g(p - 1) == #[trigger] f(p),
    ensures
        level_linked(g, ids.remove(k), hs.remove(k), i),
{
    let ids2 = ids.remove(k);
    let hs2 = hs.remove(k);
    assert forall|p: int| -1 <= p < hs2.len() && (p >= 0 ==> hs2[p] > i) implies #[trigger] g(p)
        == link_to(ids2, next_pos(hs2, i, p)) by {
        if p < k {
            lemma_next_pos(hs, i, p);
            let q = next_pos(hs, i, p);
            assert(f(p) == link_to(ids, q));
            if q < k {
                lemma_next_pos_unique(hs2, i, p, q);
            } else {
                lemma_next_pos_unique(hs2, i, p, q - 1);
            }
        } else {
            lemma_next_pos(hs, i, p + 1);
            let q = next_pos(hs, i, p + 1);
            assert(f(p + 1) == link_to(ids, q));
            lemma_next_pos_unique(hs2, i, p, q - 1);
        }
    }
}

} // verus!
