//! Random choice of the height of a new node.

use vstd::prelude::*;

verus! {

/// One fair coin flip, drawn by `rand::random::<bool>()` from the generator
/// of the current thread. The outcome is up to chance, so nothing is
/// promised about it: callers are verified for both outcomes.
#[verifier::external_body]
fn coin_flip() -> bool {
    rand::random::<bool>()
}

/// Picks the height of a new node for a list of height `current_height`.
///
/// Coins are flipped until one comes up tails or the cap is reached, and
/// `level_for_flips` counts them: the height is 1 with probability 1/2, 2
/// with probability 1/4 and so on, and never more than one above
/// `current_height`, so that an insertion raises the list by one level at most.
pub fn pick_level(current_height: usize) -> (height: usize)
    ensures
        1 <= height,
        height <= current_height + 1,
{
    let bound: usize = if current_height < usize::MAX {
        current_height
    } else {
        current_height - 1
    };
    let mut flips: Vec<bool> = Vec::new();
    let mut heads: bool = true;
    while heads && flips.len() < bound
        invariant
            flips@.len() <= bound,
        decreases bound - flips@.len(),
    {
        heads = coin_flip();
        flips.push(heads);
    }
    level_for_flips(&flips, bound)
}

/// The number of heads at the start of `flips`, before the first tails.
pub open spec fn leading_heads(flips: Seq<bool>) -> nat
    decreases flips.len(),
{
    if flips.len() == 0 || !flips[0] {
        0
    } else {
        1 + leading_heads(flips.skip(1))
    }
}

/// The height that `flips` give to a new node of a list of height
/// `current_height`: one more than the number of heads before the first
/// tails, and at most one more than `current_height`.
pub open spec fn height_of_flips(flips: Seq<bool>, current_height: nat) -> nat {
    if leading_heads(flips) < current_height {
        leading_heads(flips) + 1
    } else {
        current_height + 1
    }
}

/// Where the first `i` flips are heads, there are at least `i` leading
/// heads, and exactly `i` where the flips end there or the next is tails.
pub proof fn lemma_leading_heads(flips: Seq<bool>, i: int)
    requires
        0 <= i <= flips.len(),
        forall|j: int| 0 <= j < i ==> flips[j],
    ensures
        leading_heads(flips) >= i,
        i == flips.len() || !flips[i] ==> leading_heads(flips) == i,
    decreases i,
{
    if i > 0 {
        let rest = flips.skip(1);
        assert forall|j: int| 0 <= j < i - 1 implies rest[j] by {
            assert(flips[j + 1]);
        }
        lemma_leading_heads(rest, i - 1);
    }
}

/// The height that the coin flips `flips` give to a new node of a list of
/// height `current_height`: it climbs one level for each heads, until the
/// first tails, the end of the flips, or one level above the list.
pub fn level_for_flips(flips: &Vec<bool>, current_height: usize) -> (height: usize)
    requires
        current_height < usize::MAX,
    ensures
        height == height_of_flips(flips@, current_height as nat),
{
    let mut height: usize = 1;
    let mut i: usize = 0;
    while i < flips.len() && flips[i] && height <= current_height
        invariant
            i <= flips@.len(),
            height == i + 1,
            height <= current_height + 1,
            current_height < usize::MAX,
            forall|j: int| 0 <= j < i ==> flips@[j],
        decreases flips@.len() - i,
    {
        height += 1;
        i += 1;
    }
    proof {
        lemma_leading_heads(flips@, i as int);
    }
    height
}

} // verus!
