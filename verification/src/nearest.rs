//! Nearest-of-several search over floor numbers, first come first served
//! among floors equally near.

use vstd::prelude::*;

verus! {

/// How many floors lie between `a` and `b`.
pub open spec fn distance(a: usize, b: usize) -> nat {
    if a > b {
        (a - b) as nat
    } else {
        (b - a) as nat
    }
}

/// `k` is the position in `floors` of the floor nearest to `at`: no floor of
/// `floors` is nearer, and every floor before position `k` is farther.
pub open spec fn is_nearest(floors: Seq<usize>, at: usize, k: int) -> bool {
    &&& 0 <= k < floors.len()
    &&& forall|j: int| 0 <= j < floors.len() ==> distance(floors[k], at) <= distance(#[trigger] floors[j], at)
    &&& forall|j: int| 0 <= j < k ==> distance(floors[k], at) < distance(#[trigger] floors[j], at)
}

/// The position found by going through `floors` in order and moving on only
/// to a floor that is strictly nearer to `at`.
pub open spec fn nearest_pos(floors: Seq<usize>, at: usize) -> int
    decreases floors.len(),
{
    if floors.len() <= 1 {
        0
    } else {
        let k = nearest_pos(floors.drop_last(), at);
        if distance(floors.last(), at) < distance(floors[k], at) {
            floors.len() - 1
        } else {
            k
        }
    }
}

/// The search finds the nearest floor, and the first one among floors that
/// are equally near.
pub proof fn lemma_nearest_pos(floors: Seq<usize>, at: usize)
    requires
        floors.len() > 0,
    ensures
        is_nearest(floors, at, nearest_pos(floors, at)),
    decreases floors.len(),
{
    if floors.len() > 1 {
        let init = floors.drop_last();
        lemma_nearest_pos(init, at);
        let k0 = nearest_pos(init, at);
        let k = nearest_pos(floors, at);
        assert(init[k0] == floors[k0]);
        assert forall|j: int| 0 <= j < floors.len() implies distance(floors[k], at) <= distance(
            #[trigger] floors[j],
            at,
        ) by {
            if j < init.len() {
                assert(init[j] == floors[j]);
            }
        }
        assert forall|j: int| 0 <= j < k implies distance(floors[k], at) < distance(#[trigger] floors[j], at) by {
            assert(init[j] == floors[j]);
        }
    }
}

/// Only one position is the nearest.
pub proof fn lemma_nearest_unique(floors: Seq<usize>, at: usize, k1: int, k2: int)
    requires
        is_nearest(floors, at, k1),
        is_nearest(floors, at, k2),
    ensures
        k1 == k2,
{
    if k1 < k2 {
        assert(distance(floors[k2], at) < distance(floors[k1], at));
    } else if k2 < k1 {
        assert(distance(floors[k1], at) < distance(floors[k2], at));
    }
}

/// How many floors lie between `a` and `b`.
pub fn floors_between(a: usize, b: usize) -> (d: usize)
    ensures
        d == distance(a, b),
{
    if a > b {
        a - b
    } else {
        b - a
    }
}

} // verus!
