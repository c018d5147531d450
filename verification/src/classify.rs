//! Nearest-root classification.
//!
//! A polished point is assigned to the root it landed on by a linear scan for
//! the minimum squared distance. Distances arrive here already scaled to
//! integer keys (the fixed multiple of the squared distance that the renderer
//! compares by), so the choice of winner — including the tie rule — is exact:
//! the first index holding the minimal key wins.
use vstd::prelude::*;

verus! {

/// Index of the first minimal key: the nearest root, ties going to the lower
/// index.
pub fn nearest_root(distance_keys: &Vec<u32>) -> (r: usize)
    requires
        distance_keys.len() > 0,
    ensures
        r < distance_keys.len(),
        forall|i: int| 0 <= i < distance_keys.len() ==> distance_keys[r as int] <= #[trigger] distance_keys[i],
        forall|i: int| 0 <= i < r ==> #[trigger] distance_keys[i] > distance_keys[r as int],
{
    let mut best: usize = 0;
    let mut j: usize = 1;
    while j < distance_keys.len()
        invariant
            best < j <= distance_keys.len(),
            forall|i: int| 0 <= i < j ==> distance_keys[best as int] <= #[trigger] distance_keys[i],
            forall|i: int| 0 <= i < best ==> #[trigger] distance_keys[i] > distance_keys[best as int],
        decreases distance_keys.len() - j,
    {
        if distance_keys[j] < distance_keys[best] {
            best = j;
        }
        j = j + 1;
    }
    best
}

/// Law: a query equidistant from two roots always resolves to the lower
/// index. Any index whose key equals the winning key lies at or above the
/// winner.
pub proof fn lemma_tie_resolves_to_lower_index(keys: Seq<u32>, r: int, i: int)
    requires
        0 <= r < keys.len(),
        0 <= i < keys.len(),
        forall|j: int| 0 <= j < keys.len() ==> keys[r] <= #[trigger] keys[j],
        forall|j: int| 0 <= j < r ==> #[trigger] keys[j] > keys[r],
        keys[i] == keys[r],
    ensures
        r <= i,
{
}

/// Law: classification is deterministic. The stated result — first index of
/// the minimal key — is unique, so repeated calls over the same keys agree.
pub proof fn lemma_classification_deterministic(keys: Seq<u32>, r1: int, r2: int)
    requires
        0 <= r1 < keys.len(),
        0 <= r2 < keys.len(),
        forall|j: int| 0 <= j < keys.len() ==> keys[r1] <= #[trigger] keys[j],
        forall|j: int| 0 <= j < r1 ==> #[trigger] keys[j] > keys[r1],
        forall|j: int| 0 <= j < keys.len() ==> keys[r2] <= #[trigger] keys[j],
        forall|j: int| 0 <= j < r2 ==> #[trigger] keys[j] > keys[r2],
    ensures
        r1 == r2,
{
    assert(keys[r1] <= keys[r2] && keys[r2] <= keys[r1]);
}

} // verus!
