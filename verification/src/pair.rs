//! The pairing between a terrain cell and its live water cell. A pair is
//! created when water is spawned, never mutated, and destroyed when the
//! water cell despawns.

use vstd::prelude::*;

verus! {

/// Binds the terrain cell at index `ground` to the water cell carrying
/// the stable identifier `water`.
#[derive(Clone, Copy, Debug)]
pub struct Pair {
    pub ground: usize,
    pub water: u64,
}

/// The position of the first pair that binds terrain cell `ground`, if
/// any. Lookups scan pairs front to back, so this is the pair a lookup
/// resolves to (and, under the pairing-uniqueness invariant, the only
/// one).
pub open spec fn pair_for(pairs: Seq<Pair>, ground: usize) -> Option<int>
    decreases pairs.len(),
{
    if pairs.len() == 0 {
        None
    } else if pairs[0].ground == ground {
        Some(0)
    } else {
        match pair_for(pairs.skip(1), ground) {
            Some(k) => Some(k + 1),
            None => None,
        }
    }
}

/// `pair_for` is exactly the first matching position.
pub proof fn lemma_pair_for_at(pairs: Seq<Pair>, ground: usize, k: int)
    requires
        0 <= k <= pairs.len(),
        forall|t: int| 0 <= t < k ==> (#[trigger] pairs[t]).ground != ground,
        k < pairs.len() ==> pairs[k].ground == ground,
    ensures
        pair_for(pairs, ground) == if k < pairs.len() { Some(k) } else { None::<int> },
    decreases pairs.len(),
{
    if pairs.len() > 0 && pairs[0].ground != ground {
        assert(k >= 1);
        assert forall|t: int| 0 <= t < k - 1 implies (#[trigger] pairs.skip(1)[t]).ground != ground by {
            assert(pairs.skip(1)[t] == pairs[t + 1]);
        }
        lemma_pair_for_at(pairs.skip(1), ground, k - 1);
    }
}

} // verus!
