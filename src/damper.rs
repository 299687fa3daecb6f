//! Damping of parallel clones: of the readers on one node that miss the same
//! block, the first clones it and the others wait for that clone to end and
//! then look for the block locally again.
use vstd::prelude::*;
use std::collections::HashSet;
use crate::ids::UUID;

verus! {

/// The blocks of this node that are being cloned.
pub struct CloneDamperManager {
    blocks: HashSet<u128>,
}

/// `after` is `before` once a reader of block `id` asked to clone it and
/// got `cloning`: it clones exactly when no clone of the block was under way,
/// and afterwards one is.
pub open spec fn damp_post(before: Set<u128>, after: Set<u128>, id: u128, cloning: bool) -> bool {
    &&& cloning == !before.contains(id)
    &&& after == before.insert(id)
}

impl CloneDamperManager {
    /// The blocks being cloned.
    pub closed spec fn cloning(&self) -> Set<u128> {
        self.blocks@
    }

    pub fn new() -> (r: CloneDamperManager)
        ensures
            r.cloning() == Set::<u128>::empty(),
    {
        CloneDamperManager { blocks: HashSet::new() }
    }

    /// Asks to clone block `id`: `true` means this reader clones it and must
    /// call `finish` when done; `false` means a clone is under way.
    pub fn damp(&mut self, id: &UUID) -> (r: bool)
        ensures
            damp_post(old(self).cloning(), final(self).cloning(), id.spec_key(), r),
    {
        let k = id.key();
        if self.blocks.contains(&k) {
            proof {
                assert(self.blocks@ =~= old(self).blocks@.insert(k));
            }
            false
        } else {
            self.blocks.insert(k);
            true
        }
    }

    /// Whether a clone of block `id` is under way.
    pub fn is_cloning(&self, id: &UUID) -> (r: bool)
        ensures
            r == self.cloning().contains(id.spec_key()),
    {
        self.blocks.contains(&id.key())
    }

    /// Ends the clone of block `id`, successful or not.
    pub fn finish(&mut self, id: &UUID)
        ensures
            final(self).cloning() == old(self).cloning().remove(id.spec_key()),
    {
        self.blocks.remove(&id.key());
    }
}

/// Of any number of readers that ask to clone one block while no clone of it
/// is under way, and with none finishing meanwhile, exactly the first clones.
pub proof fn lemma_clone_damping(states: Seq<Set<u128>>, results: Seq<bool>, id: u128)
    requires
        states.len() == results.len() + 1,
        !states[0].contains(id),
        forall|i: int| 0 <= i < results.len() ==> damp_post(#[trigger] states[i], states[i + 1], id, results[i]),
    ensures
        results.len() > 0 ==> results[0],
        forall|i: int| 0 < i < results.len() ==> !(#[trigger] results[i]),
{
    assert forall|i: int| 0 < i < results.len() implies !(#[trigger] results[i]) by {
        lemma_damped_holds(states, results, id, i);
    }
}

proof fn lemma_damped_holds(states: Seq<Set<u128>>, results: Seq<bool>, id: u128, i: int)
    requires
        states.len() == results.len() + 1,
        forall|k: int| 0 <= k < results.len() ==> damp_post(#[trigger] states[k], states[k + 1], id, results[k]),
        0 < i <= results.len(),
    ensures
        states[i].contains(id),
    decreases i,
{
    if i > 1 {
        lemma_damped_holds(states, results, id, i - 1);
    }
    assert(damp_post(states[i - 1], states[i], id, results[i - 1]));
}

} // verus!
