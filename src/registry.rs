//! The location registry of immutable data: for each registry (one per
//! task), the set of servers known to hold each key. Sets only grow while a
//! registry lives.
use vstd::prelude::*;
use std::collections::HashMap;
use crate::ids::UUID;

verus! {

#[derive(Clone, Copy, PartialEq, Eq, Structural, Debug)]
pub enum ImmutableStorageRegistryError {
    RegistryNotExisted,
    RegistryExisted,
}

/// The replicated location registry of immutable data.
pub struct ImmutableStorageRegistry {
    registry: HashMap<u128, HashMap<u128, Vec<u64>>>,
}

/// A copy of a list of server ids.
fn copy_ids(v: &Vec<u64>) -> (r: Vec<u64>)
    ensures
        r@ == v@,
{
    let mut r: Vec<u64> = Vec::with_capacity(v.len());
    let mut i: usize = 0;
    while i < v.len()
        invariant
            i <= v@.len(),
            r@ == v@.subrange(0, i as int),
        decreases v@.len() - i,
    {
        r.push(v[i]);
        assert(r@ =~= v@.subrange(0, i + 1));
        i = i + 1;
    }
    assert(r@ =~= v@);
    r
}

impl ImmutableStorageRegistry {
    /// Registry key to key to the set of servers holding it.
    pub closed spec fn locations(&self) -> Map<u128, Map<u128, Set<u64>>> {
        self.registry@.map_values(|m: HashMap<u128, Vec<u64>>| m@.map_values(|v: Vec<u64>| v@.to_set()))
    }

    /// No server is listed twice for one key.
    pub closed spec fn wf(&self) -> bool {
        forall|r: u128, k: u128| #[trigger] self.registry@.contains_key(r) && #[trigger] self.registry@[r]@.contains_key(k)
            ==> self.registry@[r]@[k]@.no_duplicates()
    }

    pub fn new() -> (r: ImmutableStorageRegistry)
        ensures
            r.wf(),
            r.locations() == Map::<u128, Map<u128, Set<u64>>>::empty(),
    {
        let r = ImmutableStorageRegistry { registry: HashMap::new() };
        assert(r.locations() =~= Map::<u128, Map<u128, Set<u64>>>::empty());
        r
    }

    /// Opens the empty registry `id`; fails if it exists.
    pub fn create_registry(&mut self, id: &UUID) -> (r: Result<(), ImmutableStorageRegistryError>)
        requires
            old(self).wf(),
        ensures
            final(self).wf(),
            old(self).locations().contains_key(id.spec_key()) ==> r == Err::<(), ImmutableStorageRegistryError>(
                ImmutableStorageRegistryError::RegistryExisted,
            ) && final(self).locations() == old(self).locations(),
            !old(self).locations().contains_key(id.spec_key()) ==> r is Ok && final(self).locations() == old(self).locations().insert(
                id.spec_key(),
                Map::empty(),
            ),
    {
        let k = id.key();
        if self.registry.contains_key(&k) {
            return Err(ImmutableStorageRegistryError::RegistryExisted);
        }
        self.registry.insert(k, HashMap::new());
        proof {
            assert(self.locations()[k] =~= Map::empty());
            assert(self.locations() =~= old(self).locations().insert(k, Map::empty()));
        }
        Ok(())
    }

    /// Drops the registry `id`; fails if it does not exist.
    pub fn dispose_registry(&mut self, id: &UUID) -> (r: Result<(), ImmutableStorageRegistryError>)
        requires
            old(self).wf(),
        ensures
            final(self).wf(),
            !old(self).locations().contains_key(id.spec_key()) ==> r == Err::<(), ImmutableStorageRegistryError>(
                ImmutableStorageRegistryError::RegistryNotExisted,
            ) && final(self).locations() == old(self).locations(),
            old(self).locations().contains_key(id.spec_key()) ==> r is Ok && final(self).locations() == old(self).locations().remove(id.spec_key()),
    {
        let k = id.key();
        match self.registry.remove(&k) {
            Some(_) => {
                assert(self.locations() =~= old(self).locations().remove(k));
                Ok(())
            },
            None => {
                assert(self.registry@ =~= old(self).registry@);
                Err(ImmutableStorageRegistryError::RegistryNotExisted)
            },
        }
    }

    /// Adds `server` to the holders of `key` in registry `id`.
    pub fn set_location(&mut self, id: &UUID, key: &UUID, server: u64) -> (r: Result<(), ImmutableStorageRegistryError>)
        requires
            old(self).wf(),
        ensures
            final(self).wf(),
            !old(self).locations().contains_key(id.spec_key()) ==> r == Err::<(), ImmutableStorageRegistryError>(
                ImmutableStorageRegistryError::RegistryNotExisted,
            ) && final(self).locations() == old(self).locations(),
            old(self).locations().contains_key(id.spec_key()) ==> r is Ok && final(self).locations() == old(self).locations().insert(
                id.spec_key(),
                old(self).locations()[id.spec_key()].insert(key.spec_key(), holders(old(self).locations(), id.spec_key(), key.spec_key()).insert(server)),
            ),
    {
        let rk = id.key();
        let kk = key.key();
        match self.registry.remove(&rk) {
            None => {
                assert(self.registry@ =~= old(self).registry@);
                Err(ImmutableStorageRegistryError::RegistryNotExisted)
            },
            Some(mut m) => {
                let ghost m0 = m@;
                let mut servers = match m.remove(&kk) {
                    Some(v) => v,
                    None => Vec::new(),
                };
                let ghost s0 = servers@;
                proof {
                    if m0.contains_key(kk) {
                        assert(old(self).registry@.contains_key(rk));
                        assert(old(self).registry@[rk]@.contains_key(kk));
                    } else {
                        assert(s0.to_set() =~= Set::<u64>::empty());
                    }
                }
                let mut i: usize = 0;
                let mut found = false;
                while i < servers.len()
                    invariant
                        servers@ == s0,
                        i <= s0.len(),
                        found == exists|j: int| 0 <= j < i && s0[j] == server,
                    decreases s0.len() - i,
                {
                    if servers[i] == server {
                        found = true;
                    }
                    i = i + 1;
                }
                if !found {
                    servers.push(server);
                    proof {
                        s0.lemma_push_to_set_commute(server);
                        assert(servers@ == s0.push(server));
                        assert forall|p: int, q: int| 0 <= p < servers@.len() && 0 <= q < servers@.len() && p != q
                            implies servers@[p] != servers@[q] by {
                            if p < s0.len() && q < s0.len() {
                            } else if p < s0.len() {
                                assert(s0[p] != server);
                            } else {
                                assert(s0[q] != server);
                            }
                        }
                    }
                } else {
                    proof {
                        assert(s0.contains(server));
                        assert(s0.to_set() =~= s0.to_set().insert(server));
                    }
                }
                let ghost sv = servers@;
                m.insert(kk, servers);
                self.registry.insert(rk, m);
                proof {
                    let old_loc = old(self).locations();
                    let inner = old_loc[rk].insert(kk, sv.to_set());
                    assert(self.locations()[rk] =~= inner);
                    assert(self.locations() =~= old_loc.insert(rk, inner));
                    assert forall|r: u128, k: u128| #[trigger] self.registry@.contains_key(r) && #[trigger] self.registry@[r]@.contains_key(k)
                        implies self.registry@[r]@[k]@.no_duplicates() by {
                        if r != rk || k != kk {
                            assert(old(self).registry@.contains_key(r));
                            assert(old(self).registry@[r]@.contains_key(k));
                        }
                    }
                }
                Ok(())
            },
        }
    }

    /// The servers holding `key` in registry `id`, each once; `None` if the
    /// key is unknown there.
    pub fn get_location(&self, id: &UUID, key: &UUID) -> (r: Result<Option<Vec<u64>>, ImmutableStorageRegistryError>)
        requires
            self.wf(),
        ensures
            !self.locations().contains_key(id.spec_key()) ==> r == Err::<Option<Vec<u64>>, ImmutableStorageRegistryError>(
                ImmutableStorageRegistryError::RegistryNotExisted,
            ),
            self.locations().contains_key(id.spec_key()) && !self.locations()[id.spec_key()].contains_key(key.spec_key())
                ==> r == Ok::<Option<Vec<u64>>, ImmutableStorageRegistryError>(None),
            self.locations().contains_key(id.spec_key()) && self.locations()[id.spec_key()].contains_key(key.spec_key())
                ==> r is Ok && r->Ok_0 is Some && r->Ok_0->Some_0@.to_set() == self.locations()[id.spec_key()][key.spec_key()]
                && r->Ok_0->Some_0@.no_duplicates(),
    {
        let rk = id.key();
        let kk = key.key();
        match self.registry.get(&rk) {
            None => Err(ImmutableStorageRegistryError::RegistryNotExisted),
            Some(m) => match m.get(&kk) {
                None => Ok(None),
                Some(v) => {
                    proof {
                        assert(self.registry@.contains_key(rk));
                        assert(self.registry@[rk]@.contains_key(kk));
                    }
                    Ok(Some(copy_ids(v)))
                },
            },
        }
    }
}

/// The servers known to hold `key` in registry `id`; none if unknown.
pub open spec fn holders(loc: Map<u128, Map<u128, Set<u64>>>, id: u128, key: u128) -> Set<u64> {
    if loc.contains_key(id) && loc[id].contains_key(key) {
        loc[id][key]
    } else {
        Set::empty()
    }
}

/// Registering a location never takes a server away: every holder of every
/// key before a `set_location` is still one after it, and the new server is
/// one too.
pub proof fn lemma_locations_monotonic(
    before: Map<u128, Map<u128, Set<u64>>>,
    after: Map<u128, Map<u128, Set<u64>>>,
    id: u128,
    key: u128,
    server: u64,
)
    requires
        before.contains_key(id),
        after == before.insert(id, before[id].insert(key, holders(before, id, key).insert(server))),
    ensures
        forall|r: u128, k: u128| #[trigger] holders(before, r, k).subset_of(holders(after, r, k)),
        holders(after, id, key).contains(server),
{
}

} // verus!
