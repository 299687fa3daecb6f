//! The global key/value store: a replicated state machine of namespaces,
//! each a map from byte strings to byte strings, and the per-node cache
//! that mirrors namespaces from snapshots and change notifications.
use vstd::prelude::*;
use std::collections::HashMap;
use crate::ids::UUID;
use crate::kvmap::{copy_bytes, copy_opt, opt_eq, opt_view, KvMap};

verus! {

#[derive(Clone, Copy, PartialEq, Eq, Structural, Debug)]
pub enum GlobalStorageError {
    StoreNotExisted,
    StoreExisted,
    SubscriptionError,
    RemoteError,
}

/// A change of one key of a namespace, announced to its watchers.
#[derive(Debug)]
pub struct Change {
    pub key: Vec<u8>,
    /// The new value; `None` for a deletion.
    pub value: Option<Vec<u8>>,
}

/// `c` announces that `key` now holds `value`.
pub open spec fn change_is(c: Change, key: Seq<u8>, value: Option<Seq<u8>>) -> bool {
    c.key@ == key && opt_view(c.value) == value
}

/// The view of a read's outcome.
pub open spec fn opt_result_view(r: Result<Option<Vec<u8>>, GlobalStorageError>) -> Result<Option<Seq<u8>>, GlobalStorageError> {
    match r {
        Ok(v) => Ok(opt_view(v)),
        Err(e) => Err(e),
    }
}

/// The value under `key`, if any.
pub open spec fn lookup(m: Map<Seq<u8>, Seq<u8>>, key: Seq<u8>) -> Option<Seq<u8>> {
    if m.contains_key(key) {
        Some(m[key])
    } else {
        None
    }
}

/// `m` after writing `val` under `key`; `None` deletes.
pub open spec fn apply_write(m: Map<Seq<u8>, Seq<u8>>, key: Seq<u8>, val: Option<Seq<u8>>) -> Map<Seq<u8>, Seq<u8>> {
    match val {
        Some(v) => m.insert(key, v),
        None => m.remove(key),
    }
}

/// The value a compare-and-swap leaves: `new` if it observed `expect`,
/// else what it observed.
pub open spec fn cas_outcome(expect: Option<Seq<u8>>, actual: Option<Seq<u8>>, new: Option<Seq<u8>>) -> Option<Seq<u8>> {
    if actual == expect {
        new
    } else {
        actual
    }
}

fn write_into(m: &mut KvMap, key: Vec<u8>, val: Option<Vec<u8>>) -> (r: Option<Vec<u8>>)
    requires
        old(m).wf(),
    ensures
        final(m).wf(),
        final(m)@ == apply_write(old(m)@, key@, opt_view(val)),
        opt_view(r) == lookup(old(m)@, key@),
{
    match val {
        Some(v) => m.insert(key, v),
        None => m.remove(&key),
    }
}

/// The replicated state of the global store: namespace to map.
pub struct GlobalStore {
    data: HashMap<u128, KvMap>,
}

impl GlobalStore {
    /// Namespace key to its map.
    pub closed spec fn stores(&self) -> Map<u128, Map<Seq<u8>, Seq<u8>>> {
        self.data@.map_values(|m: KvMap| m@)
    }

    pub closed spec fn wf(&self) -> bool {
        forall|k: u128| #[trigger] self.data@.contains_key(k) ==> self.data@[k].wf()
    }

    pub fn new() -> (r: GlobalStore)
        ensures
            r.wf(),
            r.stores() == Map::<u128, Map<Seq<u8>, Seq<u8>>>::empty(),
    {
        let r = GlobalStore { data: HashMap::new() };
        assert(r.stores() =~= Map::<u128, Map<Seq<u8>, Seq<u8>>>::empty());
        r
    }

    /// Creates the empty namespace `id`; fails if it exists.
    pub fn create_store(&mut self, id: &UUID) -> (r: Result<(), GlobalStorageError>)
        requires
            old(self).wf(),
        ensures
            final(self).wf(),
            old(self).stores().contains_key(id.spec_key()) ==> r == Err::<(), GlobalStorageError>(GlobalStorageError::StoreExisted)
                && final(self).stores() == old(self).stores(),
            !old(self).stores().contains_key(id.spec_key()) ==> r is Ok && final(self).stores() == old(self).stores().insert(
                id.spec_key(),
                Map::empty(),
            ),
    {
        let k = id.key();
        if self.data.contains_key(&k) {
            return Err(GlobalStorageError::StoreExisted);
        }
        self.data.insert(k, KvMap::new());
        assert(self.stores() =~= old(self).stores().insert(k, Map::empty()));
        Ok(())
    }

    /// Drops the namespace `id`; fails if it does not exist.
    pub fn invalidate(&mut self, id: &UUID) -> (r: Result<(), GlobalStorageError>)
        requires
            old(self).wf(),
        ensures
            final(self).wf(),
            !old(self).stores().contains_key(id.spec_key()) ==> r == Err::<(), GlobalStorageError>(GlobalStorageError::StoreNotExisted)
                && final(self).stores() == old(self).stores(),
            old(self).stores().contains_key(id.spec_key()) ==> r is Ok && final(self).stores() == old(self).stores().remove(id.spec_key()),
    {
        let k = id.key();
        if !self.data.contains_key(&k) {
            return Err(GlobalStorageError::StoreNotExisted);
        }
        self.data.remove(&k);
        assert(self.stores() =~= old(self).stores().remove(k));
        Ok(())
    }

    /// Writes `val` under `key` in `id` (`None` deletes); returns the value
    /// it replaced and the change to announce to the namespace's watchers.
    pub fn swap(&mut self, id: &UUID, key: Vec<u8>, val: Option<Vec<u8>>) -> (r: Result<(Option<Vec<u8>>, Change), GlobalStorageError>)
        requires
            old(self).wf(),
        ensures
            final(self).wf(),
            !old(self).stores().contains_key(id.spec_key()) ==> r is Err && r->Err_0 == GlobalStorageError::StoreNotExisted
                && final(self).stores() == old(self).stores(),
            old(self).stores().contains_key(id.spec_key()) ==> r is Ok
                && opt_view(r->Ok_0.0) == lookup(old(self).stores()[id.spec_key()], key@)
                && change_is(r->Ok_0.1, key@, opt_view(val))
                && final(self).stores() == old(self).stores().insert(
                    id.spec_key(),
                    apply_write(old(self).stores()[id.spec_key()], key@, opt_view(val)),
                ),
    {
        let k = id.key();
        match self.data.remove(&k) {
            None => {
                assert(self.data@ =~= old(self).data@);
                Err(GlobalStorageError::StoreNotExisted)
            },
            Some(mut m) => {
                let change = Change { key: copy_bytes(&key), value: copy_opt(&val) };
                let prev = write_into(&mut m, key, val);
                self.data.insert(k, m);
                assert(self.stores() =~= old(self).stores().insert(k, m@));
                Ok((prev, change))
            },
        }
    }

    /// Writes `val` under `key` in `id` (`None` deletes); returns the change
    /// to announce to the namespace's watchers.
    pub fn set(&mut self, id: &UUID, key: Vec<u8>, val: Option<Vec<u8>>) -> (r: Result<Change, GlobalStorageError>)
        requires
            old(self).wf(),
        ensures
            final(self).wf(),
            !old(self).stores().contains_key(id.spec_key()) ==> r is Err && r->Err_0 == GlobalStorageError::StoreNotExisted
                && final(self).stores() == old(self).stores(),
            old(self).stores().contains_key(id.spec_key()) ==> r is Ok && change_is(r->Ok_0, key@, opt_view(val))
                && final(self).stores() == old(self).stores().insert(
                    id.spec_key(),
                    apply_write(old(self).stores()[id.spec_key()], key@, opt_view(val)),
                ),
    {
        match self.swap(id, key, val) {
            Ok((_, change)) => Ok(change),
            Err(e) => Err(e),
        }
    }

    /// Atomically: reads the value under `key` in `id`, writes `val` there
    /// if it equals `expect`, and returns the value it read, with the change
    /// to announce when it wrote.
    pub fn compare_and_swap(&mut self, id: &UUID, key: Vec<u8>, expect: &Option<Vec<u8>>, val: Option<Vec<u8>>) -> (r: Result<(Option<Vec<u8>>, Option<Change>), GlobalStorageError>)
        requires
            old(self).wf(),
        ensures
            final(self).wf(),
            !old(self).stores().contains_key(id.spec_key()) ==> r is Err && r->Err_0 == GlobalStorageError::StoreNotExisted
                && final(self).stores() == old(self).stores(),
            old(self).stores().contains_key(id.spec_key()) ==> r is Ok && cas_post(
                old(self).stores(),
                final(self).stores(),
                id.spec_key(),
                key@,
                opt_view(*expect),
                opt_view(val),
                opt_view(r->Ok_0.0),
            ) && (r->Ok_0.1 is Some <==> opt_view(r->Ok_0.0) == opt_view(*expect))
                && (r->Ok_0.1 is Some ==> change_is(r->Ok_0.1->Some_0, key@, opt_view(val))),
    {
        let k = id.key();
        match self.data.remove(&k) {
            None => {
                assert(self.data@ =~= old(self).data@);
                Err(GlobalStorageError::StoreNotExisted)
            },
            Some(mut m) => {
                let actual = m.get(&key);
                let committed = opt_eq(&actual, expect);
                let mut change: Option<Change> = None;
                if committed {
                    change = Some(Change { key: copy_bytes(&key), value: copy_opt(&val) });
                    write_into(&mut m, key, val);
                }
                self.data.insert(k, m);
                assert(self.stores() =~= old(self).stores().insert(k, m@));
                if !committed {
                    assert(self.stores() =~= old(self).stores());
                }
                Ok((actual, change))
            },
        }
    }

    /// The value under `key` in `id`.
    pub fn get(&self, id: &UUID, key: &Vec<u8>) -> (r: Result<Option<Vec<u8>>, GlobalStorageError>)
        requires
            self.wf(),
        ensures
            !self.stores().contains_key(id.spec_key()) ==> r is Err && r->Err_0 == GlobalStorageError::StoreNotExisted,
            self.stores().contains_key(id.spec_key()) ==> r is Ok && opt_view(r->Ok_0) == lookup(self.stores()[id.spec_key()], key@),
    {
        match self.data.get(&id.key()) {
            None => Err(GlobalStorageError::StoreNotExisted),
            Some(m) => Ok(m.get(key)),
        }
    }

    /// A copy of the whole namespace `id`.
    pub fn dump(&self, id: &UUID) -> (r: Result<KvMap, GlobalStorageError>)
        requires
            self.wf(),
        ensures
            !self.stores().contains_key(id.spec_key()) ==> r is Err && r->Err_0 == GlobalStorageError::StoreNotExisted,
            self.stores().contains_key(id.spec_key()) ==> r is Ok && r->Ok_0.wf() && r->Ok_0@ == self.stores()[id.spec_key()],
    {
        match self.data.get(&id.key()) {
            None => Err(GlobalStorageError::StoreNotExisted),
            Some(m) => Ok(m.copy()),
        }
    }
}

/// What a compare-and-swap on namespace `id` did: it returned the value
/// stored under `key` at that moment, and wrote `new` there exactly when that
/// value was `expect`.
pub open spec fn cas_post(
    before: Map<u128, Map<Seq<u8>, Seq<u8>>>,
    after: Map<u128, Map<Seq<u8>, Seq<u8>>>,
    id: u128,
    key: Seq<u8>,
    expect: Option<Seq<u8>>,
    new: Option<Seq<u8>>,
    actual: Option<Seq<u8>>,
) -> bool {
    &&& actual == lookup(before[id], key)
    &&& actual == expect ==> after == before.insert(id, apply_write(before[id], key, new))
    &&& actual != expect ==> after == before
}

/// A compare-and-swap commits `new` when the value it observes equals
/// `expect` and otherwise leaves the store unchanged; the value it returns is
/// the one stored at that moment.
pub proof fn lemma_global_cas(
    before: Map<u128, Map<Seq<u8>, Seq<u8>>>,
    after: Map<u128, Map<Seq<u8>, Seq<u8>>>,
    id: u128,
    key: Seq<u8>,
    expect: Option<Seq<u8>>,
    new: Option<Seq<u8>>,
    actual: Option<Seq<u8>>,
)
    requires
        before.contains_key(id),
        cas_post(before, after, id, key, expect, new, actual),
    ensures
        actual == lookup(before[id], key),
        lookup(after[id], key) == cas_outcome(expect, actual, new),
        actual != expect ==> after == before,
        forall|k: Seq<u8>| k != key ==> #[trigger] lookup(after[id], k) == lookup(before[id], k),
{
    assert forall|k: Seq<u8>| k != key implies #[trigger] lookup(after[id], k) == lookup(before[id], k) by {
        if actual == expect {
            assert(after[id] == apply_write(before[id], key, new));
        }
    }
}

/// The caches one node keeps of global namespaces.
pub struct GlobalCache {
    caches: HashMap<u128, KvMap>,
}

impl GlobalCache {
    /// Namespace key to its cached map.
    pub closed spec fn cached(&self) -> Map<u128, Map<Seq<u8>, Seq<u8>>> {
        self.caches@.map_values(|m: KvMap| m@)
    }

    pub closed spec fn wf(&self) -> bool {
        forall|k: u128| #[trigger] self.caches@.contains_key(k) ==> self.caches@[k].wf()
    }

    pub fn new() -> (r: GlobalCache)
        ensures
            r.wf(),
            r.cached() == Map::<u128, Map<Seq<u8>, Seq<u8>>>::empty(),
    {
        let r = GlobalCache { caches: HashMap::new() };
        assert(r.cached() =~= Map::<u128, Map<Seq<u8>, Seq<u8>>>::empty());
        r
    }

    /// Installs `snapshot`, a dump of namespace `id`, as its cache. Fails,
    /// changing nothing, if `id` is cached already.
    pub fn prepare(&mut self, id: &UUID, snapshot: KvMap) -> (r: Result<(), GlobalStorageError>)
        requires
            old(self).wf(),
            snapshot.wf(),
        ensures
            final(self).wf(),
            old(self).cached().contains_key(id.spec_key()) ==> r == Err::<(), GlobalStorageError>(GlobalStorageError::StoreNotExisted)
                && final(self).cached() == old(self).cached(),
            !old(self).cached().contains_key(id.spec_key()) ==> r is Ok && final(self).cached() == old(self).cached().insert(
                id.spec_key(),
                snapshot@,
            ),
    {
        let k = id.key();
        if self.caches.contains_key(&k) {
            return Err(GlobalStorageError::StoreNotExisted);
        }
        self.caches.insert(k, snapshot);
        assert(self.cached() =~= old(self).cached().insert(k, snapshot@));
        Ok(())
    }

    /// Applies one change of namespace `id` to its cache, creating the cache
    /// if need be.
    pub fn update_cache(&mut self, id: &UUID, key: Vec<u8>, value: Option<Vec<u8>>)
        requires
            old(self).wf(),
        ensures
            final(self).wf(),
            cache_write_post(old(self).cached(), final(self).cached(), id.spec_key(), key@, opt_view(value)),
    {
        let k = id.key();
        let mut m = match self.caches.remove(&k) {
            Some(m) => m,
            None => KvMap::new(),
        };
        write_into(&mut m, key, value);
        self.caches.insert(k, m);
        assert(self.cached() =~= old(self).cached().insert(k, m@));
    }

    /// Whether namespace `id` is cached here.
    pub fn is_prepared(&self, id: &UUID) -> (r: bool)
        ensures
            r == self.cached().contains_key(id.spec_key()),
    {
        self.caches.contains_key(&id.key())
    }

    /// Applies a change announced for namespace `id`.
    pub fn apply_change(&mut self, id: &UUID, change: Change)
        requires
            old(self).wf(),
        ensures
            final(self).wf(),
            cache_write_post(old(self).cached(), final(self).cached(), id.spec_key(), change.key@, opt_view(change.value)),
    {
        self.update_cache(id, change.key, change.value);
    }

    /// The cached value under `key` in `id`.
    pub fn get_cached(&self, id: &UUID, key: &Vec<u8>) -> (r: Result<Option<Vec<u8>>, GlobalStorageError>)
        requires
            self.wf(),
        ensures
            !self.cached().contains_key(id.spec_key()) ==> r is Err && r->Err_0 == GlobalStorageError::StoreNotExisted,
            self.cached().contains_key(id.spec_key()) ==> r is Ok && opt_view(r->Ok_0) == lookup(self.cached()[id.spec_key()], key@),
    {
        match self.caches.get(&id.key()) {
            None => Err(GlobalStorageError::StoreNotExisted),
            Some(m) => Ok(m.get(key)),
        }
    }

    /// Takes the store's answer to invalidating namespace `id`, which a
    /// client asks only for a namespace it caches (see `is_prepared`), and
    /// on success drops the cache of `id`. A namespace not cached here fails
    /// with `StoreNotExisted`; a failed invalidation changes nothing.
    pub fn invalidate(&mut self, id: &UUID, committed: Result<(), GlobalStorageError>) -> (r: Result<(), GlobalStorageError>)
        requires
            old(self).wf(),
        ensures
            final(self).wf(),
            !old(self).cached().contains_key(id.spec_key()) ==> r == Err::<(), GlobalStorageError>(GlobalStorageError::StoreNotExisted)
                && final(self).cached() == old(self).cached(),
            old(self).cached().contains_key(id.spec_key()) ==> r == committed,
            old(self).cached().contains_key(id.spec_key()) && r is Ok ==> final(self).cached() == old(self).cached().remove(id.spec_key()),
            r is Err ==> final(self).cached() == old(self).cached(),
    {
        let k = id.key();
        if !self.caches.contains_key(&k) {
            return Err(GlobalStorageError::StoreNotExisted);
        }
        match &committed {
            Ok(_) => {
                self.caches.remove(&k);
                assert(self.cached() =~= old(self).cached().remove(k));
                committed
            },
            Err(_) => committed,
        }
    }

    /// Takes the committed outcome of a `set` of `value` under `key` in `id`
    /// and, on success, applies it to this client's cache.
    pub fn set(&mut self, id: &UUID, key: Vec<u8>, value: Option<Vec<u8>>, committed: Result<(), GlobalStorageError>) -> (r: Result<(), GlobalStorageError>)
        requires
            old(self).wf(),
        ensures
            final(self).wf(),
            r == committed,
            r is Err ==> final(self).cached() == old(self).cached(),
            r is Ok ==> cache_write_post(old(self).cached(), final(self).cached(), id.spec_key(), key@, opt_view(value)),
    {
        match &committed {
            Ok(_) => {
                self.update_cache(id, key, value);
                committed
            },
            Err(_) => committed,
        }
    }

    /// Takes a fresh read of `key` in `id` from the store and returns it;
    /// with `update_cache`, a successful read also refreshes the cache.
    pub fn get_newest(&mut self, id: &UUID, key: Vec<u8>, update_cache: bool, fetched: Result<Option<Vec<u8>>, GlobalStorageError>) -> (r: Result<Option<Vec<u8>>, GlobalStorageError>)
        requires
            old(self).wf(),
        ensures
            final(self).wf(),
            opt_result_view(r) == opt_result_view(fetched),
            r is Ok && update_cache ==> cache_write_post(old(self).cached(), final(self).cached(), id.spec_key(), key@, opt_view(r->Ok_0)),
            !(r is Ok && update_cache) ==> final(self).cached() == old(self).cached(),
    {
        match fetched {
            Ok(v) => {
                if update_cache {
                    let c = copy_opt(&v);
                    self.update_cache(id, key, c);
                }
                Ok(v)
            },
            Err(e) => Err(e),
        }
    }

    /// Takes the committed outcome of a `swap` and, on success, applies the
    /// write to this client's cache; returns the replaced value.
    pub fn swap(&mut self, id: &UUID, key: Vec<u8>, value: Option<Vec<u8>>, committed: Result<Option<Vec<u8>>, GlobalStorageError>) -> (r: Result<Option<Vec<u8>>, GlobalStorageError>)
        requires
            old(self).wf(),
        ensures
            final(self).wf(),
            r == committed,
            r is Err ==> final(self).cached() == old(self).cached(),
            r is Ok ==> cache_write_post(old(self).cached(), final(self).cached(), id.spec_key(), key@, opt_view(value)),
    {
        match committed {
            Ok(prev) => {
                self.update_cache(id, key, value);
                Ok(prev)
            },
            Err(e) => Err(e),
        }
    }

    /// Takes the committed outcome of a compare-and-swap of `expect` for
    /// `new` and, on success, caches the value the store holds afterwards;
    /// returns the observed value.
    pub fn compare_and_swap(
        &mut self,
        id: &UUID,
        key: Vec<u8>,
        expect: &Option<Vec<u8>>,
        new: Option<Vec<u8>>,
        committed: Result<Option<Vec<u8>>, GlobalStorageError>,
    ) -> (r: Result<Option<Vec<u8>>, GlobalStorageError>)
        requires
            old(self).wf(),
        ensures
            final(self).wf(),
            r == committed,
            r is Err ==> final(self).cached() == old(self).cached(),
            r is Ok ==> final(self).cached().contains_key(id.spec_key()) && lookup(final(self).cached()[id.spec_key()], key@)
                == cas_outcome(opt_view(*expect), opt_view(r->Ok_0), opt_view(new)),
    {
        match committed {
            Ok(actual) => {
                let stored = if opt_eq(&actual, expect) {
                    new
                } else {
                    copy_opt(&actual)
                };
                self.update_cache(id, key, stored);
                Ok(actual)
            },
            Err(e) => Err(e),
        }
    }
}

/// What to cache for a namespace from the store's answer to a dump:
/// `Some(map)` for a dump, `None` when the namespace does not exist yet (it
/// is to be created and cached empty), the error otherwise.
pub fn snapshot_or_create(dumped: Result<KvMap, GlobalStorageError>) -> (r: Result<Option<KvMap>, GlobalStorageError>)
    ensures
        match dumped {
            Ok(m) => r is Ok && r->Ok_0 == Some(m),
            Err(GlobalStorageError::StoreNotExisted) => r is Ok && r->Ok_0 is None,
            Err(e) => r == Err::<Option<KvMap>, GlobalStorageError>(e),
        },
{
    match dumped {
        Ok(m) => Ok(Some(m)),
        Err(GlobalStorageError::StoreNotExisted) => Ok(None),
        Err(e) => Err(e),
    }
}

/// Whether creating a namespace succeeded for a client about to cache it:
/// a namespace that another client created meanwhile will do.
pub fn created(r: Result<(), GlobalStorageError>) -> (ok: Result<(), GlobalStorageError>)
    ensures
        ok is Ok <==> (r is Ok || r == Err::<(), GlobalStorageError>(GlobalStorageError::StoreExisted)),
        ok is Err ==> ok == r,
{
    match r {
        Ok(()) => Ok(()),
        Err(GlobalStorageError::StoreExisted) => Ok(()),
        Err(e) => Err(e),
    }
}

/// `after` is the cache `before` once `value` was written under `key` in
/// namespace `id` (a namespace not cached yet starts empty).
pub open spec fn cache_write_post(
    before: Map<u128, Map<Seq<u8>, Seq<u8>>>,
    after: Map<u128, Map<Seq<u8>, Seq<u8>>>,
    id: u128,
    key: Seq<u8>,
    value: Option<Seq<u8>>,
) -> bool {
    after == before.insert(
        id,
        apply_write(
            if before.contains_key(id) {
                before[id]
            } else {
                Map::empty()
            },
            key,
            value,
        ),
    )
}

/// After a successful write through a client, that client's cache holds the
/// namespace and reading the key from it gives the written value; other
/// keys and namespaces are as they were.
pub proof fn lemma_cache_write_visible(
    before: Map<u128, Map<Seq<u8>, Seq<u8>>>,
    after: Map<u128, Map<Seq<u8>, Seq<u8>>>,
    id: u128,
    key: Seq<u8>,
    value: Option<Seq<u8>>,
)
    requires
        cache_write_post(before, after, id, key, value),
    ensures
        after.contains_key(id),
        lookup(after[id], key) == value,
        forall|k: Seq<u8>| k != key && before.contains_key(id) ==> #[trigger] lookup(after[id], k) == lookup(before[id], k),
        forall|n: u128| n != id ==> #[trigger] after.contains_key(n) == before.contains_key(n),
{
}

} // verus!
