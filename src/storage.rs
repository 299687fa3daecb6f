//! A node's storage components and the immutable read path: a read of a
//! block the node does not hold clones the block from a replica first,
//! with parallel clones of one block damped to one.
use vstd::prelude::*;
use crate::block_server::{BlockOwnerServer, BlockServiceError};
use crate::damper::CloneDamperManager;
use crate::global::GlobalCache;
use crate::ids::UUID;
use crate::block::{file_after, FileAction};
use crate::record::{framed, views};
use std::collections::{HashMap, HashSet};

verus! {

/// Records pulled from a replica per batch while cloning a block.
pub const BLOCK_COPY_BUFFER: u64 = 50;

/// The storage side of one node.
pub struct StorageManagers {
    pub block: BlockOwnerServer,
    pub global: GlobalCache,
    pub damper: CloneDamperManager,
    pub server_id: u64,
    /// Per task, the immutable blocks and keys this node registered itself as
    /// holding.
    pub owned: HashMap<u128, HashSet<u128>>,
}

/// What to do next for a read of an immutable block.
#[derive(Debug)]
pub enum ReadStep {
    /// Serve the read from the local block.
    Local,
    /// Clone the block from these servers, in turn, until one clone
    /// succeeds; then finish the clone and serve the read locally.
    Clone(Vec<u64>),
    /// A clone of this block is under way: wait for it, then plan again.
    Wait,
    /// The block is nowhere to be had.
    Fail,
}

impl StorageManagers {
    pub open spec fn wf(&self) -> bool {
        self.block.wf() && self.global.wf()
    }

    pub fn new(store_path: String, server_id: u64) -> (r: StorageManagers)
        ensures
            r.wf(),
            r.block.tasks() == Map::<u128, Map<u128, crate::block::LocalOwnedBlock>>::empty(),
            r.damper.cloning() == Set::<u128>::empty(),
            r.server_id == server_id,
            r.owned_keys() == Set::<(u128, u128)>::empty(),
    {
        let r = StorageManagers {
            block: BlockOwnerServer::new(store_path),
            global: GlobalCache::new(),
            damper: CloneDamperManager::new(),
            server_id,
            owned: HashMap::new(),
        };
        assert(r.owned_keys() =~= Set::<(u128, u128)>::empty());
        r
    }

    /// Plans a read of block `id` of `task`, given the replica set that the
    /// location registry gave for it. A block held locally is read locally;
    /// else, if no clone of it is under way, this read clones it from the
    /// replicas, other than this node, and marks the clone as under way.
    pub fn plan_read(&mut self, task: &UUID, id: &UUID, replicas: Option<Vec<u64>>) -> (r: ReadStep)
        requires
            old(self).wf(),
        ensures
            final(self).wf(),
            final(self).block == old(self).block,
            final(self).global == old(self).global,
            final(self).server_id == old(self).server_id,
            final(self).owned_keys() == old(self).owned_keys(),
            plan_read_post(*old(self), *final(self), task.spec_key(), id.spec_key(), candidates(replicas, old(self).server_id), r),
    {
        let local = match self.block.contains_block(task, id) {
            Ok(b) => b,
            Err(_) => false,
        };
        if local {
            return ReadStep::Local;
        }
        let servers = other_servers(replicas, self.server_id);
        if self.damper.is_cloning(id) {
            return ReadStep::Wait;
        }
        if servers.len() == 0 {
            return ReadStep::Fail;
        }
        self.damper.damp(id);
        ReadStep::Clone(servers)
    }

    /// Takes one batch read from a replica during a clone of block `id` of
    /// `task`, appends it locally (creating the block if need be), and
    /// returns whether the clone is complete, that is whether the batch was
    /// empty, with what to do to the block's spill file.
    pub fn absorb_batch(&mut self, task: &UUID, id: &UUID, batch: Vec<Vec<u8>>) -> (r: Result<(bool, FileAction), BlockServiceError>)
        requires
            old(self).wf(),
        ensures
            final(self).wf(),
            final(self).global == old(self).global,
            final(self).damper == old(self).damper,
            final(self).server_id == old(self).server_id,
            final(self).owned_keys() == old(self).owned_keys(),
            !old(self).block.tasks().contains_key(task.spec_key()) ==> r is Err && r->Err_0 == BlockServiceError::NoTask
                && final(self).block.tasks() == old(self).block.tasks(),
            old(self).block.tasks().contains_key(task.spec_key()) ==> ({
                let recs = old(self).block.records_of(task.spec_key(), id.spec_key());
                let file = old(self).block.file_of(task.spec_key(), id.spec_key());
                let nb = final(self).block.tasks()[task.spec_key()][id.spec_key()];
                &&& crate::block_server::only_block_changed(old(self).block.tasks(), final(self).block.tasks(), task.spec_key(), id.spec_key())
                &&& (r is Ok <==> framed(recs).len() + framed(views(batch@)).len() <= u64::MAX)
                &&& r is Ok ==> r->Ok_0.0 == (batch@.len() == 0) && nb.records() == recs + views(batch@)
                    && nb.spec_file() == file_after(file, r->Ok_0.1)
                &&& r is Err ==> r->Err_0 == BlockServiceError::TooLarge && nb.records() == recs && nb.spec_file() == file
            }),
    {
        let done = batch.len() == 0;
        match self.block.write(task, id, batch) {
            Ok((_, action)) => Ok((done, action)),
            Err(e) => Err(e),
        }
    }

    /// Decides what follows one attempt to clone block `id` of `task` from a
    /// replica. A successful copy ends the clone, records the block as held
    /// here and is read locally (`register` says whether this node must still
    /// add itself to the location registry). A failed one drops the partial
    /// copy; the next replica is tried if one is left, else the clone ends
    /// and the read fails.
    pub fn clone_attempt_done(&mut self, task: &UUID, id: &UUID, copied: bool, replicas_left: bool) -> (r: CloneNext)
        requires
            old(self).wf(),
        ensures
            final(self).wf(),
            final(self).global == old(self).global,
            final(self).server_id == old(self).server_id,
            copied ==> r == (CloneNext::ReadLocal { register: !old(self).owned_keys().contains((task.spec_key(), id.spec_key())) })
                && final(self).block == old(self).block
                && final(self).damper.cloning() == old(self).damper.cloning().remove(id.spec_key())
                && final(self).owned_keys() == old(self).owned_keys().insert((task.spec_key(), id.spec_key())),
            !copied ==> final(self).owned_keys() == old(self).owned_keys()
                && !final(self).block.has_block(task.spec_key(), id.spec_key())
                && final(self).block.tasks() == without_block(old(self).block, task.spec_key(), id.spec_key()),
            !copied && replicas_left ==> r == CloneNext::TryNext && final(self).damper.cloning() == old(self).damper.cloning(),
            !copied && !replicas_left ==> r == CloneNext::Fail
                && final(self).damper.cloning() == old(self).damper.cloning().remove(id.spec_key()),
    {
        if copied {
            let register = self.complete_clone(task, id);
            return CloneNext::ReadLocal { register };
        }
        let _ = self.block.remove(task, id);
        if replicas_left {
            CloneNext::TryNext
        } else {
            self.damper.finish(id);
            CloneNext::Fail
        }
    }

    /// Ends the clone of block `id`, successful or not, so that waiting
    /// readers look again.
    pub fn finish_clone(&mut self, id: &UUID)
        ensures
            final(self).block == old(self).block,
            final(self).global == old(self).global,
            final(self).server_id == old(self).server_id,
            final(self).damper.cloning() == old(self).damper.cloning().remove(id.spec_key()),
    {
        self.damper.finish(id);
    }
}

impl StorageManagers {
    /// The (task, key) pairs this node registered itself as holding.
    pub closed spec fn owned_keys(&self) -> Set<(u128, u128)> {
        Set::new(|p: (u128, u128)| self.owned@.contains_key(p.0) && self.owned@[p.0]@.contains(p.1))
    }

    /// Records that this node holds `key` of `task`; `true` when it was not
    /// recorded before, that is when the node must still add itself to the
    /// location registry for it.
    pub fn mark_owned(&mut self, task: &UUID, key: &UUID) -> (r: bool)
        ensures
            final(self).block == old(self).block,
            final(self).global == old(self).global,
            final(self).damper == old(self).damper,
            final(self).server_id == old(self).server_id,
            r == !old(self).owned_keys().contains((task.spec_key(), key.spec_key())),
            final(self).owned_keys() == old(self).owned_keys().insert((task.spec_key(), key.spec_key())),
    {
        let t = task.key();
        let k = key.key();
        let mut keys = match self.owned.remove(&t) {
            Some(keys) => keys,
            None => HashSet::new(),
        };
        let fresh = !keys.contains(&k);
        keys.insert(k);
        self.owned.insert(t, keys);
        proof {
            let want = old(self).owned_keys().insert((t, k));
            assert forall|p: (u128, u128)| #[trigger] self.owned_keys().contains(p) <==> want.contains(p) by {
                if p.0 == t {
                    assert(self.owned@[t]@ == keys@);
                } else {
                    assert(self.owned@[p.0] == old(self).owned@[p.0]);
                }
            }
            assert(self.owned_keys() =~= want);
        }
        fresh
    }

    /// Appends `items` to block `id` of `task` on this node.
    pub fn write(&mut self, task: &UUID, id: &UUID, items: Vec<Vec<u8>>) -> (r: Result<(Vec<u64>, FileAction), BlockServiceError>)
        requires
            old(self).wf(),
        ensures
            final(self).wf(),
            final(self).global == old(self).global,
            final(self).damper == old(self).damper,
            final(self).server_id == old(self).server_id,
            final(self).owned_keys() == old(self).owned_keys(),
            !old(self).block.tasks().contains_key(task.spec_key()) ==> r is Err && r->Err_0 == BlockServiceError::NoTask
                && final(self).block.tasks() == old(self).block.tasks(),
            old(self).block.tasks().contains_key(task.spec_key()) ==> ({
                let recs = old(self).block.records_of(task.spec_key(), id.spec_key());
                &&& crate::block_server::only_block_changed(old(self).block.tasks(), final(self).block.tasks(), task.spec_key(), id.spec_key())
                &&& (r is Ok <==> framed(recs).len() + framed(views(items@)).len() <= u64::MAX)
                &&& r is Ok ==> final(self).block.records_of(task.spec_key(), id.spec_key()) == recs + views(items@)
                    && r->Ok_0.0@.len() == items@.len()
                    && (forall|i: int| 0 <= i < items@.len() ==> #[trigger] r->Ok_0.0@[i] as nat
                        == framed(recs).len() + framed(views(items@).take(i)).len())
                    && final(self).block.file_of(task.spec_key(), id.spec_key())
                        == file_after(old(self).block.file_of(task.spec_key(), id.spec_key()), r->Ok_0.1)
                &&& r is Err ==> r->Err_0 == BlockServiceError::TooLarge
                    && final(self).block.records_of(task.spec_key(), id.spec_key()) == recs
                    && final(self).block.file_of(task.spec_key(), id.spec_key()) == old(self).block.file_of(task.spec_key(), id.spec_key())
            }),
    {
        self.block.write(task, id, items)
    }

    /// Stores `value` under `key` of `task`. All immutable values of a task
    /// share one block, the one whose id is the task's.
    pub fn set(&mut self, task: &UUID, key: &UUID, value: Vec<u8>) -> (r: Result<FileAction, BlockServiceError>)
        requires
            old(self).wf(),
        ensures
            final(self).wf(),
            final(self).global == old(self).global,
            final(self).damper == old(self).damper,
            final(self).server_id == old(self).server_id,
            final(self).owned_keys() == old(self).owned_keys(),
            value_stored(old(self).block, final(self).block, task.spec_key(), key.spec_key(), value@, r),
    {
        self.block.set(task, task, key, value)
    }

    /// Keeps, on this node, a value of `key` of `task` fetched from a
    /// replica, and records the key as held here. `Ok(true)` means this node
    /// must still add itself to the location registry for the key.
    pub fn take_remote_value(&mut self, task: &UUID, key: &UUID, value: Vec<u8>) -> (r: Result<(bool, FileAction), BlockServiceError>)
        requires
            old(self).wf(),
        ensures
            final(self).wf(),
            final(self).global == old(self).global,
            final(self).damper == old(self).damper,
            final(self).server_id == old(self).server_id,
            value_stored(old(self).block, final(self).block, task.spec_key(), key.spec_key(), value@, match r {
                Ok((_, a)) => Ok::<FileAction, BlockServiceError>(a),
                Err(e) => Err(e),
            }),
            r is Ok ==> r->Ok_0.0 == !old(self).owned_keys().contains((task.spec_key(), key.spec_key()))
                && final(self).owned_keys() == old(self).owned_keys().insert((task.spec_key(), key.spec_key())),
            r is Err ==> final(self).owned_keys() == old(self).owned_keys(),
    {
        match self.set(task, key, value) {
            Ok(action) => Ok((self.mark_owned(task, key), action)),
            Err(e) => Err(e),
        }
    }

    /// Ends a successful clone of block `id` of `task`: waiting readers may
    /// look again, and the block is recorded as held here. `true` means this
    /// node must still add itself to the location registry for the block.
    pub fn complete_clone(&mut self, task: &UUID, id: &UUID) -> (r: bool)
        ensures
            final(self).block == old(self).block,
            final(self).global == old(self).global,
            final(self).server_id == old(self).server_id,
            final(self).damper.cloning() == old(self).damper.cloning().remove(id.spec_key()),
            r == !old(self).owned_keys().contains((task.spec_key(), id.spec_key())),
            final(self).owned_keys() == old(self).owned_keys().insert((task.spec_key(), id.spec_key())),
    {
        self.damper.finish(id);
        self.mark_owned(task, id)
    }

    /// The value stored on this node under `key` of `task`, if any; `file`
    /// holds the spill file of block `(task, task)` if that block has spilled.
    pub fn local_get(&self, task: &UUID, key: &UUID, file: &Vec<u8>) -> (r: Option<Vec<u8>>)
        requires
            self.wf(),
            self.block.file_given(task.spec_key(), task.spec_key(), file@),
        ensures
            match r {
                Some(v) => self.block.has_block(task.spec_key(), task.spec_key())
                    && self.block.tasks()[task.spec_key()][task.spec_key()].kv_value(key.spec_key()) == Some(v@),
                None => !self.block.has_block(task.spec_key(), task.spec_key())
                    || self.block.tasks()[task.spec_key()][task.spec_key()].kv_value(key.spec_key()) is None,
            },
    {
        match self.block.get(task, task, key, file) {
            Ok(v) => v,
            Err(_) => None,
        }
    }
}

/// What planning a read of block `id` of `task` did, with `cands` the
/// replicas other than this node: a block held here is read here; else a
/// reader waits while a clone of the block is under way; else it clones
/// from the replicas, marking the clone as under way, or fails if there are
/// none.
pub open spec fn plan_read_post(
    before: StorageManagers,
    after: StorageManagers,
    t: u128,
    id: u128,
    cands: Seq<u64>,
    r: ReadStep,
) -> bool {
    &&& before.block.has_block(t, id) ==> r is Local && after.damper.cloning() == before.damper.cloning()
    &&& !before.block.has_block(t, id) && before.damper.cloning().contains(id) ==> r is Wait
        && after.damper.cloning() == before.damper.cloning()
    &&& !before.block.has_block(t, id) && !before.damper.cloning().contains(id) ==> match r {
        ReadStep::Clone(servers) => servers@.len() > 0 && servers@ == cands
            && after.damper.cloning() == before.damper.cloning().insert(id),
        ReadStep::Fail => cands.len() == 0 && after.damper.cloning() == before.damper.cloning(),
        _ => false,
    }
}

/// A node that holds a block reads it locally and starts no clone of it.
pub proof fn lemma_no_reclone(
    before: StorageManagers,
    after: StorageManagers,
    t: u128,
    id: u128,
    cands: Seq<u64>,
    r: ReadStep,
)
    requires
        before.block.has_block(t, id),
        plan_read_post(before, after, t, id, cands, r),
    ensures
        r is Local,
        after.damper.cloning() == before.damper.cloning(),
{
}

/// Of any number of readers that plan reads of a block this node does not
/// hold, while no clone of it is under way and none finishes meanwhile,
/// exactly the first clones it and all others wait.
pub proof fn lemma_read_damping(states: Seq<StorageManagers>, steps: Seq<ReadStep>, t: u128, id: u128, cands: Seq<u64>)
    requires
        states.len() == steps.len() + 1,
        cands.len() > 0,
        !states[0].damper.cloning().contains(id),
        forall|i: int| 0 <= i < steps.len() ==> !(#[trigger] states[i]).block.has_block(t, id),
        forall|i: int| 0 <= i < steps.len() ==> plan_read_post(#[trigger] states[i], states[i + 1], t, id, cands, steps[i]),
    ensures
        steps.len() > 0 ==> steps[0] is Clone,
        forall|i: int| 0 < i < steps.len() ==> (#[trigger] steps[i]) is Wait,
{
    if steps.len() > 0 {
        assert(plan_read_post(states[0], states[1], t, id, cands, steps[0]));
        assert(!states[0].block.has_block(t, id));
    }
    assert forall|i: int| 0 < i < steps.len() implies (#[trigger] steps[i]) is Wait by {
        lemma_clone_under_way(states, steps, t, id, cands, i);
        assert(plan_read_post(states[i], states[i + 1], t, id, cands, steps[i]));
        assert(!states[i].block.has_block(t, id));
    }
}

proof fn lemma_clone_under_way(states: Seq<StorageManagers>, steps: Seq<ReadStep>, t: u128, id: u128, cands: Seq<u64>, i: int)
    requires
        states.len() == steps.len() + 1,
        cands.len() > 0,
        forall|j: int| 0 <= j < steps.len() ==> !(#[trigger] states[j]).block.has_block(t, id),
        forall|j: int| 0 <= j < steps.len() ==> plan_read_post(#[trigger] states[j], states[j + 1], t, id, cands, steps[j]),
        0 < i <= steps.len(),
    ensures
        states[i].damper.cloning().contains(id),
    decreases i,
{
    if i > 1 {
        lemma_clone_under_way(states, steps, t, id, cands, i - 1);
    }
    assert(plan_read_post(states[i - 1], states[i], t, id, cands, steps[i - 1]));
    assert(!states[i - 1].block.has_block(t, id));
}

/// What storing `value` under `key` of `task` did to the block service,
/// given its answer `r`: a missing task namespace fails and changes nothing;
/// otherwise only block `(task, task)` changes, the write succeeds exactly
/// when the block's length still fits in 64 bits, and on success the key
/// reads `value`.
pub open spec fn value_stored(
    before: BlockOwnerServer,
    after: BlockOwnerServer,
    t: u128,
    key: u128,
    value: Seq<u8>,
    r: Result<FileAction, BlockServiceError>,
) -> bool {
    &&& !before.tasks().contains_key(t) ==> r is Err && r->Err_0 == BlockServiceError::NoTask && after.tasks() == before.tasks()
    &&& before.tasks().contains_key(t) ==> ({
        let recs = before.records_of(t, t);
        &&& crate::block_server::only_block_changed(before.tasks(), after.tasks(), t, t)
        &&& (r is Ok <==> framed(recs).len() + 8 + value.len() <= u64::MAX)
        &&& r is Ok ==> after.tasks()[t][t].kv_value(key) == Some(value) && after.records_of(t, t) == recs.push(value)
            && after.tasks()[t][t].index()[key] == framed(recs).len()
            && after.file_of(t, t) == file_after(before.file_of(t, t), r->Ok_0)
        &&& r is Err ==> r->Err_0 == BlockServiceError::TooLarge && after.records_of(t, t) == recs
            && after.file_of(t, t) == before.file_of(t, t)
    })
}

/// The block service's blocks once block `id` of task `t` is dropped.
pub open spec fn without_block(b: BlockOwnerServer, t: u128, id: u128) -> Map<u128, Map<u128, crate::block::LocalOwnedBlock>> {
    if b.has_block(t, id) {
        b.tasks().insert(t, b.tasks()[t].remove(id))
    } else {
        b.tasks()
    }
}

/// What follows one attempt to clone a block.
#[derive(Debug, PartialEq, Eq, Structural)]
pub enum CloneNext {
    /// The copy is complete: read it locally, after adding this node to the
    /// location registry if `register`.
    ReadLocal { register: bool },
    /// Try the next replica.
    TryNext,
    /// No replica is left: the read fails.
    Fail,
}

/// What to do next for a read of an immutable value.
#[derive(Debug)]
pub enum GetStep {
    /// The read is over, with this value or none.
    Done(Option<Vec<u8>>),
    /// Ask this server for the value.
    Ask(u64),
}

impl StorageManagers {
    /// Plans a read of `key` of `task` after `asked` replicas were asked in
    /// vain: a value held here is the answer; else the next replica other
    /// than this node is asked; when none is left the value is absent.
    pub fn plan_get(&self, task: &UUID, key: &UUID, replicas: Option<Vec<u64>>, asked: usize, file: &Vec<u8>) -> (r: GetStep)
        requires
            self.wf(),
            self.block.file_given(task.spec_key(), task.spec_key(), file@),
        ensures
            ({
                let held = self.block.has_block(task.spec_key(), task.spec_key())
                    && self.block.tasks()[task.spec_key()][task.spec_key()].kv_value(key.spec_key()) is Some;
                let cands = candidates(replicas, self.server_id);
                &&& held ==> r is Done && r->Done_0 is Some
                    && Some(r->Done_0->Some_0@) == self.block.tasks()[task.spec_key()][task.spec_key()].kv_value(key.spec_key())
                &&& !held && asked < cands.len() ==> r == GetStep::Ask(cands[asked as int])
                &&& !held && asked >= cands.len() ==> r is Done && r->Done_0 is None
            }),
    {
        match self.local_get(task, key, file) {
            Some(v) => GetStep::Done(Some(v)),
            None => {
                let servers = other_servers(replicas, self.server_id);
                if asked < servers.len() {
                    GetStep::Ask(servers[asked])
                } else {
                    GetStep::Done(None)
                }
            },
        }
    }
}

/// The replicas to clone from: those of the registry other than `me`, in order.
pub open spec fn candidates(replicas: Option<Vec<u64>>, me: u64) -> Seq<u64> {
    match replicas {
        Some(v) => others(v@, me),
        None => Seq::empty(),
    }
}

/// `s` without `me`.
pub open spec fn others(s: Seq<u64>, me: u64) -> Seq<u64> {
    s.filter(|x: u64| x != me)
}

fn other_servers(replicas: Option<Vec<u64>>, me: u64) -> (r: Vec<u64>)
    ensures
        r@ == candidates(replicas, me),
{
    match &replicas {
        None => {
            let r: Vec<u64> = Vec::new();
            assert(r@ =~= Seq::<u64>::empty());
            r
        },
        Some(v) => {
            let mut r: Vec<u64> = Vec::new();
            let mut i: usize = 0;
            while i < v.len()
                invariant
                    i <= v@.len(),
                    r@ == others(v@.take(i as int), me),
                decreases v@.len() - i,
            {
                proof {
                    reveal(Seq::filter);
                    assert(v@.take(i + 1).drop_last() =~= v@.take(i as int));
                }
                if v[i] != me {
                    r.push(v[i]);
                }
                i = i + 1;
            }
            proof {
                assert(v@.take(v@.len() as int) =~= v@);
            }
            r
        },
    }
}

} // verus!
