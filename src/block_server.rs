//! The block service of one node: task namespaces, each a map from block
//! id to block. Blocks are created on first write; removing a task drops
//! all of its blocks.
use vstd::prelude::*;
use std::collections::HashMap;
use crate::block::{file_after, kv_set_post, kv_unset_post, FileAction, LocalOwnedBlock, BUFFER_CAP};
use crate::ids::UUID;
use crate::record::{framed, read_spec, views, ReadLimitBy};

verus! {

/// Why a block service call failed.
#[derive(Clone, Copy, PartialEq, Eq, Structural, Debug)]
pub enum BlockServiceError {
    /// No namespace was opened for the task.
    NoTask,
    /// The task holds no such block.
    NoBlock,
    /// The block's index holds no such key.
    NoKey,
    /// The block's length would no longer fit in 64 bits.
    TooLarge,
}

/// The block service of one node.
pub struct BlockOwnerServer {
    blocks: HashMap<u128, HashMap<u128, LocalOwnedBlock>>,
    block_store: String,
    buffer_cap: u64,
}

/// `after` differs from `before` at most in block `id` of task `t`, which it holds.
pub open spec fn only_block_changed(
    before: Map<u128, Map<u128, LocalOwnedBlock>>,
    after: Map<u128, Map<u128, LocalOwnedBlock>>,
    t: u128,
    id: u128,
) -> bool {
    &&& after.contains_key(t)
    &&& after[t].contains_key(id)
    &&& after == before.insert(t, before[t].insert(id, after[t][id]))
}

impl BlockOwnerServer {
    /// Task key to block key to block.
    pub closed spec fn tasks(&self) -> Map<u128, Map<u128, LocalOwnedBlock>> {
        self.blocks@.map_values(|m: HashMap<u128, LocalOwnedBlock>| m@)
    }

    pub closed spec fn spec_cap(&self) -> u64 {
        self.buffer_cap
    }

    /// Every block is well formed, has the service's buffer capacity and
    /// sits under its own id.
    pub open spec fn wf(&self) -> bool {
        forall|t: u128, i: u128| #[trigger] self.tasks().contains_key(t) && #[trigger] self.tasks()[t].contains_key(i)
            ==> {
                let b = self.tasks()[t][i];
                &&& b.wf()
                &&& b.spec_cap() == self.spec_cap()
                &&& b.spec_id().spec_key() == i
            }
    }

    pub open spec fn has_block(&self, t: u128, id: u128) -> bool {
        self.tasks().contains_key(t) && self.tasks()[t].contains_key(id)
    }

    /// The records of a block, none for a block not yet written.
    pub open spec fn records_of(&self, t: u128, id: u128) -> Seq<Seq<u8>> {
        if self.has_block(t, id) {
            self.tasks()[t][id].records()
        } else {
            Seq::empty()
        }
    }

    /// The contents of a block's spill file, none for a block not yet written.
    pub open spec fn file_of(&self, t: u128, id: u128) -> Seq<u8> {
        if self.has_block(t, id) {
            self.tasks()[t][id].spec_file()
        } else {
            Seq::empty()
        }
    }

    /// `file` holds the spill file of block `id` of `task` if that block has spilled.
    pub open spec fn file_given(&self, t: u128, id: u128, file: Seq<u8>) -> bool {
        self.has_block(t, id) && self.tasks()[t][id].spec_spilled() ==> file == self.tasks()[t][id].spec_file()
    }

    /// A service whose blocks buffer `BUFFER_CAP` bytes in memory and spill
    /// under `store_path`.
    pub fn new(store_path: String) -> (r: BlockOwnerServer)
        ensures
            r.wf(),
            r.tasks() == Map::<u128, Map<u128, LocalOwnedBlock>>::empty(),
            r.spec_cap() == BUFFER_CAP,
            r.spec_store() == store_path@,
    {
        BlockOwnerServer::with_buffer_cap(store_path, BUFFER_CAP)
    }

    /// A service whose blocks buffer `buffer_cap` bytes in memory.
    pub fn with_buffer_cap(store_path: String, buffer_cap: u64) -> (r: BlockOwnerServer)
        ensures
            r.wf(),
            r.tasks() == Map::<u128, Map<u128, LocalOwnedBlock>>::empty(),
            r.spec_cap() == buffer_cap,
            r.spec_store() == store_path@,
    {
        let r = BlockOwnerServer { blocks: HashMap::new(), block_store: store_path, buffer_cap };
        proof {
            assert(r.tasks() =~= Map::<u128, Map<u128, LocalOwnedBlock>>::empty());
        }
        r
    }

    /// The directory where spill files are kept.
    pub closed spec fn spec_store(&self) -> Seq<char> {
        self.block_store@
    }

    /// The directory where spill files are kept.
    pub fn store_path(&self) -> (r: &String)
        ensures
            r@ == self.spec_store(),
    {
        &self.block_store
    }

    /// Opens the namespace of `task`; does nothing if it is open.
    pub fn new_task(&mut self, task: &UUID)
        requires
            old(self).wf(),
        ensures
            final(self).wf(),
            final(self).spec_cap() == old(self).spec_cap(),
            old(self).tasks().contains_key(task.spec_key()) ==> final(self).tasks() == old(self).tasks(),
            !old(self).tasks().contains_key(task.spec_key()) ==> final(self).tasks() == old(self).tasks().insert(
                task.spec_key(),
                Map::empty(),
            ),
    {
        let t = task.key();
        if !self.blocks.contains_key(&t) {
            self.blocks.insert(t, HashMap::new());
            proof {
                assert(self.tasks() =~= old(self).tasks().insert(t, Map::empty()));
            }
        }
    }

    /// Closes the namespace of `task`, dropping all of its blocks.
    pub fn remove_task(&mut self, task: &UUID) -> (r: Result<(), BlockServiceError>)
        requires
            old(self).wf(),
        ensures
            final(self).wf(),
            final(self).spec_cap() == old(self).spec_cap(),
            final(self).tasks() == old(self).tasks().remove(task.spec_key()),
            r is Ok,
    {
        let t = task.key();
        self.blocks.remove(&t);
        proof {
            assert(self.tasks() =~= old(self).tasks().remove(t));
        }
        Ok(())
    }

    /// Block `id` of `task`, if there is one.
    pub fn block(&self, task: &UUID, id: &UUID) -> (r: Option<&LocalOwnedBlock>)
        ensures
            match r {
                Some(b) => self.has_block(task.spec_key(), id.spec_key()) && *b == self.tasks()[task.spec_key()][id.spec_key()],
                None => !self.has_block(task.spec_key(), id.spec_key()),
            },
    {
        match self.blocks.get(&task.key()) {
            None => None,
            Some(tb) => tb.get(&id.key()),
        }
    }

    /// Closes the namespace of `task` and hands its blocks over, so that
    /// their spill files can be deleted; `None` if it was not open.
    pub fn take_task(&mut self, task: &UUID) -> (r: Option<HashMap<u128, LocalOwnedBlock>>)
        requires
            old(self).wf(),
        ensures
            final(self).wf(),
            final(self).spec_cap() == old(self).spec_cap(),
            final(self).tasks() == old(self).tasks().remove(task.spec_key()),
            r is Some <==> old(self).tasks().contains_key(task.spec_key()),
            r is Some ==> r->Some_0@ == old(self).tasks()[task.spec_key()],
    {
        let t = task.key();
        let r = self.blocks.remove(&t);
        proof {
            assert(self.tasks() =~= old(self).tasks().remove(t));
        }
        r
    }

    /// Whether `task` holds block `id`.
    pub fn contains_block(&self, task: &UUID, id: &UUID) -> (r: Result<bool, BlockServiceError>)
        ensures
            !self.tasks().contains_key(task.spec_key()) ==> r == Err::<bool, BlockServiceError>(BlockServiceError::NoTask),
            self.tasks().contains_key(task.spec_key()) ==> r == Ok::<bool, BlockServiceError>(
                self.tasks()[task.spec_key()].contains_key(id.spec_key()),
            ),
    {
        let t = task.key();
        match self.blocks.get(&t) {
            None => Err(BlockServiceError::NoTask),
            Some(tb) => Ok(tb.contains_key(&id.key())),
        }
    }

    /// Reads block `id` of `task` from `pos` under `limit`.
    /// A spilled block reads from `file`, the bytes of its spill file.
    pub fn read(&self, task: &UUID, id: &UUID, pos: u64, limit: ReadLimitBy, file: &Vec<u8>) -> (r: Result<(Vec<Vec<u8>>, u64), BlockServiceError>)
        requires
            self.wf(),
            self.file_given(task.spec_key(), id.spec_key(), file@),
        ensures
            !self.tasks().contains_key(task.spec_key()) ==> r is Err && r->Err_0 == BlockServiceError::NoTask,
            self.tasks().contains_key(task.spec_key()) && !self.has_block(task.spec_key(), id.spec_key())
                ==> r is Err && r->Err_0 == BlockServiceError::NoBlock,
            self.has_block(task.spec_key(), id.spec_key()) ==> r is Ok
                && views(r->Ok_0.0@) == read_spec(self.tasks()[task.spec_key()][id.spec_key()].stream(), pos as int, limit).0
                && r->Ok_0.1 as int == read_spec(self.tasks()[task.spec_key()][id.spec_key()].stream(), pos as int, limit).1,
    {
        let t = task.key();
        match self.blocks.get(&t) {
            None => Err(BlockServiceError::NoTask),
            Some(tb) => match tb.get(&id.key()) {
                None => Err(BlockServiceError::NoBlock),
                Some(b) => {
                    proof {
                        assert(self.tasks().contains_key(t));
                        assert(self.tasks()[t].contains_key(id.spec_key()));
                    }
                    Ok(b.read(pos, limit, file))
                },
            },
        }
    }

    /// Takes block `id` out of the namespace of `task`, or a fresh block if
    /// the task has none by that id. `None` if the task has no namespace.
    fn take_block(&mut self, task: &UUID, id: &UUID) -> (r: Option<(HashMap<u128, LocalOwnedBlock>, LocalOwnedBlock)>)
        requires
            old(self).wf(),
        ensures
            final(self).spec_cap() == old(self).spec_cap(),
            final(self).block_store == old(self).block_store,
            r is None <==> !old(self).tasks().contains_key(task.spec_key()),
            r is None ==> final(self).tasks() == old(self).tasks(),
            r is Some ==> {
                let (tb, b) = r->Some_0;
                &&& final(self).tasks() == old(self).tasks().remove(task.spec_key())
                &&& tb@ == old(self).tasks()[task.spec_key()].remove(id.spec_key())
                &&& b.wf()
                &&& b.spec_cap() == old(self).spec_cap()
                &&& b.spec_id().spec_key() == id.spec_key()
                &&& old(self).has_block(task.spec_key(), id.spec_key()) ==> b == old(self).tasks()[task.spec_key()][id.spec_key()]
                &&& !old(self).has_block(task.spec_key(), id.spec_key()) ==> b.records() == Seq::<Seq<u8>>::empty()
                    && b.stream() == Seq::<u8>::empty() && b.index() == Map::<u128, u64>::empty() && b.spec_file() == Seq::<u8>::empty()
            },
            final(self).wf(),
    {
        let t = task.key();
        let i = id.key();
        match self.blocks.remove(&t) {
            None => None,
            Some(mut tb) => {
                proof {
                    assert(self.tasks() =~= old(self).tasks().remove(t));
                    assert(tb@ == old(self).tasks()[t]);
                }
                let b = match tb.remove(&i) {
                    Some(b) => b,
                    None => LocalOwnedBlock::new(*id, self.buffer_cap),
                };
                Some((tb, b))
            },
        }
    }

    /// Puts a block taken by `take_block` back.
    fn put_block(&mut self, task: &UUID, id: &UUID, tb: HashMap<u128, LocalOwnedBlock>, b: LocalOwnedBlock)
        requires
            old(self).wf(),
            b.wf(),
            b.spec_cap() == old(self).spec_cap(),
            b.spec_id().spec_key() == id.spec_key(),
            forall|i: u128| #[trigger] tb@.contains_key(i) ==> tb@[i].wf() && tb@[i].spec_cap() == old(self).spec_cap()
                && tb@[i].spec_id().spec_key() == i,
        ensures
            final(self).wf(),
            final(self).spec_cap() == old(self).spec_cap(),
            final(self).tasks() == old(self).tasks().insert(task.spec_key(), tb@.insert(id.spec_key(), b)),
    {
        let t = task.key();
        let i = id.key();
        let mut tb = tb;
        tb.insert(i, b);
        self.blocks.insert(t, tb);
        proof {
            assert(self.tasks() =~= old(self).tasks().insert(t, tb@));
        }
    }

    /// Appends `items` to block `id` of `task`, creating the block if need
    /// be, and returns each record's offset and what to do to the block's
    /// spill file.
    pub fn write(&mut self, task: &UUID, id: &UUID, items: Vec<Vec<u8>>) -> (r: Result<(Vec<u64>, FileAction), BlockServiceError>)
        requires
            old(self).wf(),
        ensures
            final(self).wf(),
            final(self).spec_cap() == old(self).spec_cap(),
            !old(self).tasks().contains_key(task.spec_key()) ==> r is Err && r->Err_0 == BlockServiceError::NoTask
                && final(self).tasks() == old(self).tasks(),
            old(self).tasks().contains_key(task.spec_key()) ==> ({
                let recs = old(self).records_of(task.spec_key(), id.spec_key());
                let nb = final(self).tasks()[task.spec_key()][id.spec_key()];
                &&& only_block_changed(old(self).tasks(), final(self).tasks(), task.spec_key(), id.spec_key())
                &&& (r is Ok <==> framed(recs).len() + framed(views(items@)).len() <= u64::MAX)
                &&& r is Ok ==> nb.records() == recs + views(items@)
                    && r->Ok_0.0@.len() == items@.len()
                    && forall|i: int| 0 <= i < items@.len() ==> #[trigger] r->Ok_0.0@[i] as nat
                        == framed(recs).len() + framed(views(items@).take(i)).len()
                &&& r is Ok ==> nb.spec_file() == file_after(old(self).file_of(task.spec_key(), id.spec_key()), r->Ok_0.1)
                &&& r is Err ==> r->Err_0 == BlockServiceError::TooLarge && nb.records() == recs
                    && nb.spec_file() == old(self).file_of(task.spec_key(), id.spec_key())
            }),
    {
        match self.take_block(task, id) {
            None => Err(BlockServiceError::NoTask),
            Some((tb, mut b)) => {
                proof {
                    b.lemma_stream_framed();
                }
                let r = b.write(items);
                self.put_block(task, id, tb, b);
                proof {
                    assert(tb@.insert(id.spec_key(), b) =~= old(self).tasks()[task.spec_key()].insert(id.spec_key(), b));
                    assert(self.tasks() =~= old(self).tasks().insert(task.spec_key(), old(self).tasks()[task.spec_key()].insert(id.spec_key(), b)));
                }
                match r {
                    Ok(done) => Ok(done),
                    Err(_) => Err(BlockServiceError::TooLarge),
                }
            },
        }
    }

    /// Drops block `id` of `task`.
    pub fn remove(&mut self, task: &UUID, id: &UUID) -> (r: Result<(), BlockServiceError>)
        requires
            old(self).wf(),
        ensures
            final(self).wf(),
            final(self).spec_cap() == old(self).spec_cap(),
            !old(self).tasks().contains_key(task.spec_key()) ==> r == Err::<(), BlockServiceError>(BlockServiceError::NoTask)
                && final(self).tasks() == old(self).tasks(),
            old(self).tasks().contains_key(task.spec_key()) && !old(self).has_block(task.spec_key(), id.spec_key())
                ==> r == Err::<(), BlockServiceError>(BlockServiceError::NoBlock) && final(self).tasks() == old(self).tasks(),
            old(self).has_block(task.spec_key(), id.spec_key()) ==> r is Ok && final(self).tasks() == old(self).tasks().insert(
                task.spec_key(),
                old(self).tasks()[task.spec_key()].remove(id.spec_key()),
            ),
    {
        let t = task.key();
        let i = id.key();
        match self.blocks.remove(&t) {
            None => {
                proof {
                    assert(self.blocks@ =~= old(self).blocks@);
                    assert(self.tasks() == old(self).tasks());
                    assert(self.wf());
                }
                Err(BlockServiceError::NoTask)
            },
            Some(mut tb) => {
                let removed = tb.remove(&i);
                self.blocks.insert(t, tb);
                proof {
                    assert(self.tasks() =~= old(self).tasks().insert(t, old(self).tasks()[t].remove(i)));
                    assert forall|t2: u128, i2: u128| #[trigger] self.tasks().contains_key(t2) && #[trigger] self.tasks()[t2].contains_key(i2)
                        implies ({
                            let b = self.tasks()[t2][i2];
                            &&& b.wf()
                            &&& b.spec_cap() == self.spec_cap()
                            &&& b.spec_id().spec_key() == i2
                        }) by {
                        assert(old(self).tasks().contains_key(t2));
                        assert(old(self).tasks()[t2].contains_key(i2));
                        assert(self.tasks()[t2][i2] == old(self).tasks()[t2][i2]);
                    }
                    if removed is None {
                        assert(old(self).tasks()[t].remove(i) =~= old(self).tasks()[t]);
                        assert(self.tasks() =~= old(self).tasks());
                    }
                    assert(self.wf());
                }
                match removed {
                    None => Err(BlockServiceError::NoBlock),
                    Some(_) => Ok(()),
                }
            },
        }
    }

    /// The value stored under `key` in block `id` of `task`.
    /// A spilled block reads from `file`, the bytes of its spill file.
    pub fn get(&self, task: &UUID, id: &UUID, key: &UUID, file: &Vec<u8>) -> (r: Result<Option<Vec<u8>>, BlockServiceError>)
        requires
            self.wf(),
            self.file_given(task.spec_key(), id.spec_key(), file@),
        ensures
            !self.tasks().contains_key(task.spec_key()) ==> r is Err && r->Err_0 == BlockServiceError::NoTask,
            self.tasks().contains_key(task.spec_key()) && !self.has_block(task.spec_key(), id.spec_key())
                ==> r is Err && r->Err_0 == BlockServiceError::NoBlock,
            self.has_block(task.spec_key(), id.spec_key()) ==> ({
                let b = self.tasks()[task.spec_key()][id.spec_key()];
                &&& !b.index().contains_key(key.spec_key()) ==> r is Err && r->Err_0 == BlockServiceError::NoKey
                &&& b.index().contains_key(key.spec_key()) ==> r is Ok && match r->Ok_0 {
                    Some(v) => b.kv_value(key.spec_key()) == Some(v@),
                    None => b.kv_value(key.spec_key()) is None,
                }
            }),
    {
        let t = task.key();
        match self.blocks.get(&t) {
            None => Err(BlockServiceError::NoTask),
            Some(tb) => match tb.get(&id.key()) {
                None => Err(BlockServiceError::NoBlock),
                Some(b) => {
                    proof {
                        assert(self.tasks().contains_key(t));
                        assert(self.tasks()[t].contains_key(id.spec_key()));
                    }
                    if !b.has_key(key) {
                        Err(BlockServiceError::NoKey)
                    } else {
                        Ok(b.kv_get(key, file))
                    }
                },
            },
        }
    }

    /// Stores `value` under `key` in block `id` of `task`, creating the block
    /// if need be.
    pub fn set(&mut self, task: &UUID, id: &UUID, key: &UUID, value: Vec<u8>) -> (r: Result<FileAction, BlockServiceError>)
        requires
            old(self).wf(),
        ensures
            final(self).wf(),
            final(self).spec_cap() == old(self).spec_cap(),
            !old(self).tasks().contains_key(task.spec_key()) ==> r is Err && r->Err_0 == BlockServiceError::NoTask
                && final(self).tasks() == old(self).tasks(),
            old(self).tasks().contains_key(task.spec_key()) ==> ({
                let nb = final(self).tasks()[task.spec_key()][id.spec_key()];
                let recs = old(self).records_of(task.spec_key(), id.spec_key());
                &&& only_block_changed(old(self).tasks(), final(self).tasks(), task.spec_key(), id.spec_key())
                &&& (r is Ok <==> framed(recs).len() + 8 + value@.len() <= u64::MAX)
                &&& old(self).has_block(task.spec_key(), id.spec_key()) && r is Ok ==> kv_set_post(
                    old(self).tasks()[task.spec_key()][id.spec_key()],
                    nb,
                    key.spec_key(),
                    value@,
                )
                &&& r is Ok ==> nb.kv_value(key.spec_key()) == Some(value@) && nb.records() == recs.push(value@)
                    && nb.index()[key.spec_key()] == framed(recs).len()
                    && nb.spec_file() == file_after(old(self).file_of(task.spec_key(), id.spec_key()), r->Ok_0)
                &&& r is Err ==> r->Err_0 == BlockServiceError::TooLarge && nb.records() == recs
                    && nb.spec_file() == old(self).file_of(task.spec_key(), id.spec_key())
            }),
    {
        match self.take_block(task, id) {
            None => Err(BlockServiceError::NoTask),
            Some((tb, mut b)) => {
                proof {
                    b.lemma_stream_framed();
                }
                let r = b.kv_set(key, value.as_slice());
                self.put_block(task, id, tb, b);
                proof {
                    assert(tb@.insert(id.spec_key(), b) =~= old(self).tasks()[task.spec_key()].insert(id.spec_key(), b));
                    assert(self.tasks() =~= old(self).tasks().insert(task.spec_key(), old(self).tasks()[task.spec_key()].insert(id.spec_key(), b)));
                }
                match r {
                    Ok(action) => Ok(action),
                    Err(_) => Err(BlockServiceError::TooLarge),
                }
            },
        }
    }

    /// Drops `key` from the index of block `id` of `task`, creating the block
    /// if need be; says whether the key was there.
    pub fn unset(&mut self, task: &UUID, id: &UUID, key: &UUID) -> (r: Result<Option<()>, BlockServiceError>)
        requires
            old(self).wf(),
        ensures
            final(self).wf(),
            final(self).spec_cap() == old(self).spec_cap(),
            !old(self).tasks().contains_key(task.spec_key()) ==> r is Err && r->Err_0 == BlockServiceError::NoTask
                && final(self).tasks() == old(self).tasks(),
            old(self).tasks().contains_key(task.spec_key()) ==> ({
                let nb = final(self).tasks()[task.spec_key()][id.spec_key()];
                &&& only_block_changed(old(self).tasks(), final(self).tasks(), task.spec_key(), id.spec_key())
                &&& r is Ok
                &&& (r->Ok_0 is Some <==> old(self).has_block(task.spec_key(), id.spec_key())
                    && old(self).tasks()[task.spec_key()][id.spec_key()].index().contains_key(key.spec_key()))
                &&& nb.records() == old(self).records_of(task.spec_key(), id.spec_key())
                &&& nb.kv_value(key.spec_key()) is None
                &&& old(self).has_block(task.spec_key(), id.spec_key()) ==> kv_unset_post(
                    old(self).tasks()[task.spec_key()][id.spec_key()],
                    nb,
                    key.spec_key(),
                )
            }),
    {
        match self.take_block(task, id) {
            None => Err(BlockServiceError::NoTask),
            Some((tb, mut b)) => {
                let r = b.kv_unset(key);
                self.put_block(task, id, tb, b);
                proof {
                    assert(tb@.insert(id.spec_key(), b) =~= old(self).tasks()[task.spec_key()].insert(id.spec_key(), b));
                    assert(self.tasks() =~= old(self).tasks().insert(task.spec_key(), old(self).tasks()[task.spec_key()].insert(id.spec_key(), b)));
                }
                Ok(r)
            },
        }
    }
}

} // verus!
