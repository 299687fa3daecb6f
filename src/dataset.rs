//! Reading a block-backed dataset one record at a time: records are
//! fetched in batches of `STORAGE_BUFFER` and handed out in order; an empty
//! batch ends the dataset.
use vstd::prelude::*;
use crate::ids::UUID;
use crate::kvmap::copy_bytes;
use crate::record::{views, BlockCursor, ReadLimitBy};

verus! {

/// Records fetched per batch.
pub const STORAGE_BUFFER: u64 = 10;

/// A pull-based reader over the records of one block.
pub struct BatchedReader {
    task: UUID,
    id: UUID,
    pos: u64,
    buffer: Vec<Vec<u8>>,
    next: usize,
    ended: bool,
    received: Ghost<Seq<Seq<u8>>>,
}

/// What a pull gives.
pub enum Pull {
    /// The next record.
    Item(Vec<u8>),
    /// The buffer is spent: fetch the batch at this cursor and `fill` it in.
    Fetch(BlockCursor),
    /// The dataset has no more records.
    End,
}

impl BatchedReader {
    /// All records fetched so far, in order.
    pub closed spec fn received(&self) -> Seq<Seq<u8>> {
        self.received@
    }

    /// How many of them were handed out.
    pub closed spec fn handed_out(&self) -> nat {
        (self.received@.len() - (self.buffer@.len() - self.next)) as nat
    }

    pub closed spec fn spec_task(&self) -> UUID {
        self.task
    }

    pub closed spec fn spec_id(&self) -> UUID {
        self.id
    }

    pub closed spec fn spec_pos(&self) -> u64 {
        self.pos
    }

    pub closed spec fn spec_ended(&self) -> bool {
        self.ended
    }

    pub closed spec fn wf(&self) -> bool {
        &&& self.next <= self.buffer@.len()
        &&& self.buffer@.len() - self.next <= self.received@.len()
        &&& forall|i: int| self.next <= i < self.buffer@.len() ==> (#[trigger] self.buffer@[i])@
            == self.received@[self.received@.len() - (self.buffer@.len() - i)]
    }

    /// A reader at the start of block `id` of `task`.
    pub fn new(task: UUID, id: UUID) -> (r: BatchedReader)
        ensures
            r.wf(),
            r.spec_task() == task,
            r.spec_id() == id,
            r.spec_pos() == 0,
            !r.spec_ended(),
            r.received() == Seq::<Seq<u8>>::empty(),
            r.handed_out() == 0,
    {
        BatchedReader { task, id, pos: 0, buffer: Vec::new(), next: 0, ended: false, received: Ghost(Seq::empty()) }
    }

    /// The next record, or the batch to fetch first, or the end.
    pub fn pull(&mut self) -> (r: Pull)
        requires
            old(self).wf(),
        ensures
            final(self).wf(),
            final(self).spec_task() == old(self).spec_task(),
            final(self).spec_id() == old(self).spec_id(),
            final(self).received() == old(self).received(),
            final(self).spec_pos() == old(self).spec_pos(),
            final(self).spec_ended() == old(self).spec_ended(),
            match r {
                Pull::Item(v) => old(self).handed_out() < old(self).received().len()
                    && v@ == old(self).received()[old(self).handed_out() as int]
                    && final(self).handed_out() == old(self).handed_out() + 1,
                Pull::Fetch(c) => old(self).handed_out() == old(self).received().len() && !old(self).spec_ended()
                    && c == (BlockCursor { pos: old(self).spec_pos(), task: old(self).spec_task(), id: old(self).spec_id(), limit: ReadLimitBy::Items(STORAGE_BUFFER) })
                    && final(self).handed_out() == old(self).handed_out(),
                Pull::End => old(self).handed_out() == old(self).received().len() && old(self).spec_ended()
                    && final(self).handed_out() == old(self).handed_out(),
            },
    {
        if self.next < self.buffer.len() {
            let v = copy_bytes(&self.buffer[self.next]);
            self.next = self.next + 1;
            Pull::Item(v)
        } else if self.ended {
            Pull::End
        } else {
            Pull::Fetch(BlockCursor { pos: self.pos, task: self.task, id: self.id, limit: ReadLimitBy::Items(STORAGE_BUFFER) })
        }
    }

    /// Takes the batch fetched for the last `Fetch` and the offset after it.
    /// An empty batch ends the dataset.
    pub fn fill(&mut self, batch: Vec<Vec<u8>>, next_pos: u64)
        requires
            old(self).wf(),
            old(self).handed_out() == old(self).received().len(),
        ensures
            final(self).wf(),
            final(self).spec_task() == old(self).spec_task(),
            final(self).spec_id() == old(self).spec_id(),
            final(self).received() == old(self).received() + views(batch@),
            final(self).handed_out() == old(self).handed_out(),
            final(self).spec_ended() == (old(self).spec_ended() || batch@.len() == 0),
            final(self).spec_pos() == if batch@.len() == 0 { old(self).spec_pos() } else { next_pos },
    {
        if batch.len() == 0 {
            self.ended = true;
            return;
        }
        let ghost r0 = self.received@;
        self.received = Ghost(r0 + views(batch@));
        self.buffer = batch;
        self.next = 0;
        self.pos = next_pos;
    }
}

} // verus!
