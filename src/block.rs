//! A block: an append-only log of length-prefixed records with a key index.
//! Records go to an in-memory buffer until the block would outgrow its
//! buffer capacity; then the buffer is flushed to the block's spill file and
//! cleared, and every later record is appended to the file. The block keeps
//! only a model of the file's contents: writes return the file action for
//! the hosting node to perform, and reads of a spilled block are given the
//! file's bytes.
use vstd::prelude::*;
use crate::codec::{encode_u64_le, lemma_le_bytes_len, pow256};
use crate::ids::UUID;
use crate::record::{
    concat_all, lemma_batches_prefix, frame, framed, lemma_frame_len, lemma_framed_push, lemma_read_framed, lemma_read_frame,
    lemma_read_one_extend, lemma_read_shift, lemma_read_split, read_records, read_spec, record_fits,
    views, ReadLimitBy,
};

verus! {

/// Default capacity of a block's in-memory buffer, in bytes.
pub const BUFFER_CAP: u64 = 5 * 1024 * 1024;

/// Why a block operation failed.
#[derive(Clone, Copy, PartialEq, Eq, Structural, Debug)]
pub enum BlockError {
    /// The block's length would no longer fit in 64 bits.
    TooLarge,
}

/// One block held by this node: its record stream, split between the
/// spill file and the in-memory buffer, and its key index.
pub struct LocalOwnedBlock {
    id: UUID,
    buffer: Vec<u8>,
    file: Ghost<Seq<u8>>,
    spilled: bool,
    buffer_cap: u64,
    kv_map: std::collections::HashMap<u128, u64>,
    size: u64,
    records: Ghost<Seq<Seq<u8>>>,
}

/// What the hosting node must do to a block's spill file.
#[derive(Debug)]
pub enum FileAction {
    /// Nothing.
    Keep,
    /// Create the file (truncating any old one) holding these bytes.
    Create(Vec<u8>),
    /// Append these bytes to the file.
    Append(Vec<u8>),
}

/// The file's contents after `a` is performed on a file holding `file`.
pub open spec fn file_after(file: Seq<u8>, a: FileAction) -> Seq<u8> {
    match a {
        FileAction::Keep => file,
        FileAction::Create(b) => b@,
        FileAction::Append(b) => file + b@,
    }
}

/// One action doing what `a` and then `b` do.
pub fn merge_actions(a: FileAction, b: FileAction) -> (r: FileAction)
    ensures
        forall|f: Seq<u8>| #[trigger] file_after(f, r) == file_after(file_after(f, a), b),
{
    match (a, b) {
        (x, FileAction::Keep) => x,
        (_, FileAction::Create(q)) => FileAction::Create(q),
        (FileAction::Keep, FileAction::Append(q)) => FileAction::Append(q),
        (FileAction::Create(p), FileAction::Append(q)) => {
            let mut p = p;
            let mut q = q;
            let ghost (head, tail) = (p@, q@);
            p.append(&mut q);
            assert(p@ == head + tail);
            FileAction::Create(p)
        },
        (FileAction::Append(p), FileAction::Append(q)) => {
            let mut p = p;
            let mut q = q;
            let ghost (head, tail) = (p@, q@);
            p.append(&mut q);
            assert forall|f: Seq<u8>| f + p@ == (f + head) + tail by {
                assert(f + p@ =~= (f + head) + tail);
            }
            FileAction::Append(p)
        },
    }
}

/// The payload read by a one-record read at `pos`, if a record starts there.
pub open spec fn record_at(s: Seq<u8>, pos: int) -> Option<Seq<u8>> {
    let r = read_spec(s, pos, ReadLimitBy::Items(1));
    if r.0.len() > 0 {
        Some(r.0[0])
    } else {
        None
    }
}

fn push_all(dst: &mut Vec<u8>, src: &[u8])
    ensures
        final(dst)@ == old(dst)@ + src@,
{
    let mut i: usize = 0;
    while i < src.len()
        invariant
            i <= src@.len(),
            dst@ == old(dst)@ + src@.subrange(0, i as int),
        decreases src@.len() - i,
    {
        dst.push(src[i]);
        proof {
            assert(dst@ =~= old(dst)@ + src@.subrange(0, i + 1));
        }
        i = i + 1;
    }
    proof {
        assert(src@.subrange(0, src@.len() as int) =~= src@);
    }
}

impl LocalOwnedBlock {
    /// The logical byte stream: the spill file followed by the buffer.
    pub closed spec fn stream(&self) -> Seq<u8> {
        self.file@ + self.buffer@
    }

    /// The records appended so far, in order.
    pub closed spec fn records(&self) -> Seq<Seq<u8>> {
        self.records@
    }

    /// The key index: key to the offset of the record holding its value.
    pub closed spec fn index(&self) -> Map<u128, u64> {
        self.kv_map@
    }

    /// Whether the block has moved to its spill file.
    pub closed spec fn spec_spilled(&self) -> bool {
        self.spilled
    }

    pub closed spec fn spec_cap(&self) -> u64 {
        self.buffer_cap
    }

    pub closed spec fn spec_id(&self) -> UUID {
        self.id
    }

    /// The contents of the spill file.
    pub closed spec fn spec_file(&self) -> Seq<u8> {
        self.file@
    }

    /// The value stored under `key`: the record at its indexed offset.
    pub open spec fn kv_value(&self, key: u128) -> Option<Seq<u8>> {
        if self.index().contains_key(key) {
            record_at(self.stream(), self.index()[key] as int)
        } else {
            None
        }
    }

    /// Well-formedness: the stream is the framing of the records; the buffer
    /// is used until the block spills and is empty afterwards; indexed
    /// offsets start whole records.
    pub closed spec fn wf(&self) -> bool {
        &&& self.size as nat == self.stream().len()
        &&& self.stream() == framed(self.records@)
        &&& forall|i: int| 0 <= i < self.records@.len() ==> (#[trigger] self.records@[i]).len() < pow256(8)
        &&& if self.spilled {
            self.buffer@.len() == 0
        } else {
            self.file@.len() == 0 && self.size <= self.buffer_cap
        }
        &&& forall|k: u128| #[trigger] self.kv_map@.contains_key(k) ==> record_fits(self.stream(), self.kv_map@[k] as int)
    }

    /// An empty block whose buffer holds up to `buffer_cap` bytes.
    pub fn new(id: UUID, buffer_cap: u64) -> (r: LocalOwnedBlock)
        ensures
            r.wf(),
            r.stream() == Seq::<u8>::empty(),
            r.records() == Seq::<Seq<u8>>::empty(),
            r.index() == Map::<u128, u64>::empty(),
            r.spec_file() == Seq::<u8>::empty(),
            !r.spec_spilled(),
            r.spec_cap() == buffer_cap,
            r.spec_id() == id,
    {
        let r = LocalOwnedBlock {
            id,
            buffer: Vec::new(),
            file: Ghost(Seq::empty()),
            spilled: false,
            buffer_cap,
            kv_map: std::collections::HashMap::new(),
            size: 0,
            records: Ghost(Seq::empty()),
        };
        proof {
            assert(r.stream() =~= Seq::<u8>::empty());
        }
        r
    }

    pub fn id(&self) -> (r: UUID)
        ensures
            r == self.spec_id(),
    {
        self.id
    }

    /// Length of the logical stream in bytes.
    pub fn size(&self) -> (r: u64)
        requires
            self.wf(),
        ensures
            r as nat == self.stream().len(),
    {
        self.size
    }

    pub fn is_spilled(&self) -> (r: bool)
        ensures
            r == self.spec_spilled(),
    {
        self.spilled
    }

    /// Appends one record and returns what to do to the spill file. Fails,
    /// changing nothing, when the stream's length would no longer fit in 64
    /// bits. The record goes to the buffer while the block stays within its
    /// capacity; the first record that would outgrow it creates the file
    /// with the buffer's bytes and the record, and clears the buffer; later
    /// records are appended to the file.
    pub fn append_data(&mut self, data: &[u8]) -> (r: Result<FileAction, BlockError>)
        requires
            old(self).wf(),
        ensures
            final(self).wf(),
            final(self).spec_id() == old(self).spec_id(),
            final(self).spec_cap() == old(self).spec_cap(),
            final(self).index() == old(self).index(),
            r is Ok <==> old(self).stream().len() + 8 + data@.len() <= u64::MAX,
            r is Ok ==> final(self).records() == old(self).records().push(data@),
            r is Ok ==> final(self).stream() == old(self).stream() + frame(data@),
            r is Ok ==> final(self).spec_spilled() == (old(self).spec_spilled()
                || old(self).stream().len() + 8 + data@.len() > old(self).spec_cap()),
            r is Ok ==> final(self).spec_file() == file_after(old(self).spec_file(), r->Ok_0),
            r is Ok && !final(self).spec_spilled() ==> r->Ok_0 is Keep,
            r is Err ==> *final(self) == *old(self),
    {
        let len = data.len();
        if self.size > u64::MAX - 8 || (len as u128) > (u64::MAX - 8 - self.size) as u128 {
            return Err(BlockError::TooLarge);
        }
        let ghost old_stream = self.stream();
        let ghost old_file = self.file@;
        let new_size = self.size + 8 + len as u64;
        let mut header = encode_u64_le(len as u64);
        proof {
            lemma_le_bytes_len(len as nat, 8);
            lemma_frame_len(data@);
            lemma_framed_push(self.records@, data@);
            assert(pow256(8) == 0x1_0000_0000_0000_0000) by {
                reveal_with_fuel(pow256, 9);
            }
        }
        let action;
        if self.spilled {
            let mut bytes: Vec<u8> = Vec::new();
            bytes.append(&mut header);
            push_all(&mut bytes, data);
            assert(bytes@ =~= frame(data@));
            self.file = Ghost(old_file + bytes@);
            proof {
                assert(self.stream() =~= old_stream + frame(data@));
            }
            action = FileAction::Append(bytes);
        } else if new_size > self.buffer_cap {
            let mut bytes: Vec<u8> = Vec::new();
            std::mem::swap(&mut bytes, &mut self.buffer);
            bytes.append(&mut header);
            push_all(&mut bytes, data);
            self.file = Ghost(bytes@);
            self.spilled = true;
            proof {
                assert(self.stream() =~= old_stream + frame(data@));
            }
            action = FileAction::Create(bytes);
        } else {
            self.buffer.append(&mut header);
            push_all(&mut self.buffer, data);
            proof {
                assert(self.stream() =~= old_stream + frame(data@));
            }
            action = FileAction::Keep;
        }
        self.size = new_size;
        proof {
            let rs = self.records@;
            self.records@ = rs.push(data@);
            assert forall|i: int| 0 <= i < self.records@.len() implies (#[trigger] self.records@[i]).len() < pow256(8) by {
                if i < rs.len() {
                    assert(self.records@[i] == rs[i]);
                }
            }
            assert forall|k: u128| #[trigger] self.kv_map@.contains_key(k) implies record_fits(self.stream(), self.kv_map@[k] as int) by {
                crate::record::lemma_fits_extend(old_stream, frame(data@), self.kv_map@[k] as int);
            }
        }
        Ok(action)
    }
}


impl LocalOwnedBlock {
    /// Appends `items` as records, in order, and returns the offset of each
    /// one's length header in the logical stream, with what to do to the
    /// spill file. Fails, changing nothing, when the stream's length would no
    /// longer fit in 64 bits.
    pub fn write(&mut self, items: Vec<Vec<u8>>) -> (r: Result<(Vec<u64>, FileAction), BlockError>)
        requires
            old(self).wf(),
        ensures
            final(self).wf(),
            final(self).spec_id() == old(self).spec_id(),
            final(self).spec_cap() == old(self).spec_cap(),
            final(self).index() == old(self).index(),
            r is Ok <==> old(self).stream().len() + framed(views(items@)).len() <= u64::MAX,
            r is Ok ==> final(self).records() == old(self).records() + views(items@),
            r is Ok ==> final(self).stream() == old(self).stream() + framed(views(items@)),
            r is Ok ==> r->Ok_0.0@.len() == items@.len(),
            r is Ok ==> forall|i: int| 0 <= i < items@.len() ==> #[trigger] r->Ok_0.0@[i] as nat
                == old(self).stream().len() + framed(views(items@).take(i)).len(),
            r is Ok ==> final(self).spec_file() == file_after(old(self).spec_file(), r->Ok_0.1),
            r is Err ==> *final(self) == *old(self),
    {
        let ghost vs = views(items@);
        let mut total: u64 = 0;
        let mut i: usize = 0;
        let limit: u64 = u64::MAX - self.size;
        while i < items.len()
            invariant
                vs == views(items@),
                i <= items@.len(),
                total as nat == framed(vs.take(i as int)).len(),
                total <= limit,
                limit == u64::MAX - self.size,
                *self == *old(self),
                self.wf(),
            decreases items@.len() - i,
        {
            let len = items[i].len();
            proof {
                assert(vs.take(i + 1).drop_last() =~= vs.take(i as int));
                lemma_frame_len(vs[i as int]);
            }
            if (len as u128) + 8 > (limit - total) as u128 {
                proof {
                    lemma_framed_prefix_len(vs, i + 1);
                    assert(vs.take(vs.len() as int) =~= vs);
                }
                return Err(BlockError::TooLarge);
            }
            total = total + 8 + len as u64;
            i = i + 1;
        }
        proof {
            assert(vs.take(vs.len() as int) =~= vs);
        }
        let ghost start = self.stream();
        let ghost recs = self.records@;
        let mut offsets: Vec<u64> = Vec::with_capacity(items.len());
        let mut action = FileAction::Keep;
        let mut j: usize = 0;
        while j < items.len()
            invariant
                vs == views(items@),
                j <= items@.len(),
                self.wf(),
                self.id == old(self).id,
                self.buffer_cap == old(self).buffer_cap,
                self.kv_map@ == old(self).kv_map@,
                start == old(self).stream(),
                recs == old(self).records@,
                start.len() + framed(vs).len() <= u64::MAX,
                self.stream() == start + framed(vs.take(j as int)),
                self.records@ == recs + vs.take(j as int),
                offsets@.len() == j,
                forall|t: int| 0 <= t < j ==> #[trigger] offsets@[t] as nat == start.len() + framed(vs.take(t)).len(),
                self.file@ == file_after(old(self).file@, action),
            decreases items@.len() - j,
        {
            proof {
                assert(vs.take(j + 1).drop_last() =~= vs.take(j as int));
                lemma_framed_prefix_len(vs, j + 1);
                lemma_frame_len(vs[j as int]);
                assert(vs.take(vs.len() as int) =~= vs);
            }
            let off = self.size;
            let res = self.append_data(items[j].as_slice());
            let step = match res {
                Ok(a) => a,
                Err(_) => FileAction::Keep,
            };
            action = merge_actions(action, step);
            offsets.push(off);
            proof {
                assert(self.stream() =~= start + framed(vs.take(j + 1)));
                assert(self.records@ =~= recs + vs.take(j + 1));
            }
            j = j + 1;
        }
        proof {
            assert(vs.take(vs.len() as int) =~= vs);
        }
        Ok((offsets, action))
    }

    /// Reads from offset `pos` under `limit`: whole records, in order, and the
    /// offset just after the last one. Fewer records than asked, or none,
    /// means the end of the stream was reached.
    /// A spilled block reads from `file`, the bytes of its spill file.
    pub fn read(&self, pos: u64, limit: ReadLimitBy, file: &Vec<u8>) -> (r: (Vec<Vec<u8>>, u64))
        requires
            self.wf(),
            self.spec_spilled() ==> file@ == self.spec_file(),
        ensures
            views(r.0@) == read_spec(self.stream(), pos as int, limit).0,
            r.1 as int == read_spec(self.stream(), pos as int, limit).1,
    {
        if self.spilled {
            assert(self.stream() =~= file@);
            read_records(file, pos, limit)
        } else {
            assert(self.stream() =~= self.buffer@);
            read_records(&self.buffer, pos, limit)
        }
    }

    /// Up to `len` bytes of the logical stream from offset `pos`; `None` if
    /// `pos` lies past its end.
    /// A spilled block reads from `file`, the bytes of its spill file.
    pub fn read_data(&self, pos: u64, len: u64, file: &Vec<u8>) -> (r: Option<Vec<u8>>)
        requires
            self.wf(),
            self.spec_spilled() ==> file@ == self.spec_file(),
        ensures
            pos > self.stream().len() <==> r is None,
            r is Some ==> r->Some_0@ == self.stream().subrange(
                pos as int,
                if pos + len < self.stream().len() { pos + len } else { self.stream().len() as int },
            ),
    {
        if pos > self.size {
            return None;
        }
        let seg = if self.spilled {
            file
        } else {
            &self.buffer
        };
        proof {
            assert(self.stream() =~= seg@);
        }
        let end: u64 = if len < self.size - pos {
            pos + len
        } else {
            self.size
        };
        let n = seg.len();
        let start = pos as usize;
        let stop = end as usize;
        let mut r: Vec<u8> = Vec::new();
        let mut i: usize = start;
        while i < stop
            invariant
                n == seg@.len(),
                start == pos,
                stop == end,
                start <= i <= stop,
                stop <= n,
                r@ == seg@.subrange(start as int, i as int),
            decreases stop - i,
        {
            r.push(seg[i]);
            proof {
                assert(r@ =~= seg@.subrange(start as int, i + 1));
            }
            i = i + 1;
        }
        Some(r)
    }

    /// Appends `value` as a record and points `key` at it.
    pub fn kv_set(&mut self, key: &UUID, value: &[u8]) -> (r: Result<FileAction, BlockError>)
        requires
            old(self).wf(),
        ensures
            final(self).wf(),
            final(self).spec_id() == old(self).spec_id(),
            final(self).spec_cap() == old(self).spec_cap(),
            r is Ok <==> old(self).stream().len() + 8 + value@.len() <= u64::MAX,
            r is Ok ==> kv_set_post(*old(self), *final(self), key.spec_key(), value@),
            r is Ok ==> final(self).spec_file() == file_after(old(self).spec_file(), r->Ok_0),
            r is Err ==> *final(self) == *old(self),
    {
        let off = self.size;
        let ghost s0 = self.stream();
        match self.append_data(value) {
            Err(e) => Err(e),
            Ok(action) => {
                let k = key.key();
                self.kv_map.insert(k, off);
                proof {
                    assert(pow256(8) == 0x1_0000_0000_0000_0000) by {
                        reveal_with_fuel(pow256, 9);
                    }
                    lemma_read_shift(s0, frame(value@), 0, ReadLimitBy::Items(1), 0, 0);
                    assert(s0.len() + 0 == s0.len());
                    lemma_read_frame(value@, ReadLimitBy::Items(1), 0, 0);
                    lemma_frame_len(value@);
                    crate::record::lemma_read_end(frame(value@), 0, ReadLimitBy::Items(1), 0, 0);
                    assert(record_fits(self.stream(), off as int));
                    assert forall|k2: u128| k2 != k && #[trigger] old(self).index().contains_key(k2) implies
                        self.kv_value(k2) == old(self).kv_value(k2) by {
                        lemma_read_one_extend(s0, frame(value@), old(self).index()[k2] as int);
                    }
                    assert forall|k2: u128| #[trigger] self.kv_map@.contains_key(k2) implies record_fits(self.stream(), self.kv_map@[k2] as int) by {
                        if k2 != k {
                            crate::record::lemma_fits_extend(s0, frame(value@), self.kv_map@[k2] as int);
                        }
                    }
                    assert(self.index().dom() =~= old(self).index().dom().insert(k));
                }
                Ok(action)
            },
        }
    }

    /// Whether the index holds `key`.
    pub fn has_key(&self, key: &UUID) -> (r: bool)
        ensures
            r == self.index().contains_key(key.spec_key()),
    {
        self.kv_map.contains_key(&key.key())
    }

    /// The value stored under `key`, if any. A spilled block reads from
    /// `file`, the bytes of its spill file.
    pub fn kv_get(&self, key: &UUID, file: &Vec<u8>) -> (r: Option<Vec<u8>>)
        requires
            self.wf(),
            self.spec_spilled() ==> file@ == self.spec_file(),
        ensures
            match r {
                Some(v) => self.kv_value(key.spec_key()) == Some(v@),
                None => self.kv_value(key.spec_key()) is None,
            },
    {
        let k = key.key();
        match self.kv_map.get(&k) {
            None => None,
            Some(off) => {
                let (mut rs, _) = self.read(*off, ReadLimitBy::Items(1), file);
                if rs.len() > 0 {
                    let v = rs.swap_remove(0);
                    Some(v)
                } else {
                    None
                }
            },
        }
    }

    /// Drops `key` from the index; the record itself stays in the stream.
    /// Returns whether the key was there.
    pub fn kv_unset(&mut self, key: &UUID) -> (r: Option<()>)
        requires
            old(self).wf(),
        ensures
            final(self).wf(),
            final(self).spec_id() == old(self).spec_id(),
            final(self).spec_cap() == old(self).spec_cap(),
            r is Some <==> old(self).index().contains_key(key.spec_key()),
            kv_unset_post(*old(self), *final(self), key.spec_key()),
            final(self).spec_file() == old(self).spec_file(),
            final(self).spec_spilled() == old(self).spec_spilled(),
    {
        let k = key.key();
        let r = self.kv_map.remove(&k);
        proof {
            assert(self.index().dom() =~= old(self).index().dom().remove(k));
        }
        match r {
            Some(_) => Some(()),
            None => None,
        }
    }
}

/// `after` is `before` once `value` was stored under `key`: the records grew
/// by `value`, `key` reads `value`, and every other key reads as before.
pub open spec fn kv_set_post(before: LocalOwnedBlock, after: LocalOwnedBlock, key: u128, value: Seq<u8>) -> bool {
    &&& after.records() == before.records().push(value)
    &&& after.stream() == before.stream() + frame(value)
    &&& after.index().dom() == before.index().dom().insert(key)
    &&& after.index()[key] == before.stream().len()
    &&& after.kv_value(key) == Some(value)
    &&& forall|k: u128| k != key ==> #[trigger] after.kv_value(k) == before.kv_value(k)
}

/// `after` is `before` once `key` was dropped from the index.
pub open spec fn kv_unset_post(before: LocalOwnedBlock, after: LocalOwnedBlock, key: u128) -> bool {
    &&& after.records() == before.records()
    &&& after.stream() == before.stream()
    &&& after.index().dom() == before.index().dom().remove(key)
    &&& after.kv_value(key) is None
    &&& forall|k: u128| k != key ==> #[trigger] after.kv_value(k) == before.kv_value(k)
}

pub proof fn lemma_framed_prefix_len(vs: Seq<Seq<u8>>, i: int)
    requires
        0 <= i <= vs.len(),
    ensures
        framed(vs.take(i)).len() <= framed(vs).len(),
    decreases vs.len() - i,
{
    if i < vs.len() {
        lemma_framed_prefix_len(vs, i + 1);
        assert(vs.take(i + 1).drop_last() =~= vs.take(i));
    } else {
        assert(vs.take(i) =~= vs);
    }
}

/// A block holding the records `S` reads back, from offset 0 with an item
/// limit of at least `|S|`, exactly `S`, ending at the end of the stream,
/// whatever its buffer capacity.
pub proof fn lemma_block_round_trip(b: LocalOwnedBlock, n: u64)
    requires
        b.wf(),
        b.records().len() <= n,
    ensures
        read_spec(b.stream(), 0, ReadLimitBy::Items(n)) == (b.records(), b.stream().len() as int),
{
    lemma_read_framed(b.records(), n);
}

/// Whether records sit in memory or in the spill file is invisible to
/// reads: two blocks holding the same records read the same from any offset
/// under any limit, and a spilled block reads back all it holds.
pub proof fn lemma_spill_transparent(a: LocalOwnedBlock, b: LocalOwnedBlock, pos: int, limit: ReadLimitBy, n: u64)
    requires
        a.wf(),
        b.wf(),
        a.records() == b.records(),
        a.records().len() <= n,
    ensures
        read_spec(a.stream(), pos, limit) == read_spec(b.stream(), pos, limit),
        a.spec_spilled() ==> read_spec(a.stream(), 0, ReadLimitBy::Items(n)).0 == a.records(),
{
    lemma_read_framed(a.records(), n);
}

/// Reading `k` records from `pos` and then `m` more from the returned offset
/// gives the same records, and the same final offset, as reading `k + m`
/// records from `pos` at once.
pub proof fn lemma_cursor_resume(b: LocalOwnedBlock, pos: int, k: u64, m: u64)
    requires
        b.wf(),
        k + m <= u64::MAX,
    ensures
        ({
            let r1 = read_spec(b.stream(), pos, ReadLimitBy::Items(k));
            let r2 = read_spec(b.stream(), r1.1, ReadLimitBy::Items(m));
            read_spec(b.stream(), pos, ReadLimitBy::Items((k + m) as u64)) == (r1.0 + r2.0, r2.1)
        }),
{
    lemma_read_split(b.stream(), pos, k as nat, m as nat, 0, 0);
}

impl LocalOwnedBlock {
    /// A well-formed block's stream is the framing of its records.
    pub proof fn lemma_stream_framed(&self)
        requires
            self.wf(),
        ensures
            self.stream() == framed(self.records()),
            self.stream().len() <= u64::MAX,
            self.spec_spilled() ==> self.spec_file() == self.stream(),
    {
    }
}

/// Cloning a block: when a block `dst` holds, in order, the batches read
/// from a block `src` with an item limit `k > 0`, each from the offset where
/// the previous read ended, starting at offset 0 and ending with the first
/// empty batch, `dst` holds exactly the records of `src`, byte for byte.
pub proof fn lemma_clone_copies(
    src: LocalOwnedBlock,
    dst: LocalOwnedBlock,
    batches: Seq<Seq<Seq<u8>>>,
    ends: Seq<int>,
    k: u64,
    n: u64,
)
    requires
        src.wf(),
        dst.wf(),
        k > 0,
        n >= src.records().len(),
        batches.len() > 0,
        batches.last().len() == 0,
        ends.len() == batches.len() + 1,
        ends[0] == 0,
        forall|i: int| 0 <= i < batches.len() ==> read_spec(src.stream(), ends[i], ReadLimitBy::Items(k)) == (#[trigger] batches[i], ends[i + 1]),
        dst.records() == concat_all(batches),
    ensures
        dst.records() == src.records(),
        dst.stream() == src.stream(),
        read_spec(dst.stream(), 0, ReadLimitBy::Items(n)) == (src.records(), src.stream().len() as int),
{
    let m = batches.len() as int;
    lemma_batches_prefix(src.records(), batches, ends, k, m);
    assert(batches.take(m) =~= batches);
    assert(src.records().take(src.records().len() as int) =~= src.records());
    lemma_read_framed(src.records(), n);
}

/// In a block holding records `R`, a one-record read at the offset where
/// record `c` starts gives `R[c]` and ends where `R[c + 1]` starts, whether
/// the record lies in memory or in the spill file.
pub proof fn lemma_read_each_record(b: LocalOwnedBlock, c: int)
    requires
        b.wf(),
        0 <= c < b.records().len(),
    ensures
        read_spec(b.stream(), framed(b.records().take(c)).len() as int, ReadLimitBy::Items(1))
            == (seq![b.records()[c]], framed(b.records().take(c + 1)).len() as int),
{
    crate::record::lemma_read_at_boundary(b.records(), c, 1);
    assert(b.records().subrange(c, c + 1) =~= seq![b.records()[c]]);
}

/// Reading `k` records from `pos` and then reading from the returned offset
/// under any limit gives the same records, and the same final offset, as one
/// read from `pos` of as many records as both together.
pub proof fn lemma_cursor_resume_any(b: LocalOwnedBlock, pos: int, k: u64, limit: ReadLimitBy)
    requires
        b.wf(),
        pos >= 0,
    ensures
        ({
            let r1 = read_spec(b.stream(), pos, ReadLimitBy::Items(k));
            let r2 = read_spec(b.stream(), r1.1, limit);
            &&& r1.0.len() + r2.0.len() <= u64::MAX
            &&& read_spec(b.stream(), pos, ReadLimitBy::Items((r1.0.len() + r2.0.len()) as u64)) == (r1.0 + r2.0, r2.1)
        }),
{
    let st = b.stream();
    b.lemma_stream_framed();
    let r1 = read_spec(st, pos, ReadLimitBy::Items(k));
    crate::record::lemma_read_as_items(st, pos, ReadLimitBy::Items(k), 0, 0, 0);
    let r2 = read_spec(st, r1.1, limit);
    crate::record::lemma_read_as_items(st, r1.1, limit, 0, 0, 0);
    let n2 = r2.0.len();
    crate::record::lemma_items_stop(st, pos, k, 0, 0);
    if r1.0.len() == k {
        lemma_read_split(st, pos, k as nat, n2, 0, 0);
    } else {
        assert(r2.0 =~= Seq::<Seq<u8>>::empty());
        assert(r1.0 + r2.0 =~= r1.0);
    }
}

/// Storing `v1` and then `v2` under one key leaves `v2` there.
pub proof fn lemma_kv_last_write_wins(
    b0: LocalOwnedBlock,
    b1: LocalOwnedBlock,
    b2: LocalOwnedBlock,
    key: u128,
    v1: Seq<u8>,
    v2: Seq<u8>,
)
    requires
        kv_set_post(b0, b1, key, v1),
        kv_set_post(b1, b2, key, v2),
    ensures
        b2.kv_value(key) == Some(v2),
{
}

/// Storing a value under a key and then dropping the key leaves no value there.
pub proof fn lemma_kv_unset(b0: LocalOwnedBlock, b1: LocalOwnedBlock, b2: LocalOwnedBlock, key: u128, v: Seq<u8>)
    requires
        kv_set_post(b0, b1, key, v),
        kv_unset_post(b1, b2, key),
    ensures
        b2.kv_value(key) is None,
{
}

} // verus!
