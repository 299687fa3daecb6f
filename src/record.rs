//! The record stream of a block: each record is an 8-byte little-endian
//! length followed by that many payload bytes. A read starts at the offset of
//! a length header and decodes whole records until its limit is met or no
//! whole record is left.
use vstd::prelude::*;
use crate::codec::{decode_u64_le, le_bytes, le_value, lemma_le_bytes_len, lemma_le_round_trip, pow256};

verus! {

/// How much one read may return.
#[derive(Clone, Copy, PartialEq, Eq, Structural, Debug)]
pub enum ReadLimitBy {
    /// Stop once at least this many stream bytes (headers included) were read.
    Size(u64),
    /// Stop once this many records were read.
    Items(u64),
}

/// A resumable read position in block `id` of `task`.
#[derive(Clone, Copy, PartialEq, Eq, Structural, Debug)]
pub struct BlockCursor {
    pub pos: u64,
    pub task: crate::ids::UUID,
    pub id: crate::ids::UUID,
    pub limit: ReadLimitBy,
}

impl BlockCursor {
    /// A cursor at the start of the block.
    pub fn new(task: crate::ids::UUID, id: crate::ids::UUID, limit: ReadLimitBy) -> (r: BlockCursor)
        ensures
            r == (BlockCursor { pos: 0, task, id, limit }),
    {
        BlockCursor { pos: 0, task, id, limit }
    }
}

/// Whether a read that has so far returned `items` records spanning `bytes`
/// stream bytes may go on.
pub open spec fn limit_open(limit: ReadLimitBy, items: nat, bytes: nat) -> bool {
    match limit {
        ReadLimitBy::Size(n) => bytes < n,
        ReadLimitBy::Items(n) => items < n,
    }
}

/// One record as it stands in the stream.
pub open spec fn frame(p: Seq<u8>) -> Seq<u8> {
    le_bytes(p.len(), 8) + p
}

/// The stream that holds `records`, in order.
pub open spec fn framed(records: Seq<Seq<u8>>) -> Seq<u8>
    decreases records.len(),
{
    if records.len() == 0 {
        Seq::empty()
    } else {
        framed(records.drop_last()) + frame(records.last())
    }
}

/// The payload length announced by the header at `pos`.
pub open spec fn header_at(s: Seq<u8>, pos: int) -> nat {
    le_value(s.subrange(pos, pos + 8))
}

/// Whether a whole record starts at `pos`.
pub open spec fn record_fits(s: Seq<u8>, pos: int) -> bool {
    0 <= pos && pos + 8 <= s.len() && pos + 8 + header_at(s, pos) <= s.len()
}

/// The records read from `pos` under `limit`, after `items` records of
/// `bytes` stream bytes were already read, and the offset just after the
/// last of them.
pub open spec fn read_from(s: Seq<u8>, pos: int, limit: ReadLimitBy, items: nat, bytes: nat) -> (Seq<Seq<u8>>, int)
    decreases s.len() - pos,
{
    if limit_open(limit, items, bytes) && record_fits(s, pos) {
        let next = pos + 8 + header_at(s, pos);
        let rest = read_from(s, next, limit, items + 1, bytes + 8 + header_at(s, pos));
        (seq![s.subrange(pos + 8, next)] + rest.0, rest.1)
    } else {
        (Seq::empty(), pos)
    }
}

/// A read from `pos` with no prior records.
pub open spec fn read_spec(s: Seq<u8>, pos: int, limit: ReadLimitBy) -> (Seq<Seq<u8>>, int) {
    read_from(s, pos, limit, 0, 0)
}

/// The views of a vector of records.
pub open spec fn views(v: Seq<Vec<u8>>) -> Seq<Seq<u8>> {
    v.map_values(|x: Vec<u8>| x@)
}

pub proof fn lemma_frame_len(p: Seq<u8>)
    ensures
        frame(p).len() == 8 + p.len(),
{
    lemma_le_bytes_len(p.len(), 8);
}

/// Reading never moves backwards, and a read that returns records ends on
/// a record boundary within the stream.
pub proof fn lemma_read_end(s: Seq<u8>, pos: int, limit: ReadLimitBy, items: nat, bytes: nat)
    ensures
        read_from(s, pos, limit, items, bytes).1 >= pos,
        read_from(s, pos, limit, items, bytes).0.len() > 0 ==> read_from(s, pos, limit, items, bytes).1 <= s.len(),
    decreases s.len() - pos,
{
    if limit_open(limit, items, bytes) && record_fits(s, pos) {
        let next = pos + 8 + header_at(s, pos);
        lemma_read_end(s, next, limit, items + 1, bytes + 8 + header_at(s, pos));
    }
}

/// A record that fits in `s` reads the same in any extension of `s`.
pub proof fn lemma_fits_extend(s: Seq<u8>, t: Seq<u8>, pos: int)
    requires
        record_fits(s, pos),
    ensures
        record_fits(s + t, pos),
        header_at(s + t, pos) == header_at(s, pos),
        (s + t).subrange(pos + 8, pos + 8 + header_at(s, pos)) == s.subrange(pos + 8, pos + 8 + header_at(s, pos)),
{
    assert((s + t).subrange(pos, pos + 8) =~= s.subrange(pos, pos + 8));
    assert((s + t).subrange(pos + 8, pos + 8 + header_at(s, pos)) =~= s.subrange(pos + 8, pos + 8 + header_at(s, pos)));
}

/// Reading one record from a position of `s` is unchanged when bytes are appended.
pub proof fn lemma_read_one_extend(s: Seq<u8>, t: Seq<u8>, pos: int)
    requires
        record_fits(s, pos),
    ensures
        read_from(s + t, pos, ReadLimitBy::Items(1), 0, 0).0 == read_from(s, pos, ReadLimitBy::Items(1), 0, 0).0,
{
    lemma_fits_extend(s, t, pos);
    let h = header_at(s, pos);
    assert(read_from(s + t, pos + 8 + h, ReadLimitBy::Items(1), 1, 8 + h).0 == Seq::<Seq<u8>>::empty());
    assert(read_from(s, pos + 8 + h, ReadLimitBy::Items(1), 1, 8 + h).0 == Seq::<Seq<u8>>::empty());
}

/// Reading from `|a| + pos` in `a + b` is reading from `pos` in `b`.
pub proof fn lemma_read_shift(a: Seq<u8>, b: Seq<u8>, pos: int, limit: ReadLimitBy, items: nat, bytes: nat)
    requires
        pos >= 0,
    ensures
        read_from(a + b, a.len() + pos, limit, items, bytes).0 == read_from(b, pos, limit, items, bytes).0,
        read_from(a + b, a.len() + pos, limit, items, bytes).1 == a.len() + read_from(b, pos, limit, items, bytes).1,
    decreases b.len() - pos,
{
    let s = a + b;
    let q = a.len() + pos;
    if pos + 8 <= b.len() {
        assert(s.subrange(q, q + 8) =~= b.subrange(pos, pos + 8));
        let h = header_at(b, pos);
        if pos + 8 + h <= b.len() {
            assert(s.subrange(q + 8, q + 8 + h) =~= b.subrange(pos + 8, pos + 8 + h));
            if limit_open(limit, items, bytes) {
                lemma_read_shift(a, b, pos + 8 + h, limit, items + 1, bytes + 8 + h);
            }
        }
    }
}

/// A stream that holds one record reads back as that record.
pub proof fn lemma_read_frame(p: Seq<u8>, limit: ReadLimitBy, items: nat, bytes: nat)
    requires
        p.len() < pow256(8),
        limit_open(limit, items, bytes),
    ensures
        read_from(frame(p), 0, limit, items, bytes) == (seq![p], frame(p).len() as int),
{
    let f = frame(p);
    lemma_frame_len(p);
    lemma_le_round_trip(p.len(), 8);
    assert(f.subrange(0, 8) =~= le_bytes(p.len(), 8));
    assert(f.subrange(8, 8 + p.len() as int) =~= p);
    let next = 8 + p.len();
    assert(!record_fits(f, next as int));
    assert(read_from(f, next as int, limit, items + 1, bytes + next) == (Seq::<Seq<u8>>::empty(), next as int));
    assert(seq![p] + Seq::<Seq<u8>>::empty() =~= seq![p]);
}

/// A read that consumes all of `s` continues, in `s + t`, where it stopped.
pub proof fn lemma_read_extend(s: Seq<u8>, t: Seq<u8>, pos: int, limit: ReadLimitBy, items: nat, bytes: nat)
    requires
        0 <= pos <= s.len(),
        read_from(s, pos, limit, items, bytes).1 == s.len(),
    ensures
        ({
            let r = read_from(s, pos, limit, items, bytes);
            let k = read_from(s + t, s.len() as int, limit, items + r.0.len(), (bytes + s.len() - pos) as nat);
            read_from(s + t, pos, limit, items, bytes) == (r.0 + k.0, k.1)
        }),
    decreases s.len() - pos,
{
    let r = read_from(s, pos, limit, items, bytes);
    if limit_open(limit, items, bytes) && record_fits(s, pos) {
        let h = header_at(s, pos);
        let next = pos + 8 + h;
        lemma_fits_extend(s, t, pos);
        lemma_read_extend(s, t, next, limit, items + 1, bytes + 8 + h);
        let r2 = read_from(s, next, limit, items + 1, bytes + 8 + h);
        let k = read_from(s + t, s.len() as int, limit, items + 1 + r2.0.len(), (bytes + 8 + h + s.len() - next) as nat);
        assert(seq![s.subrange(pos + 8, next)] + (r2.0 + k.0) =~= (seq![s.subrange(pos + 8, next)] + r2.0) + k.0);
        assert(items + 1 + r2.0.len() == items + r.0.len());
        assert((bytes + 8 + h + s.len() - next) as nat == (bytes + s.len() - pos) as nat);
    } else {
        assert(pos == s.len());
        assert(r.0 =~= Seq::<Seq<u8>>::empty());
        assert(r.0 + read_from(s + t, s.len() as int, limit, items, bytes).0 =~= read_from(s + t, s.len() as int, limit, items, bytes).0);
    }
}

/// The stream of `records` reads back, from its start, as `records`, given a
/// limit of at least as many items.
pub proof fn lemma_read_framed(records: Seq<Seq<u8>>, n: u64)
    requires
        records.len() <= n,
        forall|i: int| 0 <= i < records.len() ==> (#[trigger] records[i]).len() < pow256(8),
    ensures
        read_from(framed(records), 0, ReadLimitBy::Items(n), 0, 0) == (records, framed(records).len() as int),
    decreases records.len(),
{
    if records.len() == 0 {
        assert(read_from(framed(records), 0, ReadLimitBy::Items(n), 0, 0) == (Seq::<Seq<u8>>::empty(), 0int));
        assert(records =~= Seq::<Seq<u8>>::empty());
    } else {
        let init = records.drop_last();
        let x = records.last();
        let a = framed(init);
        let lim = ReadLimitBy::Items(n);
        lemma_read_framed(init, n);
        lemma_read_extend(a, frame(x), 0, lim, 0, 0);
        lemma_read_shift(a, frame(x), 0, lim, init.len(), a.len());
        assert(a.len() + 0 == a.len());
        lemma_read_frame(x, lim, init.len(), a.len());
        assert(init + seq![x] =~= records);
    }
}

/// The stream of `records` followed by one more record.
pub proof fn lemma_framed_push(records: Seq<Seq<u8>>, p: Seq<u8>)
    ensures
        framed(records.push(p)) == framed(records) + frame(p),
{
    assert(records.push(p).drop_last() =~= records);
}

/// With an item limit, what was read so far matters only as a count against the limit.
pub proof fn lemma_read_items_shift(s: Seq<u8>, pos: int, n: nat, d: nat, items: nat, b1: nat, b2: nat)
    requires
        n + d <= u64::MAX,
    ensures
        read_from(s, pos, ReadLimitBy::Items((n + d) as u64), items + d, b1) == read_from(s, pos, ReadLimitBy::Items(n as u64), items, b2),
    decreases s.len() - pos,
{
    if items < n && record_fits(s, pos) {
        let h = header_at(s, pos);
        lemma_read_items_shift(s, pos + 8 + h, n, d, items + 1, b1 + 8 + h, b2 + 8 + h);
        assert(items + d + 1 == items + 1 + d);
    }
}

/// Reading `k` records and then `m` more from where the first read ended is
/// reading `k + m` records at once.
pub proof fn lemma_read_split(s: Seq<u8>, pos: int, k: nat, m: nat, items: nat, bytes: nat)
    requires
        items <= k,
        k + m <= u64::MAX,
    ensures
        ({
            let r1 = read_from(s, pos, ReadLimitBy::Items(k as u64), items, bytes);
            let r2 = read_from(s, r1.1, ReadLimitBy::Items(m as u64), 0, 0);
            read_from(s, pos, ReadLimitBy::Items((k + m) as u64), items, bytes) == (r1.0 + r2.0, r2.1)
        }),
    decreases s.len() - pos,
{
    let lk = ReadLimitBy::Items(k as u64);
    let lkm = ReadLimitBy::Items((k + m) as u64);
    let r1 = read_from(s, pos, lk, items, bytes);
    if items < k && record_fits(s, pos) {
        let h = header_at(s, pos);
        let next = pos + 8 + h;
        lemma_read_split(s, next, k, m, items + 1, bytes + 8 + h);
        let r1n = read_from(s, next, lk, items + 1, bytes + 8 + h);
        let r2 = read_from(s, r1n.1, ReadLimitBy::Items(m as u64), 0, 0);
        assert(seq![s.subrange(pos + 8, next)] + (r1n.0 + r2.0) =~= (seq![s.subrange(pos + 8, next)] + r1n.0) + r2.0);
    } else if items == k {
        lemma_read_items_shift(s, pos, m, k, 0, bytes, 0);
        assert(r1.0 + read_from(s, pos, ReadLimitBy::Items(m as u64), 0, 0).0 =~= read_from(s, pos, ReadLimitBy::Items(m as u64), 0, 0).0);
    } else {
        assert(r1.0 + read_from(s, pos, ReadLimitBy::Items(m as u64), 0, 0).0 =~= read_from(s, pos, ReadLimitBy::Items(m as u64), 0, 0).0);
    }
}

/// The stream of `records` is the stream of its first `j` records followed
/// by the stream of the rest.
pub proof fn lemma_framed_split(records: Seq<Seq<u8>>, j: int)
    requires
        0 <= j <= records.len(),
    ensures
        framed(records) == framed(records.take(j)) + framed(records.skip(j)),
    decreases records.len(),
{
    if j == records.len() {
        assert(records.take(j) =~= records);
        assert(records.skip(j) =~= Seq::<Seq<u8>>::empty());
        assert(framed(records) + Seq::<u8>::empty() =~= framed(records));
    } else {
        let init = records.drop_last();
        lemma_framed_split(init, j);
        assert(init.take(j) =~= records.take(j));
        assert(records.skip(j).drop_last() =~= init.skip(j));
        assert(records.skip(j).last() == records.last());
        assert(framed(records.take(j)) + (framed(init.skip(j)) + frame(records.last())) =~= (framed(records.take(j)) + framed(init.skip(j))) + frame(records.last()));
    }
}

/// Reading `k` records from the start of the stream of `records` gives its
/// first `min(k, |records|)` records and ends after them.
pub proof fn lemma_read_framed_prefix(records: Seq<Seq<u8>>, k: u64)
    requires
        forall|i: int| 0 <= i < records.len() ==> (#[trigger] records[i]).len() < pow256(8),
    ensures
        ({
            let j = if k < records.len() { k as int } else { records.len() as int };
            read_spec(framed(records), 0, ReadLimitBy::Items(k)) == (records.take(j), framed(records.take(j)).len() as int)
        }),
{
    let j = if k < records.len() { k as int } else { records.len() as int };
    let pre = records.take(j);
    let a = framed(pre);
    let t = framed(records.skip(j));
    let lim = ReadLimitBy::Items(k);
    lemma_framed_split(records, j);
    assert forall|i: int| 0 <= i < pre.len() implies (#[trigger] pre[i]).len() < pow256(8) by {
        assert(pre[i] == records[i]);
    }
    lemma_read_framed(pre, k);
    lemma_read_extend(a, t, 0, lim, 0, 0);
    let rest = read_from(a + t, a.len() as int, lim, pre.len(), a.len());
    if j == k {
        assert(rest.0 =~= Seq::<Seq<u8>>::empty());
    } else {
        assert(records.skip(j) =~= Seq::<Seq<u8>>::empty());
        assert(a + t =~= a);
        assert(rest.0 =~= Seq::<Seq<u8>>::empty());
    }
    assert(pre + rest.0 =~= pre);
}

/// Reading `k` records at the boundary after the first `c` records of the
/// stream of `records` gives the next `min(k, |records| - c)` records and
/// ends after them.
pub proof fn lemma_read_at_boundary(records: Seq<Seq<u8>>, c: int, k: u64)
    requires
        0 <= c <= records.len(),
        forall|i: int| 0 <= i < records.len() ==> (#[trigger] records[i]).len() < pow256(8),
    ensures
        ({
            let e = if c + k < records.len() { c + k } else { records.len() as int };
            read_spec(framed(records), framed(records.take(c)).len() as int, ReadLimitBy::Items(k))
                == (records.subrange(c, e), framed(records.take(e)).len() as int)
        }),
{
    let e = if c + k < records.len() { c + k } else { records.len() as int };
    let rest = records.skip(c);
    lemma_framed_split(records, c);
    assert forall|i: int| 0 <= i < rest.len() implies (#[trigger] rest[i]).len() < pow256(8) by {
        assert(rest[i] == records[c + i]);
    }
    lemma_read_shift(framed(records.take(c)), framed(rest), 0, ReadLimitBy::Items(k), 0, 0);
    lemma_read_framed_prefix(rest, k);
    let j = e - c;
    assert(rest.take(j) =~= records.subrange(c, e));
    let upto = records.take(e);
    lemma_framed_split(upto, c);
    assert(upto.take(c) =~= records.take(c));
    assert(upto.skip(c) =~= rest.take(j));
}

/// All records of `batches`, in order.
pub open spec fn concat_all(batches: Seq<Seq<Seq<u8>>>) -> Seq<Seq<u8>>
    decreases batches.len(),
{
    if batches.len() == 0 {
        Seq::empty()
    } else {
        concat_all(batches.drop_last()) + batches.last()
    }
}

/// Copying a stream batch by batch: if each batch was read with an item
/// limit `k > 0` from where the previous read ended, starting at offset 0,
/// the first `t` batches together are the stream's first records, and the
/// `t`-th read starts right after them.
pub proof fn lemma_batches_prefix(records: Seq<Seq<u8>>, batches: Seq<Seq<Seq<u8>>>, ends: Seq<int>, k: u64, t: int)
    requires
        forall|i: int| 0 <= i < records.len() ==> (#[trigger] records[i]).len() < pow256(8),
        k > 0,
        ends.len() == batches.len() + 1,
        ends[0] == 0,
        forall|i: int| 0 <= i < batches.len() ==> read_spec(framed(records), ends[i], ReadLimitBy::Items(k)) == (#[trigger] batches[i], ends[i + 1]),
        0 <= t <= batches.len(),
    ensures
        concat_all(batches.take(t)).len() <= records.len(),
        concat_all(batches.take(t)) == records.take(concat_all(batches.take(t)).len() as int),
        ends[t] == framed(records.take(concat_all(batches.take(t)).len() as int)).len(),
        t > 0 && batches[t - 1].len() == 0 ==> concat_all(batches.take(t)).len() == records.len(),
    decreases t,
{
    if t == 0 {
        assert(batches.take(0) =~= Seq::<Seq<Seq<u8>>>::empty());
        assert(records.take(0) =~= Seq::<Seq<u8>>::empty());
    } else {
        lemma_batches_prefix(records, batches, ends, k, t - 1);
        let c = concat_all(batches.take(t - 1)).len() as int;
        lemma_read_at_boundary(records, c, k);
        assert(batches.take(t).drop_last() =~= batches.take(t - 1));
        assert(batches.take(t).last() == batches[t - 1]);
        let e = if c + k < records.len() { c + k } else { records.len() as int };
        assert(records.take(c) + records.subrange(c, e) =~= records.take(e));
    }
}

/// Whatever a read returned under its limit, it returns under an item limit
/// of just that many records; the records lie between its start and end.
pub proof fn lemma_read_as_items(s: Seq<u8>, pos: int, limit: ReadLimitBy, items: nat, bytes: nat, b2: nat)
    requires
        pos >= 0,
        items + (s.len() - pos) <= u64::MAX,
    ensures
        ({
            let r = read_from(s, pos, limit, items, bytes);
            &&& r.1 >= pos
            &&& r.0.len() > 0 ==> pos + r.0.len() <= r.1 <= s.len()
            &&& read_from(s, pos, ReadLimitBy::Items((items + r.0.len()) as u64), items, b2) == r
        }),
    decreases s.len() - pos,
{
    if limit_open(limit, items, bytes) && record_fits(s, pos) {
        let h = header_at(s, pos);
        lemma_read_as_items(s, pos + 8 + h, limit, items + 1, bytes + 8 + h, b2 + 8 + h);
        let rest = read_from(s, pos + 8 + h, limit, items + 1, bytes + 8 + h);
        assert(items + 1 + rest.0.len() == items + (seq![s.subrange(pos + 8, pos + 8 + h)] + rest.0).len());
    }
}

/// A read under an item limit that returned fewer records than allowed
/// stopped where no whole record starts.
pub proof fn lemma_items_stop(s: Seq<u8>, pos: int, k: u64, items: nat, bytes: nat)
    requires
        items <= k,
    ensures
        items + read_from(s, pos, ReadLimitBy::Items(k), items, bytes).0.len() <= k,
        items + read_from(s, pos, ReadLimitBy::Items(k), items, bytes).0.len() < k
            ==> !record_fits(s, read_from(s, pos, ReadLimitBy::Items(k), items, bytes).1),
    decreases s.len() - pos,
{
    if items < k && record_fits(s, pos) {
        let h = header_at(s, pos);
        lemma_items_stop(s, pos + 8 + h, k, items + 1, bytes + 8 + h);
    }
}

/// Decodes the records of `s` from `pos` under `limit`; returns them and the
/// offset just after the last one.
pub fn read_records(s: &Vec<u8>, pos: u64, limit: ReadLimitBy) -> (r: (Vec<Vec<u8>>, u64))
    ensures
        views(r.0@) == read_spec(s@, pos as int, limit).0,
        r.1 as int == read_spec(s@, pos as int, limit).1,
{
    let n = s.len();
    let mut res: Vec<Vec<u8>> = Vec::new();
    if pos as u128 > n as u128 {
        proof {
            assert(!record_fits(s@, pos as int));
            assert(views(res@) =~= Seq::<Seq<u8>>::empty());
        }
        return (res, pos);
    }
    let mut cursor: usize = pos as usize;
    let mut items: u64 = 0;
    loop
        invariant
            n == s@.len(),
            pos <= cursor <= n,
            items <= cursor - pos,
            read_spec(s@, pos as int, limit) == (views(res@) + read_from(s@, cursor as int, limit, items as nat, (cursor - pos) as nat).0,
                read_from(s@, cursor as int, limit, items as nat, (cursor - pos) as nat).1),
        decreases n - cursor,
    {
        let ghost rest = read_from(s@, cursor as int, limit, items as nat, (cursor - pos) as nat);
        let open = match limit {
            ReadLimitBy::Size(lim) => ((cursor - pos as usize) as u64) < lim,
            ReadLimitBy::Items(lim) => items < lim,
        };
        if !open || n - cursor < 8 {
            proof {
                assert(views(res@) + rest.0 =~= views(res@));
            }
            return (res, cursor as u64);
        }
        let len = decode_u64_le(s, cursor);
        if ((n - cursor - 8) as u64) < len {
            proof {
                assert(!record_fits(s@, cursor as int));
                assert(views(res@) + rest.0 =~= views(res@));
            }
            return (res, cursor as u64);
        }
        let start = cursor + 8;
        let end = start + len as usize;
        let mut payload: Vec<u8> = Vec::with_capacity(len as usize);
        let mut j: usize = start;
        while j < end
            invariant
                n == s@.len(),
                start <= j <= end,
                end <= n,
                payload@ == s@.subrange(start as int, j as int),
            decreases end - j,
        {
            payload.push(s[j]);
            proof {
                assert(payload@ =~= s@.subrange(start as int, j + 1));
            }
            j = j + 1;
        }
        let ghost before = views(res@);
        res.push(payload);
        proof {
            assert(views(res@) =~= before.push(s@.subrange(start as int, end as int)));
            let next = read_from(s@, end as int, limit, items as nat + 1, (end - pos) as nat);
            assert(rest.0 == seq![s@.subrange(start as int, end as int)] + next.0);
            assert(before + rest.0 =~= views(res@) + next.0);
        }
        cursor = end;
        items = items + 1;
    }
}

} // verus!
