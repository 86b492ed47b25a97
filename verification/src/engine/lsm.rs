//! The LSM engine: writes and reads go to the active memtable; the log of
//! its mutations is replayed into a memtable on recovery.
use vstd::prelude::*;

use crate::api::KeyValueStore;
use crate::error::Error;
use crate::storage::memtable::MemTable;
use crate::storage::wal::{
    encode_record_spec, header_spec, lemma_header_round_trip, lemma_record_prefix,
    lemma_record_round_trip, read_header, read_header_spec, read_record_at, read_record_spec,
    write_header, ReadRecord, ReadView, RecordView, WalRecord, FILE_HEADER_BYTES,
};
use crate::types::{copy_bytes, Key, KeyRange, KeyValue, Value};

verus! {

/// An LSM engine over one active memtable.
pub struct LsmEngine {
    memtable: MemTable,
}

impl View for LsmEngine {
    type V = Map<Seq<u8>, Seq<u8>>;

    /// The map from key to value that the engine holds.
    closed spec fn view(&self) -> Map<Seq<u8>, Seq<u8>> {
        self.memtable@
    }
}

impl LsmEngine {
    /// The well-formedness of the engine.
    pub closed spec fn wf(&self) -> bool {
        self.memtable.wf()
    }

    /// An empty engine.
    pub fn new() -> (r: Self)
        ensures
            r.wf(),
            r@ == Map::<Seq<u8>, Seq<u8>>::empty(),
    {
        LsmEngine { memtable: MemTable::new() }
    }

    /// An engine over a memtable, such as one recovered from the log.
    pub fn from_memtable(memtable: MemTable) -> (r: Self)
        requires
            memtable.wf(),
        ensures
            r.wf(),
            r@ == memtable@,
    {
        LsmEngine { memtable }
    }
}

impl Default for LsmEngine {
    /// An empty engine.
    fn default() -> (r: Self)
        ensures
            r.wf(),
            r@ == Map::<Seq<u8>, Seq<u8>>::empty(),
    {
        Self::new()
    }
}

impl KeyValueStore for LsmEngine {
    open spec fn store_wf(&self) -> bool {
        self.wf()
    }

    open spec fn contents(&self) -> Map<Seq<u8>, Seq<u8>> {
        self@
    }

    fn put(&mut self, key: Key, value: Value) -> (r: Result<(), Error>)
        ensures
            r is Ok,
    {
        self.memtable.put(key, value);
        Ok(())
    }

    fn get(&self, key: &[u8]) -> (r: Result<Option<Value>, Error>)
        ensures
            r is Ok,
    {
        match self.memtable.get(key) {
            Some(v) => Ok(Some(copy_bytes(v))),
            None => Ok(None),
        }
    }

    fn delete(&mut self, key: &[u8]) -> (r: Result<(), Error>)
        ensures
            r is Ok,
    {
        self.memtable.delete(key);
        Ok(())
    }

    fn scan(&self, range: KeyRange) -> (r: Result<Vec<KeyValue>, Error>)
        ensures
            r is Ok,
    {
        Ok(self.memtable.scan(range))
    }
}

/// The effect of one log record on a map.
pub open spec fn apply_record_spec(m: Map<Seq<u8>, Seq<u8>>, r: RecordView) -> Map<
    Seq<u8>,
    Seq<u8>,
> {
    match r {
        RecordView::Put(k, v) => m.insert(k, v),
        RecordView::Delete(k) => m.remove(k),
    }
}

/// The effect of log records, applied in order, on a map.
pub open spec fn apply_records(m: Map<Seq<u8>, Seq<u8>>, rs: Seq<RecordView>) -> Map<
    Seq<u8>,
    Seq<u8>,
>
    decreases rs.len(),
{
    if rs.len() == 0 {
        m
    } else {
        apply_records(apply_record_spec(m, rs[0]), rs.drop_first())
    }
}

/// What the last record of `ops` on key `k` leaves under it: `Some(Some(v))`
/// for a put of `v`, `Some(None)` for a delete, and `None` where no record of
/// `ops` is on `k`.
pub open spec fn last_write(ops: Seq<RecordView>, k: Seq<u8>) -> Option<Option<Seq<u8>>>
    decreases ops.len(),
{
    if ops.len() == 0 {
        None
    } else {
        match ops.last() {
            RecordView::Put(key, v) => if key == k {
                Some(Some(v))
            } else {
                last_write(ops.drop_last(), k)
            },
            RecordView::Delete(key) => if key == k {
                Some(None)
            } else {
                last_write(ops.drop_last(), k)
            },
        }
    }
}

/// Applying records and then one more applies that one last.
pub proof fn lemma_apply_records_push(m: Map<Seq<u8>, Seq<u8>>, rs: Seq<RecordView>, r: RecordView)
    ensures
        apply_records(m, rs.push(r)) == apply_record_spec(apply_records(m, rs), r),
    decreases rs.len(),
{
    if rs.len() == 0 {
        assert(rs.push(r).drop_first() =~= Seq::<RecordView>::empty());
        assert(apply_records(apply_record_spec(m, r), Seq::<RecordView>::empty()) == apply_record_spec(m, r));
        assert(rs.push(r)[0] == r);
    } else {
        assert(rs.push(r)[0] == rs[0]);
        assert(rs.push(r).drop_first() =~= rs.drop_first().push(r));
        lemma_apply_records_push(apply_record_spec(m, rs[0]), rs.drop_first(), r);
    }
}

/// The last operation on a key wins: after puts and deletes applied in
/// order, a key holds the value of the last put on it, or nothing where the
/// last operation on it was a delete; a key that no operation touches keeps
/// what it held before.
pub proof fn law_last_operation_wins(m: Map<Seq<u8>, Seq<u8>>, ops: Seq<RecordView>, k: Seq<u8>)
    ensures
        match last_write(ops, k) {
            Some(Some(v)) => apply_records(m, ops).contains_key(k) && apply_records(m, ops)[k]
                == v,
            Some(None) => !apply_records(m, ops).contains_key(k),
            None => apply_records(m, ops).contains_key(k) == m.contains_key(k) && (
            m.contains_key(k) ==> apply_records(m, ops)[k] == m[k]),
        },
    decreases ops.len(),
{
    if ops.len() > 0 {
        let front = ops.drop_last();
        assert(front.push(ops.last()) =~= ops);
        lemma_apply_records_push(m, front, ops.last());
        law_last_operation_wins(m, front, k);
    }
}

/// Applies one log record to the memtable.
pub fn apply_record(memtable: &mut MemTable, record: WalRecord)
    requires
        old(memtable).wf(),
    ensures
        final(memtable).wf(),
        final(memtable)@ == apply_record_spec(old(memtable)@, record@),
{
    match record {
        WalRecord::Put { key, value } => memtable.put(key, value),
        WalRecord::Delete { key } => {
            memtable.delete(&key);
        },
    }
}

/// What reading one record at position `pos` of the log `s` gives.
#[verifier::opaque]
pub open spec fn read_at(s: Seq<u8>, pos: int) -> Result<(ReadView, int), Error> {
    read_record_spec(s.skip(pos))
}

/// The records of the log `s` read from position `pos` on, up to the end
/// of the log, a cut-short record, or a corrupt one.
pub open spec fn log_records(s: Seq<u8>, pos: int) -> Seq<RecordView>
    decreases s.len() - pos,
{
    if 0 <= pos <= s.len() {
        match read_at(s, pos) {
            Ok((ReadView::Record(r), n)) => if 0 < n && pos + n <= s.len() {
                seq![r] + log_records(s, pos + n)
            } else {
                Seq::empty()
            },
            _ => Seq::empty(),
        }
    } else {
        Seq::empty()
    }
}

/// Where reading the log `s` from position `pos` stops: the start of the
/// clean end or of the cut-short record, or the error of a corrupt record.
pub open spec fn log_end(s: Seq<u8>, pos: int) -> Result<int, Error>
    decreases s.len() - pos,
{
    if 0 <= pos <= s.len() {
        match read_at(s, pos) {
            Ok((ReadView::Record(r), n)) => if 0 < n && pos + n <= s.len() {
                log_end(s, pos + n)
            } else {
                Ok(pos)
            },
            Ok(_) => Ok(pos),
            Err(e) => Err(e),
        }
    } else {
        Ok(pos)
    }
}

/// The records that replaying the log file `s` applies.
pub open spec fn replay_records(s: Seq<u8>) -> Seq<RecordView> {
    match read_header_spec(s) {
        Ok(_) => log_records(s, FILE_HEADER_BYTES as int),
        Err(_) => Seq::empty(),
    }
}

/// What replaying the log file `s` returns: the length of its valid part,
/// or the error that stopped it.
pub open spec fn replay_result(s: Seq<u8>) -> Result<int, Error> {
    match read_header_spec(s) {
        Ok(_) => log_end(s, FILE_HEADER_BYTES as int),
        Err(e) => Err(e),
    }
}

/// Replays the log file `wal` into `memtable`: checks the header, then
/// applies each complete record in order. Returns the offset where the
/// valid log ends, before a clean end or a cut-short final record; a corrupt
/// record is an error.
pub fn replay_wal(wal: &[u8], memtable: &mut MemTable) -> (r: Result<usize, Error>)
    requires
        old(memtable).wf(),
    ensures
        final(memtable).wf(),
        final(memtable)@ == apply_records(old(memtable)@, replay_records(wal@)),
        match replay_result(wal@) {
            Ok(end) => FILE_HEADER_BYTES <= end <= wal@.len() && r == Ok::<usize, Error>(
                end as usize,
            ),
            Err(e) => r == Err::<usize, Error>(e),
        },
{
    let header = read_header(wal);
    if let Err(e) = header {
        return Err(e);
    }
    let mut pos: usize = FILE_HEADER_BYTES;
    loop
        invariant
            memtable.wf(),
            read_header_spec(wal@) is Ok,
            FILE_HEADER_BYTES <= pos <= wal@.len(),
            apply_records(old(memtable)@, replay_records(wal@)) == apply_records(
                memtable@,
                log_records(wal@, pos as int),
            ),
            replay_result(wal@) == log_end(wal@, pos as int),
        decreases wal@.len() - pos,
    {
        let record_start = pos;
        proof {
            reveal(read_at);
        }
        match read_record_at(wal, pos) {
            Err(e) => {
                return Err(e);
            },
            Ok((ReadRecord::Record(record), next)) => {
                proof {
                    let rs = log_records(wal@, pos as int);
                    assert(rs.drop_first() =~= log_records(wal@, next as int));
                }
                apply_record(memtable, record);
                pos = next;
            },
            Ok((ReadRecord::CleanEof, _)) => {
                return Ok(record_start);
            },
            Ok((ReadRecord::PartialTail, _)) => {
                return Ok(record_start);
            },
        }
    }
}

/// How the log file of a store is taken up when the store opens.
pub enum WalStart {
    /// The log is empty: write these header bytes to it first.
    Fresh { header: Vec<u8> },
    /// The log was replayed: cut it to its first `valid_len` bytes, dropping
    /// a record that a crash cut short.
    Recovered { valid_len: usize },
}

/// Recovers a store from the bytes of its log file: an empty log starts
/// fresh with a header and an empty memtable; otherwise the log is replayed
/// into an empty memtable, and the length of its valid part is returned.
pub fn recover_wal(wal: &[u8]) -> (r: Result<(MemTable, WalStart), Error>)
    ensures
        match r {
            Ok((m, start)) => m.wf() && if wal@.len() == 0 {
                &&& m@ == Map::<Seq<u8>, Seq<u8>>::empty()
                &&& start matches WalStart::Fresh { header } && header@ == header_spec()
            } else {
                &&& m@ == apply_records(Map::<Seq<u8>, Seq<u8>>::empty(), replay_records(wal@))
                &&& start matches WalStart::Recovered { valid_len } && replay_result(wal@)
                    == Ok::<int, Error>(valid_len as int)
            },
            Err(e) => wal@.len() > 0 && replay_result(wal@) == Err::<int, Error>(e),
        },
{
    let mut memtable = MemTable::new();
    if wal.len() == 0 {
        let mut header: Vec<u8> = Vec::new();
        write_header(&mut header);
        proof {
            assert(header@ =~= header_spec());
        }
        return Ok((memtable, WalStart::Fresh { header }));
    }
    let valid_len = replay_wal(wal, &mut memtable)?;
    Ok((memtable, WalStart::Recovered { valid_len }))
}

/// The encodings of records, one after another.
pub open spec fn encodings(rs: Seq<RecordView>) -> Seq<u8>
    decreases rs.len(),
{
    if rs.len() == 0 {
        Seq::empty()
    } else {
        encode_record_spec(rs[0])->Ok_0 + encodings(rs.drop_first())
    }
}

/// Every record can be encoded.
pub open spec fn all_encodable(rs: Seq<RecordView>) -> bool {
    forall|i: int| 0 <= i < rs.len() ==> (#[trigger] encode_record_spec(rs[i])) is Ok
}

/// A log holding complete records and then the first `cut` bytes of the
/// encoding of one more record reads as those complete records, ending where
/// the cut-short record starts.
proof fn lemma_log_from(s: Seq<u8>, pos: int, rs: Seq<RecordView>, last: RecordView, cut: int)
    requires
        0 <= pos <= s.len(),
        all_encodable(rs),
        encode_record_spec(last) is Ok,
        0 <= cut < encode_record_spec(last)->Ok_0.len(),
        s.skip(pos) == encodings(rs) + encode_record_spec(last)->Ok_0.subrange(0, cut),
    ensures
        log_records(s, pos) == rs,
        log_end(s, pos) == Ok::<int, Error>(pos + encodings(rs).len()),
    decreases rs.len(),
{
    let tail = encode_record_spec(last)->Ok_0.subrange(0, cut);
    if rs.len() == 0 {
        assert(s.skip(pos) =~= tail);
        lemma_record_prefix(last, cut);
        reveal(read_at);
    } else {
        let b = encode_record_spec(rs[0])->Ok_0;
        let rest = rs.drop_first();
        assert(encode_record_spec(rs[0]) is Ok);
        assert forall|i: int| 0 <= i < rest.len() implies (#[trigger] encode_record_spec(
            rest[i],
        )) is Ok by {
            assert(rest[i] == rs[i + 1]);
        }
        assert(s.skip(pos) =~= b + (encodings(rest) + tail));
        assert(read_at(s, pos) == Ok::<(ReadView, int), Error>(
            (ReadView::Record(rs[0]), b.len() as int),
        )) by {
            reveal(read_at);
            lemma_record_round_trip(rs[0], encodings(rest) + tail);
        }
        let t = s.skip(pos);
        let x = encodings(rest) + tail;
        assert(t.len() == b.len() + x.len());
        assert(s.skip(pos + b.len()) =~= t.skip(b.len() as int));
        assert(t.skip(b.len() as int) =~= x);
        lemma_log_from(s, pos + b.len(), rest, last, cut);
        assert(seq![rs[0]] + rest =~= rs);
    }
}

/// A log file written as the header, the encodings of records, and a final
/// record cut short by a crash (or nothing of it) replays exactly those
/// records, and its valid part ends where the cut-short record starts.
pub proof fn law_replay_recovers_written_records(
    rs: Seq<RecordView>,
    last: RecordView,
    cut: int,
)
    requires
        all_encodable(rs),
        encode_record_spec(last) is Ok,
        0 <= cut < encode_record_spec(last)->Ok_0.len(),
    ensures
        ({
            let s = header_spec() + encodings(rs) + encode_record_spec(last)->Ok_0.subrange(0, cut);
            &&& replay_records(s) == rs
            &&& replay_result(s) == Ok::<int, Error>(header_spec().len() + encodings(rs).len() as int)
        }),
{
    let tail = encode_record_spec(last)->Ok_0.subrange(0, cut);
    let s = header_spec() + encodings(rs) + tail;
    lemma_header_round_trip(encodings(rs) + tail);
    assert(s =~= header_spec() + (encodings(rs) + tail));
    vstd::bytes::lemma_auto_spec_u16_to_from_le_bytes();
    assert(header_spec().len() == FILE_HEADER_BYTES);
    assert(s.skip(FILE_HEADER_BYTES as int) =~= encodings(rs) + tail);
    lemma_log_from(s, FILE_HEADER_BYTES as int, rs, last, cut);
}

/// A store reopened on its log sees the last operation on each key: where
/// the log was written as the header and the records of successful puts and
/// deletes, perhaps with a final record cut short by a crash, the memtable
/// that recovery builds holds under each key the value of the last put on
/// it, and nothing where the last operation on it was a delete or where no
/// operation touched it.
pub proof fn law_reopen_sees_last_operation(
    ops: Seq<RecordView>,
    last: RecordView,
    cut: int,
    k: Seq<u8>,
)
    requires
        all_encodable(ops),
        encode_record_spec(last) is Ok,
        0 <= cut < encode_record_spec(last)->Ok_0.len(),
    ensures
        ({
            let s = header_spec() + encodings(ops) + encode_record_spec(last)->Ok_0.subrange(0, cut);
            let m = apply_records(Map::<Seq<u8>, Seq<u8>>::empty(), replay_records(s));
            &&& s.len() > 0
            &&& match last_write(ops, k) {
                Some(Some(v)) => m.contains_key(k) && m[k] == v,
                _ => !m.contains_key(k),
            }
        }),
{
    law_replay_recovers_written_records(ops, last, cut);
    law_last_operation_wins(Map::<Seq<u8>, Seq<u8>>::empty(), ops, k);
    vstd::bytes::lemma_auto_spec_u16_to_from_le_bytes();
}

} // verus!
