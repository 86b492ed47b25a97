//! The write-ahead log format, version 1: a header, then length-delimited,
//! checksummed records, all little-endian.
//!
//! ```text
//! [u8; 8] magic = "BLOOMWAL"
//! u16     version = 1
//! then per record:
//! u32 payload_len
//! u8  kind        // 1 = put, 2 = delete tombstone
//! u32 key_len
//! u32 value_len
//! [u8; key_len]   key
//! [u8; value_len] value
//! u32 crc32       // over payload_len and the payload bytes
//! ```
use vstd::bytes::{
    lemma_auto_spec_u16_to_from_le_bytes, lemma_auto_spec_u32_to_from_le_bytes,
    spec_u16_from_le_bytes, spec_u16_to_le_bytes, spec_u32_from_le_bytes, spec_u32_to_le_bytes,
    u16_from_le_bytes, u16_to_le_bytes, u32_from_le_bytes, u32_to_le_bytes,
};
use vstd::prelude::*;

use crate::error::Error;
use crate::types::{Key, Value};


verus! {

/// The magic bytes that open a WAL file: "BLOOMWAL".
pub const FILE_MAGIC: [u8; 8] = [0x42, 0x4c, 0x4f, 0x4f, 0x4d, 0x57, 0x41, 0x4c];

/// The format version this library writes and reads.
pub const FORMAT_VERSION: u16 = 1;

/// The length of the file header: the magic and the version.
pub const FILE_HEADER_BYTES: usize = 10;

/// The length of a record's length prefix.
pub const RECORD_HEADER_BYTES: usize = 4;

/// The length of a record's checksum.
pub const RECORD_CHECKSUM_BYTES: usize = 4;

/// The largest payload a record may announce: 64 MiB.
pub const MAX_RECORD_PAYLOAD_BYTES: u32 = 67108864;

/// The kind byte of a put record.
pub const PUT_KIND: u8 = 1;

/// The kind byte of a delete record.
pub const DELETE_KIND: u8 = 2;

/// The length of a payload's fixed fields: kind, key length, value length.
pub const RECORD_METADATA_BYTES: usize = 9;

/// A mutation recorded in the log.
#[derive(Debug, Clone, PartialEq, Eq)]
pub enum WalRecord {
    Put { key: Key, value: Value },
    Delete { key: Key },
}

/// What reading one record from the log found.
#[derive(Debug, Clone, PartialEq, Eq)]
pub enum ReadRecord {
    /// A complete, checksummed record.
    Record(WalRecord),
    /// The end of the log, between records.
    CleanEof,
    /// A record cut short by the end of the log.
    PartialTail,
}

/// A log record by its bytes.
pub enum RecordView {
    Put(Seq<u8>, Seq<u8>),
    Delete(Seq<u8>),
}

/// The outcome of reading one record, by its bytes.
pub enum ReadView {
    Record(RecordView),
    CleanEof,
    PartialTail,
}

impl View for WalRecord {
    type V = RecordView;

    open spec fn view(&self) -> RecordView {
        match self {
            WalRecord::Put { key, value } => RecordView::Put(key@, value@),
            WalRecord::Delete { key } => RecordView::Delete(key@),
        }
    }
}

impl View for ReadRecord {
    type V = ReadView;

    open spec fn view(&self) -> ReadView {
        match self {
            ReadRecord::Record(r) => ReadView::Record(r@),
            ReadRecord::CleanEof => ReadView::CleanEof,
            ReadRecord::PartialTail => ReadView::PartialTail,
        }
    }
}

impl RecordView {
    /// The kind byte of the record.
    pub open spec fn kind(self) -> u8 {
        match self {
            RecordView::Put(_, _) => PUT_KIND,
            RecordView::Delete(_) => DELETE_KIND,
        }
    }

    /// The key of the record.
    pub open spec fn key(self) -> Seq<u8> {
        match self {
            RecordView::Put(k, _) => k,
            RecordView::Delete(k) => k,
        }
    }

    /// The value of the record; a delete has none.
    pub open spec fn value(self) -> Seq<u8> {
        match self {
            RecordView::Put(_, v) => v,
            RecordView::Delete(_) => Seq::empty(),
        }
    }
}

/// The magic bytes.
pub open spec fn magic_spec() -> Seq<u8> {
    seq![0x42u8, 0x4cu8, 0x4fu8, 0x4fu8, 0x4du8, 0x57u8, 0x41u8, 0x4cu8]
}

/// The bytes of the file header.
pub open spec fn header_spec() -> Seq<u8> {
    magic_spec() + spec_u16_to_le_bytes(FORMAT_VERSION)
}

/// What checking the file header at the start of `s` gives.
pub open spec fn read_header_spec(s: Seq<u8>) -> Result<(), Error> {
    if s.len() < FILE_HEADER_BYTES {
        Err(Error::TruncatedHeader)
    } else if s.subrange(0, 8) != magic_spec() {
        Err(Error::InvalidMagic)
    } else if spec_u16_from_le_bytes(s.subrange(8, 10)) != FORMAT_VERSION {
        Err(Error::UnsupportedVersion { version: spec_u16_from_le_bytes(s.subrange(8, 10)) })
    } else {
        Ok(())
    }
}

/// One step of the bitwise CRC-32: shift out the low bit, folding in the
/// reflected polynomial 0xEDB88320 when it was set.
pub open spec fn crc32_bit_step(c: u32) -> u32 {
    if c & 1 == 1 {
        (c >> 1) ^ 0xedb8_8320u32
    } else {
        c >> 1
    }
}

/// `n` bit steps of the CRC-32.
pub open spec fn crc32_bit_steps(c: u32, n: nat) -> u32
    decreases n,
{
    if n == 0 {
        c
    } else {
        crc32_bit_steps(crc32_bit_step(c), (n - 1) as nat)
    }
}

/// The CRC-32 register after feeding the bytes `s` to register `c`.
pub open spec fn crc32_update(c: u32, s: Seq<u8>) -> u32
    decreases s.len(),
{
    if s.len() == 0 {
        c
    } else {
        crc32_bit_steps(crc32_update(c, s.drop_last()) ^ (s.last() as u32), 8)
    }
}

/// The CRC-32 (IEEE 802.3, reflected) checksum of `s`.
pub open spec fn crc32_spec(s: Seq<u8>) -> u32 {
    !crc32_update(0xffff_ffffu32, s)
}

/// The payload of a record: kind, key length, value length, key, value.
pub open spec fn payload_spec(r: RecordView) -> Seq<u8> {
    seq![r.kind()] + spec_u32_to_le_bytes(r.key().len() as u32) + spec_u32_to_le_bytes(
        r.value().len() as u32,
    ) + r.key() + r.value()
}

/// A payload framed as a record: its length, the payload, and the checksum
/// of both.
pub open spec fn frame_spec(payload: Seq<u8>) -> Seq<u8> {
    let prefix = spec_u32_to_le_bytes(payload.len() as u32) + payload;
    prefix + spec_u32_to_le_bytes(crc32_spec(prefix))
}

/// What encoding the payload of a record gives.
pub open spec fn encode_payload_spec(r: RecordView) -> Result<Seq<u8>, Error> {
    if r.key().len() == 0 {
        Err(Error::EmptyKey)
    } else if r.key().len() > u32::MAX {
        Err(Error::KeyTooLarge)
    } else if r.value().len() > u32::MAX {
        Err(Error::ValueTooLarge)
    } else {
        Ok(payload_spec(r))
    }
}

/// What encoding a record gives.
pub open spec fn encode_record_spec(r: RecordView) -> Result<Seq<u8>, Error> {
    match encode_payload_spec(r) {
        Err(e) => Err(e),
        Ok(p) => if p.len() > MAX_RECORD_PAYLOAD_BYTES {
            Err(Error::PayloadTooLarge)
        } else {
            Ok(frame_spec(p))
        },
    }
}

/// What decoding a payload gives.
pub open spec fn decode_payload_spec(p: Seq<u8>) -> Result<RecordView, Error> {
    if p.len() < RECORD_METADATA_BYTES {
        Err(Error::PayloadTooShort)
    } else {
        let kind = p[0];
        let key_len = spec_u32_from_le_bytes(p.subrange(1, 5)) as int;
        let value_len = spec_u32_from_le_bytes(p.subrange(5, 9)) as int;
        if key_len == 0 {
            Err(Error::EmptyKey)
        } else if RECORD_METADATA_BYTES + key_len + value_len > usize::MAX {
            Err(Error::PayloadLengthOverflow)
        } else if p.len() != RECORD_METADATA_BYTES + key_len + value_len {
            Err(Error::PayloadLengthMismatch)
        } else {
            let key = p.subrange(9, 9 + key_len);
            let value = p.subrange(9 + key_len, p.len() as int);
            if kind == PUT_KIND {
                Ok(RecordView::Put(key, value))
            } else if kind == DELETE_KIND {
                if value_len != 0 {
                    Err(Error::DeleteWithValue)
                } else {
                    Ok(RecordView::Delete(key))
                }
            } else {
                Err(Error::UnknownKind { kind })
            }
        }
    }
}

/// What reading one record from the start of `s` gives, with the number of
/// bytes the record takes.
pub open spec fn read_record_spec(s: Seq<u8>) -> Result<(ReadView, int), Error> {
    if s.len() == 0 {
        Ok((ReadView::CleanEof, 0))
    } else if s.len() < RECORD_HEADER_BYTES {
        Ok((ReadView::PartialTail, 0))
    } else {
        let n = spec_u32_from_le_bytes(s.subrange(0, 4));
        if n > MAX_RECORD_PAYLOAD_BYTES {
            Err(Error::PayloadLengthExceedsMax { payload_len: n })
        } else if s.len() < 8 + n {
            Ok((ReadView::PartialTail, 0))
        } else if crc32_spec(s.subrange(0, 4 + n)) != spec_u32_from_le_bytes(
            s.subrange(4 + n, 8 + n),
        ) {
            Err(Error::ChecksumMismatch)
        } else {
            match decode_payload_spec(s.subrange(4, 4 + n)) {
                Ok(r) => Ok((ReadView::Record(r), 8 + n)),
                Err(e) => Err(e),
            }
        }
    }
}

/// Appends the file header to `out`.
pub fn write_header(out: &mut Vec<u8>)
    ensures
        final(out)@ == old(out)@ + header_spec(),
{
    let mut i: usize = 0;
    let ghost start = out@;
    while i < 8
        invariant
            i <= 8,
            out@ == start + magic_spec().subrange(0, i as int),
        decreases 8 - i,
    {
        out.push(FILE_MAGIC[i]);
        proof {
            assert(magic_spec().subrange(0, i + 1) =~= magic_spec().subrange(0, i as int).push(
                magic_spec()[i as int],
            ));
        }
        i = i + 1;
    }
    let version = u16_to_le_bytes(FORMAT_VERSION);
    out.extend_from_slice(version.as_slice());
    proof {
        assert(magic_spec().subrange(0, 8) =~= magic_spec());
        assert(out@ =~= start + header_spec());
    }
}

/// Checks the file header at the start of `input`.
pub fn read_header(input: &[u8]) -> (r: Result<(), Error>)
    ensures
        r == read_header_spec(input@),
{
    if input.len() < FILE_HEADER_BYTES {
        return Err(Error::TruncatedHeader);
    }
    let mut i: usize = 0;
    while i < 8
        invariant
            i <= 8,
            input@.len() >= FILE_HEADER_BYTES,
            forall|j: int| 0 <= j < i ==> input@[j] == magic_spec()[j],
        decreases 8 - i,
    {
        if input[i] != FILE_MAGIC[i] {
            proof {
                assert(input@.subrange(0, 8)[i as int] != magic_spec()[i as int]);
            }
            return Err(Error::InvalidMagic);
        }
        i = i + 1;
    }
    proof {
        assert(input@.subrange(0, 8) =~= magic_spec());
    }
    let version = u16_from_le_bytes(&input[8..10]);
    if version != FORMAT_VERSION {
        return Err(Error::UnsupportedVersion { version });
    }
    Ok(())
}

/// The CRC-32 (IEEE 802.3) checksum of `bytes`.
pub fn crc32(bytes: &[u8]) -> (r: u32)
    ensures
        r == crc32_spec(bytes@),
{
    let mut crc: u32 = 0xffff_ffff;
    let mut i: usize = 0;
    while i < bytes.len()
        invariant
            i <= bytes.len(),
            crc == crc32_update(0xffff_ffffu32, bytes@.subrange(0, i as int)),
        decreases bytes.len() - i,
    {
        let ghost before = crc;
        crc = crc ^ (bytes[i] as u32);
        let ghost mixed = crc;
        let mut bit: usize = 0;
        while bit < 8
            invariant
                bit <= 8,
                crc32_bit_steps(mixed, 8) == crc32_bit_steps(crc, (8 - bit) as nat),
            decreases 8 - bit,
        {
            let mask = 0u32.wrapping_sub(crc & 1);
            let next = (crc >> 1) ^ (0xedb8_8320u32 & mask);
            proof {
                let c = crc;
                assert(c & 1 == 1 ==> 0u32.wrapping_sub(c & 1) == 0xffff_ffffu32) by (bit_vector);
                assert(c & 1 != 1 ==> 0u32.wrapping_sub(c & 1) == 0u32) by (bit_vector);
                assert(0xedb8_8320u32 & 0xffff_ffffu32 == 0xedb8_8320u32) by (bit_vector);
                assert(0xedb8_8320u32 & 0u32 == 0u32) by (bit_vector);
                assert((c >> 1) ^ 0u32 == c >> 1) by (bit_vector);
                assert(next == crc32_bit_step(c));
            }
            crc = next;
            bit = bit + 1;
        }
        proof {
            let s = bytes@.subrange(0, i + 1);
            assert(s.drop_last() =~= bytes@.subrange(0, i as int));
            assert(s.last() == bytes@[i as int]);
        }
        i = i + 1;
    }
    proof {
        assert(bytes@.subrange(0, bytes@.len() as int) =~= bytes@);
    }
    !crc
}

/// Encodes the payload of `record`.
fn encode_payload(record: &WalRecord) -> (r: Result<Vec<u8>, Error>)
    ensures
        match r {
            Ok(b) => encode_payload_spec(record@) == Ok::<Seq<u8>, Error>(b@),
            Err(e) => encode_payload_spec(record@) == Err::<Seq<u8>, Error>(e),
        },
{
    let empty: Vec<u8> = Vec::new();
    let (kind, key, value): (u8, &[u8], &[u8]) = match record {
        WalRecord::Put { key, value } => (PUT_KIND, key.as_slice(), value.as_slice()),
        WalRecord::Delete { key } => (DELETE_KIND, key.as_slice(), empty.as_slice()),
    };
    proof {
        assert(kind == record@.kind());
        assert(key@ == record@.key());
        assert(value@ =~= record@.value());
    }
    if key.len() == 0 {
        return Err(Error::EmptyKey);
    }
    if key.len() > u32::MAX as usize {
        return Err(Error::KeyTooLarge);
    }
    if value.len() > u32::MAX as usize {
        return Err(Error::ValueTooLarge);
    }
    let key_len = key.len() as u32;
    let value_len = value.len() as u32;
    let mut payload: Vec<u8> = Vec::new();
    payload.push(kind);
    payload.extend_from_slice(u32_to_le_bytes(key_len).as_slice());
    payload.extend_from_slice(u32_to_le_bytes(value_len).as_slice());
    payload.extend_from_slice(key);
    payload.extend_from_slice(value);
    proof {
        assert(payload@ =~= payload_spec(record@));
    }
    Ok(payload)
}

/// Encodes `record` as the bytes of a log record.
pub fn encode_record(record: &WalRecord) -> (r: Result<Vec<u8>, Error>)
    ensures
        match r {
            Ok(b) => encode_record_spec(record@) == Ok::<Seq<u8>, Error>(b@),
            Err(e) => encode_record_spec(record@) == Err::<Seq<u8>, Error>(e),
        },
{
    let payload = encode_payload(record)?;
    if payload.len() > MAX_RECORD_PAYLOAD_BYTES as usize {
        return Err(Error::PayloadTooLarge);
    }
    let payload_len = payload.len() as u32;
    let mut encoded: Vec<u8> = Vec::new();
    encoded.extend_from_slice(u32_to_le_bytes(payload_len).as_slice());
    encoded.extend_from_slice(payload.as_slice());
    let ghost prefix = encoded@;
    proof {
        assert(prefix =~= spec_u32_to_le_bytes(payload@.len() as u32) + payload@);
    }
    let checksum = crc32(encoded.as_slice());
    encoded.extend_from_slice(u32_to_le_bytes(checksum).as_slice());
    proof {
        assert(encoded@ =~= frame_spec(payload@));
    }
    Ok(encoded)
}

/// Appends the encoding of `record` to `out`; returns its length.
pub fn write_record(out: &mut Vec<u8>, record: &WalRecord) -> (r: Result<usize, Error>)
    ensures
        match encode_record_spec(record@) {
            Ok(b) => r == Ok::<usize, Error>(b.len() as usize) && final(out)@ == old(out)@ + b,
            Err(e) => r == Err::<usize, Error>(e) && final(out)@ == old(out)@,
        },
{
    let encoded = encode_record(record)?;
    out.extend_from_slice(encoded.as_slice());
    proof {
        assert(final(out)@ =~= old(out)@ + encoded@);
    }
    Ok(encoded.len())
}

/// Rejects a payload length above the maximum.
fn validate_payload_len(payload_len: u32) -> (r: Result<(), Error>)
    ensures
        r == if payload_len > MAX_RECORD_PAYLOAD_BYTES {
            Err::<(), Error>(Error::PayloadLengthExceedsMax { payload_len })
        } else {
            Ok(())
        },
{
    if payload_len > MAX_RECORD_PAYLOAD_BYTES {
        return Err(Error::PayloadLengthExceedsMax { payload_len });
    }
    Ok(())
}

/// Decodes a record from its payload.
fn decode_payload(payload: &[u8]) -> (r: Result<WalRecord, Error>)
    ensures
        match r {
            Ok(rec) => decode_payload_spec(payload@) == Ok::<RecordView, Error>(rec@),
            Err(e) => decode_payload_spec(payload@) == Err::<RecordView, Error>(e),
        },
{
    if payload.len() < RECORD_METADATA_BYTES {
        return Err(Error::PayloadTooShort);
    }
    let kind = payload[0];
    let key_len = u32_from_le_bytes(&payload[1..5]) as usize;
    let value_len = u32_from_le_bytes(&payload[5..9]) as usize;
    if key_len == 0 {
        return Err(Error::EmptyKey);
    }
    let expected_len = match RECORD_METADATA_BYTES.checked_add(key_len) {
        None => {
            return Err(Error::PayloadLengthOverflow);
        },
        Some(len) => match len.checked_add(value_len) {
            None => {
                return Err(Error::PayloadLengthOverflow);
            },
            Some(len) => len,
        },
    };
    if payload.len() != expected_len {
        return Err(Error::PayloadLengthMismatch);
    }
    let key_start = RECORD_METADATA_BYTES;
    let value_start = key_start + key_len;
    let key = vstd::slice::slice_to_vec(&payload[key_start..value_start]);
    let value = vstd::slice::slice_to_vec(&payload[value_start..payload.len()]);
    if kind == PUT_KIND {
        Ok(WalRecord::Put { key, value })
    } else if kind == DELETE_KIND {
        if value_len != 0 {
            return Err(Error::DeleteWithValue);
        }
        Ok(WalRecord::Delete { key })
    } else {
        Err(Error::UnknownKind { kind })
    }
}

/// Reads the record that starts at `pos` in `input`; returns what was found
/// and the position after it (`pos` itself at the end of the log or before
/// a cut-short record).
pub fn read_record_at(input: &[u8], pos: usize) -> (r: Result<(ReadRecord, usize), Error>)
    requires
        pos <= input@.len(),
    ensures
        match read_record_spec(input@.skip(pos as int)) {
            Ok((v, n)) => r matches Ok((rec, next)) && rec@ == v && next == pos + n,
            Err(e) => r == Err::<(ReadRecord, usize), Error>(e),
        },
{
    let ghost s = input@.skip(pos as int);
    let remaining = input.len() - pos;
    if remaining == 0 {
        return Ok((ReadRecord::CleanEof, pos));
    }
    if remaining < RECORD_HEADER_BYTES {
        return Ok((ReadRecord::PartialTail, pos));
    }
    let payload_len = u32_from_le_bytes(&input[pos..pos + 4]);
    proof {
        assert(input@.subrange(pos as int, pos + 4) =~= s.subrange(0, 4));
    }
    validate_payload_len(payload_len)?;
    let n = payload_len as usize;
    if remaining - 4 < n || remaining - 4 - n < RECORD_CHECKSUM_BYTES {
        return Ok((ReadRecord::PartialTail, pos));
    }
    let expected = u32_from_le_bytes(&input[pos + 4 + n..pos + 8 + n]);
    let actual = crc32(&input[pos..pos + 4 + n]);
    proof {
        assert(input@.subrange(pos + 4 + n, pos + 8 + n) =~= s.subrange(4 + n, 8 + n));
        assert(input@.subrange(pos as int, pos + 4 + n) =~= s.subrange(0, 4 + n));
    }
    if actual != expected {
        return Err(Error::ChecksumMismatch);
    }
    let record = decode_payload(&input[pos + 4..pos + 4 + n]);
    proof {
        assert(input@.subrange(pos + 4, pos + 4 + n) =~= s.subrange(4, 4 + n));
    }
    let record = record?;
    Ok((ReadRecord::Record(record), pos + 8 + n))
}

/// Reads the record at the start of `input`.
pub fn read_record(input: &[u8]) -> (r: Result<ReadRecord, Error>)
    ensures
        match read_record_spec(input@) {
            Ok((v, n)) => r matches Ok(rec) && rec@ == v,
            Err(e) => r == Err::<ReadRecord, Error>(e),
        },
{
    proof {
        assert(input@.skip(0) =~= input@);
    }
    match read_record_at(input, 0) {
        Ok((rec, _)) => Ok(rec),
        Err(e) => Err(e),
    }
}

/// The header written by `write_header` is accepted by `read_header`,
/// whatever follows it.
pub proof fn lemma_header_round_trip(rest: Seq<u8>)
    ensures
        read_header_spec(header_spec() + rest) == Ok::<(), Error>(()),
{
    lemma_auto_spec_u16_to_from_le_bytes();
    let s = header_spec() + rest;
    assert(s.subrange(0, 8) =~= magic_spec());
    assert(s.subrange(8, 10) =~= spec_u16_to_le_bytes(FORMAT_VERSION));
}

/// A payload decodes to a record only if it is that record's payload, and
/// then the record can be encoded.
pub proof fn lemma_decoded_payload_is_payload(p: Seq<u8>)
    ensures
        decode_payload_spec(p) matches Ok(r) ==> p == payload_spec(r) && encode_payload_spec(r)
            == Ok::<Seq<u8>, Error>(p),
{
    lemma_auto_spec_u32_to_from_le_bytes();
    if let Ok(r) = decode_payload_spec(p) {
        let kl = spec_u32_from_le_bytes(p.subrange(1, 5));
        let vl = spec_u32_from_le_bytes(p.subrange(5, 9));
        assert(spec_u32_to_le_bytes(kl) == p.subrange(1, 5));
        assert(spec_u32_to_le_bytes(vl) == p.subrange(5, 9));
        assert(r.key().len() == kl);
        assert(r.value().len() == vl);
        assert(p =~= payload_spec(r));
    }
}

/// Decoding the payload of an encodable record gives the record back.
pub proof fn lemma_payload_round_trip(r: RecordView)
    requires
        encode_payload_spec(r) is Ok,
        payload_spec(r).len() <= MAX_RECORD_PAYLOAD_BYTES,
    ensures
        decode_payload_spec(payload_spec(r)) == Ok::<RecordView, Error>(r),
{
    lemma_auto_spec_u32_to_from_le_bytes();
    let p = payload_spec(r);
    let kl = r.key().len() as int;
    let vl = r.value().len() as int;
    assert(p.subrange(1, 5) =~= spec_u32_to_le_bytes(kl as u32));
    assert(p.subrange(5, 9) =~= spec_u32_to_le_bytes(vl as u32));
    assert(p.subrange(9, 9 + kl) =~= r.key());
    assert(p.subrange(9 + kl, p.len() as int) =~= r.value());
    match r {
        RecordView::Put(k, v) => {},
        RecordView::Delete(k) => {},
    }
}

/// Reading the encoding of a record, whatever follows it, gives the record
/// back and the length of its encoding.
pub proof fn lemma_record_round_trip(r: RecordView, rest: Seq<u8>)
    requires
        encode_record_spec(r) is Ok,
    ensures
        read_record_spec(encode_record_spec(r)->Ok_0 + rest) == Ok::<(ReadView, int), Error>(
            (ReadView::Record(r), encode_record_spec(r)->Ok_0.len() as int),
        ),
{
    lemma_auto_spec_u32_to_from_le_bytes();
    let p = payload_spec(r);
    let b = frame_spec(p);
    let s = b + rest;
    let n = p.len() as int;
    let prefix = spec_u32_to_le_bytes(n as u32) + p;
    assert(s.subrange(0, 4) =~= spec_u32_to_le_bytes(n as u32));
    assert(s.subrange(0, 4 + n) =~= prefix);
    assert(s.subrange(4 + n, 8 + n) =~= spec_u32_to_le_bytes(crc32_spec(prefix)));
    assert(s.subrange(4, 4 + n) =~= p);
    lemma_payload_round_trip(r);
}

/// A log that ends inside the encoding of a record reads as a cut-short
/// record, or as the clean end of the log when nothing of it is there.
pub proof fn lemma_record_prefix(r: RecordView, k: int)
    requires
        encode_record_spec(r) is Ok,
        0 <= k < encode_record_spec(r)->Ok_0.len(),
    ensures
        read_record_spec(encode_record_spec(r)->Ok_0.subrange(0, k)) == if k == 0 {
            Ok::<(ReadView, int), Error>((ReadView::CleanEof, 0))
        } else {
            Ok::<(ReadView, int), Error>((ReadView::PartialTail, 0))
        },
{
    lemma_auto_spec_u32_to_from_le_bytes();
    let p = payload_spec(r);
    let b = frame_spec(p);
    let s = b.subrange(0, k);
    if k >= 4 {
        assert(s.subrange(0, 4) =~= spec_u32_to_le_bytes(p.len() as u32));
    }
}

/// A record is read from the start of `s` only where `s` starts with that
/// record's encoding, which it takes up exactly.
pub proof fn lemma_read_record_is_encoding(s: Seq<u8>)
    ensures
        read_record_spec(s) matches Ok((ReadView::Record(r), n)) ==> encode_record_spec(r) is Ok
            && 0 < n <= s.len() && s.subrange(0, n) == encode_record_spec(r)->Ok_0,
{
    lemma_auto_spec_u32_to_from_le_bytes();
    if let Ok((ReadView::Record(r), n)) = read_record_spec(s) {
        let len = spec_u32_from_le_bytes(s.subrange(0, 4));
        let p = s.subrange(4, 4 + len);
        lemma_decoded_payload_is_payload(p);
        assert(p.len() == len);
        assert(spec_u32_to_le_bytes(len) == s.subrange(0, 4));
        let crc = spec_u32_from_le_bytes(s.subrange(4 + len, 8 + len));
        assert(spec_u32_to_le_bytes(crc) == s.subrange(4 + len, 8 + len));
        assert(s.subrange(0, 4 + len) =~= spec_u32_to_le_bytes(p.len() as u32) + p);
        assert(s.subrange(0, n) =~= frame_spec(p));
    }
}

/// Distinct registers stay distinct through a bit step of the CRC-32.
proof fn lemma_crc32_bit_step_injective(x: u32, y: u32)
    requires
        x != y,
    ensures
        crc32_bit_step(x) != crc32_bit_step(y),
{
    assert(x != y ==> (if x & 1 == 1 {
        (x >> 1) ^ 0xedb8_8320u32
    } else {
        x >> 1
    }) != (if y & 1 == 1 {
        (y >> 1) ^ 0xedb8_8320u32
    } else {
        y >> 1
    })) by (bit_vector);
}

/// Distinct registers stay distinct through any number of bit steps.
proof fn lemma_crc32_bit_steps_injective(x: u32, y: u32, n: nat)
    requires
        x != y,
    ensures
        crc32_bit_steps(x, n) != crc32_bit_steps(y, n),
    decreases n,
{
    if n > 0 {
        lemma_crc32_bit_step_injective(x, y);
        lemma_crc32_bit_steps_injective(crc32_bit_step(x), crc32_bit_step(y), (n - 1) as nat);
    }
}

/// Feeding the same bytes to distinct registers leaves distinct registers.
proof fn lemma_crc32_update_injective(c1: u32, c2: u32, s: Seq<u8>)
    requires
        c1 != c2,
    ensures
        crc32_update(c1, s) != crc32_update(c2, s),
    decreases s.len(),
{
    if s.len() > 0 {
        lemma_crc32_update_injective(c1, c2, s.drop_last());
        let a = crc32_update(c1, s.drop_last());
        let b = crc32_update(c2, s.drop_last());
        let x = s.last() as u32;
        assert(a != b ==> a ^ x != b ^ x) by (bit_vector);
        lemma_crc32_bit_steps_injective(a ^ x, b ^ x, 8);
    }
}

/// Feeding `s` and then `t` is feeding `s + t`.
proof fn lemma_crc32_update_concat(c: u32, s: Seq<u8>, t: Seq<u8>)
    ensures
        crc32_update(c, s + t) == crc32_update(crc32_update(c, s), t),
    decreases t.len(),
{
    if t.len() == 0 {
        assert(s + t =~= s);
    } else {
        assert((s + t).drop_last() =~= s + t.drop_last());
        assert((s + t).last() == t.last());
        lemma_crc32_update_concat(c, s, t.drop_last());
    }
}

/// The CRC-32 catches every change of a single byte: two byte strings of
/// the same length that differ in exactly one position, whatever the two
/// bytes there are (high bits included), have different checksums.
pub proof fn law_crc32_detects_one_byte_change(s1: Seq<u8>, s2: Seq<u8>, i: int)
    requires
        s1.len() == s2.len(),
        0 <= i < s1.len(),
        s1[i] != s2[i],
        forall|j: int| 0 <= j < s1.len() && j != i ==> s1[j] == s2[j],
    ensures
        crc32_spec(s1) != crc32_spec(s2),
{
    let init = 0xffff_ffffu32;
    let p = s1.subrange(0, i);
    let q = s1.subrange(i + 1, s1.len() as int);
    let a = s1[i];
    let b = s2[i];
    assert(s1 =~= p.push(a) + q);
    assert(s2 =~= p.push(b) + q);
    assert(p.push(a).drop_last() =~= p);
    assert(p.push(b).drop_last() =~= p);
    let u = crc32_update(init, p);
    let xa = a as u32;
    let xb = b as u32;
    assert(xa != xb);
    assert(xa != xb ==> u ^ xa != u ^ xb) by (bit_vector);
    lemma_crc32_bit_steps_injective(u ^ xa, u ^ xb, 8);
    lemma_crc32_update_injective(crc32_update(init, p.push(a)), crc32_update(init, p.push(b)), q);
    lemma_crc32_update_concat(init, p.push(a), q);
    lemma_crc32_update_concat(init, p.push(b), q);
    let r1 = crc32_update(init, s1);
    let r2 = crc32_update(init, s2);
    assert(r1 != r2 ==> !r1 != !r2) by (bit_vector);
}

/// The CRC-32 register that starts with every bit set, after 8 and after
/// 32 bit steps with no data.
proof fn lemma_crc32_steps_of_ones()
    ensures
        crc32_bit_steps(0xffff_ffffu32, 8) == 0x2dfd_1072u32,
        crc32_bit_steps(0xffff_ffffu32, 32) == 0xdebb_20e3u32,
{
    assert({
        &&& 0xffffffffu32 & 1 == 1 && (0xffffffffu32 >> 1) ^ 0xedb8_8320u32 == 0x92477cdfu32
        &&& 0x92477cdfu32 & 1 == 1 && (0x92477cdfu32 >> 1) ^ 0xedb8_8320u32 == 0xa49b3d4fu32
        &&& 0xa49b3d4fu32 & 1 == 1 && (0xa49b3d4fu32 >> 1) ^ 0xedb8_8320u32 == 0xbff51d87u32
        &&& 0xbff51d87u32 & 1 == 1 && (0xbff51d87u32 >> 1) ^ 0xedb8_8320u32 == 0xb2420de3u32
        &&& 0xb2420de3u32 & 1 == 1 && (0xb2420de3u32 >> 1) ^ 0xedb8_8320u32 == 0xb49985d1u32
        &&& 0xb49985d1u32 & 1 == 1 && (0xb49985d1u32 >> 1) ^ 0xedb8_8320u32 == 0xb7f441c8u32
        &&& 0xb7f441c8u32 & 1 == 0 && 0xb7f441c8u32 >> 1 == 0x5bfa20e4u32
        &&& 0x5bfa20e4u32 & 1 == 0 && 0x5bfa20e4u32 >> 1 == 0x2dfd1072u32
        &&& 0x2dfd1072u32 & 1 == 0 && 0x2dfd1072u32 >> 1 == 0x16fe8839u32
        &&& 0x16fe8839u32 & 1 == 1 && (0x16fe8839u32 >> 1) ^ 0xedb8_8320u32 == 0xe6c7c73cu32
        &&& 0xe6c7c73cu32 & 1 == 0 && 0xe6c7c73cu32 >> 1 == 0x7363e39eu32
        &&& 0x7363e39eu32 & 1 == 0 && 0x7363e39eu32 >> 1 == 0x39b1f1cfu32
        &&& 0x39b1f1cfu32 & 1 == 1 && (0x39b1f1cfu32 >> 1) ^ 0xedb8_8320u32 == 0xf1607bc7u32
        &&& 0xf1607bc7u32 & 1 == 1 && (0xf1607bc7u32 >> 1) ^ 0xedb8_8320u32 == 0x9508bec3u32
        &&& 0x9508bec3u32 & 1 == 1 && (0x9508bec3u32 >> 1) ^ 0xedb8_8320u32 == 0xa73cdc41u32
        &&& 0xa73cdc41u32 & 1 == 1 && (0xa73cdc41u32 >> 1) ^ 0xedb8_8320u32 == 0xbe26ed00u32
        &&& 0xbe26ed00u32 & 1 == 0 && 0xbe26ed00u32 >> 1 == 0x5f137680u32
        &&& 0x5f137680u32 & 1 == 0 && 0x5f137680u32 >> 1 == 0x2f89bb40u32
        &&& 0x2f89bb40u32 & 1 == 0 && 0x2f89bb40u32 >> 1 == 0x17c4dda0u32
        &&& 0x17c4dda0u32 & 1 == 0 && 0x17c4dda0u32 >> 1 == 0x0be26ed0u32
        &&& 0x0be26ed0u32 & 1 == 0 && 0x0be26ed0u32 >> 1 == 0x05f13768u32
        &&& 0x05f13768u32 & 1 == 0 && 0x05f13768u32 >> 1 == 0x02f89bb4u32
        &&& 0x02f89bb4u32 & 1 == 0 && 0x02f89bb4u32 >> 1 == 0x017c4ddau32
        &&& 0x017c4ddau32 & 1 == 0 && 0x017c4ddau32 >> 1 == 0x00be26edu32
        &&& 0x00be26edu32 & 1 == 1 && (0x00be26edu32 >> 1) ^ 0xedb8_8320u32 == 0xede79056u32
        &&& 0xede79056u32 & 1 == 0 && 0xede79056u32 >> 1 == 0x76f3c82bu32
        &&& 0x76f3c82bu32 & 1 == 1 && (0x76f3c82bu32 >> 1) ^ 0xedb8_8320u32 == 0xd6c16735u32
        &&& 0xd6c16735u32 & 1 == 1 && (0xd6c16735u32 >> 1) ^ 0xedb8_8320u32 == 0x86d830bau32
        &&& 0x86d830bau32 & 1 == 0 && 0x86d830bau32 >> 1 == 0x436c185du32
        &&& 0x436c185du32 & 1 == 1 && (0x436c185du32 >> 1) ^ 0xedb8_8320u32 == 0xcc0e8f0eu32
        &&& 0xcc0e8f0eu32 & 1 == 0 && 0xcc0e8f0eu32 >> 1 == 0x66074787u32
        &&& 0x66074787u32 & 1 == 1 && (0x66074787u32 >> 1) ^ 0xedb8_8320u32 == 0xdebb20e3u32
    }) by (bit_vector);
    assert(crc32_bit_step(0xffffffffu32) == 0x92477cdfu32);
    assert(crc32_bit_step(0x92477cdfu32) == 0xa49b3d4fu32);
    assert(crc32_bit_step(0xa49b3d4fu32) == 0xbff51d87u32);
    assert(crc32_bit_step(0xbff51d87u32) == 0xb2420de3u32);
    assert(crc32_bit_step(0xb2420de3u32) == 0xb49985d1u32);
    assert(crc32_bit_step(0xb49985d1u32) == 0xb7f441c8u32);
    assert(crc32_bit_step(0xb7f441c8u32) == 0x5bfa20e4u32);
    assert(crc32_bit_step(0x5bfa20e4u32) == 0x2dfd1072u32);
    assert(crc32_bit_step(0x2dfd1072u32) == 0x16fe8839u32);
    assert(crc32_bit_step(0x16fe8839u32) == 0xe6c7c73cu32);
    assert(crc32_bit_step(0xe6c7c73cu32) == 0x7363e39eu32);
    assert(crc32_bit_step(0x7363e39eu32) == 0x39b1f1cfu32);
    assert(crc32_bit_step(0x39b1f1cfu32) == 0xf1607bc7u32);
    assert(crc32_bit_step(0xf1607bc7u32) == 0x9508bec3u32);
    assert(crc32_bit_step(0x9508bec3u32) == 0xa73cdc41u32);
    assert(crc32_bit_step(0xa73cdc41u32) == 0xbe26ed00u32);
    assert(crc32_bit_step(0xbe26ed00u32) == 0x5f137680u32);
    assert(crc32_bit_step(0x5f137680u32) == 0x2f89bb40u32);
    assert(crc32_bit_step(0x2f89bb40u32) == 0x17c4dda0u32);
    assert(crc32_bit_step(0x17c4dda0u32) == 0x0be26ed0u32);
    assert(crc32_bit_step(0x0be26ed0u32) == 0x05f13768u32);
    assert(crc32_bit_step(0x05f13768u32) == 0x02f89bb4u32);
    assert(crc32_bit_step(0x02f89bb4u32) == 0x017c4ddau32);
    assert(crc32_bit_step(0x017c4ddau32) == 0x00be26edu32);
    assert(crc32_bit_step(0x00be26edu32) == 0xede79056u32);
    assert(crc32_bit_step(0xede79056u32) == 0x76f3c82bu32);
    assert(crc32_bit_step(0x76f3c82bu32) == 0xd6c16735u32);
    assert(crc32_bit_step(0xd6c16735u32) == 0x86d830bau32);
    assert(crc32_bit_step(0x86d830bau32) == 0x436c185du32);
    assert(crc32_bit_step(0x436c185du32) == 0xcc0e8f0eu32);
    assert(crc32_bit_step(0xcc0e8f0eu32) == 0x66074787u32);
    assert(crc32_bit_step(0x66074787u32) == 0xdebb20e3u32);
    assert(crc32_bit_steps(0x2dfd1072u32, 0) == 0x2dfd1072u32);
    assert(crc32_bit_steps(0x5bfa20e4u32, 1) == 0x2dfd1072u32);
    assert(crc32_bit_steps(0xb7f441c8u32, 2) == 0x2dfd1072u32);
    assert(crc32_bit_steps(0xb49985d1u32, 3) == 0x2dfd1072u32);
    assert(crc32_bit_steps(0xb2420de3u32, 4) == 0x2dfd1072u32);
    assert(crc32_bit_steps(0xbff51d87u32, 5) == 0x2dfd1072u32);
    assert(crc32_bit_steps(0xa49b3d4fu32, 6) == 0x2dfd1072u32);
    assert(crc32_bit_steps(0x92477cdfu32, 7) == 0x2dfd1072u32);
    assert(crc32_bit_steps(0xffffffffu32, 8) == 0x2dfd1072u32);
    assert(crc32_bit_steps(0xdebb20e3u32, 0) == 0xdebb20e3u32);
    assert(crc32_bit_steps(0x66074787u32, 1) == 0xdebb20e3u32);
    assert(crc32_bit_steps(0xcc0e8f0eu32, 2) == 0xdebb20e3u32);
    assert(crc32_bit_steps(0x436c185du32, 3) == 0xdebb20e3u32);
    assert(crc32_bit_steps(0x86d830bau32, 4) == 0xdebb20e3u32);
    assert(crc32_bit_steps(0xd6c16735u32, 5) == 0xdebb20e3u32);
    assert(crc32_bit_steps(0x76f3c82bu32, 6) == 0xdebb20e3u32);
    assert(crc32_bit_steps(0xede79056u32, 7) == 0xdebb20e3u32);
    assert(crc32_bit_steps(0x00be26edu32, 8) == 0xdebb20e3u32);
    assert(crc32_bit_steps(0x017c4ddau32, 9) == 0xdebb20e3u32);
    assert(crc32_bit_steps(0x02f89bb4u32, 10) == 0xdebb20e3u32);
    assert(crc32_bit_steps(0x05f13768u32, 11) == 0xdebb20e3u32);
    assert(crc32_bit_steps(0x0be26ed0u32, 12) == 0xdebb20e3u32);
    assert(crc32_bit_steps(0x17c4dda0u32, 13) == 0xdebb20e3u32);
    assert(crc32_bit_steps(0x2f89bb40u32, 14) == 0xdebb20e3u32);
    assert(crc32_bit_steps(0x5f137680u32, 15) == 0xdebb20e3u32);
    assert(crc32_bit_steps(0xbe26ed00u32, 16) == 0xdebb20e3u32);
    assert(crc32_bit_steps(0xa73cdc41u32, 17) == 0xdebb20e3u32);
    assert(crc32_bit_steps(0x9508bec3u32, 18) == 0xdebb20e3u32);
    assert(crc32_bit_steps(0xf1607bc7u32, 19) == 0xdebb20e3u32);
    assert(crc32_bit_steps(0x39b1f1cfu32, 20) == 0xdebb20e3u32);
    assert(crc32_bit_steps(0x7363e39eu32, 21) == 0xdebb20e3u32);
    assert(crc32_bit_steps(0xe6c7c73cu32, 22) == 0xdebb20e3u32);
    assert(crc32_bit_steps(0x16fe8839u32, 23) == 0xdebb20e3u32);
    assert(crc32_bit_steps(0x2dfd1072u32, 24) == 0xdebb20e3u32);
    assert(crc32_bit_steps(0x5bfa20e4u32, 25) == 0xdebb20e3u32);
    assert(crc32_bit_steps(0xb7f441c8u32, 26) == 0xdebb20e3u32);
    assert(crc32_bit_steps(0xb49985d1u32, 27) == 0xdebb20e3u32);
    assert(crc32_bit_steps(0xb2420de3u32, 28) == 0xdebb20e3u32);
    assert(crc32_bit_steps(0xbff51d87u32, 29) == 0xdebb20e3u32);
    assert(crc32_bit_steps(0xa49b3d4fu32, 30) == 0xdebb20e3u32);
    assert(crc32_bit_steps(0x92477cdfu32, 31) == 0xdebb20e3u32);
    assert(crc32_bit_steps(0xffffffffu32, 32) == 0xdebb20e3u32);
}

/// A bit step of the CRC-32 is linear over xor.
proof fn lemma_crc32_bit_step_linear(x: u32, y: u32)
    ensures
        crc32_bit_step(x ^ y) == crc32_bit_step(x) ^ crc32_bit_step(y),
{
    assert((if (x ^ y) & 1 == 1 {
        ((x ^ y) >> 1) ^ 0xedb8_8320u32
    } else {
        (x ^ y) >> 1
    }) == (if x & 1 == 1 {
        (x >> 1) ^ 0xedb8_8320u32
    } else {
        x >> 1
    }) ^ (if y & 1 == 1 {
        (y >> 1) ^ 0xedb8_8320u32
    } else {
        y >> 1
    })) by (bit_vector);
}

/// Any number of bit steps of the CRC-32 is linear over xor.
proof fn lemma_crc32_bit_steps_linear(x: u32, y: u32, n: nat)
    ensures
        crc32_bit_steps(x ^ y, n) == crc32_bit_steps(x, n) ^ crc32_bit_steps(y, n),
    decreases n,
{
    if n > 0 {
        lemma_crc32_bit_step_linear(x, y);
        lemma_crc32_bit_steps_linear(crc32_bit_step(x), crc32_bit_step(y), (n - 1) as nat);
    }
}

/// `m` bit steps and then `n` more are `m + n` bit steps.
proof fn lemma_crc32_bit_steps_add(a: u32, m: nat, n: nat)
    ensures
        crc32_bit_steps(a, m + n) == crc32_bit_steps(crc32_bit_steps(a, m), n),
    decreases m,
{
    if m > 0 {
        lemma_crc32_bit_steps_add(crc32_bit_step(a), (m - 1) as nat, n);
        assert((m - 1) as nat + n == (m + n - 1) as nat);
    }
}

/// Eight bit steps of a register whose low byte is clear only shift it.
proof fn lemma_crc32_steps_low_byte_clear(x: u32)
    requires
        x & 0xff == 0,
    ensures
        crc32_bit_steps(x, 8) == x >> 8,
{
    assert(x & 0xff == 0 ==> {
        &&& x & 1 == 0
        &&& (x >> 1) & 1 == 0
        &&& (x >> 2) & 1 == 0
        &&& (x >> 3) & 1 == 0
        &&& (x >> 4) & 1 == 0
        &&& (x >> 5) & 1 == 0
        &&& (x >> 6) & 1 == 0
        &&& (x >> 7) & 1 == 0
        &&& x >> 1 >> 1 == x >> 2
        &&& x >> 2 >> 1 == x >> 3
        &&& x >> 3 >> 1 == x >> 4
        &&& x >> 4 >> 1 == x >> 5
        &&& x >> 5 >> 1 == x >> 6
        &&& x >> 6 >> 1 == x >> 7
        &&& x >> 7 >> 1 == x >> 8
    }) by (bit_vector);
    assert(crc32_bit_steps(x >> 8, 0) == x >> 8);
    assert(crc32_bit_steps(x >> 7, 1) == x >> 8);
    assert(crc32_bit_steps(x >> 6, 2) == x >> 8);
    assert(crc32_bit_steps(x >> 5, 3) == x >> 8);
    assert(crc32_bit_steps(x >> 4, 4) == x >> 8);
    assert(crc32_bit_steps(x >> 3, 5) == x >> 8);
    assert(crc32_bit_steps(x >> 2, 6) == x >> 8);
    assert(crc32_bit_steps(x >> 1, 7) == x >> 8);
}

/// Feeding the low byte of `w` to the register `c` and then xoring in the
/// rest of `w`, shifted down a byte, is eight bit steps of `c ^ w`.
proof fn lemma_crc32_feed_low_byte(c: u32, w: u32)
    ensures
        crc32_bit_steps(c ^ w, 8) == crc32_bit_steps(c ^ (w & 0xff), 8) ^ (w >> 8),
{
    let high = w & 0xffff_ff00u32;
    assert({
        &&& c ^ w == (c ^ (w & 0xff)) ^ (w & 0xffff_ff00u32)
        &&& (w & 0xffff_ff00u32) & 0xff == 0
        &&& (w & 0xffff_ff00u32) >> 8 == w >> 8
    }) by (bit_vector);
    lemma_crc32_bit_steps_linear(c ^ (w & 0xff), high, 8);
    lemma_crc32_steps_low_byte_clear(high);
}

/// Feeding one more byte is eight bit steps of the register xored with it.
proof fn lemma_crc32_update_push(c: u32, s: Seq<u8>, b: u8)
    ensures
        crc32_update(c, s.push(b)) == crc32_bit_steps(crc32_update(c, s) ^ (b as u32), 8),
{
    assert(s.push(b).drop_last() =~= s);
}

/// The CRC-32 residue: appending to any bytes their own CRC-32, least
/// significant byte first, gives bytes whose CRC-32 is the constant
/// 0x2144DF1C of the standard reflected CRC-32 (polynomial 0xEDB88320,
/// register started and finished by xor with 0xFFFFFFFF).
pub proof fn law_crc32_residue(s: Seq<u8>)
    ensures
        ({
            let c = crc32_spec(s);
            crc32_spec(
                s + seq![
                    (c & 0xff) as u8,
                    ((c >> 8) & 0xff) as u8,
                    ((c >> 16) & 0xff) as u8,
                    ((c >> 24) & 0xff) as u8,
                ],
            ) == 0x2144_df1cu32
        }),
{
    let init = 0xffff_ffffu32;
    let r = crc32_update(init, s);
    let w = !r;
    assert(w == crc32_spec(s));
    let b0 = (w & 0xff) as u8;
    let b1 = ((w >> 8) & 0xff) as u8;
    let b2 = ((w >> 16) & 0xff) as u8;
    let b3 = ((w >> 24) & 0xff) as u8;
    assert({
        &&& w & 0xff < 256
        &&& (w >> 8) & 0xff < 256
        &&& (w >> 16) & 0xff < 256
        &&& (w >> 24) & 0xff < 256
        &&& (w >> 8) >> 8 == w >> 16
        &&& (w >> 16) >> 8 == w >> 24
        &&& (w >> 24) >> 8 == 0
        &&& r ^ !r == 0xffff_ffffu32
        &&& !0xdebb_20e3u32 == 0x2144_df1cu32
    }) by (bit_vector);
    assert(b0 as u32 == w & 0xff);
    assert(b1 as u32 == (w >> 8) & 0xff);
    assert(b2 as u32 == (w >> 16) & 0xff);
    assert(b3 as u32 == (w >> 24) & 0xff);
    let t0 = Seq::<u8>::empty();
    let t = t0.push(b0).push(b1).push(b2).push(b3);
    assert(t =~= seq![b0, b1, b2, b3]);
    lemma_crc32_update_concat(init, s, t);
    assert(crc32_update(r, t0) == r);
    lemma_crc32_update_push(r, t0, b0);
    lemma_crc32_update_push(r, t0.push(b0), b1);
    lemma_crc32_update_push(r, t0.push(b0).push(b1), b2);
    lemma_crc32_update_push(r, t0.push(b0).push(b1).push(b2), b3);
    let r1 = crc32_update(r, t0.push(b0));
    let r2 = crc32_update(r, t0.push(b0).push(b1));
    let r3 = crc32_update(r, t0.push(b0).push(b1).push(b2));
    let r4 = crc32_update(r, t);
    lemma_crc32_feed_low_byte(r, w);
    lemma_crc32_feed_low_byte(r1, w >> 8);
    lemma_crc32_feed_low_byte(r2, w >> 16);
    lemma_crc32_feed_low_byte(r3, w >> 24);
    lemma_crc32_bit_steps_add(r ^ w, 8, 8);
    lemma_crc32_bit_steps_add(r ^ w, 16, 8);
    lemma_crc32_bit_steps_add(r ^ w, 24, 8);
    assert(r1 ^ (w >> 8) == crc32_bit_steps(r ^ w, 8));
    assert(r2 ^ (w >> 16) == crc32_bit_steps(r ^ w, 16)) by {
        let y = crc32_bit_steps(r ^ w, 8);
        assert(r1 ^ (w >> 8) == y);
    }
    assert(r3 ^ (w >> 24) == crc32_bit_steps(r ^ w, 24));
    assert(r4 == r4 ^ 0u32) by (bit_vector);
    assert(r4 == crc32_bit_steps(r ^ w, 32));
    lemma_crc32_steps_of_ones();
}

/// Check values of the CRC-32 on single bytes: a zero byte and a byte with
/// every bit set.
pub proof fn lemma_crc32_single_bytes()
    ensures
        crc32_spec(seq![0x00u8]) == 0xd202_ef8du32,
        crc32_spec(seq![0xffu8]) == 0xff00_0000u32,
{
    let init = 0xffff_ffffu32;
    let e = Seq::<u8>::empty();
    assert(crc32_update(init, e) == init);
    lemma_crc32_update_push(init, e, 0x00u8);
    lemma_crc32_update_push(init, e, 0xffu8);
    assert(e.push(0x00u8) =~= seq![0x00u8]);
    assert(e.push(0xffu8) =~= seq![0xffu8]);
    assert({
        &&& 0xffff_ffffu32 ^ 0u32 == 0xffff_ffffu32
        &&& 0xffff_ffffu32 ^ 0xffu32 == 0xffff_ff00u32
        &&& 0xffff_ff00u32 & 0xff == 0
        &&& 0xffff_ff00u32 >> 8 == 0x00ff_ffffu32
        &&& !0x2dfd_1072u32 == 0xd202_ef8du32
        &&& !0x00ff_ffffu32 == 0xff00_0000u32
    }) by (bit_vector);
    lemma_crc32_steps_of_ones();
    lemma_crc32_steps_low_byte_clear(0xffff_ff00u32);
}

} // verus!
