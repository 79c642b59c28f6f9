//! The on-disk record format.
//!
//! A record is a 12-byte header (checksum, key length, value length, each a
//! little-endian `u32`) followed by the key bytes and then the value bytes.
//! The checksum is the CRC-32 (IEEE polynomial) of the key followed by the value.

use byteorder::{ByteOrder, LittleEndian};
use vstd::prelude::*;

verus! {

/// Number of header bytes in front of every record.
pub const HEADER_LEN: usize = 12;

/// The CRC-32 (IEEE polynomial) of a byte sequence.
pub uninterp spec fn crc32_ieee(data: Seq<u8>) -> u32;

/// The four little-endian bytes of `n`.
pub open spec fn le_bytes(n: u32) -> Seq<u8> {
    seq![(n % 256) as u8, ((n / 256) % 256) as u8, ((n / 65536) % 256) as u8, (n / 16777216) as u8]
}

/// The number whose little-endian bytes are the first four of `b`.
pub open spec fn le_u32(b: Seq<u8>) -> u32
    recommends
        b.len() >= 4,
{
    (b[0] as int + 256 * b[1] as int + 65536 * b[2] as int + 16777216 * b[3] as int) as u32
}

/// The bytes of the record that holds `key` and `value`.
pub open spec fn record_bytes(key: Seq<u8>, value: Seq<u8>) -> Seq<u8> {
    le_bytes(crc32_ieee(key + value)) + le_bytes(key.len() as u32) + le_bytes(value.len() as u32)
        + key + value
}

/// The checksum stored in the header of the record at `pos`.
pub open spec fn stored_checksum(log: Seq<u8>, pos: int) -> u32 {
    le_u32(log.subrange(pos, pos + 4))
}

/// The key length stored in the header of the record at `pos`.
pub open spec fn key_len_at(log: Seq<u8>, pos: int) -> u32 {
    le_u32(log.subrange(pos + 4, pos + 8))
}

/// The value length stored in the header of the record at `pos`.
pub open spec fn val_len_at(log: Seq<u8>, pos: int) -> u32 {
    le_u32(log.subrange(pos + 8, pos + 12))
}

/// Whether a whole header starts at `pos`.
pub open spec fn header_fits(log: Seq<u8>, pos: int) -> bool {
    0 <= pos && pos + HEADER_LEN <= log.len()
}

/// Where the record at `pos` ends, as its header declares it.
pub open spec fn record_end(log: Seq<u8>, pos: int) -> int {
    pos + HEADER_LEN + key_len_at(log, pos) + val_len_at(log, pos)
}

/// The key bytes followed by the value bytes of the record at `pos`.
pub open spec fn body_at(log: Seq<u8>, pos: int) -> Seq<u8> {
    log.subrange(pos + HEADER_LEN, record_end(log, pos))
}

/// What decoding the record that starts at `pos` gives: its key and value,
/// or why there is none.
pub open spec fn decode_at(log: Seq<u8>, pos: int) -> Result<(Seq<u8>, Seq<u8>), KvError> {
    if !header_fits(log, pos) {
        Err(KvError::EndOfStream)
    } else if record_end(log, pos) > log.len() {
        Err(KvError::MalformedRecord)
    } else if crc32_ieee(body_at(log, pos)) != stored_checksum(log, pos) {
        Err(
            KvError::DataCorruption {
                expected: stored_checksum(log, pos),
                found: crc32_ieee(body_at(log, pos)),
            },
        )
    } else {
        let body = body_at(log, pos);
        let k = key_len_at(log, pos) as int;
        Ok((body.subrange(0, k), body.subrange(k, body.len() as int)))
    }
}

/// Why no record could be read.
#[derive(Debug, Clone, Copy, PartialEq, Eq, Structural)]
pub enum KvError {
    /// Fewer than a whole header's bytes are left: the normal end of a scan.
    EndOfStream,
    /// The header declares a body longer than the bytes that follow it.
    MalformedRecord,
    /// The checksum of the body differs from the one in the header.
    DataCorruption { expected: u32, found: u32 },
}

/// A decoded record's key and value.
#[derive(Debug)]
pub struct KeyValuePair {
    pub key: Vec<u8>,
    pub value: Vec<u8>,
}

/// Relies on crc's `crc32::checksum_ieee`: the CRC-32 (IEEE polynomial) of
/// the bytes, which depends on the bytes alone.
#[verifier::external_body]
fn checksum_ieee(data: &[u8]) -> (r: u32)
    ensures
        r == crc32_ieee(data@),
{
    crc::crc32::checksum_ieee(data)
}

/// Relies on byteorder's `LittleEndian::read_u32`: the number whose
/// little-endian bytes are the four at `pos`.
#[verifier::external_body]
fn read_u32_le(buf: &[u8], pos: usize) -> (r: u32)
    requires
        pos + 4 <= buf@.len(),
    ensures
        r == le_u32(buf@.subrange(pos as int, pos + 4)),
{
    LittleEndian::read_u32(&buf[pos..])
}

/// Relies on byteorder's `LittleEndian::write_u32`: the four little-endian
/// bytes of `n`, here appended to `out`.
#[verifier::external_body]
fn push_u32_le(out: &mut Vec<u8>, n: u32)
    ensures
        final(out)@ == old(out)@ + le_bytes(n),
{
    let mut buf = [0u8; 4];
    LittleEndian::write_u32(&mut buf, n);
    out.extend_from_slice(&buf);
}

/// Little-endian bytes give back the number they were made from.
pub proof fn lemma_le_round_trip(n: u32)
    ensures
        le_u32(le_bytes(n)) == n,
{
    let x = n as int;
    assert(x == (x % 256) + 256 * ((x / 256) % 256) + 65536 * ((x / 65536) % 256) + 16777216 * (
    x / 16777216));
}

/// A record written after `prefix` and followed by `suffix` decodes, at the
/// offset where it was written, to the key and value it was made from.
pub proof fn lemma_decode_in_log(prefix: Seq<u8>, key: Seq<u8>, value: Seq<u8>, suffix: Seq<u8>)
    requires
        key.len() <= u32::MAX,
        value.len() <= u32::MAX,
    ensures
        ({
            let log = prefix + record_bytes(key, value) + suffix;
            let p = prefix.len() as int;
            &&& header_fits(log, p)
            &&& record_end(log, p) == p + record_bytes(key, value).len()
            &&& record_bytes(key, value).len() == HEADER_LEN + key.len() + value.len()
            &&& decode_at(log, p) == Ok::<_, KvError>((key, value))
        }),
{
    let rec = record_bytes(key, value);
    let log = prefix + rec + suffix;
    let p = prefix.len() as int;
    let c = crc32_ieee(key + value);
    lemma_le_round_trip(c);
    lemma_le_round_trip(key.len() as u32);
    lemma_le_round_trip(value.len() as u32);
    assert(log.subrange(p, p + 4) =~= le_bytes(c));
    assert(log.subrange(p + 4, p + 8) =~= le_bytes(key.len() as u32));
    assert(log.subrange(p + 8, p + 12) =~= le_bytes(value.len() as u32));
    assert(body_at(log, p) =~= key + value);
    assert((key + value).subrange(0, key.len() as int) =~= key);
    assert((key + value).subrange(key.len() as int, (key + value).len() as int) =~= value);
}

/// Encoding a record and decoding it gives back its key and value, with the
/// checksum found correct.
pub proof fn lemma_round_trip(key: Seq<u8>, value: Seq<u8>)
    requires
        key.len() <= u32::MAX,
        value.len() <= u32::MAX,
    ensures
        decode_at(record_bytes(key, value), 0) == Ok::<_, KvError>((key, value)),
        record_end(record_bytes(key, value), 0) == record_bytes(key, value).len(),
{
    lemma_decode_in_log(Seq::empty(), key, value, Seq::empty());
    assert(Seq::<u8>::empty() + record_bytes(key, value) + Seq::<u8>::empty() =~= record_bytes(
        key,
        value,
    ));
}

/// A record that lies whole within `log` decodes the same once more bytes
/// are appended to the log.
pub proof fn lemma_decode_extend(log: Seq<u8>, extra: Seq<u8>, pos: int)
    requires
        header_fits(log, pos),
        record_end(log, pos) <= log.len(),
    ensures
        header_fits(log + extra, pos),
        record_end(log + extra, pos) == record_end(log, pos),
        decode_at(log + extra, pos) == decode_at(log, pos),
{
    let l2 = log + extra;
    assert(l2.subrange(pos, pos + 4) =~= log.subrange(pos, pos + 4));
    assert(l2.subrange(pos + 4, pos + 8) =~= log.subrange(pos + 4, pos + 8));
    assert(l2.subrange(pos + 8, pos + 12) =~= log.subrange(pos + 8, pos + 12));
    assert(body_at(l2, pos) =~= body_at(log, pos));
}

/// Replacing one byte of a record's body makes its decoding fail with
/// `DataCorruption` whenever the altered body's CRC-32 differs from the
/// original's: the damage can pass unnoticed only through a checksum collision.
pub proof fn lemma_altered_body_detected(key: Seq<u8>, value: Seq<u8>, i: int, b: u8)
    requires
        key.len() <= u32::MAX,
        value.len() <= u32::MAX,
        0 <= i < key.len() + value.len(),
    ensures
        ({
            let altered = record_bytes(key, value).update(HEADER_LEN + i, b);
            let body = (key + value).update(i, b);
            crc32_ieee(body) != crc32_ieee(key + value) ==> decode_at(altered, 0) == Err::<
                (Seq<u8>, Seq<u8>),
                _,
            >(KvError::DataCorruption { expected: crc32_ieee(key + value), found: crc32_ieee(body) })
        }),
{
    let rec = record_bytes(key, value);
    let altered = rec.update(HEADER_LEN + i, b);
    let body = (key + value).update(i, b);
    lemma_round_trip(key, value);
    assert(altered.subrange(0, 4) =~= rec.subrange(0, 4));
    assert(altered.subrange(4, 8) =~= rec.subrange(4, 8));
    assert(altered.subrange(8, 12) =~= rec.subrange(8, 12));
    assert(rec.subrange(0, 4) =~= le_bytes(crc32_ieee(key + value)));
    lemma_le_round_trip(crc32_ieee(key + value));
    assert(body_at(altered, 0) =~= body);
}

/// Appends the bytes of `data` to `out`.
fn push_bytes(out: &mut Vec<u8>, data: &[u8])
    ensures
        final(out)@ == old(out)@ + data@,
{
    let mut i: usize = 0;
    while i < data.len()
        invariant
            i <= data@.len(),
            out@ == old(out)@ + data@.subrange(0, i as int),
        decreases data@.len() - i,
    {
        out.push(data[i]);
        i = i + 1;
        assert(out@ =~= old(out)@ + data@.subrange(0, i as int));
    }
    assert(data@.subrange(0, i as int) =~= data@);
}

/// Encodes `key` and `value` as one record. Lengths beyond `u32::MAX` are
/// truncated in the header; such a record does not decode to its input.
pub fn encode_record(key: &[u8], value: &[u8]) -> (r: Vec<u8>)
    ensures
        r@ == record_bytes(key@, value@),
{
    let mut body: Vec<u8> = Vec::new();
    push_bytes(&mut body, key);
    push_bytes(&mut body, value);
    let checksum = checksum_ieee(body.as_slice());
    let mut out: Vec<u8> = Vec::new();
    push_u32_le(&mut out, checksum);
    push_u32_le(&mut out, key.len() as u32);
    push_u32_le(&mut out, value.len() as u32);
    out.append(&mut body);
    assert(out@ =~= record_bytes(key@, value@));
    out
}

/// Copies the bytes of `log` in `[start, end)`.
pub(crate) fn copy_range(log: &[u8], start: usize, end: usize) -> (r: Vec<u8>)
    requires
        start <= end <= log@.len(),
    ensures
        r@ == log@.subrange(start as int, end as int),
{
    let mut out: Vec<u8> = Vec::new();
    let mut i: usize = start;
    while i < end
        invariant
            start <= i <= end <= log@.len(),
            out@ == log@.subrange(start as int, i as int),
        decreases end - i,
    {
        out.push(log[i]);
        i = i + 1;
        assert(out@ =~= log@.subrange(start as int, i as int));
    }
    out
}

/// Decodes the record that starts at offset `pos` of `log`, checking its
/// checksum. On success it also gives the offset where the next record starts.
pub fn decode_record(log: &[u8], pos: usize) -> (r: Result<(KeyValuePair, usize), KvError>)
    ensures
        match r {
            Ok((kv, next)) => decode_at(log@, pos as int) == Ok::<_, KvError>((kv.key@, kv.value@))
                && next == record_end(log@, pos as int),
            Err(e) => decode_at(log@, pos as int) == Err::<(Seq<u8>, Seq<u8>), _>(e),
        },
{
    if pos > log.len() || log.len() - pos < HEADER_LEN {
        return Err(KvError::EndOfStream);
    }
    let saved_checksum = read_u32_le(log, pos);
    let key_len = read_u32_le(log, pos + 4);
    let val_len = read_u32_le(log, pos + 8);
    let start = pos + HEADER_LEN;
    if ((log.len() - start) as u64) < key_len as u64 + val_len as u64 {
        return Err(KvError::MalformedRecord);
    }
    let end = start + key_len as usize + val_len as usize;
    let mut data = copy_range(log, start, end);
    let checksum = checksum_ieee(data.as_slice());
    if checksum != saved_checksum {
        return Err(KvError::DataCorruption { expected: saved_checksum, found: checksum });
    }
    let value = data.split_off(key_len as usize);
    let key = data;
    Ok((KeyValuePair { key, value }, end))
}

} // verus!
