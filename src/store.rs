//! The store: an append-only log of records and the index over it.

use vstd::prelude::*;

use crate::codec::{
    decode_at, decode_record, encode_record, header_fits, lemma_decode_extend, lemma_decode_in_log,
    record_bytes, record_end, KeyValuePair, KvError,
};
use crate::index::{same_bytes, Index};

verus! {

/// The index that a scan of `log` from `pos` builds on top of `acc`: each
/// record maps its key to its own offset, later records overriding earlier
/// ones. The scan stops cleanly where no whole header is left and fails on
/// the first record that does not decode.
pub open spec fn index_from(log: Seq<u8>, pos: int, acc: Map<Seq<u8>, u64>) -> Result<
    Map<Seq<u8>, u64>,
    KvError,
>
    decreases log.len() - pos,
{
    if !header_fits(log, pos) {
        Ok(acc)
    } else if record_end(log, pos) > log.len() {
        Err(KvError::MalformedRecord)
    } else {
        match decode_at(log, pos) {
            Ok((k, _)) => index_from(log, record_end(log, pos), acc.insert(k, pos as u64)),
            Err(e) => Err(e),
        }
    }
}

/// The index that a scan of the whole of `log` builds from an empty one.
pub open spec fn loaded_index(log: Seq<u8>) -> Result<Map<Seq<u8>, u64>, KvError> {
    index_from(log, 0, Map::empty())
}

/// The offset and value of the last record for `target` that a scan of `log`
/// from `pos` meets, or `found` if it meets none; an error on the first record
/// that does not decode.
pub open spec fn find_from(
    log: Seq<u8>,
    pos: int,
    target: Seq<u8>,
    found: Option<(u64, Seq<u8>)>,
) -> Result<Option<(u64, Seq<u8>)>, KvError>
    decreases log.len() - pos,
{
    if !header_fits(log, pos) {
        Ok(found)
    } else if record_end(log, pos) > log.len() {
        Err(KvError::MalformedRecord)
    } else {
        match decode_at(log, pos) {
            Ok((k, v)) => find_from(
                log,
                record_end(log, pos),
                target,
                if k == target {
                    Some((pos as u64, v))
                } else {
                    found
                },
            ),
            Err(e) => Err(e),
        }
    }
}

/// Whether `log` from `pos` on is a run of whole records that all decode.
pub open spec fn whole_records(log: Seq<u8>, pos: int) -> bool
    decreases log.len() - pos,
{
    if pos == log.len() {
        true
    } else if !header_fits(log, pos) || record_end(log, pos) > log.len() {
        false
    } else {
        decode_at(log, pos) is Ok && whole_records(log, record_end(log, pos))
    }
}

/// Whether a record for `key` that decodes starts at `offset` of `log`.
pub open spec fn record_for(log: Seq<u8>, offset: u64, key: Seq<u8>) -> bool {
    &&& decode_at(log, offset as int) is Ok
    &&& decode_at(log, offset as int)->Ok_0.0 == key
}

/// The view of what `find` returns.
pub open spec fn found_view(r: Result<Option<(u64, Vec<u8>)>, KvError>) -> Result<
    Option<(u64, Seq<u8>)>,
    KvError,
> {
    match r {
        Ok(Some((off, v))) => Ok(Some((off, v@))),
        Ok(None) => Ok(None),
        Err(e) => Err(e),
    }
}

/// A log-structured key-value store. It holds the bytes of its log and an
/// index from each key to the offset of a record for it.
pub struct SimpleKV {
    log: Vec<u8>,
    index: Index,
}

impl SimpleKV {
    /// The bytes of the log.
    pub closed spec fn log_bytes(&self) -> Seq<u8> {
        self.log@
    }

    /// The index, as a map from keys to offsets.
    pub closed spec fn index_map(&self) -> Map<Seq<u8>, u64> {
        self.index@
    }

    /// Every key of the index maps to the offset of a record for that key.
    pub closed spec fn wf(&self) -> bool {
        &&& self.index.wf()
        &&& forall|k: Seq<u8>| #[trigger]
            self.index@.contains_key(k) ==> record_for(self.log@, self.index@[k], k)
    }

    /// A store over the log `log`, with an empty index.
    pub fn from_log(log: Vec<u8>) -> (r: SimpleKV)
        ensures
            r.wf(),
            r.log_bytes() == log@,
            r.index_map() == Map::<Seq<u8>, u64>::empty(),
    {
        SimpleKV { log, index: Index::new() }
    }

    /// A store over an empty log.
    pub fn new() -> (r: SimpleKV)
        ensures
            r.wf(),
            r.log_bytes() == Seq::<u8>::empty(),
            whole_records(r.log_bytes(), 0),
            r.index_map() == Map::<Seq<u8>, u64>::empty(),
    {
        SimpleKV::from_log(Vec::new())
    }

    /// The bytes of the log.
    pub fn log(&self) -> (r: &[u8])
        ensures
            r@ == self.log_bytes(),
    {
        self.log.as_slice()
    }

    /// The index.
    pub fn index(&self) -> (r: &Index)
        requires
            self.wf(),
        ensures
            r.wf(),
            r@ == self.index_map(),
    {
        &self.index
    }

    /// Takes the index out of the store, leaving it empty.
    pub fn take_index(&mut self) -> (r: Index)
        requires
            old(self).wf(),
        ensures
            final(self).wf(),
            r.wf(),
            r@ == old(self).index_map(),
            final(self).log_bytes() == old(self).log_bytes(),
            final(self).index_map() == Map::<Seq<u8>, u64>::empty(),
    {
        let mut empty = Index::new();
        std::mem::swap(&mut self.index, &mut empty);
        empty
    }

    /// Scans the log from its start and maps the key of each record to that
    /// record's offset, over what the index already holds. The scan ends
    /// without error where no whole header is left; on any other error the
    /// index keeps the entries of the records scanned before it.
    pub fn load(&mut self) -> (r: Result<(), KvError>)
        requires
            old(self).wf(),
        ensures
            final(self).wf(),
            final(self).log_bytes() == old(self).log_bytes(),
            match r {
                Ok(()) => index_from(old(self).log_bytes(), 0, old(self).index_map()) == Ok::<
                    _,
                    KvError,
                >(final(self).index_map()),
                Err(e) => index_from(old(self).log_bytes(), 0, old(self).index_map()) == Err::<
                    Map<Seq<u8>, u64>,
                    _,
                >(e),
            },
    {
        let mut pos: usize = 0;
        loop
            invariant
                self.wf(),
                self.log@ == old(self).log@,
                pos <= self.log@.len(),
                index_from(self.log@, pos as int, self.index@) == index_from(
                    old(self).log@,
                    0,
                    old(self).index@,
                ),
            decreases self.log@.len() - pos,
        {
            match decode_record(self.log.as_slice(), pos) {
                Ok((kv, next)) => {
                    let ghost before = self.index@;
                    self.index.insert(kv.key.as_slice(), pos as u64);
                    assert forall|k: Seq<u8>| #[trigger]
                        self.index@.contains_key(k) implies record_for(
                        self.log@,
                        self.index@[k],
                        k,
                    ) by {
                        if k != kv.key@ {
                            assert(before.contains_key(k));
                        }
                    }
                    pos = next;
                },
                Err(e) => {
                    if e == KvError::EndOfStream {
                        return Ok(());
                    }
                    return Err(e);
                },
            }
        }
    }

    /// Appends a record for `key` and `value` at the end of the log, leaving
    /// the index as it is, and gives the offset where the record starts.
    pub fn insert_but_ignore_index(&mut self, key: &[u8], value: &[u8]) -> (r: u64)
        requires
            old(self).wf(),
            key@.len() <= u32::MAX,
            value@.len() <= u32::MAX,
        ensures
            final(self).wf(),
            r == old(self).log_bytes().len(),
            final(self).log_bytes() == old(self).log_bytes() + record_bytes(key@, value@),
            whole_records(old(self).log_bytes(), 0) ==> whole_records(final(self).log_bytes(), 0),
            final(self).index_map() == old(self).index_map(),
    {
        let position = self.log.len() as u64;
        let mut rec = encode_record(key, value);
        let ghost before = self.log@;
        self.log.append(&mut rec);
        proof {
            if whole_records(before, 0) {
                lemma_whole_records_append(before, key@, value@, 0);
            }
            lemma_decode_in_log(before, key@, value@, Seq::empty());
            assert(self.log@ =~= before + record_bytes(key@, value@) + Seq::<u8>::empty());
            assert forall|k: Seq<u8>| #[trigger]
                self.index@.contains_key(k) implies record_for(self.log@, self.index@[k], k) by {
                let off = self.index@[k] as int;
                assert(record_for(before, self.index@[k], k));
                lemma_decode_extend(before, record_bytes(key@, value@), off);
            }
        }
        position
    }

    /// Appends a record for `key` and `value` and maps `key` to it; gives
    /// the offset where the record starts.
    pub fn insert(&mut self, key: &[u8], value: &[u8]) -> (r: u64)
        requires
            old(self).wf(),
            key@.len() <= u32::MAX,
            value@.len() <= u32::MAX,
        ensures
            final(self).wf(),
            r == old(self).log_bytes().len(),
            final(self).log_bytes() == old(self).log_bytes() + record_bytes(key@, value@),
            whole_records(old(self).log_bytes(), 0) ==> whole_records(final(self).log_bytes(), 0),
            final(self).index_map() == old(self).index_map().insert(key@, r),
    {
        let position = self.insert_but_ignore_index(key, value);
        let ghost before = self.index@;
        self.index.insert(key, position);
        proof {
            lemma_decode_in_log(old(self).log@, key@, value@, Seq::empty());
            assert(self.log@ =~= old(self).log@ + record_bytes(key@, value@) + Seq::<u8>::empty());
            assert forall|k: Seq<u8>| #[trigger]
                self.index@.contains_key(k) implies record_for(self.log@, self.index@[k], k) by {
                if k != key@ {
                    assert(before.contains_key(k));
                }
            }
        }
        position
    }

    /// The same as `insert`.
    pub fn update(&mut self, key: &[u8], value: &[u8]) -> (r: u64)
        requires
            old(self).wf(),
            key@.len() <= u32::MAX,
            value@.len() <= u32::MAX,
        ensures
            final(self).wf(),
            r == old(self).log_bytes().len(),
            final(self).log_bytes() == old(self).log_bytes() + record_bytes(key@, value@),
            whole_records(old(self).log_bytes(), 0) ==> whole_records(final(self).log_bytes(), 0),
            final(self).index_map() == old(self).index_map().insert(key@, r),
    {
        self.insert(key, value)
    }

    /// Writes a tombstone for `key`: a record with an empty value, to which
    /// the index then maps `key`.
    pub fn delete(&mut self, key: &[u8]) -> (r: u64)
        requires
            old(self).wf(),
            key@.len() <= u32::MAX,
        ensures
            final(self).wf(),
            r == old(self).log_bytes().len(),
            final(self).log_bytes() == old(self).log_bytes() + record_bytes(key@, Seq::empty()),
            whole_records(old(self).log_bytes(), 0) ==> whole_records(final(self).log_bytes(), 0),
            final(self).index_map() == old(self).index_map().insert(key@, r),
    {
        let empty: [u8; 0] = [];
        let r = self.insert(key, empty.as_slice());
        assert(empty@ =~= Seq::<u8>::empty());
        r
    }

    /// Decodes the record at `position` of the log, without the index.
    pub fn get_at(&self, position: u64) -> (r: Result<KeyValuePair, KvError>)
        ensures
            match r {
                Ok(kv) => decode_at(self.log_bytes(), position as int) == Ok::<_, KvError>(
                    (kv.key@, kv.value@),
                ),
                Err(e) => decode_at(self.log_bytes(), position as int) == Err::<
                    (Seq<u8>, Seq<u8>),
                    _,
                >(e),
            },
    {
        if position > self.log.len() as u64 {
            return Err(KvError::EndOfStream);
        }
        match decode_record(self.log.as_slice(), position as usize) {
            Ok((kv, _)) => Ok(kv),
            Err(e) => Err(e),
        }
    }

    /// The value of the record that the index maps `key` to, or `None` where
    /// the index does not hold `key`.
    pub fn get(&self, key: &[u8]) -> (r: Result<Option<Vec<u8>>, KvError>)
        requires
            self.wf(),
        ensures
            match r {
                Ok(Some(v)) => self.index_map().contains_key(key@) && decode_at(
                    self.log_bytes(),
                    self.index_map()[key@] as int,
                ) == Ok::<_, KvError>((key@, v@)),
                Ok(None) => !self.index_map().contains_key(key@),
                Err(_) => false,
            },
    {
        let position = match self.index.get(key) {
            None => return Ok(None),
            Some(position) => position,
        };
        assert(record_for(self.log@, self.index@[key@], key@));
        match self.get_at(position) {
            Ok(kv) => Ok(Some(kv.value)),
            Err(e) => Err(e),
        }
    }

    /// Scans the whole log, without the index, for the last record of
    /// `target`, and gives its offset and value.
    pub fn find(&self, target: &[u8]) -> (r: Result<Option<(u64, Vec<u8>)>, KvError>)
        ensures
            found_view(r) == find_from(self.log_bytes(), 0, target@, None),
    {
        let mut found: Option<(u64, Vec<u8>)> = None;
        let mut pos: usize = 0;
        loop
            invariant
                pos <= self.log@.len(),
                find_from(self.log@, pos as int, target@, found_view(Ok(found))->Ok_0)
                    == find_from(self.log@, 0, target@, None),
            decreases self.log@.len() - pos,
        {
            match decode_record(self.log.as_slice(), pos) {
                Ok((kv, next)) => {
                    if same_bytes(kv.key.as_slice(), target) {
                        found = Some((pos as u64, kv.value));
                    }
                    pos = next;
                },
                Err(e) => {
                    if e == KvError::EndOfStream {
                        return Ok(found);
                    }
                    return Err(e);
                },
            }
        }
    }
}

/// Appending a record to a run of whole records leaves a run of whole records.
pub proof fn lemma_whole_records_append(log: Seq<u8>, key: Seq<u8>, value: Seq<u8>, pos: int)
    requires
        0 <= pos <= log.len(),
        whole_records(log, pos),
        key.len() <= u32::MAX,
        value.len() <= u32::MAX,
    ensures
        whole_records(log + record_bytes(key, value), pos),
    decreases log.len() - pos,
{
    let rec = record_bytes(key, value);
    if pos == log.len() {
        lemma_decode_in_log(log, key, value, Seq::empty());
        assert(log + rec + Seq::<u8>::empty() =~= log + rec);
        assert(whole_records(log + rec, (log + rec).len() as int));
    } else {
        lemma_decode_extend(log, rec, pos);
        lemma_whole_records_append(log, key, value, record_end(log, pos));
    }
}

/// One record written at `prefix.len()` moves a scan past it, with its key
/// mapped to its offset.
proof fn lemma_scan_step(
    prefix: Seq<u8>,
    key: Seq<u8>,
    value: Seq<u8>,
    suffix: Seq<u8>,
    acc: Map<Seq<u8>, u64>,
    found: Option<(u64, Seq<u8>)>,
)
    requires
        key.len() <= u32::MAX,
        value.len() <= u32::MAX,
    ensures
        ({
            let log = prefix + record_bytes(key, value) + suffix;
            let p = prefix.len() as int;
            let next = p + record_bytes(key, value).len();
            &&& index_from(log, p, acc) == index_from(log, next, acc.insert(key, p as u64))
            &&& find_from(log, p, key, found) == find_from(log, next, key, Some((p as u64, value)))
        }),
{
    lemma_decode_in_log(prefix, key, value, suffix);
}

/// A scan over a run of whole records goes on into whatever is appended.
proof fn lemma_scan_extend(
    log: Seq<u8>,
    extra: Seq<u8>,
    pos: int,
    acc: Map<Seq<u8>, u64>,
    target: Seq<u8>,
    found: Option<(u64, Seq<u8>)>,
)
    requires
        0 <= pos <= log.len(),
        whole_records(log, pos),
    ensures
        index_from(log, pos, acc) is Ok,
        index_from(log + extra, pos, acc) == index_from(
            log + extra,
            log.len() as int,
            index_from(log, pos, acc)->Ok_0,
        ),
        find_from(log, pos, target, found) is Ok,
        find_from(log + extra, pos, target, found) == find_from(
            log + extra,
            log.len() as int,
            target,
            find_from(log, pos, target, found)->Ok_0,
        ),
    decreases log.len() - pos,
{
    if pos < log.len() {
        lemma_decode_extend(log, extra, pos);
        let (k, v) = decode_at(log, pos)->Ok_0;
        lemma_scan_extend(
            log,
            extra,
            record_end(log, pos),
            acc.insert(k, pos as u64),
            target,
            if k == target {
                Some((pos as u64, v))
            } else {
                found
            },
        );
    }
}

/// A scan that starts from `extra` under `acc` ends with `extra` under what
/// it ends with from `acc` alone.
proof fn lemma_scan_over(
    log: Seq<u8>,
    pos: int,
    acc: Map<Seq<u8>, u64>,
    extra: Map<Seq<u8>, u64>,
)
    ensures
        index_from(log, pos, extra.union_prefer_right(acc)) == match index_from(log, pos, acc) {
            Ok(m) => Ok(extra.union_prefer_right(m)),
            Err(e) => Err(e),
        },
    decreases log.len() - pos,
{
    if header_fits(log, pos) && record_end(log, pos) <= log.len() {
        if let Ok((k, _)) = decode_at(log, pos) {
            assert(extra.union_prefer_right(acc.insert(k, pos as u64)) =~= extra.union_prefer_right(
                acc,
            ).insert(k, pos as u64));
            lemma_scan_over(log, record_end(log, pos), acc.insert(k, pos as u64), extra);
        }
    }
}

/// Scanning an empty log ends at once: the index stays empty and no record
/// is found.
pub proof fn lemma_empty_log_scans(target: Seq<u8>)
    ensures
        loaded_index(Seq::empty()) == Ok::<_, KvError>(Map::<Seq<u8>, u64>::empty()),
        find_from(Seq::empty(), 0, target, None) == Ok::<Option<(u64, Seq<u8>)>, KvError>(None),
{
}

/// The record written at the end of a log decodes, at the offset where it was
/// written, to its key and value, however many bytes are appended after it.
pub proof fn lemma_offset_stability(log: Seq<u8>, key: Seq<u8>, value: Seq<u8>, later: Seq<u8>)
    requires
        key.len() <= u32::MAX,
        value.len() <= u32::MAX,
    ensures
        decode_at(log + record_bytes(key, value) + later, log.len() as int) == Ok::<_, KvError>(
            (key, value),
        ),
{
    lemma_decode_in_log(log, key, value, later);
}

/// A tombstone for `key` decodes to `key` with a present, empty value.
pub proof fn lemma_tombstone(log: Seq<u8>, key: Seq<u8>)
    requires
        key.len() <= u32::MAX,
    ensures
        decode_at(log + record_bytes(key, Seq::empty()), log.len() as int) == Ok::<_, KvError>(
            (key, Seq::<u8>::empty()),
        ),
{
    lemma_decode_in_log(log, key, Seq::empty(), Seq::empty());
    assert(log + record_bytes(key, Seq::empty()) + Seq::<u8>::empty() =~= log + record_bytes(
        key,
        Seq::empty(),
    ));
}

/// Two records for `key` written one after the other at the end of a log
/// leave a scan with `key` mapped to the second, whose value `find` keeps.
proof fn lemma_scan_two_records(
    log: Seq<u8>,
    key: Seq<u8>,
    a: Seq<u8>,
    b: Seq<u8>,
    acc: Map<Seq<u8>, u64>,
    found: Option<(u64, Seq<u8>)>,
)
    requires
        key.len() <= u32::MAX,
        a.len() <= u32::MAX,
        b.len() <= u32::MAX,
    ensures
        ({
            let full = log + record_bytes(key, a) + record_bytes(key, b);
            let p = log.len() as int;
            let q = p + record_bytes(key, a).len();
            &&& index_from(full, p, acc) == Ok::<_, KvError>(
                acc.insert(key, p as u64).insert(key, q as u64),
            )
            &&& find_from(full, p, key, found) == Ok::<_, KvError>(Some((q as u64, b)))
        }),
{
    let ra = record_bytes(key, a);
    let rb = record_bytes(key, b);
    let full = log + ra + rb;
    let p = log.len() as int;
    let q = p + ra.len();
    let m1 = acc.insert(key, p as u64);
    let m2 = m1.insert(key, q as u64);
    lemma_scan_step(log, key, a, rb, acc, found);
    assert(full == (log + ra) + rb + Seq::<u8>::empty()) by {
        assert(full =~= (log + ra) + rb + Seq::<u8>::empty());
    }
    lemma_scan_step(log + ra, key, b, Seq::empty(), m1, Some((p as u64, a)));
    lemma_decode_in_log(log + ra, key, b, Seq::empty());
    let end = q + rb.len();
    assert(!header_fits(full, end));
}

/// The index half of last-write-wins.
proof fn lemma_last_write_wins_index(log: Seq<u8>, key: Seq<u8>, a: Seq<u8>, b: Seq<u8>)
    requires
        whole_records(log, 0),
        key.len() <= u32::MAX,
        a.len() <= u32::MAX,
        b.len() <= u32::MAX,
    ensures
        ({
            let full = log + record_bytes(key, a) + record_bytes(key, b);
            let off_b = (log.len() + record_bytes(key, a).len()) as u64;
            &&& loaded_index(full) is Ok
            &&& loaded_index(full)->Ok_0.contains_key(key)
            &&& loaded_index(full)->Ok_0[key] == off_b
        }),
{
    let ra = record_bytes(key, a);
    let rb = record_bytes(key, b);
    let full = log + ra + rb;
    assert(full == log + (ra + rb)) by {
        assert(full =~= log + (ra + rb));
    }
    lemma_scan_extend(log, ra + rb, 0, Map::empty(), key, None);
    lemma_scan_two_records(
        log,
        key,
        a,
        b,
        index_from(log, 0, Map::empty())->Ok_0,
        find_from(log, 0, key, None)->Ok_0,
    );
}

/// The `find` half of last-write-wins.
proof fn lemma_last_write_wins_find(log: Seq<u8>, key: Seq<u8>, a: Seq<u8>, b: Seq<u8>)
    requires
        whole_records(log, 0),
        key.len() <= u32::MAX,
        a.len() <= u32::MAX,
        b.len() <= u32::MAX,
    ensures
        ({
            let full = log + record_bytes(key, a) + record_bytes(key, b);
            let off_b = (log.len() + record_bytes(key, a).len()) as u64;
            find_from(full, 0, key, None) == Ok::<_, KvError>(Some((off_b, b)))
        }),
{
    let ra = record_bytes(key, a);
    let rb = record_bytes(key, b);
    let full = log + ra + rb;
    assert(full == log + (ra + rb)) by {
        assert(full =~= log + (ra + rb));
    }
    lemma_scan_extend(log, ra + rb, 0, Map::empty(), key, None);
    lemma_scan_two_records(
        log,
        key,
        a,
        b,
        index_from(log, 0, Map::empty())->Ok_0,
        find_from(log, 0, key, None)->Ok_0,
    );
}

/// The record written last decodes at its offset.
proof fn lemma_decode_last(log: Seq<u8>, key: Seq<u8>, value: Seq<u8>)
    requires
        key.len() <= u32::MAX,
        value.len() <= u32::MAX,
    ensures
        decode_at(log + record_bytes(key, value), log.len() as int) == Ok::<_, KvError>(
            (key, value),
        ),
{
    lemma_decode_in_log(log, key, value, Seq::empty());
    assert(log + record_bytes(key, value) + Seq::<u8>::empty() =~= log + record_bytes(key, value));
}

/// Last write wins: after `key` is written with `a` and then with `b` at the
/// end of a log of whole records, a scan maps `key` to the second record,
/// `find` meets `b` there last, and that record decodes to `b`.
pub proof fn lemma_last_write_wins(log: Seq<u8>, key: Seq<u8>, a: Seq<u8>, b: Seq<u8>)
    requires
        whole_records(log, 0),
        key.len() <= u32::MAX,
        a.len() <= u32::MAX,
        b.len() <= u32::MAX,
    ensures
        ({
            let full = log + record_bytes(key, a) + record_bytes(key, b);
            let off_b = (log.len() + record_bytes(key, a).len()) as u64;
            &&& loaded_index(full) is Ok
            &&& loaded_index(full)->Ok_0.contains_key(key)
            &&& loaded_index(full)->Ok_0[key] == off_b
            &&& find_from(full, 0, key, None) == Ok::<_, KvError>(Some((off_b, b)))
            &&& decode_at(full, (log.len() + record_bytes(key, a).len()) as int) == Ok::<_, KvError>(
                (key, b),
            )
        }),
{
    lemma_last_write_wins_index(log, key, a, b);
    lemma_last_write_wins_find(log, key, a, b);
    lemma_decode_last(log + record_bytes(key, a), key, b);
}

/// Loading is idempotent: a scan that starts from the index it builds ends
/// with that same index, so two loads give the same contents.
pub proof fn lemma_load_idempotent(log: Seq<u8>)
    ensures
        loaded_index(log) is Ok ==> index_from(log, 0, loaded_index(log)->Ok_0) == loaded_index(
            log,
        ),
{
    if let Ok(m) = loaded_index(log) {
        lemma_scan_over(log, 0, Map::empty(), m);
        assert(m.union_prefer_right(Map::empty()) =~= m);
        assert(m.union_prefer_right(m) =~= m);
    }
}

} // verus!
