use libsimplekv::{decode_record, encode_record, Index, KvError, SimpleKV};

fn store_of(pairs: &[(&[u8], &[u8])]) -> SimpleKV {
    let mut s = SimpleKV::new();
    for (k, v) in pairs {
        s.insert(k, v);
    }
    s
}

#[test]
fn scenario_three_inserts() {
    let mut s = SimpleKV::new();
    // Each record is a 12-byte header plus one key byte and one value byte.
    assert_eq!(s.insert(b"a", b"1"), 0);
    assert_eq!(s.insert(b"b", b"2"), 14);
    assert_eq!(s.insert(b"a", b"3"), 28);
    assert_eq!(s.get(b"a").unwrap(), Some(b"3".to_vec()));
    assert_eq!(s.get(b"b").unwrap(), Some(b"2".to_vec()));
    assert_eq!(s.find(b"a").unwrap(), Some((28, b"3".to_vec())));

    let mut fresh = SimpleKV::from_log(s.log().to_vec());
    fresh.load().unwrap();
    let idx = fresh.index();
    assert_eq!(idx.get(b"a"), Some(28));
    assert_eq!(idx.get(b"b"), Some(14));
    assert_eq!(idx.entries().len(), 2);
}

#[test]
fn encode_known_checksum() {
    // CRC-32/IEEE of "123456789" is 0xCBF43926.
    let rec = encode_record(b"1234", b"56789");
    let mut expected = vec![0x26, 0x39, 0xF4, 0xCB, 4, 0, 0, 0, 5, 0, 0, 0];
    expected.extend_from_slice(b"123456789");
    assert_eq!(rec, expected);
}

#[test]
fn round_trip_plain_and_empty() {
    let cases: [(&[u8], &[u8]); 4] = [
        (b"key", b"value"),
        (b"", b"value"),
        (b"key", b""),
        (b"", b""),
    ];
    for (k, v) in cases {
        let rec = encode_record(k, v);
        let (kv, next) = decode_record(&rec, 0).unwrap();
        assert_eq!(kv.key, k.to_vec());
        assert_eq!(kv.value, v.to_vec());
        assert_eq!(next, rec.len());
    }
}

#[test]
fn decode_at_offset_inside_log() {
    let mut log = encode_record(b"x", b"yy");
    let second = log.len();
    log.extend_from_slice(&encode_record(b"zz", b"w"));
    let (kv, next) = decode_record(&log, second).unwrap();
    assert_eq!(kv.key, b"zz".to_vec());
    assert_eq!(kv.value, b"w".to_vec());
    assert_eq!(next, log.len());
}

#[test]
fn every_single_bit_flip_is_detected() {
    let rec = encode_record(b"hello", b"world");
    for i in 12..rec.len() {
        for bit in 0..8 {
            let mut bad = rec.clone();
            bad[i] ^= 1 << bit;
            match decode_record(&bad, 0) {
                Err(KvError::DataCorruption { expected, found }) => assert_ne!(expected, found),
                other => panic!("flip at byte {} bit {} gave {:?}", i, bit, other.map(|x| x.1)),
            }
        }
    }
}

#[test]
fn corruption_carries_both_checksums() {
    let mut rec = encode_record(b"1234", b"56789");
    rec[12] = b'0';
    match decode_record(&rec, 0) {
        Err(KvError::DataCorruption { expected, found }) => {
            assert_eq!(expected, 0xCBF43926);
            assert_ne!(found, 0xCBF43926);
        }
        _ => panic!("expected corruption"),
    }
}

#[test]
fn end_of_stream_on_short_header() {
    assert!(matches!(decode_record(&[], 0), Err(KvError::EndOfStream)));
    let rec = encode_record(b"k", b"v");
    assert!(matches!(decode_record(&rec[..11], 0), Err(KvError::EndOfStream)));
    assert!(matches!(decode_record(&rec, rec.len()), Err(KvError::EndOfStream)));
    assert!(matches!(decode_record(&rec, rec.len() + 5), Err(KvError::EndOfStream)));
}

#[test]
fn malformed_on_short_body() {
    let rec = encode_record(b"key", b"value");
    assert!(matches!(decode_record(&rec[..rec.len() - 1], 0), Err(KvError::MalformedRecord)));
    assert!(matches!(decode_record(&rec[..12], 0), Err(KvError::MalformedRecord)));
}

#[test]
fn last_write_wins() {
    let mut s = SimpleKV::new();
    s.insert(b"k", b"A");
    let off_b = s.insert(b"k", b"B");
    assert_eq!(s.get(b"k").unwrap(), Some(b"B".to_vec()));
    assert_eq!(s.find(b"k").unwrap(), Some((off_b, b"B".to_vec())));
    let mut fresh = SimpleKV::from_log(s.log().to_vec());
    fresh.load().unwrap();
    assert_eq!(fresh.index().get(b"k"), Some(off_b));
}

#[test]
fn empty_log_scans_cleanly() {
    let mut s = SimpleKV::new();
    assert_eq!(s.load(), Ok(()));
    assert_eq!(s.index().entries().len(), 0);
    assert_eq!(s.find(b"anything").unwrap(), None);
    assert_eq!(s.get(b"anything").unwrap(), None);
}

#[test]
fn trailing_partial_header_ends_scan() {
    let mut log = encode_record(b"a", b"1");
    log.extend_from_slice(&[1, 2, 3]);
    let mut s = SimpleKV::from_log(log);
    assert_eq!(s.load(), Ok(()));
    assert_eq!(s.index().get(b"a"), Some(0));
    assert_eq!(s.find(b"a").unwrap(), Some((0, b"1".to_vec())));
}

#[test]
fn tombstone_reads_as_empty_value() {
    let mut s = store_of(&[(b"k", b"v")]);
    let off = s.delete(b"k");
    assert_eq!(s.get(b"k").unwrap(), Some(Vec::new()));
    assert_eq!(s.index().get(b"k"), Some(off));
    assert_eq!(s.find(b"k").unwrap(), Some((off, Vec::new())));
}

#[test]
fn update_supersedes_like_insert() {
    let mut s = store_of(&[(b"k", b"old")]);
    let off = s.update(b"k", b"new");
    assert_eq!(off, 16);
    assert_eq!(s.get(b"k").unwrap(), Some(b"new".to_vec()));
}

#[test]
fn offset_stability() {
    let mut s = SimpleKV::new();
    let off = s.insert(b"first", b"value one");
    s.insert(b"second", b"value two");
    let kv = s.get_at(off).unwrap();
    assert_eq!(kv.key, b"first".to_vec());
    assert_eq!(kv.value, b"value one".to_vec());
}

#[test]
fn get_at_out_of_range() {
    let s = store_of(&[(b"k", b"v")]);
    assert!(matches!(s.get_at(14), Err(KvError::EndOfStream)));
    assert!(matches!(s.get_at(u64::MAX), Err(KvError::EndOfStream)));
}

#[test]
fn insert_without_index_leaves_index() {
    let mut s = SimpleKV::new();
    let off = s.insert_but_ignore_index(b"k", b"v");
    assert_eq!(off, 0);
    assert_eq!(s.get(b"k").unwrap(), None);
    assert_eq!(s.find(b"k").unwrap(), Some((0, b"v".to_vec())));
}

#[test]
fn load_is_idempotent() {
    let s = store_of(&[(b"a", b"1"), (b"b", b"2"), (b"a", b"3")]);
    let mut once = SimpleKV::from_log(s.log().to_vec());
    once.load().unwrap();
    let mut twice = SimpleKV::from_log(s.log().to_vec());
    twice.load().unwrap();
    let mut e1 = once.index().entries();
    let mut e2 = twice.index().entries();
    e1.sort();
    e2.sort();
    assert_eq!(e1, e2);
    once.load().unwrap();
    let mut e3 = once.index().entries();
    e3.sort();
    assert_eq!(e1, e3);
}

#[test]
fn load_fails_on_corrupt_record() {
    let mut log = encode_record(b"a", b"1");
    let mut bad = encode_record(b"b", b"2");
    bad[13] ^= 0x40;
    log.extend_from_slice(&bad);
    let mut s = SimpleKV::from_log(log.clone());
    assert!(matches!(s.load(), Err(KvError::DataCorruption { .. })));
    let s2 = SimpleKV::from_log(log);
    assert!(matches!(s2.find(b"a"), Err(KvError::DataCorruption { .. })));
}

#[test]
fn load_fails_on_truncated_record() {
    let mut log = encode_record(b"a", b"1");
    let rec = encode_record(b"b", b"22");
    log.extend_from_slice(&rec[..rec.len() - 1]);
    let mut s = SimpleKV::from_log(log);
    assert_eq!(s.load(), Err(KvError::MalformedRecord));
}

#[test]
fn take_index_empties_store_index() {
    let mut s = store_of(&[(b"a", b"1")]);
    let idx = s.take_index();
    assert_eq!(idx.get(b"a"), Some(0));
    assert_eq!(s.get(b"a").unwrap(), None);
}

#[test]
fn index_insert_get_remove() {
    let mut idx = Index::new();
    idx.insert(b"a", 1);
    idx.insert(b"b", 2);
    idx.insert(b"a", 3);
    assert_eq!(idx.get(b"a"), Some(3));
    assert_eq!(idx.entries().len(), 2);
    assert_eq!(idx.remove(b"a"), Some(3));
    assert_eq!(idx.remove(b"a"), None);
    assert_eq!(idx.get(b"a"), None);
    assert_eq!(idx.get(b"b"), Some(2));
}
