use cache_index::codec::{bucket_payloads, decode_line, encode_line};
use cache_index::hashing::{hash_entry, hash_key};
use cache_index::index::{
    delete, entry_from_record, find, insert, ls, to_entry, Entry, PutOpts, SerializableEntry,
};
use cache_index::layout::{bucket_path, index_dir};
use cache_index::payload::{encode_payload, encode_record};

const MOCK_ENTRY: &str = "\n251d18a2b33264ea8655695fd23c88bd874cdea2c3dc9d8f9b7596717ad30fec\t{\"key\":\"hello\",\"integrity\":\"sha1-deadbeef\",\"time\":1234567,\"size\":0,\"metadata\":null}";

const MOCK_PAYLOAD: &str = "{\"key\":\"hello\",\"integrity\":\"sha1-deadbeef\",\"time\":1234567,\"size\":0,\"metadata\":null}";

fn record_from_json(p: &[u8]) -> SerializableEntry {
    let v: serde_json::Value = serde_json::from_slice(p).unwrap();
    SerializableEntry {
        key: v["key"].as_str().unwrap().to_string(),
        integrity: v["integrity"].as_str().map(|s| s.to_string()),
        time: v["time"].as_u64().unwrap() as u128,
        size: v["size"].as_u64().unwrap() as usize,
        metadata: v["metadata"].to_string(),
    }
}

fn records_of(content: &[u8]) -> Vec<SerializableEntry> {
    bucket_payloads(content).iter().map(|p| record_from_json(p)).collect()
}

fn opts_with(sri: &str, time: u128) -> PutOpts {
    PutOpts::new().integrity(sri.to_string()).time(time)
}

#[test]
fn insert_basic() {
    let (rec, sri) = insert("hello", opts_with("sha1-deadbeef", 1_234_567), 99);
    assert_eq!(sri, "sha1-deadbeef");
    let line = encode_record(&rec);
    assert_eq!(String::from_utf8(line).unwrap(), MOCK_ENTRY);
}

#[test]
fn find_basic() {
    let records = records_of(MOCK_ENTRY.as_bytes());
    let entry = find(&records, "hello").unwrap();
    assert_eq!(
        entry,
        Entry {
            key: String::from("hello"),
            integrity: String::from("sha1-deadbeef"),
            time: 1_234_567,
            size: 0,
            metadata: String::from("null"),
        }
    );
}

#[test]
fn find_none() {
    let records = records_of(b"");
    assert_eq!(find(&records, "hello"), None);
}

#[test]
fn delete_basic() {
    let (rec, _) = insert("hello", opts_with("sha1-deadbeef", 1_234_567), 5);
    let mut content = encode_record(&rec);
    content.extend(encode_record(&delete("hello", 6)));
    let records = records_of(&content);
    assert_eq!(records.len(), 2);
    assert_eq!(find(&records, "hello"), None);
}

#[test]
fn ls_basic() {
    let mut keys = Vec::new();
    for key in ["hello", "world"] {
        let (rec, _) = insert(key, opts_with("sha1-deadbeef", 1_234_567), 0);
        let records = records_of(&encode_record(&rec));
        for e in ls(&records) {
            keys.push(e.key);
        }
    }
    keys.sort();
    assert_eq!(keys, vec![String::from("hello"), String::from("world")]);
}

#[test]
fn hash_key_is_hex_sha1() {
    assert_eq!(hash_key("hello"), "aaf4c61ddcc5e8a2dabede0f3b482cd9aea9434d");
}

#[test]
fn hash_entry_is_hex_sha256() {
    assert_eq!(
        hash_entry(MOCK_PAYLOAD.as_bytes()),
        "251d18a2b33264ea8655695fd23c88bd874cdea2c3dc9d8f9b7596717ad30fec"
    );
}

#[test]
fn bucket_path_shards_by_hash() {
    assert_eq!(
        bucket_path("/cache", "hello"),
        "/cache/index-v5/aa/f4/c61ddcc5e8a2dabede0f3b482cd9aea9434d"
    );
    assert_eq!(bucket_path("/cache", "hello"), bucket_path("/cache", "hello"));
    assert_ne!(bucket_path("/cache", "hello"), bucket_path("/cache", "world"));
    assert_eq!(index_dir("/cache"), "/cache/index-v5");
}

#[test]
fn payload_is_compact_json() {
    let (rec, _) = insert("hello", opts_with("sha1-deadbeef", 1_234_567), 0);
    assert_eq!(String::from_utf8(encode_payload(&rec)).unwrap(), MOCK_PAYLOAD);
    let (tomb, _) = insert("a\"b", PutOpts::new().size(12).metadata("{\"x\":1}".to_string()), 340282366920938463463374607431768211455);
    assert_eq!(
        String::from_utf8(encode_payload(&tomb)).unwrap(),
        "{\"key\":\"a\\\"b\",\"integrity\":null,\"time\":340282366920938463463374607431768211455,\"size\":12,\"metadata\":{\"x\":1}}"
    );
}

#[test]
fn encode_line_frames_payload() {
    assert_eq!(String::from_utf8(encode_line(MOCK_PAYLOAD.as_bytes())).unwrap(), MOCK_ENTRY);
}

#[test]
fn decode_line_accepts_sound_record() {
    let line = &MOCK_ENTRY.as_bytes()[1..];
    assert_eq!(decode_line(line), Some(MOCK_PAYLOAD.as_bytes().to_vec()));
}

#[test]
fn decode_line_rejects_bad_checksum() {
    let line = MOCK_ENTRY[1..].replacen("251d", "351d", 1);
    assert_eq!(decode_line(line.as_bytes()), None);
}

#[test]
fn decode_line_rejects_wrong_field_count() {
    assert_eq!(decode_line(b""), None);
    assert_eq!(decode_line(MOCK_PAYLOAD.as_bytes()), None);
    let three = format!("{}\textra", &MOCK_ENTRY[1..]);
    assert_eq!(decode_line(three.as_bytes()), None);
}

#[test]
fn corrupted_record_is_skipped() {
    let bad = MOCK_ENTRY.replacen("251d", "351d", 1).replace("hello", "other");
    let content = format!("{}{}\n\ngarbage", MOCK_ENTRY, bad);
    let payloads = bucket_payloads(content.as_bytes());
    assert_eq!(payloads, vec![MOCK_PAYLOAD.as_bytes().to_vec()]);
    let records = records_of(content.as_bytes());
    assert_eq!(find(&records, "hello").unwrap().key, "hello");
    assert_eq!(find(&records, "other"), None);
    assert_eq!(ls(&records).len(), 1);
}

#[test]
fn last_write_wins() {
    let (a, _) = insert("k", opts_with("sha1-deadbeef", 1), 0);
    let (b, _) = insert("k", opts_with("sha256-cafe", 2).size(7), 0);
    let mut content = encode_record(&a);
    content.extend(encode_record(&b));
    let records = records_of(&content);
    let e = find(&records, "k").unwrap();
    assert_eq!(e.integrity, "sha256-cafe");
    assert_eq!(e.time, 2);
    assert_eq!(e.size, 7);
}

#[test]
fn reinsert_after_delete_is_found() {
    let (a, _) = insert("k", opts_with("sha1-deadbeef", 1), 0);
    let (b, _) = insert("k", opts_with("sha1-beef", 3), 0);
    let records = vec![a, delete("k", 2), b];
    assert_eq!(find(&records, "k").unwrap().integrity, "sha1-beef");
}

#[test]
fn round_trip_keeps_values() {
    let opts = opts_with("sha512-abc", 42).size(1024).metadata("{\"a\":[1,2]}".to_string());
    let (rec, sri) = insert("key with spaces", opts, 7);
    assert_eq!(sri, "sha512-abc");
    let records = records_of(&encode_record(&rec));
    let e = find(&records, "key with spaces").unwrap();
    assert_eq!(e.integrity, "sha512-abc");
    assert_eq!(e.time, 42);
    assert_eq!(e.size, 1024);
    assert_eq!(e.metadata, "{\"a\":[1,2]}");
}

#[test]
fn insert_defaults() {
    let (rec, sri) = insert("hello", PutOpts::new(), 77);
    assert_eq!(sri, "sha1-deadbeef");
    assert_eq!(rec.integrity, None);
    assert_eq!(rec.time, 77);
    assert_eq!(rec.size, 0);
    assert_eq!(rec.metadata, "null");
    let t = delete("hello", 78);
    assert_eq!(t.integrity, None);
    assert_eq!(t.time, 78);
}

#[test]
fn unparsable_integrity_is_not_found() {
    let (a, _) = insert("k", opts_with("sha1-deadbeef", 1), 0);
    let (b, _) = insert("k", opts_with("md5-abc", 2), 0);
    let records = vec![a, b];
    assert_eq!(find(&records, "k"), None);
    assert_eq!(ls(&records), vec![]);
    assert!(to_entry(&records[0]).is_some());
    assert_eq!(to_entry(&records[1]), None);
}

#[test]
fn entry_from_record_follows_flag() {
    let (a, _) = insert("k", opts_with("sha1-deadbeef", 1), 0);
    assert_eq!(entry_from_record(&a, false), None);
    assert_eq!(entry_from_record(&a, true).unwrap().integrity, "sha1-deadbeef");
    assert_eq!(entry_from_record(&delete("k", 0), true), None);
}

#[test]
fn ls_collapses_and_filters() {
    let (a, _) = insert("k1", opts_with("sha1-aa", 1), 0);
    let (b, _) = insert("k2", opts_with("sha1-bb", 2), 0);
    let (c, _) = insert("k2", opts_with("sha1-cc", 3), 0);
    let records = vec![a, b, delete("k1", 4), c];
    let out = ls(&records);
    assert_eq!(out.len(), 1);
    assert_eq!(out[0].key, "k2");
    assert_eq!(out[0].integrity, "sha1-cc");
}

#[test]
fn ls_after_delete_keeps_other_key() {
    let mut keys = Vec::new();
    let (a, _) = insert("k1", opts_with("sha1-aa", 1), 0);
    let (b, _) = insert("k2", opts_with("sha1-bb", 2), 0);
    let buckets = vec![vec![a, delete("k1", 3)], vec![b]];
    for records in &buckets {
        for e in ls(records) {
            keys.push(e.key);
        }
    }
    assert_eq!(keys, vec![String::from("k2")]);
}
