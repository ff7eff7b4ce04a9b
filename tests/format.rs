use vdb::storage::{decode_entry, decode_header, decode_log, encode_entry, encode_header, encode_log, Decoded};
use vdb::{DbError, Header, Metadata, Metric, Params, StoredEntry, VectorDB};

fn entry(id: usize, vector: Vec<u32>, label: &str, description: Option<&str>, deleted: bool) -> StoredEntry {
    StoredEntry {
        id,
        vector,
        metadata: Metadata { label: label.to_string(), description: description.map(|d| d.to_string()) },
        deleted,
    }
}

#[test]
fn header_layout() {
    let h = Header { version: 1, metric: Metric::Euclidean, dim: 0x01020304 };
    let b = encode_header(&h);
    assert_eq!(b, vec![b'V', b'D', b'B', b'0', 1, 2, 4, 3, 2, 1]);
    let back = decode_header(&b).unwrap();
    assert_eq!(back.metric, Metric::Euclidean);
    assert_eq!(back.dim, 0x01020304);
    assert_eq!(back.version, 1);
    let c = encode_header(&Header { version: 1, metric: Metric::Cosine, dim: 0 });
    assert_eq!(c[5], 1);
}

#[test]
fn header_errors() {
    let mut b = encode_header(&Header { version: 1, metric: Metric::Cosine, dim: 3 });
    assert_eq!(decode_header(&b[..9]).unwrap_err(), DbError::InvalidFormat);
    b[4] = 2;
    assert_eq!(decode_header(&b).unwrap_err(), DbError::UnsupportedVersion);
    b[4] = 1;
    b[5] = 3;
    assert_eq!(decode_header(&b).unwrap_err(), DbError::InvalidFormat);
    b[5] = 1;
    b[0] = b'X';
    assert_eq!(decode_header(&b).unwrap_err(), DbError::InvalidFormat);
}

#[test]
fn entry_layout_and_round_trip() {
    let e = entry(7, vec![0x3f800000, 5], "ab", Some("é"), false);
    let b = encode_entry(&e);
    let mut want = vec![7, 0, 0, 0, 0, 0, 0, 0, 2, 0, 0, 0, 0, 0, 0x80, 0x3f, 5, 0, 0, 0];
    want.extend_from_slice(&[2, 0, 0, 0, 0, 0, 0, 0, b'a', b'b']);
    want.extend_from_slice(&[1, 2, 0, 0, 0, 0, 0, 0, 0, 0xc3, 0xa9]);
    want.push(0);
    assert_eq!(b, want);
    match decode_entry(&b, 0) {
        Decoded::Done(d, end) => {
            assert_eq!(end, b.len());
            assert_eq!(d.id, 7);
            assert_eq!(d.vector, vec![0x3f800000, 5]);
            assert_eq!(d.metadata.label, "ab");
            assert_eq!(d.metadata.description.as_deref(), Some("é"));
            assert!(!d.deleted);
        }
        _ => panic!("record not read back"),
    }
    match decode_entry(&b[..b.len() - 1], 0) {
        Decoded::Short => {}
        _ => panic!("a cut record is short"),
    }
}

#[test]
fn malformed_records() {
    let e = entry(1, vec![1], "x", None, false);
    let mut b = encode_entry(&e);
    let last = b.len() - 1;
    b[last] = 9;
    assert!(matches!(decode_entry(&b, 0), Decoded::Bad));
    let mut c = encode_entry(&entry(1, vec![1], "x", None, false));
    c[24] = 0xff;
    assert!(matches!(decode_entry(&c, 0), Decoded::Bad));
}

#[test]
fn log_round_trip_and_truncated_tail() {
    let h = Header { version: 1, metric: Metric::Cosine, dim: 2 };
    let es = vec![entry(1, vec![1, 2], "a", None, false), entry(2, vec![3, 4], "b", Some("d"), false)];
    let b = encode_log(&h, &es);
    let (h2, back) = decode_log(&b).unwrap();
    assert_eq!(h2.dim, 2);
    assert_eq!(back.len(), 2);
    assert_eq!(back[1].metadata.description.as_deref(), Some("d"));
    let (_, cut) = decode_log(&b[..b.len() - 3]).unwrap();
    assert_eq!(cut.len(), 1);
    let mut bad = b.clone();
    let n = bad.len();
    bad[n - 1] = 7;
    assert_eq!(decode_log(&bad).unwrap_err(), DbError::InvalidFormat);
}

#[test]
fn replay_applies_tombstones() {
    let h = Header { version: 1, metric: Metric::Euclidean, dim: 1 };
    let es = vec![
        entry(1, vec![10], "a", None, false),
        entry(2, vec![20], "b", None, false),
        entry(1, vec![], "", None, true),
        entry(2, vec![30], "b2", None, false),
    ];
    let b = encode_log(&h, &es);
    let db = VectorDB::open_with_params(&b, Metric::Euclidean, Params::default()).unwrap();
    let entries = db.entries();
    assert_eq!(entries.len(), 3);
    assert!(entries[0].deleted);
    assert!(entries[1].deleted);
    assert!(!entries[2].deleted);
    assert_eq!(entries[2].vector, vec![30]);
    let r = db.search(&[0], 5, &[vdb::Neighbor { index: 0, distance: 1 }, vdb::Neighbor { index: 2, distance: 2 }]).unwrap();
    assert_eq!(r.len(), 1);
    assert_eq!(r[0].id, 2);
}

#[test]
fn replay_rejects_wrong_dimension() {
    let h = Header { version: 1, metric: Metric::Euclidean, dim: 1 };
    let es = vec![entry(1, vec![10, 11], "a", None, false)];
    let b = encode_log(&h, &es);
    let err = VectorDB::open(&b, Metric::Euclidean).err().unwrap();
    assert_eq!(err, DbError::DimensionMismatch);
}

#[test]
fn create_writes_empty_header() {
    let (db, file) = VectorDB::create(Metric::Cosine, Params { ef_construction: 10, ef_search: 5 });
    assert_eq!(file, vec![b'V', b'D', b'B', b'0', 1, 1, 0, 0, 0, 0]);
    assert_eq!(db.dimension(), 0);
    assert_eq!(db.params().ef_search, 5);
    let p = Params::default();
    assert_eq!((p.ef_construction, p.ef_search), (200, 50));
    let m = Metadata::default();
    assert!(m.label.is_empty() && m.description.is_none());
}
