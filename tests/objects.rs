use sha1::Digest;
use std::io::Read;
use std::io::Write;
use gitstore::object::{
    decimal_bytes, decode_loose, encode_loose, object_path, parse_object, serialize_object,
    ObjectError, ObjectKind,
};
use gitstore::store::ObjectStore;

fn inflate_all(data: &[u8]) -> Vec<u8> {
    let mut out = Vec::new();
    flate2::read::ZlibDecoder::new(data).read_to_end(&mut out).unwrap();
    out
}

#[test]
fn hash_object_hello() {
    let loose = encode_loose(ObjectKind::Blob, b"hello");
    assert_eq!(loose.hex, b"b6fc4c620b67d95f953a5c1c1230aaab5db5a1b0".to_vec());
    assert_eq!(loose.hash, hex::decode("b6fc4c620b67d95f953a5c1c1230aaab5db5a1b0").unwrap());
    assert_eq!(
        object_path(&loose.hex),
        b"objects/b6/fc4c620b67d95f953a5c1c1230aaab5db5a1b0".to_vec()
    );
    assert_eq!(inflate_all(&loose.compressed), b"blob 5\0hello".to_vec());
    let back = decode_loose(&loose.compressed).unwrap();
    assert_eq!(back.kind, ObjectKind::Blob);
    assert_eq!(back.payload, b"hello".to_vec());
}

#[test]
fn loose_round_trip_all_kinds() {
    let payloads: Vec<Vec<u8>> = vec![
        vec![],
        b"x".to_vec(),
        vec![0u8; 10],
        (0..=255u8).collect(),
        vec![7u8; 1000],
    ];
    for kind in [ObjectKind::Blob, ObjectKind::Tree, ObjectKind::Commit, ObjectKind::Tag] {
        for p in &payloads {
            let loose = encode_loose(kind, p);
            let text = serialize_object(kind, p);
            let expected = {
                sha1::Sha1::digest(&text).to_vec()
            };
            assert_eq!(loose.hash, expected);
            assert_eq!(loose.hex, hex::encode(&expected).into_bytes());
            let back = decode_loose(&loose.compressed).unwrap();
            assert_eq!(back.kind, kind);
            assert_eq!(&back.payload, p);
        }
    }
}

#[test]
fn serialize_header_forms() {
    assert_eq!(serialize_object(ObjectKind::Tree, b""), b"tree 0\0".to_vec());
    assert_eq!(serialize_object(ObjectKind::Commit, b"ab"), b"commit 2\0ab".to_vec());
    assert_eq!(serialize_object(ObjectKind::Tag, b"abc"), b"tag 3\0abc".to_vec());
    assert_eq!(decimal_bytes(0), b"0".to_vec());
    assert_eq!(decimal_bytes(1234567890), b"1234567890".to_vec());
}

#[test]
fn parse_object_rejects_bad_headers() {
    assert_eq!(parse_object(b"blob 5\0hell").unwrap_err(), ObjectError::Corrupt);
    assert_eq!(parse_object(b"blob 5\0hello!").unwrap_err(), ObjectError::Corrupt);
    assert_eq!(parse_object(b"blub 5\0hello").unwrap_err(), ObjectError::Corrupt);
    assert_eq!(parse_object(b"blob x\0hello").unwrap_err(), ObjectError::Corrupt);
    assert_eq!(parse_object(b"blob \0").unwrap_err(), ObjectError::Corrupt);
    assert_eq!(parse_object(b"blob5\0hello").unwrap_err(), ObjectError::Corrupt);
    assert_eq!(parse_object(b"blob 5 hello").unwrap_err(), ObjectError::Corrupt);
    assert_eq!(
        parse_object(b"blob 99999999999999999999999\0").unwrap_err(),
        ObjectError::Corrupt
    );
    let ok = parse_object(b"tag 0\0").unwrap();
    assert_eq!(ok.kind, ObjectKind::Tag);
    assert!(ok.payload.is_empty());
}

#[test]
fn decode_loose_rejects_garbage() {
    assert_eq!(decode_loose(b"not zlib").unwrap_err(), ObjectError::Corrupt);
    let mut bad = Vec::new();
    {
        let mut e = flate2::write::ZlibEncoder::new(&mut bad, flate2::Compression::default());
        e.write_all(b"blob 3\0hello").unwrap();
        e.finish().unwrap();
    }
    assert_eq!(decode_loose(&bad).unwrap_err(), ObjectError::Corrupt);
}

#[test]
fn store_write_is_idempotent() {
    let mut store = ObjectStore::new();
    let h1 = store.write(ObjectKind::Blob, b"hello".to_vec());
    assert_eq!(store.len(), 1);
    let snapshot: Vec<(Vec<u8>, ObjectKind, Vec<u8>)> = (0..store.len())
        .map(|i| {
            let o = store.get(i);
            (o.hash.clone(), o.kind, o.payload.clone())
        })
        .collect();
    let h2 = store.write(ObjectKind::Blob, b"hello".to_vec());
    assert_eq!(h1, h2);
    assert_eq!(store.len(), 1);
    let o = store.get(0);
    assert_eq!((o.hash.clone(), o.kind, o.payload.clone()), snapshot[0]);
    assert_eq!(store.find(&h1), Some(0));
    let h3 = store.write(ObjectKind::Tree, b"hello".to_vec());
    assert_ne!(h1, h3);
    assert_eq!(store.len(), 2);
}
