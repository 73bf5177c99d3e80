use sha1::Digest;
use std::io::Write;
use gitstore::delta::{parse_delta, read_varint, resolve_delta, DeltaError, DeltaOp};
use gitstore::object::{encode_loose, ObjectKind};
use gitstore::pack::{decode_pack, parse_header, read_entry_header, read_ofs, verify_checksum, PackError};
use gitstore::store::ObjectStore;

fn zlib(data: &[u8]) -> Vec<u8> {
    let mut e = flate2::write::ZlibEncoder::new(Vec::new(), flate2::Compression::default());
    e.write_all(data).unwrap();
    e.finish().unwrap()
}

fn sha1(data: &[u8]) -> Vec<u8> {
    sha1::Sha1::digest(data).to_vec()
}

fn entry_header(code: u8, size: usize) -> Vec<u8> {
    let mut out = Vec::new();
    let mut b = (code << 4) | (size & 0x0f) as u8;
    let mut rest = size >> 4;
    while rest > 0 {
        out.push(b | 0x80);
        b = (rest & 0x7f) as u8;
        rest >>= 7;
    }
    out.push(b);
    out
}

fn whole(code: u8, payload: &[u8]) -> Vec<u8> {
    let mut e = entry_header(code, payload.len());
    e.extend(zlib(payload));
    e
}

fn ref_delta(base: &[u8], delta: &[u8]) -> Vec<u8> {
    let mut e = entry_header(7, delta.len());
    e.extend_from_slice(base);
    e.extend(zlib(delta));
    e
}

fn ofs_bytes(mut ofs: usize) -> Vec<u8> {
    let mut out = vec![(ofs & 0x7f) as u8];
    ofs >>= 7;
    while ofs > 0 {
        ofs -= 1;
        out.insert(0, 0x80 | (ofs & 0x7f) as u8);
        ofs >>= 7;
    }
    out
}

fn pack(count: u32, entries: &[Vec<u8>]) -> Vec<u8> {
    let mut p = b"PACK".to_vec();
    p.extend(2u32.to_be_bytes());
    p.extend(count.to_be_bytes());
    for e in entries {
        p.extend_from_slice(e);
    }
    let digest = sha1(&p);
    p.extend(digest);
    p
}

fn hash_of(kind: ObjectKind, payload: &[u8]) -> Vec<u8> {
    encode_loose(kind, payload).hash
}

const BASE16: &[u8] = b"0123456789abcdef";

fn example_delta() -> Vec<u8> {
    vec![0x10, 0x13, 0x90, 0x08, 0x03, b'X', b'Y', b'Z', 0x91, 0x08, 0x08]
}

#[test]
fn delta_copy_insert_copy() {
    let d = parse_delta(&example_delta()).unwrap();
    assert_eq!(d.base_size, 16);
    assert_eq!(d.result_size, 19);
    assert_eq!(
        d.ops,
        vec![
            DeltaOp::Copy { offset: 0, size: 8 },
            DeltaOp::Insert(b"XYZ".to_vec()),
            DeltaOp::Copy { offset: 8, size: 8 },
        ]
    );
    let out = resolve_delta(BASE16, &example_delta()).unwrap();
    assert_eq!(out, b"01234567XYZ89abcdef".to_vec());
    assert_eq!(out.len(), 8 + 3 + 8);
}

#[test]
fn delta_size_zero_means_65536() {
    let base = vec![5u8; 70000];
    let delta = vec![0xf0, 0xa2, 0x04, 0x80, 0x80, 0x04, 0x80];
    let d = parse_delta(&delta).unwrap();
    assert_eq!(d.ops, vec![DeltaOp::Copy { offset: 0, size: 0x10000 }]);
    let out = resolve_delta(&base, &delta).unwrap();
    assert_eq!(out.len(), 65536);
}

#[test]
fn delta_errors() {
    assert_eq!(resolve_delta(BASE16, &[0x10, 0x01, 0x00]).unwrap_err(), DeltaError::Corrupt);
    assert_eq!(resolve_delta(BASE16, &[0x10, 0x05, 0x05, b'a']).unwrap_err(), DeltaError::Corrupt);
    assert_eq!(
        resolve_delta(BASE16, &[0x10, 0x08, 0x91, 0x0c, 0x08]).unwrap_err(),
        DeltaError::OutOfBounds
    );
    assert_eq!(resolve_delta(BASE16, &[0x10, 0x04, 0x90, 0x08]).unwrap_err(), DeltaError::Corrupt);
    assert_eq!(resolve_delta(BASE16, &[0x90]).unwrap_err(), DeltaError::Corrupt);
    assert_eq!(read_varint(&[0xe5, 0x8e, 0x26], 0), Some((624485, 3)));
    assert_eq!(read_varint(&[0x80, 0x80], 0), None);
}

#[test]
fn entry_header_shifts_by_seven_plus_four() {
    assert_eq!(read_entry_header(&[0x35], 0), Some((3, 5, 1)));
    assert_eq!(read_entry_header(&[0x9f, 0x01], 0), Some((1, 31, 2)));
    assert_eq!(read_entry_header(&[0xb0, 0x80, 0x01], 0), Some((3, 2048, 3)));
    assert_eq!(read_entry_header(&[0xb0], 0), None);
}

#[test]
fn offset_varint_adds_one_per_continuation() {
    assert_eq!(read_ofs(&[0x05], 0), Some((5, 1)));
    assert_eq!(read_ofs(&[0x80, 0x00], 0), Some((128, 2)));
    assert_eq!(read_ofs(&[0x81, 0x7f], 0), Some((383, 2)));
    assert_eq!(read_ofs(&ofs_bytes(100000), 0), Some((100000, ofs_bytes(100000).len())));
    assert_eq!(read_ofs(&[0x80], 0), None);
}

#[test]
fn pack_round_trip() {
    let blob = b"file contents\n".to_vec();
    let blob_hash = hash_of(ObjectKind::Blob, &blob);
    let mut tree = b"100644 a.txt\0".to_vec();
    tree.extend_from_slice(&blob_hash);
    let tree_hash = hash_of(ObjectKind::Tree, &tree);
    let commit = format!(
        "tree {}\nauthor T <t@e> 0 +0000\ncommitter T <t@e> 0 +0000\n\nm\n",
        hex::encode(&tree_hash)
    )
    .into_bytes();
    let commit_hash = hash_of(ObjectKind::Commit, &commit);
    let data = pack(3, &[whole(1, &commit), whole(2, &tree), whole(3, &blob)]);
    assert!(verify_checksum(&data));
    let header = parse_header(&data).unwrap();
    assert_eq!(header.version, 2);
    assert_eq!(header.objects, 3);
    assert_eq!(header.signature, b"PACK".to_vec());
    let mut store = ObjectStore::new();
    let summary = decode_pack(&data, &mut store).unwrap();
    assert_eq!(summary.header.objects, 3);
    assert_eq!(summary.hashes, vec![commit_hash.clone(), tree_hash.clone(), blob_hash.clone()]);
    assert_eq!(store.len(), 3);
    assert_eq!(store.get(0).kind, ObjectKind::Commit);
    assert_eq!(store.get(0).payload, commit);
    assert_eq!(store.get(1).kind, ObjectKind::Tree);
    assert_eq!(store.get(1).payload, tree);
    assert_eq!(store.get(2).kind, ObjectKind::Blob);
    assert_eq!(store.get(2).payload, blob);
}

#[test]
fn ref_delta_against_earlier_entry() {
    let base_hash = hash_of(ObjectKind::Blob, BASE16);
    let data = pack(2, &[whole(3, BASE16), ref_delta(&base_hash, &example_delta())]);
    let mut store = ObjectStore::new();
    let summary = decode_pack(&data, &mut store).unwrap();
    assert_eq!(summary.hashes.len(), 2);
    let want = b"01234567XYZ89abcdef".to_vec();
    assert_eq!(summary.hashes[1], hash_of(ObjectKind::Blob, &want));
    assert_eq!(store.get(1).kind, ObjectKind::Blob);
    assert_eq!(store.get(1).payload, want);
}

#[test]
fn ref_delta_against_stored_object() {
    let mut store = ObjectStore::new();
    let base_hash = store.write(ObjectKind::Blob, BASE16.to_vec());
    let data = pack(1, &[ref_delta(&base_hash, &example_delta())]);
    let summary = decode_pack(&data, &mut store).unwrap();
    assert_eq!(store.len(), 2);
    assert_eq!(store.get(1).payload, b"01234567XYZ89abcdef".to_vec());
    assert_eq!(summary.hashes[0], store.get(1).hash);
}

#[test]
fn ofs_delta_against_earlier_entry() {
    let first = whole(3, BASE16);
    let mut second = entry_header(6, example_delta().len());
    second.extend(ofs_bytes(first.len()));
    second.extend(zlib(&example_delta()));
    let data = pack(2, &[first, second]);
    let mut store = ObjectStore::new();
    decode_pack(&data, &mut store).unwrap();
    assert_eq!(store.len(), 2);
    assert_eq!(store.get(1).kind, ObjectKind::Blob);
    assert_eq!(store.get(1).payload, b"01234567XYZ89abcdef".to_vec());
}

#[test]
fn pack_checksum_failure_leaves_store_unchanged() {
    let data = pack(1, &[whole(3, b"hello")]);
    for i in 0..data.len() - 20 {
        let mut bad = data.clone();
        bad[i] ^= 0x01;
        let mut store = ObjectStore::new();
        store.write(ObjectKind::Blob, b"kept".to_vec());
        assert_eq!(decode_pack(&bad, &mut store).unwrap_err(), PackError::ChecksumMismatch);
        assert_eq!(store.len(), 1);
    }
}

#[test]
fn pack_errors() {
    let mut store = ObjectStore::new();
    assert_eq!(decode_pack(b"short", &mut store).unwrap_err(), PackError::ChecksumMismatch);
    let mut wrong_sig = b"PACX".to_vec();
    wrong_sig.extend(2u32.to_be_bytes());
    wrong_sig.extend(0u32.to_be_bytes());
    let d = sha1(&wrong_sig);
    wrong_sig.extend(d);
    assert_eq!(decode_pack(&wrong_sig, &mut store).unwrap_err(), PackError::BadSignature);
    let mut wrong_ver = b"PACK".to_vec();
    wrong_ver.extend(3u32.to_be_bytes());
    wrong_ver.extend(0u32.to_be_bytes());
    let d = sha1(&wrong_ver);
    wrong_ver.extend(d);
    assert_eq!(decode_pack(&wrong_ver, &mut store).unwrap_err(), PackError::BadVersion);
    let mut tiny = b"PACK".to_vec();
    let d = sha1(&tiny);
    tiny.extend(d);
    assert_eq!(decode_pack(&tiny, &mut store).unwrap_err(), PackError::ShortPack);
    let extra = pack(0, &[whole(3, b"x")]);
    assert_eq!(decode_pack(&extra, &mut store).unwrap_err(), PackError::ExtraBytes);
    let short = pack(2, &[whole(3, b"x")]);
    assert_eq!(decode_pack(&short, &mut store).unwrap_err(), PackError::ShortPack);
    let unknown = pack(1, &[whole(5, b"x")]);
    assert_eq!(decode_pack(&unknown, &mut store).unwrap_err(), PackError::UnknownType);
    let missing = pack(1, &[ref_delta(&[0u8; 20], &example_delta())]);
    assert_eq!(decode_pack(&missing, &mut store).unwrap_err(), PackError::BaseNotFound);
    let mut wrong_size = entry_header(3, 4);
    wrong_size.extend(zlib(b"hello"));
    assert_eq!(decode_pack(&pack(1, &[wrong_size]), &mut store).unwrap_err(), PackError::Corrupt);
    let base_hash = hash_of(ObjectKind::Blob, b"tiny");
    let oob = vec![0x04, 0x08, 0x91, 0x02, 0x08];
    let data = pack(2, &[whole(3, b"tiny"), ref_delta(&base_hash, &oob)]);
    assert_eq!(decode_pack(&data, &mut store).unwrap_err(), PackError::DeltaOutOfBounds);
}
