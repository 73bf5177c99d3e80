use sha1::Digest;
use std::io::Write;
use gitstore::commit::{commit_payload, commit_tree, Signature};
use gitstore::fetch::{parse_advertisement, strip_nak, upload_request};
use gitstore::object::{encode_loose, serialize_object, ObjectKind};
use gitstore::pack::decode_pack;
use gitstore::pkt::{flush_pkt, pkt_line};
use gitstore::store::ObjectStore;
use gitstore::tree::{
    build_tree, mode_kind, parse_tree, sort_entries, tree_entry_lt, write_tree, DirEntry,
    EntryKind,
};

fn entry(name: &str, kind: EntryKind, fill: u8) -> DirEntry {
    DirEntry { name: name.as_bytes().to_vec(), kind, hash: vec![fill; 20] }
}

fn names(es: &[DirEntry]) -> Vec<Vec<u8>> {
    es.iter().map(|e| e.name.clone()).collect()
}

fn sig() -> Signature {
    Signature { ident: b"T <t@e>".to_vec(), seconds: 0, tz: b"+0000".to_vec() }
}

#[test]
fn canonical_sort_directory_as_slash() {
    assert!(tree_entry_lt(b"ab.c", EntryKind::File, b"ab", EntryKind::Directory));
    assert!(!tree_entry_lt(b"ab", EntryKind::Directory, b"ab.c", EntryKind::File));
    assert!(tree_entry_lt(b"ab", EntryKind::File, b"ab.c", EntryKind::File));
    assert!(!tree_entry_lt(b"ab", EntryKind::File, b"ab", EntryKind::File));
    assert!(tree_entry_lt(b"a", EntryKind::File, b"b", EntryKind::Directory));
    let sorted = sort_entries(vec![
        entry("ab", EntryKind::Directory, 1),
        entry("ab.c", EntryKind::File, 2),
    ]);
    assert_eq!(names(&sorted), vec![b"ab.c".to_vec(), b"ab".to_vec()]);
    let sorted = sort_entries(vec![entry("ab.c", EntryKind::File, 2), entry("ab", EntryKind::File, 1)]);
    assert_eq!(names(&sorted), vec![b"ab".to_vec(), b"ab.c".to_vec()]);
}

#[test]
fn ls_tree_single_readme() {
    let blob = encode_loose(ObjectKind::Blob, b"hello");
    let readme = DirEntry { name: b"README".to_vec(), kind: EntryKind::File, hash: blob.hash.clone() };
    let payload = build_tree(&vec![readme]);
    let mut want = b"100644 README\0".to_vec();
    want.extend_from_slice(&blob.hash);
    assert_eq!(payload, want);
    assert_eq!(payload.len(), 34);
    let text = serialize_object(ObjectKind::Tree, &payload);
    assert_eq!(&text[..8], b"tree 34\0");
    let tree = encode_loose(ObjectKind::Tree, &payload);
    assert_eq!(tree.hex, b"98c71edab7411252f7bf265212d8499e5e31e746".to_vec());
    let lines = parse_tree(&payload).unwrap();
    assert_eq!(lines.len(), 1);
    assert_eq!(lines[0].mode, b"100644".to_vec());
    assert_eq!(lines[0].name, b"README".to_vec());
    assert_eq!(lines[0].hash, blob.hash);
    assert_eq!(mode_kind(&lines[0].mode), Some(EntryKind::File));
}

#[test]
fn tree_determinism_and_git_dir() {
    let a = vec![
        entry("zeta", EntryKind::File, 1),
        entry(".git", EntryKind::Directory, 9),
        entry("alpha", EntryKind::Executable, 2),
        entry("mid", EntryKind::Directory, 3),
    ];
    let b = vec![
        entry("mid", EntryKind::Directory, 3),
        entry("alpha", EntryKind::Executable, 2),
        entry("zeta", EntryKind::File, 1),
    ];
    let pa = build_tree(&a);
    let pb = build_tree(&b);
    assert_eq!(pa, pb);
    let lines = parse_tree(&pa).unwrap();
    let got: Vec<(Vec<u8>, Vec<u8>)> = lines.iter().map(|l| (l.mode.clone(), l.name.clone())).collect();
    assert_eq!(
        got,
        vec![
            (b"100755".to_vec(), b"alpha".to_vec()),
            (b"40000".to_vec(), b"mid".to_vec()),
            (b"100644".to_vec(), b"zeta".to_vec()),
        ]
    );
    let mut store = ObjectStore::new();
    let h1 = write_tree(&mut store, &a);
    let h2 = write_tree(&mut store, &b);
    assert_eq!(h1, h2);
    assert_eq!(store.len(), 1);
    assert_eq!(h1, encode_loose(ObjectKind::Tree, &pa).hash);
}

#[test]
fn tree_parse_errors_and_modes() {
    assert!(parse_tree(b"100644 README\0short").is_err());
    assert!(parse_tree(b"100644README\0aaaaaaaaaaaaaaaaaaaa").is_err());
    assert!(parse_tree(b"").unwrap().is_empty());
    assert_eq!(mode_kind(b"40000"), Some(EntryKind::Directory));
    assert_eq!(mode_kind(b"100755"), Some(EntryKind::Executable));
    assert_eq!(mode_kind(b"120000"), None);
    assert_eq!(mode_kind(b"160000"), None);
}

#[test]
fn commit_tree_golden() {
    let tree = b"4b825dc642cb6eb9a060e54bf8d69288fbee4904".to_vec();
    let payload = commit_payload(&tree, &vec![], &sig(), &sig(), b"m\n");
    let want = b"tree 4b825dc642cb6eb9a060e54bf8d69288fbee4904\nauthor T <t@e> 0 +0000\ncommitter T <t@e> 0 +0000\n\nm\n\n".to_vec();
    assert_eq!(payload, want);
    let c = encode_loose(ObjectKind::Commit, &payload);
    assert_eq!(c.hex, b"bc76a626629ab163bf2f64e353fe3cd4a9264a06".to_vec());
    assert_eq!(commit_tree(&payload), Some(tree.clone()));
    let parent = b"bc76a626629ab163bf2f64e353fe3cd4a9264a06".to_vec();
    let with_parent = commit_payload(&tree, &vec![parent], &sig(), &sig(), b"m");
    let text = String::from_utf8(with_parent).unwrap();
    assert!(text.contains("\nparent bc76a626629ab163bf2f64e353fe3cd4a9264a06\nauthor "));
    assert!(text.ends_with("\n\nm\n"));
    assert_eq!(commit_tree(b"tree xyz\n"), None);
}

#[test]
fn clone_from_recorded_exchange() {
    let blob = b"hello".to_vec();
    let blob_hash = encode_loose(ObjectKind::Blob, &blob).hash;
    let tree = build_tree(&vec![DirEntry {
        name: b"README".to_vec(),
        kind: EntryKind::File,
        hash: blob_hash.clone(),
    }]);
    let tree_hex = encode_loose(ObjectKind::Tree, &tree).hex;
    let commit = commit_payload(&tree_hex, &vec![], &sig(), &sig(), b"m");
    let commit_hex = encode_loose(ObjectKind::Commit, &commit).hex;

    let mut refs = Vec::new();
    refs.extend(pkt_line(b"# service=git-upload-pack\n"));
    refs.extend(flush_pkt());
    let mut head = commit_hex.clone();
    head.extend_from_slice(b" HEAD\0\n");
    refs.extend(pkt_line(&head));
    refs.extend(flush_pkt());
    let ad = parse_advertisement(&refs).unwrap();
    assert_eq!(ad.head, commit_hex);
    let wants: Vec<Vec<u8>> = ad.refs.iter().map(|r| r.hash.clone()).collect();
    let request = upload_request(&wants);
    assert!(request.starts_with(b"0032want "));

    let mut pack = b"PACK".to_vec();
    pack.extend(2u32.to_be_bytes());
    pack.extend(3u32.to_be_bytes());
    for (code, payload) in [(1u8, &commit), (2u8, &tree), (3u8, &blob)] {
        assert!(payload.len() < 16 * 128);
        pack.push(0x80 | (code << 4) | (payload.len() & 0x0f) as u8);
        pack.push((payload.len() >> 4) as u8);
        let mut e = flate2::write::ZlibEncoder::new(Vec::new(), flate2::Compression::default());
        e.write_all(payload).unwrap();
        pack.extend(e.finish().unwrap());
    }
    let digest = {
        sha1::Sha1::digest(&pack).to_vec()
    };
    pack.extend(digest);
    let mut reply = b"0008NAK\n".to_vec();
    reply.extend(pack);

    let data = strip_nak(&reply).unwrap();
    let mut store = ObjectStore::new();
    let summary = decode_pack(&data, &mut store).unwrap();
    assert_eq!(summary.hashes.len(), 3);
    assert_eq!(store.len(), 3);
    let head_pos = store.find(&hex::decode(&ad.head).unwrap()).unwrap();
    let root_hex = commit_tree(&store.get(head_pos).payload).unwrap();
    let root = store.find(&hex::decode(&root_hex).unwrap()).unwrap();
    let lines = parse_tree(&store.get(root).payload).unwrap();
    assert_eq!(lines[0].name, b"README".to_vec());
    let file = store.find(&lines[0].hash).unwrap();
    assert_eq!(store.get(file).payload, b"hello".to_vec());
}
