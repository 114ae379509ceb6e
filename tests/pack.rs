use mini_git::error::GitError;
use mini_git::objects::{GitObject, Kind};
use mini_git::pack::{entry_base_id, pack_count, read_entry};
use std::io::Write;

fn unpack(data: &[u8]) -> (Vec<GitObject>, Result<(), GitError>) {
    mini_git::pack::unpack(data, &Vec::new())
}

fn deflate(data: &[u8]) -> Vec<u8> {
    let mut e = flate2::write::ZlibEncoder::new(Vec::new(), flate2::Compression::default());
    e.write_all(data).unwrap();
    e.finish().unwrap()
}

fn header(tag: u8, size: usize) -> Vec<u8> {
    let mut out = Vec::new();
    let mut b = (tag << 4) | (size & 15) as u8;
    let mut rest = size >> 4;
    while rest > 0 {
        out.push(b | 0x80);
        b = (rest & 0x7f) as u8;
        rest >>= 7;
    }
    out.push(b);
    out
}

fn pack(entries: &[Vec<u8>]) -> Vec<u8> {
    let mut p = b"PACK".to_vec();
    p.extend_from_slice(&2u32.to_be_bytes());
    p.extend_from_slice(&(entries.len() as u32).to_be_bytes());
    for e in entries {
        p.extend_from_slice(e);
    }
    p
}

fn direct(tag: u8, content: &[u8]) -> Vec<u8> {
    let mut e = header(tag, content.len());
    e.extend_from_slice(&deflate(content));
    e
}

fn ref_delta(base: &GitObject, delta: &[u8]) -> Vec<u8> {
    let mut e = header(7, delta.len());
    e.extend_from_slice(base.hash());
    e.extend_from_slice(&deflate(delta));
    e
}

#[test]
fn empty_pack_gives_nothing() {
    let (objs, r) = unpack(&pack(&[]));
    assert!(objs.is_empty());
    assert_eq!(r, Ok(()));
}

#[test]
fn wrong_signature_fails_before_any_object() {
    let mut p = pack(&[direct(3, b"x")]);
    p[0] = b'X';
    let (objs, r) = unpack(&p);
    assert!(objs.is_empty());
    assert_eq!(r, Err(GitError::MalformedPack));
}

#[test]
fn wrong_version_and_short_input_fail() {
    let mut p = pack(&[]);
    p[7] = 3;
    assert_eq!(unpack(&p).1, Err(GitError::MalformedPack));
    assert_eq!(unpack(b"PACK\0\0").1, Err(GitError::MalformedPack));
}

#[test]
fn commit_tree_blob_give_three_objects() {
    let b = GitObject::build(Kind::Blob, b"hi\n".to_vec()).unwrap();
    let mut tree = b"100644 hi.txt\0".to_vec();
    tree.extend_from_slice(b.hash());
    let t = GitObject::build(Kind::Tree, tree.clone()).unwrap();
    let commit = format!("tree {}\n\nm\n", t.hex_string());
    let (objs, r) = unpack(&pack(&[direct(1, commit.as_bytes()), direct(2, &tree), direct(3, b"hi\n")]));
    assert_eq!(r, Ok(()));
    assert_eq!(objs.len(), 3);
    assert_eq!(*objs[0].kind(), Kind::Commit);
    assert_eq!(objs[1].hex_string(), t.hex_string());
    assert_eq!(objs[2].hex_string(), b.hex_string());
    for o in &objs {
        let stored = o.stored_form().unwrap();
        let back = GitObject::from_hex_string(&o.hex_string(), &stored).unwrap();
        assert_eq!(back.kind(), o.kind());
        assert_eq!(back.contents(), o.contents());
    }
}

#[test]
fn empty_direct_entry_consumes_its_stream() {
    let (objs, r) = unpack(&pack(&[direct(3, b""), direct(3, b"z")]));
    assert_eq!(r, Ok(()));
    assert_eq!(objs.len(), 2);
    assert_eq!(objs[0].hex_string(), "e69de29bb2d1d6434b8b29ae775ad8c2e48c5391");
    assert_eq!(objs[1].contents(), &b"z".to_vec());
}

#[test]
fn large_entry_size_uses_continuation_bytes() {
    let content = vec![b'q'; 5000];
    let (objs, r) = unpack(&pack(&[direct(3, &content)]));
    assert_eq!(r, Ok(()));
    assert_eq!(objs[0].contents(), &content);
}

#[test]
fn ref_delta_resolves_against_earlier_entry() {
    let base = GitObject::build(Kind::Blob, b"hello world".to_vec()).unwrap();
    let delta = vec![11u8, 9, 0x90, 6, 3, b'!', b'!', b'!'];
    let (objs, r) = unpack(&pack(&[direct(3, b"hello world"), ref_delta(&base, &delta)]));
    assert_eq!(r, Ok(()));
    assert_eq!(objs.len(), 2);
    assert_eq!(*objs[1].kind(), Kind::Blob);
    assert_eq!(objs[1].contents(), &b"hello !!!".to_vec());
}

#[test]
fn delta_takes_kind_of_base() {
    let t = GitObject::build(Kind::Tree, Vec::new()).unwrap();
    let (objs, r) = unpack(&pack(&[direct(2, b""), ref_delta(&t, &[0, 0])]));
    assert_eq!(r, Ok(()));
    assert_eq!(*objs[1].kind(), Kind::Tree);
}

#[test]
fn missing_delta_base_is_dangling() {
    let other = GitObject::build(Kind::Blob, b"elsewhere".to_vec()).unwrap();
    let (objs, r) = unpack(&pack(&[direct(3, b"a"), ref_delta(&other, &[9, 9, 0x90, 9])]));
    assert_eq!(objs.len(), 1);
    assert_eq!(r, Err(GitError::DanglingDeltaBase));
}

#[test]
fn unknown_tag_is_unsupported() {
    let (objs, r) = unpack(&pack(&[direct(3, b"a"), direct(6, b"b")]));
    assert_eq!(objs.len(), 1);
    assert_eq!(r, Err(GitError::UnsupportedPackEntry));
}

#[test]
fn broken_stream_is_corrupt() {
    let mut e = header(3, 4);
    e.extend_from_slice(b"nope");
    let (objs, r) = unpack(&pack(&[e]));
    assert!(objs.is_empty());
    assert_eq!(r, Err(GitError::Corrupt));
}

#[test]
fn size_mismatch_and_missing_entries_are_malformed() {
    let mut e = header(3, 2);
    e.extend_from_slice(&deflate(b"abc"));
    assert_eq!(unpack(&pack(&[e])).1, Err(GitError::MalformedPack));
    let mut p = pack(&[direct(3, b"a")]);
    p[11] = 2;
    let (objs, r) = unpack(&p);
    assert_eq!(objs.len(), 1);
    assert_eq!(r, Err(GitError::MalformedPack));
}

#[test]
fn bad_delta_in_pack_is_malformed_delta() {
    let base = GitObject::build(Kind::Blob, b"abc".to_vec()).unwrap();
    let (_, r) = unpack(&pack(&[direct(3, b"abc"), ref_delta(&base, &[3, 9, 0x90, 3])]));
    assert_eq!(r, Err(GitError::MalformedDelta));
}

#[test]
fn full_copy_delta_resolves_against_stored_base() {
    let base = GitObject::build(Kind::Tree, b"100644 a\0aaaaaaaaaaaaaaaaaaaa".to_vec()).unwrap();
    let n = base.contents().len() as u8;
    let data = pack(&[ref_delta(&base, &[n, n, 0x90, n])]);
    let (objs, r) = mini_git::pack::unpack(&data, &vec![GitObject::build(Kind::Tree, base.contents().clone()).unwrap()]);
    assert_eq!(r, Ok(()));
    assert_eq!(objs.len(), 1);
    assert_eq!(*objs[0].kind(), Kind::Tree);
    assert_eq!(objs[0].hex_string(), base.hex_string());
    let (objs2, r2) = unpack(&data);
    assert!(objs2.is_empty());
    assert_eq!(r2, Err(GitError::DanglingDeltaBase));
}

#[test]
fn stored_base_with_other_id_is_dangling() {
    let base = GitObject::build(Kind::Blob, b"abc".to_vec()).unwrap();
    let other = GitObject::build(Kind::Blob, b"abd".to_vec()).unwrap();
    let data = pack(&[ref_delta(&base, &[3, 3, 0x90, 3])]);
    let (_, r) = mini_git::pack::unpack(&data, &vec![other]);
    assert_eq!(r, Err(GitError::DanglingDeltaBase));
}

#[test]
fn entries_can_be_read_one_by_one() {
    let base = GitObject::build(Kind::Blob, b"hello world".to_vec()).unwrap();
    let data = pack(&[direct(3, b"x"), ref_delta(&base, &[11, 5, 0x90, 5])]);
    assert_eq!(pack_count(&data), Ok(2));
    assert_eq!(entry_base_id(&data, 12), None);
    let (first, next) = read_entry(&data, 12, &Vec::new(), &Vec::new()).unwrap();
    assert_eq!(first.contents(), &b"x".to_vec());
    assert_eq!(entry_base_id(&data, next), Some(base.hash().clone()));
    let earlier = vec![first];
    assert_eq!(read_entry(&data, next, &earlier, &Vec::new()).unwrap_err(), GitError::DanglingDeltaBase);
    let stored = vec![GitObject::build(Kind::Blob, b"hello world".to_vec()).unwrap()];
    let (second, end) = read_entry(&data, next, &earlier, &stored).unwrap();
    assert_eq!(second.contents(), &b"hello".to_vec());
    assert_eq!(end, data.len());
}

#[test]
fn pack_count_checks_header() {
    assert_eq!(pack_count(b"PACK\0\0\0\x02\0\0\x01\x05"), Ok(261));
    assert_eq!(pack_count(b"XACK\0\0\0\x02\0\0\0\0"), Err(GitError::MalformedPack));
    assert_eq!(pack_count(b"PACK\0\0\0\x03\0\0\0\0"), Err(GitError::MalformedPack));
    assert_eq!(pack_count(b"PACK"), Err(GitError::MalformedPack));
}
