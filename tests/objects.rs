use mini_git::checkout::RestoreStep;
use mini_git::delta::{read_varint, resolve_delta};
use mini_git::error::GitError;
use mini_git::objects::{hex_of, object_path, parse_loose, GitObject, Kind};
use mini_git::tree::{Mode, TreeEntry};
use std::io::Write;

fn deflate(data: &[u8]) -> Vec<u8> {
    let mut e = flate2::write::ZlibEncoder::new(Vec::new(), flate2::Compression::default());
    e.write_all(data).unwrap();
    e.finish().unwrap()
}

fn blob(content: &[u8]) -> GitObject {
    GitObject::build(Kind::Blob, content.to_vec()).unwrap()
}

#[test]
fn blob_hello_has_fixed_id() {
    let o = blob(b"hello\n");
    assert_eq!(o.hex_string(), "ce013625030ba8dba906f756967f9e9ca394464a");
    assert_eq!(o.hash().len(), 20);
}

#[test]
fn empty_blob_has_fixed_id() {
    assert_eq!(blob(b"").hex_string(), "e69de29bb2d1d6434b8b29ae775ad8c2e48c5391");
}

#[test]
fn store_round_trip_keeps_kind_and_content() {
    for content in [&b""[..], &b"hello\n"[..], &[0u8, 1, 2, 255, 0][..]] {
        let o = blob(content);
        let stored = o.stored_form().unwrap();
        let back = GitObject::from_hex_string(&o.hex_string(), &stored).unwrap();
        assert_eq!(*back.kind(), Kind::Blob);
        assert_eq!(back.contents().as_slice(), content);
        assert_eq!(back.hex_string(), o.hex_string());
    }
}

#[test]
fn stored_form_inflates_to_loose_encoding() {
    let o = blob(b"abc");
    let stored = o.stored_form().unwrap();
    assert_ne!(stored, b"blob 3\0abc".to_vec());
    let mut d = flate2::read::ZlibDecoder::new(stored.as_slice());
    let mut raw = Vec::new();
    std::io::Read::read_to_end(&mut d, &mut raw).unwrap();
    assert_eq!(raw, b"blob 3\0abc".to_vec());
}

#[test]
fn store_path_splits_hex_id() {
    let o = blob(b"hello\n");
    let (dir, file) = o.store_path();
    assert_eq!(dir, "ce");
    assert_eq!(file, "013625030ba8dba906f756967f9e9ca394464a");
    let (d2, f2) = object_path("CE013625030BA8DBA906F756967F9E9CA394464A").unwrap();
    assert_eq!((d2, f2), (dir, file));
}

#[test]
fn bad_hex_is_invalid_argument() {
    assert_eq!(object_path("xyz").unwrap_err(), GitError::InvalidArgument);
    assert_eq!(object_path("abcd").unwrap_err(), GitError::InvalidArgument);
    let stored = blob(b"x").stored_form().unwrap();
    assert_eq!(GitObject::from_hex_string("zz", &stored).unwrap_err(), GitError::InvalidArgument);
}

#[test]
fn undecodable_store_file_is_corrupt() {
    let hex = blob(b"x").hex_string();
    assert_eq!(GitObject::from_hex_string(&hex, b"not zlib").unwrap_err(), GitError::Corrupt);
}

#[test]
fn bad_headers_are_malformed_objects() {
    for raw in [&b"blob 3abc"[..], &b"blub 3\0abc"[..], &b"blob x\0abc"[..], &b"blob 4\0abc"[..], &b"blob \0abc"[..], &b"blob 3 \0abc"[..]] {
        assert_eq!(parse_loose(raw).unwrap_err(), GitError::MalformedObject);
        let stored = deflate(raw);
        assert_eq!(GitObject::from_stored(&stored).unwrap_err(), GitError::MalformedObject);
    }
    let (k, c) = parse_loose(b"commit 2\0hi").unwrap();
    assert_eq!((k, c), (Kind::Commit, b"hi".to_vec()));
    let (k, c) = parse_loose(b"blob 003\0abc").unwrap();
    assert_eq!((k, c), (Kind::Blob, b"abc".to_vec()));
    let (k, c) = parse_loose(b"tree 00\0").unwrap();
    assert_eq!((k, c), (Kind::Tree, Vec::new()));
}

#[test]
fn commit_text_is_canonical() {
    let tree = "4b825dc642cb6eb9a060e54bf8d69288fbee4904";
    let parent = "ce013625030ba8dba906f756967f9e9ca394464a";
    let c = GitObject::build_commit("msg", tree, Some(parent)).unwrap();
    let who = "Code Crafters <000000000+codecrafters@users.noreply.github.com> 1750973235 +0000";
    let expected = format!("tree {tree}\nparent {parent}\nauthor {who}\ncommitter {who}\n\nmsg\n");
    assert_eq!(*c.kind(), Kind::Commit);
    assert_eq!(c.contents().as_slice(), expected.as_bytes());
    let c2 = GitObject::build_commit("msg", tree, None).unwrap();
    let expected2 = format!("tree {tree}\nauthor {who}\ncommitter {who}\n\nmsg\n");
    assert_eq!(c2.contents().as_slice(), expected2.as_bytes());
}

fn entry(name: &str, mode: Mode, target: &GitObject) -> TreeEntry {
    TreeEntry::new(name.to_string(), mode, target.hash().clone()).unwrap()
}

#[test]
fn tree_is_sorted_and_order_independent() {
    let a = blob(b"a");
    let b = blob(b"b");
    let first = GitObject::build_tree(vec![
        entry("zeta", Mode::Regular, &a),
        entry("alpha", Mode::Executable, &b),
        entry("mid", Mode::Symlink, &a),
    ])
    .unwrap();
    let second = GitObject::build_tree(vec![
        entry("mid", Mode::Symlink, &a),
        entry("zeta", Mode::Regular, &a),
        entry("alpha", Mode::Executable, &b),
    ])
    .unwrap();
    assert_eq!(first.hex_string(), second.hex_string());
    let names: Vec<String> = first.tree_entries().unwrap().iter().map(|e| e.filename().clone()).collect();
    assert_eq!(names, vec!["alpha", "mid", "zeta"]);
}

#[test]
fn tree_encoding_is_exact() {
    let a = blob(b"a");
    let t = GitObject::build_tree(vec![entry("f", Mode::Regular, &a)]).unwrap();
    let mut expected = b"100644 f\0".to_vec();
    expected.extend_from_slice(a.hash());
    assert_eq!(t.contents(), &expected);
    let empty = GitObject::build_tree(vec![]).unwrap();
    assert_eq!(empty.hex_string(), "4b825dc642cb6eb9a060e54bf8d69288fbee4904");
    assert_eq!(empty.tree_entries().unwrap().len(), 0);
}

#[test]
fn tree_entries_round_trip() {
    let a = blob(b"a");
    let sub = GitObject::build_tree(vec![]).unwrap();
    let t = GitObject::build_tree(vec![entry("dir", Mode::Directory, &sub), entry("file", Mode::Executable, &a)]).unwrap();
    let es = t.tree_entries().unwrap();
    assert_eq!(es.len(), 2);
    assert_eq!(es[0].filename(), "dir");
    assert_eq!(*es[0].kind(), Kind::Tree);
    assert_eq!(es[0].mode(), Mode::Directory);
    assert_eq!(es[0].hex_string(), sub.hex_string());
    assert_eq!(es[1].filename(), "file");
    assert_eq!(*es[1].kind(), Kind::Blob);
    assert_eq!(es[1].mode(), Mode::Executable);
    assert_eq!(es[1].hash(), a.hash());
}

#[test]
fn duplicate_names_are_rejected() {
    let a = blob(b"a");
    let r = GitObject::build_tree(vec![entry("x", Mode::Regular, &a), entry("x", Mode::Executable, &a)]);
    assert_eq!(r.unwrap_err(), GitError::InvalidArgument);
}

#[test]
fn bad_entry_arguments_are_rejected() {
    assert_eq!(TreeEntry::new("a/b".to_string(), Mode::Regular, vec![0; 20]).unwrap_err(), GitError::InvalidArgument);
    assert_eq!(TreeEntry::new("".to_string(), Mode::Regular, vec![0; 20]).unwrap_err(), GitError::InvalidArgument);
    assert_eq!(TreeEntry::new("a".to_string(), Mode::Regular, vec![0; 19]).unwrap_err(), GitError::InvalidArgument);
}

#[test]
fn unknown_mode_is_malformed_tree() {
    let mut content = b"99999 f\0".to_vec();
    content.extend_from_slice(&[7u8; 20]);
    let t = GitObject::build(Kind::Tree, content).unwrap();
    assert_eq!(t.tree_entries().unwrap_err(), GitError::MalformedTree);
    assert_eq!(t.restore_step().unwrap_err(), GitError::MalformedTree);
}

#[test]
fn truncated_tree_is_malformed() {
    let mut content = b"100644 f\0".to_vec();
    content.extend_from_slice(&[7u8; 19]);
    let t = GitObject::build(Kind::Tree, content).unwrap();
    assert_eq!(t.tree_entries().unwrap_err(), GitError::MalformedTree);
    let t2 = GitObject::build(Kind::Tree, b"100644 f".to_vec()).unwrap();
    assert_eq!(t2.tree_entries().unwrap_err(), GitError::MalformedTree);
}

#[test]
fn non_tree_has_no_entries() {
    assert!(matches!(blob(b"a").tree_entries(), Err(GitError::InvalidObjectFormat { .. })));
}

#[test]
fn modes_follow_file_type() {
    assert_eq!(Mode::from_file_type(true, false, false, 0), Ok(Mode::Directory));
    assert_eq!(Mode::from_file_type(false, true, false, 0o777), Ok(Mode::Symlink));
    assert_eq!(Mode::from_file_type(false, false, true, 0o744), Ok(Mode::Executable));
    assert_eq!(Mode::from_file_type(false, false, true, 0o644), Ok(Mode::Regular));
    assert_eq!(Mode::from_file_type(false, false, true, 0o077), Ok(Mode::Regular));
    assert_eq!(Mode::from_file_type(false, false, false, 0), Err(GitError::UnsupportedFile));
    assert_eq!(Mode::Directory.token(), b"40000".to_vec());
    assert_eq!(Mode::Symlink.token(), b"120000".to_vec());
}

#[test]
fn restore_steps_follow_kind() {
    let a = blob(b"data");
    match a.restore_step().unwrap() {
        RestoreStep::WriteFile { contents } => assert_eq!(contents, b"data".to_vec()),
        _ => panic!("blob must be written"),
    }
    let t = GitObject::build_tree(vec![entry("f", Mode::Regular, &a)]).unwrap();
    match t.restore_step().unwrap() {
        RestoreStep::MakeDir { entries } => {
            assert_eq!(entries.len(), 1);
            assert_eq!(entries[0].filename(), "f");
        }
        _ => panic!("tree must make a directory"),
    }
    let c = GitObject::build_commit("m", &t.hex_string(), None).unwrap();
    match c.restore_step().unwrap() {
        RestoreStep::Follow { id } => assert_eq!(hex_of(&id), t.hex_string()),
        _ => panic!("commit must lead to its tree"),
    }
}

#[test]
fn restore_step_is_the_same_twice() {
    let a = blob(b"data");
    let t = GitObject::build_tree(vec![entry("f", Mode::Regular, &a)]).unwrap();
    let c = GitObject::build_commit("m", &t.hex_string(), None).unwrap();
    let ids = |o: &GitObject| match o.restore_step().unwrap() {
        RestoreStep::Follow { id } => id,
        _ => Vec::new(),
    };
    assert_eq!(ids(&c), ids(&c));
}

#[test]
fn bad_commit_first_line_is_malformed() {
    for text in [&b"parent 4b825dc642cb6eb9a060e54bf8d69288fbee4904\n"[..], &b"tree 4b825dc6\n"[..], &b"tree 4b825dc642cb6eb9a060e54bf8d69288fbee4904 x\n"[..]] {
        let c = GitObject::build(Kind::Commit, text.to_vec()).unwrap();
        assert_eq!(c.restore_step().unwrap_err(), GitError::MalformedCommit);
    }
}

#[test]
fn varints_decode_exactly() {
    assert_eq!(read_varint(&[0x05], 0), Ok((5, 1)));
    assert_eq!(read_varint(&[0x91, 0x2e], 0), Ok((0x1711, 2)));
    assert_eq!(read_varint(&[0xff, 0xff, 0xff, 0xff, 0x0f], 0), Ok((0xffff_ffff, 5)));
    assert_eq!(read_varint(&[0xff, 0xff, 0xff, 0xff, 0x1f], 0), Err(GitError::MalformedDelta));
    assert_eq!(read_varint(&[0x80], 0), Err(GitError::MalformedDelta));
    assert_eq!(read_varint(&[0x00, 0x7f], 1), Ok((127, 2)));
}

#[test]
fn full_copy_reproduces_base() {
    let base = b"hello world".to_vec();
    let delta = vec![11u8, 11, 0x90, 11];
    assert_eq!(resolve_delta(&base, &delta), Ok(base.clone()));
}

#[test]
fn delta_copies_and_inserts() {
    let base = b"0123456789".to_vec();
    // copy offset 2 size 3, insert "ab", an empty insert, copy offset 7 size 3
    let delta = vec![10u8, 8, 0x91, 2, 3, 2, b'a', b'b', 0, 0x91, 7, 3];
    assert_eq!(resolve_delta(&base, &delta), Ok(b"234ab789".to_vec()));
}

#[test]
fn copy_of_size_zero_means_sixty_four_kib() {
    let base = vec![9u8; 0x10000];
    let delta = vec![0x80u8, 0x80, 0x04, 0x80, 0x80, 0x04, 0x80];
    assert_eq!(resolve_delta(&base, &delta), Ok(base.clone()));
}

#[test]
fn bad_deltas_are_malformed() {
    let base = b"abc".to_vec();
    // target size mismatch
    assert_eq!(resolve_delta(&base, &[3, 4, 0x90, 3]), Err(GitError::MalformedDelta));
    // copy past the end of the base
    assert_eq!(resolve_delta(&base, &[3, 4, 0x91, 1, 3]), Err(GitError::MalformedDelta));
    // truncated insert
    assert_eq!(resolve_delta(&base, &[3, 2, 5, b'x']), Err(GitError::MalformedDelta));
    // truncated copy arguments
    assert_eq!(resolve_delta(&base, &[3, 3, 0x91, 0]), Err(GitError::MalformedDelta));
    // missing sizes
    assert_eq!(resolve_delta(&base, &[]), Err(GitError::MalformedDelta));
}
