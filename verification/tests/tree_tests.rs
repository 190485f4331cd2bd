use std::io::Read;

use codecrafters_git::object::Object;
use codecrafters_git::snapshot::{bytes_less, DirSnapshot, SnapshotEntry, SnapshotKind};
use codecrafters_git::tree::{LooseLookup, Tree, TreeEntry};
use codecrafters_git::{Failure, GitError};

fn sha1(data: &[u8]) -> [u8; 20] {
    let mut h = sha1_checked::Sha1::new();
    sha1_checked::Digest::update(&mut h, data);
    sha1_checked::Digest::finalize(h).into()
}

fn unzlib(data: &[u8]) -> Vec<u8> {
    let mut d = flate2::read::ZlibDecoder::new(data);
    let mut out = Vec::new();
    d.read_to_end(&mut out).unwrap();
    out
}

fn entry(mode: u32, path: &str, hash: [u8; 20]) -> TreeEntry {
    TreeEntry::builder().path(path.to_string()).mode(mode).hash(hash).build()
}

fn entry_bytes(mode: u32, path: &str, hash: &[u8; 20]) -> Vec<u8> {
    let mut v = format!("{:o} {}\0", mode, path).into_bytes();
    v.extend_from_slice(hash);
    v
}

fn tree_object(content: &[u8]) -> Vec<u8> {
    let mut full = format!("tree {}\0", content.len()).into_bytes();
    full.extend_from_slice(content);
    full
}

fn object_message(e: GitError) -> String {
    match e {
        GitError::ObjectError(m) => m,
        other => panic!("expected an object error, got {:?}", other),
    }
}

fn failure_message(f: Failure) -> String {
    match f {
        Failure::Git(e) => object_message(e),
        Failure::Aborted(a) => panic!("expected an object error, got a stop: {}", a.message),
    }
}

fn stop_message(f: Failure) -> String {
    match f {
        Failure::Aborted(a) => a.message,
        Failure::Git(e) => panic!("expected a stop, got {:?}", e),
    }
}

fn file(name: &str, mode: u32, content: &[u8]) -> SnapshotEntry {
    SnapshotEntry {
        name: name.to_string(),
        kind: SnapshotKind::File { mode, content: content.to_vec() },
    }
}

#[test]
fn builder_works_out_entry_size() {
    let e = entry(0o100644, "a.txt", [7u8; 20]);
    assert_eq!(e.size, 20 + 2 + 5 + 6);
    assert_eq!(e.mode, 0o100644);
    assert_eq!(e.path, "a.txt");
    let d = entry(0o40000, "sub", [1u8; 20]);
    assert_eq!(d.size, 20 + 2 + 3 + 5);
}

#[test]
fn default_builder_is_empty() {
    let b = TreeEntry::builder();
    assert_eq!(b.mode, 0);
    assert!(b.path.is_none());
    assert_eq!(b.hash, [0u8; 20]);
}

#[test]
fn written_entry_reads_back() {
    let e = entry(0o100755, "run.sh", [9u8; 20]);
    let mut data = b"xx".to_vec();
    e.write_to(&mut data);
    assert_eq!(&data[2..], &entry_bytes(0o100755, "run.sh", &[9u8; 20])[..]);
    data.extend_from_slice(b"rest");
    let (back, next) = Tree::read_tree_entry(&data, 2).unwrap();
    assert_eq!(back.mode, 0o100755);
    assert_eq!(back.path, "run.sh");
    assert_eq!(back.hash, [9u8; 20]);
    assert_eq!(back.size, e.size);
    assert_eq!(next, data.len() - 4);
}

#[test]
fn read_tree_entry_rejects_non_octal_mode() {
    let e = Tree::read_tree_entry(b"1008 a\0", 0).unwrap_err();
    assert_eq!(failure_message(e), "tree object malformed, unexpected byte: 56");
}

#[test]
fn read_tree_entry_at_end_of_data_reads_zero_byte() {
    let e = Tree::read_tree_entry(b"100644", 0).unwrap_err();
    assert_eq!(failure_message(e), "tree object malformed, unexpected byte: 0");
}

#[test]
fn read_tree_entry_stops_where_nothing_follows_the_mode() {
    let e = Tree::read_tree_entry(b"100644 ", 0).unwrap_err();
    assert_eq!(stop_message(e), "attempt to subtract with overflow");
}

#[test]
fn read_tree_entry_rejects_invalid_utf8_path() {
    let mut data = b"100644 \xff\xfe\0".to_vec();
    data.extend_from_slice(&[3u8; 20]);
    let e = Tree::read_tree_entry(&data, 0).unwrap_err();
    assert_eq!(failure_message(e), "a path in tree file was not valid utf8");
}

#[test]
fn read_tree_entry_pads_short_hash_with_zeros() {
    let (e, next) = Tree::read_tree_entry(b"644 f\0\x01\x02", 0).unwrap();
    let mut expected = [0u8; 20];
    expected[0] = 1;
    expected[1] = 2;
    assert_eq!(e.hash, expected);
    assert_eq!(next, 8);
}

#[test]
fn read_tree_reads_entries_in_order() {
    let mut content = entry_bytes(0o100644, "a", &[1u8; 20]);
    content.extend(entry_bytes(0o40000, "dir", &[2u8; 20]));
    let obj = Object::from_buffer(&tree_object(&content)).unwrap();
    let (entries, pending) = Tree::read_tree(obj);
    assert!(pending.is_none());
    assert_eq!(entries.len(), 2);
    assert_eq!(entries[0].path, "a");
    assert_eq!(entries[1].path, "dir");
    assert_eq!(entries[1].mode, 0o40000);
}

#[test]
fn read_tree_stops_on_entry_larger_than_what_is_left() {
    let content = entry_bytes(0o100644, "a", &[1u8; 20]);
    let mut full = format!("tree {}\0", content.len() - 1).into_bytes();
    full.extend_from_slice(&content);
    let obj = Object::from_buffer(&full).unwrap();
    let (entries, pending) = Tree::read_tree(obj);
    assert!(entries.is_empty());
    assert_eq!(stop_message(pending.unwrap()), "attempt to subtract with overflow");
}

#[test]
fn show_tree_name_only_lists_names() {
    let entries = vec![entry(0o100644, "a.txt", [1u8; 20]), entry(0o40000, "src", [2u8; 20])];
    let mut out = Vec::new();
    Tree::show_tree(&entries, None, true, Vec::new(), &mut out).unwrap();
    assert_eq!(out, b"a.txt\nsrc\n".to_vec());
}

#[test]
fn show_tree_full_listing_with_lookups() {
    let entries = vec![entry(0o100644, "a.txt", [0xabu8; 20]), entry(0o40000, "src", [2u8; 20])];
    let lookups = vec![LooseLookup::Missing, LooseLookup::Contents(b"tree 0\0".to_vec())];
    let mut out = Vec::new();
    Tree::show_tree(&entries, None, false, lookups, &mut out).unwrap();
    let h1 = "ab".repeat(20);
    let h2 = "02".repeat(20);
    let expected = format!(
        "100644 {h1}\ta.txt\n040000 {h2}\tsrc\n040000 tree {h2}\tsrc\n"
    );
    assert_eq!(String::from_utf8(out).unwrap(), expected);
}

#[test]
fn show_tree_stops_on_unreadable_lookup() {
    let entries = vec![entry(0o100644, "a", [1u8; 20]), entry(0o100644, "b", [2u8; 20])];
    let lookups = vec![
        LooseLookup::ReadFailed(std::io::Error::new(std::io::ErrorKind::Other, "nope")),
        LooseLookup::Missing,
    ];
    let mut out = Vec::new();
    let r = Tree::show_tree(&entries, None, false, lookups, &mut out);
    assert!(matches!(r, Err(Failure::Git(GitError::IOError(_)))));
    assert_eq!(out, format!("100644 {}\ta\n", "01".repeat(20)).into_bytes());
}

#[test]
fn show_tree_reports_pending_error_after_listing() {
    let entries = vec![entry(0o100644, "a", [1u8; 20])];
    let mut out = Vec::new();
    let r = Tree::show_tree(
        &entries,
        Some(Failure::Git(GitError::ObjectError("later".to_string()))),
        true,
        Vec::new(),
        &mut out,
    );
    assert_eq!(failure_message(r.unwrap_err()), "later");
    assert_eq!(out, b"a\n".to_vec());
}

#[test]
fn lookup_path_is_objects_dir_and_hex() {
    let e = entry(0o100644, "a", [0x0fu8; 20]);
    assert_eq!(e.lookup_path(), format!(".git/objects/{}", "0f".repeat(20)).into_bytes());
}

#[test]
fn write_tree_orders_and_filters_entries() {
    let sub = DirSnapshot { entries: vec![file("x", 0o100644, b"x\n")] };
    let dir = DirSnapshot {
        entries: vec![
            file("b.txt", 0o100644, b"B"),
            file(".hidden", 0o100644, b"h"),
            SnapshotEntry { name: "sub".to_string(), kind: SnapshotKind::Dir(sub) },
            file("target", 0o100644, b"t"),
            file("a.txt", 0o100755, b"A"),
        ],
    };
    let w = Tree::write_tree(dir);
    let root = match w.result {
        Ok(h) => h,
        Err(Failure::Git(e)) => panic!("git error {:?}", e),
        Err(Failure::Aborted(a)) => panic!("abort {}", a.message),
    };
    let blob = |c: &[u8]| {
        let mut full = format!("blob {}\0", c.len()).into_bytes();
        full.extend_from_slice(c);
        full
    };
    let ha = sha1(&blob(b"A"));
    let hb = sha1(&blob(b"B"));
    let hx = sha1(&blob(b"x\n"));
    let sub_tree = tree_object(&entry_bytes(0o100644, "x", &hx));
    let hs = sha1(&sub_tree);
    let mut content = entry_bytes(0o100755, "a.txt", &ha);
    content.extend(entry_bytes(0o100644, "b.txt", &hb));
    content.extend(entry_bytes(0o40000, "sub", &hs));
    let root_tree = tree_object(&content);
    assert_eq!(root, sha1(&root_tree));
    // blobs and trees are stored in the order they are made, the root last
    let stored: Vec<Vec<u8>> = w.objects.iter().map(|f| unzlib(&f.data)).collect();
    assert_eq!(stored, vec![blob(b"A"), blob(b"B"), blob(b"x\n"), sub_tree, root_tree]);
    let last = w.objects.last().unwrap();
    let hex = const_hex::encode(root);
    assert_eq!(last.path, format!(".git/objects/{}/{}", &hex[..2], &hex[2..]).into_bytes());
}

#[test]
fn write_tree_of_empty_directory_is_the_empty_tree() {
    let w = Tree::write_tree(DirSnapshot { entries: Vec::new() });
    match w.result {
        Ok(h) => assert_eq!(const_hex::encode(h), "4b825dc642cb6eb9a060e54bf8d69288fbee4904"),
        Err(_) => panic!("empty tree failed"),
    }
}

#[test]
fn write_tree_stops_on_unreadable_entry() {
    let dir = DirSnapshot {
        entries: vec![
            file("a", 0o100644, b"A"),
            SnapshotEntry {
                name: "b".to_string(),
                kind: SnapshotKind::Failed(std::io::Error::new(std::io::ErrorKind::Other, "x")),
            },
        ],
    };
    let w = Tree::write_tree(dir);
    assert!(matches!(w.result, Err(Failure::Git(GitError::IOError(_)))));
    assert_eq!(w.objects.len(), 1);
}

#[test]
fn names_sort_by_bytes() {
    assert!(bytes_less(b"a", b"b"));
    assert!(bytes_less(b"a", b"ab"));
    assert!(!bytes_less(b"ab", b"a"));
    assert!(!bytes_less(b"same", b"same"));
    assert!(bytes_less(b"Z", b"a"));
}

#[test]
fn write_tree_sorts_directories_as_if_followed_by_slash() {
    let sub = DirSnapshot { entries: vec![file("x", 0o100644, b"x")] };
    let dir = DirSnapshot {
        entries: vec![
            SnapshotEntry { name: "a".to_string(), kind: SnapshotKind::Dir(sub) },
            file("a.txt", 0o100644, b"t"),
            file("a0", 0o100644, b"z"),
        ],
    };
    let w = Tree::write_tree(dir);
    assert!(w.result.is_ok());
    let root = unzlib(&w.objects.last().unwrap().data);
    let obj = Object::from_buffer(&root).unwrap();
    let (entries, pending) = Tree::read_tree(obj);
    assert!(pending.is_none());
    let names: Vec<&str> = entries.iter().map(|e| e.path.as_str()).collect();
    // "a.txt" < "a/" < "a0" byte by byte ('.' < '/' < '0')
    assert_eq!(names, vec!["a.txt", "a", "a0"]);
}

#[test]
fn writing_the_same_directory_twice_gives_the_same_tree() {
    let snap = || DirSnapshot {
        entries: vec![
            file("b.txt", 0o100644, b"B"),
            SnapshotEntry {
                name: "sub".to_string(),
                kind: SnapshotKind::Dir(DirSnapshot { entries: vec![file("x", 0o100755, b"x")] }),
            },
        ],
    };
    let w1 = Tree::write_tree(snap());
    let w2 = Tree::write_tree(snap());
    let h1 = match w1.result {
        Ok(h) => h,
        Err(_) => panic!("first write failed"),
    };
    let h2 = match w2.result {
        Ok(h) => h,
        Err(_) => panic!("second write failed"),
    };
    assert_eq!(h1, h2);
    let files = |w: &codecrafters_git::snapshot::TreeWrite| -> Vec<(Vec<u8>, Vec<u8>)> {
        w.objects.iter().map(|f| (f.path.clone(), f.data.clone())).collect()
    };
    assert_eq!(files(&w1), files(&w2));
}
