use std::io::{Read, Write};

use codecrafters_git::cli::{Git, GitCommand, Reply, Request, Stage};
use codecrafters_git::repo::LayoutStep;
use codecrafters_git::snapshot::{DirSnapshot, SnapshotEntry, SnapshotKind};
use codecrafters_git::tree::LooseLookup;
use codecrafters_git::GitError;

const HELLO: &str = "ce013625030ba8dba906f756967f9e9ca394464a";

fn zlib(data: &[u8]) -> Vec<u8> {
    let mut e = flate2::write::ZlibEncoder::new(Vec::new(), flate2::Compression::default());
    e.write_all(data).unwrap();
    e.finish().unwrap()
}

fn unzlib(data: &[u8]) -> Vec<u8> {
    let mut d = flate2::read::ZlibDecoder::new(data);
    let mut out = Vec::new();
    d.read_to_end(&mut out).unwrap();
    out
}

fn noise(n: usize) -> Vec<u8> {
    let mut x: u32 = 12345;
    (0..n)
        .map(|_| {
            x = x.wrapping_mul(1103515245).wrapping_add(12345);
            (x >> 16) as u8
        })
        .collect()
}

fn finished_ok(r: &Request) -> bool {
    matches!(r, Request::Finish(Ok(())))
}

fn object_error(r: Request) -> String {
    match r {
        Request::Finish(Err(GitError::ObjectError(m))) => m,
        _ => panic!("expected an object error"),
    }
}

fn cat_file(hash: &str) -> Git {
    Git::with_bytes_buffer(GitCommand::CatFile { pretty_print: true, hash: hash.to_string() }, Vec::new())
}

fn tree_object(entries: &[(u32, &str, [u8; 20])]) -> Vec<u8> {
    let mut content = Vec::new();
    for (mode, name, hash) in entries {
        content.extend(format!("{:o} {}\0", mode, name).into_bytes());
        content.extend_from_slice(hash);
    }
    let mut full = format!("tree {}\0", content.len()).into_bytes();
    full.extend(content);
    full
}

#[test]
fn init_creates_layout_then_reports() {
    let mut git = Git::with_bytes_buffer(GitCommand::Init, Vec::new());
    let steps = match git.run() {
        Request::CreateLayout(s) => s,
        _ => panic!("expected the layout"),
    };
    let views: Vec<(bool, String, String)> = steps
        .into_iter()
        .map(|s| match s {
            LayoutStep::CreateDir(p) => (true, p, String::new()),
            LayoutStep::WriteFile(p, t) => (false, p, t),
        })
        .collect();
    assert_eq!(views.len(), 10);
    assert_eq!(views[0], (true, ".git".to_string(), String::new()));
    assert_eq!(views[3], (true, ".git/refs/heads".to_string(), String::new()));
    assert_eq!(
        views[9],
        (false, ".git/HEAD".to_string(), "ref: refs/heads/master\n".to_string())
    );
    let r = git.resume(Reply::Done);
    assert!(finished_ok(&r));
    assert_eq!(git.output(), &b"Initialized git directory\n".to_vec());
}

#[test]
fn init_failure_is_reported() {
    let mut git = Git::with_bytes_buffer(GitCommand::Init, Vec::new());
    git.run();
    let r = git.resume(Reply::Failed(std::io::Error::new(std::io::ErrorKind::AlreadyExists, "exists")));
    assert!(matches!(r, Request::Finish(Err(GitError::IOError(_)))));
    assert!(git.output().is_empty());
}

#[test]
fn hash_object_prints_hash() {
    let path = std::path::PathBuf::from("hello.txt");
    let mut git = Git::with_bytes_buffer(
        GitCommand::HashObject { path: path.clone(), write_object: false },
        Vec::new(),
    );
    match git.run() {
        Request::ReadFile(p) => assert_eq!(p, path),
        _ => panic!("expected a read"),
    }
    let r = git.resume(Reply::Bytes(b"hello\n".to_vec()));
    assert!(finished_ok(&r));
    assert_eq!(git.output(), &format!("{HELLO}\n").into_bytes());
}

#[test]
fn hash_object_write_stores_then_prints() {
    let mut git = Git::with_bytes_buffer(
        GitCommand::HashObject { path: "f".into(), write_object: true },
        b"> ".to_vec(),
    );
    git.run();
    let files = match git.resume(Reply::Bytes(b"hello\n".to_vec())) {
        Request::StoreFiles(f) => f,
        _ => panic!("expected files to store"),
    };
    assert_eq!(files.len(), 1);
    assert_eq!(files[0].path, format!(".git/objects/ce/{}", &HELLO[2..]).into_bytes());
    assert_eq!(unzlib(&files[0].data), b"blob 6\0hello\n".to_vec());
    assert_eq!(git.output(), &b"> ".to_vec());
    let r = git.resume(Reply::Done);
    assert!(finished_ok(&r));
    assert_eq!(git.output(), &format!("> {HELLO}\n").into_bytes());
}

#[test]
fn stored_blob_reads_back_with_cat_file() {
    let mut h = Git::with_bytes_buffer(
        GitCommand::HashObject { path: "f".into(), write_object: true },
        Vec::new(),
    );
    h.run();
    let files = match h.resume(Reply::Bytes(b"some\ncontent".to_vec())) {
        Request::StoreFiles(f) => f,
        _ => panic!("expected files to store"),
    };
    h.resume(Reply::Done);
    let printed = String::from_utf8(h.output().clone()).unwrap();
    let mut c = cat_file(printed.trim_end());
    match c.run() {
        Request::ReadObjectFile(p) => assert_eq!(p, files[0].path),
        _ => panic!("expected a read"),
    }
    let r = c.resume(Reply::Bytes(files[0].data.clone()));
    assert!(finished_ok(&r));
    assert_eq!(c.output(), &b"some\ncontent".to_vec());
}

#[test]
fn cat_file_reads_object_path() {
    let mut git = cat_file(HELLO);
    match git.run() {
        Request::ReadObjectFile(p) => {
            assert_eq!(p, format!(".git/objects/ce/{}", &HELLO[2..]).into_bytes())
        },
        _ => panic!("expected a read"),
    }
    let r = git.resume(Reply::Bytes(zlib(b"blob 6\0hello\n")));
    assert!(finished_ok(&r));
    assert_eq!(git.output(), &b"hello\n".to_vec());
}

#[test]
fn cat_file_short_hash_fails() {
    let mut git = cat_file("abc");
    assert_eq!(object_error(git.run()), "invalid object hash provided: abc");
}

#[test]
fn cat_file_hash_split_inside_a_character_stops() {
    let hash = format!("aé{}", "0".repeat(40));
    let mut git = cat_file(&hash);
    match git.run() {
        Request::Abort(m) => assert_eq!(m, "byte index 2 is not a char boundary"),
        _ => panic!("expected a stop"),
    }
}

#[test]
fn cat_file_missing_object_is_io_error() {
    let mut git = cat_file(HELLO);
    git.run();
    let r = git.resume(Reply::Failed(std::io::Error::new(std::io::ErrorKind::NotFound, "missing")));
    assert!(matches!(r, Request::Finish(Err(GitError::IOError(_)))));
}

#[test]
fn cat_file_bad_header_fails() {
    let mut git = cat_file(HELLO);
    git.run();
    let r = git.resume(Reply::Bytes(zlib(b"blob x\0")));
    assert_eq!(object_error(r), "could not parse object size");
}

#[test]
fn ls_tree_name_only_lists_names() {
    let mut git = Git::with_bytes_buffer(
        GitCommand::LsTree { hash: HELLO.to_string(), name_only: true },
        Vec::new(),
    );
    assert!(matches!(git.run(), Request::ReadObjectFile(_)));
    let t = tree_object(&[(0o100644, "a.txt", [1u8; 20]), (0o40000, "dir", [2u8; 20])]);
    let r = git.resume(Reply::Bytes(zlib(&t)));
    assert!(finished_ok(&r));
    assert_eq!(git.output(), &b"a.txt\ndir\n".to_vec());
}

#[test]
fn ls_tree_full_looks_up_entries() {
    let mut git = Git::with_bytes_buffer(
        GitCommand::LsTree { hash: HELLO.to_string(), name_only: false },
        Vec::new(),
    );
    git.run();
    let t = tree_object(&[(0o100644, "a.txt", [1u8; 20])]);
    let paths = match git.resume(Reply::Bytes(zlib(&t))) {
        Request::LookupLooseFiles(p) => p,
        _ => panic!("expected lookups"),
    };
    assert_eq!(paths, vec![format!(".git/objects/{}", "01".repeat(20)).into_bytes()]);
    assert!(matches!(git.stage, Stage::LsTreeLookup { .. }));
    let r = git.resume(Reply::Lookups(vec![LooseLookup::Contents(b"blob 1\0x".to_vec())]));
    assert!(finished_ok(&r));
    let h = "01".repeat(20);
    assert_eq!(
        String::from_utf8(git.output().clone()).unwrap(),
        format!("100644 {h}\ta.txt\n100644 blob {h}\ta.txt\n")
    );
}

#[test]
fn ls_tree_rejects_non_tree() {
    let mut git = Git::with_bytes_buffer(
        GitCommand::LsTree { hash: HELLO.to_string(), name_only: true },
        Vec::new(),
    );
    git.run();
    let r = git.resume(Reply::Bytes(zlib(b"blob 1\0x")));
    assert_eq!(object_error(r), "object not a tree: blob");
}

#[test]
fn lookups_missing_results_stop() {
    let mut git = Git::with_bytes_buffer(
        GitCommand::LsTree { hash: HELLO.to_string(), name_only: false },
        Vec::new(),
    );
    git.run();
    let t = tree_object(&[(0o100644, "a", [1u8; 20]), (0o100644, "b", [2u8; 20])]);
    git.resume(Reply::Bytes(zlib(&t)));
    match git.resume(Reply::Lookups(vec![LooseLookup::Missing])) {
        Request::Abort(m) => assert_eq!(m, "lookup results missing"),
        _ => panic!("expected a stop"),
    }
}

#[test]
fn write_tree_stores_objects_then_prints_root() {
    let mut git = Git::with_bytes_buffer(GitCommand::WriteTree { path: None }, Vec::new());
    assert!(matches!(git.run(), Request::SnapshotDirectory(None)));
    let snap = DirSnapshot {
        entries: vec![SnapshotEntry {
            name: "hello.txt".to_string(),
            kind: SnapshotKind::File { mode: 0o100644, content: b"hello\n".to_vec() },
        }],
    };
    let files = match git.resume(Reply::Snapshot(snap)) {
        Request::StoreFiles(f) => f,
        _ => panic!("expected files to store"),
    };
    assert_eq!(files.len(), 2);
    let root = unzlib(&files[1].data);
    let mut content = b"100644 hello.txt\0".to_vec();
    content.extend(const_hex::decode(HELLO).unwrap());
    let mut expected = format!("tree {}\0", content.len()).into_bytes();
    expected.extend(content);
    assert_eq!(root, expected);
    assert!(git.output().is_empty());
    let r = git.resume(Reply::Done);
    assert!(finished_ok(&r));
    let mut h = sha1_checked::Sha1::new();
    sha1_checked::Digest::update(&mut h, &expected);
    let d: [u8; 20] = sha1_checked::Digest::finalize(h).into();
    assert_eq!(git.output(), &format!("{}\n", const_hex::encode(d)).into_bytes());
}

#[test]
fn unexpected_reply_stops() {
    let mut git = Git::with_bytes_buffer(GitCommand::Init, Vec::new());
    git.run();
    match git.resume(Reply::Bytes(Vec::new())) {
        Request::Abort(m) => assert_eq!(m, "unexpected reply"),
        _ => panic!("expected a stop"),
    }
}

#[test]
fn running_without_command_stops() {
    let mut git = Git::default();
    match git.run() {
        Request::Abort(m) => assert_eq!(m, "internal error: entered unreachable code"),
        _ => panic!("expected a stop"),
    }
}

#[test]
fn from_env_takes_the_command() {
    let git = match Git::from_env(GitCommand::Init) {
        Ok(g) => g,
        Err(e) => panic!("{:?}", e),
    };
    assert!(matches!(git.command, Some(GitCommand::Init)));
    assert!(git.output().is_empty());
}

#[test]
fn ls_tree_stops_on_entry_larger_than_declared_size() {
    let mut git = Git::with_bytes_buffer(
        GitCommand::LsTree { hash: HELLO.to_string(), name_only: true },
        Vec::new(),
    );
    git.run();
    let mut content = b"100644 a\0".to_vec();
    content.extend_from_slice(&[1u8; 20]);
    let mut full = format!("tree {}\0", content.len() - 1).into_bytes();
    full.extend(content);
    match git.resume(Reply::Bytes(zlib(&full))) {
        Request::Abort(m) => assert_eq!(m, "attempt to subtract with overflow"),
        _ => panic!("expected a stop"),
    }
    assert!(git.output().is_empty());
}

#[test]
fn written_tree_lists_names_in_order() {
    let file = |name: &str| SnapshotEntry {
        name: name.to_string(),
        kind: SnapshotKind::File { mode: 0o100644, content: name.as_bytes().to_vec() },
    };
    let snap = DirSnapshot { entries: vec![file("zeta"), file(".hidden"), file("Alpha"), file("beta")] };
    let mut w = Git::with_bytes_buffer(GitCommand::WriteTree { path: None }, Vec::new());
    w.run();
    let files = match w.resume(Reply::Snapshot(snap)) {
        Request::StoreFiles(f) => f,
        _ => panic!("expected files to store"),
    };
    w.resume(Reply::Done);
    let printed = String::from_utf8(w.output().clone()).unwrap();
    let mut ls = Git::with_bytes_buffer(
        GitCommand::LsTree { hash: printed.trim_end().to_string(), name_only: true },
        Vec::new(),
    );
    match ls.run() {
        Request::ReadObjectFile(p) => assert_eq!(&p, &files.last().unwrap().path),
        _ => panic!("expected a read"),
    }
    let r = ls.resume(Reply::Bytes(files.last().unwrap().data.clone()));
    assert!(finished_ok(&r));
    assert_eq!(ls.output(), &b"Alpha\nbeta\nzeta\n".to_vec());
}

#[test]
fn ls_tree_rejects_non_tree_before_reading_its_damaged_content() {
    let mut full = b"blob 200000\0".to_vec();
    full.extend(noise(200_000));
    let mut stored = zlib(&full);
    let last = stored.len() - 1;
    stored[last] ^= 0xff;
    let mut git = Git::with_bytes_buffer(
        GitCommand::LsTree { hash: HELLO.to_string(), name_only: true },
        Vec::new(),
    );
    git.run();
    let r = git.resume(Reply::Bytes(stored));
    assert_eq!(object_error(r), "object not a tree: blob");
}

#[test]
fn cat_file_of_object_with_damaged_tail_prints_declared_content() {
    let mut full = b"blob 2\0hi".to_vec();
    full.extend(noise(200_000));
    let mut stored = zlib(&full);
    let last = stored.len() - 1;
    stored[last] ^= 0xff;
    let mut git = cat_file(HELLO);
    git.run();
    let r = git.resume(Reply::Bytes(stored));
    assert!(finished_ok(&r));
    assert_eq!(git.output(), &b"hi".to_vec());
}

#[test]
fn write_tree_path_only_names_the_directory() {
    let mut without = Git::with_bytes_buffer(GitCommand::WriteTree { path: None }, Vec::new());
    let mut with = Git::with_bytes_buffer(
        GitCommand::WriteTree { path: Some(std::path::PathBuf::from("some/dir")) },
        Vec::new(),
    );
    assert!(matches!(without.run(), Request::SnapshotDirectory(None)));
    match with.run() {
        Request::SnapshotDirectory(Some(p)) => assert_eq!(p, std::path::PathBuf::from("some/dir")),
        _ => panic!("expected the named directory"),
    }
    assert!(matches!(without.stage, Stage::WriteTree));
    assert!(matches!(with.stage, Stage::WriteTree));
    let snap = || DirSnapshot {
        entries: vec![SnapshotEntry {
            name: "a".to_string(),
            kind: SnapshotKind::File { mode: 0o100644, content: b"a".to_vec() },
        }],
    };
    without.resume(Reply::Snapshot(snap()));
    with.resume(Reply::Snapshot(snap()));
    assert!(finished_ok(&without.resume(Reply::Done)));
    assert!(finished_ok(&with.resume(Reply::Done)));
    assert_eq!(without.output(), with.output());
    assert_eq!(without.output().len(), 41);
}
