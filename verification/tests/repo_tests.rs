use std::io::Write;

use codecrafters_git::cli::{Reply, Request};
use codecrafters_git::repo::{CloneRepo, CloneStage, LayoutStep, Repo, Update, UpdateStage};
use codecrafters_git::tree::LooseLookup;
use codecrafters_git::GitError;

const HASH: &str = "47b37f1a82bfe85f6d8df52b6258b75e4343b7fd";

fn zlib(data: &[u8]) -> Vec<u8> {
    let mut e = flate2::write::ZlibEncoder::new(Vec::new(), flate2::Compression::default());
    e.write_all(data).unwrap();
    e.finish().unwrap()
}

fn stored(kind: &str, content: &[u8]) -> Vec<u8> {
    let mut full = format!("{} {}\0", kind, content.len()).into_bytes();
    full.extend_from_slice(content);
    zlib(&full)
}

fn tree_content(entries: &[(u32, &str, [u8; 20])]) -> Vec<u8> {
    let mut content = Vec::new();
    for (mode, name, hash) in entries {
        content.extend(format!("{:o} {}\0", mode, name).into_bytes());
        content.extend_from_slice(hash);
    }
    content
}

fn object_error(r: Request) -> String {
    match r {
        Request::Finish(Err(GitError::ObjectError(m))) => m,
        _ => panic!("expected an object error"),
    }
}

fn abort_message(r: Request) -> String {
    match r {
        Request::Abort(m) => m,
        _ => panic!("expected a stop"),
    }
}

/// An update that has read the `master` ref and the commit, and waits for
/// the tree object.
fn update_at_tree() -> Update {
    let mut u = Update::new();
    match u.run() {
        Request::ReadText(p) => assert_eq!(p, b".git/refs/heads/master".to_vec()),
        _ => panic!("expected the ref to be read"),
    }
    match u.resume(Reply::Text(HASH.to_string())) {
        Request::ReadObjectFile(p) => {
            assert_eq!(p, format!(".git/objects/47/{}", &HASH[2..]).into_bytes())
        },
        _ => panic!("expected the commit to be read"),
    }
    let commit = format!("tree {HASH}\nauthor x\n\nmsg\n");
    match u.resume(Reply::Bytes(stored("commit", commit.as_bytes()))) {
        Request::ReadObjectFile(p) => {
            assert_eq!(p, format!(".git/objects/47/{}", &HASH[2..]).into_bytes())
        },
        _ => panic!("expected the tree to be read"),
    }
    assert!(matches!(u.stage, UpdateStage::Tree));
    u
}

#[test]
fn init_layout_steps() {
    let steps = Repo::init();
    let dirs: Vec<String> = steps
        .iter()
        .filter_map(|s| match s {
            LayoutStep::CreateDir(p) => Some(p.clone()),
            _ => None,
        })
        .collect();
    assert_eq!(
        dirs,
        vec![".git", ".git/objects", ".git/refs", ".git/refs/heads", ".git/hooks", ".git/info"]
    );
    let files: Vec<(String, String)> = steps
        .iter()
        .filter_map(|s| match s {
            LayoutStep::WriteFile(p, t) => Some((p.clone(), t.clone())),
            _ => None,
        })
        .collect();
    assert_eq!(files.len(), 4);
    assert_eq!(files[2], (".git/refs/heads/master".to_string(), String::new()));
    assert_eq!(files[3], (".git/HEAD".to_string(), "ref: refs/heads/master\n".to_string()));
}

#[test]
fn update_with_empty_ref_fails_on_hash() {
    let mut u = Update::new();
    u.run();
    let r = u.resume(Reply::Text(String::new()));
    assert_eq!(object_error(r), "invalid object hash provided: ");
}

#[test]
fn update_with_empty_commit_stops() {
    let mut u = Update::new();
    u.run();
    u.resume(Reply::Text(HASH.to_string()));
    let r = u.resume(Reply::Bytes(stored("commit", b"")));
    assert_eq!(abort_message(r), "called `Option::unwrap()` on a `None` value");
}

#[test]
fn update_with_commit_without_space_stops() {
    let mut u = Update::new();
    u.run();
    u.resume(Reply::Text(HASH.to_string()));
    let r = u.resume(Reply::Bytes(stored("commit", b"nospace\nauthor x\n")));
    assert_eq!(abort_message(r), "invalid commit content");
}

#[test]
fn update_commit_first_line_names_tree_hash() {
    let mut u = Update::new();
    u.run();
    u.resume(Reply::Text(HASH.to_string()));
    let r = u.resume(Reply::Bytes(stored("commit", b"tree abc\r\nrest")));
    assert_eq!(object_error(r), "invalid object hash provided: abc");
}

#[test]
fn update_commit_content_that_is_not_utf8_is_read_lossily() {
    let mut u = Update::new();
    u.run();
    u.resume(Reply::Text(HASH.to_string()));
    let r = u.resume(Reply::Bytes(stored("commit", b"tree a\xffb\n")));
    assert_eq!(object_error(r), "invalid object hash provided: a\u{fffd}b");
}

#[test]
fn update_listing_lines_need_four_words() {
    let mut u = update_at_tree();
    let t = tree_content(&[(0o100644, "a.txt", [1u8; 20])]);
    let paths = match u.resume(Reply::Bytes(stored("tree", &t))) {
        Request::LookupLooseFiles(p) => p,
        _ => panic!("expected lookups"),
    };
    assert_eq!(paths.len(), 1);
    // the entry line is `<mode> <hash>\t<name>`: three words
    let r = u.resume(Reply::Lookups(vec![LooseLookup::Missing]));
    assert_eq!(abort_message(r), "index out of bounds: the len is 3 but the index is 3");
}

#[test]
fn update_reads_object_named_by_third_word() {
    let mut u = update_at_tree();
    let t = tree_content(&[(0o100644, "x y", [1u8; 20])]);
    u.resume(Reply::Bytes(stored("tree", &t)));
    // the line is `100644 <hash>\tx y`: the third word is `x`
    let r = u.resume(Reply::Lookups(vec![LooseLookup::Missing]));
    assert_eq!(object_error(r), "invalid object hash provided: x");
}

#[test]
fn update_reads_the_words_of_a_listing_line() {
    let mut u = update_at_tree();
    let name = format!("{HASH} blob {HASH} out.txt");
    let t = tree_content(&[(0o100644, name.as_str(), [1u8; 20])]);
    u.resume(Reply::Bytes(stored("tree", &t)));
    // the line `100644 <entry hash>\t<name>` has six words: the type word
    // is the entry hash, the hash word is the first word of the name
    let r = u.resume(Reply::Lookups(vec![LooseLookup::Missing]));
    match r {
        Request::ReadObjectFile(p) => {
            assert_eq!(p, format!(".git/objects/47/{}", &HASH[2..]).into_bytes())
        },
        _ => panic!("expected the entry object to be read"),
    }
    match &u.stage {
        UpdateStage::Entry { blob, name: n, next, .. } => {
            assert!(!*blob);
            assert_eq!(n, "blob");
            assert_eq!(*next, 7 + 40 + 1 + name.chars().count() + 1);
        },
        _ => panic!("expected to wait for the entry"),
    }
    // not a blob: nothing is written, and the listing is used up
    let r = u.resume(Reply::Bytes(stored("blob", b"data")));
    assert!(matches!(r, Request::Finish(Ok(()))));
    assert!(u.out.is_empty());
}

#[test]
fn update_writes_blob_named_by_a_typed_line() {
    let mut u = update_at_tree();
    let name = format!("{HASH} note.txt");
    let t = tree_content(&[(0o100644, name.as_str(), [1u8; 20])]);
    u.resume(Reply::Bytes(stored("tree", &t)));
    // the entry's uncompressed object is found: a typed line follows
    let r = u.resume(Reply::Lookups(vec![LooseLookup::Contents(b"blob 4\0data".to_vec())]));
    assert!(matches!(r, Request::ReadObjectFile(_)));
    match &u.stage {
        UpdateStage::Entry { blob, name: n, .. } => {
            assert!(!*blob);
            assert_eq!(n, "note.txt");
        },
        _ => panic!("expected to wait for the entry"),
    }
    // the typed line `100644 blob <entry hash>\t<HASH> note.txt`
    match u.resume(Reply::Bytes(stored("blob", b"first"))) {
        Request::ReadObjectFile(p) => {
            assert_eq!(p, format!(".git/objects/01/{}", "01".repeat(19)).into_bytes())
        },
        _ => panic!("expected the typed line's object to be read"),
    }
    match u.resume(Reply::Bytes(stored("blob", b"content"))) {
        Request::WriteFile(path, data) => {
            assert_eq!(path, HASH);
            assert_eq!(data, b"content".to_vec());
        },
        _ => panic!("expected a file to be written"),
    }
    assert!(u.out.is_empty());
    let r = u.resume(Reply::Done);
    assert!(matches!(r, Request::Finish(Ok(()))));
    assert_eq!(u.out, format!("+ {HASH}\n").into_bytes());
}

#[test]
fn update_failed_read_is_io_error() {
    let mut u = update_at_tree();
    let r = u.resume(Reply::Failed(std::io::Error::new(std::io::ErrorKind::NotFound, "gone")));
    assert!(matches!(r, Request::Finish(Err(GitError::IOError(_)))));
}

#[test]
fn update_unexpected_reply_stops() {
    let mut u = Update::new();
    u.run();
    assert_eq!(abort_message(u.resume(Reply::Done)), "unexpected reply");
}

#[test]
fn clone_walks_through_discovery_upload_and_update() {
    let mut c = CloneRepo::new("https://example.com/r.git".to_string(), b".".to_vec());
    assert!(matches!(c.run(), Request::CreateLayout(_)));
    match c.resume(Reply::Done) {
        Request::HttpGet(u) => {
            assert_eq!(u, "https://example.com/r.git/info/refs?service=git-upload-pack")
        },
        _ => panic!("expected discovery"),
    }
    let body = format!("001e# service=git-upload-pack\n003f{HASH} refs/heads/master\n0000");
    match c.resume(Reply::Text(body)) {
        Request::HttpPost(u, b) => {
            assert_eq!(u, "https://example.com/r.git/git-upload-pack");
            assert_eq!(b, b"00000009done\n".to_vec());
        },
        _ => panic!("expected the upload-pack request"),
    }
    // a pack with one commit
    let mut pack = b"PACK".to_vec();
    pack.extend_from_slice(&2u32.to_be_bytes());
    pack.extend_from_slice(&1u32.to_be_bytes());
    pack.push(0x11);
    pack.extend(zlib(b"c"));
    let mut resp = format!("{:04x}", pack.len() + 5).into_bytes();
    resp.push(1);
    resp.extend(pack);
    resp.extend(b"0000");
    match c.resume(Reply::Bytes(resp)) {
        Request::StoreFiles(f) => assert_eq!(f.len(), 1),
        _ => panic!("expected files to store"),
    }
    match c.resume(Reply::Done) {
        Request::ReadText(p) => assert_eq!(p, b".git/refs/heads/master".to_vec()),
        _ => panic!("expected the update to start"),
    }
    assert_eq!(c.out, b"clone done, updating repo\n".to_vec());
    // `master` is still empty after the layout was created
    let r = c.resume(Reply::Text(String::new()));
    assert_eq!(object_error(r), "invalid object hash provided: ");
    assert!(matches!(c.stage, CloneStage::Updating { .. }));
}

#[test]
fn clone_http_failure_is_reported() {
    let mut c = CloneRepo::new("u".to_string(), b".".to_vec());
    c.run();
    c.resume(Reply::Done);
    match c.resume(Reply::HttpFailed("connection refused".to_string())) {
        Request::Finish(Err(GitError::HttpError(m))) => assert_eq!(m, "connection refused"),
        _ => panic!("expected an HTTP error"),
    }
}

#[test]
fn clone_bad_pack_stops_after_storing() {
    let mut c = CloneRepo::new("u".to_string(), b".".to_vec());
    c.run();
    c.resume(Reply::Done);
    c.resume(Reply::Text(format!("x\n003f{HASH} refs/heads/master\n")));
    match c.resume(Reply::Bytes(b"0009\x01PACK0000".to_vec())) {
        Request::StoreFiles(f) => assert!(f.is_empty()),
        _ => panic!("expected files to store"),
    }
    assert_eq!(abort_message(c.resume(Reply::Done)), "invalid band 1 pkt");
}
