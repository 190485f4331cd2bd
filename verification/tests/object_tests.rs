use std::io::{Read, Write};

use codecrafters_git::object::{parse_object_header, Object, ObjectType};
use codecrafters_git::GitError;

fn zlib(data: &[u8]) -> Vec<u8> {
    let mut e = flate2::write::ZlibEncoder::new(Vec::new(), flate2::Compression::default());
    e.write_all(data).unwrap();
    e.finish().unwrap()
}

fn unzlib(data: &[u8]) -> Vec<u8> {
    let mut d = flate2::read::ZlibDecoder::new(data);
    let mut out = Vec::new();
    d.read_to_end(&mut out).unwrap();
    out
}

fn object_message(e: GitError) -> String {
    match e {
        GitError::ObjectError(m) => m,
        other => panic!("expected an object error, got {:?}", other),
    }
}

#[test]
fn hash_object_of_hello_matches_git() {
    let (o, line) = Object::hash_object_from_file(b"hello\n", false).unwrap();
    assert_eq!(line, b"ce013625030ba8dba906f756967f9e9ca394464a\n".to_vec());
    assert_eq!(o.hash.as_deref(), Some("ce013625030ba8dba906f756967f9e9ca394464a"));
    assert!(o.stored.is_none());
    assert_eq!(o.object_type, Some(ObjectType::Blob));
}

#[test]
fn hash_object_of_empty_file_matches_git() {
    let (_, line) = Object::hash_object_from_file(b"", false).unwrap();
    assert_eq!(line, b"e69de29bb2d1d6434b8b29ae775ad8c2e48c5391\n".to_vec());
}

#[test]
fn hash_object_write_prepares_the_loose_file() {
    let (o, _) = Object::hash_object_from_file(b"hello\n", true).unwrap();
    let f = o.stored.unwrap();
    assert_eq!(f.path, b".git/objects/ce/013625030ba8dba906f756967f9e9ca394464a".to_vec());
    // the stored bytes are a zlib stream, not the object itself
    assert_ne!(f.data, b"blob 6\0hello\n".to_vec());
    assert_eq!(unzlib(&f.data), b"blob 6\0hello\n".to_vec());
}

#[test]
fn created_object_reads_back_with_cat() {
    let o = Object::create_from_buffer(b"some content", ObjectType::Blob, 12, true).unwrap();
    let f = o.stored.unwrap();
    let mut out = Vec::new();
    Object::cat_object_from_file(&f.data, &mut out).unwrap();
    assert_eq!(out, b"some content".to_vec());
}

#[test]
fn create_from_buffer_hash_is_sha1_of_header_and_content() {
    let o = Object::create_from_buffer(b"abc", ObjectType::Tree, 3, false).unwrap();
    let mut h = sha1_checked::Sha1::new();
    sha1_checked::Digest::update(&mut h, b"tree 3\0abc");
    let expected: [u8; 20] = sha1_checked::Digest::finalize(h).into();
    assert_eq!(o.hash_raw, Some(expected));
    assert_eq!(o.hash, Some(const_hex::encode(expected)));
    assert_eq!(o.size, Some(3));
}

#[test]
fn cat_object_copies_declared_size_only() {
    let mut out = b"> ".to_vec();
    Object::cat_object(b"blob 3\0abcdef", &mut out).unwrap();
    assert_eq!(out, b"> abc".to_vec());
}

#[test]
fn cat_object_from_file_reports_bad_zlib_as_io_error() {
    let mut out = Vec::new();
    let r = Object::cat_object_from_file(b"not zlib at all", &mut out);
    assert!(matches!(r, Err(GitError::IOError(_))));
    assert!(out.is_empty());
}

#[test]
fn cat_object_from_file_of_compressed_object() {
    let stored = zlib(b"blob 11\0hello world");
    let mut out = Vec::new();
    Object::cat_object_from_file(&stored, &mut out).unwrap();
    assert_eq!(out, b"hello world".to_vec());
}

#[test]
fn parse_header_of_each_type() {
    assert_eq!(parse_object_header(b"blob 12\0x").unwrap(), (ObjectType::Blob, 12, 8));
    assert_eq!(parse_object_header(b"tree 0\0").unwrap(), (ObjectType::Tree, 0, 7));
    assert_eq!(parse_object_header(b"commit 245\0").unwrap(), (ObjectType::Commit, 245, 11));
}

#[test]
fn parse_header_rejects_unknown_type() {
    let e = parse_object_header(b"blub 3\0abc").unwrap_err();
    assert_eq!(object_message(e), "invalid object type");
}

#[test]
fn parse_header_rejects_missing_nul() {
    let e = parse_object_header(b"blob 3").unwrap_err();
    assert_eq!(object_message(e), "invalid header");
}

#[test]
fn parse_header_rejects_bad_size() {
    let e = parse_object_header(b"blob 1x\0").unwrap_err();
    assert_eq!(object_message(e), "could not parse object size");
    let e = parse_object_header(b"blob \0").unwrap_err();
    assert_eq!(object_message(e), "could not parse object size");
}

#[test]
fn parse_header_accepts_plus_sign_as_usize_parse_does() {
    assert_eq!(parse_object_header(b"blob +5\0").unwrap(), (ObjectType::Blob, 5, 8));
}

#[test]
fn parse_header_limits_header_length() {
    // the type word must end within the first 32 bytes
    let mut long = vec![b'a'; 40];
    long.push(b' ');
    let e = parse_object_header(&long).unwrap_err();
    assert_eq!(object_message(e), "invalid object type");
}

#[test]
fn from_buffer_then_reader_gives_content() {
    let o = Object::from_buffer(b"blob 4\0datamore").unwrap();
    assert_eq!(o.size, Some(4));
    assert_eq!(o.object_type, Some(ObjectType::Blob));
    assert_eq!(o.reader().unwrap(), b"data".to_vec());
}

#[test]
fn ls_tree_rejects_blob() {
    let e = Object::ls_tree(b"blob 1\0a").unwrap_err();
    assert_eq!(object_message(e), "object not a tree: blob");
}

#[test]
fn validate_object_hash_needs_forty_bytes() {
    assert!(Object::validate_object_hash("0123456789012345678901234567890123456789").is_ok());
    let e = Object::validate_object_hash("abc").unwrap_err();
    assert_eq!(object_message(e), "invalid object hash provided: abc");
}

#[test]
fn object_path_splits_after_two_characters() {
    let p = Object::object_path("ce013625030ba8dba906f756967f9e9ca394464a").unwrap();
    assert_eq!(p, b".git/objects/ce/013625030ba8dba906f756967f9e9ca394464a".to_vec());
}

#[test]
fn object_type_bytes_round_trip() {
    for t in [ObjectType::Blob, ObjectType::Tree, ObjectType::Commit] {
        assert_eq!(ObjectType::from_bytes(&t.to_bytes()).unwrap(), t);
    }
    assert_eq!(ObjectType::Tree.display_name(), "tree");
    assert_eq!(ObjectType::Commit.display_name(), "commit");
    let e = ObjectType::from_bytes(b"tag").unwrap_err();
    assert_eq!(object_message(e), "invalid object type");
}

#[test]
fn header_round_trip_on_concrete_values() {
    let o = Object::create_from_buffer(b"xyz", ObjectType::Commit, 3, true).unwrap();
    let full = unzlib(&o.stored.unwrap().data);
    assert_eq!(parse_object_header(&full).unwrap(), (ObjectType::Commit, 3, 9));
}

#[test]
fn create_commit_writes_hash_line_and_object() {
    let mut out = Vec::new();
    let o = codecrafters_git::commit::Commit::create_commit(
        &mut out,
        "4b825dc642cb6eb9a060e54bf8d69288fbee4904",
        "0000000000000000000000000000000000000000",
        "A U Thor <a@example.com> 0 +0000",
        "first\n",
    )
    .unwrap();
    let content = b"tree 4b825dc642cb6eb9a060e54bf8d69288fbee4904\nparent 0000000000000000000000000000000000000000\nauthor A U Thor <a@example.com> 0 +0000\ncommitter A U Thor <a@example.com> 0 +0000\n\nfirst\n";
    let mut full = format!("commit {}\0", content.len()).into_bytes();
    full.extend_from_slice(content);
    let mut h = sha1_checked::Sha1::new();
    sha1_checked::Digest::update(&mut h, &full);
    let expected: [u8; 20] = sha1_checked::Digest::finalize(h).into();
    let mut line = const_hex::encode(expected).into_bytes();
    line.push(b'\n');
    assert_eq!(out, line);
    assert_eq!(unzlib(&o.stored.unwrap().data), full);
}

#[test]
fn io_error_message_ends_with_newline() {
    let e = GitError::IOError(std::io::Error::new(std::io::ErrorKind::Other, "disk gone"));
    assert_eq!(e.to_string(), "disk gone\n");
    assert_eq!(GitError::ObjectError("bad".to_string()).to_string(), "bad\n");
    assert_eq!(GitError::CLIError("c".to_string()).to_string(), "c\n");
    assert_eq!(GitError::HttpError("h".to_string()).to_string(), "h\n");
}

#[test]
fn created_blob_hash_matches_git() {
    let o = Object::create_from_file(b"test content\n", false).unwrap();
    assert_eq!(o.hash.as_deref(), Some("d670460b4b4aece5915caf5c68d12f560a9fe3e4"));
    assert_eq!(o.size, Some(13));
    assert!(o.reader.is_none());
    assert!(o.stored.is_none());
}

#[test]
fn unwritten_blob_has_no_reader() {
    let o = Object::create_from_file(b"abc", false).unwrap();
    let e = o.reader().unwrap_err();
    assert_eq!(object_message(e), "object file is not on disk");
}

#[test]
fn written_blob_reader_gives_content() {
    let o = Object::create_from_file(b"test content\n", true).unwrap();
    assert!(o.stored.is_some());
    assert_eq!(o.reader().unwrap(), b"test content\n".to_vec());
}

fn noise(n: usize) -> Vec<u8> {
    let mut x: u32 = 12345;
    (0..n)
        .map(|_| {
            x = x.wrapping_mul(1103515245).wrapping_add(12345);
            (x >> 16) as u8
        })
        .collect()
}

fn with_damaged_checksum(data: &[u8]) -> Vec<u8> {
    let mut stored = zlib(data);
    let last = stored.len() - 1;
    stored[last] ^= 0xff;
    stored
}

#[test]
fn stored_object_with_damaged_tail_reads_declared_content() {
    let mut full = b"blob 5\0hello".to_vec();
    full.extend(noise(200_000));
    let stored = with_damaged_checksum(&full);
    let mut whole = Vec::new();
    assert!(flate2::read::ZlibDecoder::new(&stored[..]).read_to_end(&mut whole).is_err());
    let mut out = b"> ".to_vec();
    Object::cat_object_from_file(&stored, &mut out).unwrap();
    assert_eq!(out, b"> hello".to_vec());
}

#[test]
fn read_stored_header_then_content() {
    let stored = zlib(b"tree 3\0abcdef");
    let (t, size, h) = Object::read_stored_header(&stored).unwrap();
    assert_eq!(t, ObjectType::Tree);
    assert_eq!(size, 3);
    assert_eq!(h, 7);
    assert_eq!(Object::read_stored_content(&stored, h, size).unwrap(), b"abc".to_vec());
}

#[test]
fn read_stored_content_stops_at_end_of_data() {
    let stored = zlib(b"blob 10\0abc");
    assert_eq!(Object::read_stored_content(&stored, 8, 10).unwrap(), b"abc".to_vec());
    assert_eq!(Object::read_stored_content(&stored, 20, 10).unwrap(), Vec::<u8>::new());
}

#[test]
fn read_stored_header_reports_bad_zlib_as_io_error() {
    assert!(matches!(Object::read_stored_header(b"not zlib"), Err(GitError::IOError(_))));
    assert!(matches!(Object::read_stored_content(b"not zlib", 0, 4), Err(GitError::IOError(_))));
}

#[test]
fn read_stored_header_reports_header_errors() {
    let e = Object::read_stored_header(&zlib(b"blub 1\0x")).unwrap_err();
    assert_eq!(object_message(e), "invalid object type");
    let e = Object::read_stored_header(&zlib(b"blob 1x")).unwrap_err();
    assert_eq!(object_message(e), "invalid header");
}
