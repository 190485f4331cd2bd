use std::io::{Read, Write};

use codecrafters_git::object::ObjectType;
use codecrafters_git::protocol::{
    collect_band1, parse_ofs_delta, parse_pack_header, parse_pack_object_header, parse_pkt_line,
    parse_ref_line, read_advertised_refs, GitClient, OfsError, PackEnd, PackHeaderError,
    PackObjError, PackObjectType, PktError, RefLineError, UploadPackCompute,
};
use codecrafters_git::GitError;

const HASH: &str = "47b37f1a82bfe85f6d8df52b6258b75e4343b7fd";

fn zlib(data: &[u8]) -> Vec<u8> {
    let mut e = flate2::write::ZlibEncoder::new(Vec::new(), flate2::Compression::default());
    e.write_all(data).unwrap();
    e.finish().unwrap()
}

fn unzlib(data: &[u8]) -> Vec<u8> {
    let mut d = flate2::read::ZlibDecoder::new(data);
    let mut out = Vec::new();
    d.read_to_end(&mut out).unwrap();
    out
}

fn sha1_hex(data: &[u8]) -> String {
    let mut h = sha1_checked::Sha1::new();
    sha1_checked::Digest::update(&mut h, data);
    let d: [u8; 20] = sha1_checked::Digest::finalize(h).into();
    const_hex::encode(d)
}

fn pack_object_header(code: u8, size: usize) -> Vec<u8> {
    let mut v = Vec::new();
    let mut b = (code << 4) | (size & 15) as u8;
    let mut rest = size >> 4;
    while rest > 0 {
        v.push(b | 0x80);
        b = (rest & 0x7f) as u8;
        rest >>= 7;
    }
    v.push(b);
    v
}

fn pack(objects: &[(u8, &[u8])]) -> Vec<u8> {
    let mut p = b"PACK".to_vec();
    p.extend_from_slice(&2u32.to_be_bytes());
    p.extend_from_slice(&(objects.len() as u32).to_be_bytes());
    for (code, data) in objects {
        p.extend(pack_object_header(*code, data.len()));
        p.extend(zlib(data));
    }
    p
}

fn band1_response(payload: &[u8]) -> Vec<u8> {
    let mut r = b"0008NAK\n".to_vec();
    for chunk in payload.chunks(100) {
        r.extend(format!("{:04x}", chunk.len() + 5).into_bytes());
        r.push(1);
        r.extend_from_slice(chunk);
    }
    r.extend(b"0000");
    r
}

fn compute_for(url: &str) -> UploadPackCompute {
    let body = format!(
        "001e# service=git-upload-pack\n0000015c{HASH} HEAD\0multi_ack\n003f{HASH} refs/heads/master\n0000"
    );
    let discovery = GitClient::repo(url.to_string(), b".".to_vec()).upload_pack();
    match discovery.exec(&body) {
        Ok(c) => c,
        Err(a) => panic!("discovery failed: {}", a.message),
    }
}

#[test]
fn pkt_line_without_band() {
    let r = parse_pkt_line(b"0009hellorest").unwrap();
    assert_eq!(r, Some((0u8, b"hello".to_vec(), 9)));
}

#[test]
fn pkt_line_with_band() {
    let r = parse_pkt_line(b"0006\x01ab").unwrap();
    assert_eq!(r, Some((1u8, b"a".to_vec(), 6)));
}

#[test]
fn pkt_line_flush() {
    assert_eq!(parse_pkt_line(b"0000more").unwrap(), None);
}

#[test]
fn pkt_line_errors() {
    assert!(matches!(parse_pkt_line(b"00"), Err(PktError::Incomplete)));
    assert!(matches!(parse_pkt_line(b"zzzz"), Err(PktError::InvalidLength)));
    assert!(matches!(parse_pkt_line(b"0003"), Err(PktError::LengthUnderflow)));
    assert!(matches!(parse_pkt_line(b"0004\x02"), Err(PktError::LengthUnderflow)));
    assert!(matches!(parse_pkt_line(b"0010abc"), Err(PktError::BadLength)));
}

#[test]
fn pkt_line_length_accepts_upper_case_and_plus() {
    assert_eq!(parse_pkt_line(b"000Aabcdef").unwrap(), Some((0u8, b"abcdef".to_vec(), 10)));
    assert_eq!(parse_pkt_line(b"+008abcd").unwrap(), Some((0u8, b"abcd".to_vec(), 8)));
}

#[test]
fn pack_header_count() {
    let mut p = b"PACK".to_vec();
    p.extend_from_slice(&2u32.to_be_bytes());
    p.extend_from_slice(&258u32.to_be_bytes());
    assert_eq!(parse_pack_header(&p).unwrap(), 258);
}

#[test]
fn pack_header_errors() {
    assert!(matches!(parse_pack_header(b"PACX\0\0\0\x02\0\0\0\x01"), Err(PackHeaderError::BadSignature)));
    assert!(matches!(parse_pack_header(b"PACK\0\0\0\x02\0\0"), Err(PackHeaderError::Incomplete)));
}

#[test]
fn pack_object_header_sizes() {
    assert_eq!(parse_pack_object_header(&[0x35]).unwrap(), (5, 3, 1));
    assert_eq!(parse_pack_object_header(&[0x95, 0x0a]).unwrap(), (165, 1, 2));
    let h = pack_object_header(2, 100_000);
    assert_eq!(parse_pack_object_header(&h).unwrap(), (100_000, 2, h.len()));
}

#[test]
fn pack_object_header_errors() {
    assert!(matches!(parse_pack_object_header(&[]), Err(PackObjError::Empty)));
    assert!(matches!(parse_pack_object_header(&[0x95, 0x80]), Err(PackObjError::Truncated(1))));
}

#[test]
fn ofs_delta_offset_length() {
    assert_eq!(parse_ofs_delta(&[0x05, 0xff]).unwrap(), 1);
    assert_eq!(parse_ofs_delta(&[0x85, 0x80, 0x01]).unwrap(), 3);
    assert!(matches!(parse_ofs_delta(&[]), Err(OfsError::Incomplete)));
    assert!(matches!(parse_ofs_delta(&[0x85]), Err(OfsError::Incomplete)));
}

#[test]
fn ref_line_reads_hash_and_name() {
    let line = format!("003f{HASH} refs/heads/master");
    let r = parse_ref_line(line.as_bytes()).unwrap_or_else(|_| panic!("not a ref"));
    assert_eq!(r.hash, HASH.as_bytes().to_vec());
    assert_eq!(r.name(), b"refs/heads/master".to_vec());
}

#[test]
fn ref_line_head_drops_capabilities() {
    let line = format!("0155{HASH} HEAD\0multi_ack thin-pack");
    let r = parse_ref_line(line.as_bytes()).unwrap_or_else(|_| panic!("not a ref"));
    assert_eq!(r.hash, HASH.as_bytes().to_vec());
    assert_eq!(r.name, b"HEAD".to_vec());
}

#[test]
fn ref_line_errors() {
    assert!(matches!(parse_ref_line(b"0000"), Err(RefLineError::NotRef)));
    assert!(matches!(parse_ref_line(b"# service"), Err(RefLineError::NotRef)));
    assert!(matches!(parse_ref_line(b"abc refs/x"), Err(RefLineError::ShortHash)));
}

#[test]
fn advertised_refs_skip_first_line_and_stop_at_non_ref() {
    let body = format!(
        "001e# service=git-upload-pack\n003f{HASH} refs/heads/master\r\n0000\n003f{HASH} refs/heads/other\n"
    );
    let refs = match read_advertised_refs(body.as_bytes()) {
        Ok(r) => r,
        Err(a) => panic!("{}", a.message),
    };
    assert_eq!(refs.len(), 1);
    assert_eq!(refs[0].name, b"refs/heads/master".to_vec());
}

#[test]
fn advertised_refs_short_hash_aborts() {
    let body = "first\nabc refs/heads/x\n";
    match read_advertised_refs(body.as_bytes()) {
        Ok(_) => panic!("expected a stop"),
        Err(a) => assert_eq!(a.message, "byte index 4 is out of range"),
    }
}

#[test]
fn discovery_url_and_request_body() {
    let url = "https://example.com/repo.git";
    let d = GitClient::repo(url.to_string(), b".".to_vec()).upload_pack();
    assert_eq!(d.discovery_url(), "https://example.com/repo.git/info/refs?service=git-upload-pack");
    let c = compute_for(url);
    assert_eq!(c.advertised.len(), 2);
    // the HEAD line follows the flush packet on the same line, so its hex run is longer
    assert_eq!(c.advertised[0].hash, format!("015c{HASH}").into_bytes());
    assert_eq!(c.upload_pack_url(), "https://example.com/repo.git/git-upload-pack");
    let expected = format!(
        "0054want {HASH} multi_ack side-band-64k ofs-delta\n0032want {HASH}\n00000009done\n"
    );
    assert_eq!(String::from_utf8(c.request_body()).unwrap(), expected);
}

#[test]
fn want_lines_read_back_as_pkt_lines() {
    let c = compute_for("u");
    let body = c.request_body();
    let (b1, p1, n1) = parse_pkt_line(&body).unwrap().unwrap();
    assert_eq!((b1, n1), (0, 84));
    assert_eq!(p1, format!("want {HASH} multi_ack side-band-64k ofs-delta\n").into_bytes());
    let (_, p2, n2) = parse_pkt_line(&body[84..]).unwrap().unwrap();
    assert_eq!(n2, 50);
    assert_eq!(p2, format!("want {HASH}\n").into_bytes());
    assert_eq!(parse_pkt_line(&body[134..]).unwrap(), None);
}

#[test]
fn band_one_payload_is_gathered() {
    let r = band1_response(b"abcdef");
    match collect_band1(&r) {
        Ok(p) => assert_eq!(p, b"abcdef".to_vec()),
        Err(a) => panic!("{}", a.message),
    }
    let mut mixed = b"0008\x02abc".to_vec();
    mixed.extend(b"0006\x01x0000");
    match collect_band1(&mixed) {
        Ok(p) => assert_eq!(p, b"x".to_vec()),
        Err(a) => panic!("{}", a.message),
    }
    match collect_band1(b"0009ab") {
        Ok(_) => panic!("expected a stop"),
        Err(a) => assert_eq!(a.message, "bad pkt length"),
    }
}

#[test]
fn pack_objects_are_prepared_for_storage() {
    let commit = format!("tree {}\nauthor x\n\nmsg\n", "4b825dc642cb6eb9a060e54bf8d69288fbee4904");
    let p = pack(&[(1, commit.as_bytes()), (3, b"hello\n"), (2, b"")]);
    let out = compute_for("u").exec(&band1_response(&p));
    let mut full_commit = format!("commit {}\0", commit.len()).into_bytes();
    full_commit.extend_from_slice(commit.as_bytes());
    match &out.end {
        PackEnd::Head(h) => assert_eq!(h, &sha1_hex(&full_commit)),
        PackEnd::Aborted(a) => panic!("{}", a.message),
    }
    assert_eq!(out.objects.len(), 3);
    assert_eq!(unzlib(&out.objects[0].data), full_commit);
    assert_eq!(unzlib(&out.objects[1].data), b"blob 6\0hello\n".to_vec());
    assert_eq!(
        out.objects[1].path,
        b"./.git/objects/ce/013625030ba8dba906f756967f9e9ca394464a".to_vec()
    );
    assert_eq!(unzlib(&out.objects[2].data), b"tree 0\0".to_vec());
}

#[test]
fn pack_without_commit_stops() {
    let p = pack(&[(3, b"x")]);
    let out = compute_for("u").exec(&band1_response(&p));
    assert_eq!(out.objects.len(), 1);
    match out.end {
        PackEnd::Aborted(a) => assert_eq!(a.message, "did not receive any commits"),
        _ => panic!("expected a stop"),
    }
}

#[test]
fn pack_with_bad_signature_stops() {
    let mut p = pack(&[(1, b"c")]);
    p[0] = b'X';
    let out = compute_for("u").exec(&band1_response(&p));
    assert!(out.objects.is_empty());
    match out.end {
        PackEnd::Aborted(a) => assert_eq!(a.message, "invalid PACK signature"),
        _ => panic!("expected a stop"),
    }
}

#[test]
fn pack_with_bad_object_type_stops() {
    let p = pack(&[(5, b"c")]);
    let out = compute_for("u").exec(&band1_response(&p));
    match out.end {
        PackEnd::Aborted(a) => assert_eq!(a.message, "bad pack object type encountered"),
        _ => panic!("expected a stop"),
    }
}

#[test]
fn pack_skips_delta_objects() {
    let mut p = b"PACK".to_vec();
    p.extend_from_slice(&2u32.to_be_bytes());
    p.extend_from_slice(&2u32.to_be_bytes());
    p.extend(pack_object_header(6, 3));
    p.push(0x05);
    p.extend(zlib(b"dlt"));
    p.extend(pack_object_header(1, 1));
    p.extend(zlib(b"c"));
    let out = compute_for("u").exec(&band1_response(&p));
    assert_eq!(out.objects.len(), 1);
    assert!(matches!(out.end, PackEnd::Head(_)));
}

#[test]
fn pack_with_corrupt_stream_stops() {
    let mut p = b"PACK".to_vec();
    p.extend_from_slice(&2u32.to_be_bytes());
    p.extend_from_slice(&1u32.to_be_bytes());
    p.extend(pack_object_header(1, 1));
    p.extend_from_slice(b"\xff\xff\xff\xff");
    let out = compute_for("u").exec(&band1_response(&p));
    match out.end {
        PackEnd::Aborted(a) => assert_eq!(a.message, "failed to inflate pack object"),
        _ => panic!("expected a stop"),
    }
}

#[test]
fn plain_pack_types_map_to_object_types() {
    assert_eq!(ObjectType::from_pack_type(&PackObjectType::Commit), ObjectType::Commit);
    assert_eq!(ObjectType::from_pack_type(&PackObjectType::Tree), ObjectType::Tree);
    assert_eq!(ObjectType::from_pack_type(&PackObjectType::Blob), ObjectType::Blob);
}

#[test]
fn error_type_for_failed_storage_is_io() {
    // an I/O error keeps its variant through the library's error type
    let e = GitError::IOError(std::io::Error::new(std::io::ErrorKind::Other, "x"));
    assert!(matches!(e, GitError::IOError(_)));
}

#[test]
fn pack_head_names_a_stored_object() {
    let p = pack(&[(3, b"blob first"), (1, b"tree x\n"), (1, b"second commit")]);
    let out = compute_for("u").exec(&band1_response(&p));
    let head = match out.end {
        PackEnd::Head(h) => h,
        _ => panic!("expected a head"),
    };
    let path = format!("./.git/objects/{}/{}", &head[..2], &head[2..]).into_bytes();
    assert_eq!(out.objects[1].path, path);
    assert!(out.objects.iter().filter(|f| f.path == path).count() == 1);
}

#[test]
fn pack_objects_are_stored_below_the_local_directory() {
    let body = format!("x\n003f{HASH} refs/heads/master\n0000");
    let p = pack(&[(3, b"hello\n"), (1, b"c")]);
    for (dir, prefix) in [("", ""), ("repo", "repo/"), ("repo/", "repo/"), ("/tmp/r", "/tmp/r/")] {
        let d = GitClient::repo("u".to_string(), dir.as_bytes().to_vec()).upload_pack();
        let c = match d.exec(&body) {
            Ok(c) => c,
            Err(a) => panic!("{}", a.message),
        };
        let out = c.exec(&band1_response(&p));
        assert_eq!(
            out.objects[0].path,
            format!("{prefix}.git/objects/ce/013625030ba8dba906f756967f9e9ca394464a").into_bytes()
        );
        let expected = std::path::Path::new(dir).join(".git/objects/ce/013625030ba8dba906f756967f9e9ca394464a");
        assert_eq!(out.objects[0].path, expected.to_str().unwrap().as_bytes().to_vec());
    }
}
