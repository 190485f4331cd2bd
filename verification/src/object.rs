//! Loose git objects: type tags, headers, hashing and the stored encoding.

use vstd::prelude::*;
use vstd::utf8::*;
use vstd::string::{StringExecFns, StringSliceAdditionalSpecFns};
use crate::{GitError, GitResult};
use crate::bytes::{append_bytes, copy_range};
use crate::external::{hex_encode, hex_char, hex_lower, sha1_checked_digest, sha1_digest, zlib_compress, zlib_decompress, zlib_decompress_prefix, zlib_fast_compressed, zlib_inflated, zlib_inflated_prefix};
use crate::numfmt::{
    all_digits, decimal_bytes, decimal_digits, is_digit, lemma_decimal_digits,
    lemma_usize_decimal_len, parse_usize, parse_usize_spec, strip_plus,
};

verus! {

broadcast use vstd::string::group_string_axioms;

/// The kinds of loose objects the library handles.
#[derive(Debug, PartialEq, Eq, Structural, Clone, Copy)]
pub enum ObjectType {
    Blob,
    Tree,
    Commit,
}

/// The tag that names an object type in an object header.
pub open spec fn type_tag(t: ObjectType) -> Seq<u8> {
    match t {
        ObjectType::Blob => seq![98u8, 108u8, 111u8, 98u8],
        ObjectType::Tree => seq![116u8, 114u8, 101u8, 101u8],
        ObjectType::Commit => seq![99u8, 111u8, 109u8, 109u8, 105u8, 116u8],
    }
}

/// The object type a header tag names, if any.
pub open spec fn tag_type(tag: Seq<u8>) -> Option<ObjectType> {
    if tag == type_tag(ObjectType::Blob) {
        Some(ObjectType::Blob)
    } else if tag == type_tag(ObjectType::Tree) {
        Some(ObjectType::Tree)
    } else if tag == type_tag(ObjectType::Commit) {
        Some(ObjectType::Commit)
    } else {
        None
    }
}

/// The text an object type is displayed as.
pub open spec fn type_text(t: ObjectType) -> Seq<char> {
    match t {
        ObjectType::Blob => "blob"@,
        ObjectType::Tree => "tree"@,
        ObjectType::Commit => "commit"@,
    }
}

/// `e` is an object error carrying exactly the message `msg`.
pub open spec fn is_object_error(e: GitError, msg: Seq<char>) -> bool {
    e matches GitError::ObjectError(m) && m@ == msg
}

/// Builds an object error with the given message.
pub fn object_error(msg: &str) -> (e: GitError)
    ensures
        is_object_error(e, msg@),
{
    GitError::ObjectError(msg.to_string())
}

impl ObjectType {
    /// Reads a header tag.
    pub fn from_bytes(bytes: &[u8]) -> (r: GitResult<ObjectType>)
        ensures
            match tag_type(bytes@) {
                Some(t) => r matches Ok(u) && u == t,
                None => r matches Err(e) && is_object_error(e, "invalid object type"@),
            },
    {
        let n = bytes.len();
        if n == 4 && bytes[0] == 98 && bytes[1] == 108 && bytes[2] == 111 && bytes[3] == 98 {
            assert(bytes@ =~= type_tag(ObjectType::Blob));
            Ok(ObjectType::Blob)
        } else if n == 4 && bytes[0] == 116 && bytes[1] == 114 && bytes[2] == 101 && bytes[3]
            == 101 {
            assert(bytes@ =~= type_tag(ObjectType::Tree));
            Ok(ObjectType::Tree)
        } else if n == 6 && bytes[0] == 99 && bytes[1] == 111 && bytes[2] == 109 && bytes[3]
            == 109 && bytes[4] == 105 && bytes[5] == 116 {
            assert(bytes@ =~= type_tag(ObjectType::Commit));
            Ok(ObjectType::Commit)
        } else {
            assert(bytes@ != type_tag(ObjectType::Blob) && bytes@ != type_tag(ObjectType::Tree)
                && bytes@ != type_tag(ObjectType::Commit)) by {
                if bytes@ == type_tag(ObjectType::Blob) {
                    assert(bytes@[0] == 98);
                }
                if bytes@ == type_tag(ObjectType::Tree) {
                    assert(bytes@[0] == 116);
                }
                if bytes@ == type_tag(ObjectType::Commit) {
                    assert(bytes@[0] == 99);
                }
            }
            Err(object_error("invalid object type"))
        }
    }

    /// The header tag of this type.
    pub fn to_bytes(&self) -> (r: Vec<u8>)
        ensures
            r@ == type_tag(*self),
    {
        match self {
            ObjectType::Blob => vec![98u8, 108u8, 111u8, 98u8],
            ObjectType::Tree => vec![116u8, 114u8, 101u8, 101u8],
            ObjectType::Commit => vec![99u8, 111u8, 109u8, 109u8, 105u8, 116u8],
        }
    }

    /// The text this type is displayed as.
    pub fn display_name(&self) -> (r: String)
        ensures
            r@ == type_text(*self),
    {
        match self {
            ObjectType::Blob => "blob".to_string(),
            ObjectType::Tree => "tree".to_string(),
            ObjectType::Commit => "commit".to_string(),
        }
    }
}

/// Reading back the tag of any type gives that type.
pub proof fn law_type_tag_round_trip(t: ObjectType)
    ensures
        tag_type(type_tag(t)) == Some(t),
{
    if t == ObjectType::Tree {
        assert(type_tag(ObjectType::Tree)[0] != type_tag(ObjectType::Blob)[0]);
    }
    if t == ObjectType::Commit {
        assert(type_tag(ObjectType::Commit).len() != type_tag(ObjectType::Blob).len());
        assert(type_tag(ObjectType::Commit).len() != type_tag(ObjectType::Tree).len());
    }
}

/// The most bytes the header of a stored object may take.
pub const MAX_OBJECT_HEADER: usize = 32;

/// From position `i`, the end of a read that stops after the first `delim`
/// or at `limit` bytes or at the end of `s`.
pub open spec fn until_from(s: Seq<u8>, delim: u8, limit: int, i: int) -> int
    decreases limit - i,
{
    if i >= limit || i >= s.len() {
        i
    } else if s[i] == delim {
        i + 1
    } else {
        until_from(s, delim, limit, i + 1)
    }
}

/// How many bytes a read of at most `limit` bytes up to and including the
/// first `delim` takes from the front of `s` (as `take(limit).read_until`).
pub open spec fn read_until_len(s: Seq<u8>, delim: u8, limit: int) -> int {
    until_from(s, delim, limit, 0)
}

/// The read stops right after the first `delim` when it lies within reach.
pub proof fn lemma_until_found(s: Seq<u8>, delim: u8, limit: int, k: int, i: int)
    requires
        0 <= i <= k,
        k < limit,
        k < s.len(),
        s[k] == delim,
        forall|j: int| 0 <= j < k ==> s[j] != delim,
    ensures
        until_from(s, delim, limit, i) == k + 1,
    decreases k - i,
{
    if i < k {
        lemma_until_found(s, delim, limit, k, i + 1);
    }
}

/// Reads at most `limit` bytes, stopping after the first `delim`.
fn read_until_exec(s: &[u8], delim: u8, limit: usize) -> (n: usize)
    ensures
        n as int == read_until_len(s@, delim, limit as int),
        n <= limit,
        n <= s.len(),
{
    let mut i: usize = 0;
    while i < limit && i < s.len()
        invariant
            i <= limit,
            i <= s.len(),
            until_from(s@, delim, limit as int, i as int) == read_until_len(
                s@,
                delim,
                limit as int,
            ),
        decreases s.len() - i,
    {
        if s[i] == delim {
            return i + 1;
        }
        i = i + 1;
    }
    i
}

/// Why an object header does not parse.
pub enum HeaderError {
    InvalidType,
    InvalidHeader,
    BadSize,
}

/// The header `<type> <decimal size>\0` of a stored object.
pub open spec fn header_bytes(t: ObjectType, size: nat) -> Seq<u8> {
    type_tag(t) + seq![32u8] + decimal_digits(size) + seq![0u8]
}

/// What reading an object header from the front of `s` gives: its type, the
/// size it declares and the number of header bytes; or why it fails.
pub open spec fn parse_header_spec(s: Seq<u8>) -> Result<(ObjectType, nat, int), HeaderError> {
    let tlen = read_until_len(s, 32, MAX_OBJECT_HEADER as int);
    let chunk = s.take(tlen);
    let tag = if tlen > 0 && chunk[tlen - 1] == 32 {
        chunk.take(tlen - 1)
    } else {
        chunk
    };
    match tag_type(tag) {
        None => Err(HeaderError::InvalidType),
        Some(t) => {
            let rest = s.skip(tlen);
            let slen = read_until_len(rest, 0, MAX_OBJECT_HEADER - tlen);
            if slen == 0 || rest[slen - 1] != 0 {
                Err(HeaderError::InvalidHeader)
            } else {
                match parse_usize_spec(rest.take(slen - 1)) {
                    Some(n) => Ok((t, n, tlen + slen)),
                    None => Err(HeaderError::BadSize),
                }
            }
        },
    }
}

/// The error value that reports a header failure.
pub open spec fn header_error_is(e: GitError, k: HeaderError) -> bool {
    match k {
        HeaderError::InvalidType => is_object_error(e, "invalid object type"@),
        HeaderError::InvalidHeader => is_object_error(e, "invalid header"@),
        HeaderError::BadSize => is_object_error(e, "could not parse object size"@),
    }
}

/// Reads the header at the front of decompressed object data: the type, the
/// declared size and the number of header bytes.
pub fn parse_object_header(data: &[u8]) -> (r: GitResult<(ObjectType, usize, usize)>)
    ensures
        match parse_header_spec(data@) {
            Ok((t, n, h)) => r matches Ok((t2, n2, h2)) && t2 == t && n2 == n && h2 == h,
            Err(k) => r matches Err(e) && header_error_is(e, k),
        },
        r matches Ok((_, _, h)) ==> h <= data.len(),
{
    let tlen = read_until_exec(data, 32, MAX_OBJECT_HEADER);
    let tag_len = if tlen > 0 && data[tlen - 1] == 32 {
        tlen - 1
    } else {
        tlen
    };
    assert(data@.take(tlen as int).take(tag_len as int) =~= data@.subrange(0, tag_len as int));
    assert(data@.take(tlen as int) =~= data@.subrange(0, tlen as int));
    let object_type = ObjectType::from_bytes(&data[0..tag_len])?;
    let rest = &data[tlen..data.len()];
    assert(rest@ =~= data@.skip(tlen as int));
    let slen = read_until_exec(rest, 0, MAX_OBJECT_HEADER - tlen);
    if slen == 0 || rest[slen - 1] != 0 {
        return Err(object_error("invalid header"));
    }
    assert(rest@.take(slen - 1) =~= rest@.subrange(0, slen - 1));
    match parse_usize(&rest[0..slen - 1]) {
        Some(n) => Ok((object_type, n, tlen + slen)),
        None => Err(object_error("could not parse object size")),
    }
}

/// The content a reader limited to `size` bytes gives from `b`.
pub open spec fn body_of(b: Seq<u8>, size: nat) -> Seq<u8> {
    if size <= b.len() {
        b.take(size as int)
    } else {
        b
    }
}

/// Content already limited to `size` bytes stays as it is.
pub proof fn lemma_body_of_within(c: Seq<u8>, size: nat)
    requires
        c.len() <= size,
    ensures
        body_of(c, size) == c,
{
    assert(c.take(c.len() as int) =~= c);
}

/// What reading an object (header, then its declared number of content
/// bytes) from decompressed data gives.
pub open spec fn cat_spec(data: Seq<u8>) -> Result<Seq<u8>, HeaderError> {
    match parse_header_spec(data) {
        Ok((t, n, h)) => Ok(body_of(data.skip(h), n)),
        Err(k) => Err(k),
    }
}

/// The read stops at the same place in a prefix of `s` that is at least
/// `limit` bytes long, or that is all of `s`.
pub proof fn lemma_until_take(s: Seq<u8>, m: int, delim: u8, limit: int, i: int)
    requires
        0 <= i,
        0 <= m <= s.len(),
        limit <= m || m == s.len(),
    ensures
        until_from(s.take(m), delim, limit, i) == until_from(s, delim, limit, i),
    decreases limit - i,
{
    if i < limit && i < m {
        lemma_until_take(s, m, delim, limit, i + 1);
    }
}

/// A read from `i` ends within the limit and within the data.
pub proof fn lemma_until_bound(s: Seq<u8>, delim: u8, limit: int, i: int)
    requires
        0 <= i <= limit,
        i <= s.len(),
    ensures
        i <= until_from(s, delim, limit, i) <= limit,
        until_from(s, delim, limit, i) <= s.len(),
    decreases limit - i,
{
    if i < limit && i < s.len() && s[i] != delim {
        lemma_until_bound(s, delim, limit, i + 1);
    }
}

/// The header is read from the first `MAX_OBJECT_HEADER` bytes alone, and
/// lies within them.
pub proof fn lemma_header_prefix(s: Seq<u8>)
    ensures
        ({
            let m = if s.len() < MAX_OBJECT_HEADER { s.len() as int } else { MAX_OBJECT_HEADER as int };
            parse_header_spec(s.take(m)) == parse_header_spec(s)
        }),
        parse_header_spec(s) matches Ok((_, _, h)) ==> 0 <= h <= MAX_OBJECT_HEADER && h <= s.len(),
{
    let lim = MAX_OBJECT_HEADER as int;
    let m = if s.len() < MAX_OBJECT_HEADER { s.len() as int } else { lim };
    let p = s.take(m);
    lemma_until_take(s, m, 32, lim, 0);
    lemma_until_bound(s, 32, lim, 0);
    let tlen = read_until_len(s, 32, lim);
    assert(p.take(tlen) =~= s.take(tlen));
    let rs = s.skip(tlen);
    let rp = p.skip(tlen);
    assert(rp =~= rs.take(m - tlen));
    lemma_until_take(rs, m - tlen, 0, lim - tlen, 0);
    lemma_until_bound(rs, 0, lim - tlen, 0);
    let slen = read_until_len(rs, 0, lim - tlen);
    if slen > 0 {
        assert(rp[slen - 1] == rs[slen - 1]);
        assert(rp.take(slen - 1) =~= rs.take(slen - 1));
    }
}

/// What reading the header of a stored object gives: `None` where the
/// decompression fails first, else the header read from the first
/// `MAX_OBJECT_HEADER` decompressed bytes. Where the whole stored stream
/// decompresses, those are the first bytes of its data.
pub open spec fn stored_header_spec(stored: Seq<u8>) -> Option<Result<(ObjectType, nat, int), HeaderError>> {
    match zlib_inflated(stored) {
        Some(d) => Some(parse_header_spec(d)),
        None => match zlib_inflated_prefix(stored, MAX_OBJECT_HEADER as nat) {
            None => None,
            Some(hd) => Some(parse_header_spec(hd)),
        },
    }
}

/// The content a reader limited to `size` bytes gives once `h` header
/// bytes were read from `d`.
pub open spec fn content_after(d: Seq<u8>, h: int, size: nat) -> Seq<u8> {
    if 0 <= h <= d.len() {
        body_of(d.skip(h), size)
    } else {
        seq![]
    }
}

/// What reading the content of a stored object after its `h` header bytes
/// gives, `size` bytes at most: `None` where the decompression fails first.
/// Only the first `h + size` decompressed bytes are read; a size that does
/// not fit that sum in memory reads the stream to its end.
pub open spec fn stored_content_spec(stored: Seq<u8>, h: int, size: nat) -> Option<Seq<u8>> {
    match zlib_inflated(stored) {
        Some(d) => Some(content_after(d, h, size)),
        None => if h + size > usize::MAX {
            None
        } else {
            match zlib_inflated_prefix(stored, (h + size) as nat) {
                None => None,
                Some(v) => Some(content_after(v, h, size)),
            }
        },
    }
}

/// What reading a stored object (its header, then its declared number of
/// content bytes) gives: `None` where the decompression fails first.
pub open spec fn stored_cat_spec(stored: Seq<u8>) -> Option<Result<Seq<u8>, HeaderError>> {
    match stored_header_spec(stored) {
        None => None,
        Some(Err(k)) => Some(Err(k)),
        Some(Ok((t, n, h))) => match stored_content_spec(stored, h, n) {
            None => None,
            Some(c) => Some(Ok(c)),
        },
    }
}

/// Where the whole stored stream decompresses, reading the object from it
/// gives what reading it from the decompressed data gives.
pub proof fn lemma_stored_intact(stored: Seq<u8>)
    requires
        zlib_inflated(stored) is Some,
    ensures
        stored_cat_spec(stored) == match cat_spec(zlib_inflated(stored)->Some_0) {
            Ok(c) => Some(Ok::<_, HeaderError>(c)),
            Err(k) => Some(Err(k)),
        },
{
    lemma_header_prefix(zlib_inflated(stored)->Some_0);
}

/// `.git/objects/` as bytes.
pub open spec fn objects_dir() -> Seq<u8> {
    seq![46u8, 103u8, 105u8, 116u8, 47u8, 111u8, 98u8, 106u8, 101u8, 99u8, 116u8, 115u8, 47u8]
}

/// Where the loose object with the given hex name is stored:
/// `.git/objects/<first two>/<rest>`.
pub open spec fn loose_object_path(hash: Seq<u8>) -> Seq<u8> {
    objects_dir() + hash.take(2) + seq![47u8] + hash.skip(2)
}

/// The bytes of the lowercase hex text of `b`.
pub open spec fn hex_ascii(b: Seq<u8>) -> Seq<u8> {
    Seq::new(hex_lower(b).len(), |i: int| hex_lower(b)[i] as u8)
}

pub proof fn lemma_hex_lower(b: Seq<u8>)
    ensures
        hex_lower(b).len() == 2 * b.len(),
        is_ascii_chars(hex_lower(b)),
    decreases b.len(),
{
    if b.len() > 0 {
        lemma_hex_lower(b.drop_first());
        let h = hex_lower(b);
        let first = seq![hex_char(b[0] / 16), hex_char(b[0] % 16)];
        assert(h == first + hex_lower(b.drop_first()));
        assert forall|i: int| 0 <= i < h.len() implies '\0' <= #[trigger] h[i] <= '\u{7f}' by {
            if i >= 2 {
                assert(h[i] == hex_lower(b.drop_first())[i - 2]);
            }
        }
    }
}

/// A file to store: its path and bytes.
#[derive(Debug)]
pub struct LooseFile {
    pub path: Vec<u8>,
    pub data: Vec<u8>,
}

/// A loose object, as read from a buffer or created from content.
#[derive(Debug)]
pub struct Object {
    /// The bytes after the header, for objects read from a buffer.
    pub reader: Option<Vec<u8>>,
    /// The hex name of the object, for created objects.
    pub hash: Option<String>,
    /// The SHA-1 of the object, for created objects.
    pub hash_raw: Option<[u8; 20]>,
    pub size: Option<usize>,
    pub object_type: Option<ObjectType>,
    /// The compressed file to persist, for created objects that are written.
    pub stored: Option<LooseFile>,
}

/// Builds `.git/objects/<hash[..2]>/<hash[2..]>`.
fn loose_path_exec(hash: &[u8]) -> (p: Vec<u8>)
    requires
        hash.len() >= 2,
    ensures
        p@ == loose_object_path(hash@),
{
    let mut p: Vec<u8> = vec![46u8, 103u8, 105u8, 116u8, 47u8, 111u8, 98u8, 106u8, 101u8, 99u8, 116u8, 115u8, 47u8];
    append_bytes(&mut p, &hash[0..2]);
    p.push(47u8);
    append_bytes(&mut p, &hash[2..hash.len()]);
    assert(hash@.subrange(0, 2) =~= hash@.take(2));
    assert(hash@.subrange(2, hash@.len() as int) =~= hash@.skip(2));
    p
}

impl Object {
    /// Reads an object header from decompressed data; the rest of the data
    /// becomes the object's reader. The hash is not filled in.
    pub fn from_buffer(data: &[u8]) -> (r: GitResult<Object>)
        ensures
            match parse_header_spec(data@) {
                Ok((t, n, h)) => r matches Ok(o) && (o.object_type == Some(t) && o.size == Some(
                    n as usize,
                ) && (o.reader matches Some(b) && b@ == data@.skip(h)) && o.hash is None
                    && o.hash_raw is None && o.stored is None),
                Err(k) => r matches Err(e) && header_error_is(e, k),
            },
            r matches Ok(o) ==> (o.reader matches Some(b) && b@.len() <= data@.len()),
    {
        let (object_type, size, hlen) = parse_object_header(data)?;
        let body = copy_range(data, hlen, data.len());
        assert(data@.subrange(hlen as int, data@.len() as int) =~= data@.skip(hlen as int));
        Ok(
            Object {
                reader: Some(body),
                hash: None,
                hash_raw: None,
                size: Some(size),
                object_type: Some(object_type),
                stored: None,
            },
        )
    }

    /// The object's content: its reader limited to the declared size.
    pub fn reader(self) -> (r: GitResult<Vec<u8>>)
        requires
            self.size is Some,
        ensures
            match self.reader {
                Some(b) => r matches Ok(v) && v@ == body_of(b@, self.size.unwrap() as nat),
                None => r matches Err(e) && is_object_error(e, "object file is not on disk"@),
            },
    {
        let size = self.size.unwrap();
        match self.reader {
            Some(b) => {
                if size <= b.len() {
                    Ok(copy_range(&b, 0, size))
                } else {
                    Ok(b)
                }
            },
            None => Err(object_error("object file is not on disk")),
        }
    }

    /// Rejects object names shorter than forty bytes.
    pub fn validate_object_hash(object: &str) -> (r: GitResult<()>)
        ensures
            r is Err <==> object.len() < 40,
            r matches Err(e) ==> is_object_error(e, "invalid object hash provided: "@ + object@),
    {
        if object.len() < 40 {
            let mut m = "invalid object hash provided: ".to_string();
            m.append(object);
            return Err(GitError::ObjectError(m));
        }
        Ok(())
    }

    /// Where the object named by `hash` is stored, once the name is valid.
    pub fn object_path(hash: &str) -> (r: GitResult<Vec<u8>>)
        requires
            hash.len() >= 40 ==> is_char_boundary(hash.spec_bytes(), 2),
        ensures
            r is Err <==> hash.len() < 40,
            r matches Err(e) ==> is_object_error(e, "invalid object hash provided: "@ + hash@),
            r matches Ok(p) ==> p@ == loose_object_path(hash.spec_bytes()),
    {
        Self::validate_object_hash(hash)?;
        Ok(loose_path_exec(hash.as_bytes()))
    }

    /// Copies an object's content, read from decompressed data, to `out`.
    pub fn cat_object(data: &[u8], out: &mut Vec<u8>) -> (r: GitResult<()>)
        ensures
            match cat_spec(data@) {
                Ok(c) => r is Ok && final(out)@ == old(out)@ + c,
                Err(k) => r matches Err(e) && header_error_is(e, k) && final(out)@ == old(out)@,
            },
    {
        let obj = Object::from_buffer(data)?;
        let content = obj.reader()?;
        append_bytes(out, &content);
        Ok(())
    }

    /// Reads the header of a stored object file: decompresses no more than
    /// `MAX_OBJECT_HEADER` bytes and reads the type, the declared size and
    /// the number of header bytes from them.
    pub fn read_stored_header(stored: &[u8]) -> (r: GitResult<(ObjectType, usize, usize)>)
        ensures
            match stored_header_spec(stored@) {
                None => r matches Err(e) && e is IOError,
                Some(Err(k)) => r matches Err(e) && header_error_is(e, k),
                Some(Ok((t, n, h))) => r matches Ok((t2, n2, h2)) && t2 == t && n2 == n && h2 == h,
            },
            r matches Ok((_, _, h)) ==> h <= MAX_OBJECT_HEADER,
    {
        let head = match zlib_decompress_prefix(stored, MAX_OBJECT_HEADER) {
            Ok(v) => v,
            Err(e) => return Err(GitError::IOError(e)),
        };
        proof {
            lemma_header_prefix(head@);
            if zlib_inflated(stored@) is Some {
                lemma_header_prefix(zlib_inflated(stored@)->Some_0);
            }
        }
        parse_object_header(&head)
    }

    /// The content that a reader limited to `size` bytes gives from `d`
    /// after its first `h` bytes.
    fn content_after_exec(d: &[u8], h: usize, size: usize) -> (c: Vec<u8>)
        ensures
            c@ == content_after(d@, h as int, size as nat),
    {
        if h <= d.len() {
            let end = if size <= d.len() - h { h + size } else { d.len() };
            let c = copy_range(d, h, end);
            assert(c@ =~= body_of(d@.skip(h as int), size as nat));
            c
        } else {
            Vec::new()
        }
    }

    /// Reads the content of a stored object file after its `h` header
    /// bytes, `size` bytes at most: decompresses no more than `h + size`
    /// bytes, or the whole stream where that sum does not fit in memory.
    pub fn read_stored_content(stored: &[u8], h: usize, size: usize) -> (r: GitResult<Vec<u8>>)
        ensures
            match stored_content_spec(stored@, h as int, size as nat) {
                None => r matches Err(e) && e is IOError,
                Some(c) => r matches Ok(v) && v@ == c,
            },
    {
        let d = if size > usize::MAX - h {
            match zlib_decompress(stored) {
                Ok(v) => v,
                Err(e) => return Err(GitError::IOError(e)),
            }
        } else {
            match zlib_decompress_prefix(stored, h + size) {
                Ok(v) => v,
                Err(e) => return Err(GitError::IOError(e)),
            }
        };
        proof {
            if zlib_inflated(stored@) is Some {
                let full = zlib_inflated(stored@)->Some_0;
                if h <= full.len() && size <= usize::MAX - h {
                    assert(d@.skip(h as int) =~= full.skip(h as int).take(d@.len() - h));
                    if size <= full.len() - h {
                        assert(d@.skip(h as int) =~= full.skip(h as int).take(size as int));
                    } else {
                        assert(d@ =~= full);
                    }
                }
            }
        }
        Ok(Self::content_after_exec(&d, h, size))
    }

    /// Reads a stored object file, header and then content, and copies the
    /// content to `out`. Only as much of the stream is decompressed as the
    /// header and the size it declares take.
    pub fn cat_object_from_file(stored: &[u8], out: &mut Vec<u8>) -> (r: GitResult<()>)
        ensures
            match stored_cat_spec(stored@) {
                None => r matches Err(e) && e is IOError && final(out)@ == old(out)@,
                Some(Ok(c)) => r is Ok && final(out)@ == old(out)@ + c,
                Some(Err(k)) => r matches Err(e) && header_error_is(e, k) && final(out)@ == old(
                    out,
                )@,
            },
    {
        let (_, size, h) = Self::read_stored_header(stored)?;
        let content = Self::read_stored_content(stored, h, size)?;
        append_bytes(out, &content);
        Ok(())
    }

    /// The error that refuses to list an object that is not a tree.
    pub fn not_a_tree(t: ObjectType) -> (e: GitError)
        ensures
            is_object_error(e, "object not a tree: "@ + type_text(t)),
    {
        let mut m = "object not a tree: ".to_string();
        let name = t.display_name();
        m.append(name.as_str());
        GitError::ObjectError(m)
    }

    /// Opens a tree object from decompressed data, rejecting other types.
    pub fn ls_tree(data: &[u8]) -> (r: GitResult<Object>)
        ensures
            match parse_header_spec(data@) {
                Ok((t, n, h)) => if t == ObjectType::Tree {
                    r matches Ok(o) && (o.object_type == Some(t) && o.size == Some(n as usize)
                        && (o.reader matches Some(b) && b@ == data@.skip(h)))
                } else {
                    r matches Err(e) && is_object_error(e, "object not a tree: "@ + type_text(t))
                },
                Err(k) => r matches Err(e) && header_error_is(e, k),
            },
            r matches Ok(o) ==> o.size is Some && (o.reader matches Some(b) && b@.len()
                <= data@.len()),
    {
        let obj = Object::from_buffer(data)?;
        match obj.object_type {
            Some(ObjectType::Tree) => Ok(obj),
            Some(t) => Err(Self::not_a_tree(t)),
            None => Err(object_error("unknown object type")),
        }
    }

    /// Creates an object of the given type from its content: the header
    /// declares `size`, the hash is the SHA-1 of header and content, and when
    /// `do_write` is set the compressed file to store is prepared.
    pub fn create_from_buffer(
        content: &[u8],
        object_type: ObjectType,
        size: usize,
        do_write: bool,
    ) -> (r: GitResult<Object>)
        ensures
            ({
                let full = header_bytes(object_type, size as nat) + content@;
                &&& r is Ok
                &&& r matches Ok(o) ==> {
                    &&& o.hash_raw matches Some(raw) && raw@ == sha1_checked_digest(full)
                    &&& o.hash matches Some(h) && h@ == hex_lower(sha1_checked_digest(full))
                    &&& o.size == Some(size)
                    &&& o.object_type == Some(object_type)
                    &&& o.reader is None
                    &&& if do_write {
                        o.stored matches Some(f) && f.path@ == loose_object_path(
                            hex_ascii(sha1_checked_digest(full)),
                        ) && f.data@ == zlib_fast_compressed(full) && zlib_inflated(f.data@)
                            == Some(full)
                    } else {
                        o.stored is None
                    }
                }
            }),
    {
        let mut full = object_type.to_bytes();
        full.push(32u8);
        let digits = decimal_bytes(size as u64);
        append_bytes(&mut full, &digits);
        full.push(0u8);
        append_bytes(&mut full, content);
        assert(full@ =~= header_bytes(object_type, size as nat) + content@);
        let raw = sha1_digest(&full);
        let hash = hex_encode(&raw);
        let stored = if do_write {
            let data = match zlib_compress(&full) {
                Ok(d) => d,
                Err(e) => return Err(GitError::IOError(e)),
            };
            let hash_bytes = hash.as_str().as_bytes();
            proof {
                lemma_hex_lower(raw@);
                is_ascii_chars_encode_utf8(hash@);
                assert(hash_bytes@ =~= hex_ascii(raw@));
            }
            Some(LooseFile { path: loose_path_exec(hash_bytes), data })
        } else {
            None
        };
        Ok(
            Object {
                reader: None,
                hash: Some(hash),
                hash_raw: Some(raw),
                size: Some(size),
                object_type: Some(object_type),
                stored,
            },
        )
    }

    /// Creates a blob from a file's content. When the blob is written, its
    /// reader gives the object's content back, as read from what is stored;
    /// otherwise it has no reader.
    pub fn create_from_file(content: &[u8], do_write: bool) -> (r: GitResult<Object>)
        ensures
            ({
                let full = header_bytes(ObjectType::Blob, content@.len()) + content@;
                &&& r is Ok
                &&& r matches Ok(o) ==> {
                    &&& o.hash_raw matches Some(raw) && raw@ == sha1_checked_digest(full)
                    &&& o.hash matches Some(h) && h@ == hex_lower(sha1_checked_digest(full))
                    &&& o.size == Some(content.len())
                    &&& o.object_type == Some(ObjectType::Blob)
                    &&& if do_write {
                        &&& o.stored matches Some(f) && f.path@ == loose_object_path(
                            hex_ascii(sha1_checked_digest(full)),
                        ) && f.data@ == zlib_fast_compressed(full) && zlib_inflated(f.data@)
                            == Some(full)
                        &&& o.reader matches Some(b) && b@ == content@
                    } else {
                        &&& o.stored is None
                        &&& o.reader is None
                    }
                }
            }),
    {
        let mut o = Self::create_from_buffer(content, ObjectType::Blob, content.len(), do_write)?;
        if do_write {
            o.reader = Some(copy_range(content, 0, content.len()));
            assert(content@.subrange(0, content@.len() as int) =~= content@);
        }
        Ok(o)
    }

    /// `hash-object`: creates the blob and gives the line that names it.
    pub fn hash_object_from_file(content: &[u8], write: bool) -> (r: GitResult<(Object, Vec<u8>)>)
        ensures
            ({
                let full = header_bytes(ObjectType::Blob, content@.len()) + content@;
                &&& r is Ok
                &&& r matches Ok((o, line)) ==> {
                    &&& line@ == hex_ascii(sha1_checked_digest(full)).push(10u8)
                    &&& o.hash_raw matches Some(raw) && raw@ == sha1_checked_digest(full)
                    &&& o.object_type == Some(ObjectType::Blob)
                    &&& if write {
                        o.stored matches Some(f) && f.path@ == loose_object_path(
                            hex_ascii(sha1_checked_digest(full)),
                        ) && f.data@ == zlib_fast_compressed(full) && zlib_inflated(f.data@)
                            == Some(full)
                    } else {
                        o.stored is None
                    }
                }
            }),
    {
        let o = Self::create_from_file(content, write)?;
        let mut line: Vec<u8> = Vec::new();
        match &o.hash {
            Some(h) => {
                let hb = h.as_str().as_bytes();
                proof {
                    lemma_hex_lower(sha1_checked_digest(
                        header_bytes(ObjectType::Blob, content@.len()) + content@,
                    ));
                    is_ascii_chars_encode_utf8(h@);
                    assert(hb@ =~= hex_ascii(
                        sha1_checked_digest(header_bytes(ObjectType::Blob, content@.len()) + content@),
                    ));
                }
                append_bytes(&mut line, hb);
            },
            None => {},
        }
        line.push(10u8);
        Ok((o, line))
    }
}

/// Reading back a header written for a type and a size gives that type and
/// size, and says where the content starts, whatever follows it.
pub proof fn law_header_round_trip(t: ObjectType, n: usize, rest: Seq<u8>)
    ensures
        parse_header_spec(header_bytes(t, n as nat) + rest) == Ok::<_, HeaderError>(
            (t, n as nat, header_bytes(t, n as nat).len() as int),
        ),
{
    let tag = type_tag(t);
    let digits = decimal_digits(n as nat);
    let s = header_bytes(t, n as nat) + rest;
    let k = tag.len() as int;
    lemma_decimal_digits(n as nat);
    lemma_usize_decimal_len(n);
    law_type_tag_round_trip(t);
    assert(s =~= tag + seq![32u8] + digits + seq![0u8] + rest);
    assert(s[k] == 32);
    assert forall|j: int| 0 <= j < k implies s[j] != 32 by {
        assert(s[j] == tag[j]);
    }
    lemma_until_found(s, 32, MAX_OBJECT_HEADER as int, k, 0);
    let chunk = s.take(k + 1);
    assert(chunk.take(k) =~= tag);
    let rest1 = s.skip(k + 1);
    assert(rest1 =~= digits + seq![0u8] + rest);
    let d = digits.len() as int;
    assert(rest1[d] == 0);
    assert forall|j: int| 0 <= j < d implies rest1[j] != 0 by {
        assert(rest1[j] == digits[j]);
        assert(is_digit(digits[j]));
    }
    lemma_until_found(rest1, 0, MAX_OBJECT_HEADER - (k + 1), d, 0);
    assert(rest1.take(d) =~= digits);
    assert(is_digit(digits[0]));
    assert(strip_plus(digits) == digits);
    assert(all_digits(digits));
}

/// The content of an object reads back from the data it was stored as.
pub proof fn law_object_content_reads_back(t: ObjectType, content: Seq<u8>)
    requires
        content.len() <= usize::MAX,
    ensures
        cat_spec(header_bytes(t, content.len()) + content) == Ok::<_, HeaderError>(content),
{
    let n = content.len() as usize;
    law_header_round_trip(t, n, content);
    let h = header_bytes(t, n as nat);
    assert((h + content).skip(h.len() as int) =~= content);
    assert(content.take(content.len() as int) =~= content);
}

} // verus!
