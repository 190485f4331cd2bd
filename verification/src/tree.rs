//! Tree objects: entries, their encoding, reading and listing trees.

use vstd::prelude::*;
use vstd::utf8::{decode_utf8, encode_utf8, valid_utf8};
use vstd::string::StringExecFns;
use crate::{abort, Failure, GitError};
use crate::bytes::{append_bytes, copy_range};
use crate::external::{hex_encode, hex_lower, string_from_utf8};
use crate::numfmt::{digits_value, is_octal_digit, lemma_octal_digits, octal_bytes, octal_digits};
use crate::object::{
    hex_ascii, is_object_error, lemma_hex_lower, object_error, read_until_len, until_from,
    Object, ObjectType, type_tag, header_error_is, parse_header_spec,
};
use crate::text::{decimal_chars, decimal_string};

verus! {

broadcast use vstd::string::group_string_axioms, vstd::utf8::group_utf8_lib;

/// A file mode as stored in tree entries.
#[allow(non_camel_case_types)]
pub type mode_t = u32;

/// One entry of a tree: mode, name, the hash of what it names, and the
/// number of bytes it takes in the tree object.
#[derive(Debug)]
pub struct TreeEntry {
    pub mode: mode_t,
    pub path: String,
    pub hash: [u8; 20],
    pub size: usize,
}

/// The encoding of an entry in a tree object: `<octal mode> <path>\0<hash>`.
pub open spec fn entry_bytes(mode: u32, path: Seq<char>, hash: Seq<u8>) -> Seq<u8> {
    octal_digits(mode as nat) + seq![32u8] + encode_utf8(path) + seq![0u8] + hash
}

/// The bytes an entry takes in a tree object.
pub open spec fn entry_size(mode: u32, path: Seq<char>) -> nat {
    octal_digits(mode as nat).len() + encode_utf8(path).len() + 22
}

/// Builder for tree entries, which works out the entry's size.
pub struct TreeEntryBuilder {
    pub mode: mode_t,
    pub path: Option<String>,
    pub hash: [u8; 20],
}

impl Default for TreeEntryBuilder {
    /// An empty builder: mode 0, no path, a zero hash.
    fn default() -> (b: TreeEntryBuilder)
        ensures
            b.mode == 0,
            b.path is None,
            b.hash@ == Seq::new(20, |i: int| 0u8),
    {
        let b = TreeEntryBuilder { mode: 0, path: None, hash: [0u8; 20] };
        assert(b.hash@ =~= Seq::new(20, |i: int| 0u8));
        b
    }
}

impl TreeEntryBuilder {

    pub fn path(self, path: String) -> (b: TreeEntryBuilder)
        ensures
            b.path == Some(path),
            b.mode == self.mode,
            b.hash == self.hash,
    {
        TreeEntryBuilder { path: Some(path), ..self }
    }

    pub fn mode(self, mode: mode_t) -> (b: TreeEntryBuilder)
        ensures
            b.mode == mode,
            b.path == self.path,
            b.hash == self.hash,
    {
        TreeEntryBuilder { mode, ..self }
    }

    pub fn hash(self, hash: [u8; 20]) -> (b: TreeEntryBuilder)
        ensures
            b.hash == hash,
            b.mode == self.mode,
            b.path == self.path,
    {
        TreeEntryBuilder { hash, ..self }
    }

    /// The entry, with its size in a tree object.
    pub fn build(self) -> (e: TreeEntry)
        requires
            self.path is Some,
            encode_utf8(self.path.unwrap()@).len() + 64 <= usize::MAX,
        ensures
            e.mode == self.mode,
            e.path == self.path.unwrap(),
            e.hash == self.hash,
            e.size == entry_size(self.mode, self.path.unwrap()@),
    {
        let path = self.path.unwrap();
        let plen = path.as_str().len();
        let olen = octal_bytes(self.mode).len();
        proof {
            lemma_octal_digits(self.mode as nat);
            lemma_octal_len(self.mode);
        }
        TreeEntry { mode: self.mode, path, hash: self.hash, size: 20 + 2 + plen + olen }
    }
}

/// The encoding of an entry takes the size its builder works out.
pub proof fn lemma_entry_size(mode: u32, path: Seq<char>, hash: Seq<u8>)
    requires
        hash.len() == 20,
    ensures
        entry_bytes(mode, path, hash).len() == entry_size(mode, path),
{
}

/// An octal `u32` has at most eleven digits.
pub proof fn lemma_octal_len(m: u32)
    ensures
        octal_digits(m as nat).len() <= 11,
{
    assert(pow8(11) == 8589934592) by {
        reveal_with_fuel(pow8, 12);
    }
    lemma_octal_len_bound(m as nat, 11);
}

pub proof fn lemma_octal_len_bound(n: nat, k: nat)
    requires
        k >= 1,
        n < pow8(k),
    ensures
        octal_digits(n).len() <= k,
    decreases k,
{
    if n >= 8 {
        assert(k >= 2) by {
            if k == 1 {
                assert(pow8(1) == 8) by {
                    reveal_with_fuel(pow8, 2);
                }
            }
        }
        lemma_octal_len_bound(n / 8, (k - 1) as nat);
    }
}

/// `8^k`.
pub open spec fn pow8(k: nat) -> nat
    decreases k,
{
    if k == 0 {
        1
    } else {
        8 * pow8((k - 1) as nat)
    }
}

impl TreeEntry {
    /// A builder with mode 0, no path and a zero hash.
    pub fn builder() -> (b: TreeEntryBuilder)
        ensures
            b.mode == 0,
            b.path is None,
            b.hash@ == Seq::new(20, |i: int| 0u8),
    {
        TreeEntryBuilder::default()
    }

    /// Appends the entry's encoding in a tree object to `out`.
    pub fn write_to(&self, out: &mut Vec<u8>)
        ensures
            final(out)@ == old(out)@ + entry_bytes(self.mode, self.path@, self.hash@),
    {
        let digits = octal_bytes(self.mode);
        append_bytes(out, &digits);
        out.push(32u8);
        append_bytes(out, self.path.as_str().as_bytes());
        out.push(0u8);
        append_bytes(out, &self.hash);
        assert(final(out)@ =~= old(out)@ + entry_bytes(self.mode, self.path@, self.hash@));
    }
}

/// The value of octal digits read into a `u32` as the tree reader does:
/// each digit shifts the value left by three bits.
pub open spec fn octal_wrapped(s: Seq<u8>) -> u32
    decreases s.len(),
{
    if s.len() == 0 {
        0
    } else {
        ((octal_wrapped(s.drop_last()) as int * 8 + (s.last() - 48)) % 4294967296) as u32
    }
}

/// The end of the run of octal digits that starts at `i`.
pub open spec fn octal_run(s: Seq<u8>, i: int) -> int
    decreases s.len() - i,
{
    if 0 <= i < s.len() && is_octal_digit(s[i]) {
        octal_run(s, i + 1)
    } else {
        i
    }
}

/// Why reading a tree entry fails.
pub enum EntryError {
    /// A byte other than an octal digit or the space after the mode (`0` at
    /// the end of the data).
    UnexpectedByte(u8),
    /// Nothing follows the mode.
    Truncated,
    /// The path is not UTF-8.
    BadPath,
}

/// A tree entry as the specification sees it.
pub struct EntryView {
    pub mode: u32,
    pub path: Seq<char>,
    pub hash: Seq<u8>,
    pub size: nat,
}

/// The view of an entry.
pub open spec fn entry_view(e: TreeEntry) -> EntryView {
    EntryView { mode: e.mode, path: e.path@, hash: e.hash@, size: e.size as nat }
}

/// What reading one tree entry at `pos` gives: the entry and the position
/// after it; or why it fails. A hash cut short by the end of the data is
/// filled with zero bytes.
pub open spec fn read_entry_spec(s: Seq<u8>, pos: int) -> Result<(EntryView, int), EntryError> {
    let me = octal_run(s, pos);
    let b = if me < s.len() {
        s[me]
    } else {
        0u8
    };
    if b != 32 {
        Err(EntryError::UnexpectedByte(b))
    } else {
        let p = me + 1;
        let plen = read_until_len(s.skip(p), 0, s.len() - p);
        if plen == 0 {
            Err(EntryError::Truncated)
        } else {
            let pb = s.subrange(p, p + plen - 1);
            if !valid_utf8(pb) {
                Err(EntryError::BadPath)
            } else {
                let q = p + plen;
                let hl = if s.len() - q < 20 {
                    s.len() - q
                } else {
                    20
                };
                let hash = s.subrange(q, q + hl) + Seq::new((20 - hl) as nat, |i: int| 0u8);
                Ok(
                    (
                        EntryView {
                            mode: octal_wrapped(s.subrange(pos, me)),
                            path: decode_utf8(pb),
                            hash,
                            size: ((me - pos) + plen + 21) as nat,
                        },
                        q + hl,
                    ),
                )
            }
        }
    }
}

/// The stop on an arithmetic underflow.
pub open spec fn underflow_stop(f: Failure) -> bool {
    f matches Failure::Aborted(a) && a.message@ == "attempt to subtract with overflow"@
}

/// The failure that reports a tree entry that does not read: an object
/// error, or, where nothing follows the mode, a stop.
pub open spec fn entry_failure_is(f: Failure, k: EntryError) -> bool {
    match k {
        EntryError::UnexpectedByte(b) => f matches Failure::Git(e) && is_object_error(
            e,
            "tree object malformed, unexpected byte: "@ + decimal_chars(b as nat),
        ),
        EntryError::Truncated => underflow_stop(f),
        EntryError::BadPath => f matches Failure::Git(e) && is_object_error(
            e,
            "a path in tree file was not valid utf8"@,
        ),
    }
}

pub proof fn lemma_octal_run_bounds(s: Seq<u8>, i: int)
    requires
        0 <= i <= s.len(),
    ensures
        i <= octal_run(s, i) <= s.len(),
        forall|j: int| i <= j < octal_run(s, i) ==> is_octal_digit(#[trigger] s[j]),
        octal_run(s, i) < s.len() ==> !is_octal_digit(s[octal_run(s, i)]),
    decreases s.len() - i,
{
    if i < s.len() && is_octal_digit(s[i]) {
        lemma_octal_run_bounds(s, i + 1);
    }
}

impl Tree {
    /// Reads one entry at `pos`: the entry and the position after it.
    pub fn read_tree_entry(data: &[u8], pos: usize) -> (r: Result<(TreeEntry, usize), Failure>)
        requires
            pos <= data.len(),
            data.len() <= isize::MAX,
        ensures
            match read_entry_spec(data@, pos as int) {
                Ok((e, np)) => r matches Ok((t, p)) && entry_view(t) == e && p == np,
                Err(k) => r matches Err(f) && entry_failure_is(f, k),
            },
            r matches Ok((t, p)) ==> pos < p <= data.len() && t.size >= 22,
    {
        let mut mode: u32 = 0;
        let mut i: usize = pos;
        loop
            invariant
                pos <= i <= data.len(),
                octal_run(data@, pos as int) == octal_run(data@, i as int),
                forall|j: int| pos <= j < i ==> is_octal_digit(#[trigger] data@[j]),
                mode == octal_wrapped(data@.subrange(pos as int, i as int)),
            ensures
                i < data.len(),
                data@[i as int] == 32,
            decreases data.len() - i,
        {
            let c: u8 = if i < data.len() {
                data[i]
            } else {
                0
            };
            if c == 32 {
                break;
            } else if c < 48 || c > 55 {
                let mut m = "tree object malformed, unexpected byte: ".to_string();
                let d = decimal_string(c as u64);
                m.append(d.as_str());
                return Err(Failure::Git(GitError::ObjectError(m)));
            }
            let d: u32 = (c - 48) as u32;
            assert((mode << 3u32) <= 0xFFFF_FFF8u32) by (bit_vector);
            let nm: u32 = (mode << 3u32) + d;
            assert(nm as int == (mode as int * 8 + d) % 4294967296) by (bit_vector)
                requires
                    nm == (mode << 3u32) + d,
                    d < 8,
            ;
            assert(data@.subrange(pos as int, i + 1).drop_last() =~= data@.subrange(
                pos as int,
                i as int,
            ));
            mode = nm;
            i = i + 1;
        }
        proof {
            lemma_octal_run_bounds(data@, pos as int);
            assert(!is_octal_digit(data@[i as int]));
        }
        let me = i;
        let p = me + 1;
        let rest = &data[p..data.len()];
        assert(rest@ =~= data@.skip(p as int));
        let plen = read_until_exec_full(rest);
        if plen == 0 {
            return Err(Failure::Aborted(abort("attempt to subtract with overflow")));
        }
        let path_bytes = copy_range(data, p, p + plen - 1);
        let path = match string_from_utf8(path_bytes) {
            Some(s) => s,
            None => return Err(Failure::Git(object_error("a path in tree file was not valid utf8"))),
        };
        let q = p + plen;
        let hl: usize = if data.len() - q < 20 {
            data.len() - q
        } else {
            20
        };
        let mut hash: [u8; 20] = [0u8; 20];
        let mut k: usize = 0;
        while k < hl
            invariant
                k <= hl <= 20,
                q + hl <= data.len(),
                forall|j: int| 0 <= j < k ==> hash@[j] == data@[q + j],
                forall|j: int| k <= j < 20 ==> hash@[j] == 0,
            decreases hl - k,
        {
            hash[k] = data[q + k];
            k = k + 1;
        }
        assert(hash@ =~= data@.subrange(q as int, q + hl) + Seq::new((20 - hl) as nat, |j: int| 0u8));
        let entry = TreeEntry { mode, path, hash, size: (me - pos) + plen + 21 };
        Ok((entry, q + hl))
    }
}

/// How many bytes a read up to and including the first NUL takes from `s`.
fn read_until_exec_full(s: &[u8]) -> (n: usize)
    ensures
        n as int == read_until_len(s@, 0, s.len() as int),
        n <= s.len(),
        n > 0 ==> (s@[n - 1] == 0 || n == s.len()),
{
    let mut i: usize = 0;
    while i < s.len()
        invariant
            i <= s.len(),
            until_from(s@, 0, s.len() as int, i as int) == read_until_len(s@, 0, s.len() as int),
        decreases s.len() - i,
    {
        if s[i] == 0 {
            return i + 1;
        }
        i = i + 1;
    }
    i
}

/// Operations on whole trees.
pub struct Tree;

pub proof fn lemma_octal_wrapped_value(s: Seq<u8>)
    requires
        forall|i: int| 0 <= i < s.len() ==> is_octal_digit(#[trigger] s[i]),
    ensures
        octal_wrapped(s) as int == digits_value(s, 8) as int % 4294967296,
    decreases s.len(),
{
    if s.len() > 0 {
        assert forall|i: int| 0 <= i < s.drop_last().len() implies is_octal_digit(
            #[trigger] s.drop_last()[i],
        ) by {
            assert(s.drop_last()[i] == s[i]);
        }
        assert(is_octal_digit(s[s.len() - 1]));
        lemma_octal_wrapped_value(s.drop_last());
        let v = digits_value(s.drop_last(), 8) as int;
        let d = (s.last() - 48) as int;
        let m = 4294967296int;
        vstd::arithmetic::div_mod::lemma_mul_mod_noop_left(v, 8, m);
        vstd::arithmetic::div_mod::lemma_add_mod_noop(v % m * 8, d, m);
        vstd::arithmetic::div_mod::lemma_add_mod_noop(v * 8, d, m);
        vstd::arithmetic::div_mod::lemma_mod_twice(v * 8, m);
        vstd::arithmetic::div_mod::lemma_mod_twice(v % m * 8, m);
        assert(((v % m) * 8 + d) % m == (v * 8 + d) % m);
        assert(0 <= ((v % m) * 8 + d) % m < m);
    }
}

/// Reading the octal digits of a mode back gives the mode.
pub proof fn lemma_octal_mode_round_trip(m: u32)
    ensures
        octal_wrapped(octal_digits(m as nat)) == m,
{
    lemma_octal_digits(m as nat);
    lemma_octal_wrapped_value(octal_digits(m as nat));
}

pub proof fn lemma_octal_run_of(s: Seq<u8>, k: int, i: int)
    requires
        0 <= i <= k < s.len(),
        forall|j: int| i <= j < k ==> is_octal_digit(#[trigger] s[j]),
        !is_octal_digit(s[k]),
    ensures
        octal_run(s, i) == k,
    decreases k - i,
{
    if i < k {
        lemma_octal_run_of(s, k, i + 1);
    }
}

/// Reading back the encoding of an entry placed anywhere in the data gives
/// that entry, with the size its builder works out, and stops right after
/// it.
pub proof fn law_entry_round_trip(
    prefix: Seq<u8>,
    mode: u32,
    path: Seq<char>,
    hash: Seq<u8>,
    rest: Seq<u8>,
)
    requires
        hash.len() == 20,
        forall|i: int| 0 <= i < encode_utf8(path).len() ==> #[trigger] encode_utf8(path)[i] != 0,
    ensures
        read_entry_spec(prefix + entry_bytes(mode, path, hash) + rest, prefix.len() as int)
            == Ok::<_, EntryError>(
            (
                EntryView { mode, path, hash, size: entry_size(mode, path) },
                (prefix.len() + entry_bytes(mode, path, hash).len()) as int,
            ),
        ),
{
    let od = octal_digits(mode as nat);
    let pb = encode_utf8(path);
    let s = prefix + entry_bytes(mode, path, hash) + rest;
    let z = prefix.len() as int;
    assert(s =~= prefix + od + seq![32u8] + pb + seq![0u8] + hash + rest);
    lemma_octal_digits(mode as nat);
    let k = z + od.len();
    assert forall|j: int| z <= j < k implies is_octal_digit(#[trigger] s[j]) by {
        assert(s[j] == od[j - z]);
    }
    assert(s[k] == 32);
    lemma_octal_run_of(s, k, z);
    let p = k + 1;
    let t = s.skip(p);
    assert(t =~= pb + seq![0u8] + hash + rest);
    assert forall|j: int| 0 <= j < pb.len() implies t[j] != 0 by {
        assert(t[j] == pb[j]);
    }
    crate::object::lemma_until_found(t, 0, s.len() - p, pb.len() as int, 0);
    assert(s.subrange(p, p + pb.len()) =~= pb);
    let q = p + pb.len() + 1;
    assert(s.subrange(q, q + 20) =~= hash);
    assert(s.subrange(q, q + 20) + Seq::new(0, |i: int| 0u8) =~= hash);
    assert(s.subrange(z, k) =~= od);
    lemma_octal_mode_round_trip(mode);
}

/// The content of a tree holding these entries, in order.
pub open spec fn tree_content(es: Seq<EntryView>) -> Seq<u8>
    decreases es.len(),
{
    if es.len() == 0 {
        seq![]
    } else {
        entry_bytes(es[0].mode, es[0].path, es[0].hash) + tree_content(es.drop_first())
    }
}

/// An entry as its builder makes it, with a name free of NUL bytes.
pub open spec fn well_formed_entry(e: EntryView) -> bool {
    &&& e.hash.len() == 20
    &&& e.size == entry_size(e.mode, e.path)
    &&& forall|i: int| 0 <= i < encode_utf8(e.path).len() ==> #[trigger] encode_utf8(e.path)[i] != 0
}

pub proof fn lemma_tree_content_from(prefix: Seq<u8>, es: Seq<EntryView>)
    requires
        forall|i: int| 0 <= i < es.len() ==> well_formed_entry(#[trigger] es[i]),
    ensures
        read_tree_spec(prefix + tree_content(es), prefix.len() as int, tree_content(es).len())
            == (es, None::<TreeError>),
    decreases es.len(),
{
    let s = prefix + tree_content(es);
    if es.len() > 0 {
        let e = es[0];
        assert(well_formed_entry(e));
        let eb = entry_bytes(e.mode, e.path, e.hash);
        let tail = es.drop_first();
        assert(s =~= prefix + eb + tree_content(tail));
        law_entry_round_trip(prefix, e.mode, e.path, e.hash, tree_content(tail));
        lemma_entry_size(e.mode, e.path, e.hash);
        assert(EntryView { mode: e.mode, path: e.path, hash: e.hash, size: entry_size(e.mode, e.path) } == e);
        assert forall|i: int| 0 <= i < tail.len() implies well_formed_entry(#[trigger] tail[i]) by {
            assert(tail[i] == es[i + 1]);
        }
        lemma_tree_content_from(prefix + eb, tail);
        assert(prefix + eb + tree_content(tail) =~= s);
        assert(seq![e] + tail =~= es);
    } else {
        assert(tree_content(es).len() == 0);
    }
}

/// The content of a tree, as written entry by entry, reads back as those
/// entries, in order, using up exactly the size it declares.
pub proof fn law_tree_content_reads_back(es: Seq<EntryView>)
    requires
        forall|i: int| 0 <= i < es.len() ==> well_formed_entry(#[trigger] es[i]),
    ensures
        read_tree_spec(tree_content(es), 0, tree_content(es).len()) == (es, None::<TreeError>),
{
    lemma_tree_content_from(seq![], es);
    assert(Seq::<u8>::empty() + tree_content(es) =~= tree_content(es));
}

/// The mode written six octal digits wide, zero-padded (`{:06o}`).
pub open spec fn octal6(m: u32) -> Seq<u8> {
    let d = octal_digits(m as nat);
    if d.len() < 6 {
        Seq::new((6 - d.len()) as nat, |i: int| 48u8) + d
    } else {
        d
    }
}

/// The `--name-only` listing line of an entry.
pub open spec fn name_line(e: EntryView) -> Seq<u8> {
    encode_utf8(e.path) + seq![10u8]
}

/// The listing line of an entry: `<mode> <hash>\t<path>`.
pub open spec fn entry_line(e: EntryView) -> Seq<u8> {
    octal6(e.mode) + seq![32u8] + hex_ascii(e.hash) + seq![9u8] + encode_utf8(e.path) + seq![10u8]
}

/// The listing line that also names the type of the entry's object.
pub open spec fn typed_line(e: EntryView, t: ObjectType) -> Seq<u8> {
    octal6(e.mode) + seq![32u8] + type_tag(t) + seq![32u8] + hex_ascii(e.hash) + seq![9u8]
        + encode_utf8(e.path) + seq![10u8]
}

/// What looking for an entry's uncompressed object file
/// (`.git/objects/<hash>`) found.
pub enum LooseLookup {
    Missing,
    Contents(Vec<u8>),
    ReadFailed(std::io::Error),
}

/// Why listing stops early.
pub enum ListError {
    Header(crate::object::HeaderError),
    Io,
}

/// The listing of entries from `i` on, with what was found for each, and
/// why listing stopped early, if it did.
pub open spec fn listing_from(
    es: Seq<EntryView>,
    ls: Seq<LooseLookup>,
    name_only: bool,
    i: int,
) -> (Seq<u8>, Option<ListError>)
    decreases es.len() - i,
{
    if i < 0 || i >= es.len() {
        (seq![], None)
    } else if name_only {
        let rest = listing_from(es, ls, name_only, i + 1);
        (name_line(es[i]) + rest.0, rest.1)
    } else {
        let line = entry_line(es[i]);
        match ls[i] {
            LooseLookup::Missing => {
                let rest = listing_from(es, ls, name_only, i + 1);
                (line + rest.0, rest.1)
            },
            LooseLookup::ReadFailed(_) => (line, Some(ListError::Io)),
            LooseLookup::Contents(b) => match parse_header_spec(b@) {
                Err(k) => (line, Some(ListError::Header(k))),
                Ok((t, _, _)) => {
                    let rest = listing_from(es, ls, name_only, i + 1);
                    (line + typed_line(es[i], t) + rest.0, rest.1)
                },
            },
        }
    }
}

/// A `--name-only` listing never stops early.
pub proof fn lemma_name_only_listing(es: Seq<EntryView>, ls: Seq<LooseLookup>, i: int)
    ensures
        listing_from(es, ls, true, i).1 is None,
    decreases es.len() - i,
{
    if 0 <= i < es.len() {
        lemma_name_only_listing(es, ls, i + 1);
    }
}

/// The `--name-only` listing from the second part of a sequence of entries
/// is that of the second part alone.
proof fn lemma_name_only_listing_tail(
    es1: Seq<EntryView>,
    es2: Seq<EntryView>,
    ls: Seq<LooseLookup>,
    ls2: Seq<LooseLookup>,
    j: int,
)
    requires
        0 <= j <= es2.len(),
    ensures
        listing_from(es1 + es2, ls, true, es1.len() + j).0 == listing_from(es2, ls2, true, j).0,
    decreases es2.len() - j,
{
    if j < es2.len() {
        lemma_name_only_listing_tail(es1, es2, ls, ls2, j + 1);
        assert((es1 + es2)[es1.len() + j] == es2[j]);
    }
}

/// The `--name-only` listing from a place in the first part of a sequence
/// of entries is that of the rest of the first part, then that of the
/// second part.
proof fn lemma_name_only_listing_split(
    es1: Seq<EntryView>,
    es2: Seq<EntryView>,
    ls: Seq<LooseLookup>,
    ls1: Seq<LooseLookup>,
    ls2: Seq<LooseLookup>,
    i: int,
)
    requires
        0 <= i <= es1.len(),
    ensures
        listing_from(es1 + es2, ls, true, i).0 == listing_from(es1, ls1, true, i).0 + listing_from(
            es2,
            ls2,
            true,
            0,
        ).0,
    decreases es1.len() - i,
{
    if i < es1.len() {
        lemma_name_only_listing_split(es1, es2, ls, ls1, ls2, i + 1);
        assert((es1 + es2)[i] == es1[i]);
        let a = name_line(es1[i]);
        let b = listing_from(es1, ls1, true, i + 1).0;
        let c = listing_from(es2, ls2, true, 0).0;
        assert(a + (b + c) =~= (a + b) + c);
    } else {
        lemma_name_only_listing_tail(es1, es2, ls, ls2, 0);
        assert(Seq::<u8>::empty() + listing_from(es2, ls2, true, 0).0 =~= listing_from(
            es2,
            ls2,
            true,
            0,
        ).0);
    }
}

/// A `--name-only` listing has one line for every entry, whatever its
/// name: the listing of no entry is empty, that of one entry is its path
/// and a newline, and that of entries one after the other is their
/// listings one after the other.
pub proof fn law_name_only_listing_lines(
    es1: Seq<EntryView>,
    es2: Seq<EntryView>,
    e: EntryView,
    ls: Seq<LooseLookup>,
    ls1: Seq<LooseLookup>,
    ls2: Seq<LooseLookup>,
)
    ensures
        listing_from(Seq::<EntryView>::empty(), ls, true, 0).0 == Seq::<u8>::empty(),
        listing_from(seq![e], ls, true, 0).0 == encode_utf8(e.path) + seq![10u8],
        listing_from(es1 + es2, ls, true, 0).0 == listing_from(es1, ls1, true, 0).0
            + listing_from(es2, ls2, true, 0).0,
{
    lemma_name_only_listing_split(es1, es2, ls, ls1, ls2, 0);
    let one = seq![e];
    assert(listing_from(one, ls, true, 1).0 == Seq::<u8>::empty());
    assert(name_line(e) + Seq::<u8>::empty() =~= encode_utf8(e.path) + seq![10u8]);
}

/// Appends the mode, six octal digits wide.
fn push_mode6(out: &mut Vec<u8>, m: u32)
    ensures
        final(out)@ == old(out)@ + octal6(m),
{
    let d = octal_bytes(m);
    let mut k = d.len();
    while k < 6
        invariant
            d@ == octal_digits(m as nat),
            d.len() <= k <= 6 || k == d.len(),
            out@ == old(out)@ + Seq::new((k - d.len()) as nat, |i: int| 48u8),
        decreases 6 - k,
    {
        out.push(48u8);
        assert(Seq::new((k + 1 - d.len()) as nat, |i: int| 48u8) =~= Seq::new(
            (k - d.len()) as nat,
            |i: int| 48u8,
        ).push(48u8));
        k = k + 1;
    }
    append_bytes(out, &d);
    if d.len() >= 6 {
        assert(Seq::new((k - d.len()) as nat, |i: int| 48u8) =~= Seq::<u8>::empty());
    }
    assert(final(out)@ =~= old(out)@ + octal6(m));
}

/// The lowercase hex text of a hash, as bytes.
pub fn hex_bytes(hash: &[u8]) -> (r: Vec<u8>)
    ensures
        r@ == hex_ascii(hash@),
{
    let h = hex_encode(hash);
    let hb = h.as_str().as_bytes();
    proof {
        lemma_hex_lower(hash@);
        vstd::utf8::is_ascii_chars_encode_utf8(h@);
        assert(hb@ =~= hex_ascii(hash@));
    }
    let mut r: Vec<u8> = Vec::new();
    append_bytes(&mut r, hb);
    r
}

impl TreeEntry {
    /// Where the listing looks for the entry's object: `.git/objects/<hash>`.
    pub fn lookup_path(&self) -> (p: Vec<u8>)
        ensures
            p@ == crate::object::objects_dir() + hex_ascii(self.hash@),
    {
        let mut p: Vec<u8> = vec![46u8, 103u8, 105u8, 116u8, 47u8, 111u8, 98u8, 106u8, 101u8, 99u8, 116u8, 115u8, 47u8];
        let h = hex_bytes(&self.hash);
        append_bytes(&mut p, &h);
        p
    }
}

/// Appends the `--name-only` line of an entry.
fn write_name_line(out: &mut Vec<u8>, e: &TreeEntry)
    ensures
        final(out)@ == old(out)@ + name_line(entry_view(*e)),
{
    append_bytes(out, e.path.as_str().as_bytes());
    out.push(10u8);
}

/// Appends the listing line of an entry.
fn write_entry_line(out: &mut Vec<u8>, e: &TreeEntry)
    ensures
        final(out)@ == old(out)@ + entry_line(entry_view(*e)),
{
    push_mode6(out, e.mode);
    out.push(32u8);
    let h = hex_bytes(&e.hash);
    append_bytes(out, &h);
    out.push(9u8);
    append_bytes(out, e.path.as_str().as_bytes());
    out.push(10u8);
    assert(final(out)@ =~= old(out)@ + entry_line(entry_view(*e)));
}

/// Appends the listing line of an entry that names its object's type.
fn write_typed_line(out: &mut Vec<u8>, e: &TreeEntry, t: ObjectType)
    ensures
        final(out)@ == old(out)@ + typed_line(entry_view(*e), t),
{
    push_mode6(out, e.mode);
    out.push(32u8);
    let tag = t.to_bytes();
    append_bytes(out, &tag);
    out.push(32u8);
    let h = hex_bytes(&e.hash);
    append_bytes(out, &h);
    out.push(9u8);
    append_bytes(out, e.path.as_str().as_bytes());
    out.push(10u8);
    assert(final(out)@ =~= old(out)@ + typed_line(entry_view(*e), t));
}

impl Tree {
    /// Writes the listing of a tree's entries to `out`, as `ls-tree` shows
    /// them; unless `name_only`, each entry is followed by a line naming the
    /// type of its uncompressed object where one was found. Fails as soon as
    /// a found object does not read, and otherwise with `pending` (the
    /// failure that stopped reading the tree), if any.
    #[verifier::rlimit(50)]
    pub fn show_tree(
        entries: &Vec<TreeEntry>,
        pending: Option<Failure>,
        name_only: bool,
        lookups: Vec<LooseLookup>,
        out: &mut Vec<u8>,
    ) -> (r: Result<(), Failure>)
        requires
            !name_only ==> lookups.len() >= entries.len(),
        ensures
            ({
                let l = listing_from(entry_views(entries@), lookups@, name_only, 0);
                &&& final(out)@ == old(out)@ + l.0
                &&& match l.1 {
                    Some(ListError::Io) => r matches Err(Failure::Git(e)) && e is IOError,
                    Some(ListError::Header(k)) => r matches Err(Failure::Git(e)) && header_error_is(
                        e,
                        k,
                    ),
                    None => match pending {
                        None => r is Ok,
                        Some(p) => r == Err::<(), Failure>(p),
                    },
                }
            }),
    {
        let ghost es = entry_views(entries@);
        let ghost all = lookups@;
        let ghost total = listing_from(es, all, name_only, 0);
        let ghost mut done: Seq<u8> = Seq::empty();
        let mut ls = lookups;
        let mut i: usize = 0;
        while i < entries.len()
            invariant
                es == entry_views(entries@),
                all == lookups@,
                total == listing_from(es, all, name_only, 0),
                i <= entries.len(),
                !name_only ==> ls@ == all.skip(i as int) && all.len() >= entries.len(),
                out@ == old(out)@ + done,
                total.0 == done + listing_from(es, all, name_only, i as int).0,
                total.1 == listing_from(es, all, name_only, i as int).1,
            decreases entries.len() - i,
        {
            let e = &entries[i];
            let ghost ev = entry_view(*e);
            assert(es[i as int] == ev);
            if name_only {
                write_name_line(out, e);
                proof {
                    done = done + name_line(ev);
                }
            } else {
                write_entry_line(out, e);
                proof {
                    done = done + entry_line(ev);
                }
                let l = ls.remove(0);
                assert(l == all[i as int]);
                match l {
                    LooseLookup::Missing => {},
                    LooseLookup::ReadFailed(err) => {
                        return Err(Failure::Git(GitError::IOError(err)));
                    },
                    LooseLookup::Contents(b) => {
                        match Object::from_buffer(&b) {
                            Err(err) => {
                                return Err(Failure::Git(err));
                            },
                            Ok(o) => {
                                let t = match o.object_type {
                                    Some(t) => t,
                                    None => ObjectType::Blob,
                                };
                                write_typed_line(out, e, t);
                                proof {
                                    done = done + typed_line(ev, t);
                                }
                            },
                        }
                    },
                }
            }
            proof {
                assert(total.0 =~= done + listing_from(es, all, name_only, i + 1).0);
            }
            i = i + 1;
        }
        proof {
            assert(done =~= total.0);
        }
        match pending {
            None => Ok(()),
            Some(p) => Err(p),
        }
    }
}

/// Why reading a tree stops early.
pub enum TreeError {
    Entry(EntryError),
    /// An entry is larger than what is left of the declared tree size.
    SizeMismatch,
}

/// The failure that reports a tree that does not read: that of its entry,
/// or, where an entry is larger than what is left of the declared size,
/// the stop on the underflow.
pub open spec fn tree_failure_is(f: Failure, k: TreeError) -> bool {
    match k {
        TreeError::Entry(x) => entry_failure_is(f, x),
        TreeError::SizeMismatch => underflow_stop(f),
    }
}

/// The entries read from tree content at `pos` while `remaining` of the
/// declared size is left, and why reading stopped early, if it did.
pub open spec fn read_tree_spec(s: Seq<u8>, pos: int, remaining: nat) -> (
    Seq<EntryView>,
    Option<TreeError>,
)
    decreases remaining,
{
    if remaining == 0 {
        (seq![], None)
    } else {
        match read_entry_spec(s, pos) {
            Err(k) => (seq![], Some(TreeError::Entry(k))),
            Ok((e, np)) => if e.size == 0 || e.size > remaining {
                (seq![], Some(TreeError::SizeMismatch))
            } else {
                let rest = read_tree_spec(s, np, (remaining - e.size) as nat);
                (seq![e] + rest.0, rest.1)
            },
        }
    }
}

/// The views of a sequence of entries.
pub open spec fn entry_views(es: Seq<TreeEntry>) -> Seq<EntryView> {
    es.map_values(|e: TreeEntry| entry_view(e))
}

impl Tree {
    /// Reads the entries of a tree object, in order, until its declared size
    /// is used up; gives the entries read and the failure that stopped reading
    /// early, if any.
    pub fn read_tree(object: Object) -> (r: (Vec<TreeEntry>, Option<Failure>))
        requires
            object.size is Some,
            object.reader matches Some(b) ==> b.len() <= isize::MAX,
        ensures
            match object.reader {
                None => r.0@.len() == 0 && (r.1 matches Some(Failure::Git(e)) && is_object_error(
                    e,
                    "object file is not on disk"@,
                )),
                Some(b) => {
                    let c = crate::object::body_of(b@, object.size.unwrap() as nat);
                    let t = read_tree_spec(c, 0, object.size.unwrap() as nat);
                    &&& entry_views(r.0@) == t.0
                    &&& match t.1 {
                        None => r.1 is None,
                        Some(k) => r.1 matches Some(f) && tree_failure_is(f, k),
                    }
                },
            },
    {
        let size = object.size.unwrap();
        let content = match object.reader() {
            Ok(c) => c,
            Err(e) => return (Vec::new(), Some(Failure::Git(e))),
        };
        let ghost c = content@;
        let ghost total = read_tree_spec(c, 0, size as nat);
        let mut entries: Vec<TreeEntry> = Vec::new();
        let mut remaining: usize = size;
        let mut pos: usize = 0;
        while remaining > 0
            invariant
                c == content@,
                object.reader matches Some(b) && c == crate::object::body_of(b@, size as nat),
                object.size == Some(size),
                content.len() <= isize::MAX,
                pos <= content.len(),
                total == read_tree_spec(c, 0, size as nat),
                total.0 == entry_views(entries@) + read_tree_spec(c, pos as int, remaining as nat).0,
                total.1 == read_tree_spec(c, pos as int, remaining as nat).1,
            decreases remaining,
        {
            let ghost before = read_tree_spec(c, pos as int, remaining as nat);
            match Tree::read_tree_entry(&content, pos) {
                Err(e) => {
                    assert(total.0 =~= entry_views(entries@));
                    return (entries, Some(e));
                },
                Ok((entry, np)) => {
                    if entry.size > remaining {
                        assert(total.0 =~= entry_views(entries@));
                        return (entries, Some(Failure::Aborted(abort("attempt to subtract with overflow"))));
                    }
                    remaining = remaining - entry.size;
                    pos = np;
                    let ghost ev = entry_view(entry);
                    let ghost prev = entries@;
                    entries.push(entry);
                    assert(entry_views(entries@) =~= entry_views(prev).push(ev));
                    assert(total.0 =~= entry_views(entries@) + read_tree_spec(c, pos as int, remaining as nat).0);
                },
            }
        }
        assert(total.0 =~= entry_views(entries@));
        (entries, None)
    }
}

} // verus!
