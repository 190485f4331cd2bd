//! Writing a directory as tree objects, from a snapshot of its files.

use vstd::prelude::*;
use vstd::utf8::encode_utf8;
use vstd::string::StringSliceAdditionalSpecFns;
use crate::{abort, Abort, Failure, GitError};
use crate::bytes::append_bytes;
use crate::external::{sha1_checked_digest, zlib_fast_compressed, zlib_inflated};
use crate::object::{header_bytes, hex_ascii, loose_object_path, LooseFile, Object, ObjectType};
use crate::tree::{entry_bytes, entry_size, tree_content, well_formed_entry, EntryView, Tree, TreeEntry};

verus! {

broadcast use vstd::string::group_string_axioms;

/// What a directory held when it was read, entry by entry, in the order
/// the directory listed them.
pub struct DirSnapshot {
    pub entries: Vec<SnapshotEntry>,
}

/// One entry of a directory snapshot: its name and what it is.
pub struct SnapshotEntry {
    pub name: String,
    pub kind: SnapshotKind,
}

/// What a directory entry is.
pub enum SnapshotKind {
    /// A file with its permission mode and content.
    File { mode: u32, content: Vec<u8> },
    /// A directory with its own snapshot.
    Dir(DirSnapshot),
    /// An entry that could not be read.
    Failed(std::io::Error),
}

/// The bytes of an entry's name.
pub open spec fn name_bytes(e: SnapshotEntry) -> Seq<u8> {
    encode_utf8(e.name@)
}

/// What an entry is sorted by in a tree, as git sorts tree entries: the
/// bytes of its name, and for a directory a `/` after them.
pub open spec fn sort_key(e: SnapshotEntry) -> Seq<u8> {
    if e.kind is Dir {
        name_bytes(e) + seq![47u8]
    } else {
        name_bytes(e)
    }
}

/// Whether an entry goes into the tree: names starting with `.` and the
/// name `target` are left out.
pub open spec fn is_listed(e: SnapshotEntry) -> bool {
    is_listed_name(e.name@)
}

/// Whether a name goes into a tree: it does not start with `.` and is not
/// `target`.
pub open spec fn is_listed_name(n: Seq<char>) -> bool {
    !(n.len() > 0 && n[0] == '.') && n != "target"@
}

/// `a` sorts strictly before `b`, byte by byte.
pub open spec fn bytes_lt(a: Seq<u8>, b: Seq<u8>) -> bool
    decreases a.len(),
{
    if a.len() == 0 {
        b.len() > 0
    } else if b.len() == 0 {
        false
    } else if a[0] < b[0] {
        true
    } else if a[0] > b[0] {
        false
    } else {
        bytes_lt(a.drop_first(), b.drop_first())
    }
}

/// `order` with index `j` put before the first entry whose sort key sorts
/// after that of `j` (so equal keys keep their order).
pub open spec fn insert_sorted(es: Seq<SnapshotEntry>, order: Seq<int>, j: int) -> Seq<int>
    decreases order.len(),
{
    if order.len() == 0 {
        seq![j]
    } else if bytes_lt(sort_key(es[j]), sort_key(es[order[0]])) {
        seq![j] + order
    } else {
        seq![order[0]] + insert_sorted(es, order.drop_first(), j)
    }
}

/// The indices of the listed entries among the first `n`, sorted by their
/// sort keys; entries with equal keys keep their order.
pub open spec fn sorted_order(es: Seq<SnapshotEntry>, n: int) -> Seq<int>
    decreases n,
{
    if n <= 0 {
        seq![]
    } else {
        let o = sorted_order(es, n - 1);
        if is_listed(es[n - 1]) {
            insert_sorted(es, o, n - 1)
        } else {
            o
        }
    }
}

/// The order in which a directory's entries go into its tree.
pub open spec fn dir_order(d: DirSnapshot) -> Seq<int> {
    sorted_order(d.entries@, d.entries@.len() as int)
}

/// Why writing a tree fails.
pub enum WriteError {
    /// An entry could not be read.
    Io,
    /// A name is too long to count.
    TooLong,
}

/// The mode of a directory entry.
pub open spec fn dir_mode() -> u32 {
    0o40000
}

/// The stored file for an object's bytes: where it goes and its
/// compressed bytes.
pub open spec fn stored_file(full: Seq<u8>) -> (Seq<u8>, Seq<u8>) {
    (loose_object_path(hex_ascii(sha1_checked_digest(full))), zlib_fast_compressed(full))
}

/// Writing the tree of a directory: the files stored along the way, in
/// order, and the hash of the tree, or why it failed.
pub open spec fn tree_spec(d: DirSnapshot) -> (Seq<(Seq<u8>, Seq<u8>)>, Result<Seq<u8>, WriteError>)
    decreases d, dir_order(d).len() + 1,
{
    let r = entries_spec(d, dir_order(d), 0, seq![]);
    match r.1 {
        Err(e) => (r.0, Err(e)),
        Ok(content) => {
            let full = header_bytes(ObjectType::Tree, content.len()) + content;
            (r.0.push(stored_file(full)), Ok(sha1_checked_digest(full)))
        },
    }
}

/// Writing the entries `order[k..]` of a directory after the tree content
/// `content`: the files stored, and the finished tree content or why it
/// failed.
pub open spec fn entries_spec(d: DirSnapshot, order: Seq<int>, k: int, content: Seq<u8>) -> (
    Seq<(Seq<u8>, Seq<u8>)>,
    Result<Seq<u8>, WriteError>,
)
    decreases d, order.len() - k,
{
    if k < 0 || k >= order.len() || order[k] < 0 || order[k] >= d.entries@.len() {
        (seq![], Ok(content))
    } else {
        let e = d.entries@[order[k]];
        if name_bytes(e).len() + 64 > usize::MAX {
            (seq![], Err(WriteError::TooLong))
        } else {
            match e.kind {
                SnapshotKind::Failed(_) => (seq![], Err(WriteError::Io)),
                SnapshotKind::File { mode, content: fc } => {
                    let full = header_bytes(ObjectType::Blob, fc@.len()) + fc@;
                    let rest = entries_spec(
                        d,
                        order,
                        k + 1,
                        content + entry_bytes(mode, e.name@, sha1_checked_digest(full)),
                    );
                    (seq![stored_file(full)] + rest.0, rest.1)
                },
                SnapshotKind::Dir(sub) => {
                    let t = tree_spec(sub);
                    match t.1 {
                        Err(x) => (t.0, Err(x)),
                        Ok(h) => {
                            let rest = entries_spec(
                                d,
                                order,
                                k + 1,
                                content + entry_bytes(dir_mode(), e.name@, h),
                            );
                            (t.0 + rest.0, rest.1)
                        },
                    }
                },
            }
        }
    }
}

/// The tree object written for a directory whose entries are all written:
/// its header and the content its entries make.
pub open spec fn root_object(d: DirSnapshot) -> Seq<u8> {
    let c = entries_spec(d, dir_order(d), 0, seq![]).1->Ok_0;
    header_bytes(ObjectType::Tree, c.len()) + c
}

/// Where `insert_sorted` puts `j`: before the first entry whose sort key
/// sorts after that of `j`.
pub open spec fn first_after(es: Seq<SnapshotEntry>, order: Seq<int>, j: int) -> int
    decreases order.len(),
{
    if order.len() == 0 {
        0
    } else if bytes_lt(sort_key(es[j]), sort_key(es[order[0]])) {
        0
    } else {
        1 + first_after(es, order.drop_first(), j)
    }
}

pub proof fn lemma_insert_sorted(es: Seq<SnapshotEntry>, order: Seq<int>, j: int)
    ensures
        ({
            let f = first_after(es, order, j);
            &&& 0 <= f <= order.len()
            &&& insert_sorted(es, order, j) == order.take(f) + seq![j] + order.skip(f)
            &&& forall|m: int|
                0 <= m < f ==> !bytes_lt(sort_key(es[j]), sort_key(es[#[trigger] order[m]]))
            &&& f < order.len() ==> bytes_lt(sort_key(es[j]), sort_key(es[order[f]]))
        }),
    decreases order.len(),
{
    if order.len() == 0 {
        assert(order.take(0) + seq![j] + order.skip(0) =~= seq![j]);
    } else if bytes_lt(sort_key(es[j]), sort_key(es[order[0]])) {
        assert(order.take(0) + seq![j] + order.skip(0) =~= seq![j] + order);
    } else {
        let t = order.drop_first();
        lemma_insert_sorted(es, t, j);
        let f = first_after(es, t, j);
        assert(seq![order[0]] + (t.take(f) + seq![j] + t.skip(f)) =~= order.take(f + 1) + seq![j]
            + order.skip(f + 1));
        assert forall|m: int| 0 <= m < f + 1 implies !bytes_lt(
            sort_key(es[j]),
            sort_key(es[#[trigger] order[m]]),
        ) by {
            if m > 0 {
                assert(order[m] == t[m - 1]);
            }
        }
        if f < t.len() {
            assert(order[f + 1] == t[f]);
        }
    }
}

/// The sorted order holds distinct indices of entries among the first `n`.
pub proof fn lemma_sorted_order(es: Seq<SnapshotEntry>, n: int)
    requires
        n <= es.len(),
    ensures
        sorted_order(es, n).no_duplicates(),
        forall|m: int|
            0 <= m < sorted_order(es, n).len() ==> 0 <= #[trigger] sorted_order(es, n)[m] < n,
        sorted_order(es, n).len() <= if n < 0 { 0 } else { n },
    decreases n,
{
    if n > 0 {
        lemma_sorted_order(es, n - 1);
        let o = sorted_order(es, n - 1);
        if is_listed(es[n - 1]) {
            lemma_insert_sorted(es, o, n - 1);
            let f = first_after(es, o, n - 1);
            let r = insert_sorted(es, o, n - 1);
            assert forall|m: int| 0 <= m < r.len() implies 0 <= #[trigger] r[m] < n by {
                if m < f {
                    assert(r[m] == o[m]);
                } else if m > f {
                    assert(r[m] == o[m - 1]);
                }
            }
            assert forall|a: int, b: int| 0 <= a < r.len() && 0 <= b < r.len() && a != b implies r[a]
                != r[b] by {
                let ia = if a < f { a } else if a == f { -1 } else { a - 1 };
                let ib = if b < f { b } else if b == f { -1 } else { b - 1 };
                if ia >= 0 {
                    assert(r[a] == o[ia]);
                }
                if ib >= 0 {
                    assert(r[b] == o[ib]);
                }
            }
        }
    }
}

/// No byte is NUL.
pub open spec fn nul_free(b: Seq<u8>) -> bool {
    forall|i: int| 0 <= i < b.len() ==> b[i] != 0
}

/// The entries that writing `order[k..]` of a directory puts into its
/// tree, in order, where every one of them is written.
pub open spec fn written_entries(d: DirSnapshot, order: Seq<int>, k: int) -> Seq<EntryView>
    decreases order.len() - k,
{
    if k < 0 || k >= order.len() || order[k] < 0 || order[k] >= d.entries@.len() {
        seq![]
    } else {
        let e = d.entries@[order[k]];
        let rest = written_entries(d, order, k + 1);
        match e.kind {
            SnapshotKind::File { mode, content: fc } => {
                let full = header_bytes(ObjectType::Blob, fc@.len()) + fc@;
                seq![
                    EntryView {
                        mode,
                        path: e.name@,
                        hash: sha1_checked_digest(full),
                        size: entry_size(mode, e.name@),
                    },
                ] + rest
            },
            SnapshotKind::Dir(sub) => match tree_spec(sub).1 {
                Ok(h) => seq![
                    EntryView {
                        mode: dir_mode(),
                        path: e.name@,
                        hash: h,
                        size: entry_size(dir_mode(), e.name@),
                    },
                ] + rest,
                Err(_) => seq![],
            },
            SnapshotKind::Failed(_) => seq![],
        }
    }
}

/// A successful write of `order[k..]` appends the encoding of the entries
/// it writes, one for each index in order, each named as its directory
/// entry and well formed where those names hold no NUL byte.
pub proof fn lemma_written_content(d: DirSnapshot, order: Seq<int>, k: int, c: Seq<u8>)
    requires
        0 <= k <= order.len(),
        forall|m: int| 0 <= m < order.len() ==> 0 <= #[trigger] order[m] < d.entries@.len(),
        entries_spec(d, order, k, c).1 is Ok,
    ensures
        entries_spec(d, order, k, c).1 == Ok::<Seq<u8>, WriteError>(
            c + tree_content(written_entries(d, order, k)),
        ),
        written_entries(d, order, k).len() == order.len() - k,
        forall|m: int|
            0 <= m < order.len() - k ==> (#[trigger] written_entries(d, order, k)[m]).path
                == d.entries@[order[k + m]].name@,
        forall|m: int|
            0 <= m < order.len() - k && nul_free(name_bytes(d.entries@[order[k + m]])) ==> well_formed_entry(#[trigger] written_entries(d, order, k)[m]),
    decreases order.len() - k,
{
    if k < order.len() {
        let e = d.entries@[order[k]];
        let w = written_entries(d, order, k);
        let rest = written_entries(d, order, k + 1);
        match e.kind {
            SnapshotKind::File { mode, content: fc } => {
                let full = header_bytes(ObjectType::Blob, fc@.len()) + fc@;
                let eb = entry_bytes(mode, e.name@, sha1_checked_digest(full));
                lemma_written_content(d, order, k + 1, c + eb);
                assert(w.drop_first() =~= rest);
                assert((c + eb) + tree_content(rest) =~= c + tree_content(w));
                assert forall|m: int| 0 <= m < order.len() - k implies (#[trigger] w[m]).path
                    == d.entries@[order[k + m]].name@ by {
                    if m > 0 {
                        assert(w[m] == rest[m - 1]);
                    }
                }
                assert forall|m: int|
                    0 <= m < order.len() - k && nul_free(name_bytes(d.entries@[order[k + m]])) implies well_formed_entry(#[trigger] w[m]) by {
                    if m > 0 {
                        assert(w[m] == rest[m - 1]);
                    }
                }
            },
            SnapshotKind::Dir(sub) => {
                let h = tree_spec(sub).1->Ok_0;
                let eb = entry_bytes(dir_mode(), e.name@, h);
                lemma_written_content(d, order, k + 1, c + eb);
                assert(w.drop_first() =~= rest);
                assert((c + eb) + tree_content(rest) =~= c + tree_content(w));
                assert forall|m: int| 0 <= m < order.len() - k implies (#[trigger] w[m]).path
                    == d.entries@[order[k + m]].name@ by {
                    if m > 0 {
                        assert(w[m] == rest[m - 1]);
                    }
                }
                assert forall|m: int|
                    0 <= m < order.len() - k && nul_free(name_bytes(d.entries@[order[k + m]])) implies well_formed_entry(#[trigger] w[m]) by {
                    if m > 0 {
                        assert(w[m] == rest[m - 1]);
                    }
                }
            },
            SnapshotKind::Failed(_) => {},
        }
    }
}

/// The byte order is the lexicographic order of unsigned byte values: `a`
/// sorts before `b` exactly where, at the first position where they differ,
/// the byte of `a` is the smaller number (from 0 to 255), or where `a` is a
/// proper prefix of `b`.
pub proof fn law_bytes_lt_lexicographic(a: Seq<u8>, b: Seq<u8>)
    ensures
        bytes_lt(a, b) <==> ((exists|i: int|
            0 <= i < a.len() && i < b.len() && a.take(i) == b.take(i) && (a[i] as int) < (
            b[i] as int)) || (a.len() < b.len() && a == b.take(a.len() as int))),
    decreases a.len(),
{
    if a.len() == 0 {
        assert(a =~= b.take(0));
    } else if b.len() == 0 {
    } else if a[0] < b[0] {
        assert(a.take(0) =~= b.take(0));
    } else if a[0] > b[0] {
        assert forall|i: int|
            0 <= i < a.len() && i < b.len() && a.take(i) == b.take(i) implies !((a[i] as int) < (
            b[i] as int)) by {
            if i > 0 {
                assert(a.take(i)[0] == b.take(i)[0]);
            }
        }
        if a.len() < b.len() && a == b.take(a.len() as int) {
            assert(a[0] == b.take(a.len() as int)[0]);
        }
    } else {
        let a1 = a.drop_first();
        let b1 = b.drop_first();
        law_bytes_lt_lexicographic(a1, b1);
        if exists|i: int|
            0 <= i < a1.len() && i < b1.len() && a1.take(i) == b1.take(i) && (a1[i] as int) < (
            b1[i] as int) {
            let i = choose|i: int|
                0 <= i < a1.len() && i < b1.len() && a1.take(i) == b1.take(i) && (a1[i] as int) < (
                b1[i] as int);
            assert(a.take(i + 1) =~= seq![a[0]] + a1.take(i));
            assert(b.take(i + 1) =~= seq![b[0]] + b1.take(i));
            assert(a[i + 1] == a1[i] && b[i + 1] == b1[i]);
        }
        if exists|i: int|
            0 <= i < a.len() && i < b.len() && a.take(i) == b.take(i) && (a[i] as int) < (
            b[i] as int) {
            let i = choose|i: int|
                0 <= i < a.len() && i < b.len() && a.take(i) == b.take(i) && (a[i] as int) < (
                b[i] as int);
            assert(i > 0);
            assert(a1.take(i - 1) =~= a.take(i).drop_first());
            assert(b1.take(i - 1) =~= b.take(i).drop_first());
            assert(a1[i - 1] == a[i] && b1[i - 1] == b[i]);
        }
        if a1.len() < b1.len() && a1 == b1.take(a1.len() as int) {
            assert(a =~= b.take(a.len() as int)) by {
                assert forall|k: int| 0 <= k < a.len() implies a[k] == b.take(a.len() as int)[k] by {
                    if k > 0 {
                        assert(a[k] == a1[k - 1]);
                        assert(b1.take(a1.len() as int)[k - 1] == b[k]);
                    }
                }
            }
        }
        if a.len() < b.len() && a == b.take(a.len() as int) {
            assert(a1 =~= b1.take(a1.len() as int));
        }
    }
}

/// The byte order is transitive.
pub proof fn lemma_bytes_lt_trans(a: Seq<u8>, b: Seq<u8>, c: Seq<u8>)
    requires
        bytes_lt(a, b),
        bytes_lt(b, c),
    ensures
        bytes_lt(a, c),
    decreases a.len(),
{
    if a.len() > 0 && a[0] == c[0] {
        lemma_bytes_lt_trans(a.drop_first(), b.drop_first(), c.drop_first());
    }
}

/// No key sorts strictly before itself.
pub proof fn lemma_bytes_lt_irreflexive(a: Seq<u8>)
    ensures
        !bytes_lt(a, a),
    decreases a.len(),
{
    if a.len() > 0 {
        lemma_bytes_lt_irreflexive(a.drop_first());
    }
}

/// The sorted order holds every listed entry among the first `n`, and
/// only those, in the byte order of their sort keys.
pub proof fn lemma_sorted_order_sorted(es: Seq<SnapshotEntry>, n: int)
    requires
        n <= es.len(),
    ensures
        forall|m: int|
            0 <= m < sorted_order(es, n).len() ==> is_listed(es[#[trigger] sorted_order(es, n)[m]]),
        forall|j: int| 0 <= j < n && is_listed(es[j]) ==> sorted_order(es, n).contains(j),
        forall|a: int, b: int|
            0 <= a < b < sorted_order(es, n).len() ==> !bytes_lt(
                sort_key(es[#[trigger] sorted_order(es, n)[b]]),
                sort_key(es[#[trigger] sorted_order(es, n)[a]]),
            ),
    decreases n,
{
    if n > 0 {
        lemma_sorted_order_sorted(es, n - 1);
        lemma_sorted_order(es, n - 1);
        let o = sorted_order(es, n - 1);
        if is_listed(es[n - 1]) {
            let j = n - 1;
            lemma_insert_sorted(es, o, j);
            let f = first_after(es, o, j);
            let r = insert_sorted(es, o, j);
            assert(r.len() == o.len() + 1);
            assert forall|m: int| 0 <= m < r.len() implies is_listed(es[#[trigger] r[m]]) by {
                if m < f {
                    assert(r[m] == o[m]);
                } else if m > f {
                    assert(r[m] == o[m - 1]);
                }
            }
            assert forall|i: int| 0 <= i < n && is_listed(es[i]) implies r.contains(i) by {
                if i == j {
                    assert(r[f] == j);
                } else {
                    assert(o.contains(i));
                    let m = choose|m: int| 0 <= m < o.len() && o[m] == i;
                    if m < f {
                        assert(r[m] == o[m]);
                    } else {
                        assert(r[m + 1] == o[m]);
                    }
                }
            }
            assert forall|a: int, b: int| 0 <= a < b < r.len() implies !bytes_lt(
                sort_key(es[#[trigger] r[b]]),
                sort_key(es[#[trigger] r[a]]),
            ) by {
                if b < f {
                    assert(r[a] == o[a] && r[b] == o[b]);
                } else if b == f {
                    assert(r[a] == o[a]);
                } else if a == f {
                    assert(r[b] == o[b - 1]);
                    if f < o.len() {
                        assert(bytes_lt(sort_key(es[j]), sort_key(es[o[f]])));
                        if b - 1 > f {
                            assert(!bytes_lt(sort_key(es[o[b - 1]]), sort_key(es[o[f]])));
                        }
                        if bytes_lt(sort_key(es[o[b - 1]]), sort_key(es[j])) {
                            lemma_bytes_lt_irreflexive(sort_key(es[o[f]]));
                            lemma_bytes_lt_trans(
                                sort_key(es[o[b - 1]]),
                                sort_key(es[j]),
                                sort_key(es[o[f]]),
                            );
                        }
                    }
                } else if a < f {
                    assert(r[a] == o[a] && r[b] == o[b - 1]);
                } else {
                    assert(r[a] == o[a - 1] && r[b] == o[b - 1]);
                }
            }
        }
    }
}

/// The tree written for a directory takes its entries in this order: each
/// entry that is listed (its name does not start with `.` and is not
/// `target`), once, and no other, in git's order: the byte order of the
/// names, where a directory's name counts as followed by `/`.
pub proof fn law_tree_entry_order(d: DirSnapshot)
    ensures
        ({
            let es = d.entries@;
            let o = dir_order(d);
            &&& o.no_duplicates()
            &&& forall|m: int| 0 <= m < o.len() ==> 0 <= #[trigger] o[m] < es.len() && is_listed(
                es[o[m]],
            )
            &&& forall|j: int| 0 <= j < es.len() && is_listed(es[j]) ==> o.contains(j)
            &&& forall|a: int, b: int|
                0 <= a < b < o.len() ==> !bytes_lt(
                    sort_key(es[#[trigger] o[b]]),
                    sort_key(es[#[trigger] o[a]]),
                )
        }),
{
    let es = d.entries@;
    lemma_sorted_order(es, es.len() as int);
    lemma_sorted_order_sorted(es, es.len() as int);
}

/// Whether `a` sorts strictly before `b`, byte by byte.
pub fn bytes_less(a: &[u8], b: &[u8]) -> (r: bool)
    ensures
        r == bytes_lt(a@, b@),
{
    let mut i: usize = 0;
    assert(a@.skip(0) =~= a@ && b@.skip(0) =~= b@);
    while i < a.len() && i < b.len() && a[i] == b[i]
        invariant
            i <= a.len(),
            i <= b.len(),
            bytes_lt(a@, b@) == bytes_lt(a@.skip(i as int), b@.skip(i as int)),
        decreases a.len() - i,
    {
        assert(a@.skip(i as int).drop_first() =~= a@.skip(i + 1));
        assert(b@.skip(i as int).drop_first() =~= b@.skip(i + 1));
        i = i + 1;
    }
    if i == a.len() {
        assert(a@.skip(i as int).len() == 0);
        i < b.len()
    } else if i == b.len() {
        false
    } else {
        a[i] < b[i]
    }
}

/// Whether an entry goes into the tree.
fn listed(e: &SnapshotEntry) -> (r: bool)
    ensures
        r == is_listed(*e),
{
    listed_name(&e.name)
}

/// Whether an entry of this name goes into a tree.
pub fn listed_name(name: &String) -> (r: bool)
    ensures
        r == is_listed_name(name@),
{
    let n = name.as_str();
    if !n.is_empty() && n.get_char(0) == '.' {
        return false;
    }
    let t = "target".to_string();
    !(*name == t)
}

/// The key an entry is sorted by.
fn sort_key_exec(e: &SnapshotEntry) -> (k: Vec<u8>)
    ensures
        k@ == sort_key(*e),
{
    let mut k: Vec<u8> = Vec::new();
    append_bytes(&mut k, e.name.as_str().as_bytes());
    if let SnapshotKind::Dir(_) = &e.kind {
        k.push(47u8);
    }
    k
}

/// The order in which a directory's entries go into its tree.
fn sort_entries(es: &Vec<SnapshotEntry>) -> (r: Vec<usize>)
    ensures
        r@.len() == sorted_order(es@, es@.len() as int).len(),
        forall|m: int| 0 <= m < r@.len() ==> r@[m] as int == #[trigger] sorted_order(es@, es@.len() as int)[m],
{
    let mut keys: Vec<Vec<u8>> = Vec::new();
    let mut i: usize = 0;
    while i < es.len()
        invariant
            i <= es.len(),
            keys@.len() == i,
            forall|m: int| 0 <= m < i ==> #[trigger] keys@[m]@ == sort_key(es@[m]),
        decreases es.len() - i,
    {
        keys.push(sort_key_exec(&es[i]));
        i = i + 1;
    }
    let mut order: Vec<usize> = Vec::new();
    let mut j: usize = 0;
    while j < es.len()
        invariant
            keys@.len() == es.len(),
            forall|m: int| 0 <= m < es.len() ==> #[trigger] keys@[m]@ == sort_key(es@[m]),
            j <= es.len(),
            order@.len() == sorted_order(es@, j as int).len(),
            forall|m: int| 0 <= m < order@.len() ==> order@[m] as int == #[trigger] sorted_order(es@, j as int)[m],
        decreases es.len() - j,
    {
        let ghost o = sorted_order(es@, j as int);
        if listed(&es[j]) {
            proof {
                lemma_sorted_order(es@, j as int);
                lemma_insert_sorted(es@, o, j as int);
            }
            let nj = &keys[j];
            let mut k: usize = 0;
            while k < order.len() && !bytes_less(nj, &keys[order[k]])
                invariant
                    keys@.len() == es.len(),
                    forall|m: int| 0 <= m < es.len() ==> #[trigger] keys@[m]@ == sort_key(es@[m]),
                    k <= order.len(),
                    j < es.len(),
                    o == sorted_order(es@, j as int),
                    order@.len() == o.len(),
                    forall|m: int| 0 <= m < order@.len() ==> #[trigger] order@[m] as int == o[m],
                    forall|m: int| 0 <= m < o.len() ==> 0 <= #[trigger] o[m] < j,
                    nj@ == sort_key(es@[j as int]),
                    forall|m: int| 0 <= m < k ==> !bytes_lt(sort_key(es@[j as int]), sort_key(es@[#[trigger] o[m]])),
                    first_after(es@, o, j as int) >= k,
                decreases order.len() - k,
            {
                proof {
                    lemma_sorted_order(es@, j as int);
                    lemma_first_after_skip(es@, o, j as int, k as int);
                }
                k = k + 1;
            }
            proof {
                lemma_insert_sorted(es@, o, j as int);
                lemma_sorted_order(es@, j as int);
            }
            let ghost before = order@;
            order.insert(k, j);
            proof {
                let f = first_after(es@, o, j as int);
                assert(f == k);
                let r = sorted_order(es@, j + 1);
                assert(r == o.take(f) + seq![j as int] + o.skip(f));
                assert forall|m: int| 0 <= m < order@.len() implies order@[m] as int == #[trigger] r[m] by {
                    if m < k {
                        assert(order@[m] == before[m]);
                    } else if m > k {
                        assert(order@[m] == before[m - 1]);
                    }
                }
            }
        }
        j = j + 1;
    }
    order
}

pub proof fn lemma_first_after_skip(es: Seq<SnapshotEntry>, o: Seq<int>, j: int, k: int)
    requires
        0 <= k < o.len(),
        first_after(es, o, j) >= k,
        !bytes_lt(sort_key(es[j]), sort_key(es[o[k]])),
    ensures
        first_after(es, o, j) >= k + 1,
    decreases k,
{
    let t = o.drop_first();
    lemma_insert_sorted(es, t, j);
    if k > 0 {
        assert(!bytes_lt(sort_key(es[j]), sort_key(es[o[0]]))) by {
            if bytes_lt(sort_key(es[j]), sort_key(es[o[0]])) {
                assert(first_after(es, o, j) == 0);
            }
        }
        assert(t[k - 1] == o[k]);
        lemma_first_after_skip(es, t, j, k - 1);
    }
}

/// What writing a tree gives: the files to store, in order, and the hash of
/// the tree, or why it failed.
pub struct TreeWrite {
    pub objects: Vec<LooseFile>,
    pub result: Result<[u8; 20], Failure>,
}

/// The views of files to store.
pub open spec fn file_views(fs: Seq<LooseFile>) -> Seq<(Seq<u8>, Seq<u8>)> {
    fs.map_values(|f: LooseFile| (f.path@, f.data@))
}

/// A tree write is the one the specification describes.
pub open spec fn write_matches(
    w: TreeWrite,
    v: (Seq<(Seq<u8>, Seq<u8>)>, Result<Seq<u8>, WriteError>),
) -> bool {
    &&& file_views(w.objects@) == v.0
    &&& match v.1 {
        Ok(h) => w.result matches Ok(r) && r@ == h,
        Err(WriteError::Io) => w.result matches Err(Failure::Git(e)) && e is IOError,
        Err(WriteError::TooLong) => w.result matches Err(Failure::Aborted(a))
            && a.message@ == "attempt to add with overflow"@,
    }
}

/// Moves the entries into slots that can be emptied one by one.
fn into_slots(entries: Vec<SnapshotEntry>) -> (s: Vec<Option<SnapshotEntry>>)
    ensures
        s@.len() == entries@.len(),
        forall|i: int| 0 <= i < s@.len() ==> #[trigger] s@[i] == Some(entries@[i]),
{
    let ghost orig = entries@;
    let n = entries.len();
    let mut s: Vec<Option<SnapshotEntry>> = Vec::new();
    let mut i: usize = 0;
    while i < n
        invariant
            i <= n,
            s@.len() == i,
            forall|m: int| 0 <= m < i ==> s@[m] is None,
        decreases n - i,
    {
        s.push(None);
        i = i + 1;
    }
    let mut v = entries;
    while v.len() > 0
        invariant
            v@ == orig.take(v@.len() as int),
            v@.len() <= n,
            s@.len() == n,
            n == orig.len(),
            forall|m: int| v@.len() <= m < n ==> #[trigger] s@[m] == Some(orig[m]),
        decreases v@.len(),
    {
        let last = v.len() - 1;
        let e = v.pop().unwrap();
        assert(v@ =~= orig.take(last as int));
        s.set(last, Some(e));
    }
    s
}

/// Appends `files` to `objects`.
fn append_files(objects: &mut Vec<LooseFile>, files: Vec<LooseFile>)
    ensures
        file_views(final(objects)@) == file_views(old(objects)@) + file_views(files@),
{
    let mut f = files;
    let mut rest: Vec<LooseFile> = Vec::new();
    let ghost orig = f@;
    while f.len() > 0
        invariant
            file_views(orig) == file_views(f@) + file_views(rest@).reverse(),
        decreases f@.len(),
    {
        let ghost before = f@;
        let x = f.pop().unwrap();
        let ghost pr = rest@;
        rest.push(x);
        assert(before =~= f@.push(x));
        assert(file_views(before) =~= file_views(f@).push((x.path@, x.data@)));
        assert(file_views(rest@) =~= file_views(pr).push((x.path@, x.data@)));
        assert(file_views(rest@).reverse() =~= seq![(x.path@, x.data@)] + file_views(pr).reverse());
    }
    let ghost start = objects@;
    while rest.len() > 0
        invariant
            file_views(objects@) + file_views(rest@).reverse() == file_views(start) + file_views(
                orig,
            ),
        decreases rest@.len(),
    {
        let ghost before = rest@;
        let ghost ob = objects@;
        let x = rest.pop().unwrap();
        objects.push(x);
        assert(before =~= rest@.push(x));
        assert(file_views(before) =~= file_views(rest@).push((x.path@, x.data@)));
        assert(file_views(objects@) =~= file_views(ob).push((x.path@, x.data@)));
        assert(file_views(before).reverse() =~= seq![(x.path@, x.data@)] + file_views(rest@).reverse());
    }
    assert(file_views(rest@).reverse() =~= Seq::<(Seq<u8>, Seq<u8>)>::empty());
}

impl Tree {
    /// Writes the tree of a directory snapshot: its listed entries in name
    /// order, files as blobs and directories as trees of their own, each
    /// prepared for storage as it is created, then the tree itself; gives
    /// the files to store and the tree's hash, or why it failed.
    pub fn write_tree(dir: DirSnapshot) -> (w: TreeWrite)
        ensures
            write_matches(w, tree_spec(dir)),
            w.result is Ok ==> zlib_inflated(w.objects@.last().data@) == Some(root_object(dir)),
        decreases dir,
    {
        let order = sort_entries(&dir.entries);
        let ghost d = dir;
        let ghost ord = dir_order(d);
        proof {
            lemma_sorted_order(d.entries@, d.entries@.len() as int);
        }
        let DirSnapshot { entries } = dir;
        let mut slots = into_slots(entries);
        let mut objects: Vec<LooseFile> = Vec::new();
        let mut buf: Vec<u8> = Vec::new();
        let mut size: usize = 0;
        let ghost total = entries_spec(d, ord, 0, seq![]);
        let mut k: usize = 0;
        while k < order.len()
            invariant
                d == dir,
                ord == dir_order(d),
                ord.no_duplicates(),
                forall|m: int| 0 <= m < ord.len() ==> 0 <= #[trigger] ord[m] < d.entries@.len(),
                order@.len() == ord.len(),
                forall|m: int| 0 <= m < order@.len() ==> #[trigger] order@[m] as int == ord[m],
                k <= order.len(),
                slots@.len() == d.entries@.len(),
                forall|m: int|
                    k <= m < ord.len() ==> #[trigger] slots@[ord[m]] == Some(d.entries@[ord[m]]),
                size == buf@.len(),
                total == entries_spec(d, ord, 0, seq![]),
                total.0 == file_views(objects@) + entries_spec(d, ord, k as int, buf@).0,
                total.1 == entries_spec(d, ord, k as int, buf@).1,
            decreases order.len() - k,
        {
            let idx = order[k];
            assert(slots@[ord[k as int]] == Some(d.entries@[ord[k as int]]));
            let item = slots.remove(idx);
            slots.insert(idx, None);
            assert forall|m: int| k + 1 <= m < ord.len() implies #[trigger] slots@[ord[m]] == Some(
                d.entries@[ord[m]],
            ) by {
                assert(ord[m] != ord[k as int]);
            }
            let e = match item {
                Some(e) => e,
                None => {
                    assert(false);
                    return TreeWrite { objects, result: Ok([0u8; 20]) };
                },
            };
            assert(e == d.entries@[ord[k as int]]);
            let SnapshotEntry { name, kind } = e;
            let name_len = name.as_str().as_bytes().len();
            if name_len > usize::MAX - 64 {
                assert(total.0 =~= file_views(objects@));
                return TreeWrite {
                    objects,
                    result: Err(Failure::Aborted(abort("attempt to add with overflow"))),
                };
            }
            let ghost before = buf@;
            match kind {
                SnapshotKind::Failed(err) => {
                    assert(entries_spec(d, ord, k as int, buf@).1 == Err::<Seq<u8>, WriteError>(
                        WriteError::Io,
                    ));
                    assert(total.0 =~= file_views(objects@));
                    return TreeWrite {
                        objects,
                        result: Err(Failure::Git(GitError::IOError(err))),
                    };
                },
                SnapshotKind::File { mode, content } => {
                    let o = match Object::create_from_buffer(
                        &content,
                        ObjectType::Blob,
                        content.len(),
                        true,
                    ) {
                        Ok(o) => o,
                        Err(g) => {
                            assert(false);
                            return TreeWrite { objects, result: Err(Failure::Git(g)) };
                        },
                    };
                    let Object { hash_raw, stored, .. } = o;
                    let raw = match hash_raw {
                        Some(r) => r,
                        None => {
                            assert(false);
                            [0u8; 20]
                        },
                    };
                    match stored {
                        Some(f) => {
                            let ghost fv = (f.path@, f.data@);
                            let ghost prev = objects@;
                            objects.push(f);
                            assert(file_views(objects@) =~= file_views(prev).push(fv));
                        },
                        None => {
                            assert(false);
                        },
                    }
                    let entry = TreeEntry::builder().path(name).mode(mode).hash(raw).build();
                    entry.write_to(&mut buf);
                    proof {
                        crate::tree::lemma_entry_size(entry.mode, entry.path@, entry.hash@);
                    }
                    let written = buf.len();
                    assert(size + entry.size == written);
                    size = size + entry.size;
                    assert(total.0 =~= file_views(objects@) + entries_spec(d, ord, k + 1, buf@).0);
                },
                SnapshotKind::Dir(sub) => {
                    assert(decreases_to!(dir => sub)) by {
                        assert(decreases_to!(dir => dir.entries));
                        assert(decreases_to!(dir.entries => dir.entries@));
                        assert(decreases_to!(dir.entries@ => dir.entries@[ord[k as int]]));
                        assert(decreases_to!(dir.entries@[ord[k as int]] => dir.entries@[ord[k as int]].kind));
                    }
                    let w = Tree::write_tree(sub);
                    let TreeWrite { objects: sub_objects, result } = w;
                    let ghost prev = objects@;
                    append_files(&mut objects, sub_objects);
                    let h = match result {
                        Ok(h) => h,
                        Err(x) => {
                            assert(total.0 =~= file_views(objects@));
                            return TreeWrite { objects, result: Err(x) };
                        },
                    };
                    let entry = TreeEntry::builder().path(name).mode(0o40000).hash(h).build();
                    entry.write_to(&mut buf);
                    proof {
                        crate::tree::lemma_entry_size(entry.mode, entry.path@, entry.hash@);
                    }
                    let written = buf.len();
                    assert(size + entry.size == written);
                    size = size + entry.size;
                    assert(total.0 =~= file_views(objects@) + entries_spec(d, ord, k + 1, buf@).0);
                },
            }
            k = k + 1;
        }
        assert(total.1 == Ok::<Seq<u8>, WriteError>(buf@));
        assert(total.0 =~= file_views(objects@));
        match Object::create_from_buffer(&buf, ObjectType::Tree, size, true) {
            Err(g) => {
                assert(false);
                TreeWrite { objects, result: Err(Failure::Git(g)) }
            },
            Ok(o) => {
                let Object { hash_raw, stored, .. } = o;
                match stored {
                    Some(f) => {
                        let ghost fv = (f.path@, f.data@);
                        let ghost prev = objects@;
                        objects.push(f);
                        assert(file_views(objects@) =~= file_views(prev).push(fv));
                    },
                    None => {
                        assert(false);
                    },
                }
                let raw = match hash_raw {
                    Some(r) => r,
                    None => {
                        assert(false);
                        [0u8; 20]
                    },
                };
                TreeWrite { objects, result: Ok(raw) }
            },
        }
    }
}

/// Writing the same directory twice gives the same tree: the same files to
/// store, in the same order, and the same outcome, with the same hash when
/// it succeeds.
pub proof fn law_write_tree_deterministic(d: DirSnapshot, w1: TreeWrite, w2: TreeWrite)
    requires
        write_matches(w1, tree_spec(d)),
        write_matches(w2, tree_spec(d)),
    ensures
        file_views(w1.objects@) == file_views(w2.objects@),
        w1.result is Ok <==> w2.result is Ok,
        w1.result matches Ok(h1) ==> (w2.result matches Ok(h2) && h1@ == h2@),
        w1.result matches Err(Failure::Git(e)) ==> (w2.result matches Err(Failure::Git(e2))
            && e is IOError && e2 is IOError),
        w1.result matches Err(Failure::Aborted(a)) ==> (w2.result matches Err(Failure::Aborted(a2))
            && a.message@ == a2.message@),
{
}

} // verus!
