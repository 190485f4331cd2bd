//! Setting up a repository and bringing its working files up to date.

use vstd::prelude::*;
use vstd::string::{StrSliceExecFns, StringExecFns};
use vstd::utf8::encode_utf8;
use crate::{Failure, GitError};
use crate::bytes::append_bytes;
use crate::cli::{
    ends_with, failure_request, list_stored_tree, ls_tree_step, object_request, Git, Reply, Request,
};
use crate::external::{string_from_utf8_lossy, utf8_lossy};
use crate::object::{header_error_is, stored_cat_spec, Object};
use crate::text::{
    decimal_chars, decimal_string, first_space, line_at, line_span, space_from, word_spans,
    words_in,
};
use crate::protocol::{
    advertised_refs, pack_end_matches, pack_response_spec, ref_views, request_body_spec,
    stored_views, GitClient, PackEnd, UploadPackCompute, UploadPackDiscovery,
};
use crate::tree::{entry_views, listing_from, ListError, LooseLookup, Tree, TreeEntry};

verus! {

broadcast use vstd::string::group_string_axioms;

/// One step of setting up a repository, done in order; the first that
/// fails stops the setup.
pub enum LayoutStep {
    /// Create this directory (its parent must exist).
    CreateDir(String),
    /// Write this text to the file at this path, replacing it.
    WriteFile(String, String),
}

/// The view of a step: whether it creates a directory, the path, and the
/// text written.
pub open spec fn step_view(s: LayoutStep) -> (bool, Seq<char>, Seq<char>) {
    match s {
        LayoutStep::CreateDir(p) => (true, p@, Seq::empty()),
        LayoutStep::WriteFile(p, t) => (false, p@, t@),
    }
}

/// The views of a list of steps.
pub open spec fn step_views(s: Seq<LayoutStep>) -> Seq<(bool, Seq<char>, Seq<char>)> {
    s.map_values(|x: LayoutStep| step_view(x))
}

/// The layout of a new repository in the working directory: its
/// directories, then its files, with `HEAD` naming the `master` branch.
pub open spec fn repo_layout() -> Seq<(bool, Seq<char>, Seq<char>)> {
    seq![
        (true, ".git"@, Seq::empty()),
        (true, ".git/objects"@, Seq::empty()),
        (true, ".git/refs"@, Seq::empty()),
        (true, ".git/refs/heads"@, Seq::empty()),
        (true, ".git/hooks"@, Seq::empty()),
        (true, ".git/info"@, Seq::empty()),
        (false, ".git/config"@, ""@),
        (false, ".git/description"@, ""@),
        (false, ".git/refs/heads/master"@, ""@),
        (false, ".git/HEAD"@, "ref: refs/heads/master\n"@),
    ]
}

/// Setting up and updating a repository.
pub struct Repo;

impl Repo {
    /// The steps that initialize a repository in the working directory.
    pub fn init() -> (steps: Vec<LayoutStep>)
        ensures
            step_views(steps@) == repo_layout(),
    {
        let steps = vec![
            LayoutStep::CreateDir(".git".to_string()),
            LayoutStep::CreateDir(".git/objects".to_string()),
            LayoutStep::CreateDir(".git/refs".to_string()),
            LayoutStep::CreateDir(".git/refs/heads".to_string()),
            LayoutStep::CreateDir(".git/hooks".to_string()),
            LayoutStep::CreateDir(".git/info".to_string()),
            LayoutStep::WriteFile(".git/config".to_string(), "".to_string()),
            LayoutStep::WriteFile(".git/description".to_string(), "".to_string()),
            LayoutStep::WriteFile(".git/refs/heads/master".to_string(), "".to_string()),
            LayoutStep::WriteFile(".git/HEAD".to_string(), "ref: refs/heads/master\n".to_string()),
        ];
        assert(step_views(steps@) =~= repo_layout());
        steps
    }
}

/// The characters of a string, in order.
pub fn string_chars(s: &str) -> (v: Vec<char>)
    ensures
        v@ == s@,
{
    let mut v: Vec<char> = Vec::new();
    for c in it: s.chars()
        invariant
            it.seq() == s@,
            v@ == it.seq().take(it.index() as int),
    {
        v.push(c);
    }
    v
}

/// Text read for the update, with its characters at hand.
pub struct Listing {
    text: String,
    chars: Vec<char>,
}

impl Listing {
    #[verifier::type_invariant]
    spec fn consistent(self) -> bool {
        self.text@ == self.chars@
    }

    /// Takes the text.
    pub fn new(text: String) -> (l: Listing)
        ensures
            l@ == text@,
    {
        let chars = string_chars(text.as_str());
        Listing { text, chars }
    }

    /// The number of characters.
    pub fn len(&self) -> (n: usize)
        ensures
            n == self@.len(),
    {
        self.chars.len()
    }

    /// The characters from `a` up to `b`, as a string.
    pub fn substring(&self, a: usize, b: usize) -> (s: String)
        requires
            a <= b <= self@.len(),
        ensures
            s@ == self@.subrange(a as int, b as int),
    {
        proof {
            use_type_invariant(self);
        }
        self.text.as_str().substring_char(a, b).to_string()
    }

    /// Whether the characters from `a` up to `b` spell `blob`.
    pub fn is_blob_at(&self, a: usize, b: usize) -> (r: bool)
        requires
            a <= b <= self@.len(),
        ensures
            r == (self@.subrange(a as int, b as int) == "blob"@),
    {
        let c = &self.chars;
        let r = b - a == 4 && c[a] == 'b' && c[a + 1] == 'l' && c[a + 2] == 'o' && c[a + 3] == 'b';
        proof {
            reveal_strlit("blob");
            let s = self@.subrange(a as int, b as int);
            let w = "blob"@;
            assert(w.len() == 4 && w[0] == 'b' && w[1] == 'l' && w[2] == 'o' && w[3] == 'b');
            if r {
                assert(s =~= w);
            } else if b - a == 4 {
                assert(s[0] == c@[a as int] && s[1] == c@[a + 1] && s[2] == c@[a + 2] && s[3]
                    == c@[a + 3]);
                if s == w {
                    assert(s[0] == w[0] && s[1] == w[1] && s[2] == w[2] && s[3] == w[3]);
                }
            } else {
                assert(s.len() != w.len());
            }
        }
        r
    }
}

impl View for Listing {
    type V = Seq<char>;

    closed spec fn view(&self) -> Seq<char> {
        self.chars@
    }
}

/// Where an update of the working files stands.
pub enum UpdateStage {
    Start,
    /// Waiting for the text of the `master` ref.
    Head,
    /// Waiting for the stored commit object.
    Commit,
    /// Waiting for the stored tree object of the commit.
    Tree,
    /// Waiting for the lookups of the tree's entries.
    TreeLookup { entries: Vec<TreeEntry>, pending: Option<Failure> },
    /// Waiting for the stored object of the listing line before `next`;
    /// `blob` tells whether that line names a blob, to be written to `name`.
    Entry { listing: Listing, next: usize, blob: bool, name: String },
    /// Waiting for the file `name` to be written.
    Write { listing: Listing, next: usize, name: String },
    Finished,
}

/// Brings the working files up to date with the tree of the commit that
/// `master` names: lists that tree as `ls-tree` does, reads the listing
/// back line by line, and writes each blob to the file the line names.
pub struct Update {
    /// What the update prints.
    pub out: Vec<u8>,
    pub stage: UpdateStage,
}

/// Where the `master` ref is kept.
pub open spec fn head_ref_path() -> Seq<u8> {
    encode_utf8(".git/refs/heads/master"@)
}

/// The message of the stop on a listing line with `n` words, fewer than the
/// four it should have.
pub open spec fn short_line_message(n: nat) -> Seq<char> {
    "index out of bounds: the len is "@ + decimal_chars(n) + " but the index is "@ + decimal_chars(n)
}

/// What the update does with the listing line that starts at `p` in `t`:
/// once the listing is used up it is done; a line must have four words
/// (mode, type, hash, name); the object the third names is read, and the
/// line is remembered until then.
pub open spec fn entry_step(t: Seq<char>, p: int, stage: UpdateStage, r: Request) -> bool {
    if p >= t.len() {
        r matches Request::Finish(Ok(()))
    } else {
        let (e, next) = line_span(t, p);
        let ws = word_spans(t, p, e, None);
        if ws.len() < 4 {
            r matches Request::Abort(m) && m@ == short_line_message(ws.len())
        } else {
            &&& object_request(t.subrange(ws[2].0, ws[2].1), r)
            &&& r is ReadObjectFile ==> (stage matches UpdateStage::Entry { listing, next: n, blob, name }
                && listing@ == t && n == next && blob == (t.subrange(ws[1].0, ws[1].1) == "blob"@)
                && name@ == t.subrange(ws[3].0, ws[3].1))
        }
    }
}

/// What the update does with the text of the commit object: its first line
/// must hold a space, and what follows the space names the tree to read.
pub open spec fn commit_step(t: Seq<char>, stage: UpdateStage, r: Request) -> bool {
    if t.len() == 0 {
        r matches Request::Abort(m) && m@ == "called `Option::unwrap()` on a `None` value"@
    } else {
        let e = line_span(t, 0).0;
        let sp = space_from(t, 0, e);
        if sp >= e {
            r matches Request::Abort(m) && m@ == "invalid commit content"@
        } else {
            object_request(t.subrange(sp + 1, e), r) && (r is ReadObjectFile ==> stage is Tree)
        }
    }
}

/// The entries a stage holds while their object files are looked for.
pub open spec fn update_wait(s: UpdateStage) -> Option<(Seq<TreeEntry>, Option<Failure>)> {
    match s {
        UpdateStage::TreeLookup { entries, pending } => Some((entries@, pending)),
        _ => None,
    }
}

/// What one step of the update does with what came of its last request;
/// once it finishes or stops, it is over.
pub open spec fn update_step(old: Update, reply: Reply, new: Update, r: Request) -> bool {
    &&& r is Finish || r is Abort ==> new.stage is Finished
    &&& update_transition(old, reply, new, r)
}

/// What a step of the update does, case by case.
pub open spec fn update_transition(old: Update, reply: Reply, new: Update, r: Request) -> bool {
    match (old.stage, reply) {
        (UpdateStage::Head, Reply::Text(h)) => new.out == old.out && object_request(h@, r) && (r
            is ReadObjectFile ==> new.stage is Commit),
        (UpdateStage::Commit, Reply::Bytes(b)) => new.out == old.out && match stored_cat_spec(b@) {
            None => r matches Request::Finish(Err(e)) && e is IOError,
            Some(Err(k)) => r matches Request::Finish(Err(e)) && header_error_is(e, k),
            Some(Ok(c)) => commit_step(utf8_lossy(c), new.stage, r),
        },
        (UpdateStage::Tree, Reply::Bytes(b)) => new.out == old.out && ls_tree_step(
            b@,
            false,
            Seq::empty(),
            Seq::empty(),
            update_wait(new.stage),
            r,
        ),
        (UpdateStage::TreeLookup { entries, pending }, Reply::Lookups(ls)) => new.out == old.out
            && if ls.len() < entries.len() {
            r matches Request::Abort(m) && m@ == "lookup results missing"@
        } else {
            let l = listing_from(entry_views(entries@), ls@, false, 0);
            match l.1 {
                Some(ListError::Io) => r matches Request::Finish(Err(e)) && e is IOError,
                Some(ListError::Header(k)) => r matches Request::Finish(Err(e)) && header_error_is(
                    e,
                    k,
                ),
                None => match pending {
                    Some(p) => ends_with(p, r),
                    None => entry_step(utf8_lossy(l.0), 0, new.stage, r),
                },
            }
        },
        (UpdateStage::Entry { listing, next, blob, name }, Reply::Bytes(b)) => new.out == old.out
            && match stored_cat_spec(b@) {
            None => r matches Request::Finish(Err(e)) && e is IOError,
            Some(Err(k)) => r matches Request::Finish(Err(e)) && header_error_is(e, k),
            Some(Ok(c)) => if blob {
                &&& r matches Request::WriteFile(p, data) && p@ == name@ && data@ == c
                &&& new.stage matches UpdateStage::Write { listing: l2, next: n2, name: m2 }
                    && l2@ == listing@ && n2 == next && m2@ == name@
            } else {
                entry_step(listing@, next as int, new.stage, r)
            },
        },
        (UpdateStage::Write { listing, next, name }, Reply::Done) => new.out@ == old.out@
            + encode_utf8("+ "@) + encode_utf8(name@) + seq![10u8] && entry_step(
            listing@,
            next as int,
            new.stage,
            r,
        ),
        (UpdateStage::Head, Reply::Failed(e)) => new.out == old.out && r == Request::Finish(
            Err(GitError::IOError(e)),
        ),
        (UpdateStage::Commit, Reply::Failed(e)) => new.out == old.out && r == Request::Finish(
            Err(GitError::IOError(e)),
        ),
        (UpdateStage::Tree, Reply::Failed(e)) => new.out == old.out && r == Request::Finish(
            Err(GitError::IOError(e)),
        ),
        (UpdateStage::Entry { .. }, Reply::Failed(e)) => new.out == old.out && r
            == Request::Finish(Err(GitError::IOError(e))),
        (UpdateStage::Write { .. }, Reply::Failed(e)) => new.out == old.out && r
            == Request::Finish(Err(GitError::IOError(e))),
        _ => new.out == old.out && (r matches Request::Abort(m) && m@ == "unexpected reply"@),
    }
}

impl Update {
    /// An update that has not started.
    pub fn new() -> (u: Update)
        ensures
            u.out@.len() == 0,
            u.stage is Start,
    {
        Update { out: Vec::new(), stage: UpdateStage::Start }
    }

    /// Starts the update: reads the `master` ref.
    pub fn run(&mut self) -> (r: Request)
        requires
            old(self).stage is Start,
        ensures
            final(self).out == old(self).out,
            final(self).stage is Head,
            r matches Request::ReadText(p) && p@ == head_ref_path(),
    {
        self.stage = UpdateStage::Head;
        let mut path: Vec<u8> = Vec::new();
        append_bytes(&mut path, ".git/refs/heads/master".as_bytes());
        Request::ReadText(path)
    }

    /// Takes what came of the last request and gives the next one.
    pub fn resume(&mut self, reply: Reply) -> (r: Request)
        ensures
            update_step(*old(self), reply, *final(self), r),
    {
        let mut stage = UpdateStage::Finished;
        std::mem::swap(&mut self.stage, &mut stage);
        match (stage, reply) {
            (UpdateStage::Head, Reply::Text(h)) => {
                let r = Git::object_file_request(h.as_str());
                if let Request::ReadObjectFile(_) = &r {
                    self.stage = UpdateStage::Commit;
                }
                r
            },
            (UpdateStage::Commit, Reply::Bytes(b)) => self.commit_read(&b),
            (UpdateStage::Tree, Reply::Bytes(b)) => {
                let mut scratch: Vec<u8> = Vec::new();
                let (r, waiting) = list_stored_tree(&b, false, &mut scratch);
                if let Some((entries, pending)) = waiting {
                    self.stage = UpdateStage::TreeLookup { entries, pending };
                }
                r
            },
            (UpdateStage::TreeLookup { entries, pending }, Reply::Lookups(ls)) => {
                if ls.len() < entries.len() {
                    return Request::Abort("lookup results missing".to_string());
                }
                let mut content: Vec<u8> = Vec::new();
                match Tree::show_tree(&entries, pending, false, ls, &mut content) {
                    Err(f) => failure_request(f),
                    Ok(()) => {
                        let listing = Listing::new(string_from_utf8_lossy(&content));
                        self.next_entry(listing, 0)
                    },
                }
            },
            (UpdateStage::Entry { listing, next, blob, name }, Reply::Bytes(b)) => {
                let mut content: Vec<u8> = Vec::new();
                match Object::cat_object_from_file(&b, &mut content) {
                    Err(e) => Request::Finish(Err(e)),
                    Ok(()) => {
                        if blob {
                            let path = name.clone();
                            self.stage = UpdateStage::Write { listing, next, name };
                            Request::WriteFile(path, content)
                        } else {
                            self.next_entry(listing, next)
                        }
                    },
                }
            },
            (UpdateStage::Write { listing, next, name }, Reply::Done) => {
                let ghost before = self.out@;
                append_bytes(&mut self.out, "+ ".as_bytes());
                append_bytes(&mut self.out, name.as_str().as_bytes());
                self.out.push(10u8);
                assert(self.out@ =~= before + encode_utf8("+ "@) + encode_utf8(name@) + seq![10u8]);
                self.next_entry(listing, next)
            },
            (UpdateStage::Head, Reply::Failed(e)) => Request::Finish(Err(GitError::IOError(e))),
            (UpdateStage::Commit, Reply::Failed(e)) => Request::Finish(Err(GitError::IOError(e))),
            (UpdateStage::Tree, Reply::Failed(e)) => Request::Finish(Err(GitError::IOError(e))),
            (UpdateStage::Entry { .. }, Reply::Failed(e)) => Request::Finish(
                Err(GitError::IOError(e)),
            ),
            (UpdateStage::Write { .. }, Reply::Failed(e)) => Request::Finish(
                Err(GitError::IOError(e)),
            ),
            _ => Request::Abort("unexpected reply".to_string()),
        }
    }

    /// Reads the commit object and asks for its tree.
    fn commit_read(&mut self, stored: &[u8]) -> (r: Request)
        ensures
            final(self).out == old(self).out,
            r is Finish || r is Abort ==> final(self).stage == old(self).stage,
            match stored_cat_spec(stored@) {
                None => r matches Request::Finish(Err(e)) && e is IOError,
                Some(Err(k)) => r matches Request::Finish(Err(e)) && header_error_is(e, k),
                Some(Ok(c)) => commit_step(utf8_lossy(c), final(self).stage, r),
            },
    {
        let mut content: Vec<u8> = Vec::new();
        if let Err(e) = Object::cat_object_from_file(stored, &mut content) {
            return Request::Finish(Err(e));
        }
        let text = Listing::new(string_from_utf8_lossy(&content));
        if text.len() == 0 {
            return Request::Abort("called `Option::unwrap()` on a `None` value".to_string());
        }
        let (e, _) = text.line_at(0);
        let sp = text.space_in(0, e);
        if sp >= e {
            return Request::Abort("invalid commit content".to_string());
        }
        let hash = text.substring(sp + 1, e);
        let r = Git::object_file_request(hash.as_str());
        if let Request::ReadObjectFile(_) = &r {
            self.stage = UpdateStage::Tree;
        }
        r
    }

    /// Goes on with the listing line that starts at `p`.
    fn next_entry(&mut self, listing: Listing, p: usize) -> (r: Request)
        ensures
            final(self).out == old(self).out,
            r is Finish || r is Abort ==> final(self).stage == old(self).stage,
            entry_step(listing@, p as int, final(self).stage, r),
    {
        if p >= listing.len() {
            return Request::Finish(Ok(()));
        }
        let (e, next) = listing.line_at(p);
        let ws = listing.words(p, e);
        if ws.len() < 4 {
            let n = decimal_string(ws.len() as u64);
            let mut m = "index out of bounds: the len is ".to_string();
            m.append(n.as_str());
            m.append(" but the index is ");
            m.append(n.as_str());
            return Request::Abort(m);
        }
        let (ha, hb) = ws[2];
        let hash = listing.substring(ha, hb);
        let r = Git::object_file_request(hash.as_str());
        if let Request::ReadObjectFile(_) = &r {
            let (ta, tb) = ws[1];
            let blob = listing.is_blob_at(ta, tb);
            let (na, nb) = ws[3];
            let name = listing.substring(na, nb);
            self.stage = UpdateStage::Entry { listing, next, blob, name };
        }
        r
    }
}

impl Listing {
    /// The line that starts at `p`: where it ends and where the next starts.
    pub fn line_at(&self, p: usize) -> (r: (usize, usize))
        requires
            p <= self@.len(),
        ensures
            (r.0 as int, r.1 as int) == line_span(self@, p as int),
            p <= r.0 <= r.1 <= self@.len(),
    {
        line_at(&self.chars, p)
    }

    /// Where the first space from `i` up to `end` stands, or `end`.
    pub fn space_in(&self, i: usize, end: usize) -> (r: usize)
        requires
            i <= end <= self@.len(),
        ensures
            r == space_from(self@, i as int, end as int),
            i <= r <= end,
    {
        first_space(&self.chars, i, end)
    }

    /// The spans of the words from `i` up to `end`.
    pub fn words(&self, i: usize, end: usize) -> (w: Vec<(usize, usize)>)
        requires
            i <= end <= self@.len(),
        ensures
            crate::text::span_views(w@) == word_spans(self@, i as int, end as int, None),
            forall|k: int| 0 <= k < w@.len() ==> i <= #[trigger] w@[k].0 <= w@[k].1 <= end,
    {
        words_in(&self.chars, i, end)
    }
}

/// Where a clone stands.
pub enum CloneStage {
    Start { client: GitClient },
    /// Waiting for the repository layout to be created.
    Layout { client: GitClient },
    /// Waiting for the ref advertisement.
    Discovery { discovery: UploadPackDiscovery },
    /// Waiting for the upload-pack response.
    Upload { compute: UploadPackCompute },
    /// Waiting for the pack's objects to be stored; then the pack ends so.
    Store { end: PackEnd },
    /// Bringing the working files up to date.
    Updating { update: Update },
    Finished,
}

/// Clones a repository into the working directory: sets up the layout,
/// fetches the pack of the advertised refs, stores its objects, and then
/// updates the working files.
pub struct CloneRepo {
    /// What the clone writes.
    pub out: Vec<u8>,
    pub stage: CloneStage,
}

/// What one step of a clone does with what came of its last request; once
/// it finishes or stops outside the update, it is over.
pub open spec fn clone_step(old: CloneRepo, reply: Reply, new: CloneRepo, r: Request) -> bool {
    &&& (r is Finish || r is Abort) && !(old.stage is Updating) ==> new.stage is Finished
    &&& clone_transition(old, reply, new, r)
}

/// What a step of a clone does, case by case.
pub open spec fn clone_transition(old: CloneRepo, reply: Reply, new: CloneRepo, r: Request) -> bool {
    match (old.stage, reply) {
        (CloneStage::Layout { client }, Reply::Done) => {
            &&& new.out == old.out
            &&& r matches Request::HttpGet(u) && u@ == client.url@
                + "/info/refs?service=git-upload-pack"@
            &&& new.stage matches CloneStage::Discovery { discovery } && discovery.client == client
        },
        (CloneStage::Discovery { discovery }, Reply::Text(body)) => new.out == old.out && match advertised_refs(
            encode_utf8(body@),
        ) {
            Some(rs) => {
                &&& r matches Request::HttpPost(u, b) && u@ == discovery.client.url@
                    + "/git-upload-pack"@ && b@ == request_body_spec(rs)
                &&& new.stage matches CloneStage::Upload { compute } && ref_views(
                    compute.advertised@,
                ) == rs && compute.client == discovery.client
            },
            None => r matches Request::Abort(m) && m@ == "byte index 4 is out of range"@,
        },
        (CloneStage::Upload { compute }, Reply::Bytes(resp)) => {
            let v = pack_response_spec(resp@, compute.client.localdir@);
            &&& new.out == old.out
            &&& r matches Request::StoreFiles(fs) && stored_views(fs@) == v.0
            &&& new.stage matches CloneStage::Store { end } && pack_end_matches(end, v.1)
        },
        (CloneStage::Store { end }, Reply::Done) => match end {
            PackEnd::Head(_) => {
                &&& new.out@ == old.out@ + encode_utf8("clone done, updating repo\n"@)
                &&& new.stage matches CloneStage::Updating { update } && update.out@.len() == 0
                    && update.stage is Head
                &&& r matches Request::ReadText(p) && p@ == head_ref_path()
            },
            PackEnd::Aborted(a) => new.out == old.out && r == Request::Abort(a.message),
        },
        (CloneStage::Updating { update }, reply) => new.out == old.out && (new.stage matches CloneStage::Updating {
            update: u2,
        } && update_step(update, reply, u2, r)),
        (CloneStage::Layout { .. }, Reply::Failed(e)) => new.out == old.out && r
            == Request::Finish(Err(GitError::IOError(e))),
        (CloneStage::Store { .. }, Reply::Failed(e)) => new.out == old.out && r
            == Request::Finish(Err(GitError::IOError(e))),
        (CloneStage::Discovery { .. }, Reply::HttpFailed(m)) => new.out == old.out && r
            == Request::Finish(Err(GitError::HttpError(m))),
        (CloneStage::Upload { .. }, Reply::HttpFailed(m)) => new.out == old.out && r
            == Request::Finish(Err(GitError::HttpError(m))),
        _ => new.out == old.out && (r matches Request::Abort(m) && m@ == "unexpected reply"@),
    }
}

impl CloneRepo {
    /// A clone of the repository at `url` into the directory at `localdir`
    /// (its path, as bytes).
    pub fn new(url: String, localdir: Vec<u8>) -> (c: CloneRepo)
        ensures
            c.out@.len() == 0,
            c.stage matches CloneStage::Start { client } && client.url == url && client.localdir
                == localdir,
    {
        CloneRepo { out: Vec::new(), stage: CloneStage::Start { client: GitClient::repo(url, localdir) } }
    }

    /// Starts the clone: sets up the repository layout.
    pub fn run(&mut self) -> (r: Request)
        requires
            old(self).stage is Start,
        ensures
            final(self).out == old(self).out,
            r matches Request::CreateLayout(steps) && step_views(steps@) == repo_layout(),
            old(self).stage matches CloneStage::Start { client } && final(self).stage
                == (CloneStage::Layout { client }),
    {
        let mut stage = CloneStage::Finished;
        std::mem::swap(&mut self.stage, &mut stage);
        if let CloneStage::Start { client } = stage {
            self.stage = CloneStage::Layout { client };
        }
        Request::CreateLayout(Repo::init())
    }

    /// Takes what came of the last request and gives the next one.
    pub fn resume(&mut self, reply: Reply) -> (r: Request)
        ensures
            clone_step(*old(self), reply, *final(self), r),
    {
        let mut stage = CloneStage::Finished;
        std::mem::swap(&mut self.stage, &mut stage);
        match (stage, reply) {
            (CloneStage::Layout { client }, Reply::Done) => {
                let discovery = client.upload_pack();
                let u = discovery.discovery_url();
                self.stage = CloneStage::Discovery { discovery };
                Request::HttpGet(u)
            },
            (CloneStage::Discovery { discovery }, Reply::Text(body)) => {
                match discovery.exec(body.as_str()) {
                    Err(a) => Request::Abort(a.message),
                    Ok(compute) => {
                        let u = compute.upload_pack_url();
                        let b = compute.request_body();
                        self.stage = CloneStage::Upload { compute };
                        Request::HttpPost(u, b)
                    },
                }
            },
            (CloneStage::Upload { compute }, Reply::Bytes(resp)) => {
                let outcome = compute.exec(&resp);
                self.stage = CloneStage::Store { end: outcome.end };
                Request::StoreFiles(outcome.objects)
            },
            (CloneStage::Store { end }, Reply::Done) => match end {
                PackEnd::Head(_) => {
                    append_bytes(&mut self.out, "clone done, updating repo\n".as_bytes());
                    let mut update = Update::new();
                    let r = update.run();
                    self.stage = CloneStage::Updating { update };
                    r
                },
                PackEnd::Aborted(a) => Request::Abort(a.message),
            },
            (CloneStage::Updating { update }, reply) => {
                let mut update = update;
                let r = update.resume(reply);
                self.stage = CloneStage::Updating { update };
                r
            },
            (CloneStage::Layout { .. }, Reply::Failed(e)) => Request::Finish(
                Err(GitError::IOError(e)),
            ),
            (CloneStage::Store { .. }, Reply::Failed(e)) => Request::Finish(
                Err(GitError::IOError(e)),
            ),
            (CloneStage::Discovery { .. }, Reply::HttpFailed(m)) => Request::Finish(
                Err(GitError::HttpError(m)),
            ),
            (CloneStage::Upload { .. }, Reply::HttpFailed(m)) => Request::Finish(
                Err(GitError::HttpError(m)),
            ),
            _ => Request::Abort("unexpected reply".to_string()),
        }
    }
}

} // verus!
