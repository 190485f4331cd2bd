//! The command dispatcher. Each command is a short exchange: the library
//! says what to read or store next, the caller does it and hands back what
//! came of it, and the library writes the command's output.

use vstd::prelude::*;
use vstd::string::StringSliceAdditionalSpecFns;
use vstd::utf8::{encode_utf8, is_ascii_chars, is_char_boundary};
use crate::{Abort, Failure, GitError, GitResult};
use crate::bytes::append_bytes;
use crate::external::{
    hex_lower, sha1_checked_digest, zlib_fast_compressed, zlib_inflated,
};
use crate::object::{
    header_bytes, header_error_is, hex_ascii, is_object_error, loose_object_path, objects_dir,
    stored_cat_spec, stored_content_spec, stored_header_spec, type_text, LooseFile, Object,
    ObjectType,
};
use crate::repo::{repo_layout, step_views, LayoutStep, Repo};
use crate::snapshot::{
    dir_order, is_listed, name_bytes, nul_free, root_object, tree_spec, write_matches,
    written_entries,
    DirSnapshot, TreeWrite,
};
use crate::tree::{
    entry_views, hex_bytes, listing_from, read_tree_spec, tree_failure_is, LooseLookup, Tree,
    TreeEntry,
};

verus! {

broadcast use vstd::string::group_string_axioms;

/// The commands.
#[allow(inconsistent_fields)]
pub enum GitCommand {
    Init,
    CatFile { pretty_print: bool, hash: String },
    HashObject { path: std::path::PathBuf, write_object: bool },
    LsTree { hash: String, name_only: bool },
    WriteTree { path: Option<std::path::PathBuf> },
}

/// What the library asks its caller to do next.
pub enum Request {
    /// Carry out these steps in order, stopping at the first that fails.
    CreateLayout(Vec<LayoutStep>),
    /// Read the whole file at this path.
    ReadObjectFile(Vec<u8>),
    /// Read the whole file at this path.
    ReadFile(std::path::PathBuf),
    /// Read the whole file at this path as UTF-8 text.
    ReadText(Vec<u8>),
    /// Write these bytes to the file at this path, replacing it.
    WriteFile(String, Vec<u8>),
    /// Fetch this URL over HTTP and give back the body as text.
    HttpGet(String),
    /// Post this body to this URL over HTTP, as an upload-pack request, and
    /// give back the response body.
    HttpPost(String, Vec<u8>),
    /// Read the files at these paths, where they exist.
    LookupLooseFiles(Vec<Vec<u8>>),
    /// Take a snapshot of this directory, or of the working directory.
    SnapshotDirectory(Option<std::path::PathBuf>),
    /// Store these files, creating their directories.
    StoreFiles(Vec<LooseFile>),
    /// Stop the program with this message.
    Abort(String),
    /// The command is over, with this result.
    Finish(GitResult<()>),
}

/// What came of a request.
pub enum Reply {
    Done,
    Bytes(Vec<u8>),
    Text(String),
    Lookups(Vec<LooseLookup>),
    Snapshot(DirSnapshot),
    Failed(std::io::Error),
    /// The HTTP exchange failed, with this description.
    HttpFailed(String),
}

/// Where a command's exchange stands.
pub enum Stage {
    Start,
    Init,
    CatFile,
    HashObject { write: bool },
    Store { line: Vec<u8> },
    LsTree { name_only: bool },
    LsTreeLookup { entries: Vec<TreeEntry>, pending: Option<Failure> },
    WriteTree,
    WriteTreeStore { result: Result<[u8; 20], Failure> },
    Finished,
}

/// A command with the output it has written so far.
pub struct Git {
    pub command: Option<GitCommand>,
    pub out: Vec<u8>,
    pub stage: Stage,
}

/// The request that reads the object a hash names, as `cat-file` and
/// `ls-tree` start: a stop where the path cannot be formed from the hash
/// text, the error for a short hash, or the read of its file.
pub open spec fn object_request(hash: Seq<char>, r: Request) -> bool {
    let b = encode_utf8(hash);
    if b.len() >= 40 && !is_char_boundary(b, 2) {
        r matches Request::Abort(m) && m@ == "byte index 2 is not a char boundary"@
    } else if b.len() < 40 {
        r matches Request::Finish(Err(e)) && is_object_error(
            e,
            "invalid object hash provided: "@ + hash,
        )
    } else {
        r matches Request::ReadObjectFile(p) && p@ == loose_object_path(b)
    }
}

/// What `ls-tree` does once its object file was read: the decompressed
/// object must be a tree; with `name_only` the listing is written at once,
/// otherwise the entries (with the failure that stopped reading them, if
/// any) wait in `waiting` while their uncompressed object files are looked
/// for.
pub open spec fn ls_tree_step(
    stored: Seq<u8>,
    name_only: bool,
    old_out: Seq<u8>,
    new_out: Seq<u8>,
    waiting: Option<(Seq<TreeEntry>, Option<Failure>)>,
    r: Request,
) -> bool {
    match stored_header_spec(stored) {
        None => new_out == old_out && (r matches Request::Finish(Err(e)) && e is IOError),
        Some(Err(k)) => new_out == old_out && (r matches Request::Finish(Err(e)) && header_error_is(
            e,
            k,
        )),
        Some(Ok((t, n, h))) => if t != ObjectType::Tree {
            new_out == old_out && (r matches Request::Finish(Err(e)) && is_object_error(
                e,
                "object not a tree: "@ + type_text(t),
            ))
        } else {
            match stored_content_spec(stored, h, n) {
                None => new_out == old_out && (r matches Request::Finish(Err(e)) && e is IOError),
                Some(c) => if c.len() > isize::MAX {
                    new_out == old_out && (r matches Request::Abort(m) && m@ == "capacity overflow"@)
                } else {
                    let t = read_tree_spec(c, 0, n);
                    if name_only {
                        &&& new_out == old_out + listing_from(t.0, seq![], true, 0).0
                        &&& match t.1 {
                            None => r matches Request::Finish(Ok(())),
                            Some(k) => tree_stop_is(r, k),
                        }
                    } else {
                        &&& new_out == old_out
                        &&& waiting matches Some((entries, pending)) && entry_views(entries) == t.0
                            && match t.1 {
                            None => pending is None,
                            Some(k) => pending matches Some(f) && tree_failure_is(f, k),
                        }
                        &&& r matches Request::LookupLooseFiles(ps) && ps@.len() == t.0.len()
                            && forall|m: int|
                            0 <= m < ps@.len() ==> #[trigger] ps@[m]@ == objects_dir() + hex_ascii(
                                t.0[m].hash,
                            )
                    }
                },
            }
        },
    }
}

/// The request that ends a command on a failure: the error finishes it, a
/// stop stops the program.
pub open spec fn ends_with(f: Failure, r: Request) -> bool {
    match f {
        Failure::Git(e) => r == Request::Finish(Err(e)),
        Failure::Aborted(a) => r == Request::Abort(a.message),
    }
}

/// `r` ends a command on the failure that reports a tree that does not
/// read.
pub open spec fn tree_stop_is(r: Request, k: crate::tree::TreeError) -> bool {
    match r {
        Request::Finish(Err(e)) => tree_failure_is(Failure::Git(e), k),
        Request::Abort(m) => tree_failure_is(Failure::Aborted(Abort { message: m }), k),
        _ => false,
    }
}

/// The request that ends a command on a failure.
pub fn failure_request(f: Failure) -> (r: Request)
    ensures
        ends_with(f, r),
{
    match f {
        Failure::Git(e) => Request::Finish(Err(e)),
        Failure::Aborted(a) => Request::Abort(a.message),
    }
}

/// The entries a stage holds while their object files are looked for.
pub open spec fn stage_wait(s: Stage) -> Option<(Seq<TreeEntry>, Option<Failure>)> {
    match s {
        Stage::LsTreeLookup { entries, pending } => Some((entries@, pending)),
        _ => None,
    }
}

/// The view of entries kept for lookups.
pub open spec fn wait_view(w: Option<(Vec<TreeEntry>, Option<Failure>)>) -> Option<
    (Seq<TreeEntry>, Option<Failure>),
> {
    match w {
        Some((es, p)) => Some((es@, p)),
        None => None,
    }
}

/// What `cat-file` does once its object file was read.
pub open spec fn cat_step(stored: Seq<u8>, old_out: Seq<u8>, new_out: Seq<u8>, r: Request) -> bool {
    match stored_cat_spec(stored) {
        None => new_out == old_out && (r matches Request::Finish(Err(e)) && e is IOError),
        Some(Ok(c)) => new_out == old_out + c && r matches Request::Finish(Ok(())),
        Some(Err(k)) => new_out == old_out && (r matches Request::Finish(Err(e)) && header_error_is(
            e,
            k,
        )),
    }
}

/// What `hash-object` does once the file was read: the hash line is written
/// at once, or, when the object is to be written, kept until its loose file
/// is stored.
pub open spec fn hash_step(
    content: Seq<u8>,
    write: bool,
    old_out: Seq<u8>,
    new_out: Seq<u8>,
    stage: Stage,
    r: Request,
) -> bool {
    let full = header_bytes(ObjectType::Blob, content.len()) + content;
    let line = hex_ascii(sha1_checked_digest(full)).push(10u8);
    if !write {
        new_out == old_out + line && r matches Request::Finish(Ok(()))
    } else {
        let data = zlib_fast_compressed(full);
        &&& new_out == old_out
        &&& zlib_inflated(data) == Some(full)
        &&& stage matches Stage::Store { line: l } && l@ == line
        &&& r matches Request::StoreFiles(fs) && fs@.len() == 1 && fs@[0].path@ == loose_object_path(
            hex_ascii(sha1_checked_digest(full)),
        ) && fs@[0].data@ == data
    }
}

/// How a command starts: its first request, and the stage that waits for
/// what comes of it.
pub open spec fn run_step(command: Option<GitCommand>, stage: Stage, r: Request) -> bool {
    match command {
        None => r matches Request::Abort(m) && m@ == "internal error: entered unreachable code"@,
        Some(GitCommand::Init) => r matches Request::CreateLayout(steps) && step_views(steps@)
            == repo_layout() && stage is Init,
        Some(GitCommand::CatFile { hash, .. }) => object_request(hash@, r) && (r is ReadObjectFile
            ==> stage is CatFile),
        Some(GitCommand::HashObject { path, write_object }) => r == Request::ReadFile(path) && stage
            == (Stage::HashObject { write: write_object }),
        Some(GitCommand::LsTree { hash, name_only }) => object_request(hash@, r) && (r
            is ReadObjectFile ==> stage == (Stage::LsTree { name_only })),
        Some(GitCommand::WriteTree { path }) => r == Request::SnapshotDirectory(path) && stage
            is WriteTree,
    }
}

impl Default for Git {
    /// No command yet, and no output.
    fn default() -> (g: Git)
        ensures
            g.command is None,
            g.out@.len() == 0,
            g.stage is Start,
    {
        Git { command: None, out: Vec::new(), stage: Stage::Start }
    }
}

impl Git {
    /// The command the program was started with (its arguments, as the
    /// caller parsed them), with no output yet.
    pub fn from_env(command: GitCommand) -> (r: GitResult<Git>)
        ensures
            r matches Ok(g) && g.command == Some(command) && g.out@.len() == 0 && g.stage is Start,
    {
        let mut git = Git::default();
        git.command = Some(command);
        Ok(git)
    }

    /// A command whose output goes to the given buffer.
    pub fn with_bytes_buffer(command: GitCommand, out: Vec<u8>) -> (g: Git)
        ensures
            g.command == Some(command),
            g.out == out,
            g.stage is Start,
    {
        Git { command: Some(command), out, stage: Stage::Start }
    }

    /// The output written so far.
    pub fn output(&self) -> (o: &Vec<u8>)
        ensures
            o == &self.out,
    {
        &self.out
    }

    /// Starts the command: gives the first request.
    pub fn run(&mut self) -> (r: Request)
        requires
            old(self).stage is Start,
        ensures
            final(self).out == old(self).out,
            final(self).command is None,
            r is Finish || r is Abort ==> final(self).stage is Start,
            run_step(old(self).command, final(self).stage, r),
    {
        let command = self.command.take();
        match command {
            None => Request::Abort("internal error: entered unreachable code".to_string()),
            Some(GitCommand::Init) => {
                self.stage = Stage::Init;
                Request::CreateLayout(Repo::init())
            },
            Some(GitCommand::CatFile { hash, .. }) => {
                let r = Self::object_file_request(hash.as_str());
                if let Request::ReadObjectFile(_) = &r {
                    self.stage = Stage::CatFile;
                }
                r
            },
            Some(GitCommand::HashObject { path, write_object }) => {
                self.stage = Stage::HashObject { write: write_object };
                Request::ReadFile(path)
            },
            Some(GitCommand::LsTree { hash, name_only }) => {
                let r = Self::object_file_request(hash.as_str());
                if let Request::ReadObjectFile(_) = &r {
                    self.stage = Stage::LsTree { name_only };
                }
                r
            },
            Some(GitCommand::WriteTree { path }) => {
                self.stage = Stage::WriteTree;
                Request::SnapshotDirectory(path)
            },
        }
    }

    /// Takes what came of the last request: writes the command's output and
    /// gives the next request.
    #[verifier::rlimit(60)]
    pub fn resume(&mut self, reply: Reply) -> (r: Request)
        ensures
            final(self).command == old(self).command,
            r is Finish || r is Abort ==> final(self).stage is Finished,
            match (old(self).stage, reply) {
                (Stage::Init, Reply::Done) => final(self).out@ == old(self).out@ + encode_utf8(
                    "Initialized git directory\n"@,
                ) && r matches Request::Finish(Ok(())),
                (Stage::CatFile, Reply::Bytes(b)) => cat_step(b@, old(self).out@, final(self).out@, r),
                (Stage::HashObject { write }, Reply::Bytes(c)) => hash_step(
                    c@,
                    write,
                    old(self).out@,
                    final(self).out@,
                    final(self).stage,
                    r,
                ),
                (Stage::Store { line }, Reply::Done) => final(self).out@ == old(self).out@ + line@
                    && r matches Request::Finish(Ok(())),
                (Stage::WriteTree, Reply::Snapshot(d)) => final(self).out == old(self).out && (
                final(self).stage matches Stage::WriteTreeStore { result } && r matches Request::StoreFiles(
                    fs,
                ) && write_matches(TreeWrite { objects: fs, result }, tree_spec(d))),
                (Stage::WriteTreeStore { result }, Reply::Done) => match result {
                    Ok(h) => final(self).out@ == old(self).out@ + hex_ascii(h@).push(10u8)
                        && r matches Request::Finish(Ok(())),
                    Err(Failure::Git(e)) => final(self).out == old(self).out && r
                        == Request::Finish(Err(e)),
                    Err(Failure::Aborted(a)) => final(self).out == old(self).out && r
                        == Request::Abort(a.message),
                },
                (Stage::LsTree { name_only }, Reply::Bytes(b)) => ls_tree_step(
                    b@,
                    name_only,
                    old(self).out@,
                    final(self).out@,
                    stage_wait(final(self).stage),
                    r,
                ),
                (Stage::LsTreeLookup { entries, pending }, Reply::Lookups(ls)) => if ls.len()
                    < entries.len() {
                    final(self).out == old(self).out && (r matches Request::Abort(m) && m@
                        == "lookup results missing"@)
                } else {
                    let l = crate::tree::listing_from(
                        crate::tree::entry_views(entries@),
                        ls@,
                        false,
                        0,
                    );
                    &&& final(self).out@ == old(self).out@ + l.0
                    &&& match l.1 {
                        Some(crate::tree::ListError::Io) => r matches Request::Finish(Err(e))
                            && e is IOError,
                        Some(crate::tree::ListError::Header(k)) => r matches Request::Finish(
                            Err(e),
                        ) && header_error_is(e, k),
                        None => match pending {
                            None => r matches Request::Finish(Ok(())),
                            Some(p) => ends_with(p, r),
                        },
                    }
                },
                (Stage::Init, Reply::Failed(e)) => final(self).out == old(self).out && r
                    == Request::Finish(Err(GitError::IOError(e))),
                (Stage::CatFile, Reply::Failed(e)) => final(self).out == old(self).out && r
                    == Request::Finish(Err(GitError::IOError(e))),
                (Stage::HashObject { .. }, Reply::Failed(e)) => final(self).out == old(self).out
                    && r == Request::Finish(Err(GitError::IOError(e))),
                (Stage::Store { .. }, Reply::Failed(e)) => final(self).out == old(self).out && r
                    == Request::Finish(Err(GitError::IOError(e))),
                (Stage::LsTree { .. }, Reply::Failed(e)) => final(self).out == old(self).out && r
                    == Request::Finish(Err(GitError::IOError(e))),
                (Stage::WriteTree, Reply::Failed(e)) => final(self).out == old(self).out && r
                    == Request::Finish(Err(GitError::IOError(e))),
                (Stage::WriteTreeStore { .. }, Reply::Failed(e)) => final(self).out == old(
                    self,
                ).out && r == Request::Finish(Err(GitError::IOError(e))),
                _ => final(self).out == old(self).out && (r matches Request::Abort(m) && m@
                    == "unexpected reply"@),
            },
    {
        let mut stage = Stage::Finished;
        std::mem::swap(&mut self.stage, &mut stage);
        match (stage, reply) {
            (Stage::Init, Reply::Done) => {
                append_bytes(&mut self.out, "Initialized git directory\n".as_bytes());
                Request::Finish(Ok(()))
            },
            (Stage::CatFile, Reply::Bytes(b)) => {
                Request::Finish(Object::cat_object_from_file(&b, &mut self.out))
            },
            (Stage::HashObject { write }, Reply::Bytes(c)) => self.hash_read(&c, write),
            (Stage::Store { line }, Reply::Done) => {
                append_bytes(&mut self.out, &line);
                Request::Finish(Ok(()))
            },
            (Stage::WriteTree, Reply::Snapshot(d)) => {
                let w = Tree::write_tree(d);
                let TreeWrite { objects, result } = w;
                self.stage = Stage::WriteTreeStore { result };
                Request::StoreFiles(objects)
            },
            (Stage::WriteTreeStore { result }, Reply::Done) => {
                match result {
                    Ok(h) => {
                        let hx = hex_bytes(&h);
                        append_bytes(&mut self.out, &hx);
                        self.out.push(10u8);
                        Request::Finish(Ok(()))
                    },
                    Err(Failure::Git(e)) => Request::Finish(Err(e)),
                    Err(Failure::Aborted(a)) => Request::Abort(a.message),
                }
            },
            (Stage::LsTree { name_only }, Reply::Bytes(b)) => {
                self.ls_tree_read(&b, name_only)
            },
            (Stage::LsTreeLookup { entries, pending }, Reply::Lookups(ls)) => {
                if ls.len() < entries.len() {
                    return Request::Abort("lookup results missing".to_string());
                }
                match Tree::show_tree(&entries, pending, false, ls, &mut self.out) {
                    Ok(()) => Request::Finish(Ok(())),
                    Err(f) => failure_request(f),
                }
            },
            (Stage::Init, Reply::Failed(e)) => Request::Finish(Err(GitError::IOError(e))),
            (Stage::CatFile, Reply::Failed(e)) => Request::Finish(Err(GitError::IOError(e))),
            (Stage::HashObject { .. }, Reply::Failed(e)) => Request::Finish(Err(GitError::IOError(e))),
            (Stage::Store { .. }, Reply::Failed(e)) => Request::Finish(Err(GitError::IOError(e))),
            (Stage::LsTree { .. }, Reply::Failed(e)) => Request::Finish(Err(GitError::IOError(e))),
            (Stage::WriteTree, Reply::Failed(e)) => Request::Finish(Err(GitError::IOError(e))),
            (Stage::WriteTreeStore { .. }, Reply::Failed(e)) => Request::Finish(
                Err(GitError::IOError(e)),
            ),
            _ => Request::Abort("unexpected reply".to_string()),
        }
    }

    /// `hash-object` after the file was read.
    fn hash_read(&mut self, content: &[u8], write: bool) -> (r: Request)
        ensures
            final(self).command == old(self).command,
            r is Finish || r is Abort ==> final(self).stage == old(self).stage,
            hash_step(content@, write, old(self).out@, final(self).out@, final(self).stage, r),
    {
        match Object::hash_object_from_file(content, write) {
            Err(e) => Request::Finish(Err(e)),
            Ok((o, line)) => {
                if write {
                    match o.stored {
                        Some(f) => {
                            self.stage = Stage::Store { line };
                            let fs = vec![f];
                            assert(fs@.len() == 1);
                            Request::StoreFiles(fs)
                        },
                        None => Request::Abort("unexpected reply".to_string()),
                    }
                } else {
                    append_bytes(&mut self.out, &line);
                    Request::Finish(Ok(()))
                }
            },
        }
    }

    /// `ls-tree` after its object file was read.
    fn ls_tree_read(&mut self, stored: &[u8], name_only: bool) -> (r: Request)
        ensures
            final(self).command == old(self).command,
            r is Finish || r is Abort ==> final(self).stage == old(self).stage,
            ls_tree_step(
                stored@,
                name_only,
                old(self).out@,
                final(self).out@,
                stage_wait(final(self).stage),
                r,
            ),
    {
        let (r, waiting) = list_stored_tree(stored, name_only, &mut self.out);
        if let Some((entries, pending)) = waiting {
            self.stage = Stage::LsTreeLookup { entries, pending };
        }
        r
    }

    /// The request that reads the object a hash names.
    pub(crate) fn object_file_request(hash: &str) -> (r: Request)
        ensures
            object_request(hash@, r),
    {
        let n = hash.as_bytes().len();
        if n >= 40 && !hash.is_char_boundary(2) {
            return Request::Abort("byte index 2 is not a char boundary".to_string());
        }
        match Object::object_path(hash) {
            Ok(p) => Request::ReadObjectFile(p),
            Err(e) => Request::Finish(Err(e)),
        }
    }
}

/// Reads a stored tree object for a listing: gives the request that ends
/// the listing, or, unless `name_only`, the entries to keep and the request
/// that looks for their uncompressed object files.
pub(crate) fn list_stored_tree(stored: &[u8], name_only: bool, out: &mut Vec<u8>) -> (r: (
    Request,
    Option<(Vec<TreeEntry>, Option<Failure>)>,
))
    ensures
        ls_tree_step(stored@, name_only, old(out)@, final(out)@, wait_view(r.1), r.0),
        r.1 is Some ==> r.0 is LookupLooseFiles,
{
    let (t, size, h) = match Object::read_stored_header(stored) {
        Ok(x) => x,
        Err(e) => return (Request::Finish(Err(e)), None),
    };
    match t {
        ObjectType::Tree => {},
        _ => return (Request::Finish(Err(Object::not_a_tree(t))), None),
    }
    let content = match Object::read_stored_content(stored, h, size) {
        Ok(c) => c,
        Err(e) => return (Request::Finish(Err(e)), None),
    };
    if content.len() > isize::MAX as usize {
        return (Request::Abort("capacity overflow".to_string()), None);
    }
    proof {
        crate::object::lemma_body_of_within(content@, size as nat);
    }
    let obj = Object {
        reader: Some(content),
        hash: None,
        hash_raw: None,
        size: Some(size),
        object_type: Some(ObjectType::Tree),
        stored: None,
    };
    let (entries, pending) = Tree::read_tree(obj);
    if name_only {
        let none: Vec<LooseLookup> = Vec::new();
        proof {
            crate::tree::lemma_name_only_listing(entry_views(entries@), none@, 0);
            assert(none@ =~= Seq::<LooseLookup>::empty());
        }
        match Tree::show_tree(&entries, pending, true, none, out) {
            Ok(()) => (Request::Finish(Ok(())), None),
            Err(f) => (failure_request(f), None),
        }
    } else {
        let mut paths: Vec<Vec<u8>> = Vec::new();
        let mut i: usize = 0;
        while i < entries.len()
            invariant
                i <= entries.len(),
                paths@.len() == i,
                forall|m: int| 0 <= m < i ==> #[trigger] paths@[m]@ == objects_dir() + hex_ascii(
                    entries@[m].hash@,
                ),
            decreases entries.len() - i,
        {
            paths.push(entries[i].lookup_path());
            i = i + 1;
        }
        (Request::LookupLooseFiles(paths), Some((entries, pending)))
    }
}

/// What `hash-object -w` stores, `cat-file` gives back: the hash it prints,
/// passed to `cat-file` without the newline, asks for the very file it
/// stored, and reading that file prints the content that was hashed.
pub proof fn law_stored_blob_reads_back(
    content: Seq<u8>,
    out: Seq<u8>,
    out1: Seq<u8>,
    stage: Stage,
    r: Request,
    hash: Seq<char>,
    r2: Request,
    out2: Seq<u8>,
    out3: Seq<u8>,
    r3: Request,
)
    requires
        content.len() <= usize::MAX,
        hash_step(content, true, out, out1, stage, r),
        stage matches Stage::Store { line } && line@ == encode_utf8(hash).push(10u8),
        object_request(hash, r2),
        r matches Request::StoreFiles(fs) && cat_step(fs@[0].data@, out2, out3, r3),
    ensures
        r matches Request::StoreFiles(fs) && (r2 matches Request::ReadObjectFile(p) && p@
            == fs@[0].path@),
        out3 == out2 + content,
        r3 matches Request::Finish(Ok(())),
{
    let full = header_bytes(ObjectType::Blob, content.len()) + content;
    let digest = sha1_checked_digest(full);
    let b = encode_utf8(hash);
    crate::object::lemma_hex_lower(digest);
    assert(b =~= hex_ascii(digest)) by {
        if let Stage::Store { line } = stage {
            assert(b =~= line@.drop_last());
            assert(hex_ascii(digest).push(10u8).drop_last() =~= hex_ascii(digest));
        }
    }
    assert(b.len() == 40);
    vstd::utf8::encode_utf8_valid_utf8(hash);
    assert(is_char_boundary(b, 2)) by {
        vstd::utf8::is_char_boundary_iff_not_is_continuation_byte(b, 2);
        assert(b[2] == hex_lower(digest)[2] as u8);
        assert(is_ascii_chars(hex_lower(digest)));
        assert('\0' <= hex_lower(digest)[2] <= '\u{7f}');
    }
    crate::object::law_object_content_reads_back(ObjectType::Blob, content);
    if let Request::StoreFiles(fs) = r {
        crate::object::lemma_stored_intact(fs@[0].data@);
    }
}

/// `ls-tree --name-only` of a stored tree lists the names of the entries
/// the tree was written with, one per line, in order, and succeeds.
pub proof fn law_tree_names_read_back(
    es: Seq<crate::tree::EntryView>,
    stored: Seq<u8>,
    old_out: Seq<u8>,
    new_out: Seq<u8>,
    waiting: Option<(Seq<TreeEntry>, Option<Failure>)>,
    r: Request,
)
    requires
        forall|i: int| 0 <= i < es.len() ==> crate::tree::well_formed_entry(#[trigger] es[i]),
        zlib_inflated(stored) == Some(
            header_bytes(ObjectType::Tree, crate::tree::tree_content(es).len())
                + crate::tree::tree_content(es),
        ),
        header_bytes(ObjectType::Tree, crate::tree::tree_content(es).len()).len()
            + crate::tree::tree_content(es).len() <= isize::MAX,
        ls_tree_step(stored, true, old_out, new_out, waiting, r),
    ensures
        new_out == old_out + listing_from(es, Seq::empty(), true, 0).0,
        r matches Request::Finish(Ok(())),
{
    let c = crate::tree::tree_content(es);
    let n = c.len() as usize;
    crate::object::law_header_round_trip(ObjectType::Tree, n, c);
    crate::object::lemma_header_prefix(zlib_inflated(stored)->Some_0);
    let h = header_bytes(ObjectType::Tree, n as nat);
    assert((h + c).skip(h.len() as int) =~= c);
    assert(c.take(c.len() as int) =~= c);
    crate::tree::law_tree_content_reads_back(es);
    crate::tree::lemma_name_only_listing(es, Seq::empty(), 0);
}

/// `ls-tree --name-only` of the tree that `write-tree` stored for a
/// directory lists, one per line, the names of the entries that go into
/// the tree, in the order the write took them (`law_tree_entry_order`),
/// where those names hold no NUL byte.
pub proof fn law_written_tree_lists_names(
    d: DirSnapshot,
    written: TreeWrite,
    old_out: Seq<u8>,
    new_out: Seq<u8>,
    waiting: Option<(Seq<TreeEntry>, Option<Failure>)>,
    r: Request,
)
    requires
        write_matches(written, tree_spec(d)),
        written.result is Ok ==> zlib_inflated(written.objects@.last().data@) == Some(
            root_object(d),
        ),
        written.result is Ok,
        forall|j: int|
            0 <= j < d.entries@.len() && is_listed(#[trigger] d.entries@[j]) ==> nul_free(
                name_bytes(d.entries@[j]),
            ),
        ({
            let c = crate::tree::tree_content(written_entries(d, dir_order(d), 0));
            header_bytes(ObjectType::Tree, c.len()).len() + c.len() <= isize::MAX
        }),
        ls_tree_step(written.objects@.last().data@, true, old_out, new_out, waiting, r),
    ensures
        ({
            let o = dir_order(d);
            let w = written_entries(d, o, 0);
            &&& w.len() == o.len()
            &&& forall|m: int| 0 <= m < o.len() ==> (#[trigger] w[m]).path == d.entries@[o[m]].name@
            &&& new_out == old_out + listing_from(w, Seq::empty(), true, 0).0
            &&& r matches Request::Finish(Ok(()))
        }),
{
    let es = d.entries@;
    let o = dir_order(d);
    let w = written_entries(d, o, 0);
    crate::snapshot::lemma_sorted_order(es, es.len() as int);
    crate::snapshot::lemma_sorted_order_sorted(es, es.len() as int);
    let r0 = crate::snapshot::entries_spec(d, o, 0, Seq::empty());
    assert(tree_spec(d).1 is Ok);
    assert(r0.1 is Ok);
    crate::snapshot::lemma_written_content(d, o, 0, Seq::empty());
    let content = r0.1->Ok_0;
    assert(content =~= crate::tree::tree_content(w));
    assert forall|m: int| 0 <= m < w.len() implies crate::tree::well_formed_entry(#[trigger] w[m]) by {
        assert(is_listed(es[o[m]]));
        assert(nul_free(name_bytes(es[o[0 + m]])));
    }
    law_tree_names_read_back(w, written.objects@.last().data@, old_out, new_out, waiting, r);
}

/// `write-tree` starts the same way whether a directory is named or not:
/// the path goes into the request for the directory's snapshot and nowhere
/// else (no path asks for the working directory's), so what the command
/// does next depends on that snapshot alone.
pub proof fn law_write_tree_path_names_directory(
    p: Option<std::path::PathBuf>,
    q: Option<std::path::PathBuf>,
    s1: Stage,
    r1: Request,
    s2: Stage,
    r2: Request,
)
    requires
        run_step(Some(GitCommand::WriteTree { path: p }), s1, r1),
        run_step(Some(GitCommand::WriteTree { path: q }), s2, r2),
    ensures
        s1 == s2,
        r1 == Request::SnapshotDirectory(p),
        r2 == Request::SnapshotDirectory(q),
{
}

} // verus!
