//! Commit objects.

use vstd::prelude::*;
use vstd::string::StringSliceAdditionalSpecFns;
use vstd::utf8::encode_utf8;
use crate::GitResult;
use crate::bytes::append_bytes;
use crate::external::{sha1_checked_digest, zlib_fast_compressed, zlib_inflated};
use crate::object::{header_bytes, hex_ascii, loose_object_path, Object, ObjectType};
use crate::tree::hex_bytes;

verus! {

/// The content of a commit object.
pub open spec fn commit_content(tree: Seq<u8>, parent: Seq<u8>, author: Seq<u8>, message: Seq<u8>) -> Seq<
    u8,
> {
    encode_utf8("tree "@) + tree + encode_utf8("\nparent "@) + parent + encode_utf8("\nauthor "@)
        + author + encode_utf8("\ncommitter "@) + author + encode_utf8("\n\n"@) + message
}

/// A commit holds its whole message, byte for byte, after its headers: the
/// content for any message is the content for the empty message followed by
/// every byte of the message, so the content ends with the message.
pub proof fn law_commit_content_holds_message(
    tree: Seq<u8>,
    parent: Seq<u8>,
    author: Seq<u8>,
    message: Seq<u8>,
)
    ensures
        commit_content(tree, parent, author, message) == commit_content(
            tree,
            parent,
            author,
            Seq::<u8>::empty(),
        ) + message,
        ({
            let c = commit_content(tree, parent, author, message);
            c.len() >= message.len() && c.subrange(c.len() - message.len(), c.len() as int)
                == message
        }),
{
    let h = commit_content(tree, parent, author, Seq::<u8>::empty());
    let c = commit_content(tree, parent, author, message);
    assert(h + Seq::<u8>::empty() =~= h);
    assert(c =~= h + message);
    assert(c.subrange(c.len() - message.len(), c.len() as int) =~= message);
}

/// Commit objects.
pub struct Commit;

impl Commit {
    /// Creates the commit object for a tree, a parent, an author and a
    /// message, prepared for storage, and writes the line naming it to `out`.
    pub fn create_commit(
        out: &mut Vec<u8>,
        tree: &str,
        parent: &str,
        author: &str,
        message: &str,
    ) -> (r: GitResult<Object>)
        ensures
            ({
                let c = commit_content(
                    tree.spec_bytes(),
                    parent.spec_bytes(),
                    author.spec_bytes(),
                    message.spec_bytes(),
                );
                let full = header_bytes(ObjectType::Commit, c.len()) + c;
                &&& r is Ok
                &&& r matches Ok(o) ==> {
                    &&& final(out)@ == old(out)@ + hex_ascii(sha1_checked_digest(full)).push(10u8)
                    &&& o.object_type == Some(ObjectType::Commit)
                    &&& o.hash_raw matches Some(h) && h@ == sha1_checked_digest(full)
                    &&& o.stored matches Some(f) && f.path@ == loose_object_path(
                        hex_ascii(sha1_checked_digest(full)),
                    ) && f.data@ == zlib_fast_compressed(full) && zlib_inflated(f.data@) == Some(full)
                }
            }),
    {
        let mut buf: Vec<u8> = Vec::new();
        append_bytes(&mut buf, "tree ".as_bytes());
        append_bytes(&mut buf, tree.as_bytes());
        append_bytes(&mut buf, "\nparent ".as_bytes());
        append_bytes(&mut buf, parent.as_bytes());
        append_bytes(&mut buf, "\nauthor ".as_bytes());
        append_bytes(&mut buf, author.as_bytes());
        append_bytes(&mut buf, "\ncommitter ".as_bytes());
        append_bytes(&mut buf, author.as_bytes());
        append_bytes(&mut buf, "\n\n".as_bytes());
        append_bytes(&mut buf, message.as_bytes());
        let size = buf.len();
        let o = Object::create_from_buffer(&buf, ObjectType::Commit, size, true)?;
        match &o.hash_raw {
            Some(raw) => {
                let h = hex_bytes(raw);
                append_bytes(out, &h);
            },
            None => {},
        }
        out.push(10u8);
        Ok(o)
    }
}

} // verus!
