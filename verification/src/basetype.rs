//! The base-type provider: the five synthetic types `all/all`,
//! `all/allfiles`, `inode/directory`, `text/plain` and
//! `application/octet-stream`.

use vstd::prelude::*;

use crate::bytes::{label_bytes, label_from, no_null_bytes, str_eq};

verus! {

use vstd::string::StringSliceAdditionalSpecFns;

/// What a path refers to, as a plain value; the caller performs the `stat`.
#[derive(Clone, Copy, Debug, PartialEq, Eq, Structural)]
pub enum FileKind {
    /// The path cannot be inspected (missing, unreadable).
    Missing,
    /// A regular file.
    Regular,
    /// A directory.
    Directory,
    /// Anything else a path can refer to.
    Other,
}

/// The label is one of the five base types.
pub open spec fn is_base_type(l: Seq<u8>) -> bool {
    ||| l == "all/all".spec_bytes()
    ||| l == "all/allfiles".spec_bytes()
    ||| l == "inode/directory".spec_bytes()
    ||| l == "text/plain".spec_bytes()
    ||| l == "application/octet-stream".spec_bytes()
}

/// The byte-buffer verdict of the base-type provider: having bytes at all
/// proves `all/allfiles` and `application/octet-stream`; `text/plain` asks
/// for no zero byte; the path-only types never match a buffer.
pub open spec fn spec_check_bytes(l: Seq<u8>, b: Seq<u8>) -> bool {
    if l == "application/octet-stream".spec_bytes() || l == "all/allfiles".spec_bytes() {
        true
    } else if l == "text/plain".spec_bytes() {
        no_null_bytes(b)
    } else {
        false
    }
}

/// The path verdict of the base-type provider, over the path's kind and the
/// file's first bytes (up to 512 suffice): `all/all` holds of anything that
/// can be inspected, `text/plain` of a regular file with no zero byte among
/// its first bytes.
pub open spec fn spec_check_path(l: Seq<u8>, kind: FileKind, prefix: Seq<u8>) -> bool {
    if kind == FileKind::Missing {
        false
    } else if l == "all/all".spec_bytes() {
        true
    } else if l == "all/allfiles".spec_bytes() || l == "application/octet-stream".spec_bytes() {
        kind == FileKind::Regular
    } else if l == "inode/directory".spec_bytes() {
        kind == FileKind::Directory
    } else if l == "text/plain".spec_bytes() {
        kind == FileKind::Regular && no_null_bytes(prefix)
    } else {
        false
    }
}

/// If there are any null bytes, return false. Otherwise return true.
pub fn is_text_plain_from_u8(b: &[u8]) -> (r: bool)
    ensures
        r == no_null_bytes(b@),
{
    let n = b.len();
    let mut i: usize = 0;
    while i < n
        invariant
            n == b@.len(),
            0 <= i <= n,
            forall|j: int| 0 <= j < i ==> b@[j] != 0,
        decreases n - i,
    {
        if b[i] == 0 {
            return false;
        }
        i += 1;
    }
    true
}

/// The null-byte test over a path, given its kind and first bytes: only a
/// regular file can be read, and an unreadable path counts as no match.
pub fn is_text_plain_from_filepath(kind: FileKind, prefix: &[u8]) -> (r: bool)
    ensures
        r == (kind == FileKind::Regular && no_null_bytes(prefix@)),
{
    match kind {
        FileKind::Regular => is_text_plain_from_u8(prefix),
        _ => false,
    }
}

/// Does the base-type provider declare this MIME?
pub fn can_check(mime: &str) -> (r: bool)
    ensures
        r == is_base_type(mime.spec_bytes()),
{
    str_eq(mime, "all/all") || str_eq(mime, "all/allfiles") || str_eq(mime, "inode/directory")
        || str_eq(mime, "text/plain") || str_eq(mime, "application/octet-stream")
}

/// The base-type verdict for a byte buffer.
pub fn from_u8(b: &[u8], mimetype: &str) -> (r: bool)
    ensures
        r == spec_check_bytes(mimetype.spec_bytes(), b@),
{
    if str_eq(mimetype, "application/octet-stream") || str_eq(mimetype, "all/allfiles") {
        true
    } else if str_eq(mimetype, "text/plain") {
        is_text_plain_from_u8(b)
    } else {
        false
    }
}

/// The base-type verdict for a path, given its kind and first bytes.
pub fn from_filepath(kind: FileKind, prefix: &[u8], mimetype: &str) -> (r: bool)
    ensures
        r == spec_check_path(mimetype.spec_bytes(), kind, prefix@),
{
    match kind {
        FileKind::Missing => false,
        _ => {
            if str_eq(mimetype, "all/all") {
                true
            } else if str_eq(mimetype, "all/allfiles") || str_eq(
                mimetype,
                "application/octet-stream",
            ) {
                matches!(kind, FileKind::Regular)
            } else if str_eq(mimetype, "inode/directory") {
                matches!(kind, FileKind::Directory)
            } else if str_eq(mimetype, "text/plain") {
                is_text_plain_from_filepath(kind, prefix)
            } else {
                false
            }
        },
    }
}

/// The base types, as owned labels.
pub fn get_supported() -> (r: Vec<String>)
    ensures
        r@.len() == 5,
        label_bytes(r@[0]) == "all/all".spec_bytes(),
        label_bytes(r@[1]) == "all/allfiles".spec_bytes(),
        label_bytes(r@[2]) == "inode/directory".spec_bytes(),
        label_bytes(r@[3]) == "text/plain".spec_bytes(),
        label_bytes(r@[4]) == "application/octet-stream".spec_bytes(),
        forall|i: int| 0 <= i < r@.len() ==> is_base_type(label_bytes(#[trigger] r@[i])),
{
    let mut out: Vec<String> = Vec::new();
    out.push(label_from("all/all"));
    out.push(label_from("all/allfiles"));
    out.push(label_from("inode/directory"));
    out.push(label_from("text/plain"));
    out.push(label_from("application/octet-stream"));
    out
}

/// The subclass pairs the base types contribute, as (child, parent):
/// `all/all` is the parent of `all/allfiles` and `inode/directory`,
/// `all/allfiles` of `application/octet-stream`, and that of `text/plain`.
pub fn get_subclasses() -> (r: Vec<(String, String)>)
    ensures
        r@.len() == 4,
        label_bytes(r@[0].0) == "all/allfiles".spec_bytes() && label_bytes(r@[0].1)
            == "all/all".spec_bytes(),
        label_bytes(r@[1].0) == "inode/directory".spec_bytes() && label_bytes(r@[1].1)
            == "all/all".spec_bytes(),
        label_bytes(r@[2].0) == "application/octet-stream".spec_bytes() && label_bytes(r@[2].1)
            == "all/allfiles".spec_bytes(),
        label_bytes(r@[3].0) == "text/plain".spec_bytes() && label_bytes(r@[3].1)
            == "application/octet-stream".spec_bytes(),
{
    let mut out: Vec<(String, String)> = Vec::new();
    out.push((label_from("all/allfiles"), label_from("all/all")));
    out.push((label_from("inode/directory"), label_from("all/all")));
    out.push((label_from("application/octet-stream"), label_from("all/allfiles")));
    out.push((label_from("text/plain"), label_from("application/octet-stream")));
    out
}

/// The base types declare no aliases.
pub fn get_aliaslist() -> (r: Vec<(String, String)>)
    ensures
        r@.len() == 0,
{
    Vec::new()
}

} // verus!
