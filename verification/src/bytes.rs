//! Byte-level helpers shared by the parser, the matchers and the type graph.
//!
//! MIME labels are modelled throughout the crate by their UTF-8 bytes: the
//! model of a `&str` or `String` label is its `spec_bytes()` sequence.

use vstd::prelude::*;

verus! {

use vstd::string::StringSliceAdditionalSpecFns;
use vstd::utf8::{decode_utf8, encode_utf8, valid_utf8};

/// The byte-level model of an owned MIME label. Kept opaque: labels are only
/// ever compared to each other, never taken apart.
#[verifier::opaque]
pub open spec fn label_bytes(m: String) -> Seq<u8> {
    encode_utf8(m@)
}

/// Relies on `String::from_utf8`: it returns `Ok` exactly on valid UTF-8, and
/// the returned string holds exactly the given bytes.
#[verifier::external_body]
fn vec_to_string(v: Vec<u8>) -> (r: Option<String>)
    ensures
        match r {
            Some(s) => valid_utf8(v@) && s@ == decode_utf8(v@),
            None => !valid_utf8(v@),
        },
{
    String::from_utf8(v).ok()
}

/// Turn label bytes into an owned label; `None` on invalid UTF-8.
pub fn bytes_to_label(v: Vec<u8>) -> (r: Option<String>)
    ensures
        match r {
            Some(s) => valid_utf8(v@) && label_bytes(s) == v@,
            None => !valid_utf8(v@),
        },
{
    let ghost bs = v@;
    let r = vec_to_string(v);
    proof {
        reveal(label_bytes);
        if r is Some {
            vstd::utf8::decode_utf8_encode_utf8(bs);
        }
    }
    r
}

/// Byte-level equality of two string slices.
pub fn str_eq(a: &str, b: &str) -> (r: bool)
    ensures
        r == (a.spec_bytes() == b.spec_bytes()),
{
    bytes_eq(a.as_bytes(), b.as_bytes())
}

/// Byte-level equality of an owned label and a string slice.
pub fn label_eq(a: &String, b: &str) -> (r: bool)
    ensures
        r == (label_bytes(*a) == b.spec_bytes()),
{
    proof {
        reveal(label_bytes);
    }
    str_eq(a.as_str(), b)
}

/// An owned copy of a label given as a string slice.
pub fn label_from(s: &str) -> (r: String)
    ensures
        label_bytes(r) == s.spec_bytes(),
{
    proof {
        reveal(label_bytes);
    }
    s.to_owned()
}

/// The label as a string slice, with the same byte model.
pub fn as_label_str(m: &String) -> (r: &str)
    ensures
        r.spec_bytes() == label_bytes(*m),
{
    proof {
        reveal(label_bytes);
    }
    m.as_str()
}

/// An owned copy of a label.
pub fn label_clone(m: &String) -> (r: String)
    ensures
        label_bytes(r) == label_bytes(*m),
{
    proof {
        reveal(label_bytes);
    }
    m.clone()
}

/// Byte-level equality of two owned labels.
pub fn labels_eq(a: &String, b: &String) -> (r: bool)
    ensures
        r == (label_bytes(*a) == label_bytes(*b)),
{
    proof {
        reveal(label_bytes);
    }
    str_eq(a.as_str(), b.as_str())
}

/// Does `a` start with the prefix `pre`?
pub fn bytes_starts_with(a: &[u8], pre: &[u8]) -> (r: bool)
    ensures
        r == (a@.len() >= pre@.len() && a@.subrange(0, pre@.len() as int) == pre@),
{
    if a.len() < pre.len() {
        return false;
    }
    let n = pre.len();
    let mut i: usize = 0;
    while i < n
        invariant
            n == pre@.len() <= a@.len(),
            0 <= i <= n,
            forall|j: int| 0 <= j < i ==> a@[j] == pre@[j],
        decreases n - i,
    {
        if a[i] != pre[i] {
            assert(a@.subrange(0, n as int)[i as int] != pre@[i as int]);
            return false;
        }
        i += 1;
    }
    assert(a@.subrange(0, n as int) =~= pre@);
    true
}

/// Does the label start with the given prefix?
pub fn label_starts_with(a: &String, pre: &str) -> (r: bool)
    ensures
        r == (label_bytes(*a).len() >= pre.spec_bytes().len() && label_bytes(*a).subrange(
            0,
            pre.spec_bytes().len() as int,
        ) == pre.spec_bytes()),
{
    proof {
        reveal(label_bytes);
    }
    bytes_starts_with(a.as_str().as_bytes(), pre.as_bytes())
}

/// True iff the buffer contains no zero byte (the `text/plain` heuristic).
pub open spec fn no_null_bytes(b: Seq<u8>) -> bool {
    forall|i: int| 0 <= i < b.len() ==> b[i] != 0
}

/// Byte-for-byte equality of two slices.
pub fn bytes_eq(a: &[u8], b: &[u8]) -> (r: bool)
    ensures
        r == (a@ == b@),
{
    if a.len() != b.len() {
        assert(a@.len() != b@.len());
        return false;
    }
    let n = a.len();
    let mut i: usize = 0;
    while i < n
        invariant
            n == a@.len() == b@.len(),
            0 <= i <= n,
            forall|j: int| 0 <= j < i ==> a@[j] == b@[j],
        decreases n - i,
    {
        if a[i] != b[i] {
            return false;
        }
        i += 1;
    }
    assert(a@ =~= b@);
    true
}

} // verus!
