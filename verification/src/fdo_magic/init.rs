//! Readers for the subclass and alias tables: plain text, one pair of
//! whitespace-separated MIME labels per line.

use vstd::prelude::*;

use super::ruleset::find_byte;
use crate::alias::{labels_of, AliasMap};
use crate::bytes::{bytes_to_label, label_bytes, label_clone};

verus! {

use vstd::utf8::valid_utf8;

/// Horizontal whitespace inside a line (space, tab, and the carriage return
/// that a CRLF line leaves behind).
pub open spec fn is_ws(b: u8) -> bool {
    b == 32 || b == 9 || b == 13
}

/// The first index in `[i, e)` holding a non-whitespace byte (or `e`).
pub open spec fn skip_ws(s: Seq<u8>, i: int, e: int) -> int
    decreases e - i,
    when 0 <= i <= e <= s.len()
{
    if i == e {
        i
    } else if is_ws(s[i]) {
        skip_ws(s, i + 1, e)
    } else {
        i
    }
}

/// The first index in `[i, e)` holding a whitespace byte (or `e`).
pub open spec fn token_end(s: Seq<u8>, i: int, e: int) -> int
    decreases e - i,
    when 0 <= i <= e <= s.len()
{
    if i == e {
        i
    } else if !is_ws(s[i]) {
        token_end(s, i + 1, e)
    } else {
        i
    }
}

pub proof fn lemma_skip_ws_bounds(s: Seq<u8>, i: int, e: int)
    requires
        0 <= i <= e <= s.len(),
    ensures
        i <= skip_ws(s, i, e) <= e,
        i <= token_end(s, i, e) <= e,
    decreases e - i,
{
    if i < e {
        lemma_skip_ws_bounds(s, i + 1, e);
    }
}

/// The first two whitespace-separated tokens of the line `[i, e)`; a missing
/// token is the empty label.
pub open spec fn spec_line_pair(s: Seq<u8>, i: int, e: int) -> (Seq<u8>, Seq<u8>) {
    let t0s = skip_ws(s, i, e);
    let t0e = token_end(s, t0s, e);
    let t1s = skip_ws(s, t0e, e);
    let t1e = token_end(s, t1s, e);
    (s.subrange(t0s, t0e), s.subrange(t1s, t1e))
}

/// All label pairs of the file: one per line, keeping only pairs whose two
/// tokens are valid UTF-8.
pub open spec fn spec_parse_pairs(s: Seq<u8>, i: int) -> Seq<(Seq<u8>, Seq<u8>)>
    decreases s.len() - i,
    when 0 <= i <= s.len()
{
    if i >= s.len() {
        Seq::empty()
    } else {
        let e = find_byte(s, i, 10);
        let nx = if e < s.len() {
            e + 1
        } else {
            e
        };
        let p = spec_line_pair(s, i, e);
        let rest = if i < nx <= s.len() {
            spec_parse_pairs(s, nx)
        } else {
            Seq::empty()
        };
        if valid_utf8(p.0) && valid_utf8(p.1) {
            seq![p] + rest
        } else {
            rest
        }
    }
}

/// Scan to the next non-whitespace byte in `[i, e)`.
fn scan_skip_ws(s: &[u8], i: usize, e: usize) -> (r: usize)
    requires
        i <= e <= s@.len(),
    ensures
        r == skip_ws(s@, i as int, e as int),
        i <= r <= e,
    decreases e - i,
{
    if i < e && (s[i] == 32 || s[i] == 9 || s[i] == 13) {
        scan_skip_ws(s, i + 1, e)
    } else {
        i
    }
}

/// Scan to the next whitespace byte in `[i, e)`.
fn scan_token_end(s: &[u8], i: usize, e: usize) -> (r: usize)
    requires
        i <= e <= s@.len(),
    ensures
        r == token_end(s@, i as int, e as int),
        i <= r <= e,
    decreases e - i,
{
    if i < e && !(s[i] == 32 || s[i] == 9 || s[i] == 13) {
        scan_token_end(s, i + 1, e)
    } else {
        i
    }
}

/// Read all label pairs from a subclass or alias table.
pub fn parse_pairs(s: &[u8]) -> (r: Vec<(String, String)>)
    ensures
        labels_of(r@) == spec_parse_pairs(s@, 0),
{
    let mut acc: Vec<(String, String)> = Vec::new();
    let mut pos: usize = 0;
    proof {
        assert(labels_of(acc@) =~= Seq::<(Seq<u8>, Seq<u8>)>::empty());
        assert(labels_of(acc@) + spec_parse_pairs(s@, 0) =~= spec_parse_pairs(s@, 0));
    }
    while pos < s.len()
        invariant
            0 <= pos <= s@.len(),
            spec_parse_pairs(s@, 0) == labels_of(acc@) + spec_parse_pairs(s@, pos as int),
        decreases s@.len() - pos,
    {
        proof {
            super::ruleset::lemma_find_byte_bounds(s@, pos as int, 10u8);
        }
        let e = super::ruleset::scan_to(s, pos, 10u8);
        let t0s = scan_skip_ws(s, pos, e);
        let t0e = scan_token_end(s, t0s, e);
        let t1s = scan_skip_ws(s, t0e, e);
        let t1e = scan_token_end(s, t1s, e);
        let first = bytes_to_label(vstd::slice::slice_to_vec(vstd::slice::slice_subrange(s, t0s, t0e)));
        let second = bytes_to_label(
            vstd::slice::slice_to_vec(vstd::slice::slice_subrange(s, t1s, t1e)),
        );
        let nx = if e < s.len() {
            e + 1
        } else {
            e
        };
        let ghost pre = acc@;
        let ghost p = spec_line_pair(s@, pos as int, e as int);
        match (first, second) {
            (Some(a), Some(b)) => {
                proof {
                    assert(label_bytes(a) == p.0 && label_bytes(b) == p.1);
                }
                acc.push((a, b));
                proof {
                    assert(labels_of(acc@) =~= labels_of(pre).push(p));
                    assert(spec_parse_pairs(s@, pos as int) == seq![p] + spec_parse_pairs(
                        s@,
                        nx as int,
                    ));
                    assert(labels_of(pre) + (seq![p] + spec_parse_pairs(s@, nx as int))
                        =~= labels_of(pre).push(p) + spec_parse_pairs(s@, nx as int));
                }
            },
            _ => {
                proof {
                    assert(!(valid_utf8(p.0) && valid_utf8(p.1)));
                    assert(spec_parse_pairs(s@, pos as int) == spec_parse_pairs(s@, nx as int));
                }
            },
        }
        pos = nx;
    }
    proof {
        assert(spec_parse_pairs(s@, pos as int) =~= Seq::<(Seq<u8>, Seq<u8>)>::empty());
        assert(labels_of(acc@) + spec_parse_pairs(s@, pos as int) =~= labels_of(acc@));
    }
    acc
}

/// Read all subclass pairs, as (child, parent).
pub fn read_subclasses(s: &[u8]) -> (r: Vec<(String, String)>)
    ensures
        labels_of(r@) == spec_parse_pairs(s@, 0),
{
    parse_pairs(s)
}

/// Read the alias table into a well-formed alias map.
pub fn get_aliaslist(s: &[u8]) -> (m: AliasMap)
    ensures
        m.wf(),
        forall|x: Seq<u8>, y: Seq<u8>|
            #[trigger] crate::alias::maps_to(m.entries@, x, y) <==> (crate::alias::raw_maps(
                spec_parse_pairs(s@, 0),
                x,
                y,
            ) && !crate::alias::raw_key(spec_parse_pairs(s@, 0), y)),
{
    let pairs = parse_pairs(s);
    AliasMap::from_pairs(&pairs)
}

/// The subclass pairs the magic provider contributes: the subclass table's
/// (child, parent) pairs with both endpoints canonicalised.
pub fn get_subclasses(s: &[u8], aliases: &AliasMap) -> (r: Vec<(String, String)>)
    requires
        aliases.wf(),
    ensures
        r@.len() == spec_parse_pairs(s@, 0).len(),
        forall|k: int|
            0 <= k < r@.len() ==> label_bytes((#[trigger] r@[k]).0) == aliases.spec_canon(
                (#[trigger] spec_parse_pairs(s@, 0)[k]).0,
            ) && label_bytes(r@[k].1) == aliases.spec_canon(spec_parse_pairs(s@, 0)[k].1),
{
    let raw = read_subclasses(s);
    let r = canonicalise_pairs(&raw, aliases);
    proof {
        assert forall|k: int|
            0 <= k < r@.len() implies label_bytes((#[trigger] r@[k]).0) == aliases.spec_canon(
            (#[trigger] spec_parse_pairs(s@, 0)[k]).0,
        ) && label_bytes(r@[k].1) == aliases.spec_canon(spec_parse_pairs(s@, 0)[k].1) by {
            assert(spec_parse_pairs(s@, 0)[k] == labels_of(raw@)[k]);
            assert(labels_of(raw@)[k].0 == label_bytes(raw@[k].0) && labels_of(raw@)[k].1
                == label_bytes(raw@[k].1));
        }
    }
    r
}

/// The MIME labels the magic provider supports: the rule database's keys.
pub fn get_supported(db: &Vec<(String, crate::fdo_magic::RuleTree)>) -> (r: Vec<String>)
    ensures
        r@.len() == db@.len(),
        forall|i: int|
            0 <= i < r@.len() ==> label_bytes(#[trigger] r@[i]) == label_bytes(db@[i].0),
{
    let n = db.len();
    let mut out: Vec<String> = Vec::new();
    let mut i: usize = 0;
    while i < n
        invariant
            n == db@.len(),
            0 <= i <= n,
            out@.len() == i,
            forall|q: int|
                0 <= q < i ==> label_bytes(#[trigger] out@[q]) == label_bytes(db@[q].0),
        decreases n - i,
    {
        out.push(label_clone(&db[i].0));
        i += 1;
    }
    out
}

/// Canonicalise both endpoints of every pair through the alias map.
pub fn canonicalise_pairs(pairs: &Vec<(String, String)>, aliases: &AliasMap) -> (r: Vec<
    (String, String),
>)
    requires
        aliases.wf(),
    ensures
        r@.len() == pairs@.len(),
        forall|k: int|
            0 <= k < r@.len() ==> label_bytes((#[trigger] r@[k]).0) == aliases.spec_canon(
                label_bytes(pairs@[k].0),
            ) && label_bytes(r@[k].1) == aliases.spec_canon(label_bytes(pairs@[k].1)),
{
    let n = pairs.len();
    let mut out: Vec<(String, String)> = Vec::new();
    let mut k: usize = 0;
    while k < n
        invariant
            aliases.wf(),
            n == pairs@.len(),
            0 <= k <= n,
            out@.len() == k,
            forall|k2: int|
                0 <= k2 < k ==> label_bytes((#[trigger] out@[k2]).0) == aliases.spec_canon(
                    label_bytes(pairs@[k2].0),
                ) && label_bytes(out@[k2].1) == aliases.spec_canon(label_bytes(pairs@[k2].1)),
        decreases n - k,
    {
        let c = label_clone(aliases.get_alias(&pairs[k].0));
        let p = label_clone(aliases.get_alias(&pairs[k].1));
        out.push((c, p));
        k += 1;
    }
    out
}

} // verus!
