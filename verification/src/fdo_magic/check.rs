//! Evaluation of magic rules and rule trees against a byte buffer.

use vstd::prelude::*;

use super::{mask_byte, rule_matches, window_matches, MagicRule, RuleTree};
use crate::basetype::FileKind;
use crate::bytes::{label_bytes, label_eq};

verus! {

use vstd::string::StringSliceAdditionalSpecFns;

/// A well-formed rule database: well-formed trees under pairwise distinct
/// labels.
pub open spec fn db_wf(db: Seq<(String, RuleTree)>) -> bool {
    &&& forall|i: int| 0 <= i < db.len() ==> (#[trigger] db[i]).1.wf()
    &&& forall|i: int, j: int|
        0 <= i < j < db.len() ==> label_bytes(db[i].0) != label_bytes(db[j].0)
}

/// The rule tree filed under label `l`.
pub open spec fn db_tree_of(db: Seq<(String, RuleTree)>, l: Seq<u8>) -> RuleTree {
    let i = choose|i: int| 0 <= i < db.len() && label_bytes((#[trigger] db[i]).0) == l;
    db[i].1
}

/// The magic check for a byte buffer: a rule tree is filed under the label
/// and it matches the buffer.
pub open spec fn spec_magic_check(db: Seq<(String, RuleTree)>, l: Seq<u8>, b: Seq<u8>) -> bool {
    &&& crate::fdo_magic::ruleset::db_covers_label(db, l)
    &&& db_tree_of(db, l).tree_matches(b)
}

/// With distinct labels, every entry filed under `l` carries the same tree.
pub proof fn lemma_db_lookup(db: Seq<(String, RuleTree)>, l: Seq<u8>)
    requires
        db_wf(db),
        crate::fdo_magic::ruleset::db_covers_label(db, l),
    ensures
        forall|i: int|
            0 <= i < db.len() && label_bytes((#[trigger] db[i]).0) == l ==> db[i].1 == db_tree_of(
                db,
                l,
            ),
{
    let w = choose|w: int| 0 <= w < db.len() && label_bytes((#[trigger] db[w]).0) == l;
    assert forall|i: int|
        0 <= i < db.len() && label_bytes((#[trigger] db[i]).0) == l implies db[i].1 == db_tree_of(
        db,
        l,
    ) by {
        if i < w {
            assert(label_bytes(db[i].0) != label_bytes(db[w].0));
        }
        if w < i {
            assert(label_bytes(db[w].0) != label_bytes(db[i].0));
        }
    }
}

/// Does the window of `rule.val_len` bytes at offset `p` match the pattern
/// under the mask?
fn window_check(file: &[u8], p: usize, rule: &MagicRule) -> (r: bool)
    requires
        rule@.wf(),
        p + rule.val_len <= file@.len(),
        file@.len() <= usize::MAX,
    ensures
        r == window_matches(file@, p as int, rule@),
{
    let vl = rule.val_len as usize;
    let mut i: usize = 0;
    while i < vl
        invariant
            rule@.wf(),
            vl == rule.val_len as int,
            p + vl <= file@.len(),
            file@.len() <= usize::MAX,
            0 <= i <= vl,
            forall|k: int|
                0 <= k < i ==> (file@[p + k] & mask_byte(rule@.mask, k)) == (rule@.val[k]
                    & mask_byte(rule@.mask, k)),
        decreases vl - i,
    {
        let m: u8 = match &rule.mask {
            Some(mask) => mask[i],
            None => 0xffu8,
        };
        if (file[p + i] & m) != (rule.val[i] & m) {
            return false;
        }
        i += 1;
    }
    true
}

/// Test a single rule against a buffer: slide a window of `val_len` bytes
/// through the rule's search region and report whether any offset matches.
pub fn from_u8_singlerule(file: &[u8], rule: &MagicRule) -> (r: bool)
    requires
        rule@.wf(),
    ensures
        r == rule_matches(file@, rule@),
{
    let flen = file.len();
    let ext: u64 = rule.start_off as u64 + rule.val_len as u64 + rule.region_len as u64;
    if (flen as u64) < ext {
        return false;
    }
    assert(rule@.extent() <= file@.len());
    let start = rule.start_off as usize;
    let region = rule.region_len as usize;
    let last = start + region;
    let mut p = start;
    while p < last
        invariant
            rule@.wf(),
            start == rule.start_off as int,
            last == start + rule.region_len as int,
            rule@.extent() <= file@.len(),
            file@.len() <= usize::MAX,
            start <= p <= last,
            forall|q: int| start <= q < p ==> !window_matches(file@, q, rule@),
        decreases last - p,
    {
        if window_check(file, p, rule) {
            return true;
        }
        p += 1;
    }
    if window_check(file, last, rule) {
        return true;
    }
    false
}

/// Walk the subtree of `graph` rooted at rule `node`: the node's own rule
/// must match, and unless the node is a leaf some child subtree must match.
pub fn from_u8_walker(file: &[u8], graph: &RuleTree, node: usize) -> (r: bool)
    requires
        graph.wf(),
        node < graph.rules@.len(),
    ensures
        r == graph.node_matches(node as int, file@),
    decreases graph.rules@.len() - node,
{
    if !from_u8_singlerule(file, &graph.rules[node]) {
        return false;
    }
    let n_kids = graph.children[node].len();
    if n_kids == 0 {
        return true;
    }
    let mut j: usize = 0;
    while j < n_kids
        invariant
            graph.wf(),
            node < graph.rules@.len(),
            n_kids == graph.children@[node as int]@.len(),
            0 <= j <= n_kids,
            rule_matches(file@, graph.rules@[node as int]@),
            forall|q: int|
                0 <= q < j ==> !graph.node_matches(
                    (#[trigger] graph.children@[node as int]@[q]) as int,
                    file@,
                ),
        decreases n_kids - j,
    {
        let child = graph.children[node][j];
        if from_u8_walker(file, graph, child) {
            return true;
        }
        j += 1;
    }
    false
}

/// Test a whole rule tree: the buffer matches when some root rule's subtree
/// matches.
pub fn tree_match(file: &[u8], graph: &RuleTree) -> (r: bool)
    requires
        graph.wf(),
    ensures
        r == graph.tree_matches(file@),
{
    let n = graph.roots.len();
    let mut k: usize = 0;
    while k < n
        invariant
            graph.wf(),
            n == graph.roots@.len(),
            0 <= k <= n,
            forall|q: int|
                0 <= q < k ==> !graph.node_matches((#[trigger] graph.roots@[q]) as int, file@),
        decreases n - k,
    {
        let root = graph.roots[k];
        if from_u8_walker(file, graph, root) {
            return true;
        }
        k += 1;
    }
    false
}

/// The number of bytes a bounded read must hand to [`tree_match`] so that no
/// rule of the tree is cut short, saturated at `u64::MAX`.
pub fn scan_len(graph: &RuleTree) -> (r: u64)
    requires
        graph.wf(),
    ensures
        r == graph.spec_scan_len(),
        graph.spec_scan_len() <= u64::MAX,
{
    let n = graph.rules.len();
    let mut best: u64 = 0;
    let mut i: usize = 0;
    while i < n
        invariant
            graph.wf(),
            n == graph.rules@.len(),
            0 <= i <= n,
            best == RuleTree::scan_len_up_to(graph.rules@, i as int),
        decreases n - i,
    {
        let rule = &graph.rules[i];
        let ext: u64 = rule.start_off as u64 + rule.val_len as u64 + rule.region_len as u64;
        if ext > best {
            best = ext;
        }
        i += 1;
    }
    best
}

/// The magic provider's byte verdict for one MIME: look its rule tree up
/// (false when the MIME has none) and test every root.
pub fn from_u8(file: &[u8], mimetype: &str, db: &Vec<(String, RuleTree)>) -> (r: bool)
    requires
        db_wf(db@),
    ensures
        r == spec_magic_check(db@, mimetype.spec_bytes(), file@),
{
    let n = db.len();
    let mut i: usize = 0;
    while i < n
        invariant
            db_wf(db@),
            n == db@.len(),
            0 <= i <= n,
            forall|q: int|
                0 <= q < i ==> label_bytes((#[trigger] db@[q]).0) != mimetype.spec_bytes(),
        decreases n - i,
    {
        if label_eq(&db[i].0, mimetype) {
            proof {
                assert(crate::fdo_magic::ruleset::db_covers_label(db@, mimetype.spec_bytes()));
                lemma_db_lookup(db@, mimetype.spec_bytes());
            }
            return tree_match(file, &db[i].1);
        }
        i += 1;
    }
    proof {
        if crate::fdo_magic::ruleset::db_covers_label(db@, mimetype.spec_bytes()) {
            let q = choose|q: int|
                0 <= q < db@.len() && label_bytes((#[trigger] db@[q]).0) == mimetype.spec_bytes();
            assert(false);
        }
    }
    false
}

/// The magic provider's path verdict, over the path's kind and the file's
/// first bytes (the tree's scan length suffices): only a regular file can be
/// read, and its prefix is tested as a buffer.
pub fn from_filepath(kind: FileKind, prefix: &[u8], mimetype: &str, db: &Vec<(String, RuleTree)>)
    -> (r: bool)
    requires
        db_wf(db@),
    ensures
        r == (kind == FileKind::Regular && spec_magic_check(db@, mimetype.spec_bytes(), prefix@)),
{
    match kind {
        FileKind::Regular => from_u8(prefix, mimetype, db),
        _ => false,
    }
}

/// Every rule's extent is bounded by the tree's scan length.
pub proof fn lemma_scan_len_bound(rules: Seq<MagicRule>, n: int, i: int)
    requires
        0 <= i < n <= rules.len(),
    ensures
        rules[i]@.extent() <= RuleTree::scan_len_up_to(rules, n),
        RuleTree::scan_len_up_to(rules, n) >= 0,
    decreases n,
{
    if i < n - 1 {
        lemma_scan_len_bound(rules, n - 1, i);
    } else {
        if n - 1 > 0 {
            lemma_scan_len_nonneg(rules, n - 1);
        }
    }
}

pub proof fn lemma_scan_len_nonneg(rules: Seq<MagicRule>, n: int)
    ensures
        RuleTree::scan_len_up_to(rules, n) >= 0,
    decreases n,
{
    if n > 0 {
        lemma_scan_len_nonneg(rules, n - 1);
    }
}

proof fn lemma_node_match_prefix(t: RuleTree, n: int, b1: Seq<u8>, b2: Seq<u8>)
    requires
        t.wf(),
        0 <= n < t.rules@.len(),
        b1 == b2.take(b1.len() as int),
        b1.len() <= b2.len(),
        t.spec_scan_len() <= b1.len(),
    ensures
        t.node_matches(n, b1) == t.node_matches(n, b2),
    decreases t.rules@.len() - n,
{
    lemma_scan_len_bound(t.rules@, t.rules@.len() as int, n);
    super::lemma_rule_match_prefix(b1, b2, t.rules@[n]@);
    assert forall|j: int| 0 <= j < t.children@[n]@.len() implies t.node_matches(
        (#[trigger] t.children@[n]@[j]) as int,
        b1,
    ) == t.node_matches(t.children@[n]@[j] as int, b2) by {
        lemma_node_match_prefix(t, t.children@[n]@[j] as int, b1, b2);
    }
}

/// A read bounded by the tree's scan length decides a match exactly as the
/// whole file would: no rule inspects bytes past that length.
pub proof fn lemma_tree_match_prefix(t: RuleTree, b1: Seq<u8>, b2: Seq<u8>)
    requires
        t.wf(),
        b1 == b2.take(b1.len() as int),
        b1.len() <= b2.len(),
        t.spec_scan_len() <= b1.len(),
    ensures
        t.tree_matches(b1) == t.tree_matches(b2),
{
    assert forall|k: int| 0 <= k < t.roots@.len() implies t.node_matches(
        (#[trigger] t.roots@[k]) as int,
        b1,
    ) == t.node_matches(t.roots@[k] as int, b2) by {
        lemma_node_match_prefix(t, t.roots@[k] as int, b1, b2);
    }
}

} // verus!
