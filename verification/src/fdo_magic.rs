//! Magic rules in the compiled freedesktop "shared MIME info" format, and the
//! per-MIME rule trees built from them.

use vstd::prelude::*;

pub mod check;
pub mod init;
pub mod ruleset;

verus! {

/// One match rule from a compiled magic file.
///
/// A rule matches a buffer when the pattern `val` (masked by `mask`, when one
/// is present) occurs at offset `start_off`, or — when `region_len` is nonzero
/// — at some offset within `start_off ..= start_off + region_len`.
pub struct MagicRule {
    /// Depth of this rule in its entry; 0 denotes a root rule.
    pub indent_level: u32,
    /// Byte offset at which evaluation begins.
    pub start_off: u32,
    /// Length of `val`; carried separately by the file format.
    pub val_len: u16,
    /// The literal pattern.
    pub val: Vec<u8>,
    /// Optional mask, applied bitwise to both candidate and pattern bytes.
    pub mask: Option<Vec<u8>>,
    /// Word size for byte swapping; parsed and preserved, never consulted.
    pub word_len: u32,
    /// Length of the sliding-search region; 0 means a fixed comparison.
    pub region_len: u32,
}

/// The mathematical model of a [`MagicRule`].
pub ghost struct RuleModel {
    pub indent_level: u32,
    pub start_off: u32,
    pub val_len: u16,
    pub val: Seq<u8>,
    pub mask: Option<Seq<u8>>,
    pub word_len: u32,
    pub region_len: u32,
}

impl RuleModel {
    /// The pattern and mask lengths agree with the recorded `val_len`.
    pub open spec fn wf(self) -> bool {
        &&& self.val.len() == self.val_len as int
        &&& match self.mask {
            Some(m) => m.len() == self.val_len as int,
            None => true,
        }
    }

    /// One past the last byte offset the rule can inspect.
    pub open spec fn extent(self) -> int {
        self.start_off as int + self.val_len as int + self.region_len as int
    }
}

impl View for MagicRule {
    type V = RuleModel;

    open spec fn view(&self) -> RuleModel {
        RuleModel {
            indent_level: self.indent_level,
            start_off: self.start_off,
            val_len: self.val_len,
            val: self.val@,
            mask: match self.mask {
                Some(m) => Some(m@),
                None => None,
            },
            word_len: self.word_len,
            region_len: self.region_len,
        }
    }
}

/// The mask byte used at position `i`: an absent mask hides nothing.
pub open spec fn mask_byte(mask: Option<Seq<u8>>, i: int) -> u8 {
    match mask {
        Some(m) => m[i],
        None => 0xffu8,
    }
}

/// The window of `r.val.len()` bytes of `b` starting at `p` equals the
/// pattern under the mask (both sides are masked).
pub open spec fn window_matches(b: Seq<u8>, p: int, r: RuleModel) -> bool {
    forall|i: int|
        0 <= i < r.val.len() ==> (b[p + i] & mask_byte(r.mask, i)) == (r.val[i] & mask_byte(
            r.mask,
            i,
        ))
}

/// A rule matches a buffer: the buffer covers the rule's whole extent and the
/// masked pattern occurs at some offset of the search region.
pub open spec fn rule_matches(b: Seq<u8>, r: RuleModel) -> bool {
    &&& r.extent() <= b.len()
    &&& exists|p: int|
        r.start_off as int <= p <= r.start_off as int + r.region_len as int && window_matches(
            b,
            p,
            r,
        )
}

/// A rule only inspects bytes below its extent, so matching a long enough
/// prefix is the same as matching the whole buffer.
pub proof fn lemma_rule_match_prefix(b1: Seq<u8>, b2: Seq<u8>, r: RuleModel)
    requires
        r.wf(),
        b1 == b2.take(b1.len() as int),
        b1.len() <= b2.len(),
        r.extent() <= b1.len(),
    ensures
        rule_matches(b1, r) == rule_matches(b2, r),
{
    assert forall|p: int|
        r.start_off as int <= p <= r.start_off as int + r.region_len as int implies window_matches(
        b1,
        p,
        r,
    ) == window_matches(b2, p, r) by {
        assert(forall|i: int| 0 <= i < r.val.len() ==> b1[p + i] == #[trigger] b2[p + i]);
    }
}

/// Per-MIME tree of magic rules, stored as an arena: `children[i]` lists the
/// direct subrules of rule `i`, and `roots` lists the rules with no parent.
/// Children always have larger indices than their parent.
pub struct RuleTree {
    pub rules: Vec<MagicRule>,
    pub children: Vec<Vec<usize>>,
    pub roots: Vec<usize>,
}

impl RuleTree {
    pub open spec fn wf(self) -> bool {
        &&& self.children@.len() == self.rules@.len()
        &&& forall|i: int| 0 <= i < self.rules@.len() ==> (#[trigger] self.rules@[i])@.wf()
        &&& forall|i: int, j: int|
            0 <= i < self.children@.len() && 0 <= j < self.children@[i]@.len() ==> (i < (
            #[trigger] self.children@[i]@[j]) as int && (self.children@[i]@[j] as int)
                < self.rules@.len())
        &&& forall|k: int|
            0 <= k < self.roots@.len() ==> ((#[trigger] self.roots@[k]) as int)
                < self.rules@.len()
    }

    /// The subtree rooted at rule `n` matches `b`: the rule itself matches
    /// and, unless it is a leaf, some child subtree matches too.
    pub open spec fn node_matches(self, n: int, b: Seq<u8>) -> bool
        decreases self.rules@.len() - n,
        when self.wf() && 0 <= n < self.rules@.len()
    {

        &&& rule_matches(b, self.rules@[n]@)
        &&& (self.children@[n]@.len() == 0 || exists|j: int|
            0 <= j < self.children@[n]@.len() && self.node_matches(
                self.children@[n]@[j] as int,
                b,
            ))
    }

    /// The tree matches `b`: some path from a root to a leaf consists
    /// entirely of matching rules.
    pub open spec fn tree_matches(self, b: Seq<u8>) -> bool {
        exists|k: int| 0 <= k < self.roots@.len() && self.node_matches(self.roots@[k] as int, b)
    }

    /// The largest extent of any rule in the tree: the number of bytes a
    /// bounded read must provide so that no rule is cut short.
    pub open spec fn spec_scan_len(self) -> int {
        Self::scan_len_up_to(self.rules@, self.rules@.len() as int)
    }

    /// The largest extent among the first `n` rules.
    pub open spec fn scan_len_up_to(rules: Seq<MagicRule>, n: int) -> int
        decreases n,
    {
        if n <= 0 {
            0
        } else {
            let prev = Self::scan_len_up_to(rules, n - 1);
            if rules[n - 1]@.extent() > prev {
                rules[n - 1]@.extent()
            } else {
                prev
            }
        }
    }

    /// `c` appears among the children of `p`.
    pub open spec fn has_edge(self, p: int, c: int) -> bool {
        edge_in(self.children@, p, c)
    }

    /// `c` appears among the roots.
    pub open spec fn has_root(self, c: int) -> bool {
        root_in(self.roots@, c)
    }
}

/// `c` appears in the child list of `p`.
pub open spec fn edge_in(ch: Seq<Vec<usize>>, p: int, c: int) -> bool {
    &&& 0 <= p < ch.len()
    &&& exists|j: int| 0 <= j < ch[p]@.len() && ch[p]@[j] as int == c
}

/// `c` appears in the root list.
pub open spec fn root_in(rts: Seq<usize>, c: int) -> bool {
    exists|a: int| 0 <= a < rts.len() && rts[a] as int == c
}

/// In the flat, indentation-ordered rule list `rs`, rule `p` is the parent of
/// rule `c`: the nearest earlier rule with a smaller indent level.
pub open spec fn rule_parent(rs: Seq<MagicRule>, p: int, c: int) -> bool {
    &&& 0 <= p < c < rs.len()
    &&& rs[p]@.indent_level < rs[c]@.indent_level
    &&& forall|k: int| p < k < c ==> (#[trigger] rs[k])@.indent_level >= rs[c]@.indent_level
}

/// In the flat rule list `rs`, rule `c` has no parent: no earlier rule has a
/// smaller indent level.
pub open spec fn rule_is_root(rs: Seq<MagicRule>, c: int) -> bool {
    &&& 0 <= c < rs.len()
    &&& forall|k: int| 0 <= k < c ==> (#[trigger] rs[k])@.indent_level >= rs[c]@.indent_level
}

/// The tree is exactly the hierarchy that the rules' indent levels encode.
pub open spec fn tree_represents(t: RuleTree, rs: Seq<MagicRule>) -> bool {
    &&& t.rules@ == rs
    &&& t.wf()
    &&& forall|p: int, c: int| t.has_edge(p, c) <==> rule_parent(rs, p, c)
    &&& forall|c: int| #[trigger] t.has_root(c) <==> rule_is_root(rs, c)
}

} // verus!
