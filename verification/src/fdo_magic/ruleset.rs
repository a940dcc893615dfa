//! Parser for the compiled freedesktop magic file format, and the conversion
//! of each entry's flat rule list into a rule tree.

use vstd::prelude::*;

use super::{edge_in, root_in, rule_is_root, rule_parent, tree_represents, MagicRule, RuleTree};

verus! {

use vstd::string::StringSliceAdditionalSpecFns;

/// The outcome of parsing one rule line: the rule's model and the position
/// just past the terminating newline.
pub ghost struct RuleParse {
    pub rule: super::RuleModel,
    pub next: int,
}

/// Parse one rule line starting at position `i`:
/// `indent_digits ">" offset_digits "=" val_len:u16_be val [ "&" mask ]
/// [ "~" word_digits ] [ "+" region_digits ] "\n"`.
/// Empty digit runs take the documented defaults.
pub open spec fn spec_parse_rule(s: Seq<u8>, i: int) -> Option<RuleParse> {
    let e1 = digits_end(s, i);
    if e1 == s.len() || s[e1] != 62u8 {  // '>'
        None
    } else {
        let indent = num_or(s.subrange(i, e1), 0);
        let i2 = e1 + 1;
        let e2 = digits_end(s, i2);
        if e2 == s.len() || s[e2] != 61u8 {  // '='
            None
        } else {
            let start = num_or(s.subrange(i2, e2), 0);
            let i3 = e2 + 1;
            if s.len() - i3 < 2 {
                None
            } else {
                let vl = (s[i3] as int) * 256 + (s[i3 + 1] as int);
                let i4 = i3 + 2;
                if s.len() - i4 < vl {
                    None
                } else {
                    let val = s.subrange(i4, i4 + vl);
                    let i5 = i4 + vl;
                    let has_mask = i5 < s.len() && s[i5] == 38u8 && s.len() - (i5 + 1)
                        >= vl;  // '&'
                    let mask = if has_mask {
                        Some(s.subrange(i5 + 1, i5 + 1 + vl))
                    } else {
                        None
                    };
                    let i6 = if has_mask {
                        i5 + 1 + vl
                    } else {
                        i5
                    };
                    let has_word = i6 < s.len() && s[i6] == 126u8;  // '~'
                    let e3 = if has_word {
                        digits_end(s, i6 + 1)
                    } else {
                        i6
                    };
                    let word = if has_word {
                        num_or(s.subrange(i6 + 1, e3), 1)
                    } else {
                        1u32
                    };
                    let has_region = e3 < s.len() && s[e3] == 43u8;  // '+'
                    let e4 = if has_region {
                        digits_end(s, e3 + 1)
                    } else {
                        e3
                    };
                    let region = if has_region {
                        num_or(s.subrange(e3 + 1, e4), 0)
                    } else {
                        0u32
                    };
                    if e4 == s.len() || s[e4] != 10u8 {  // '\n'
                        None
                    } else {
                        Some(
                            RuleParse {
                                rule: super::RuleModel {
                                    indent_level: indent,
                                    start_off: start,
                                    val_len: vl as u16,
                                    val: val,
                                    mask: mask,
                                    word_len: word,
                                    region_len: region,
                                },
                                next: e4 + 1,
                            },
                        )
                    }
                }
            }
        }
    }
}

/// A parsed rule line is well formed and consumes at least one byte.
pub proof fn lemma_parse_rule_advances(s: Seq<u8>, i: int)
    requires
        0 <= i <= s.len(),
        spec_parse_rule(s, i) is Some,
    ensures
        spec_parse_rule(s, i)->Some_0.rule.wf(),
        i < spec_parse_rule(s, i)->Some_0.next <= s.len(),
{
    lemma_digits_end_bounds(s, i);
    let e1 = digits_end(s, i);
    lemma_digits_end_bounds(s, e1 + 1);
    let e2 = digits_end(s, e1 + 1);
    let i3 = e2 + 1;
    let vl = (s[i3] as int) * 256 + (s[i3 + 1] as int);
    let i4 = i3 + 2;
    let i5 = i4 + vl;
    let has_mask = i5 < s.len() && s[i5] == 38u8 && s.len() - (i5 + 1) >= vl;
    let i6 = if has_mask {
        i5 + 1 + vl
    } else {
        i5
    };
    let has_word = i6 < s.len() && s[i6] == 126u8;
    if has_word {
        lemma_digits_end_bounds(s, i6 + 1);
    }
    let e3 = if has_word {
        digits_end(s, i6 + 1)
    } else {
        i6
    };
    let has_region = e3 < s.len() && s[e3] == 43u8;
    if has_region {
        lemma_digits_end_bounds(s, e3 + 1);
    }
}

/// `digits_end` stays within the sequence and moves only forward.
pub proof fn lemma_digits_end_bounds(s: Seq<u8>, i: int)
    requires
        0 <= i <= s.len(),
    ensures
        i <= digits_end(s, i) <= s.len(),
        forall|m: int| i <= m < digits_end(s, i) ==> is_digit(s[m]),
        digits_end(s, i) < s.len() ==> !is_digit(s[digits_end(s, i)]),
    decreases s.len() - i,
{
    if i < s.len() && is_digit(s[i]) {
        lemma_digits_end_bounds(s, i + 1);
    }
}

/// The first index at or after `i` holding byte `b` (or the length).
pub open spec fn find_byte(s: Seq<u8>, i: int, b: u8) -> int
    decreases s.len() - i,
    when 0 <= i <= s.len()
{
    if i == s.len() {
        i
    } else if s[i] == b {
        i
    } else {
        find_byte(s, i + 1, b)
    }
}

pub proof fn lemma_find_byte_bounds(s: Seq<u8>, i: int, b: u8)
    requires
        0 <= i <= s.len(),
    ensures
        i <= find_byte(s, i, b) <= s.len(),
        find_byte(s, i, b) < s.len() ==> s[find_byte(s, i, b)] == b,
        forall|m: int| i <= m < find_byte(s, i, b) ==> s[m] != b,
    decreases s.len() - i,
{
    if i < s.len() && s[i] != b {
        lemma_find_byte_bounds(s, i + 1, b);
    }
}

/// The outcome of parsing one entry header: the MIME label's bytes and the
/// position just past the terminating newline.
pub ghost struct HeaderParse {
    pub label: Seq<u8>,
    pub next: int,
}

/// Parse an entry header `[PRIORITY:MIME]\n` starting at `i`: the priority is
/// one or more bytes other than `:`, the label one or more bytes other than
/// `]`, and the label must be valid UTF-8.
pub open spec fn spec_parse_header(s: Seq<u8>, i: int) -> Option<HeaderParse> {
    if !(0 <= i && i < s.len() && s[i] == 91u8) {  // '['
        None
    } else {
        let j = find_byte(s, i + 1, 58u8);  // ':'
        if j == s.len() || j == i + 1 {
            None
        } else {
            let k = find_byte(s, j + 1, 93u8);  // ']'
            if k == s.len() || k == j + 1 {
                None
            } else if k + 1 >= s.len() || s[k + 1] != 10u8 {  // '\n'
                None
            } else if !vstd::utf8::valid_utf8(s.subrange(j + 1, k)) {
                None
            } else {
                Some(HeaderParse { label: s.subrange(j + 1, k), next: k + 2 })
            }
        }
    }
}

/// One parsed entry: a MIME label and its flat rule list.
pub ghost struct EntryModel {
    pub label: Seq<u8>,
    pub rules: Seq<super::RuleModel>,
}

/// Parse rule lines starting at `i` until one fails to parse; returns the
/// rules and the position after the last one.
pub open spec fn spec_parse_rules(s: Seq<u8>, i: int) -> (Seq<super::RuleModel>, int)
    decreases s.len() - i,
    when 0 <= i <= s.len()
{
    match spec_parse_rule(s, i) {
        None => (Seq::empty(), i),
        Some(rp) => {
            if i < rp.next <= s.len() {
                let rest = spec_parse_rules(s, rp.next);
                (seq![rp.rule] + rest.0, rest.1)
            } else {
                (Seq::empty(), i)
            }
        },
    }
}

pub proof fn lemma_parse_rules_bounds(s: Seq<u8>, i: int)
    requires
        0 <= i <= s.len(),
    ensures
        i <= spec_parse_rules(s, i).1 <= s.len(),
    decreases s.len() - i,
{
    if spec_parse_rule(s, i) is Some {
        lemma_parse_rule_advances(s, i);
        let rp = spec_parse_rule(s, i)->Some_0;
        lemma_parse_rules_bounds(s, rp.next);
    }
}

/// Parse entries (header plus rule lines) starting at `i` until a header
/// fails to parse; returns the entries and the position after the last one.
pub open spec fn spec_parse_entries(s: Seq<u8>, i: int) -> (Seq<EntryModel>, int)
    decreases s.len() - i,
    when 0 <= i <= s.len()
{
    match spec_parse_header(s, i) {
        None => (Seq::empty(), i),
        Some(h) => {
            if i < h.next <= s.len() {
                let rr = spec_parse_rules(s, h.next);
                if h.next <= rr.1 <= s.len() {
                    let rest = spec_parse_entries(s, rr.1);
                    (seq![EntryModel { label: h.label, rules: rr.0 }] + rest.0, rest.1)
                } else {
                    (Seq::empty(), i)
                }
            } else {
                (Seq::empty(), i)
            }
        },
    }
}

/// Parse a whole compiled magic file: the literal header `MIME-Magic\0\n`,
/// then entries. `None` when the file header is missing; trailing bytes that
/// do not start a well-formed entry are ignored.
pub open spec fn spec_parse_ruleset(s: Seq<u8>) -> Option<Seq<EntryModel>> {
    let h = "MIME-Magic\u{0}\n".spec_bytes();
    if s.len() >= h.len() && s.subrange(0, h.len() as int) == h {
        Some(spec_parse_entries(s, h.len() as int).0)
    } else {
        None
    }
}

/// No later entry reuses the label of entry `e`.
pub open spec fn label_last_at(entries: Seq<EntryModel>, e: int) -> bool {
    forall|e2: int| e < e2 < entries.len() ==> (#[trigger] entries[e2]).label != entries[e].label
}

/// Database item `item` carries the rule tree of entry `e`, the last entry
/// with that label.
pub open spec fn db_item_ok(item: (String, RuleTree), entries: Seq<EntryModel>, e: int) -> bool {
    &&& 0 <= e < entries.len()
    &&& entries[e].label == crate::bytes::label_bytes(item.0)
    &&& label_last_at(entries, e)
    &&& tree_represents(item.1, item.1.rules@)
    &&& item.1.rules@.map_values(|mr: MagicRule| mr@) == entries[e].rules
}

/// Some entry backs this database item.
pub open spec fn db_item_covered(item: (String, RuleTree), entries: Seq<EntryModel>) -> bool {
    exists|e: int| db_item_ok(item, entries, e)
}

/// Some database item carries the label `l`.
pub open spec fn db_covers_label(db: Seq<(String, RuleTree)>, l: Seq<u8>) -> bool {
    exists|a: int|
        0 <= a < db.len() && crate::bytes::label_bytes((#[trigger] db[a]).0) == l
}

/// The rule database holds, for each label among the parsed entries, exactly
/// one tree: the one built from the last entry with that label.
pub open spec fn db_represents(db: Seq<(String, RuleTree)>, entries: Seq<EntryModel>) -> bool {
    &&& forall|a: int, b: int|
        0 <= a < b < db.len() ==> crate::bytes::label_bytes(db[a].0) != crate::bytes::label_bytes(
            db[b].0,
        )
    &&& forall|a: int| 0 <= a < db.len() ==> db_item_covered(#[trigger] db[a], entries)
    &&& forall|e: int| 0 <= e < entries.len() ==> db_covers_label(db, (#[trigger] entries[e]).label)
}

/// Scan past ASCII digits starting at `i`.
fn scan_digits(s: &[u8], i: usize) -> (e: usize)
    requires
        i <= s@.len(),
    ensures
        e == digits_end(s@, i as int),
        i <= e <= s@.len(),
    decreases s@.len() - i,
{
    if i < s.len() && 48 <= s[i] && s[i] <= 57 {
        scan_digits(s, i + 1)
    } else {
        i
    }
}

/// Evaluate the digit run `s[lo..hi]`, or `default` when the run is empty or
/// overflows a `u32`.
fn eval_digits(s: &[u8], lo: usize, hi: usize, default: u32) -> (r: u32)
    requires
        lo <= hi <= s@.len(),
        forall|m: int| lo <= m < hi ==> is_digit(s@[m]),
    ensures
        r == num_or(s@.subrange(lo as int, hi as int), default),
{
    if lo == hi {
        assert(s@.subrange(lo as int, hi as int).len() == 0);
        return default;
    }
    let mut acc: u64 = 0;
    let mut j = lo;
    while j < hi
        invariant
            lo <= j <= hi <= s@.len(),
            forall|m: int| lo <= m < hi ==> is_digit(s@[m]),
            digits_val(s@.subrange(lo as int, j as int)) > u32::MAX ==> acc == 0x1_0000_0000u64,
            digits_val(s@.subrange(lo as int, j as int)) <= u32::MAX ==> acc == digits_val(
                s@.subrange(lo as int, j as int),
            ),
        decreases hi - j,
    {
        let ghost pre = s@.subrange(lo as int, j as int);
        let d = s[j];
        assert(is_digit(s@[j as int]));
        if acc > u32::MAX as u64 {
            // the value already overflows; further digits keep it overflowing
            proof {
                assert(s@.subrange(lo as int, j as int + 1) =~= pre.push(s@[j as int]));
                assert(pre.push(s@[j as int]).drop_last() =~= pre);
                assert(pre.push(s@[j as int]).last() == s@[j as int]);
                assert(digits_val(pre.push(s@[j as int])) == digits_val(pre) * 10 + (s@[j as int]
                    - 48));
                assert(digits_val(pre) > u32::MAX);
                assert(digits_val(pre) * 10 >= digits_val(pre));
                assert(digits_val(s@.subrange(lo as int, j as int + 1)) > u32::MAX);
            }
        } else {
            acc = acc * 10 + ((d - 48) as u64);
            proof {
                assert(s@.subrange(lo as int, j as int + 1) =~= pre.push(s@[j as int]));
                assert(pre.push(s@[j as int]).drop_last() =~= pre);
                assert(pre.push(s@[j as int]).last() == s@[j as int]);
                assert(digits_val(pre.push(s@[j as int])) == digits_val(pre) * 10 + (s@[j as int]
                    - 48));
            }
            if acc > u32::MAX as u64 {
                acc = 0x1_0000_0000u64;
            }
        }
        j += 1;
    }
    assert(s@.subrange(lo as int, hi as int).len() > 0);
    if acc > u32::MAX as u64 {
        default
    } else {
        acc as u32
    }
}

/// Parse one rule line of the magic format starting at position `i`.
pub fn parse_rule(s: &[u8], i: usize) -> (r: Option<(MagicRule, usize)>)
    requires
        i <= s@.len(),
    ensures
        match r {
            None => spec_parse_rule(s@, i as int) is None,
            Some((rule, next)) => {
                &&& spec_parse_rule(s@, i as int) == Some(
                    RuleParse { rule: rule@, next: next as int },
                )
                &&& rule@.wf()
                &&& i < next <= s@.len()
            },
        },
{
    proof {
        lemma_digits_end_bounds(s@, i as int);
    }
    let e1 = scan_digits(s, i);
    if e1 == s.len() || s[e1] != 62u8 {
        return None;
    }
    let indent = eval_digits(s, i, e1, 0);
    let i2 = e1 + 1;
    proof {
        lemma_digits_end_bounds(s@, i2 as int);
    }
    let e2 = scan_digits(s, i2);
    if e2 == s.len() || s[e2] != 61u8 {
        return None;
    }
    let start = eval_digits(s, i2, e2, 0);
    let i3 = e2 + 1;
    if s.len() - i3 < 2 {
        return None;
    }
    let vl32: u32 = (s[i3] as u32) * 256 + (s[i3 + 1] as u32);
    let vl = vl32 as u16;
    let vlu = vl as usize;
    let i4 = i3 + 2;
    if s.len() - i4 < vlu {
        return None;
    }
    let val = vstd::slice::slice_to_vec(vstd::slice::slice_subrange(s, i4, i4 + vlu));
    let i5 = i4 + vlu;
    let has_mask = i5 < s.len() && s[i5] == 38u8 && s.len() - (i5 + 1) >= vlu;
    let mask: Option<Vec<u8>> = if has_mask {
        Some(vstd::slice::slice_to_vec(vstd::slice::slice_subrange(s, i5 + 1, i5 + 1 + vlu)))
    } else {
        None
    };
    let i6 = if has_mask {
        i5 + 1 + vlu
    } else {
        i5
    };
    let has_word = i6 < s.len() && s[i6] == 126u8;
    proof {
        if has_word {
            lemma_digits_end_bounds(s@, i6 as int + 1);
        }
    }
    let e3 = if has_word {
        scan_digits(s, i6 + 1)
    } else {
        i6
    };
    let word = if has_word {
        eval_digits(s, i6 + 1, e3, 1)
    } else {
        1u32
    };
    let has_region = e3 < s.len() && s[e3] == 43u8;
    proof {
        if has_region {
            lemma_digits_end_bounds(s@, e3 as int + 1);
        }
    }
    let e4 = if has_region {
        scan_digits(s, e3 + 1)
    } else {
        e3
    };
    let region = if has_region {
        eval_digits(s, e3 + 1, e4, 0)
    } else {
        0u32
    };
    if e4 == s.len() || s[e4] != 10u8 {
        return None;
    }
    let rule = MagicRule {
        indent_level: indent,
        start_off: start,
        val_len: vl,
        val,
        mask,
        word_len: word,
        region_len: region,
    };
    Some((rule, e4 + 1))
}

/// Scan to the next occurrence of byte `b` at or after `i`.
pub(crate) fn scan_to(s: &[u8], i: usize, b: u8) -> (e: usize)
    requires
        i <= s@.len(),
    ensures
        e == find_byte(s@, i as int, b),
        i <= e <= s@.len(),
    decreases s@.len() - i,
{
    if i < s.len() && s[i] != b {
        scan_to(s, i + 1, b)
    } else {
        i
    }
}

/// Parse an entry header `[PRIORITY:MIME]\n` starting at position `i`,
/// yielding the MIME label and the position after the newline.
pub fn mime(s: &[u8], i: usize) -> (r: Option<(String, usize)>)
    requires
        i <= s@.len(),
    ensures
        match r {
            None => spec_parse_header(s@, i as int) is None,
            Some((label, next)) => {
                &&& spec_parse_header(s@, i as int) == Some(
                    HeaderParse {
                        label: crate::bytes::label_bytes(label),
                        next: next as int,
                    },
                )
                &&& i < next <= s@.len()
            },
        },
{
    if i >= s.len() || s[i] != 91u8 {
        return None;
    }
    proof {
        lemma_find_byte_bounds(s@, i as int + 1, 58u8);
    }
    let j = scan_to(s, i + 1, 58u8);
    if j == s.len() || j == i + 1 {
        return None;
    }
    proof {
        lemma_find_byte_bounds(s@, j as int + 1, 93u8);
    }
    let k = scan_to(s, j + 1, 93u8);
    if k == s.len() || k == j + 1 {
        return None;
    }
    if k + 1 >= s.len() || s[k + 1] != 10u8 {
        return None;
    }
    let label_vec = vstd::slice::slice_to_vec(vstd::slice::slice_subrange(s, j + 1, k));
    match crate::bytes::bytes_to_label(label_vec) {
        None => None,
        Some(label) => Some((label, k + 2)),
    }
}

/// Parse rule lines starting at position `i` until one fails.
pub fn parse_rules(s: &[u8], i: usize) -> (r: (Vec<MagicRule>, usize))
    requires
        i <= s@.len(),
    ensures
        r.0@.map_values(|mr: MagicRule| mr@) == spec_parse_rules(s@, i as int).0,
        r.1 as int == spec_parse_rules(s@, i as int).1,
        i <= r.1 <= s@.len(),
        forall|q: int| 0 <= q < r.0@.len() ==> (#[trigger] r.0@[q])@.wf(),
{
    let mut acc: Vec<MagicRule> = Vec::new();
    let mut pos = i;
    loop
        invariant
            i <= pos <= s@.len(),
            spec_parse_rules(s@, i as int).0 == acc@.map_values(|mr: MagicRule| mr@)
                + spec_parse_rules(s@, pos as int).0,
            spec_parse_rules(s@, i as int).1 == spec_parse_rules(s@, pos as int).1,
            forall|q: int| 0 <= q < acc@.len() ==> (#[trigger] acc@[q])@.wf(),
        ensures
            i <= pos <= s@.len(),
            spec_parse_rule(s@, pos as int) is None,
            spec_parse_rules(s@, i as int).0 == acc@.map_values(|mr: MagicRule| mr@)
                + spec_parse_rules(s@, pos as int).0,
            spec_parse_rules(s@, i as int).1 == spec_parse_rules(s@, pos as int).1,
            forall|q: int| 0 <= q < acc@.len() ==> (#[trigger] acc@[q])@.wf(),
        decreases s@.len() - pos,
    {
        match parse_rule(s, pos) {
            None => {
                break ;
            },
            Some((rule, next)) => {
                proof {
                    let ghost pre = acc@.map_values(|mr: MagicRule| mr@);
                    assert(acc@.push(rule).map_values(|mr: MagicRule| mr@) =~= pre.push(rule@));
                    assert(pre + (seq![rule@] + spec_parse_rules(s@, next as int).0) =~= pre.push(
                        rule@,
                    ) + spec_parse_rules(s@, next as int).0);
                }
                acc.push(rule);
                pos = next;
            },
        }
    }
    proof {
        assert(spec_parse_rules(s@, pos as int).0 =~= Seq::<super::RuleModel>::empty());
        assert(acc@.map_values(|mr: MagicRule| mr@) + spec_parse_rules(s@, pos as int).0
            =~= acc@.map_values(|mr: MagicRule| mr@));
    }
    (acc, pos)
}

/// The index of the database item carrying `label`, if any.
fn find_label(db: &Vec<(String, RuleTree)>, label: &String) -> (r: Option<usize>)
    ensures
        match r {
            Some(x) => x < db@.len() && crate::bytes::label_bytes(db@[x as int].0)
                == crate::bytes::label_bytes(*label),
            None => forall|a: int|
                0 <= a < db@.len() ==> crate::bytes::label_bytes((#[trigger] db@[a]).0)
                    != crate::bytes::label_bytes(*label),
        },
{
    let n = db.len();
    let mut x: usize = 0;
    while x < n
        invariant
            n == db@.len(),
            0 <= x <= n,
            forall|a: int|
                0 <= a < x ==> crate::bytes::label_bytes((#[trigger] db@[a]).0)
                    != crate::bytes::label_bytes(*label),
        decreases n - x,
    {
        if crate::bytes::labels_eq(&db[x].0, label) {
            return Some(x);
        }
        x += 1;
    }
    None
}

/// The indent-level sub-parser of a rule line: leading digits (empty means
/// 0), terminated by `>`.
pub fn magic_rules_indent_level(s: &[u8]) -> (r: Option<u32>)
    ensures
        ({
            let e = digits_end(s@, 0);
            match r {
                Some(v) => e < s@.len() && s@[e] == 62u8 && v == num_or(s@.subrange(0, e), 0),
                None => e == s@.len() || s@[e] != 62u8,
            }
        }),
{
    proof {
        lemma_digits_end_bounds(s@, 0);
    }
    let e = scan_digits(s, 0);
    if e == s.len() || s[e] != 62u8 {
        return None;
    }
    Some(eval_digits(s, 0, e, 0))
}

/// The start-offset sub-parser of a rule line: leading digits (empty means
/// 0), terminated by `=`.
pub fn magic_rules_start_off(s: &[u8]) -> (r: Option<u32>)
    ensures
        ({
            let e = digits_end(s@, 0);
            match r {
                Some(v) => e < s@.len() && s@[e] == 61u8 && v == num_or(s@.subrange(0, e), 0),
                None => e == s@.len() || s@[e] != 61u8,
            }
        }),
{
    proof {
        lemma_digits_end_bounds(s@, 0);
    }
    let e = scan_digits(s, 0);
    if e == s.len() || s[e] != 61u8 {
        return None;
    }
    Some(eval_digits(s, 0, e, 0))
}

/// Insert a labelled tree into the database, replacing any item that already
/// carries the same label.
#[verifier::rlimit(50)]
fn insert_item(db: &mut Vec<(String, RuleTree)>, label: String, tree: RuleTree)
    requires
        forall|a: int, b: int|
            0 <= a < b < old(db)@.len() ==> crate::bytes::label_bytes(old(db)@[a].0)
                != crate::bytes::label_bytes(old(db)@[b].0),
    ensures
        forall|a: int, b: int|
            0 <= a < b < final(db)@.len() ==> crate::bytes::label_bytes(final(db)@[a].0)
                != crate::bytes::label_bytes(final(db)@[b].0),
        forall|a: int|
            0 <= a < final(db)@.len() ==> ((#[trigger] final(db)@[a]).0 == label
                && final(db)@[a].1 == tree) || (old(db)@.contains(final(db)@[a])
                && crate::bytes::label_bytes(
                final(db)@[a].0,
            ) != crate::bytes::label_bytes(label)),
        exists|a: int|
            0 <= a < final(db)@.len() && (#[trigger] final(db)@[a]).0 == label && final(db)@[a].1
                == tree,
        forall|b: int|
            0 <= b < old(db)@.len() ==> exists|a: int|
                0 <= a < final(db)@.len() && crate::bytes::label_bytes((#[trigger] final(db)@[a]).0)
                    == crate::bytes::label_bytes((#[trigger] old(db)@[b]).0),
{
    let found = find_label(db, &label);
    match found {
        Some(x) => {
            db[x] = (label, tree);
            proof {
                assert(db@ == old(db)@.update(x as int, db@[x as int]));
                assert(crate::bytes::label_bytes(db@[x as int].0) == crate::bytes::label_bytes(
                    old(db)@[x as int].0,
                ));
                assert forall|a: int|
                    0 <= a < db@.len() && a != x implies old(db)@.contains(db@[a])
                        && crate::bytes::label_bytes(db@[a].0) != crate::bytes::label_bytes(
                        label,
                    ) by {
                    assert(old(db)@[a] == db@[a]);
                    if a < x {
                        assert(crate::bytes::label_bytes(old(db)@[a].0)
                            != crate::bytes::label_bytes(old(db)@[x as int].0));
                    } else {
                        assert(crate::bytes::label_bytes(old(db)@[x as int].0)
                            != crate::bytes::label_bytes(old(db)@[a].0));
                    }
                }
                assert forall|a: int, b: int|
                    0 <= a < b < db@.len() implies crate::bytes::label_bytes(db@[a].0)
                    != crate::bytes::label_bytes(db@[b].0) by {
                    if a != x && b != x {
                        assert(db@[a] == old(db)@[a] && db@[b] == old(db)@[b]);
                    }
                }
                assert forall|b: int| 0 <= b < old(db)@.len() implies exists|a: int|
                    0 <= a < db@.len() && crate::bytes::label_bytes((#[trigger] db@[a]).0)
                        == crate::bytes::label_bytes((#[trigger] old(db)@[b]).0) by {
                    if b == x {
                        assert(crate::bytes::label_bytes(db@[x as int].0)
                            == crate::bytes::label_bytes(old(db)@[b].0));
                    } else {
                        assert(crate::bytes::label_bytes(db@[b].0) == crate::bytes::label_bytes(
                            old(db)@[b].0,
                        ));
                    }
                }
            }
        },
        None => {
            let ghost n = db@.len();
            db.push((label, tree));
            proof {
                assert(db@[n as int].0 == label && db@[n as int].1 == tree);
                assert forall|a: int| 0 <= a < n implies old(db)@.contains(db@[a]) by {
                    assert(old(db)@[a] == db@[a]);
                }
                assert forall|b: int| 0 <= b < old(db)@.len() implies exists|a: int|
                    0 <= a < db@.len() && crate::bytes::label_bytes((#[trigger] db@[a]).0)
                        == crate::bytes::label_bytes((#[trigger] old(db)@[b]).0) by {
                    assert(crate::bytes::label_bytes(db@[b].0) == crate::bytes::label_bytes(
                        old(db)@[b].0,
                    ));
                }
                assert forall|a: int, b: int|
                    0 <= a < b < db@.len() implies crate::bytes::label_bytes(db@[a].0)
                    != crate::bytes::label_bytes(db@[b].0) by {
                    if b < n {
                        assert(db@[a] == old(db)@[a] && db@[b] == old(db)@[b]);
                    } else {
                        assert(db@[a] == old(db)@[a]);
                        assert(crate::bytes::label_bytes(old(db)@[a].0)
                            != crate::bytes::label_bytes(label));
                    }
                }
            }
        },
    }
}

/// Parse a compiled magic file into the rule database: a mapping from MIME
/// label to rule tree. A missing file header fails the whole parse; a
/// malformed rule line ends its entry; bytes that do not start a well-formed
/// entry end the parse with the entries seen so far.
#[verifier::rlimit(50)]
pub fn from_u8(b: &[u8]) -> (r: Result<Vec<(String, RuleTree)>, String>)
    ensures
        match r {
            Ok(db) => spec_parse_ruleset(b@) is Some && db_represents(
                db@,
                spec_parse_ruleset(b@)->Some_0,
            ),
            Err(_) => spec_parse_ruleset(b@) is None,
        },
{
    let hdr = "MIME-Magic\u{0}\n".as_bytes();
    if !crate::bytes::bytes_starts_with(b, hdr) {
        return Err("magic file does not start with the MIME-Magic header".to_owned());
    }
    let ghost entries = spec_parse_entries(b@, hdr@.len() as int).0;
    let mut db: Vec<(String, RuleTree)> = Vec::new();
    let mut pos = hdr.len();
    let ghost mut eproc: Seq<EntryModel> = Seq::empty();
    proof {
        assert(eproc + spec_parse_entries(b@, pos as int).0 =~= entries);
    }
    loop
        invariant
            hdr@.len() <= pos <= b@.len(),
            entries == spec_parse_entries(b@, hdr@.len() as int).0,
            eproc + spec_parse_entries(b@, pos as int).0 == entries,
            db_represents(db@, eproc),
        ensures
            eproc == entries,
            db_represents(db@, eproc),
        decreases b@.len() - pos,
    {
        let header = mime(b, pos);
        match header {
            None => {
                proof {
                    assert(spec_parse_entries(b@, pos as int).0 =~= Seq::<EntryModel>::empty());
                    assert(eproc + spec_parse_entries(b@, pos as int).0 =~= eproc);
                }
                break ;
            },
            Some((label, next)) => {
                proof {
                    lemma_parse_rules_bounds(b@, next as int);
                }
                let (rules, rpos) = parse_rules(b, next);
                let tree = gen_graph(rules);
                let ghost h = spec_parse_header(b@, pos as int)->Some_0;
                let ghost rr = spec_parse_rules(b@, next as int);
                let ghost entry = EntryModel { label: h.label, rules: rr.0 };
                proof {
                    assert(spec_parse_entries(b@, pos as int).0 == seq![entry]
                        + spec_parse_entries(b@, rpos as int).0);
                }
                let ghost pre_db = db@;
                insert_item(&mut db, label, tree);
                proof {
                    let eproc2 = eproc.push(entry);
                    assert(eproc2 + spec_parse_entries(b@, rpos as int).0 =~= eproc + (seq![entry]
                        + spec_parse_entries(b@, rpos as int).0));
                    let ghost e_new = eproc.len() as int;
                    assert forall|a: int| 0 <= a < db@.len() implies db_item_covered(
                        #[trigger] db@[a],
                        eproc2,
                    ) by {
                        if db@[a].0 == label && db@[a].1 == tree {
                            assert(eproc2[e_new].label == crate::bytes::label_bytes(db@[a].0));
                            assert(label_last_at(eproc2, e_new));
                            assert(db_item_ok(db@[a], eproc2, e_new));
                        } else {
                            assert(pre_db.contains(db@[a]) && crate::bytes::label_bytes(db@[a].0)
                                != crate::bytes::label_bytes(label));
                            let a0 = choose|a0: int| 0 <= a0 < pre_db.len() && pre_db[a0] == db@[a];
                            let e0 = choose|e0: int| db_item_ok(pre_db[a0], eproc, e0);
                            assert(db_item_ok(pre_db[a0], eproc, e0));
                            assert(eproc2[e0] == eproc[e0]);
                            assert forall|e2: int| e0 < e2 < eproc2.len() implies (
                            #[trigger] eproc2[e2]).label != eproc2[e0].label by {
                                if e2 == e_new {
                                    assert(eproc2[e2].label == crate::bytes::label_bytes(label));
                                }
                            }
                            assert(db_item_ok(db@[a], eproc2, e0));
                        }
                    }
                    assert forall|e: int| 0 <= e < eproc2.len() implies db_covers_label(
                        db@,
                        (#[trigger] eproc2[e]).label,
                    ) by {
                        if e == e_new {
                            let aw = choose|aw: int|
                                0 <= aw < db@.len() && (#[trigger] db@[aw]).0 == label
                                    && db@[aw].1 == tree;
                            assert(crate::bytes::label_bytes(db@[aw].0) == eproc2[e].label);
                        } else {
                            let aw0 = choose|aw0: int|
                                0 <= aw0 < pre_db.len() && crate::bytes::label_bytes(
                                    #[trigger] pre_db[aw0].0,
                                ) == eproc[e].label;
                            let aw = choose|aw: int|
                                0 <= aw < db@.len() && crate::bytes::label_bytes(
                                    (#[trigger] db@[aw]).0,
                                ) == crate::bytes::label_bytes(pre_db[aw0].0);
                            assert(crate::bytes::label_bytes(db@[aw].0) == eproc2[e].label);
                        }
                    }
                    assert(db_represents(db@, eproc2));
                    eproc = eproc2;
                }
                pos = rpos;
            },
        }
    }
    Ok(db)
}

/// Rule `k` is still "visible" when rule `i` is processed: no rule strictly
/// between them has an indent level at or below `k`'s.
pub open spec fn visible(rs: Seq<MagicRule>, k: int, i: int) -> bool {
    &&& 0 <= k < i
    &&& forall|m: int| k < m < i ==> (#[trigger] rs[m])@.indent_level > rs[k]@.indent_level
}

spec fn on_stack(st: Seq<usize>, k: int) -> bool {
    exists|a: int| 0 <= a < st.len() && st[a] as int == k
}

/// Below any position `m` of low indent there is a visible position of indent
/// no higher.
proof fn lemma_find_visible(rs: Seq<MagicRule>, i: int, m: int)
    requires
        0 <= m < i <= rs.len(),
    ensures
        exists|m2: int|
            m <= m2 < i && #[trigger] visible(rs, m2, i) && rs[m2]@.indent_level
                <= rs[m]@.indent_level,
    decreases i - m,
{
    if visible(rs, m, i) {
        assert(m <= m < i && visible(rs, m, i) && rs[m]@.indent_level <= rs[m]@.indent_level);
    } else {
        assert(exists|m1: int|
            m < m1 < i && (#[trigger] rs[m1])@.indent_level <= rs[m]@.indent_level);
        let m1 = choose|m1: int|
            m < m1 < i && (#[trigger] rs[m1])@.indent_level <= rs[m]@.indent_level;
        lemma_find_visible(rs, i, m1);
        let m2 = choose|m2: int|
            m1 <= m2 < i && #[trigger] visible(rs, m2, i) && rs[m2]@.indent_level
                <= rs[m1]@.indent_level;
        assert(m <= m2 < i && visible(rs, m2, i) && rs[m2]@.indent_level
            <= rs[m]@.indent_level);
    }
}

/// A rule has at most one parent.
proof fn lemma_parent_unique(rs: Seq<MagicRule>, p1: int, p2: int, c: int)
    requires
        rule_parent(rs, p1, c),
        rule_parent(rs, p2, c),
    ensures
        p1 == p2,
{
    if p1 < p2 {
        assert(rs[p2]@.indent_level >= rs[c]@.indent_level);
    }
    if p2 < p1 {
        assert(rs[p1]@.indent_level >= rs[c]@.indent_level);
    }
}

/// Build the rule tree of one magic entry from its flat rule list: each rule
/// becomes the child of the nearest earlier rule with a smaller indent level,
/// and the rules with no such predecessor become roots.
pub fn gen_graph(magic_rules: Vec<MagicRule>) -> (t: RuleTree)
    requires
        forall|i: int| 0 <= i < magic_rules@.len() ==> (#[trigger] magic_rules@[i])@.wf(),
    ensures
        tree_represents(t, magic_rules@),
{
    let ghost rs = magic_rules@;
    let n = magic_rules.len();
    let mut children: Vec<Vec<usize>> = Vec::new();
    let mut idx: usize = 0;
    while idx < n
        invariant
            0 <= idx <= n,
            children@.len() == idx,
            forall|p: int| 0 <= p < idx ==> (#[trigger] children@[p])@.len() == 0,
        decreases n - idx,
    {
        children.push(Vec::new());
        idx += 1;
    }
    let mut roots: Vec<usize> = Vec::new();
    let mut rulestack: Vec<usize> = Vec::new();
    let mut i: usize = 0;
    while i < n
        invariant
            rs == magic_rules@,
            n == rs.len(),
            children@.len() == n,
            0 <= i <= n,
            forall|a: int, b: int|
                0 <= a < b < rulestack@.len() ==> rulestack@[a] < rulestack@[b],
            forall|a: int| 0 <= a < rulestack@.len() ==> ((#[trigger] rulestack@[a]) as int) < i,
            forall|k: int| #[trigger] on_stack(rulestack@, k) <==> visible(rs, k, i as int),
            forall|p: int, c: int|
                #[trigger] edge_in(children@, p, c) <==> (rule_parent(rs, p, c) && c < i),
            forall|c: int| #[trigger] root_in(roots@, c) <==> (rule_is_root(rs, c) && c < i),
        decreases n - i,
    {
        let ghost ii = i as int;
        let ind = magic_rules[i].indent_level;
        proof {
            assert forall|a: int| 0 <= a < rulestack@.len() implies visible(
                rs,
                (#[trigger] rulestack@[a]) as int,
                ii,
            ) by {
                assert(on_stack(rulestack@, rulestack@[a] as int));
            }
        }
        loop
            invariant
                rs == magic_rules@,
                n == rs.len(),
                0 <= i < n,
                ind == rs[ii]@.indent_level,
                forall|a: int, b: int|
                    0 <= a < b < rulestack@.len() ==> rulestack@[a] < rulestack@[b],
                forall|a: int|
                    0 <= a < rulestack@.len() ==> ((#[trigger] rulestack@[a]) as int) < i,
                forall|a: int|
                    0 <= a < rulestack@.len() ==> visible(rs, (#[trigger] rulestack@[a]) as int, ii),
                forall|k: int|
                    visible(rs, k, ii) && !on_stack(rulestack@, k) ==> rs[k]@.indent_level >= ind,
                forall|k: int, a: int|
                    #![trigger rulestack@[a], visible(rs, k, ii)]
                    0 <= a < rulestack@.len() && visible(rs, k, ii) && k < rulestack@[a] as int
                        ==> on_stack(rulestack@, k),
            ensures
                rs == magic_rules@,
                forall|a: int, b: int|
                    0 <= a < b < rulestack@.len() ==> rulestack@[a] < rulestack@[b],
                forall|a: int|
                    0 <= a < rulestack@.len() ==> ((#[trigger] rulestack@[a]) as int) < i,
                forall|a: int|
                    0 <= a < rulestack@.len() ==> visible(rs, (#[trigger] rulestack@[a]) as int, ii),
                forall|k: int|
                    visible(rs, k, ii) && !on_stack(rulestack@, k) ==> rs[k]@.indent_level >= ind,
                rulestack@.len() == 0 || rs[rulestack@.last() as int]@.indent_level < ind,
            decreases rulestack@.len(),
        {
            if rulestack.len() == 0 {
                break;
            }
            let top = rulestack[rulestack.len() - 1];
            if magic_rules[top].indent_level < ind {
                break;
            }
            let ghost old_st = rulestack@;
            rulestack.pop();
            proof {
                assert(rulestack@ == old_st.subrange(0, old_st.len() - 1));
                // every element of the shorter stack was on the old stack
                assert forall|k: int|
                    visible(rs, k, ii) && !on_stack(rulestack@, k) implies rs[k]@.indent_level
                    >= ind by {
                    if on_stack(old_st, k) {
                        let a = choose|a: int| 0 <= a < old_st.len() && old_st[a] as int == k;
                        if a < old_st.len() - 1 {
                            assert(rulestack@[a] as int == k);
                            assert(on_stack(rulestack@, k));
                        } else {
                            assert(k == top as int);
                        }
                    }
                }
                assert forall|k: int, a: int|
                    #![trigger rulestack@[a], visible(rs, k, ii)]
                    0 <= a < rulestack@.len() && visible(rs, k, ii) && k < rulestack@[a] as int
                        implies on_stack(rulestack@, k) by {
                    assert(old_st[a] == rulestack@[a]);
                    assert(on_stack(old_st, k));
                    let b = choose|b: int| 0 <= b < old_st.len() && old_st[b] as int == k;
                    // k is below a non-final element, so it is not the popped top
                    assert(old_st[a] < old_st[old_st.len() - 1] || a == old_st.len() - 1);
                    assert(b < old_st.len() - 1);
                    assert(rulestack@[b] as int == k);
                }
            }
        }
        // the stack now holds exactly the visible rules of lower indent
        if rulestack.len() > 0 {
            let t = rulestack[rulestack.len() - 1];
            proof {
                assert(visible(rs, t as int, ii));
                assert forall|k: int| (t as int) < k < ii implies (#[trigger] rs[k])@.indent_level
                    >= rs[ii]@.indent_level by {
                    if rs[k]@.indent_level < ind {
                        lemma_find_visible(rs, ii, k);
                        let m2 = choose|m2: int|
                            k <= m2 < ii && #[trigger] visible(rs, m2, ii) && rs[m2]@.indent_level
                                <= rs[k]@.indent_level;
                        assert(on_stack(rulestack@, m2));
                        let a = choose|a: int|
                            0 <= a < rulestack@.len() && rulestack@[a] as int == m2;
                        assert(rulestack@[a] <= rulestack@[rulestack@.len() - 1]);
                        assert(m2 <= t as int);
                    }
                }
                assert(rule_parent(rs, t as int, ii));
            }
            let ghost old_ch = children@;
            children[t].push(i);
            proof {
                assert(children@ == old_ch.update(t as int, children@[t as int]));
                assert(children@[t as int]@ == old_ch[t as int]@.push(i));
                assert forall|p: int, c: int| #[trigger]
                    edge_in(children@, p, c) implies (rule_parent(rs, p, c) && c < i + 1) by {
                    if p != t as int {
                        assert(children@[p] == old_ch[p]);
                        assert(edge_in(old_ch, p, c));
                    } else {
                        let j = choose|j: int|
                            0 <= j < children@[p]@.len() && children@[p]@[j] as int == c;
                        if j < old_ch[p]@.len() {
                            assert(old_ch[p]@[j] as int == c);
                            assert(edge_in(old_ch, p, c));
                        } else {
                            assert(c == i as int);
                        }
                    }
                }
                assert forall|p: int, c: int|
                    rule_parent(rs, p, c) && c < i + 1 implies #[trigger] edge_in(
                    children@,
                    p,
                    c,
                ) by {
                    if c < i {
                        assert(edge_in(old_ch, p, c));
                        let j = choose|j: int|
                            0 <= j < old_ch[p]@.len() && old_ch[p]@[j] as int == c;
                        if p == t as int {
                            assert(children@[p]@[j] as int == c);
                        } else {
                            assert(children@[p] == old_ch[p]);
                        }
                    } else {
                        lemma_parent_unique(rs, p, t as int, ii);
                        assert(children@[t as int]@[old_ch[t as int]@.len() as int] as int
                            == i as int);
                    }
                }
                assert forall|c: int| #[trigger]
                    root_in(roots@, c) implies (rule_is_root(rs, c) && c < i + 1) by {}
                assert forall|c: int|
                    rule_is_root(rs, c) && c < i + 1 implies #[trigger] root_in(roots@, c) by {
                    if c == ii {
                        assert(rs[t as int]@.indent_level >= rs[ii]@.indent_level);
                        assert(false);
                    }
                }
            }
        } else {
            proof {
                assert forall|k: int| 0 <= k < ii implies (#[trigger] rs[k])@.indent_level
                    >= rs[ii]@.indent_level by {
                    if rs[k]@.indent_level < ind {
                        lemma_find_visible(rs, ii, k);
                        let m2 = choose|m2: int|
                            k <= m2 < ii && #[trigger] visible(rs, m2, ii) && rs[m2]@.indent_level
                                <= rs[k]@.indent_level;
                        assert(!on_stack(rulestack@, m2));
                        assert(rs[m2]@.indent_level >= ind);
                    }
                }
                assert(rule_is_root(rs, ii));
            }
            let ghost old_rt = roots@;
            roots.push(i);
            proof {
                assert forall|c: int| #[trigger]
                    root_in(roots@, c) implies (rule_is_root(rs, c) && c < i + 1) by {
                    let a = choose|a: int| 0 <= a < roots@.len() && roots@[a] as int == c;
                    if a < old_rt.len() {
                        assert(old_rt[a] as int == c);
                        assert(root_in(old_rt, c));
                    } else {
                        assert(c == ii);
                    }
                }
                assert forall|c: int|
                    rule_is_root(rs, c) && c < i + 1 implies #[trigger] root_in(roots@, c) by {
                    if c < i {
                        assert(root_in(old_rt, c));
                        let a = choose|a: int| 0 <= a < old_rt.len() && old_rt[a] as int == c;
                        assert(roots@[a] as int == c);
                    } else {
                        assert(roots@[old_rt.len() as int] as int == c);
                    }
                }
            }
        }
        let ghost pre_push = rulestack@;
        rulestack.push(i);
        proof {
            // indent levels increase strictly along the stack, so every
            // surviving element has indent below `ind`
            assert forall|a: int|
                0 <= a < pre_push.len() implies rs[(#[trigger] pre_push[a]) as int]@.indent_level
                < ind by {
                if a < pre_push.len() - 1 {
                    let la = pre_push[a] as int;
                    let lb = pre_push[pre_push.len() - 1] as int;
                    assert(visible(rs, la, ii));
                    assert(la < lb < ii);
                    assert(rs[lb]@.indent_level > rs[la]@.indent_level);
                }
            }
            assert forall|k: int| #[trigger]
                on_stack(rulestack@, k) implies visible(rs, k, i + 1) by {
                let a = choose|a: int| 0 <= a < rulestack@.len() && rulestack@[a] as int == k;
                if a < pre_push.len() {
                    assert(pre_push[a] as int == k);
                    assert(visible(rs, k, ii));
                    assert(rs[k]@.indent_level < ind);
                    assert forall|m: int| k < m < i + 1 implies (#[trigger] rs[m])@.indent_level
                        > rs[k]@.indent_level by {}
                } else {
                    assert(k == ii);
                }
            }
            assert forall|k: int| visible(rs, k, i + 1) implies #[trigger] on_stack(
                rulestack@,
                k,
            ) by {
                if k == ii {
                    assert(rulestack@[pre_push.len() as int] as int == k);
                } else {
                    assert(visible(rs, k, ii));
                    assert(rs[ii]@.indent_level > rs[k]@.indent_level);
                    if !on_stack(pre_push, k) {
                        assert(rs[k]@.indent_level >= ind);
                        assert(false);
                    }
                    let a = choose|a: int| 0 <= a < pre_push.len() && pre_push[a] as int == k;
                    assert(rulestack@[a] as int == k);
                }
            }
        }
        i += 1;
    }
    let t = RuleTree { rules: magic_rules, children, roots };
    proof {
        assert forall|p: int, j: int|
            0 <= p < t.children@.len() && 0 <= j < t.children@[p]@.len() implies (p < (
        #[trigger] t.children@[p]@[j]) as int && ((t.children@[p]@[j] as int))
            < t.rules@.len()) by {
            assert(edge_in(children@, p, t.children@[p]@[j] as int));
        }
        assert forall|k: int|
            0 <= k < t.roots@.len() implies (((#[trigger] t.roots@[k]) as int)
            < t.rules@.len()) by {
            assert(root_in(roots@, t.roots@[k] as int));
        }
        assert(t.wf());
    }
    t
}

/// ASCII decimal digit.
pub open spec fn is_digit(b: u8) -> bool {
    48 <= b <= 57
}

/// The first index at or after `i` holding a non-digit byte (or the length).
pub open spec fn digits_end(s: Seq<u8>, i: int) -> int
    decreases s.len() - i,
    when 0 <= i <= s.len()
{
    if i == s.len() {
        i
    } else if is_digit(s[i]) {
        digits_end(s, i + 1)
    } else {
        i
    }
}

/// The number denoted by a digit string.
pub open spec fn digits_val(ds: Seq<u8>) -> nat
    decreases ds.len(),
{
    if ds.len() == 0 {
        0
    } else {
        digits_val(ds.drop_last()) * 10 + (ds.last() - 48) as nat
    }
}

/// The value of a digit string, or `default` when the string is empty or its
/// value does not fit a `u32`.
pub open spec fn num_or(ds: Seq<u8>, default: u32) -> u32 {
    if ds.len() == 0 || digits_val(ds) > u32::MAX {
        default
    } else {
        digits_val(ds) as u32
    }
}

} // verus!
