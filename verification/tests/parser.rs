//! Tests for the compiled magic format parser and its sub-parsers.

use tree_magic::fdo_magic::ruleset::{from_u8, magic_rules_indent_level, magic_rules_start_off, mime};

#[test]
fn mime_test() {
    let r = mime(b"[90:text/plain]\n", 0);
    let (label, next) = r.expect("header should parse");
    assert_eq!(label, "text/plain");
    assert_eq!(next, b"[90:text/plain]\n".len());
}

#[test]
fn indent_level_test() {
    assert_eq!(magic_rules_indent_level(b"0>fgh").unwrap(), 0);
    assert_eq!(magic_rules_indent_level(b"42>fgh").unwrap(), 42);
    assert_eq!(magic_rules_indent_level(b">fgh").unwrap(), 0);
    assert_eq!(magic_rules_indent_level(b"xyz>fgh").is_none(), true);
}

#[test]
fn start_off_test() {
    assert_eq!(magic_rules_start_off(b"0=").unwrap(), 0);
    assert_eq!(magic_rules_start_off(b"42=").unwrap(), 42);
}

#[test]
fn overflowing_digits_take_default() {
    // a count too large for u32 falls back to the documented default (0)
    assert_eq!(magic_rules_indent_level(b"99999999999999999999>x").unwrap(), 0);
}

#[test]
fn bad_header_is_error() {
    assert!(from_u8(b"not a magic file").is_err());
    assert!(from_u8(b"").is_err());
}

#[test]
fn empty_magic_file_has_no_entries() {
    let db = from_u8(b"MIME-Magic\0\n").expect("header alone is a valid file");
    assert_eq!(db.len(), 0);
}

#[test]
fn single_entry_parses() {
    let mut v: Vec<u8> = Vec::new();
    v.extend_from_slice(b"MIME-Magic\0\n");
    v.extend_from_slice(b"[50:image/gif]\n");
    v.extend_from_slice(b">0=\x00\x04GIF8\n");
    let db = from_u8(&v).unwrap();
    assert_eq!(db.len(), 1);
    assert_eq!(db[0].0, "image/gif");
    assert_eq!(db[0].1.rules.len(), 1);
    assert_eq!(db[0].1.rules[0].val, b"GIF8".to_vec());
    assert_eq!(db[0].1.rules[0].val_len, 4);
    assert_eq!(db[0].1.rules[0].start_off, 0);
    assert_eq!(db[0].1.rules[0].region_len, 0);
    assert_eq!(db[0].1.rules[0].word_len, 1);
    assert_eq!(db[0].1.roots.len(), 1);
}

#[test]
fn rule_options_parse() {
    let mut v: Vec<u8> = Vec::new();
    v.extend_from_slice(b"MIME-Magic\0\n");
    v.extend_from_slice(b"[50:x/y]\n");
    // mask, word length and region length after the value
    v.extend_from_slice(b"1>4=\x00\x02AB&\xff\x0f~2+8\n");
    let db = from_u8(&v).unwrap();
    assert_eq!(db.len(), 1);
    let r = &db[0].1.rules[0];
    assert_eq!(r.indent_level, 1);
    assert_eq!(r.start_off, 4);
    assert_eq!(r.val, b"AB".to_vec());
    assert_eq!(r.mask, Some(vec![0xffu8, 0x0fu8]));
    assert_eq!(r.word_len, 2);
    assert_eq!(r.region_len, 8);
}

#[test]
fn malformed_rule_ends_entry_but_keeps_parsed_entries() {
    let mut v: Vec<u8> = Vec::new();
    v.extend_from_slice(b"MIME-Magic\0\n");
    v.extend_from_slice(b"[50:image/gif]\n");
    v.extend_from_slice(b">0=\x00\x04GIF8\n");
    // a line that is neither a rule nor a header ends the parse; everything
    // before it is retained
    v.extend_from_slice(b"garbage here");
    let db = from_u8(&v).unwrap();
    assert_eq!(db.len(), 1);
    assert_eq!(db[0].0, "image/gif");
}

#[test]
fn duplicate_entry_last_wins() {
    let mut v: Vec<u8> = Vec::new();
    v.extend_from_slice(b"MIME-Magic\0\n");
    v.extend_from_slice(b"[50:image/gif]\n");
    v.extend_from_slice(b">0=\x00\x04GIF8\n");
    v.extend_from_slice(b"[50:image/gif]\n");
    v.extend_from_slice(b">0=\x00\x02XX\n");
    let db = from_u8(&v).unwrap();
    assert_eq!(db.len(), 1);
    assert_eq!(db[0].1.rules[0].val, b"XX".to_vec());
}

#[test]
fn indentation_builds_tree() {
    let mut v: Vec<u8> = Vec::new();
    v.extend_from_slice(b"MIME-Magic\0\n");
    v.extend_from_slice(b"[50:x/nested]\n");
    v.extend_from_slice(b">0=\x00\x02AB\n");
    v.extend_from_slice(b"1>2=\x00\x02CD\n");
    v.extend_from_slice(b"1>2=\x00\x02EF\n");
    v.extend_from_slice(b">0=\x00\x02GH\n");
    let db = from_u8(&v).unwrap();
    let t = &db[0].1;
    // two roots; the first has the two indented rules as children
    assert_eq!(t.roots, vec![0usize, 3usize]);
    assert_eq!(t.children[0], vec![1usize, 2usize]);
    assert_eq!(t.children[1], Vec::<usize>::new());
    assert_eq!(t.children[3], Vec::<usize>::new());
}
