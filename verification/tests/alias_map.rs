//! Tests for the alias map construction and canonicalisation.

use tree_magic::alias::AliasMap;

fn pairs(raw: &[(&str, &str)]) -> Vec<(String, String)> {
    let mut v: Vec<(String, String)> = Vec::new();
    for (a, b) in raw {
        v.push((a.to_string(), b.to_string()));
    }
    v
}

#[test]
fn lookup_resolves_alias() {
    let m = AliasMap::from_pairs(&pairs(&[("application/x-zip-compressed", "application/zip")]));
    assert_eq!(
        m.get_alias(&"application/x-zip-compressed".to_string()),
        "application/zip"
    );
    assert_eq!(m.get_alias(&"application/zip".to_string()), "application/zip");
    assert_eq!(m.get_alias(&"image/gif".to_string()), "image/gif");
}

#[test]
fn canonicalisation_is_idempotent() {
    let m = AliasMap::from_pairs(&pairs(&[
        ("a/one", "b/two"),
        ("c/three", "b/two"),
        ("d/four", "e/five"),
    ]));
    for label in ["a/one", "b/two", "c/three", "d/four", "e/five", "f/six"] {
        let once = m.get_alias(&label.to_string()).clone();
        let twice = m.get_alias(&once).clone();
        assert_eq!(once, twice);
    }
}

#[test]
fn later_binding_wins() {
    let m = AliasMap::from_pairs(&pairs(&[("a/one", "b/two"), ("a/one", "c/three")]));
    assert_eq!(m.get_alias(&"a/one".to_string()), "c/three");
}

#[test]
fn chained_binding_is_discarded() {
    // a binding whose target is itself bound would break idempotence and is
    // dropped
    let m = AliasMap::from_pairs(&pairs(&[("a/one", "b/two"), ("b/two", "c/three")]));
    assert_eq!(m.get_alias(&"a/one".to_string()), "a/one");
    assert_eq!(m.get_alias(&"b/two".to_string()), "c/three");
}

#[test]
fn self_binding_is_ignored() {
    let m = AliasMap::from_pairs(&pairs(&[("a/one", "a/one")]));
    assert_eq!(m.get_alias(&"a/one".to_string()), "a/one");
    assert_eq!(m.entries.len(), 0);
}
