//! The alias map: MIME labels that are other labels' canonical names.

use vstd::prelude::*;

use crate::bytes::{label_bytes, label_clone, labels_eq};

verus! {

/// `m` maps key `a` to value `b` (labels compared by bytes).
pub open spec fn maps_to(m: Seq<(String, String)>, a: Seq<u8>, b: Seq<u8>) -> bool {
    exists|i: int|
        0 <= i < m.len() && label_bytes((#[trigger] m[i]).0) == a && label_bytes(m[i].1) == b
}

/// `a` is a key of `m`.
pub open spec fn is_key(m: Seq<(String, String)>, a: Seq<u8>) -> bool {
    exists|i: int| 0 <= i < m.len() && label_bytes((#[trigger] m[i]).0) == a
}

/// The keys of `m` are pairwise distinct.
pub open spec fn keys_unique(m: Seq<(String, String)>) -> bool {
    forall|i: int, j: int|
        0 <= i < j < m.len() ==> label_bytes(m[i].0) != label_bytes(m[j].0)
}

/// The alias pair list names `a -> b` as the effective binding: some pair
/// maps `a` to `b` with `a != b`, and every later pair with key `a` is a
/// self-alias (bindings are taken in file order, the last one winning).
pub open spec fn raw_maps(pairs: Seq<(Seq<u8>, Seq<u8>)>, a: Seq<u8>, b: Seq<u8>) -> bool {
    exists|k: int|
        0 <= k < pairs.len() && (#[trigger] pairs[k]).0 == a && pairs[k].1 == b && a != b && (forall|
            k2: int,
        |
            k < k2 < pairs.len() && (#[trigger] pairs[k2]).0 == a ==> pairs[k2].1 == a)
}

/// The alias pair list binds key `a` to something other than itself.
pub open spec fn raw_key(pairs: Seq<(Seq<u8>, Seq<u8>)>, a: Seq<u8>) -> bool {
    exists|k: int| 0 <= k < pairs.len() && (#[trigger] pairs[k]).0 == a && pairs[k].1 != a
}

/// Mapping from alias MIME to canonical MIME. Well-formedness makes lookup a
/// function and canonicalisation idempotent: keys are unique and no value is
/// itself a key.
pub struct AliasMap {
    pub entries: Vec<(String, String)>,
}

impl AliasMap {
    pub open spec fn wf(self) -> bool {
        &&& keys_unique(self.entries@)
        &&& forall|i: int, j: int|
            0 <= i < self.entries@.len() && 0 <= j < self.entries@.len() ==> label_bytes(
                (#[trigger] self.entries@[i]).1,
            ) != label_bytes((#[trigger] self.entries@[j]).0)
    }

    /// The canonical form of label `l`: its value when `l` is an alias,
    /// otherwise `l` itself.
    pub open spec fn spec_canon(self, l: Seq<u8>) -> Seq<u8> {
        if is_key(self.entries@, l) {
            let i = choose|i: int|
                0 <= i < self.entries@.len() && label_bytes((#[trigger] self.entries@[i]).0) == l;
            label_bytes(self.entries@[i].1)
        } else {
            l
        }
    }

    /// An empty map.
    pub fn empty() -> (m: AliasMap)
        ensures
            m.wf(),
            m.entries@.len() == 0,
    {
        AliasMap { entries: Vec::new() }
    }

    /// Look an alias up; a label that is no alias is its own canonical form.
    pub fn get_alias<'a>(&'a self, mimetype: &'a String) -> (r: &'a String)
        requires
            self.wf(),
        ensures
            label_bytes(*r) == self.spec_canon(label_bytes(*mimetype)),
    {
        let n = self.entries.len();
        let mut i: usize = 0;
        while i < n
            invariant
                self.wf(),
                n == self.entries@.len(),
                0 <= i <= n,
                forall|a: int|
                    0 <= a < i ==> label_bytes((#[trigger] self.entries@[a]).0) != label_bytes(
                        *mimetype,
                    ),
            decreases n - i,
        {
            if labels_eq(&self.entries[i].0, mimetype) {
                proof {
                    lemma_key_value_unique(self.entries@, label_bytes(*mimetype));
                }
                return &self.entries[i].1;
            }
            i += 1;
        }
        mimetype
    }
}

/// With unique keys, every entry holding key `a` carries the same value.
proof fn lemma_key_value_unique(m: Seq<(String, String)>, a: Seq<u8>)
    requires
        keys_unique(m),
        is_key(m, a),
    ensures
        forall|i: int|
            0 <= i < m.len() && label_bytes((#[trigger] m[i]).0) == a ==> label_bytes(m[i].1) == ({
                let w = choose|w: int|
                    0 <= w < m.len() && label_bytes((#[trigger] m[w]).0) == a;
                label_bytes(m[w].1)
            }),
{
    let w = choose|w: int| 0 <= w < m.len() && label_bytes((#[trigger] m[w]).0) == a;
    assert forall|i: int|
        0 <= i < m.len() && label_bytes((#[trigger] m[i]).0) == a implies label_bytes(m[i].1)
        == label_bytes(m[w].1) by {
        if i < w {
            assert(label_bytes(m[i].0) != label_bytes(m[w].0));
        }
        if w < i {
            assert(label_bytes(m[w].0) != label_bytes(m[i].0));
        }
    }
}

/// Law: canonicalisation is idempotent — an alias resolves to a label that
/// is no alias, and any other label is already canonical.
pub proof fn lemma_canon_idempotent(m: AliasMap, l: Seq<u8>)
    requires
        m.wf(),
    ensures
        m.spec_canon(m.spec_canon(l)) == m.spec_canon(l),
{
    if is_key(m.entries@, l) {
        let i = choose|i: int|
            0 <= i < m.entries@.len() && label_bytes((#[trigger] m.entries@[i]).0) == l;
        let v = label_bytes(m.entries@[i].1);
        assert(!is_key(m.entries@, v)) by {
            if is_key(m.entries@, v) {
                let j = choose|j: int|
                    0 <= j < m.entries@.len() && label_bytes((#[trigger] m.entries@[j]).0) == v;
                assert(label_bytes(m.entries@[i].1) != label_bytes(m.entries@[j].0));
            }
        }
    }
}

/// One stage of the map construction: bind `a` to `b`, replacing any earlier
/// binding of `a`.
fn bind_alias(m: &mut Vec<(String, String)>, a: String, b: String)
    requires
        keys_unique(old(m)@),
    ensures
        keys_unique(final(m)@),
        forall|x: Seq<u8>, y: Seq<u8>|
            #[trigger] maps_to(final(m)@, x, y) <==> (if x == label_bytes(a) {
                y == label_bytes(b)
            } else {
                maps_to(old(m)@, x, y)
            }),
{
    let n = m.len();
    let mut i: usize = 0;
    while i < n
        invariant
            keys_unique(m@),
            m@ == old(m)@,
            n == m@.len(),
            0 <= i <= n,
            forall|q: int|
                0 <= q < i ==> label_bytes((#[trigger] m@[q]).0) != label_bytes(a),
        decreases n - i,
    {
        if labels_eq(&m[i].0, &a) {
            let ghost pre = m@;
            m[i] = (a, b);
            proof {
                assert(m@ == pre.update(i as int, m@[i as int]));
                assert forall|x: Seq<u8>, y: Seq<u8>|
                    #[trigger] maps_to(m@, x, y) implies (if x == label_bytes(a) {
                    y == label_bytes(b)
                } else {
                    maps_to(pre, x, y)
                }) by {
                    let q = choose|q: int|
                        0 <= q < m@.len() && label_bytes((#[trigger] m@[q]).0) == x && label_bytes(
                            m@[q].1,
                        ) == y;
                    if q != i {
                        assert(m@[q] == pre[q]);
                        if x == label_bytes(a) {
                            if q < i {
                                assert(label_bytes(pre[q].0) != label_bytes(pre[i as int].0));
                            } else {
                                assert(label_bytes(pre[i as int].0) != label_bytes(pre[q].0));
                            }
                            assert(false);
                        }
                    }
                }
                assert forall|x: Seq<u8>, y: Seq<u8>|
                    (if x == label_bytes(a) {
                        y == label_bytes(b)
                    } else {
                        maps_to(pre, x, y)
                    }) implies #[trigger] maps_to(m@, x, y) by {
                    if x == label_bytes(a) {
                        assert(label_bytes(m@[i as int].0) == x && label_bytes(m@[i as int].1)
                            == y);
                    } else {
                        let q = choose|q: int|
                            0 <= q < pre.len() && label_bytes((#[trigger] pre[q]).0) == x
                                && label_bytes(pre[q].1) == y;
                        assert(q != i);
                        assert(m@[q] == pre[q]);
                        assert(label_bytes(m@[q].0) == x && label_bytes(m@[q].1) == y);
                    }
                }
                assert forall|q1: int, q2: int|
                    0 <= q1 < q2 < m@.len() implies label_bytes(m@[q1].0) != label_bytes(
                    m@[q2].0,
                ) by {
                    if q1 != i && q2 != i {
                        assert(m@[q1] == pre[q1] && m@[q2] == pre[q2]);
                    } else if q1 == i {
                        assert(m@[q2] == pre[q2]);
                        assert(label_bytes(pre[i as int].0) != label_bytes(pre[q2].0));
                    } else {
                        assert(m@[q1] == pre[q1]);
                        assert(label_bytes(pre[q1].0) != label_bytes(pre[i as int].0));
                    }
                }
            }
            return ;
        }
        i += 1;
    }
    let ghost pre = m@;
    m.push((a, b));
    proof {
        assert(label_bytes(m@[n as int].0) == label_bytes(a) && label_bytes(m@[n as int].1)
            == label_bytes(b));
        assert forall|x: Seq<u8>, y: Seq<u8>|
            #[trigger] maps_to(m@, x, y) implies (if x == label_bytes(a) {
            y == label_bytes(b)
        } else {
            maps_to(pre, x, y)
        }) by {
            let q = choose|q: int|
                0 <= q < m@.len() && label_bytes((#[trigger] m@[q]).0) == x && label_bytes(
                    m@[q].1,
                ) == y;
            if q < n {
                assert(m@[q] == pre[q]);
                if x == label_bytes(a) {
                    assert(label_bytes(pre[q].0) != label_bytes(a));
                    assert(false);
                }
            }
        }
        assert forall|x: Seq<u8>, y: Seq<u8>|
            (if x == label_bytes(a) {
                y == label_bytes(b)
            } else {
                maps_to(pre, x, y)
            }) implies #[trigger] maps_to(m@, x, y) by {
            if x != label_bytes(a) {
                let q = choose|q: int|
                    0 <= q < pre.len() && label_bytes((#[trigger] pre[q]).0) == x && label_bytes(
                        pre[q].1,
                    ) == y;
                assert(m@[q] == pre[q]);
                assert(label_bytes(m@[q].0) == x && label_bytes(m@[q].1) == y);
            }
        }
        assert forall|q1: int, q2: int|
            0 <= q1 < q2 < m@.len() implies label_bytes(m@[q1].0) != label_bytes(m@[q2].0) by {
            if q2 < n {
                assert(m@[q1] == pre[q1] && m@[q2] == pre[q2]);
            } else {
                assert(m@[q1] == pre[q1]);
                assert(label_bytes(pre[q1].0) != label_bytes(a));
            }
        }
    }
}

/// The byte-level view of a list of owned label pairs.
pub open spec fn labels_of(pairs: Seq<(String, String)>) -> Seq<(Seq<u8>, Seq<u8>)> {
    pairs.map_values(|p: (String, String)| (label_bytes(p.0), label_bytes(p.1)))
}

/// `m` maps `x` to `y` within its first `upto` entries.
pub open spec fn maps_to_prefix(m: Seq<(String, String)>, upto: int, x: Seq<u8>, y: Seq<u8>) -> bool {
    exists|q: int|
        0 <= q < upto && q < m.len() && label_bytes((#[trigger] m[q]).0) == x && label_bytes(
            m[q].1,
        ) == y
}

/// Is `l` a key of the map?
fn key_exists(m: &Vec<(String, String)>, l: &String) -> (r: bool)
    ensures
        r == is_key(m@, label_bytes(*l)),
{
    let n = m.len();
    let mut i: usize = 0;
    while i < n
        invariant
            n == m@.len(),
            0 <= i <= n,
            forall|q: int| 0 <= q < i ==> label_bytes((#[trigger] m@[q]).0) != label_bytes(*l),
        decreases n - i,
    {
        if labels_eq(&m[i].0, l) {
            return true;
        }
        i += 1;
    }
    false
}

/// A list that binds `a` to something else somewhere binds it effectively:
/// take the last such pair.
proof fn lemma_last_nonself(lp: Seq<(Seq<u8>, Seq<u8>)>, a: Seq<u8>)
    requires
        raw_key(lp, a),
    ensures
        exists|b: Seq<u8>| raw_maps(lp, a, b),
    decreases lp.len(),
{
    let last = lp.len() - 1;
    if lp[last].0 == a && lp[last].1 != a {
        assert(raw_maps(lp, a, lp[last].1)) by {
            assert(0 <= last < lp.len() && lp[last].0 == a && lp[last].1 == lp[last].1 && a
                != lp[last].1 && (forall|k2: int|
                last < k2 < lp.len() && (#[trigger] lp[k2]).0 == a ==> lp[k2].1 == a));
        }
    } else {
        let k = choose|k: int| 0 <= k < lp.len() && (#[trigger] lp[k]).0 == a && lp[k].1 != a;
        assert(k < last);
        assert(raw_key(lp.drop_last(), a)) by {
            assert(lp.drop_last()[k] == lp[k]);
        }
        lemma_last_nonself(lp.drop_last(), a);
        let b = choose|b: Seq<u8>| raw_maps(lp.drop_last(), a, b);
        let k0 = choose|k0: int|
            0 <= k0 < lp.drop_last().len() && (#[trigger] lp.drop_last()[k0]).0 == a
                && lp.drop_last()[k0].1 == b && a != b && (forall|k2: int|
                k0 < k2 < lp.drop_last().len() && (#[trigger] lp.drop_last()[k2]).0 == a
                    ==> lp.drop_last()[k2].1 == a);
        assert(raw_maps(lp, a, b)) by {
            assert(lp[k0] == lp.drop_last()[k0]);
            assert forall|k2: int|
                k0 < k2 < lp.len() && (#[trigger] lp[k2]).0 == a implies lp[k2].1 == a by {
                if k2 < last {
                    assert(lp.drop_last()[k2] == lp[k2]);
                }
            }
        }
    }
}

impl AliasMap {
    /// Build the alias map from the pairs of the alias table: bindings are
    /// taken in order with the last one winning, a label is never bound to
    /// itself, and a binding whose target is itself bound is discarded, so
    /// that every value in the map is canonical.
    #[verifier::rlimit(50)]
    pub fn from_pairs(pairs: &Vec<(String, String)>) -> (m: AliasMap)
        ensures
            m.wf(),
            forall|x: Seq<u8>, y: Seq<u8>|
                #[trigger] maps_to(m.entries@, x, y) <==> (raw_maps(labels_of(pairs@), x, y)
                    && !raw_key(labels_of(pairs@), y)),
    {
        let ghost lp = labels_of(pairs@);
        let n = pairs.len();
        let mut m1: Vec<(String, String)> = Vec::new();
        let mut k: usize = 0;
        proof {
            assert(lp.len() == n);
        }
        while k < n
            invariant
                lp == labels_of(pairs@),
                n == pairs@.len(),
                lp.len() == n,
                0 <= k <= n,
                keys_unique(m1@),
                forall|x: Seq<u8>, y: Seq<u8>|
                    #[trigger] maps_to(m1@, x, y) <==> raw_maps(lp.take(k as int), x, y),
            decreases n - k,
        {
            let ghost lk = lp.take(k as int);
            let ghost lk1 = lp.take(k as int + 1);
            let ghost a = label_bytes(pairs@[k as int].0);
            let ghost b = label_bytes(pairs@[k as int].1);
            proof {
                assert(lp[k as int] == (a, b));
                assert(lk1 =~= lk.push(lp[k as int]));
            }
            if !labels_eq(&pairs[k].0, &pairs[k].1) {
                let ghost pre = m1@;
                bind_alias(&mut m1, label_clone(&pairs[k].0), label_clone(&pairs[k].1));
                proof {
                    assert forall|x: Seq<u8>, y: Seq<u8>|
                        #[trigger] maps_to(m1@, x, y) implies raw_maps(lk1, x, y) by {
                        if x == a {
                            assert(y == b);
                            assert(lk1[k as int] == (a, b));
                            assert(0 <= k < lk1.len() && (lk1[k as int]).0 == x && lk1[k as int].1
                                == y && x != y && (forall|k2: int|
                                k < k2 < lk1.len() && (#[trigger] lk1[k2]).0 == x ==> lk1[k2].1
                                    == x));
                        } else {
                            assert(maps_to(pre, x, y));
                            assert(raw_maps(lk, x, y));
                            let k0 = choose|k0: int|
                                0 <= k0 < lk.len() && ((#[trigger] lk[k0]).0 == x) && lk[k0].1 == y
                                    && x != y && (forall|k2: int|
                                    k0 < k2 < lk.len() && (#[trigger] lk[k2]).0 == x ==> lk[k2].1
                                        == x);
                            assert(lk1[k0] == lk[k0]);
                            assert forall|k2: int|
                                k0 < k2 < lk1.len() && (#[trigger] lk1[k2]).0 == x implies lk1[k2].1
                                == x by {
                                if k2 < k {
                                    assert(lk1[k2] == lk[k2]);
                                } else {
                                    assert(lk1[k2] == (a, b));
                                    assert(false);
                                }
                            }
                        }
                    }
                    assert forall|x: Seq<u8>, y: Seq<u8>|
                        #[trigger] raw_maps(lk1, x, y) implies maps_to(m1@, x, y) by {
                        let k0 = choose|k0: int|
                            0 <= k0 < lk1.len() && ((#[trigger] lk1[k0]).0 == x) && lk1[k0].1 == y
                                && x != y && (forall|k2: int|
                                k0 < k2 < lk1.len() && (#[trigger] lk1[k2]).0 == x ==> lk1[k2].1
                                    == x);
                        if x == a {
                            if k0 < k {
                                assert(lk1[k as int] == (a, b));
                                assert(lk1[k as int].1 == x);
                                assert(false);
                            }
                            assert(k0 == k);
                            assert(y == b);
                        } else {
                            assert(k0 != k);
                            assert(lk[k0] == lk1[k0]);
                            assert forall|k2: int|
                                k0 < k2 < lk.len() && (#[trigger] lk[k2]).0 == x implies lk[k2].1
                                == x by {
                                assert(lk1[k2] == lk[k2]);
                            }
                            assert(raw_maps(lk, x, y));
                            assert(maps_to(pre, x, y));
                        }
                    }
                }
            } else {
                proof {
                    assert(a == b);
                    assert forall|x: Seq<u8>, y: Seq<u8>|
                        #[trigger] maps_to(m1@, x, y) implies raw_maps(lk1, x, y) by {
                        assert(raw_maps(lk, x, y));
                        let k0 = choose|k0: int|
                            0 <= k0 < lk.len() && ((#[trigger] lk[k0]).0 == x) && lk[k0].1 == y
                                && x != y && (forall|k2: int|
                                k0 < k2 < lk.len() && (#[trigger] lk[k2]).0 == x ==> lk[k2].1
                                    == x);
                        assert(lk1[k0] == lk[k0]);
                        assert forall|k2: int|
                            k0 < k2 < lk1.len() && (#[trigger] lk1[k2]).0 == x implies lk1[k2].1
                            == x by {
                            if k2 < k {
                                assert(lk1[k2] == lk[k2]);
                            } else {
                                assert(lk1[k2] == (a, b));
                            }
                        }
                    }
                    assert forall|x: Seq<u8>, y: Seq<u8>|
                        #[trigger] raw_maps(lk1, x, y) implies maps_to(m1@, x, y) by {
                        let k0 = choose|k0: int|
                            0 <= k0 < lk1.len() && ((#[trigger] lk1[k0]).0 == x) && lk1[k0].1 == y
                                && x != y && (forall|k2: int|
                                k0 < k2 < lk1.len() && (#[trigger] lk1[k2]).0 == x ==> lk1[k2].1
                                    == x);
                        assert(k0 != k);
                        assert(lk[k0] == lk1[k0]);
                        assert forall|k2: int|
                            k0 < k2 < lk.len() && (#[trigger] lk[k2]).0 == x implies lk[k2].1
                            == x by {
                            assert(lk1[k2] == lk[k2]);
                        }
                        assert(raw_maps(lk, x, y));
                    }
                }
            }
            k += 1;
        }
        proof {
            assert(lp.take(n as int) =~= lp);
        }
        // keep only the bindings whose target is itself unbound
        let n1 = m1.len();
        let mut out: Vec<(String, String)> = Vec::new();
        let mut i: usize = 0;
        while i < n1
            invariant
                n1 == m1@.len(),
                0 <= i <= n1,
                keys_unique(m1@),
                keys_unique(out@),
                forall|x: Seq<u8>, y: Seq<u8>|
                    #[trigger] maps_to(out@, x, y) <==> (maps_to_prefix(m1@, i as int, x, y)
                        && !is_key(m1@, y)),
            decreases n1 - i,
        {
            let ghost pre = out@;
            if !key_exists(&m1, &m1[i].1) {
                out.push((label_clone(&m1[i].0), label_clone(&m1[i].1)));
                proof {
                    let nw = out@.len() - 1;
                    assert(label_bytes(out@[nw].0) == label_bytes(m1@[i as int].0) && label_bytes(
                        out@[nw].1,
                    ) == label_bytes(m1@[i as int].1));
                    assert forall|x: Seq<u8>, y: Seq<u8>|
                        #[trigger] maps_to(out@, x, y) implies (maps_to_prefix(m1@, i + 1, x, y)
                        && !is_key(m1@, y)) by {
                        let q = choose|q: int|
                            0 <= q < out@.len() && label_bytes((#[trigger] out@[q]).0) == x
                                && label_bytes(out@[q].1) == y;
                        if q < nw {
                            assert(out@[q] == pre[q]);
                            assert(maps_to(pre, x, y));
                        } else {
                            assert(x == label_bytes(m1@[i as int].0) && y == label_bytes(
                                m1@[i as int].1,
                            ));
                        }
                    }
                    assert forall|x: Seq<u8>, y: Seq<u8>|
                        maps_to_prefix(m1@, i + 1, x, y) && !is_key(m1@, y) implies #[trigger]
                        maps_to(out@, x, y) by {
                        let q = choose|q: int|
                            0 <= q < i + 1 && q < m1@.len() && label_bytes((#[trigger] m1@[q]).0)
                                == x && label_bytes(m1@[q].1) == y;
                        if q < i {
                            assert(maps_to_prefix(m1@, i as int, x, y));
                            assert(maps_to(pre, x, y));
                            let q2 = choose|q2: int|
                                0 <= q2 < pre.len() && label_bytes((#[trigger] pre[q2]).0) == x
                                    && label_bytes(pre[q2].1) == y;
                            assert(out@[q2] == pre[q2]);
                        } else {
                            assert(label_bytes(out@[nw].0) == x && label_bytes(out@[nw].1) == y);
                        }
                    }
                    assert forall|q1: int, q2: int|
                        0 <= q1 < q2 < out@.len() implies label_bytes(out@[q1].0) != label_bytes(
                        out@[q2].0,
                    ) by {
                        if q2 == nw {
                            assert(out@[q1] == pre[q1]);
                            assert(maps_to(pre, label_bytes(pre[q1].0), label_bytes(pre[q1].1)));
                            assert(maps_to_prefix(
                                m1@,
                                i as int,
                                label_bytes(pre[q1].0),
                                label_bytes(pre[q1].1),
                            ));
                            let q0 = choose|q0: int|
                                0 <= q0 < i && q0 < m1@.len() && label_bytes(
                                    (#[trigger] m1@[q0]).0,
                                ) == label_bytes(pre[q1].0) && label_bytes(m1@[q0].1)
                                    == label_bytes(pre[q1].1);
                            assert(label_bytes(m1@[q0].0) != label_bytes(m1@[i as int].0));
                        } else {
                            assert(out@[q1] == pre[q1] && out@[q2] == pre[q2]);
                        }
                    }
                }
            } else {
                proof {
                    assert forall|x: Seq<u8>, y: Seq<u8>|
                        maps_to_prefix(m1@, i + 1, x, y) && !is_key(m1@, y) implies #[trigger]
                        maps_to(out@, x, y) by {
                        let q = choose|q: int|
                            0 <= q < i + 1 && q < m1@.len() && label_bytes((#[trigger] m1@[q]).0)
                                == x && label_bytes(m1@[q].1) == y;
                        if q == i {
                            assert(is_key(m1@, label_bytes(m1@[i as int].1)));
                            assert(false);
                        }
                        assert(maps_to_prefix(m1@, i as int, x, y));
                    }
                }
            }
            i += 1;
        }
        let m = AliasMap { entries: out };
        proof {
            // a key of the one-pass map is exactly an effectively-bound label
            assert forall|y: Seq<u8>| #[trigger] is_key(m1@, y) implies raw_key(lp, y) by {
                let q = choose|q: int|
                    0 <= q < m1@.len() && label_bytes((#[trigger] m1@[q]).0) == y;
                assert(maps_to(m1@, y, label_bytes(m1@[q].1)));
                assert(raw_maps(lp, y, label_bytes(m1@[q].1)));
                let k0 = choose|k0: int|
                    0 <= k0 < lp.len() && ((#[trigger] lp[k0]).0 == y) && lp[k0].1 == label_bytes(
                        m1@[q].1,
                    ) && y != label_bytes(m1@[q].1) && (forall|k2: int|
                        k0 < k2 < lp.len() && (#[trigger] lp[k2]).0 == y ==> lp[k2].1 == y);
                assert(0 <= k0 < lp.len() && lp[k0].0 == y && lp[k0].1 != y);
            }
            assert forall|y: Seq<u8>| #[trigger] raw_key(lp, y) implies is_key(m1@, y) by {
                lemma_last_nonself(lp, y);
                let b = choose|b: Seq<u8>| raw_maps(lp, y, b);
                assert(maps_to(m1@, y, b));
                let q = choose|q: int|
                    0 <= q < m1@.len() && label_bytes((#[trigger] m1@[q]).0) == y && label_bytes(
                        m1@[q].1,
                    ) == b;
            }
            assert forall|x: Seq<u8>, y: Seq<u8>|
                #[trigger] maps_to(m.entries@, x, y) implies (raw_maps(lp, x, y) && !raw_key(
                lp,
                y,
            )) by {
                assert(maps_to_prefix(m1@, n1 as int, x, y) && !is_key(m1@, y));
                let q = choose|q: int|
                    0 <= q < n1 && q < m1@.len() && label_bytes((#[trigger] m1@[q]).0) == x
                        && label_bytes(m1@[q].1) == y;
                assert(maps_to(m1@, x, y));
            }
            assert forall|x: Seq<u8>, y: Seq<u8>|
                raw_maps(lp, x, y) && !raw_key(lp, y) implies #[trigger] maps_to(
                m.entries@,
                x,
                y,
            ) by {
                assert(maps_to(m1@, x, y));
                let q = choose|q: int|
                    0 <= q < m1@.len() && label_bytes((#[trigger] m1@[q]).0) == x && label_bytes(
                        m1@[q].1,
                    ) == y;
                assert(maps_to_prefix(m1@, n1 as int, x, y));
            }
            // no value of the final map is one of its keys
            assert forall|i2: int, j2: int|
                0 <= i2 < m.entries@.len() && 0 <= j2 < m.entries@.len() implies label_bytes(
                (#[trigger] m.entries@[i2]).1,
            ) != label_bytes((#[trigger] m.entries@[j2]).0) by {
                let xi = label_bytes(m.entries@[i2].0);
                let yi = label_bytes(m.entries@[i2].1);
                let xj = label_bytes(m.entries@[j2].0);
                let yj = label_bytes(m.entries@[j2].1);
                assert(maps_to(m.entries@, xi, yi));
                assert(maps_to(m.entries@, xj, yj));
                if yi == xj {
                    assert(!raw_key(lp, yi));
                    assert(raw_maps(lp, xj, yj));
                    let k0 = choose|k0: int|
                        0 <= k0 < lp.len() && ((#[trigger] lp[k0]).0 == xj) && lp[k0].1 == yj && xj
                            != yj && (forall|k2: int|
                            k0 < k2 < lp.len() && (#[trigger] lp[k2]).0 == xj ==> lp[k2].1 == xj);
                    assert(0 <= k0 < lp.len() && lp[k0].0 == yi && lp[k0].1 != yi);
                    assert(raw_key(lp, yi));
                    assert(false);
                }
            }
        }
        m
    }
}

} // verus!
