//! A MIME-type identification engine.
//!
//! MIME types are organised into a subclass hierarchy (a directed acyclic
//! graph rooted at the synthetic type `all/all`). Instead of checking a file
//! against every known signature, a query walks the hierarchy top-down and
//! evaluates magic rules only for children of types that already matched.

use vstd::prelude::*;

pub mod alias;
pub mod basetype;
mod bytes;
pub mod fdo_magic;
pub mod graph;

pub use basetype::FileKind;
pub use bytes::no_null_bytes;

use alias::AliasMap;
use basetype::{is_base_type, spec_check_bytes, spec_check_path};
use bytes::{label_bytes, label_clone, label_from};
use fdo_magic::check::{db_wf, spec_magic_check};
use fdo_magic::RuleTree;
use graph::{first_root_from, TypeGraph};

verus! {

use vstd::string::StringSliceAdditionalSpecFns;

/// Information about currently loaded MIME types: the subclass graph over
/// all providers' types, the magic provider's rule database, and the merged
/// alias map. Built once by [`graph_init`]; queries never change it.
pub struct TypeStruct {
    pub graph: TypeGraph,
    pub rules: Vec<(String, RuleTree)>,
    pub aliases: AliasMap,
}

impl TypeStruct {
    pub open spec fn wf(self) -> bool {
        &&& self.graph.wf()
        &&& graph::acyclic(self.graph)
        &&& self.aliases.wf()
        &&& db_wf(self.rules@)
    }

    /// Every magic rule of the engine inspects at least one byte.
    pub open spec fn positive_extents(self) -> bool {
        forall|i: int, r: int|
            0 <= i < self.rules@.len() && 0 <= r < (#[trigger] self.rules@[i]).1.rules@.len()
                ==> ((#[trigger] self.rules@[i].1.rules@[r])@.extent()) >= 1
    }
}

/// What graph construction started from: the collected MIME list and the
/// collected, canonicalised subclass pairs.
pub ghost struct GraphInputs {
    pub mimes: Seq<String>,
    pub pairs: Seq<(String, String)>,
}

/// The label of graph node `c`.
pub open spec fn node_label(e: TypeStruct, c: int) -> Seq<u8> {
    label_bytes(e.graph.nodes@[c])
}

/// A byte-buffer query or a path query (the path already reduced to its kind
/// and the file's first bytes).
pub ghost enum QueryModel {
    Bytes(Seq<u8>),
    Path(FileKind, Seq<u8>),
}

/// The provider verdict for a canonical label, before any alias resolution:
/// the base-type provider answers for the five base types, the magic
/// provider for everything it has rules for, and nobody else.
pub open spec fn spec_match_noalias(e: TypeStruct, l: Seq<u8>, b: Seq<u8>) -> bool {
    if is_base_type(l) {
        spec_check_bytes(l, b)
    } else {
        spec_magic_check(e.rules@, l, b)
    }
}

/// The provider path verdict for a canonical label.
pub open spec fn spec_check_path_noalias(
    e: TypeStruct,
    l: Seq<u8>,
    kind: FileKind,
    prefix: Seq<u8>,
) -> bool {
    if is_base_type(l) {
        spec_check_path(l, kind, prefix)
    } else {
        kind == FileKind::Regular && spec_magic_check(e.rules@, l, prefix)
    }
}

/// The provider verdict for a query.
pub open spec fn spec_query_check(e: TypeStruct, l: Seq<u8>, q: QueryModel) -> bool {
    match q {
        QueryModel::Bytes(b) => spec_match_noalias(e, l, b),
        QueryModel::Path(kind, prefix) => spec_check_path_noalias(e, l, kind, prefix),
    }
}

/// What [`match_u8`] returns: the verdict for the canonical form of the label.
pub open spec fn spec_match_u8(e: TypeStruct, l: Seq<u8>, b: Seq<u8>) -> bool {
    spec_match_noalias(e, e.aliases.spec_canon(l), b)
}

/// What [`match_filepath`] returns.
pub open spec fn spec_match_filepath(
    e: TypeStruct,
    l: Seq<u8>,
    kind: FileKind,
    prefix: Seq<u8>,
) -> bool {
    spec_check_path_noalias(e, e.aliases.spec_canon(l), kind, prefix)
}

/// Two labels are aliases when either canonicalises to the other.
pub open spec fn spec_is_alias(e: TypeStruct, l1: Seq<u8>, l2: Seq<u8>) -> bool {
    e.aliases.spec_canon(l1) == l2 || e.aliases.spec_canon(l2) == l1
}

/// The children of `s` whose label is `l`, in their original order.
pub open spec fn keep_label(e: TypeStruct, s: Seq<usize>, l: Seq<u8>) -> Seq<usize>
    decreases s.len(),
{
    if s.len() == 0 {
        Seq::empty()
    } else {
        let rest = keep_label(e, s.drop_last(), l);
        if node_label(e, s.last() as int) == l {
            rest.push(s.last())
        } else {
            rest
        }
    }
}

/// Check these types first.
pub open spec fn is_priority(l: Seq<u8>) -> bool {
    ||| l == "image/png".spec_bytes()
    ||| l == "image/jpeg".spec_bytes()
    ||| l == "image/gif".spec_bytes()
    ||| l == "application/zip".spec_bytes()
    ||| l == "application/x-msdos-executable".spec_bytes()
    ||| l == "application/pdf".spec_bytes()
}

/// The children of `s` with no priority label, in their original order.
pub open spec fn keep_nonpriority(e: TypeStruct, s: Seq<usize>) -> Seq<usize>
    decreases s.len(),
{
    if s.len() == 0 {
        Seq::empty()
    } else {
        let rest = keep_nonpriority(e, s.drop_last());
        if !is_priority(node_label(e, s.last() as int)) {
            rest.push(s.last())
        } else {
            rest
        }
    }
}

/// Children reordered so that commonly-seen types are tried first, in
/// priority-list order, followed by the rest in their original order.
pub open spec fn spec_hoist(e: TypeStruct, s: Seq<usize>) -> Seq<usize> {
    keep_label(e, s, "image/png".spec_bytes()) + keep_label(e, s, "image/jpeg".spec_bytes())
        + keep_label(e, s, "image/gif".spec_bytes()) + keep_label(
        e,
        s,
        "application/zip".spec_bytes(),
    ) + keep_label(e, s, "application/x-msdos-executable".spec_bytes()) + keep_label(
        e,
        s,
        "application/pdf".spec_bytes(),
    ) + keep_nonpriority(e, s)
}

/// Walk the hoisted children: at the first child whose provider verdict is
/// true, descend; a deeper answer wins, else that child is the answer. The
/// fuel only bounds the recursion; the graph is acyclic, so a walk from any
/// node runs out of graph before it runs out of fuel when the fuel is the
/// node count.
pub open spec fn spec_walk_children(
    e: TypeStruct,
    children: Seq<usize>,
    q: QueryModel,
    fuel: nat,
) -> Option<Seq<u8>>
    decreases fuel, 0nat, children.len(),
{
    if children.len() == 0 {
        None
    } else {
        let c = children.first() as int;
        if 0 <= c < e.graph.nodes@.len() && spec_query_check(e, node_label(e, c), q) {
            let deeper = if fuel > 0 {
                spec_walker(e, c, q, (fuel - 1) as nat)
            } else {
                None
            };
            match deeper {
                Some(m) => Some(m),
                None => Some(node_label(e, c)),
            }
        } else {
            spec_walk_children(e, children.drop_first(), q, fuel)
        }
    }
}

/// The guided traversal from `node`: try its children, most common types
/// first, and return the deepest type whose whole ancestry matched.
pub open spec fn spec_walker(e: TypeStruct, node: int, q: QueryModel, fuel: nat) -> Option<
    Seq<u8>,
>
    decreases fuel, 1nat, 0nat,
{
    if 0 <= node < e.graph.edges@.len() {
        spec_walk_children(e, spec_hoist(e, e.graph.edges@[node]@), q, fuel)
    } else {
        None
    }
}

/// What [`from_u8_node`] returns.
pub open spec fn spec_from_u8_node(e: TypeStruct, node: int, b: Seq<u8>) -> Option<Seq<u8>> {
    spec_walker(e, node, QueryModel::Bytes(b), e.graph.nodes@.len() as nat)
}

/// What [`from_filepath_node`] returns: anything that is not a regular file
/// is walked with per-type path checks (so a directory can resolve to
/// `inode/directory`); a regular file's first bytes are walked as a buffer.
pub open spec fn spec_from_filepath_node(
    e: TypeStruct,
    node: int,
    kind: FileKind,
    prefix: Seq<u8>,
) -> Option<Seq<u8>> {
    if !spec_match_filepath(e, "application/octet-stream".spec_bytes(), kind, prefix) {
        spec_walker(e, node, QueryModel::Path(kind, prefix), e.graph.nodes@.len() as nat)
    } else {
        spec_walker(e, node, QueryModel::Bytes(prefix), e.graph.nodes@.len() as nat)
    }
}

/// Internal function. Checks which provider declares the MIME and runs its
/// byte check; an undeclared MIME never matches.
pub fn match_u8_noalias(e: &TypeStruct, mimetype: &str, bytes: &[u8]) -> (r: bool)
    requires
        e.wf(),
    ensures
        r == spec_match_noalias(*e, mimetype.spec_bytes(), bytes@),
{
    if basetype::can_check(mimetype) {
        basetype::from_u8(bytes, mimetype)
    } else {
        fdo_magic::check::from_u8(bytes, mimetype, &e.rules)
    }
}

/// Internal function. As [`match_u8_noalias`], for a path query.
pub fn match_filepath_noalias(e: &TypeStruct, mimetype: &str, kind: FileKind, prefix: &[u8]) -> (r:
    bool)
    requires
        e.wf(),
    ensures
        r == spec_check_path_noalias(*e, mimetype.spec_bytes(), kind, prefix@),
{
    if basetype::can_check(mimetype) {
        basetype::from_filepath(kind, prefix, mimetype)
    } else {
        fdo_magic::check::from_filepath(kind, prefix, mimetype, &e.rules)
    }
}

/// Checks if the given bytestream matches the given MIME type. An unknown
/// MIME never matches; an alias is checked as its canonical type.
pub fn match_u8(e: &TypeStruct, mimetype: &str, bytes: &[u8]) -> (r: bool)
    requires
        e.wf(),
    ensures
        r == spec_match_u8(*e, mimetype.spec_bytes(), bytes@),
{
    let owned = label_from(mimetype);
    let canon = e.aliases.get_alias(&owned);
    match_u8_noalias(e, bytes::as_label_str(canon), bytes)
}

/// Check if the given path (already reduced to its kind and first bytes)
/// matches the given MIME type.
pub fn match_filepath(e: &TypeStruct, mimetype: &str, kind: FileKind, prefix: &[u8]) -> (r: bool)
    requires
        e.wf(),
    ensures
        r == spec_match_filepath(*e, mimetype.spec_bytes(), kind, prefix@),
{
    let owned = label_from(mimetype);
    let canon = e.aliases.get_alias(&owned);
    match_filepath_noalias(e, bytes::as_label_str(canon), kind, prefix)
}

/// Append the children of `node` whose label is `lbl`.
fn push_matching(e: &TypeStruct, node: usize, lbl: &str, acc: &mut Vec<usize>)
    requires
        e.wf(),
        node < e.graph.nodes@.len(),
        forall|j: int| 0 <= j < old(acc)@.len() ==> ((#[trigger] old(acc)@[j]) as int) < e.graph.nodes@.len(),
    ensures
        final(acc)@ == old(acc)@ + keep_label(*e, e.graph.edges@[node as int]@, lbl.spec_bytes()),
        forall|j: int| 0 <= j < final(acc)@.len() ==> ((#[trigger] final(acc)@[j]) as int) < e.graph.nodes@.len(),
{
    let ghost s = e.graph.edges@[node as int]@;
    let deg = e.graph.edges[node].len();
    let mut j: usize = 0;
    proof {
        assert(s.take(0) =~= Seq::<usize>::empty());
        assert(old(acc)@ + keep_label(*e, s.take(0), lbl.spec_bytes()) =~= old(acc)@);
    }
    while j < deg
        invariant
            e.wf(),
            node < e.graph.nodes@.len(),
            s == e.graph.edges@[node as int]@,
            deg == s.len(),
            0 <= j <= deg,
            acc@ == old(acc)@ + keep_label(*e, s.take(j as int), lbl.spec_bytes()),
            forall|q: int| 0 <= q < acc@.len() ==> ((#[trigger] acc@[q]) as int) < e.graph.nodes@.len(),
        decreases deg - j,
    {
        let c = e.graph.edges[node][j];
        proof {
            assert(s.take(j as int + 1).drop_last() =~= s.take(j as int));
            assert(s.take(j as int + 1).last() == s[j as int]);
        }
        if bytes::label_eq(&e.graph.nodes[c], lbl) {
            acc.push(c);
            proof {
                assert(acc@ =~= old(acc)@ + keep_label(*e, s.take(j as int + 1), lbl.spec_bytes()));
            }
        }
        j += 1;
    }
    proof {
        assert(s.take(deg as int) =~= s);
    }
}

/// Append the children of `node` with no priority label.
fn push_nonpriority(e: &TypeStruct, node: usize, acc: &mut Vec<usize>)
    requires
        e.wf(),
        node < e.graph.nodes@.len(),
        forall|j: int| 0 <= j < old(acc)@.len() ==> ((#[trigger] old(acc)@[j]) as int) < e.graph.nodes@.len(),
    ensures
        final(acc)@ == old(acc)@ + keep_nonpriority(*e, e.graph.edges@[node as int]@),
        forall|j: int| 0 <= j < final(acc)@.len() ==> ((#[trigger] final(acc)@[j]) as int) < e.graph.nodes@.len(),
{
    let ghost s = e.graph.edges@[node as int]@;
    let deg = e.graph.edges[node].len();
    let mut j: usize = 0;
    proof {
        assert(s.take(0) =~= Seq::<usize>::empty());
        assert(old(acc)@ + keep_nonpriority(*e, s.take(0)) =~= old(acc)@);
    }
    while j < deg
        invariant
            e.wf(),
            node < e.graph.nodes@.len(),
            s == e.graph.edges@[node as int]@,
            deg == s.len(),
            0 <= j <= deg,
            acc@ == old(acc)@ + keep_nonpriority(*e, s.take(j as int)),
            forall|q: int| 0 <= q < acc@.len() ==> ((#[trigger] acc@[q]) as int) < e.graph.nodes@.len(),
        decreases deg - j,
    {
        let c = e.graph.edges[node][j];
        proof {
            assert(s.take(j as int + 1).drop_last() =~= s.take(j as int));
            assert(s.take(j as int + 1).last() == s[j as int]);
        }
        let pri = bytes::label_eq(&e.graph.nodes[c], "image/png") || bytes::label_eq(
            &e.graph.nodes[c],
            "image/jpeg",
        ) || bytes::label_eq(&e.graph.nodes[c], "image/gif") || bytes::label_eq(
            &e.graph.nodes[c],
            "application/zip",
        ) || bytes::label_eq(&e.graph.nodes[c], "application/x-msdos-executable")
            || bytes::label_eq(&e.graph.nodes[c], "application/pdf");
        if !pri {
            acc.push(c);
            proof {
                assert(acc@ =~= old(acc)@ + keep_nonpriority(*e, s.take(j as int + 1)));
            }
        }
        j += 1;
    }
    proof {
        assert(s.take(deg as int) =~= s);
    }
}

/// The children of `node`, most common types first.
fn hoist_children(e: &TypeStruct, node: usize) -> (r: Vec<usize>)
    requires
        e.wf(),
        node < e.graph.nodes@.len(),
    ensures
        r@ == spec_hoist(*e, e.graph.edges@[node as int]@),
        forall|j: int| 0 <= j < r@.len() ==> ((#[trigger] r@[j]) as int) < e.graph.nodes@.len(),
{
    let mut acc: Vec<usize> = Vec::new();
    push_matching(e, node, "image/png", &mut acc);
    push_matching(e, node, "image/jpeg", &mut acc);
    push_matching(e, node, "image/gif", &mut acc);
    push_matching(e, node, "application/zip", &mut acc);
    push_matching(e, node, "application/x-msdos-executable", &mut acc);
    push_matching(e, node, "application/pdf", &mut acc);
    push_nonpriority(e, node, &mut acc);
    proof {
        let s = e.graph.edges@[node as int]@;
        assert(acc@ =~= spec_hoist(*e, s));
    }
    acc
}

/// Just the part of the queries that walks the graph. `fuel` bounds the
/// recursion depth; the public entry points pass the node count, which an
/// acyclic graph never exhausts.
pub fn typegraph_walker(
    e: &TypeStruct,
    parentnode: usize,
    pathq: bool,
    kind: FileKind,
    input: &[u8],
    fuel: usize,
) -> (r: Option<String>)
    requires
        e.wf(),
        parentnode < e.graph.nodes@.len(),
    ensures
        ({
            let q = if pathq {
                QueryModel::Path(kind, input@)
            } else {
                QueryModel::Bytes(input@)
            };
            match r {
                None => spec_walker(*e, parentnode as int, q, fuel as nat) is None,
                Some(m) => spec_walker(*e, parentnode as int, q, fuel as nat) == Some(
                    label_bytes(m),
                ),
            }
        }),
    decreases fuel, 1int,
{
    let ghost q = if pathq {
        QueryModel::Path(kind, input@)
    } else {
        QueryModel::Bytes(input@)
    };
    let children = hoist_children(e, parentnode);
    let n = children.len();
    let mut j: usize = 0;
    proof {
        assert(children@.skip(0) =~= children@);
    }
    while j < n
        invariant
            e.wf(),
            parentnode < e.graph.nodes@.len(),
            q == (if pathq {
                QueryModel::Path(kind, input@)
            } else {
                QueryModel::Bytes(input@)
            }),
            children@ == spec_hoist(*e, e.graph.edges@[parentnode as int]@),
            forall|q2: int|
                0 <= q2 < children@.len() ==> ((#[trigger] children@[q2]) as int)
                    < e.graph.nodes@.len(),
            n == children@.len(),
            0 <= j <= n,
            spec_walk_children(*e, children@, q, fuel as nat) == spec_walk_children(
                *e,
                children@.skip(j as int),
                q,
                fuel as nat,
            ),
        decreases fuel, 0int, n - j,
    {
        let c = children[j];
        proof {
            assert(children@.skip(j as int).first() == children@[j as int]);
        }
        let matched = if pathq {
            match_filepath_noalias(e, bytes::as_label_str(&e.graph.nodes[c]), kind, input)
        } else {
            match_u8_noalias(e, bytes::as_label_str(&e.graph.nodes[c]), input)
        };
        if matched {
            let deeper = if fuel == 0 {
                None
            } else {
                typegraph_walker(e, c, pathq, kind, input, fuel - 1)
            };
            match deeper {
                Some(m) => {
                    return Some(m);
                },
                None => {
                    return Some(label_clone(&e.graph.nodes[c]));
                },
            }
        }
        proof {
            assert(children@.skip(j as int).drop_first() =~= children@.skip(j as int + 1));
        }
        j += 1;
    }
    proof {
        assert(children@.skip(n as int) =~= Seq::<usize>::empty());
    }
    None
}

/// Gets the type of a file from a raw bytestream, starting at a certain node
/// in the type graph: `Some` of the deepest matching type under that node,
/// or `None` when no child matches.
pub fn from_u8_node(e: &TypeStruct, parentnode: usize, bytes: &[u8]) -> (r: Option<String>)
    requires
        e.wf(),
        parentnode < e.graph.nodes@.len(),
    ensures
        match r {
            None => spec_from_u8_node(*e, parentnode as int, bytes@) is None,
            Some(m) => spec_from_u8_node(*e, parentnode as int, bytes@) == Some(label_bytes(m)),
        },
{
    typegraph_walker(e, parentnode, false, FileKind::Missing, bytes, e.graph.nodes.len())
}

/// Gets the type of a file from a byte stream, walking from the graph root.
pub fn from_u8(e: &TypeStruct, bytes: &[u8]) -> (r: String)
    requires
        e.wf(),
        first_root_from(e.graph, 0) is Some,
        spec_from_u8_node(*e, first_root_from(e.graph, 0)->Some_0, bytes@) is Some,
    ensures
        Some(label_bytes(r)) == spec_from_u8_node(*e, first_root_from(e.graph, 0)->Some_0, bytes@),
{
    let root = e.graph.first_root();
    let node = match root {
        Some(x) => x,
        None => {
            proof {
                assert(false);
            }
            0
        },
    };
    let out = from_u8_node(e, node, bytes);
    match out {
        Some(m) => m,
        None => {
            proof {
                assert(false);
            }
            String::new()
        },
    }
}

/// Gets the type of a file from a path, starting at a certain node: a path
/// that is not a regular file is walked with per-type path checks; a regular
/// file's first bytes are walked as a buffer.
pub fn from_filepath_node(e: &TypeStruct, parentnode: usize, kind: FileKind, prefix: &[u8]) -> (r:
    Option<String>)
    requires
        e.wf(),
        parentnode < e.graph.nodes@.len(),
    ensures
        match r {
            None => spec_from_filepath_node(*e, parentnode as int, kind, prefix@) is None,
            Some(m) => spec_from_filepath_node(*e, parentnode as int, kind, prefix@) == Some(
                label_bytes(m),
            ),
        },
{
    if !match_filepath(e, "application/octet-stream", kind, prefix) {
        typegraph_walker(e, parentnode, true, kind, prefix, e.graph.nodes.len())
    } else {
        typegraph_walker(e, parentnode, false, kind, prefix, e.graph.nodes.len())
    }
}

/// Gets the type of a file from a path, walking from the graph root.
pub fn from_filepath(e: &TypeStruct, kind: FileKind, prefix: &[u8]) -> (r: String)
    requires
        e.wf(),
        first_root_from(e.graph, 0) is Some,
        spec_from_filepath_node(
            *e,
            first_root_from(e.graph, 0)->Some_0,
            kind,
            prefix@,
        ) is Some,
    ensures
        Some(label_bytes(r)) == spec_from_filepath_node(
            *e,
            first_root_from(e.graph, 0)->Some_0,
            kind,
            prefix@,
        ),
{
    let root = e.graph.first_root();
    let node = match root {
        Some(x) => x,
        None => {
            proof {
                assert(false);
            }
            0
        },
    };
    let out = from_filepath_node(e, node, kind, prefix);
    match out {
        Some(m) => m,
        None => {
            proof {
                assert(false);
            }
            String::new()
        },
    }
}

/// Determines if a MIME is an alias of another MIME: true when either
/// canonicalises to the other.
pub fn is_alias(e: &TypeStruct, mime1: String, mime2: String) -> (r: bool)
    requires
        e.wf(),
    ensures
        r == spec_is_alias(*e, label_bytes(mime1), label_bytes(mime2)),
{
    let x = e.aliases.get_alias(&mime1);
    if bytes::labels_eq(x, &mime2) {
        return true;
    }
    let y = e.aliases.get_alias(&mime2);
    bytes::labels_eq(y, &mime1)
}

/// How many leading bytes of a file [`match_filepath`] consults for this
/// MIME: 512 for the base types' text heuristic, a rule tree's scan length
/// for a magic type, nothing for an unknown type.
pub open spec fn spec_needed_len(e: TypeStruct, l: Seq<u8>) -> int {
    let c = e.aliases.spec_canon(l);
    if is_base_type(c) {
        512
    } else if fdo_magic::ruleset::db_covers_label(e.rules@, c) {
        fdo_magic::check::db_tree_of(e.rules@, c).spec_scan_len()
    } else {
        0
    }
}

/// The bounded read a path query needs for one MIME.
pub fn needed_prefix_len(e: &TypeStruct, mimetype: &str) -> (r: u64)
    requires
        e.wf(),
    ensures
        r == spec_needed_len(*e, mimetype.spec_bytes()),
{
    let owned = label_from(mimetype);
    let canon = e.aliases.get_alias(&owned);
    let canon_str = bytes::as_label_str(canon);
    if basetype::can_check(canon_str) {
        512
    } else {
        let n = e.rules.len();
        let mut i: usize = 0;
        while i < n
            invariant
                e.wf(),
                n == e.rules@.len(),
                0 <= i <= n,
                canon_str.spec_bytes() == e.aliases.spec_canon(mimetype.spec_bytes()),
                !is_base_type(canon_str.spec_bytes()),
                forall|q: int|
                    0 <= q < i ==> label_bytes((#[trigger] e.rules@[q]).0)
                        != canon_str.spec_bytes(),
            decreases n - i,
        {
            if bytes::label_eq(&e.rules[i].0, canon_str) {
                proof {
                    assert(fdo_magic::ruleset::db_covers_label(
                        e.rules@,
                        canon_str.spec_bytes(),
                    ));
                    fdo_magic::check::lemma_db_lookup(e.rules@, canon_str.spec_bytes());
                }
                return fdo_magic::check::scan_len(&e.rules[i].1);
            }
            i += 1;
        }
        proof {
            if fdo_magic::ruleset::db_covers_label(e.rules@, canon_str.spec_bytes()) {
                let q = choose|q: int|
                    0 <= q < e.rules@.len() && label_bytes((#[trigger] e.rules@[q]).0)
                        == canon_str.spec_bytes();
                assert(false);
            }
        }
        0
    }
}

/// Initialize the engine: parse the compiled magic data, the subclass table
/// and the alias table, and build the type graph from the magic provider's
/// types and pairs together with the base provider's.
pub fn graph_init(magic_bytes: &[u8], subclass_bytes: &[u8], alias_bytes: &[u8]) -> (r: (
    TypeStruct,
    Ghost<GraphInputs>,
))
    ensures
        r.0.wf(),
        graph::build_post(r.0.graph, r.1@.mimes, r.1@.pairs),
        // the merged alias map is the alias table's effective bindings
        forall|x: Seq<u8>, y: Seq<u8>|
            #[trigger] alias::maps_to(r.0.aliases.entries@, x, y) <==> (alias::raw_maps(
                fdo_magic::init::spec_parse_pairs(alias_bytes@, 0),
                x,
                y,
            ) && !alias::raw_key(fdo_magic::init::spec_parse_pairs(alias_bytes@, 0), y)),
        // the rule database is the parsed magic data, or empty on a bad header
        match fdo_magic::ruleset::spec_parse_ruleset(magic_bytes@) {
            Some(entries) => fdo_magic::ruleset::db_represents(r.0.rules@, entries),
            None => r.0.rules@.len() == 0,
        },
        // the graph was built over the magic types and the base types
        r.1@.mimes.len() == r.0.rules@.len() + 5,
        forall|i: int|
            0 <= i < r.0.rules@.len() ==> label_bytes(#[trigger] r.1@.mimes[i]) == label_bytes(
                r.0.rules@[i].0,
            ),
        label_bytes(r.1@.mimes[r.0.rules@.len() as int]) == "all/all".spec_bytes(),
        label_bytes(r.1@.mimes[r.0.rules@.len() as int + 1]) == "all/allfiles".spec_bytes(),
        label_bytes(r.1@.mimes[r.0.rules@.len() as int + 2]) == "inode/directory".spec_bytes(),
        label_bytes(r.1@.mimes[r.0.rules@.len() as int + 3]) == "text/plain".spec_bytes(),
        label_bytes(r.1@.mimes[r.0.rules@.len() as int + 4]) == "application/octet-stream".spec_bytes(),
        // the pairs are the canonicalised subclass table followed by the
        // base provider's chain
        ({
            let parsed = fdo_magic::init::spec_parse_pairs(subclass_bytes@, 0);
            &&& r.1@.pairs.len() == parsed.len() + 4
            &&& forall|k: int|
                0 <= k < parsed.len() ==> label_bytes((#[trigger] r.1@.pairs[k]).0)
                    == r.0.aliases.spec_canon((#[trigger] parsed[k]).0) && label_bytes(
                    r.1@.pairs[k].1,
                ) == r.0.aliases.spec_canon(parsed[k].1)
            &&& label_bytes(r.1@.pairs[parsed.len() as int].0) == "all/allfiles".spec_bytes()
                && label_bytes(r.1@.pairs[parsed.len() as int].1) == "all/all".spec_bytes()
            &&& label_bytes(r.1@.pairs[parsed.len() as int + 1].0) == "inode/directory".spec_bytes()
                && label_bytes(r.1@.pairs[parsed.len() as int + 1].1) == "all/all".spec_bytes()
            &&& label_bytes(r.1@.pairs[parsed.len() as int + 2].0)
                == "application/octet-stream".spec_bytes() && label_bytes(
                r.1@.pairs[parsed.len() as int + 2].1,
            ) == "all/allfiles".spec_bytes()
            &&& label_bytes(r.1@.pairs[parsed.len() as int + 3].0) == "text/plain".spec_bytes()
                && label_bytes(r.1@.pairs[parsed.len() as int + 3].1)
                == "application/octet-stream".spec_bytes()
            &&& graph::base_pairs_in(r.1@.pairs)
        }),
{
    let aliases = fdo_magic::init::get_aliaslist(alias_bytes);
    let rules: Vec<(String, RuleTree)> = match fdo_magic::ruleset::from_u8(magic_bytes) {
        Ok(db) => db,
        Err(_) => Vec::new(),
    };
    let mut pairs = fdo_magic::init::get_subclasses(subclass_bytes, &aliases);
    let mut base_pairs = basetype::get_subclasses();
    let ghost n_parsed: int = pairs@.len() as int;
    pairs.append(&mut base_pairs);
    let mut mimes = fdo_magic::init::get_supported(&rules);
    let mut base_mimes = basetype::get_supported();
    mimes.append(&mut base_mimes);
    let g = TypeGraph::build(&mimes, &pairs);
    let ghost inputs = GraphInputs { mimes: mimes@, pairs: pairs@ };
    let e = TypeStruct { graph: g, rules, aliases };
    proof {
        let parsed = fdo_magic::init::spec_parse_pairs(subclass_bytes@, 0);
        assert(graph::pair_in(
            inputs.pairs,
            "all/allfiles".spec_bytes(),
            "all/all".spec_bytes(),
        )) by {
            assert(label_bytes(inputs.pairs[n_parsed as int].0) == "all/allfiles".spec_bytes()
                && label_bytes(inputs.pairs[n_parsed as int].1) == "all/all".spec_bytes());
        }
        assert(graph::pair_in(
            inputs.pairs,
            "application/octet-stream".spec_bytes(),
            "all/allfiles".spec_bytes(),
        )) by {
            assert(label_bytes(inputs.pairs[n_parsed + 2].0)
                == "application/octet-stream".spec_bytes() && label_bytes(
                inputs.pairs[n_parsed + 2].1,
            ) == "all/allfiles".spec_bytes());
        }
        assert(graph::pair_in(
            inputs.pairs,
            "text/plain".spec_bytes(),
            "application/octet-stream".spec_bytes(),
        )) by {
            assert(label_bytes(inputs.pairs[n_parsed + 3].0) == "text/plain".spec_bytes()
                && label_bytes(inputs.pairs[n_parsed + 3].1)
                == "application/octet-stream".spec_bytes());
        }
    }
    (e, Ghost(inputs))
}

/// Law: alias equivalence is symmetric.
pub proof fn lemma_is_alias_symmetric(e: TypeStruct, l1: Seq<u8>, l2: Seq<u8>)
    ensures
        spec_is_alias(e, l1, l2) == spec_is_alias(e, l2, l1),
{
}

/// Law: a canonical label is an alias of itself. (An alias key is not: its
/// canonical form differs from it, and [`is_alias`] compares canonical
/// forms against the other label as given.)
pub proof fn lemma_is_alias_refl(e: TypeStruct, l: Seq<u8>)
    requires
        e.aliases.spec_canon(l) == l,
    ensures
        spec_is_alias(e, l, l),
{
}

/// Law: aliased labels match exactly the same buffers.
pub proof fn lemma_alias_same_matches(e: TypeStruct, l1: Seq<u8>, l2: Seq<u8>, b: Seq<u8>)
    requires
        e.wf(),
        spec_is_alias(e, l1, l2),
    ensures
        spec_match_u8(e, l1, b) == spec_match_u8(e, l2, b),
{
    alias::lemma_canon_idempotent(e.aliases, l1);
    alias::lemma_canon_idempotent(e.aliases, l2);
}

/// Law: a buffer with no zero byte matches `text/plain`, and one with a zero
/// byte does not — provided the alias table leaves `text/plain` canonical.
pub proof fn lemma_text_plain_matches(e: TypeStruct, b: Seq<u8>)
    requires
        e.wf(),
        e.aliases.spec_canon("text/plain".spec_bytes()) == "text/plain".spec_bytes(),
    ensures
        spec_match_u8(e, "text/plain".spec_bytes(), b) == no_null_bytes(b),
{
    graph::lemma_base_labels_distinct();
}

/// Law (subclass monotonicity): when a buffer matches a type whose node has
/// parent `p` in the type graph, the buffer also matches the parent — at the
/// two binary anchors, the parents whose byte check holds of every buffer.
/// (A magic-ruled parent or `text/plain` gives no such guarantee: a child
/// signature does not imply the parent's.)
pub proof fn lemma_subclass_monotone(e: TypeStruct, m: Seq<u8>, p: int, b: Seq<u8>)
    requires
        e.wf(),
        spec_match_u8(e, m, b),
        e.graph.has_edge(p, graph::idx_of(e.graph, e.aliases.spec_canon(m))),
        0 <= p < e.graph.nodes@.len(),
        node_label(e, p) == "application/octet-stream".spec_bytes() || node_label(e, p)
            == "all/allfiles".spec_bytes(),
        e.aliases.spec_canon(node_label(e, p)) == node_label(e, p),
    ensures
        spec_match_u8(e, node_label(e, p), b),
{
}

/// On an empty buffer the only types any provider confirms are the two
/// binary anchors and `text/plain` (every magic rule inspects at least one
/// byte).
proof fn lemma_empty_check_labels(e: TypeStruct, l: Seq<u8>)
    requires
        e.wf(),
        e.positive_extents(),
        spec_match_noalias(e, l, Seq::<u8>::empty()),
    ensures
        l == "all/allfiles".spec_bytes() || l == "application/octet-stream".spec_bytes() || l
            == "text/plain".spec_bytes(),
{
    if !is_base_type(l) {
        let db = e.rules@;
        assert(fdo_magic::ruleset::db_covers_label(db, l));
        let i = choose|i: int| 0 <= i < db.len() && label_bytes((#[trigger] db[i]).0) == l;
        fdo_magic::check::lemma_db_lookup(db, l);
        let t = fdo_magic::check::db_tree_of(db, l);
        assert(t == db[i].1);
        assert(t.tree_matches(Seq::<u8>::empty()));
        let k = choose|k: int|
            0 <= k < t.roots@.len() && t.node_matches(t.roots@[k] as int, Seq::<u8>::empty());
        let root = t.roots@[k] as int;
        assert(fdo_magic::rule_matches(Seq::<u8>::empty(), t.rules@[root]@));
        assert((#[trigger] e.rules@[i].1.rules@[root])@.extent() >= 1);
        assert(false);
    }
}

/// Whatever the walk of a byte query returns, some provider confirmed it.
proof fn lemma_walk_children_member(e: TypeStruct, children: Seq<usize>, b: Seq<u8>, fuel: nat)
    requires
        e.wf(),
    ensures
        match spec_walk_children(e, children, QueryModel::Bytes(b), fuel) {
            Some(m) => spec_match_noalias(e, m, b),
            None => true,
        },
    decreases fuel, 0nat, children.len(),
{
    if children.len() > 0 {
        let c = children.first() as int;
        if 0 <= c < e.graph.nodes@.len() && spec_query_check(
            e,
            node_label(e, c),
            QueryModel::Bytes(b),
        ) {
            if fuel > 0 {
                lemma_walker_member(e, c, b, (fuel - 1) as nat);
            }
        } else {
            lemma_walk_children_member(e, children.drop_first(), b, fuel);
        }
    }
}

proof fn lemma_walker_member(e: TypeStruct, node: int, b: Seq<u8>, fuel: nat)
    requires
        e.wf(),
    ensures
        match spec_walker(e, node, QueryModel::Bytes(b), fuel) {
            Some(m) => spec_match_noalias(e, m, b),
            None => true,
        },
    decreases fuel, 1nat, 0nat,
{
    if 0 <= node < e.graph.edges@.len() {
        lemma_walk_children_member(e, spec_hoist(e, e.graph.edges@[node]@), b, fuel);
    }
}

/// A child list with a confirmed member makes the walk return an answer.
proof fn lemma_walk_children_finds(e: TypeStruct, children: Seq<usize>, q: QueryModel, fuel: nat)
    requires
        exists|j: int|
            0 <= j < children.len() && 0 <= ((#[trigger] children[j]) as int)
                < e.graph.nodes@.len() && spec_query_check(e, node_label(e, children[j] as int), q),
    ensures
        spec_walk_children(e, children, q, fuel) is Some,
    decreases children.len(),
{
    let j = choose|j: int|
        0 <= j < children.len() && 0 <= ((#[trigger] children[j]) as int) < e.graph.nodes@.len()
            && spec_query_check(e, node_label(e, children[j] as int), q);
    let c = children.first() as int;
    if 0 <= c < e.graph.nodes@.len() && spec_query_check(e, node_label(e, c), q) {
    } else {
        assert(j != 0);
        assert(children.drop_first()[j - 1] == children[j]);
        lemma_walk_children_finds(e, children.drop_first(), q, fuel);
    }
}

/// Any child of the original list that carries no priority label appears in
/// the non-priority tail of the hoisted list.
proof fn lemma_keep_nonpriority_contains(e: TypeStruct, s: Seq<usize>, j: int)
    requires
        0 <= j < s.len(),
        !is_priority(node_label(e, s[j] as int)),
    ensures
        exists|j2: int|
            0 <= j2 < keep_nonpriority(e, s).len() && #[trigger] keep_nonpriority(e, s)[j2]
                == s[j],
    decreases s.len(),
{
    if j == s.len() - 1 {
        let r = keep_nonpriority(e, s);
        assert(r.last() == s[j]);
        assert(r[r.len() - 1] == s[j]);
    } else {
        assert(s.drop_last()[j] == s[j]);
        lemma_keep_nonpriority_contains(e, s.drop_last(), j);
        let rest = keep_nonpriority(e, s.drop_last());
        let j2 = choose|j2: int| 0 <= j2 < rest.len() && #[trigger] rest[j2] == s[j];
        assert(keep_nonpriority(e, s)[j2] == s[j]);
    }
}

/// The six priority labels, by length, so that other labels can be told
/// apart from them.
proof fn lemma_priority_label_lengths()
    ensures
        "image/png".spec_bytes().len() == 9,
        "image/jpeg".spec_bytes().len() == 10,
        "image/gif".spec_bytes().len() == 9,
        "application/zip".spec_bytes().len() == 15,
        "application/x-msdos-executable".spec_bytes().len() == 30,
        "application/pdf".spec_bytes().len() == 15,
        "image/png".spec_bytes()[6] == 112,
        "image/gif".spec_bytes()[6] == 103,
        "application/zip".spec_bytes()[12] == 122,
        "application/pdf".spec_bytes()[12] == 112,
{
    reveal_strlit("image/png");
    reveal_strlit("image/jpeg");
    reveal_strlit("image/gif");
    reveal_strlit("application/zip");
    reveal_strlit("application/x-msdos-executable");
    reveal_strlit("application/pdf");
    assert(vstd::utf8::is_ascii_chars("image/png"@));
    assert(vstd::utf8::is_ascii_chars("image/jpeg"@));
    assert(vstd::utf8::is_ascii_chars("image/gif"@));
    assert(vstd::utf8::is_ascii_chars("application/zip"@));
    assert(vstd::utf8::is_ascii_chars("application/x-msdos-executable"@));
    assert(vstd::utf8::is_ascii_chars("application/pdf"@));
    vstd::utf8::is_ascii_chars_encode_utf8("image/png"@);
    vstd::utf8::is_ascii_chars_encode_utf8("image/jpeg"@);
    vstd::utf8::is_ascii_chars_encode_utf8("image/gif"@);
    vstd::utf8::is_ascii_chars_encode_utf8("application/zip"@);
    vstd::utf8::is_ascii_chars_encode_utf8("application/x-msdos-executable"@);
    vstd::utf8::is_ascii_chars_encode_utf8("application/pdf"@);
}

/// Law: identifying an empty byte buffer from the graph root succeeds, and
/// the answer is one of the four byte-checkable base types — for any engine
/// whose subclass pairs keep the anchor chain intact and whose magic rules
/// all inspect at least one byte.
pub proof fn lemma_identify_empty(e: TypeStruct, mimes: Seq<String>, pairs: Seq<(String, String)>)
    requires
        e.wf(),
        graph::build_post(e.graph, mimes, pairs),
        graph::anchors_chained(pairs),
        graph::base_pairs_in(pairs),
        e.positive_extents(),
    ensures
        first_root_from(e.graph, 0) is Some,
        ({
            let r = spec_from_u8_node(e, first_root_from(e.graph, 0)->Some_0, Seq::<u8>::empty());
            &&& r is Some
            &&& (r->Some_0 == "all/all".spec_bytes() || r->Some_0 == "all/allfiles".spec_bytes()
                || r->Some_0 == "application/octet-stream".spec_bytes() || r->Some_0
                == "text/plain".spec_bytes())
        }),
{
    graph::lemma_unique_root(e.graph, mimes, pairs);
    graph::lemma_base_labels_distinct();
    lemma_priority_label_lengths();
    let g = e.graph;
    let ra = graph::idx_of(g, "all/all".spec_bytes());
    let rf = graph::idx_of(g, "all/allfiles".spec_bytes());
    graph::lemma_idx_of(g, "all/all".spec_bytes());
    graph::lemma_idx_of(g, "all/allfiles".spec_bytes());
    graph::lemma_first_root_unique(g, ra);
    // all/allfiles is a child of the root, survives hoisting, and an empty
    // buffer confirms it
    let s = g.edges@[ra];
    let je = choose|je: int| 0 <= je < s@.len() && ((#[trigger] s@[je]) as int) == rf;
    assert(node_label(e, s@[je] as int) == "all/allfiles".spec_bytes());
    assert(!is_priority("all/allfiles".spec_bytes()));
    lemma_keep_nonpriority_contains(e, s@, je);
    let tail = keep_nonpriority(e, s@);
    let j2 = choose|j2: int| 0 <= j2 < tail.len() && #[trigger] tail[j2] == s@[je];
    let hoisted = spec_hoist(e, s@);
    let ghost front = keep_label(e, s@, "image/png".spec_bytes()) + keep_label(
        e,
        s@,
        "image/jpeg".spec_bytes(),
    ) + keep_label(e, s@, "image/gif".spec_bytes()) + keep_label(
        e,
        s@,
        "application/zip".spec_bytes(),
    ) + keep_label(e, s@, "application/x-msdos-executable".spec_bytes()) + keep_label(
        e,
        s@,
        "application/pdf".spec_bytes(),
    );
    assert(hoisted == front + tail);
    assert(hoisted[front.len() + j2] == tail[j2]);
    let jh = front.len() + j2;
    assert(0 <= jh < hoisted.len() && 0 <= ((hoisted[jh]) as int) < g.nodes@.len()
        && spec_query_check(
        e,
        node_label(e, hoisted[jh] as int),
        QueryModel::Bytes(Seq::<u8>::empty()),
    ));
    let fuel = g.nodes@.len() as nat;
    lemma_walk_children_finds(e, hoisted, QueryModel::Bytes(Seq::<u8>::empty()), fuel);
    assert(spec_walker(e, ra, QueryModel::Bytes(Seq::<u8>::empty()), fuel) is Some);
    lemma_walker_member(e, ra, Seq::<u8>::empty(), fuel);
    let m = spec_walker(e, ra, QueryModel::Bytes(Seq::<u8>::empty()), fuel)->Some_0;
    lemma_empty_check_labels(e, m);
}

/// Law: identification is deterministic — within one process and engine, any
/// two results that satisfy the walk's contract for the same buffer carry
/// the same label.
pub proof fn lemma_identify_deterministic(
    e: TypeStruct,
    node: int,
    b: Seq<u8>,
    r1: Option<Seq<u8>>,
    r2: Option<Seq<u8>>,
)
    requires
        r1 == spec_from_u8_node(e, node, b),
        r2 == spec_from_u8_node(e, node, b),
    ensures
        r1 == r2,
{
}

} // verus!
