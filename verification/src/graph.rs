//! The global MIME subclass graph: canonical labels as nodes, parent → child
//! edges, acyclic by construction.

use vstd::prelude::*;

use crate::bytes::label_bytes;

verus! {

use vstd::string::StringSliceAdditionalSpecFns;
use vstd::utf8::{is_ascii_chars, is_ascii_chars_encode_utf8};

/// The subclass graph. `edges[p]` lists the children of node `p`, in the
/// order their edges were added.
pub struct TypeGraph {
    pub nodes: Vec<String>,
    pub edges: Vec<Vec<usize>>,
}

impl TypeGraph {
    /// One child list per node, edge targets in range, labels distinct.
    pub open spec fn wf(self) -> bool {
        &&& self.edges@.len() == self.nodes@.len()
        &&& forall|p: int, j: int|
            0 <= p < self.edges@.len() && 0 <= j < self.edges@[p]@.len() ==> ((
            #[trigger] self.edges@[p]@[j]) as int) < self.nodes@.len()
        &&& forall|a: int, b: int|
            0 <= a < b < self.nodes@.len() ==> label_bytes(self.nodes@[a]) != label_bytes(
                self.nodes@[b],
            )
    }

    /// There is an edge from parent `p` to child `c`.
    pub open spec fn has_edge(self, p: int, c: int) -> bool {
        &&& 0 <= p < self.edges@.len()
        &&& exists|j: int|
            0 <= j < self.edges@[p]@.len() && ((#[trigger] self.edges@[p]@[j]) as int) == c
    }

    /// Some node carries the label `l`.
    pub open spec fn has_label(self, l: Seq<u8>) -> bool {
        exists|i: int|
            0 <= i < self.nodes@.len() && label_bytes(#[trigger] self.nodes@[i]) == l
    }

    /// Node `c` has an incoming edge.
    pub open spec fn has_incoming(self, c: int) -> bool {
        exists|p: int| #[trigger] self.has_edge(p, c)
    }
}

/// A nonempty walk along edges, every node in range.
pub open spec fn is_path(g: TypeGraph, q: Seq<int>) -> bool {
    &&& q.len() >= 1
    &&& forall|i: int| 0 <= i < q.len() ==> 0 <= #[trigger] q[i] < g.nodes@.len()
    &&& forall|i: int| 0 <= i < q.len() - 1 ==> g.has_edge(#[trigger] q[i], q[i + 1])
}

/// Node `b` can be reached from node `a` (in zero or more steps).
pub open spec fn reach(g: TypeGraph, a: int, b: int) -> bool {
    exists|q: Seq<int>| is_path(g, q) && q.first() == a && q.last() == b
}

/// No edge closes a loop: a child never reaches its parent back.
pub open spec fn acyclic(g: TypeGraph) -> bool {
    forall|a: int, b: int| #[trigger] g.has_edge(a, b) ==> !reach(g, b, a)
}

/// Every node reaches itself.
pub proof fn lemma_reach_refl(g: TypeGraph, a: int)
    requires
        0 <= a < g.nodes@.len(),
    ensures
        reach(g, a, a),
{
    let q = seq![a];
    assert(is_path(g, q) && q.first() == a && q.last() == a);
}

/// Reachability extends along an edge.
pub proof fn lemma_reach_step(g: TypeGraph, a: int, b: int, c: int)
    requires
        reach(g, a, b),
        g.has_edge(b, c),
        0 <= c < g.nodes@.len(),
    ensures
        reach(g, a, c),
{
    let q = choose|q: Seq<int>| is_path(g, q) && q.first() == a && q.last() == b;
    let q2 = q.push(c);
    assert forall|i: int| 0 <= i < q2.len() - 1 implies g.has_edge(#[trigger] q2[i], q2[i + 1]) by {
        if i < q.len() - 1 {
            assert(q2[i] == q[i] && q2[i + 1] == q[i + 1]);
        } else {
            assert(q2[i] == q.last() && q2[i + 1] == c);
        }
    }
    assert(is_path(g, q2) && q2.first() == a && q2.last() == c);
}

/// Reachability is transitive.
pub proof fn lemma_reach_trans(g: TypeGraph, a: int, b: int, c: int)
    requires
        reach(g, a, b),
        reach(g, b, c),
    ensures
        reach(g, a, c),
{
    let q1 = choose|q: Seq<int>| is_path(g, q) && q.first() == a && q.last() == b;
    let q2 = choose|q: Seq<int>| is_path(g, q) && q.first() == b && q.last() == c;
    let q = q1 + q2.subrange(1, q2.len() as int);
    assert(q.len() == q1.len() + q2.len() - 1);
    assert forall|i: int| 0 <= i < q.len() implies 0 <= #[trigger] q[i] < g.nodes@.len() by {
        if i < q1.len() {
            assert(q[i] == q1[i]);
        } else {
            assert(q[i] == q2[i - q1.len() + 1]);
        }
    }
    assert forall|i: int| 0 <= i < q.len() - 1 implies g.has_edge(#[trigger] q[i], q[i + 1]) by {
        if i + 1 < q1.len() {
            assert(q[i] == q1[i] && q[i + 1] == q1[i + 1]);
        } else if i + 1 == q1.len() {
            assert(q[i] == q1[i] && q[i + 1] == q2[1]);
            assert(q1[i] == q1.last() && q1.last() == b && q2.first() == b);
            assert(g.has_edge(q2[0], q2[1]));
        } else {
            assert(q[i] == q2[i - q1.len() + 1] && q[i + 1] == q2[i - q1.len() + 2]);
        }
    }
    assert(q.first() == a && q.last() == c);
    assert(is_path(g, q));
}

/// A graph with the same nodes and at least the same edges preserves paths.
pub proof fn lemma_reach_mono(g1: TypeGraph, g2: TypeGraph, a: int, b: int)
    requires
        forall|x: int, y: int| #[trigger] g1.has_edge(x, y) ==> g2.has_edge(x, y),
        g1.nodes@.len() <= g2.nodes@.len(),
        reach(g1, a, b),
    ensures
        reach(g2, a, b),
{
    let q = choose|q: Seq<int>| is_path(g1, q) && q.first() == a && q.last() == b;
    assert(is_path(g2, q));
}

/// Any walk in the graph with one extra edge `p -> c` either avoids that edge
/// (and is a walk of the old graph) or can be split at it.
proof fn lemma_path_decomp(g1: TypeGraph, g2: TypeGraph, q: Seq<int>, p: int, c: int)
    requires
        g1.nodes@.len() == g2.nodes@.len(),
        forall|x: int, y: int|
            #[trigger] g2.has_edge(x, y) <==> (g1.has_edge(x, y) || (x == p && y == c)),
        is_path(g2, q),
    ensures
        reach(g1, q.first(), q.last()) || (reach(g1, q.first(), p) && reach(g1, c, q.last())),
    decreases q.len(),
{
    if q.len() == 1 {
        assert(is_path(g1, q));
    } else {
        let q2 = q.subrange(1, q.len() as int);
        assert forall|i: int| 0 <= i < q2.len() - 1 implies g2.has_edge(
            #[trigger] q2[i],
            q2[i + 1],
        ) by {
            assert(q2[i] == q[i + 1] && q2[i + 1] == q[i + 2]);
        }
        assert(is_path(g2, q2));
        lemma_path_decomp(g1, g2, q2, p, c);
        assert(g2.has_edge(q[0], q[1]));
        assert(q2.first() == q[1] && q2.last() == q.last());
        if g1.has_edge(q[0], q[1]) {
            let step = seq![q[0], q[1]];
            assert(is_path(g1, step) && step.first() == q[0] && step.last() == q[1]);
            assert(reach(g1, q[0], q[1]));
            if reach(g1, q[1], q.last()) {
                lemma_reach_trans(g1, q[0], q[1], q.last());
            } else {
                lemma_reach_trans(g1, q[0], q[1], p);
            }
        } else {
            // the first step is the new edge: q[0] == p, q[1] == c
            lemma_reach_refl(g1, p);
            if reach(g1, q[1], q.last()) {
            } else {
            }
        }
    }
}

/// Adding an edge whose child does not already reach its parent keeps the
/// graph acyclic.
pub proof fn lemma_acyclic_add_edge(g1: TypeGraph, g2: TypeGraph, p: int, c: int)
    requires
        g1.nodes@.len() == g2.nodes@.len(),
        forall|x: int, y: int|
            #[trigger] g2.has_edge(x, y) <==> (g1.has_edge(x, y) || (x == p && y == c)),
        acyclic(g1),
        !reach(g1, c, p),
        0 <= p < g1.nodes@.len(),
        0 <= c < g1.nodes@.len(),
    ensures
        acyclic(g2),
{
    assert forall|a: int, b: int| #[trigger] g2.has_edge(a, b) implies !reach(g2, b, a) by {
        if reach(g2, b, a) {
            let q = choose|q: Seq<int>| is_path(g2, q) && q.first() == b && q.last() == a;
            lemma_path_decomp(g1, g2, q, p, c);
            if g1.has_edge(a, b) {
                if reach(g1, b, a) {
                    assert(false);
                } else {
                    assert(reach(g1, b, p) && reach(g1, c, a));
                    lemma_reach_step(g1, c, a, b);
                    lemma_reach_trans(g1, c, b, p);
                    assert(false);
                }
            } else {
                assert(a == p && b == c);
                if reach(g1, b, a) {
                    assert(false);
                } else {
                    assert(reach(g1, c, p));
                    assert(false);
                }
            }
        }
    }
}

/// Appending a node with no edges keeps the graph acyclic, and changes no
/// edge and no reachability between old nodes.
pub proof fn lemma_acyclic_add_node(g1: TypeGraph, g2: TypeGraph)
    requires
        g1.wf(),
        g2.nodes@.len() == g1.nodes@.len() + 1,
        g2.edges@.len() == g1.edges@.len() + 1,
        g2.edges@ == g1.edges@.push(g2.edges@.last()),
        g2.edges@.last()@.len() == 0,
        acyclic(g1),
    ensures
        acyclic(g2),
        forall|x: int, y: int| #[trigger] g2.has_edge(x, y) <==> g1.has_edge(x, y),
{
    assert forall|x: int, y: int| #[trigger] g2.has_edge(x, y) <==> g1.has_edge(x, y) by {
        if g2.has_edge(x, y) {
            if x < g1.edges@.len() {
                assert(g2.edges@[x] == g1.edges@[x]);
            } else {
                assert(g2.edges@[x]@.len() == 0);
            }
        }
        if g1.has_edge(x, y) {
            assert(g2.edges@[x] == g1.edges@[x]);
        }
    }
    assert forall|a: int, b: int| #[trigger] g2.has_edge(a, b) implies !reach(g2, b, a) by {
        if reach(g2, b, a) {
            let q = choose|q: Seq<int>| is_path(g2, q) && q.first() == b && q.last() == a;
            // every node of the walk touches an edge, so the walk stays
            // among the old nodes
            assert(g1.has_edge(a, b));
            assert(b < g1.nodes@.len()) by {
                assert(g1.has_edge(a, b) ==> exists|j: int|
                    0 <= j < g1.edges@[a]@.len() && ((#[trigger] g1.edges@[a]@[j]) as int) == b);
            }
            assert forall|i: int| 0 <= i < q.len() implies 0 <= #[trigger] q[i]
                < g1.nodes@.len() by {
                if i < q.len() - 1 {
                    assert(g2.has_edge(q[i], q[i + 1]));
                    assert(q[i] < g2.edges@.len());
                    if q[i] == g1.edges@.len() as int {
                        assert(g2.edges@[q[i]]@.len() == 0);
                        assert(false);
                    }
                } else {
                    assert(q[i] == a);
                }
            }
            assert(is_path(g1, q));
            assert(reach(g1, b, a));
            assert(false);
        }
    }
}

/// If a set of nodes contains `q.first()` and is closed under edges, it
/// contains `q.last()`.
proof fn lemma_closed_under_edges(g: TypeGraph, visited: Seq<bool>, q: Seq<int>)
    requires
        visited.len() == g.nodes@.len(),
        is_path(g, q),
        visited[q.first()],
        forall|v: int, w: int|
            0 <= v < visited.len() && visited[v] && #[trigger] g.has_edge(v, w) && 0 <= w
                < visited.len() ==> visited[w],
    ensures
        visited[q.last()],
    decreases q.len(),
{
    if q.len() > 1 {
        let q2 = q.subrange(1, q.len() as int);
        assert(g.has_edge(q[0], q[1]));
        assert(visited[q[1]]);
        assert forall|i: int| 0 <= i < q2.len() - 1 implies g.has_edge(
            #[trigger] q2[i],
            q2[i + 1],
        ) by {
            assert(q2[i] == q[i + 1] && q2[i + 1] == q[i + 2]);
        }
        assert(is_path(g, q2));
        lemma_closed_under_edges(g, visited, q2);
    }
}

/// The number of `true` entries.
spec fn count_trues(s: Seq<bool>) -> int
    decreases s.len(),
{
    if s.len() == 0 {
        0
    } else {
        count_trues(s.drop_last()) + if s.last() {
            1int
        } else {
            0int
        }
    }
}

proof fn lemma_count_bounds(s: Seq<bool>)
    ensures
        0 <= count_trues(s) <= s.len(),
    decreases s.len(),
{
    if s.len() > 0 {
        lemma_count_bounds(s.drop_last());
    }
}

proof fn lemma_count_zero(s: Seq<bool>)
    requires
        forall|v: int| 0 <= v < s.len() ==> !s[v],
    ensures
        count_trues(s) == 0,
    decreases s.len(),
{
    if s.len() > 0 {
        lemma_count_zero(s.drop_last());
    }
}

proof fn lemma_count_update(s: Seq<bool>, i: int)
    requires
        0 <= i < s.len(),
        !s[i],
    ensures
        count_trues(s.update(i, true)) == count_trues(s) + 1,
    decreases s.len(),
{
    if i == s.len() - 1 {
        assert(s.update(i, true).drop_last() =~= s.drop_last());
        assert(s.update(i, true).last());
    } else {
        assert(s.update(i, true).drop_last() =~= s.drop_last().update(i, true));
        assert(s.update(i, true).last() == s.last());
        lemma_count_update(s.drop_last(), i);
    }
}

/// A node appears on the worklist.
spec fn on_work(work: Seq<usize>, v: int) -> bool {
    exists|a: int| 0 <= a < work.len() && (#[trigger] work[a]) as int == v
}

/// Is node `to` reachable from node `from` along edges? A worklist search
/// over a visited map; sound and complete for the path semantics.
#[verifier::rlimit(50)]
pub fn reachable(g: &TypeGraph, from: usize, to: usize) -> (r: bool)
    requires
        g.wf(),
        from < g.nodes@.len(),
        to < g.nodes@.len(),
    ensures
        r == reach(*g, from as int, to as int),
{
    if from == to {
        proof {
            lemma_reach_refl(*g, from as int);
        }
        return true;
    }
    let n = g.nodes.len();
    let mut visited: Vec<bool> = Vec::new();
    let mut k: usize = 0;
    while k < n
        invariant
            0 <= k <= n,
            visited@.len() == k,
            forall|v: int| 0 <= v < k ==> !visited@[v],
        decreases n - k,
    {
        visited.push(false);
        k += 1;
    }
    let ghost pre_v = visited@;
    visited[from] = true;
    proof {
        lemma_count_zero(pre_v);
        lemma_count_update(pre_v, from as int);
        lemma_count_bounds(visited@);
        lemma_reach_refl(*g, from as int);
    }
    let mut work: Vec<usize> = Vec::new();
    work.push(from);
    proof {
        assert((work@[0]) as int == from as int);
        assert(on_work(work@, from as int));
    }
    loop
        invariant
            g.wf(),
            n == g.nodes@.len(),
            from < n,
            to < n,
            from != to,
            visited@.len() == n,
            visited@[from as int],
            !visited@[to as int],
            forall|a: int| 0 <= a < work@.len() ==> ((#[trigger] work@[a]) as int) < n,
            forall|a: int| 0 <= a < work@.len() ==> visited@[(#[trigger] work@[a]) as int],
            forall|v: int| 0 <= v < n && visited@[v] ==> reach(*g, from as int, v),
            forall|v: int|
                0 <= v < n && visited@[v] ==> (on_work(work@, v) || (forall|w: int|
                    #[trigger] g.has_edge(v, w) && 0 <= w < n ==> visited@[w])),
            count_trues(visited@) <= n,
        ensures
            work@.len() == 0,
            visited@.len() == n,
            visited@[from as int],
            !visited@[to as int],
            forall|v: int|
                0 <= v < n && visited@[v] ==> (forall|w: int|
                    #[trigger] g.has_edge(v, w) && 0 <= w < n ==> visited@[w]),
        decreases 2 * (n - count_trues(visited@)) + work@.len(),
    {
        proof {
            lemma_count_bounds(visited@);
        }
        let ghost pre_pop = work@;
        let popped = work.pop();
        let u: usize = match popped {
            Some(x) => x,
            None => {
                break ;
            },
        };
        proof {
            assert(pre_pop.len() > 0 && pre_pop.last() == u);
            assert(work@ == pre_pop.subrange(0, pre_pop.len() - 1));
            assert forall|v: int|
                0 <= v < n && visited@[v] && v != u as int && on_work(pre_pop, v) implies on_work(
                work@,
                v,
            ) by {
                let a = choose|a: int| 0 <= a < pre_pop.len() && (#[trigger] pre_pop[a]) as int == v;
                assert(a < pre_pop.len() - 1);
                assert((work@[a]) as int == v);
            }
        }
        let ghost c0 = count_trues(visited@);
        let ghost w0 = work@.len() as int;
        let deg = g.edges[u].len();
        let mut j: usize = 0;
        while j < deg
            invariant
                g.wf(),
                n == g.nodes@.len(),
                from < n,
                to < n,
                from != to,
                u < n,
                deg == g.edges@[u as int]@.len(),
                0 <= j <= deg,
                visited@.len() == n,
                visited@[from as int],
                !visited@[to as int],
                visited@[u as int],
                forall|a: int| 0 <= a < work@.len() ==> ((#[trigger] work@[a]) as int) < n,
                forall|a: int| 0 <= a < work@.len() ==> visited@[(#[trigger] work@[a]) as int],
                forall|v: int| 0 <= v < n && visited@[v] ==> reach(*g, from as int, v),
                forall|v: int|
                    0 <= v < n && visited@[v] && v != u as int ==> (on_work(work@, v) || (forall|
                        w: int,
                    |
                        #[trigger] g.has_edge(v, w) && 0 <= w < n ==> visited@[w])),
                forall|j2: int|
                    0 <= j2 < j ==> visited@[(#[trigger] g.edges@[u as int]@[j2]) as int],
                work@.len() - count_trues(visited@) == w0 - c0,
                c0 <= count_trues(visited@) <= n,
            decreases deg - j,
        {
            let w = g.edges[u][j];
            proof {
                assert(g.has_edge(u as int, w as int)) by {
                    assert(g.edges@[u as int]@[j as int] == w);
                }
            }
            if !visited[w] {
                if w == to {
                    proof {
                        lemma_reach_step(*g, from as int, u as int, w as int);
                    }
                    return true;
                }
                proof {
                    lemma_count_update(visited@, w as int);
                    lemma_reach_step(*g, from as int, u as int, w as int);
                }
                let ghost pre_work = work@;
                let ghost pre_vis = visited@;
                visited[w] = true;
                work.push(w);
                proof {
                    lemma_count_bounds(visited@);
                    assert forall|v: int| on_work(pre_work, v) implies on_work(work@, v) by {
                        let a = choose|a: int|
                            0 <= a < pre_work.len() && (#[trigger] pre_work[a]) as int == v;
                        assert((work@[a]) as int == v);
                    }
                    assert((work@[work@.len() - 1]) as int == w as int);
                    assert(on_work(work@, w as int));
                    assert forall|v: int|
                        0 <= v < n && visited@[v] && v != u as int implies (on_work(work@, v) || (
                    forall|w2: int|
                        #[trigger] g.has_edge(v, w2) && 0 <= w2 < n ==> visited@[w2])) by {
                        if v != w as int {
                            assert(pre_vis[v]);
                            if !on_work(pre_work, v) {
                                assert forall|w2: int|
                                    #[trigger] g.has_edge(v, w2) && 0 <= w2 < n implies
                                    visited@[w2] by {
                                    assert(pre_vis[w2]);
                                }
                            }
                        }
                    }
                }
            }
            j += 1;
        }
        proof {
            assert forall|v: int|
                0 <= v < n && visited@[v] implies (on_work(work@, v) || (forall|w: int|
                #[trigger] g.has_edge(v, w) && 0 <= w < n ==> visited@[w])) by {
                if v == u as int {
                    assert forall|w: int|
                        #[trigger] g.has_edge(v, w) && 0 <= w < n implies visited@[w] by {
                        let j2 = choose|j2: int|
                            0 <= j2 < g.edges@[v]@.len() && ((#[trigger] g.edges@[v]@[j2]) as int)
                                == w;
                        assert(visited@[(g.edges@[u as int]@[j2]) as int]);
                    }
                }
            }
        }
    }
    proof {
        if reach(*g, from as int, to as int) {
            let q = choose|q: Seq<int>|
                is_path(*g, q) && q.first() == from as int && q.last() == to as int;
            lemma_closed_under_edges(*g, visited@, q);
            assert(false);
        }
    }
    false
}

/// The smallest node index at or after `i` with no incoming edge.
pub open spec fn first_root_from(g: TypeGraph, i: int) -> Option<int>
    decreases g.nodes@.len() - i,
    when 0 <= i <= g.nodes@.len()
{
    if i >= g.nodes@.len() {
        None
    } else if !g.has_incoming(i) {
        Some(i)
    } else {
        first_root_from(g, i + 1)
    }
}

impl TypeGraph {
    /// The first node with no incoming edge: where a query walk starts.
    pub fn first_root(&self) -> (r: Option<usize>)
        requires
            self.wf(),
        ensures
            match r {
                Some(i) => i < self.nodes@.len() && first_root_from(*self, 0) == Some(i as int),
                None => first_root_from(*self, 0) is None,
            },
    {
        let n = self.nodes.len();
        let mut i: usize = 0;
        while i < n
            invariant
                self.wf(),
                n == self.nodes@.len(),
                0 <= i <= n,
                first_root_from(*self, 0) == first_root_from(*self, i as int),
            decreases n - i,
        {
            if !self.node_has_incoming(i) {
                return Some(i);
            }
            i += 1;
        }
        None
    }
}

/// The label is one of the four anchor types that re-parenting uses.
pub open spec fn is_anchor(l: Seq<u8>) -> bool {
    ||| l == "text/plain".spec_bytes()
    ||| l == "application/octet-stream".spec_bytes()
    ||| l == "all/all".spec_bytes()
    ||| l == "all/allfiles".spec_bytes()
}

/// `l` starts with `p`.
pub open spec fn has_prefix(l: Seq<u8>, p: Seq<u8>) -> bool {
    l.len() >= p.len() && l.subrange(0, p.len() as int) == p
}

/// The anchor under which a parentless node is filed, by its top level:
/// `text/*` under `text/plain`, `inode/*` under `all/all`, the rest under
/// `application/octet-stream`.
pub open spec fn anchor_of(l: Seq<u8>) -> Seq<u8> {
    if has_prefix(l, "text/".spec_bytes()) {
        "text/plain".spec_bytes()
    } else if has_prefix(l, "inode/".spec_bytes()) {
        "all/all".spec_bytes()
    } else {
        "application/octet-stream".spec_bytes()
    }
}

/// The node index carrying label `l` (unique in a well-formed graph).
pub open spec fn idx_of(g: TypeGraph, l: Seq<u8>) -> int {
    choose|i: int| 0 <= i < g.nodes@.len() && label_bytes(g.nodes@[i]) == l
}

pub proof fn lemma_idx_of(g: TypeGraph, l: Seq<u8>)
    requires
        g.wf(),
        g.has_label(l),
    ensures
        0 <= idx_of(g, l) < g.nodes@.len(),
        label_bytes(g.nodes@[idx_of(g, l)]) == l,
        forall|i: int|
            0 <= i < g.nodes@.len() && label_bytes(#[trigger] g.nodes@[i]) == l ==> i == idx_of(
                g,
                l,
            ),
{
    let w = choose|i: int| 0 <= i < g.nodes@.len() && label_bytes(g.nodes@[i]) == l;
    assert(label_bytes(g.nodes@[w]) == l);
    assert forall|i: int|
        0 <= i < g.nodes@.len() && label_bytes(#[trigger] g.nodes@[i]) == l implies i == idx_of(
        g,
        l,
    ) by {
        let x = idx_of(g, l);
        if i < x {
            assert(label_bytes(g.nodes@[i]) != label_bytes(g.nodes@[x]));
        }
        if x < i {
            assert(label_bytes(g.nodes@[x]) != label_bytes(g.nodes@[i]));
        }
    }
}

impl TypeGraph {
    /// An empty graph.
    pub fn new() -> (g: TypeGraph)
        ensures
            g.wf(),
            acyclic(g),
            g.nodes@.len() == 0,
    {
        let g = TypeGraph { nodes: Vec::new(), edges: Vec::new() };
        proof {
            assert forall|a: int, b: int| #[trigger] g.has_edge(a, b) implies !reach(g, b, a) by {}
        }
        g
    }

    /// The node carrying the given label, if any.
    pub fn find_node(&self, l: &String) -> (r: Option<usize>)
        requires
            self.wf(),
        ensures
            match r {
                Some(i) => i < self.nodes@.len() && label_bytes(self.nodes@[i as int])
                    == label_bytes(*l) && self.has_label(label_bytes(*l)) && i as int == idx_of(
                    *self,
                    label_bytes(*l),
                ),
                None => !self.has_label(label_bytes(*l)),
            },
    {
        let n = self.nodes.len();
        let mut i: usize = 0;
        while i < n
            invariant
                self.wf(),
                n == self.nodes@.len(),
                0 <= i <= n,
                forall|a: int|
                    0 <= a < i ==> label_bytes(#[trigger] self.nodes@[a]) != label_bytes(*l),
            decreases n - i,
        {
            if crate::bytes::labels_eq(&self.nodes[i], l) {
                proof {
                    lemma_idx_of(*self, label_bytes(*l));
                }
                return Some(i);
            }
            i += 1;
        }
        None
    }

    /// The node carrying the label given as a string slice, if any.
    pub fn find_node_str(&self, l: &str) -> (r: Option<usize>)
        requires
            self.wf(),
        ensures
            match r {
                Some(i) => i < self.nodes@.len() && label_bytes(self.nodes@[i as int])
                    == l.spec_bytes() && self.has_label(l.spec_bytes()) && i as int == idx_of(
                    *self,
                    l.spec_bytes(),
                ),
                None => !self.has_label(l.spec_bytes()),
            },
    {
        let n = self.nodes.len();
        let mut i: usize = 0;
        while i < n
            invariant
                self.wf(),
                n == self.nodes@.len(),
                0 <= i <= n,
                forall|a: int|
                    0 <= a < i ==> label_bytes(#[trigger] self.nodes@[a]) != l.spec_bytes(),
            decreases n - i,
        {
            if crate::bytes::label_eq(&self.nodes[i], l) {
                proof {
                    lemma_idx_of(*self, l.spec_bytes());
                }
                return Some(i);
            }
            i += 1;
        }
        None
    }

    /// Is there an edge from `p` to `c`?
    pub fn edge_exists(&self, p: usize, c: usize) -> (r: bool)
        requires
            self.wf(),
            p < self.nodes@.len(),
        ensures
            r == self.has_edge(p as int, c as int),
    {
        let deg = self.edges[p].len();
        let mut j: usize = 0;
        while j < deg
            invariant
                self.wf(),
                p < self.edges@.len(),
                deg == self.edges@[p as int]@.len(),
                0 <= j <= deg,
                forall|j2: int| 0 <= j2 < j ==> (#[trigger] self.edges@[p as int]@[j2]) != c,
            decreases deg - j,
        {
            if self.edges[p][j] == c {
                return true;
            }
            j += 1;
        }
        false
    }

    /// Does node `c` have an incoming edge?
    pub fn node_has_incoming(&self, c: usize) -> (r: bool)
        requires
            self.wf(),
        ensures
            r == self.has_incoming(c as int),
    {
        let n = self.edges.len();
        let mut p: usize = 0;
        while p < n
            invariant
                self.wf(),
                n == self.edges@.len(),
                0 <= p <= n,
                forall|p2: int| 0 <= p2 < p ==> !(#[trigger] self.has_edge(p2, c as int)),
            decreases n - p,
        {
            if self.edge_exists(p, c) {
                return true;
            }
            p += 1;
        }
        false
    }
}

/// Append a node with the given label and no edges.
fn add_node(g: &mut TypeGraph, label: String)
    requires
        old(g).wf(),
        acyclic(*old(g)),
        !old(g).has_label(label_bytes(label)),
    ensures
        final(g).wf(),
        acyclic(*final(g)),
        final(g).nodes@ == old(g).nodes@.push(label),
        forall|x: int, y: int| #[trigger] final(g).has_edge(x, y) <==> old(g).has_edge(x, y),
        forall|l2: Seq<u8>|
            #[trigger] final(g).has_label(l2) <==> (old(g).has_label(l2) || l2 == label_bytes(
                label,
            )),
{
    let ghost g1 = *g;
    g.nodes.push(label);
    g.edges.push(Vec::new());
    proof {
        let g2 = *g;
        assert(g2.edges@ == g1.edges@.push(g2.edges@.last()));
        assert forall|a: int, b: int|
            0 <= a < b < g2.nodes@.len() implies label_bytes(g2.nodes@[a]) != label_bytes(
            g2.nodes@[b],
        ) by {
            if b < g1.nodes@.len() {
                assert(g2.nodes@[a] == g1.nodes@[a] && g2.nodes@[b] == g1.nodes@[b]);
            } else {
                assert(g2.nodes@[b] == label);
                assert(g2.nodes@[a] == g1.nodes@[a]);
                assert(!g1.has_label(label_bytes(label)));
            }
        }
        assert(g2.wf());
        lemma_acyclic_add_node(g1, g2);
        assert forall|l2: Seq<u8>|
            #[trigger] g2.has_label(l2) implies (g1.has_label(l2) || l2 == label_bytes(
            label,
        )) by {
            let i = choose|i: int|
                0 <= i < g2.nodes@.len() && label_bytes(#[trigger] g2.nodes@[i]) == l2;
            if i < g1.nodes@.len() {
                assert(label_bytes(g1.nodes@[i]) == l2);
            }
        }
        assert forall|l2: Seq<u8>| g1.has_label(l2) implies g2.has_label(l2) by {
            let i = choose|i: int|
                0 <= i < g1.nodes@.len() && label_bytes(#[trigger] g1.nodes@[i]) == l2;
            assert(label_bytes(g2.nodes@[i]) == l2);
        }
        assert(label_bytes(g2.nodes@[g1.nodes@.len() as int]) == label_bytes(label));
        assert(g2.has_label(label_bytes(label)));
    }
}

/// Append the edge `p -> c`; the caller has checked that `c` does not reach
/// `p`, so the graph stays acyclic.
fn add_edge(g: &mut TypeGraph, p: usize, c: usize)
    requires
        old(g).wf(),
        acyclic(*old(g)),
        p < old(g).nodes@.len(),
        c < old(g).nodes@.len(),
        !reach(*old(g), c as int, p as int),
    ensures
        final(g).wf(),
        acyclic(*final(g)),
        final(g).nodes@ == old(g).nodes@,
        forall|x: int, y: int|
            #[trigger] final(g).has_edge(x, y) <==> (old(g).has_edge(x, y) || (x == p as int && y
                == c as int)),
{
    let ghost g1 = *g;
    g.edges[p].push(c);
    proof {
        let g2 = *g;
        assert(g2.edges@ == g1.edges@.update(p as int, g2.edges@[p as int]));
        assert(g2.edges@[p as int]@ == g1.edges@[p as int]@.push(c));
        assert forall|x: int, y: int|
            #[trigger] g2.has_edge(x, y) implies (g1.has_edge(x, y) || (x == p as int && y
            == c as int)) by {
            let j = choose|j: int|
                0 <= j < g2.edges@[x]@.len() && ((#[trigger] g2.edges@[x]@[j]) as int) == y;
            if x != p as int {
                assert(g2.edges@[x] == g1.edges@[x]);
            } else {
                if j < g1.edges@[x]@.len() {
                    assert(g1.edges@[x]@[j] as int == y);
                } else {
                    assert(y == c as int);
                }
            }
        }
        assert forall|x: int, y: int|
            g1.has_edge(x, y) || (x == p as int && y == c as int) implies #[trigger] g2.has_edge(
            x,
            y,
        ) by {
            if g1.has_edge(x, y) {
                let j = choose|j: int|
                    0 <= j < g1.edges@[x]@.len() && ((#[trigger] g1.edges@[x]@[j]) as int) == y;
                if x == p as int {
                    assert((g2.edges@[x]@[j]) as int == y);
                } else {
                    assert(g2.edges@[x] == g1.edges@[x]);
                    assert((g2.edges@[x]@[j]) as int == y);
                }
            } else {
                assert((g2.edges@[p as int]@[g1.edges@[p as int]@.len() as int]) as int
                    == c as int);
            }
        }
        assert forall|p2: int, j: int|
            0 <= p2 < g2.edges@.len() && 0 <= j < g2.edges@[p2]@.len() implies ((
        #[trigger] g2.edges@[p2]@[j]) as int) < g2.nodes@.len() by {
            if p2 == p as int && j == g1.edges@[p2]@.len() {
            } else {
                if p2 == p as int {
                    assert(g1.edges@[p2]@[j] == g2.edges@[p2]@[j]);
                } else {
                    assert(g2.edges@[p2] == g1.edges@[p2]);
                }
            }
        }
        assert(g2.wf());
        lemma_acyclic_add_edge(g1, g2, p as int, c as int);
    }
}

/// Some pair of the canonicalised subclass list names child `cl` and parent
/// `pl`.
pub open spec fn pair_in(pairs: Seq<(String, String)>, cl: Seq<u8>, pl: Seq<u8>) -> bool {
    exists|k: int|
        0 <= k < pairs.len() && label_bytes((#[trigger] pairs[k]).0) == cl && label_bytes(
            pairs[k].1,
        ) == pl
}

/// The label of node `n` came from the input MIME list or is an anchor.
pub open spec fn node_label_from_inputs(g: TypeGraph, mimes: Seq<String>, n: int) -> bool {
    (exists|i: int|
        0 <= i < mimes.len() && label_bytes(#[trigger] mimes[i]) == label_bytes(g.nodes@[n]))
        || is_anchor(label_bytes(g.nodes@[n]))
}

/// Pair `k` was handled: if both endpoints are nodes, its edge is present or
/// was dropped because the child already reached the parent.
pub open spec fn pair_edge_done(g: TypeGraph, pairs: Seq<(String, String)>, k: int) -> bool {
    (g.has_label(label_bytes(pairs[k].0)) && g.has_label(label_bytes(pairs[k].1))) ==> {
        let ci = idx_of(g, label_bytes(pairs[k].0));
        let pi = idx_of(g, label_bytes(pairs[k].1));
        g.has_edge(pi, ci) || reach(g, ci, pi)
    }
}

/// Every edge either realises an input pair or re-parents a parentless
/// non-anchor node under its top-level anchor.
pub open spec fn edge_justified(g: TypeGraph, pairs: Seq<(String, String)>, p: int, c: int) -> bool {
    &&& 0 <= p < g.nodes@.len()
    &&& 0 <= c < g.nodes@.len()
    &&& (pair_in(pairs, label_bytes(g.nodes@[c]), label_bytes(g.nodes@[p])) || (!is_anchor(
        label_bytes(g.nodes@[c]),
    ) && label_bytes(g.nodes@[p]) == anchor_of(label_bytes(g.nodes@[c]))))
}

/// A non-anchor node has a parent, or already reached its anchor (so the
/// re-parenting edge was dropped to keep the graph acyclic).
pub open spec fn reparented(g: TypeGraph, c: int) -> bool {
    !is_anchor(label_bytes(g.nodes@[c])) ==> (g.has_incoming(c) || (g.has_label(
        anchor_of(label_bytes(g.nodes@[c])),
    ) && reach(g, c, idx_of(g, anchor_of(label_bytes(g.nodes@[c]))))))
}

/// Everything [`TypeGraph::build`] guarantees about the graph it returns.
pub open spec fn build_post(g: TypeGraph, mimes: Seq<String>, pairs: Seq<(String, String)>) -> bool {
    &&& g.wf()
    &&& acyclic(g)
    &&& forall|i: int| 0 <= i < mimes.len() ==> g.has_label(label_bytes(#[trigger] mimes[i]))
    &&& g.has_label("text/plain".spec_bytes())
    &&& g.has_label("application/octet-stream".spec_bytes())
    &&& g.has_label("all/all".spec_bytes())
    &&& g.has_label("all/allfiles".spec_bytes())
    &&& forall|n: int| 0 <= n < g.nodes@.len() ==> node_label_from_inputs(g, mimes, n)
    &&& forall|k: int| 0 <= k < pairs.len() ==> pair_edge_done(g, pairs, k)
    &&& forall|p: int, c: int| #[trigger] g.has_edge(p, c) ==> edge_justified(g, pairs, p, c)
    &&& forall|c: int| 0 <= c < g.nodes@.len() ==> reparented(g, c)
}

/// The node index of a label stays the same when only edges change.
proof fn lemma_idx_stable(g1: TypeGraph, g2: TypeGraph, l: Seq<u8>)
    requires
        g1.wf(),
        g2.wf(),
        g1.nodes@ == g2.nodes@,
        g1.has_label(l),
    ensures
        g2.has_label(l),
        idx_of(g2, l) == idx_of(g1, l),
{
    lemma_idx_of(g1, l);
    assert(label_bytes(g2.nodes@[idx_of(g1, l)]) == l);
    assert(g2.has_label(l));
    lemma_idx_of(g2, l);
}

impl TypeGraph {
    /// Build the subclass graph: a node per MIME (plus the four anchors), an
    /// edge parent → child per canonicalised pair whose endpoints are both
    /// present and whose insertion closes no cycle, and a re-parenting edge
    /// from the matching anchor to every non-anchor node left without a
    /// parent, again unless it would close a cycle.
    #[verifier::rlimit(100)]
    pub fn build(mimelist: &Vec<String>, pairs: &Vec<(String, String)>) -> (g: TypeGraph)
        ensures
            build_post(g, mimelist@, pairs@),
    {
        let mut g = TypeGraph::new();
        let n_m = mimelist.len();
        let mut i: usize = 0;
        while i < n_m
            invariant
                n_m == mimelist@.len(),
                0 <= i <= n_m,
                g.wf(),
                acyclic(g),
                forall|x: int, y: int| !(#[trigger] g.has_edge(x, y)),
                forall|j: int| 0 <= j < i ==> g.has_label(label_bytes(#[trigger] mimelist@[j])),
                forall|n: int|
                    0 <= n < g.nodes@.len() ==> exists|j: int|
                        0 <= j < mimelist@.len() && label_bytes(#[trigger] mimelist@[j])
                            == label_bytes(#[trigger] g.nodes@[n]),
            decreases n_m - i,
        {
            match g.find_node(&mimelist[i]) {
                Some(_) => {},
                None => {
                    let ghost g1 = g;
                    add_node(&mut g, crate::bytes::label_clone(&mimelist[i]));
                    proof {
                        assert(g.nodes@.last() == g.nodes@[g1.nodes@.len() as int]);
                        assert(label_bytes(g.nodes@[g1.nodes@.len() as int]) == label_bytes(
                            mimelist@[i as int],
                        ));
                        assert forall|n: int| 0 <= n < g.nodes@.len() implies exists|j: int|
                            0 <= j < mimelist@.len() && label_bytes(#[trigger] mimelist@[j])
                                == label_bytes(#[trigger] g.nodes@[n]) by {
                            if n < g1.nodes@.len() {
                                assert(g.nodes@[n] == g1.nodes@[n]);
                            } else {
                                assert(label_bytes(mimelist@[i as int]) == label_bytes(
                                    g.nodes@[n],
                                ));
                            }
                        }
                    }
                },
            }
            i += 1;
        }
        g = ensure_anchor(g, "text/plain");
        g = ensure_anchor(g, "application/octet-stream");
        g = ensure_anchor(g, "all/all");
        g = ensure_anchor(g, "all/allfiles");
        let ghost mimes = mimelist@;
        proof {
            assert forall|n: int| 0 <= n < g.nodes@.len() implies node_label_from_inputs(
                g,
                mimes,
                n,
            ) by {}
        }
        let n_p = pairs.len();
        let mut k: usize = 0;
        while k < n_p
            invariant
                n_p == pairs@.len(),
                0 <= k <= n_p,
                g.wf(),
                acyclic(g),
                forall|j: int| 0 <= j < mimes.len() ==> g.has_label(label_bytes(#[trigger] mimes[j])),
                g.has_label("text/plain".spec_bytes()),
                g.has_label("application/octet-stream".spec_bytes()),
                g.has_label("all/all".spec_bytes()),
                g.has_label("all/allfiles".spec_bytes()),
                forall|n: int| 0 <= n < g.nodes@.len() ==> node_label_from_inputs(g, mimes, n),
                forall|k2: int| 0 <= k2 < k ==> pair_edge_done(g, pairs@, k2),
                forall|p: int, c: int|
                    #[trigger] g.has_edge(p, c) ==> edge_justified(g, pairs@, p, c),
            decreases n_p - k,
        {
            let child = g.find_node(&pairs[k].0);
            let parent = g.find_node(&pairs[k].1);
            match (child, parent) {
                (Some(ci), Some(pi)) => {
                    if !g.edge_exists(pi, ci) && !reachable(&g, ci, pi) {
                        let ghost g1 = g;
                        add_edge(&mut g, pi, ci);
                        proof {
                            lemma_preserve_after_edge(g1, g, mimes, pairs@, k as int);
                            assert(g.has_edge(pi as int, ci as int));
                            lemma_idx_stable(g1, g, label_bytes(pairs@[k as int].0));
                            lemma_idx_stable(g1, g, label_bytes(pairs@[k as int].1));
                            assert(pair_edge_done(g, pairs@, k as int));
                            assert forall|p: int, c: int|
                                #[trigger] g.has_edge(p, c) implies edge_justified(
                                g,
                                pairs@,
                                p,
                                c,
                            ) by {
                                if g1.has_edge(p, c) {
                                } else {
                                    assert(p == pi as int && c == ci as int);
                                    assert(label_bytes(g.nodes@[c]) == label_bytes(
                                        pairs@[k as int].0,
                                    ));
                                    assert(label_bytes(g.nodes@[p]) == label_bytes(
                                        pairs@[k as int].1,
                                    ));
                                    assert(pair_in(
                                        pairs@,
                                        label_bytes(g.nodes@[c]),
                                        label_bytes(g.nodes@[p]),
                                    ));
                                }
                            }
                        }
                    } else {
                        proof {
                            assert(pair_edge_done(g, pairs@, k as int));
                        }
                    }
                },
                _ => {
                    proof {
                        assert(pair_edge_done(g, pairs@, k as int));
                    }
                },
            }
            k += 1;
        }
        let n_n = g.nodes.len();
        let mut c: usize = 0;
        while c < n_n
            invariant
                n_n == g.nodes@.len(),
                0 <= c <= n_n,
                g.wf(),
                acyclic(g),
                forall|j: int| 0 <= j < mimes.len() ==> g.has_label(label_bytes(#[trigger] mimes[j])),
                g.has_label("text/plain".spec_bytes()),
                g.has_label("application/octet-stream".spec_bytes()),
                g.has_label("all/all".spec_bytes()),
                g.has_label("all/allfiles".spec_bytes()),
                forall|n: int| 0 <= n < g.nodes@.len() ==> node_label_from_inputs(g, mimes, n),
                forall|k2: int| 0 <= k2 < pairs@.len() ==> pair_edge_done(g, pairs@, k2),
                forall|p: int, c2: int|
                    #[trigger] g.has_edge(p, c2) ==> edge_justified(g, pairs@, p, c2),
                forall|c2: int| 0 <= c2 < c ==> reparented(g, c2),
            decreases n_n - c,
        {
            let lbl_is_anchor = crate::bytes::label_eq(&g.nodes[c], "text/plain")
                || crate::bytes::label_eq(&g.nodes[c], "application/octet-stream")
                || crate::bytes::label_eq(&g.nodes[c], "all/all") || crate::bytes::label_eq(
                &g.nodes[c],
                "all/allfiles",
            );
            if !lbl_is_anchor && !g.node_has_incoming(c) {
                let anchor: &str = if crate::bytes::label_starts_with(&g.nodes[c], "text/") {
                    "text/plain"
                } else if crate::bytes::label_starts_with(&g.nodes[c], "inode/") {
                    "all/all"
                } else {
                    "application/octet-stream"
                };
                proof {
                    assert(anchor.spec_bytes() == anchor_of(label_bytes(g.nodes@[c as int])));
                }
                let found = g.find_node_str(anchor);
                match found {
                    Some(ai) => {
                        if !reachable(&g, c, ai) {
                            let ghost g1 = g;
                            add_edge(&mut g, ai, c);
                            proof {
                                lemma_preserve_after_edge(g1, g, mimes, pairs@, pairs@.len() as int);
                                assert(g.has_edge(ai as int, c as int));
                                assert(g.has_incoming(c as int));
                                assert forall|c2: int| 0 <= c2 < c + 1 implies reparented(
                                    g,
                                    c2,
                                ) by {
                                    if c2 < c {
                                        lemma_reparented_mono(g1, g, c2);
                                    }
                                }
                                assert forall|p: int, c2: int|
                                    #[trigger] g.has_edge(p, c2) implies edge_justified(
                                    g,
                                    pairs@,
                                    p,
                                    c2,
                                ) by {
                                    if !g1.has_edge(p, c2) {
                                        assert(p == ai as int && c2 == c as int);
                                        assert(label_bytes(g.nodes@[p]) == anchor_of(
                                            label_bytes(g.nodes@[c2]),
                                        ));
                                    }
                                }
                            }
                        } else {
                            proof {
                                lemma_idx_of(g, anchor.spec_bytes());
                                assert(ai as int == idx_of(
                                    g,
                                    anchor_of(label_bytes(g.nodes@[c as int])),
                                ));
                                assert(reparented(g, c as int));
                            }
                        }
                    },
                    None => {
                        proof {
                            assert(false);
                        }
                    },
                }
            }
            c += 1;
        }
        g
    }
}

/// An anchor node is added when no node carries its label yet.
fn ensure_anchor(g: TypeGraph, label: &str) -> (r: TypeGraph)
    requires
        g.wf(),
        acyclic(g),
        forall|x: int, y: int| !(#[trigger] g.has_edge(x, y)),
    ensures
        r.wf(),
        acyclic(r),
        forall|x: int, y: int| !(#[trigger] r.has_edge(x, y)),
        r.has_label(label.spec_bytes()),
        forall|l2: Seq<u8>| #[trigger] g.has_label(l2) ==> r.has_label(l2),
        forall|n: int|
            0 <= n < r.nodes@.len() ==> (label_bytes(#[trigger] r.nodes@[n]) == label.spec_bytes()
                || g.has_label(label_bytes(r.nodes@[n]))),
{
    let mut g = g;
    let ghost g0 = g;
    match g.find_node_str(label) {
        Some(_) => {
            proof {
                assert forall|n: int| 0 <= n < g.nodes@.len() implies (label_bytes(
                    #[trigger] g.nodes@[n],
                ) == label.spec_bytes() || g0.has_label(label_bytes(g.nodes@[n]))) by {
                    assert(label_bytes(g.nodes@[n]) == label_bytes(g.nodes@[n]));
                }
            }
            g
        },
        None => {
            add_node(&mut g, crate::bytes::label_from(label));
            proof {
                assert forall|x: int, y: int| !(#[trigger] g.has_edge(x, y)) by {}
                assert forall|n: int| 0 <= n < g.nodes@.len() implies (label_bytes(
                    #[trigger] g.nodes@[n],
                ) == label.spec_bytes() || g0.has_label(label_bytes(g.nodes@[n]))) by {
                    if n < g0.nodes@.len() {
                        assert(g.nodes@[n] == g0.nodes@[n]);
                        assert(label_bytes(g0.nodes@[n]) == label_bytes(g.nodes@[n]));
                    }
                }
            }
            g
        },
    }
}

/// Adding one edge preserves the invariants that only grow with the graph.
proof fn lemma_preserve_after_edge(
    g1: TypeGraph,
    g2: TypeGraph,
    mimes: Seq<String>,
    pairs: Seq<(String, String)>,
    upto: int,
)
    requires
        g1.wf(),
        g2.wf(),
        g1.nodes@ == g2.nodes@,
        forall|x: int, y: int| #[trigger] g1.has_edge(x, y) ==> g2.has_edge(x, y),
        forall|j: int| 0 <= j < mimes.len() ==> g1.has_label(label_bytes(#[trigger] mimes[j])),
        g1.has_label("text/plain".spec_bytes()),
        g1.has_label("application/octet-stream".spec_bytes()),
        g1.has_label("all/all".spec_bytes()),
        g1.has_label("all/allfiles".spec_bytes()),
        forall|n: int| 0 <= n < g1.nodes@.len() ==> node_label_from_inputs(g1, mimes, n),
        forall|k2: int| 0 <= k2 < upto && k2 < pairs.len() ==> pair_edge_done(g1, pairs, k2),
    ensures
        forall|j: int| 0 <= j < mimes.len() ==> g2.has_label(label_bytes(#[trigger] mimes[j])),
        g2.has_label("text/plain".spec_bytes()),
        g2.has_label("application/octet-stream".spec_bytes()),
        g2.has_label("all/all".spec_bytes()),
        g2.has_label("all/allfiles".spec_bytes()),
        forall|n: int| 0 <= n < g2.nodes@.len() ==> node_label_from_inputs(g2, mimes, n),
        forall|k2: int| 0 <= k2 < upto && k2 < pairs.len() ==> pair_edge_done(g2, pairs, k2),
{
    assert forall|j: int| 0 <= j < mimes.len() implies g2.has_label(
        label_bytes(#[trigger] mimes[j]),
    ) by {
        lemma_idx_stable(g1, g2, label_bytes(mimes[j]));
    }
    lemma_idx_stable(g1, g2, "text/plain".spec_bytes());
    lemma_idx_stable(g1, g2, "application/octet-stream".spec_bytes());
    lemma_idx_stable(g1, g2, "all/all".spec_bytes());
    lemma_idx_stable(g1, g2, "all/allfiles".spec_bytes());
    assert forall|n: int| 0 <= n < g2.nodes@.len() implies node_label_from_inputs(
        g2,
        mimes,
        n,
    ) by {
        assert(node_label_from_inputs(g1, mimes, n));
        if !is_anchor(label_bytes(g1.nodes@[n])) {
            let i = choose|i: int|
                0 <= i < mimes.len() && label_bytes(#[trigger] mimes[i]) == label_bytes(
                    g1.nodes@[n],
                );
            assert(label_bytes(mimes[i]) == label_bytes(g2.nodes@[n]));
        }
    }
    assert forall|k2: int| 0 <= k2 < upto && k2 < pairs.len() implies pair_edge_done(
        g2,
        pairs,
        k2,
    ) by {
        assert(pair_edge_done(g1, pairs, k2));
        if g2.has_label(label_bytes(pairs[k2].0)) && g2.has_label(label_bytes(pairs[k2].1)) {
            let cl = label_bytes(pairs[k2].0);
            let pl = label_bytes(pairs[k2].1);
            assert(g1.has_label(cl)) by {
                lemma_idx_of(g2, cl);
                assert(label_bytes(g1.nodes@[idx_of(g2, cl)]) == cl);
            }
            assert(g1.has_label(pl)) by {
                lemma_idx_of(g2, pl);
                assert(label_bytes(g1.nodes@[idx_of(g2, pl)]) == pl);
            }
            lemma_idx_stable(g1, g2, cl);
            lemma_idx_stable(g1, g2, pl);
            if reach(g1, idx_of(g1, cl), idx_of(g1, pl)) {
                lemma_reach_mono(g1, g2, idx_of(g1, cl), idx_of(g1, pl));
            }
        }
    }
}

/// A node with a parent, or one that reaches its anchor, keeps that property
/// as edges are added.
proof fn lemma_reparented_mono(g1: TypeGraph, g2: TypeGraph, c: int)
    requires
        g1.wf(),
        g2.wf(),
        g1.nodes@ == g2.nodes@,
        forall|x: int, y: int| #[trigger] g1.has_edge(x, y) ==> g2.has_edge(x, y),
        0 <= c < g1.nodes@.len(),
        reparented(g1, c),
    ensures
        reparented(g2, c),
{
    if !is_anchor(label_bytes(g2.nodes@[c])) {
        if g1.has_incoming(c) {
            let p = choose|p: int| g1.has_edge(p, c);
            assert(g2.has_edge(p, c));
            assert(g2.has_incoming(c));
        } else {
            let al = anchor_of(label_bytes(g1.nodes@[c]));
            lemma_idx_stable(g1, g2, al);
            lemma_reach_mono(g1, g2, c, idx_of(g1, al));
        }
    }
}

/// The five base labels are pairwise distinct (their lengths already differ).
pub proof fn lemma_base_labels_distinct()
    ensures
        "all/all".spec_bytes().len() == 7,
        "all/allfiles".spec_bytes().len() == 12,
        "inode/directory".spec_bytes().len() == 15,
        "text/plain".spec_bytes().len() == 10,
        "application/octet-stream".spec_bytes().len() == 24,
{
    reveal_strlit("all/all");
    reveal_strlit("all/allfiles");
    reveal_strlit("inode/directory");
    reveal_strlit("text/plain");
    reveal_strlit("application/octet-stream");
    assert(is_ascii_chars("all/all"@));
    assert(is_ascii_chars("all/allfiles"@));
    assert(is_ascii_chars("inode/directory"@));
    assert(is_ascii_chars("text/plain"@));
    assert(is_ascii_chars("application/octet-stream"@));
    is_ascii_chars_encode_utf8("all/all"@);
    is_ascii_chars_encode_utf8("all/allfiles"@);
    is_ascii_chars_encode_utf8("inode/directory"@);
    is_ascii_chars_encode_utf8("text/plain"@);
    is_ascii_chars_encode_utf8("application/octet-stream"@);
}

/// Law: every MIME any provider supports is a node of the type graph.
pub proof fn lemma_supported_in_graph(
    g: TypeGraph,
    mimes: Seq<String>,
    pairs: Seq<(String, String)>,
    i: int,
)
    requires
        build_post(g, mimes, pairs),
        0 <= i < mimes.len(),
    ensures
        g.has_label(label_bytes(mimes[i])),
{
}

/// An edge is itself a two-step walk.
pub proof fn lemma_edge_reach(g: TypeGraph, p: int, c: int)
    requires
        g.wf(),
        g.has_edge(p, c),
    ensures
        reach(g, p, c),
{
    assert(0 <= c < g.nodes@.len()) by {
        let j = choose|j: int|
            0 <= j < g.edges@[p]@.len() && ((#[trigger] g.edges@[p]@[j]) as int) == c;
    }
    let q = seq![p, c];
    assert(is_path(g, q) && q.first() == p && q.last() == c);
}

/// Law: a canonicalised subclass pair whose endpoints are both nodes, and
/// which was not dropped to avoid a cycle, makes the parent reach the child.
pub proof fn lemma_subclass_edge_reachable(
    g: TypeGraph,
    mimes: Seq<String>,
    pairs: Seq<(String, String)>,
    k: int,
)
    requires
        build_post(g, mimes, pairs),
        0 <= k < pairs.len(),
        g.has_label(label_bytes(pairs[k].0)),
        g.has_label(label_bytes(pairs[k].1)),
        !reach(g, idx_of(g, label_bytes(pairs[k].0)), idx_of(g, label_bytes(pairs[k].1))),
    ensures
        reach(g, idx_of(g, label_bytes(pairs[k].1)), idx_of(g, label_bytes(pairs[k].0))),
{
    assert(pair_edge_done(g, pairs, k));
    lemma_edge_reach(g, idx_of(g, label_bytes(pairs[k].1)), idx_of(g, label_bytes(pairs[k].0)));
}

/// A node without incoming edges is reached only by itself.
proof fn lemma_reach_no_incoming(g: TypeGraph, t: int)
    requires
        !g.has_incoming(t),
    ensures
        forall|x: int| #[trigger] reach(g, x, t) ==> x == t,
{
    assert forall|x: int| #[trigger] reach(g, x, t) implies x == t by {
        let q = choose|q: Seq<int>| is_path(g, q) && q.first() == x && q.last() == t;
        if q.len() >= 2 {
            assert(g.has_edge(q[q.len() - 2], q[q.len() - 1]));
            assert(g.has_incoming(t));
            assert(false);
        }
    }
}

/// If every edge into `t` comes from `src`, anything that reaches `t` from
/// elsewhere reaches `src` first.
proof fn lemma_reach_via(g: TypeGraph, t: int, src: int)
    requires
        forall|p: int| #[trigger] g.has_edge(p, t) ==> p == src,
    ensures
        forall|x: int| #[trigger] reach(g, x, t) && x != t ==> reach(g, x, src),
{
    assert forall|x: int| #[trigger] reach(g, x, t) && x != t implies reach(g, x, src) by {
        let q = choose|q: Seq<int>| is_path(g, q) && q.first() == x && q.last() == t;
        assert(q.len() >= 2);
        assert(g.has_edge(q[q.len() - 2], q[q.len() - 1]));
        assert(q[q.len() - 2] == src);
        let q2 = q.subrange(0, q.len() - 1);
        assert forall|i: int| 0 <= i < q2.len() - 1 implies g.has_edge(
            #[trigger] q2[i],
            q2[i + 1],
        ) by {
            assert(q2[i] == q[i] && q2[i + 1] == q[i + 1]);
        }
        assert(is_path(g, q2) && q2.first() == x && q2.last() == src);
    }
}

/// The canonicalised pair list keeps the anchor chain intact: nothing claims
/// `all/all` as a child, and the other anchors are children only of their
/// fixed parents.
pub open spec fn anchors_chained(pairs: Seq<(String, String)>) -> bool {
    forall|k: int|
        0 <= k < pairs.len() ==> {
            let cl = label_bytes((#[trigger] pairs[k]).0);
            let pl = label_bytes(pairs[k].1);
            &&& cl != "all/all".spec_bytes()
            &&& (cl == "all/allfiles".spec_bytes() ==> pl == "all/all".spec_bytes())
            &&& (cl == "application/octet-stream".spec_bytes() ==> pl
                == "all/allfiles".spec_bytes())
            &&& (cl == "text/plain".spec_bytes() ==> pl == "application/octet-stream".spec_bytes())
        }
}

/// The pair list contains the base provider's anchor chain.
pub open spec fn base_pairs_in(pairs: Seq<(String, String)>) -> bool {
    &&& pair_in(pairs, "all/allfiles".spec_bytes(), "all/all".spec_bytes())
    &&& pair_in(pairs, "application/octet-stream".spec_bytes(), "all/allfiles".spec_bytes())
    &&& pair_in(pairs, "text/plain".spec_bytes(), "application/octet-stream".spec_bytes())
}

/// Law: the graph is acyclic and `all/all` is its unique root — the one node
/// without incoming edges — whenever the pair list contains the base chain
/// and no pair re-parents an anchor (the shared MIME database satisfies
/// both).
#[verifier::rlimit(100)]
pub proof fn lemma_unique_root(g: TypeGraph, mimes: Seq<String>, pairs: Seq<(String, String)>)
    requires
        build_post(g, mimes, pairs),
        anchors_chained(pairs),
        base_pairs_in(pairs),
    ensures
        acyclic(g),
        g.has_label("all/all".spec_bytes()),
        !g.has_incoming(idx_of(g, "all/all".spec_bytes())),
        forall|c: int|
            0 <= c < g.nodes@.len() && c != idx_of(g, "all/all".spec_bytes()) ==> g.has_incoming(c),
        g.has_edge(idx_of(g, "all/all".spec_bytes()), idx_of(g, "all/allfiles".spec_bytes())),
        g.has_edge(
            idx_of(g, "all/allfiles".spec_bytes()),
            idx_of(g, "application/octet-stream".spec_bytes()),
        ),
        g.has_edge(
            idx_of(g, "application/octet-stream".spec_bytes()),
            idx_of(g, "text/plain".spec_bytes()),
        ),
{
    lemma_base_labels_distinct();
    let la = "all/all".spec_bytes();
    let lf = "all/allfiles".spec_bytes();
    let lo = "application/octet-stream".spec_bytes();
    let lt = "text/plain".spec_bytes();
    let ra = idx_of(g, la);
    let rf = idx_of(g, lf);
    let ro = idx_of(g, lo);
    let rt = idx_of(g, lt);
    lemma_idx_of(g, la);
    lemma_idx_of(g, lf);
    lemma_idx_of(g, lo);
    lemma_idx_of(g, lt);
    // all/all has no incoming edge
    assert forall|p: int| !(#[trigger] g.has_edge(p, ra)) by {
        if g.has_edge(p, ra) {
            assert(edge_justified(g, pairs, p, ra));
            if pair_in(pairs, label_bytes(g.nodes@[ra]), label_bytes(g.nodes@[p])) {
                let k = choose|k: int|
                    0 <= k < pairs.len() && label_bytes((#[trigger] pairs[k]).0) == label_bytes(
                        g.nodes@[ra],
                    ) && label_bytes(pairs[k].1) == label_bytes(g.nodes@[p]);
                assert(label_bytes(pairs[k].0) == la);
                assert(false);
            } else {
                assert(!is_anchor(label_bytes(g.nodes@[ra])));
                assert(false);
            }
        }
    }
    assert(!g.has_incoming(ra));
    lemma_reach_no_incoming(g, ra);
    // incoming edges of all/allfiles come only from all/all
    assert forall|p: int| #[trigger] g.has_edge(p, rf) implies p == ra by {
        assert(edge_justified(g, pairs, p, rf));
        if pair_in(pairs, label_bytes(g.nodes@[rf]), label_bytes(g.nodes@[p])) {
            let k = choose|k: int|
                0 <= k < pairs.len() && label_bytes((#[trigger] pairs[k]).0) == label_bytes(
                    g.nodes@[rf],
                ) && label_bytes(pairs[k].1) == label_bytes(g.nodes@[p]);
            assert(label_bytes(g.nodes@[p]) == la);
        } else {
            assert(false);
        }
    }
    lemma_reach_via(g, rf, ra);
    assert forall|x: int| #[trigger] reach(g, x, rf) implies x == rf || x == ra by {}
    // incoming edges of application/octet-stream come only from all/allfiles
    assert forall|p: int| #[trigger] g.has_edge(p, ro) implies p == rf by {
        assert(edge_justified(g, pairs, p, ro));
        if pair_in(pairs, label_bytes(g.nodes@[ro]), label_bytes(g.nodes@[p])) {
            let k = choose|k: int|
                0 <= k < pairs.len() && label_bytes((#[trigger] pairs[k]).0) == label_bytes(
                    g.nodes@[ro],
                ) && label_bytes(pairs[k].1) == label_bytes(g.nodes@[p]);
            assert(label_bytes(g.nodes@[p]) == lf);
        } else {
            assert(false);
        }
    }
    lemma_reach_via(g, ro, rf);
    assert forall|x: int| #[trigger] reach(g, x, ro) implies x == ro || x == rf || x == ra by {}
    // incoming edges of text/plain come only from application/octet-stream
    assert forall|p: int| #[trigger] g.has_edge(p, rt) implies p == ro by {
        assert(edge_justified(g, pairs, p, rt));
        if pair_in(pairs, label_bytes(g.nodes@[rt]), label_bytes(g.nodes@[p])) {
            let k = choose|k: int|
                0 <= k < pairs.len() && label_bytes((#[trigger] pairs[k]).0) == label_bytes(
                    g.nodes@[rt],
                ) && label_bytes(pairs[k].1) == label_bytes(g.nodes@[p]);
            assert(label_bytes(g.nodes@[p]) == lo);
        } else {
            assert(false);
        }
    }
    lemma_reach_via(g, rt, ro);
    assert forall|x: int| #[trigger] reach(g, x, rt) implies x == rt || x == ro || x == rf || x
        == ra by {}
    // the three base pairs put the anchor chain's edges in place
    let kf = choose|k: int|
        0 <= k < pairs.len() && label_bytes((#[trigger] pairs[k]).0) == lf && label_bytes(
            pairs[k].1,
        ) == la;
    assert(pair_edge_done(g, pairs, kf));
    assert(g.has_edge(ra, rf)) by {
        if reach(g, rf, ra) {
            assert(rf == ra);
            assert(false);
        }
    }
    let ko = choose|k: int|
        0 <= k < pairs.len() && label_bytes((#[trigger] pairs[k]).0) == lo && label_bytes(
            pairs[k].1,
        ) == lf;
    assert(pair_edge_done(g, pairs, ko));
    assert(g.has_edge(rf, ro)) by {
        if reach(g, ro, rf) {
            assert(false);
        }
    }
    let kt = choose|k: int|
        0 <= k < pairs.len() && label_bytes((#[trigger] pairs[k]).0) == lt && label_bytes(
            pairs[k].1,
        ) == lo;
    assert(pair_edge_done(g, pairs, kt));
    assert(g.has_edge(ro, rt)) by {
        if reach(g, rt, ro) {
            assert(false);
        }
    }
    // every node other than all/all has a parent
    assert forall|c: int|
        0 <= c < g.nodes@.len() && c != ra implies g.has_incoming(c) by {
        let lc = label_bytes(g.nodes@[c]);
        if is_anchor(lc) {
            if lc == lt {
                assert(c == rt);
                assert(g.has_edge(ro, rt));
                assert(g.has_incoming(c));
            } else if lc == lo {
                assert(c == ro);
                assert(g.has_incoming(c));
            } else if lc == la {
                assert(c == ra);
                assert(false);
            } else {
                assert(c == rf);
                assert(g.has_incoming(c));
            }
        } else {
            assert(reparented(g, c));
            if !g.has_incoming(c) {
                let al = anchor_of(lc);
                let ai = idx_of(g, al);
                assert(reach(g, c, ai));
                if al == lt {
                    assert(ai == rt);
                    assert(c == rt || c == ro || c == rf || c == ra);
                    assert(is_anchor(lc) || c == ra);
                    assert(false);
                } else if al == la {
                    assert(ai == ra);
                    assert(c == ra);
                    assert(false);
                } else {
                    assert(ai == ro);
                    assert(c == ro || c == rf || c == ra);
                    assert(false);
                }
            }
        }
    }
}

/// When `root` is the one node without incoming edges, the walk entry point
/// finds it.
pub proof fn lemma_first_root_unique(g: TypeGraph, root: int)
    requires
        0 <= root < g.nodes@.len(),
        !g.has_incoming(root),
        forall|c: int| 0 <= c < g.nodes@.len() && c != root ==> g.has_incoming(c),
    ensures
        first_root_from(g, 0) == Some(root),
{
    lemma_first_root_step(g, 0, root);
}

proof fn lemma_first_root_step(g: TypeGraph, i: int, root: int)
    requires
        0 <= i <= root < g.nodes@.len(),
        !g.has_incoming(root),
        forall|c: int| 0 <= c < g.nodes@.len() && c != root ==> g.has_incoming(c),
    ensures
        first_root_from(g, i) == Some(root),
    decreases root - i,
{
    if i < root {
        lemma_first_root_step(g, i + 1, root);
    }
}

} // verus!
