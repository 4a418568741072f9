//! Dependence edges between symbols of (possibly different) namespaces, and
//! the reachability reasoning behind cycle rejection and failure propagation.

use vstd::prelude::*;
use vstd::seq_lib::*;
use vstd::set_lib::*;

use crate::pool::SymbolStringPoolEntry;
use crate::session::JITDylib;

verus! {

/// One symbol of one namespace, addressed by namespace index and interned
/// name identity.
#[derive(Clone, Copy, Debug, PartialEq, Eq, Hash, Structural)]
pub struct SymRef {
    pub dylib: usize,
    pub sym: usize,
}

/// A recorded constraint: `src` must not be considered emitted until `dst`
/// has been emitted, and must fail if `dst` fails.
#[derive(Clone, Copy, Debug, PartialEq, Eq, Structural)]
pub struct DepEdge {
    pub src: SymRef,
    pub dst: SymRef,
}

/// The edge list records a direct dependence of `a` on `b`.
pub open spec fn edge_in(edges: Seq<DepEdge>, a: SymRef, b: SymRef) -> bool {
    exists|i: int| 0 <= i < edges.len() && edges[i].src == a && edges[i].dst == b
}

/// `p` walks the graph along recorded edges.
pub open spec fn is_path(edges: Seq<DepEdge>, p: Seq<SymRef>) -> bool {
    p.len() >= 1 && forall|i: int|
        0 <= i < p.len() - 1 ==> #[trigger] edge_in(edges, p[i], p[i + 1])
}

/// `b` is reachable from `a`: some (possibly empty) chain of dependence
/// edges leads from `a` to `b`.
pub open spec fn reaches(edges: Seq<DepEdge>, a: SymRef, b: SymRef) -> bool {
    exists|p: Seq<SymRef>| #[trigger] is_path(edges, p) && p.first() == a && p.last() == b
}

/// No dependence chain returns to where it started: following any edge, its
/// source is not reachable from its target.
pub open spec fn acyclic(edges: Seq<DepEdge>) -> bool {
    forall|i: int|
        0 <= i < edges.len() ==> !reaches(edges, #[trigger] edges[i].dst, edges[i].src)
}

/// One step of a path is a recorded edge.
pub proof fn lemma_path_edge(edges: Seq<DepEdge>, p: Seq<SymRef>, i: int)
    requires
        is_path(edges, p),
        0 <= i < p.len() - 1,
    ensures
        edge_in(edges, p[i], p[i + 1]),
{
    assert(edge_in(edges, p[i], p[i + 1]));
}

pub proof fn lemma_reaches_refl(edges: Seq<DepEdge>, a: SymRef)
    ensures
        reaches(edges, a, a),
{
    let p = seq![a];
    assert(is_path(edges, p) && p.first() == a && p.last() == a);
}

pub proof fn lemma_reaches_step(edges: Seq<DepEdge>, a: SymRef, b: SymRef, c: SymRef)
    requires
        reaches(edges, a, b),
        edge_in(edges, b, c),
    ensures
        reaches(edges, a, c),
{
    let p = choose|p: Seq<SymRef>| #[trigger] is_path(edges, p) && p.first() == a && p.last() == b;
    let q = p.push(c);
    assert forall|i: int| 0 <= i < q.len() - 1 implies #[trigger] edge_in(edges, q[i], q[i + 1]) by {
        if i < p.len() - 1 {
            lemma_path_edge(edges, p, i);
        } else {
            assert(q[i] == b && q[i + 1] == c);
        }
    }
    assert(is_path(edges, q) && q.first() == a && q.last() == c);
}

/// A path of a graph is a path of any graph with at least the same edges.
pub proof fn lemma_reaches_widen(sub: Seq<DepEdge>, sup: Seq<DepEdge>, a: SymRef, b: SymRef)
    requires
        forall|x: SymRef, y: SymRef| #[trigger] edge_in(sub, x, y) ==> edge_in(sup, x, y),
        reaches(sub, a, b),
    ensures
        reaches(sup, a, b),
{
    let p = choose|p: Seq<SymRef>| #[trigger] is_path(sub, p) && p.first() == a && p.last() == b;
    assert forall|i: int| 0 <= i < p.len() - 1 implies #[trigger] edge_in(sup, p[i], p[i + 1]) by {
        lemma_path_edge(sub, p, i);
    }
    assert(is_path(sup, p));
}

/// Dropping edges from an acyclic graph keeps it acyclic.
pub proof fn lemma_acyclic_narrow(sub: Seq<DepEdge>, sup: Seq<DepEdge>)
    requires
        forall|x: SymRef, y: SymRef| #[trigger] edge_in(sub, x, y) ==> edge_in(sup, x, y),
        acyclic(sup),
    ensures
        acyclic(sub),
{
    assert forall|i: int| 0 <= i < sub.len() implies !reaches(
        sub,
        #[trigger] sub[i].dst,
        sub[i].src,
    ) by {
        assert(edge_in(sub, sub[i].src, sub[i].dst));
        let j = choose|j: int|
            0 <= j < sup.len() && sup[j].src == sub[i].src && sup[j].dst == sub[i].dst;
        if reaches(sub, sub[i].dst, sub[i].src) {
            lemma_reaches_widen(sub, sup, sub[i].dst, sub[i].src);
        }
    }
}

/// Acyclicity depends only on which connections the list records, not on
/// how they are laid out: two lists with the same edges agree on it.
pub proof fn lemma_acyclic_same_edges(c1: Seq<DepEdge>, c2: Seq<DepEdge>)
    requires
        forall|a: SymRef, b: SymRef| #[trigger] edge_in(c1, a, b) <==> edge_in(c2, a, b),
    ensures
        acyclic(c1) == acyclic(c2),
{
    if acyclic(c1) {
        lemma_acyclic_narrow(c2, c1);
    }
    if acyclic(c2) {
        lemma_acyclic_narrow(c1, c2);
    }
}

/// Every path that starts inside a set closed under the edges also ends
/// inside it.
pub proof fn lemma_path_stays_in_closed_set(edges: Seq<DepEdge>, p: Seq<SymRef>, v: Set<SymRef>)
    requires
        is_path(edges, p),
        v.contains(p.first()),
        forall|a: SymRef, b: SymRef|
            v.contains(a) && #[trigger] edge_in(edges, a, b) ==> v.contains(b),
    ensures
        v.contains(p.last()),
    decreases p.len(),
{
    if p.len() > 1 {
        lemma_path_edge(edges, p, 0);
        assert(v.contains(p[1]));
        let q = p.drop_first();
        assert forall|i: int| 0 <= i < q.len() - 1 implies #[trigger] edge_in(
            edges,
            q[i],
            q[i + 1],
        ) by {
            lemma_path_edge(edges, p, i + 1);
            assert(q[i] == p[i + 1] && q[i + 1] == p[i + 2]);
        }
        assert(q.first() == p[1]);
        lemma_path_stays_in_closed_set(edges, q, v);
        assert(q.last() == p.last());
    }
}

/// A duplicate-free collection of symbols, each of which is a given root or
/// the target of some edge, is no larger than the edge list plus one.
proof fn lemma_visited_bound(visited: Seq<SymRef>, edges: Seq<DepEdge>, root: SymRef)
    requires
        visited.no_duplicates(),
        forall|k: int|
            0 <= k < visited.len() ==> visited[k] == root || exists|i: int|
                0 <= i < edges.len() && #[trigger] edges[i].dst == visited[k],
    ensures
        visited.len() <= edges.len() + 1,
{
    broadcast use seq_to_set_is_finite;

    let all = seq![root] + edges.map_values(|e: DepEdge| e.dst);
    assert forall|x: SymRef| visited.to_set().contains(x) implies all.to_set().contains(x) by {
        let k = choose|k: int| 0 <= k < visited.len() && visited[k] == x;
        if x == root {
            assert(all[0] == x);
        } else {
            let i = choose|i: int| 0 <= i < edges.len() && #[trigger] edges[i].dst == x;
            assert(all[i + 1] == x);
        }
        assert(all.contains(x));
    }
    visited.unique_seq_to_set();
    all.lemma_cardinality_of_set();
    lemma_len_subset(visited.to_set(), all.to_set());
}

/// A duplicate-free collection that begins with a given seed and otherwise
/// holds only edge sources is no larger than seed plus edges.
pub(crate) proof fn lemma_fail_set_bound(f: Seq<SymRef>, seed: Seq<SymRef>, edges: Seq<DepEdge>)
    requires
        f.no_duplicates(),
        seed.len() <= f.len(),
        forall|k: int|
            seed.len() <= k < f.len() ==> exists|j: int|
                0 <= j < edges.len() && (#[trigger] edges[j]).src == #[trigger] f[k],
    ensures
        f.len() <= seed.len() + edges.len(),
{
    broadcast use seq_to_set_is_finite;

    let g = f.subrange(seed.len() as int, f.len() as int);
    assert forall|i: int, j: int|
        0 <= i < g.len() && 0 <= j < g.len() && i != j implies #[trigger] g[i] != #[trigger] g[j] by {
        assert(f[seed.len() + i] == g[i] && f[seed.len() + j] == g[j]);
    }
    let srcs = edges.map_values(|e: DepEdge| e.src);
    assert forall|x: SymRef| g.to_set().contains(x) implies srcs.to_set().contains(x) by {
        let k = choose|k: int| 0 <= k < g.len() && g[k] == x;
        assert(f[seed.len() + k] == x);
        let j = choose|j: int| 0 <= j < edges.len() && (#[trigger] edges[j]).src == x;
        assert(srcs[j] == x);
        assert(srcs.contains(x));
    }
    g.unique_seq_to_set();
    srcs.lemma_cardinality_of_set();
    lemma_len_subset(g.to_set(), srcs.to_set());
}

/// Whether `v` holds `x`, by linear scan.
pub(crate) fn sym_vec_contains(v: &Vec<SymRef>, x: SymRef) -> (r: bool)
    ensures
        r == v@.contains(x),
{
    let mut i: usize = 0;
    while i < v.len()
        invariant
            i <= v@.len(),
            forall|k: int| 0 <= k < i ==> v@[k] != x,
        decreases v@.len() - i,
    {
        if v[i] == x {
            return true;
        }
        i = i + 1;
    }
    false
}

/// Whether `to` is reachable from `from` along the recorded edges, by
/// saturating the set of symbols reachable from `from`.
pub(crate) fn reaches_exec(edges: &Vec<DepEdge>, from: SymRef, to: SymRef) -> (r: bool)
    ensures
        r == reaches(edges@, from, to),
{
    let mut visited: Vec<SymRef> = Vec::new();
    visited.push(from);
    proof {
        lemma_reaches_refl(edges@, from);
    }
    let mut changed: bool = true;
    while changed
        invariant
            visited@.no_duplicates(),
            visited@.len() <= edges@.len() + 1,
            visited@.len() >= 1,
            visited@[0] == from,
            forall|k: int| 0 <= k < visited@.len() ==> reaches(edges@, from, #[trigger] visited@[k]),
            forall|k: int|
                0 <= k < visited@.len() ==> visited@[k] == from || exists|i: int|
                    0 <= i < edges@.len() && #[trigger] edges@[i].dst == visited@[k],
            !changed ==> forall|i: int|
                0 <= i < edges@.len() && visited@.contains(#[trigger] edges@[i].src)
                    ==> visited@.contains(edges@[i].dst),
        decreases edges@.len() + 1 - visited@.len(), (if changed { 1int } else { 0int }),
    {
        changed = false;
        let ghost entry_visited = visited@;
        let mut i: usize = 0;
        while i < edges.len()
            invariant
                visited@.no_duplicates(),
                visited@.len() >= 1,
                visited@[0] == from,
                forall|k: int|
                    0 <= k < visited@.len() ==> reaches(edges@, from, #[trigger] visited@[k]),
                forall|k: int|
                    0 <= k < visited@.len() ==> visited@[k] == from || exists|j: int|
                        0 <= j < edges@.len() && #[trigger] edges@[j].dst == visited@[k],
                i <= edges@.len(),
                !changed ==> visited@ == entry_visited,
                changed ==> entry_visited.len() < visited@.len(),
                forall|k: int|
                    0 <= k < entry_visited.len() ==> visited@[k] == entry_visited[k] && visited@.len()
                        >= entry_visited.len(),
                !changed ==> forall|j: int|
                    0 <= j < i && visited@.contains(#[trigger] edges@[j].src) ==> visited@.contains(
                        edges@[j].dst,
                    ),
            decreases edges@.len() - i,
        {
            let e = edges[i];
            if sym_vec_contains(&visited, e.src) && !sym_vec_contains(&visited, e.dst) {
                proof {
                    let k = choose|k: int| 0 <= k < visited@.len() && visited@[k] == e.src;
                    assert(edge_in(edges@, e.src, e.dst));
                    lemma_reaches_step(edges@, from, e.src, e.dst);
                }
                visited.push(e.dst);
                changed = true;
            }
            i = i + 1;
        }
        proof {
            lemma_visited_bound(visited@, edges@, from);
        }
    }
    let r = sym_vec_contains(&visited, to);
    proof {
        if r {
            let k = choose|k: int| 0 <= k < visited@.len() && visited@[k] == to;
        } else {
            if reaches(edges@, from, to) {
                let p = choose|p: Seq<SymRef>|
                    #[trigger] is_path(edges@, p) && p.first() == from && p.last() == to;
                let v = visited@.to_set();
                assert(visited@.contains(from));
                assert(v.contains(from));
                assert forall|a: SymRef, b: SymRef|
                    v.contains(a) && #[trigger] edge_in(edges@, a, b) implies v.contains(b) by {
                    let j = choose|j: int|
                        0 <= j < edges@.len() && edges@[j].src == a && edges@[j].dst == b;
                    assert(visited@.contains(edges@[j].src));
                }
                lemma_path_stays_in_closed_set(edges@, p, v);
            }
        }
    }
    r
}

/// Whether the whole edge list is acyclic, by checking every edge.
pub(crate) fn acyclic_exec(edges: &Vec<DepEdge>) -> (r: bool)
    ensures
        r == acyclic(edges@),
{
    let mut i: usize = 0;
    while i < edges.len()
        invariant
            i <= edges@.len(),
            forall|k: int|
                0 <= k < i ==> !reaches(edges@, #[trigger] edges@[k].dst, edges@[k].src),
        decreases edges@.len() - i,
    {
        let e = edges[i];
        if reaches_exec(edges, e.dst, e.src) {
            return false;
        }
        i = i + 1;
    }
    true
}

/// The symbols of one namespace that a responsibility's symbol will wait on.
#[derive(Clone, Debug)]
pub struct DependenceMapPair {
    pub jit_dylib: JITDylib,
    pub names: Vec<SymbolStringPoolEntry>,
}

impl DependenceMapPair {
    pub fn new(jit_dylib: JITDylib, names: Vec<SymbolStringPoolEntry>) -> (r: Self)
        ensures
            r.jit_dylib == jit_dylib,
            r.names == names,
    {
        DependenceMapPair { jit_dylib, names }
    }

    pub fn get_jit_dylib(&self) -> (r: &JITDylib)
        ensures
            r == self.jit_dylib,
    {
        &self.jit_dylib
    }

    pub fn jit_dylib(self) -> (r: JITDylib)
        ensures
            r == self.jit_dylib,
    {
        self.jit_dylib
    }

    pub fn get_names(&self) -> (r: &Vec<SymbolStringPoolEntry>)
        ensures
            r == self.names,
    {
        &self.names
    }

    pub fn names(self) -> (r: Vec<SymbolStringPoolEntry>)
        ensures
            r == self.names,
    {
        self.names
    }

    pub fn destruct(self) -> (r: (JITDylib, Vec<SymbolStringPoolEntry>))
        ensures
            r.0 == self.jit_dylib,
            r.1 == self.names,
    {
        (self.jit_dylib, self.names)
    }
}

/// A dependence request: for each named namespace, the symbols to wait on.
#[derive(Clone, Debug)]
pub struct DependenceMapPairs {
    pub pairs: Vec<DependenceMapPair>,
}

impl DependenceMapPairs {
    pub fn new(pairs: Vec<DependenceMapPair>) -> (r: Self)
        ensures
            r.pairs == pairs,
    {
        DependenceMapPairs { pairs }
    }

    pub fn len(&self) -> (r: usize)
        ensures
            r == self.pairs@.len(),
    {
        self.pairs.len()
    }

    pub fn get(&self, i: usize) -> (r: &DependenceMapPair)
        requires
            i < self.pairs@.len(),
        ensures
            r == self.pairs@[i as int],
    {
        &self.pairs[i]
    }
}

impl DependenceMapPairs {
    /// The named namespaces, in request order.
    pub fn jit_dylibs(self) -> (r: Vec<JITDylib>)
        ensures
            r@ == self.pairs@.map_values(|p: DependenceMapPair| p.jit_dylib),
    {
        let mut out: Vec<JITDylib> = Vec::new();
        let mut i: usize = 0;
        while i < self.pairs.len()
            invariant
                i <= self.pairs@.len(),
                out@ == self.pairs@.take(i as int).map_values(
                    |p: DependenceMapPair| p.jit_dylib,
                ),
            decreases self.pairs@.len() - i,
        {
            out.push(self.pairs[i].jit_dylib);
            proof {
                assert(self.pairs@.take(i + 1) == self.pairs@.take(i as int).push(
                    self.pairs@[i as int],
                ));
            }
            i = i + 1;
        }
        proof {
            assert(self.pairs@.take(self.pairs@.len() as int) == self.pairs@);
        }
        out
    }
}

} // verus!
