//! The directed graph store: dense internal node indices, an injective
//! mapping from external identifiers to internal indices, and out-adjacency
//! lists in edge-insertion order.
//!
//! A ghost `GraphModel` mirrors the store, and `build_model` states how a
//! sequence of edge insertions determines the store's final contents.

use vstd::prelude::*;

verus! {

/// The mathematical content of a `Graph`: the out-adjacency lists (internal
/// indices) and the external identifier of each internal node.
#[verifier::ext_equal]
pub ghost struct GraphModel {
    pub adj: Seq<Seq<usize>>,
    pub ext: Seq<u64>,
}

/// Index of the first occurrence of `id` in `ext`, or `ext.len()` if absent.
pub open spec fn find_ext(ext: Seq<u64>, id: u64) -> int
    decreases ext.len(),
{
    if ext.len() == 0 {
        0
    } else if ext[0] == id {
        0
    } else {
        1 + find_ext(ext.drop_first(), id)
    }
}

pub proof fn lemma_find_ext_props(ext: Seq<u64>, id: u64)
    ensures
        0 <= find_ext(ext, id) <= ext.len(),
        find_ext(ext, id) < ext.len() ==> ext[find_ext(ext, id)] == id,
        forall|j: int| 0 <= j < find_ext(ext, id) ==> ext[j] != id,
        find_ext(ext, id) == ext.len() ==> !ext.contains(id),
    decreases ext.len(),
{
    if ext.len() > 0 && ext[0] != id {
        lemma_find_ext_props(ext.drop_first(), id);
        let f = find_ext(ext, id);
        assert(forall|j: int| 1 <= j < f ==> ext[j] == ext.drop_first()[j - 1]);
        if f == ext.len() {
            assert forall|j: int| 0 <= j < ext.len() implies ext[j] != id by {
                if j >= 1 {
                    assert(ext[j] == ext.drop_first()[j - 1]);
                }
            }
        }
    }
}

/// Total number of edges: the sum of the out-list lengths.
pub open spec fn total_edges(g: Seq<Seq<usize>>) -> nat
    decreases g.len(),
{
    if g.len() == 0 {
        0
    } else {
        total_edges(g.drop_last()) + g.last().len()
    }
}

pub proof fn lemma_total_edges_push(g: Seq<Seq<usize>>, row: Seq<usize>)
    ensures
        total_edges(g.push(row)) == total_edges(g) + row.len(),
{
    assert(g.push(row).drop_last() =~= g);
}

pub proof fn lemma_total_edges_update(g: Seq<Seq<usize>>, i: int, row: Seq<usize>)
    requires
        0 <= i < g.len(),
    ensures
        total_edges(g.update(i, row)) == total_edges(g) - g[i].len() + row.len(),
    decreases g.len(),
{
    let gu = g.update(i, row);
    if i == g.len() - 1 {
        assert(gu.drop_last() =~= g.drop_last());
        assert(gu.last() == row);
    } else {
        assert(gu.drop_last() =~= g.drop_last().update(i, row));
        assert(gu.last() == g.last());
        lemma_total_edges_update(g.drop_last(), i, row);
    }
}

/// Resolving an external identifier in the model: an existing identifier
/// keeps its index; a new one is appended with an empty out-list.
pub open spec fn model_resolve(m: GraphModel, id: u64) -> (GraphModel, int) {
    let f = find_ext(m.ext, id);
    if f < m.ext.len() {
        (m, f)
    } else {
        (GraphModel { adj: m.adj.push(Seq::empty()), ext: m.ext.push(id) }, m.ext.len() as int)
    }
}

/// Inserting one directed edge into the model: resolve the source, then the
/// target, then append the target's index to the source's out-list.
pub open spec fn model_insert_edge(m: GraphModel, e: (u64, u64)) -> GraphModel {
    let (m1, s) = model_resolve(m, e.0);
    let (m2, t) = model_resolve(m1, e.1);
    GraphModel { adj: m2.adj.update(s, m2.adj[s].push(t as usize)), ext: m2.ext }
}

/// The model that inserting a sequence of edges into an empty graph builds.
pub open spec fn build_model(es: Seq<(u64, u64)>) -> GraphModel
    decreases es.len(),
{
    if es.len() == 0 {
        GraphModel { adj: Seq::empty(), ext: Seq::empty() }
    } else {
        model_insert_edge(build_model(es.drop_last()), es.last())
    }
}

/// Every stored edge target is a valid node index.
pub open spec fn valid_adj(g: Seq<Seq<usize>>) -> bool {
    forall|i: int, j: int|
        0 <= i < g.len() && 0 <= j < g[i].len() ==> (#[trigger] g[i][j]) < g.len()
}

/// `id` occurs as an endpoint of some edge in `es`.
pub open spec fn id_appears(es: Seq<(u64, u64)>, id: u64) -> bool {
    exists|k: int| 0 <= k < es.len() && ((#[trigger] es[k]).0 == id || es[k].1 == id)
}

/// The built model has one out-list per external identifier, and exactly
/// one stored edge per inserted edge.
pub proof fn lemma_build_model_edges(es: Seq<(u64, u64)>)
    ensures
        build_model(es).adj.len() == build_model(es).ext.len(),
        total_edges(build_model(es).adj) == es.len(),
    decreases es.len(),
{
    if es.len() > 0 {
        lemma_build_model_edges(es.drop_last());
        let m = build_model(es.drop_last());
        let e = es.last();
        lemma_find_ext_props(m.ext, e.0);
        let (m1, s) = model_resolve(m, e.0);
        if find_ext(m.ext, e.0) == m.ext.len() {
            lemma_total_edges_push(m.adj, Seq::empty());
        }
        lemma_find_ext_props(m1.ext, e.1);
        let (m2, t) = model_resolve(m1, e.1);
        if find_ext(m1.ext, e.1) == m1.ext.len() {
            lemma_total_edges_push(m1.adj, Seq::empty());
        }
        lemma_total_edges_update(m2.adj, s, m2.adj[s].push(t as usize));
    }
}

/// The built model's external identifiers are pairwise distinct and are
/// exactly the identifiers that occur in the inserted edges.
pub proof fn lemma_model_nodes(es: Seq<(u64, u64)>)
    ensures
        build_model(es).ext.no_duplicates(),
        forall|id: u64| build_model(es).ext.contains(id) <==> id_appears(es, id),
    decreases es.len(),
{
    if es.len() > 0 {
        lemma_model_nodes(es.drop_last());
        let prev = es.drop_last();
        let m = build_model(prev);
        let e = es.last();
        lemma_find_ext_props(m.ext, e.0);
        let (m1, s) = model_resolve(m, e.0);
        lemma_find_ext_props(m1.ext, e.1);
        let (m2, t) = model_resolve(m1, e.1);
        let mfin = build_model(es);
        assert(mfin.ext == m2.ext);
        assert forall|id: u64| m1.ext.contains(id) <==> (m.ext.contains(id) || id == e.0) by {
            if m1.ext.contains(id) && m1.ext != m.ext {
                let w = choose|w: int| 0 <= w < m1.ext.len() && m1.ext[w] == id;
                if w < m.ext.len() {
                    assert(m.ext.contains(id));
                }
            }
            if m.ext.contains(id) && m1.ext != m.ext {
                let w = choose|w: int| 0 <= w < m.ext.len() && m.ext[w] == id;
                assert(m1.ext[w] == id);
            }
            if id == e.0 && m1.ext != m.ext {
                assert(m1.ext[m.ext.len() as int] == id);
            }
        }
        assert forall|id: u64| m2.ext.contains(id) <==> (m1.ext.contains(id) || id == e.1) by {
            if m2.ext.contains(id) && m2.ext != m1.ext {
                let w = choose|w: int| 0 <= w < m2.ext.len() && m2.ext[w] == id;
                if w < m1.ext.len() {
                    assert(m1.ext.contains(id));
                }
            }
            if m1.ext.contains(id) && m2.ext != m1.ext {
                let w = choose|w: int| 0 <= w < m1.ext.len() && m1.ext[w] == id;
                assert(m2.ext[w] == id);
            }
            if id == e.1 && m2.ext != m1.ext {
                assert(m2.ext[m1.ext.len() as int] == id);
            }
        }
        assert forall|id: u64| id_appears(es, id) <==> (id_appears(prev, id) || id == e.0 || id
            == e.1) by {
            if id_appears(es, id) {
                let k = choose|k: int|
                    0 <= k < es.len() && ((#[trigger] es[k]).0 == id || es[k].1 == id);
                if k < prev.len() {
                    assert(prev[k] == es[k]);
                    assert(id_appears(prev, id));
                }
            }
            if id_appears(prev, id) {
                let k = choose|k: int|
                    0 <= k < prev.len() && ((#[trigger] prev[k]).0 == id || prev[k].1 == id);
                assert(es[k] == prev[k]);
                assert(id_appears(es, id));
            }
            if id == e.0 || id == e.1 {
                assert(es[es.len() - 1] == e);
                assert(id_appears(es, id));
            }
        }
        // Distinctness: each push appends an identifier that is absent.
        if m1.ext != m.ext {
            assert(m1.ext.no_duplicates()) by {
                assert(forall|x: int, y: int|
                    0 <= x < y < m1.ext.len() ==> m1.ext[x] != m1.ext[y]) by {
                    assert forall|x: int, y: int|
                        0 <= x < y < m1.ext.len() implies m1.ext[x] != m1.ext[y] by {
                        if y < m.ext.len() {
                        } else {
                            assert(m1.ext[y] == e.0);
                            if m1.ext[x] == e.0 {
                                assert(m.ext.contains(e.0));
                            }
                        }
                    }
                }
            }
        }
        if m2.ext != m1.ext {
            assert(m2.ext.no_duplicates()) by {
                assert forall|x: int, y: int|
                    0 <= x < y < m2.ext.len() implies m2.ext[x] != m2.ext[y] by {
                    if y < m1.ext.len() {
                    } else {
                        assert(m2.ext[y] == e.1);
                        if m2.ext[x] == e.1 {
                            assert(m1.ext.contains(e.1));
                        }
                    }
                }
            }
        }
    }
}

proof fn lemma_find_ext_map(ext: Seq<u64>, id: u64, f: spec_fn(u64) -> u64)
    requires
        forall|a: u64, b: u64| #[trigger] f(a) == #[trigger] f(b) ==> a == b,
    ensures
        find_ext(ext.map_values(f), f(id)) == find_ext(ext, id),
    decreases ext.len(),
{
    if ext.len() > 0 {
        assert(ext.map_values(f)[0] == f(ext[0]));
        if f(ext[0]) == f(id) {
            assert(ext[0] == id);
        }
        if ext[0] != id {
            lemma_find_ext_map(ext.drop_first(), id, f);
            assert(ext.map_values(f).drop_first() =~= ext.drop_first().map_values(f));
        }
    }
}

/// Law: relabeling the external identifiers by any injective mapping
/// leaves the graph structure, and with it every statistic computed from
/// the adjacency lists, unchanged; only the identifier carried by each
/// node is mapped.
pub proof fn lemma_relabel_invariant(es: Seq<(u64, u64)>, f: spec_fn(u64) -> u64)
    requires
        forall|a: u64, b: u64| #[trigger] f(a) == #[trigger] f(b) ==> a == b,
    ensures
        build_model(es.map_values(|e: (u64, u64)| (f(e.0), f(e.1)))).adj == build_model(es).adj,
        build_model(es.map_values(|e: (u64, u64)| (f(e.0), f(e.1)))).ext == build_model(
            es,
        ).ext.map_values(f),
    decreases es.len(),
{
    let fe = |e: (u64, u64)| (f(e.0), f(e.1));
    let es2 = es.map_values(fe);
    if es.len() == 0 {
        assert(build_model(es2).ext =~= build_model(es).ext.map_values(f));
    } else {
        lemma_relabel_invariant(es.drop_last(), f);
        assert(es2.drop_last() =~= es.drop_last().map_values(fe));
        assert(es2.last() == fe(es.last()));
        let m = build_model(es.drop_last());
        let m2 = build_model(es.drop_last().map_values(fe));
        let e = es.last();
        lemma_find_ext_map(m.ext, e.0, f);
        let (ma, s) = model_resolve(m, e.0);
        let (ma2, s2) = model_resolve(m2, fe(e).0);
        assert(s2 == s);
        if find_ext(m.ext, e.0) == m.ext.len() {
            assert(ma2.ext =~= ma.ext.map_values(f));
        }
        assert(ma2.ext == ma.ext.map_values(f));
        assert(ma2.adj == ma.adj);
        lemma_find_ext_map(ma.ext, e.1, f);
        let (mb, t) = model_resolve(ma, e.1);
        let (mb2, t2) = model_resolve(ma2, fe(e).1);
        assert(t2 == t);
        if find_ext(ma.ext, e.1) == ma.ext.len() {
            assert(mb2.ext =~= mb.ext.map_values(f));
        }
        assert(mb2.ext == mb.ext.map_values(f));
        assert(mb2.adj == mb.adj);
        assert(build_model(es2).adj == mb2.adj.update(s2, mb2.adj[s2].push(t2 as usize)));
        assert(build_model(es).adj == mb.adj.update(s, mb.adj[s].push(t as usize)));
    }
}

/// Law: appending a line that duplicates an edge already in the list
/// raises the edge count by exactly one and leaves the node set unchanged:
/// duplicate lines count toward the edge count but never inflate the node
/// count.
pub proof fn lemma_duplicate_edge(es: Seq<(u64, u64)>, k: int)
    requires
        0 <= k < es.len(),
    ensures
        build_model(es.push(es[k])).ext == build_model(es).ext,
        total_edges(build_model(es.push(es[k])).adj) == total_edges(build_model(es).adj) + 1,
{
    let e = es[k];
    let m = build_model(es);
    lemma_model_nodes(es);
    assert(id_appears(es, e.0));
    assert(id_appears(es, e.1));
    lemma_find_ext_props(m.ext, e.0);
    lemma_find_ext_props(m.ext, e.1);
    assert(es.push(e).drop_last() =~= es);
    assert(build_model(es.push(e)) == model_insert_edge(m, e));
    lemma_build_model_edges(es);
    lemma_build_model_edges(es.push(e));
}

/// The directed graph store. Built once by edge insertion, then read-only.
pub struct Graph {
    adj: Vec<Vec<usize>>,
    ext: Vec<u64>,
    edges: usize,
}

impl Graph {
    /// Out-adjacency lists by internal node index, as a sequence of sequences.
    pub closed spec fn adj(&self) -> Seq<Seq<usize>> {
        Seq::new(self.adj@.len(), |i: int| self.adj@[i]@)
    }

    /// External identifier of each internal node, in discovery order.
    pub closed spec fn ext(&self) -> Seq<u64> {
        self.ext@
    }

    /// Number of edges ever inserted.
    pub closed spec fn spec_edge_count(&self) -> nat {
        self.edges as nat
    }

    pub open spec fn model(&self) -> GraphModel {
        GraphModel { adj: self.adj(), ext: self.ext() }
    }

    /// Well-formedness: one external identifier per node, external
    /// identifiers pairwise distinct, every edge target a valid node, and
    /// the edge counter equal to the number of stored edges.
    pub open spec fn wf(&self) -> bool {
        &&& self.adj().len() == self.ext().len()
        &&& valid_adj(self.adj())
        &&& self.ext().no_duplicates()
        &&& self.spec_edge_count() == total_edges(self.adj())
    }

    pub fn new() -> (g: Graph)
        ensures
            g.wf(),
            g.adj() =~= Seq::<Seq<usize>>::empty(),
            g.ext() =~= Seq::<u64>::empty(),
    {
        Graph { adj: Vec::new(), ext: Vec::new(), edges: 0 }
    }

    pub fn node_count(&self) -> (n: usize)
        ensures
            n == self.adj().len(),
    {
        self.adj.len()
    }

    pub fn edge_count(&self) -> (m: usize)
        ensures
            m == self.spec_edge_count(),
    {
        self.edges
    }

    /// Out-degree of a node, parallel edges included.
    pub fn out_degree(&self, v: usize) -> (d: usize)
        requires
            v < self.adj().len(),
        ensures
            d == self.adj()[v as int].len(),
    {
        self.adj[v].len()
    }

    /// The `j`-th out-neighbor of `v`, in edge-insertion order.
    pub fn neighbor(&self, v: usize, j: usize) -> (w: usize)
        requires
            v < self.adj().len(),
            j < self.adj()[v as int].len(),
        ensures
            w == self.adj()[v as int][j as int],
    {
        self.adj[v][j]
    }

    /// External identifier of internal node `v`.
    pub fn external_id(&self, v: usize) -> (id: u64)
        requires
            self.wf(),
            v < self.adj().len(),
        ensures
            id == self.ext()[v as int],
    {
        self.ext[v]
    }

    /// Internal index of `id`, inserting a fresh node if `id` is unseen.
    #[verifier::loop_isolation(false)]
    fn resolve_node(&mut self, id: u64) -> (i: usize)
        requires
            old(self).wf(),
        ensures
            final(self).wf(),
            (final(self).model(), i as int) == model_resolve(old(self).model(), id),
            final(self).spec_edge_count() == old(self).spec_edge_count(),
            i < final(self).adj().len(),
    {
        proof {
            lemma_find_ext_props(self.ext(), id);
        }
        let ghost f = find_ext(self.ext(), id);
        let n = self.ext.len();
        let mut k: usize = 0;
        while k < n
            invariant
                n == self.ext@.len(),
                k <= n,
                forall|j: int| 0 <= j < k ==> self.ext@[j] != id,
            decreases n - k,
        {
            if self.ext[k] == id {
                proof {
                    // `k` is the first occurrence, hence equals `find_ext`.
                    if f < k {
                        assert(self.ext()[f] == id);
                    }
                    assert(f == k as int);
                }
                return k;
            }
            k += 1;
        }
        proof {
            assert(f == n as int);
        }
        self.ext.push(id);
        self.adj.push(Vec::new());
        proof {
            assert(self.adj() =~= old(self).adj().push(Seq::empty()));
            assert(self.ext() =~= old(self).ext().push(id));
            lemma_total_edges_push(old(self).adj(), Seq::empty());
        }
        n
    }

    /// Insert a directed edge from external identifier `sid` to `tid`,
    /// creating either endpoint's node if it is unseen.
    pub fn insert_edge(&mut self, sid: u64, tid: u64)
        requires
            old(self).wf(),
            old(self).spec_edge_count() < usize::MAX,
        ensures
            final(self).wf(),
            final(self).model() == model_insert_edge(old(self).model(), (sid, tid)),
            final(self).spec_edge_count() == old(self).spec_edge_count() + 1,
    {
        let s = self.resolve_node(sid);
        let t = self.resolve_node(tid);
        let ghost before = self.adj();
        self.adj[s].push(t);
        self.edges = self.edges + 1;
        proof {
            assert(self.adj() =~= before.update(s as int, before[s as int].push(t)));
            lemma_total_edges_update(before, s as int, before[s as int].push(t));
            assert(self.model() =~= model_insert_edge(old(self).model(), (sid, tid)));
        }
    }
}

} // verus!
