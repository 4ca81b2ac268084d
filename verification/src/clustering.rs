//! Local clustering coefficients. For each node the distinct out-neighbor
//! set is formed (parallel edges collapse to one neighbor), every unordered
//! pair of distinct neighbors is tested for an edge in either direction,
//! and the node's coefficient is the closed-pair count over the possible
//! pair count. The division is left to the presentation layer; the library
//! returns the exact pair of counts per node.

use vstd::prelude::*;
use crate::graph::{Graph, valid_adj, build_model, lemma_relabel_invariant};
use crate::traversal::has_edge;

verus! {

/// First-occurrence deduplication of a neighbor list.
pub open spec fn dedup(s: Seq<usize>) -> Seq<usize>
    decreases s.len(),
{
    if s.len() == 0 {
        Seq::empty()
    } else if s.drop_last().contains(s.last()) {
        dedup(s.drop_last())
    } else {
        dedup(s.drop_last()).push(s.last())
    }
}

pub proof fn lemma_dedup_props(s: Seq<usize>)
    ensures
        dedup(s).no_duplicates(),
        forall|x: usize| dedup(s).contains(x) <==> s.contains(x),
        dedup(s).len() <= s.len(),
    decreases s.len(),
{
    if s.len() > 0 {
        lemma_dedup_props(s.drop_last());
        assert forall|x: usize| s.contains(x) <==> (s.drop_last().contains(x) || x
            == s.last()) by {
            if s.contains(x) {
                let i = choose|i: int| 0 <= i < s.len() && s[i] == x;
                if i < s.len() - 1 {
                    assert(s.drop_last()[i] == x);
                }
            }
            if s.drop_last().contains(x) {
                let i = choose|i: int| 0 <= i < s.drop_last().len() && s.drop_last()[i] == x;
                assert(s[i] == x);
            }
            if x == s.last() {
                assert(s[s.len() - 1] == x);
            }
        }
        if !s.drop_last().contains(s.last()) {
            assert forall|x: usize|
                dedup(s).contains(x) <==> (dedup(s.drop_last()).contains(x) || x
                == s.last()) by {
                let d0 = dedup(s.drop_last());
                if dedup(s).contains(x) {
                    let i = choose|i: int| 0 <= i < dedup(s).len() && dedup(s)[i] == x;
                    if i < d0.len() {
                        assert(d0[i] == x);
                    }
                }
                if d0.contains(x) {
                    let i = choose|i: int| 0 <= i < d0.len() && d0[i] == x;
                    assert(dedup(s)[i] == x);
                }
                if x == s.last() {
                    assert(dedup(s)[dedup(s).len() - 1] == x);
                }
            }
            let d0 = dedup(s.drop_last());
            assert forall|x: int, y: int|
                0 <= x < y < dedup(s).len() implies dedup(s)[x] != dedup(s)[y] by {
                if y == dedup(s).len() - 1 {
                    assert(dedup(s)[y] == s.last());
                    if dedup(s)[x] == s.last() {
                        assert(d0.contains(s.last()));
                    }
                }
            }
        }
    }
}

/// An unordered pair of nodes connected by an edge in either direction.
pub open spec fn pair_closed(g: Seq<Seq<usize>>, a: usize, b: usize) -> bool {
    has_edge(g, a as int, b as int) || has_edge(g, b as int, a as int)
}

/// How many of the pairs {d[i], d[j]} with `from <= j < d.len()` are closed.
pub open spec fn closed_with(g: Seq<Seq<usize>>, d: Seq<usize>, i: int, from: int) -> nat
    decreases d.len() - from,
{
    if from < 0 || from >= d.len() {
        0
    } else {
        (if 0 <= i < d.len() && pair_closed(g, d[i], d[from]) {
            1nat
        } else {
            0nat
        }) + closed_with(g, d, i, from + 1)
    }
}

/// How many unordered pairs {d[i], d[j]} with `lo <= i < j < d.len()` are
/// closed.
pub open spec fn closed_from(g: Seq<Seq<usize>>, d: Seq<usize>, lo: int) -> nat
    decreases d.len() - lo,
{
    if lo < 0 || lo >= d.len() {
        0
    } else {
        closed_with(g, d, lo, lo + 1) + closed_from(g, d, lo + 1)
    }
}

/// The number of unordered pairs over `len` items with first index at least
/// `lo`: the sum `(len-lo-1) + (len-lo-2) + ... + 0`.
pub open spec fn pairs_from(len: int, lo: int) -> nat
    decreases len - lo,
{
    if lo < 0 || lo >= len {
        0
    } else {
        ((len - lo - 1) as nat) + pairs_from(len, lo + 1)
    }
}

/// Closed pairs of the distinct out-neighbor set of `v`.
pub open spec fn node_closed_pairs(g: Seq<Seq<usize>>, v: int) -> nat {
    closed_from(g, dedup(g[v]), 0)
}

/// Number of distinct out-neighbors of `v`.
pub open spec fn node_distinct_out(g: Seq<Seq<usize>>, v: int) -> nat {
    dedup(g[v]).len()
}

/// All possible unordered pairs of distinct out-neighbors of `v`.
pub open spec fn node_possible_pairs(g: Seq<Seq<usize>>, v: int) -> nat {
    pairs_from(dedup(g[v]).len() as int, 0)
}

proof fn lemma_closed_with_bound(g: Seq<Seq<usize>>, d: Seq<usize>, i: int, from: int)
    requires
        0 <= from <= d.len(),
    ensures
        closed_with(g, d, i, from) <= d.len() - from,
    decreases d.len() - from,
{
    if from < d.len() {
        lemma_closed_with_bound(g, d, i, from + 1);
    }
}

/// Law: no node has more closed neighbor pairs than possible neighbor
/// pairs, so every local clustering coefficient lies within zero and one.
pub proof fn lemma_closed_le_pairs(g: Seq<Seq<usize>>, d: Seq<usize>, lo: int)
    ensures
        closed_from(g, d, lo) <= pairs_from(d.len() as int, lo),
    decreases d.len() - lo,
{
    if 0 <= lo < d.len() {
        lemma_closed_with_bound(g, d, lo, lo + 1);
        lemma_closed_le_pairs(g, d, lo + 1);
    }
}

proof fn lemma_pairs_from_bound(len: int, lo: int)
    requires
        0 <= lo <= len,
    ensures
        pairs_from(len, lo) <= len * (len - lo),
    decreases len - lo,
{
    if lo < len {
        lemma_pairs_from_bound(len, lo + 1);
        assert(len * (len - lo) == len * (len - lo - 1) + len) by (nonlinear_arith);
    }
}

/// Law: the clustering coefficients are invariant to the external
/// numbering of nodes. Relabeling every identifier of an edge list by an
/// injective mapping builds a graph whose every node has the same closed
/// and possible neighbor-pair counts.
pub proof fn lemma_relabel_preserves_clustering(es: Seq<(u64, u64)>, f: spec_fn(u64) -> u64)
    requires
        forall|a: u64, b: u64| #[trigger] f(a) == #[trigger] f(b) ==> a == b,
    ensures
        ({
            let g1 = build_model(es).adj;
            let g2 = build_model(es.map_values(|e: (u64, u64)| (f(e.0), f(e.1)))).adj;
            &&& g2.len() == g1.len()
            &&& forall|v: int|
                0 <= v < g1.len() ==> node_closed_pairs(g2, v) == node_closed_pairs(g1, v)
                    && node_possible_pairs(g2, v) == node_possible_pairs(g1, v)
        }),
{
    lemma_relabel_invariant(es, f);
}

impl Graph {
    /// Whether the graph holds an edge from `a` to `b`.
    #[verifier::loop_isolation(false)]
    pub fn contains_edge(&self, a: usize, b: usize) -> (r: bool)
        requires
            self.wf(),
            a < self.adj().len(),
            b < self.adj().len(),
        ensures
            r == has_edge(self.adj(), a as int, b as int),
    {
        let deg = self.out_degree(a);
        let mut j: usize = 0;
        while j < deg
            invariant
                j <= deg,
                forall|q: int| 0 <= q < j ==> (#[trigger] self.adj()[a as int][q]) != b,
            decreases deg - j,
        {
            if self.neighbor(a, j) == b {
                return true;
            }
            j += 1;
        }
        false
    }

    /// The distinct out-neighbors of `v`, first occurrences in order.
    #[verifier::loop_isolation(false)]
    pub fn distinct_neighbors(&self, v: usize) -> (d: Vec<usize>)
        requires
            self.wf(),
            v < self.adj().len(),
        ensures
            d@ == dedup(self.adj()[v as int]),
    {
        let ghost row = self.adj()[v as int];
        let deg = self.out_degree(v);
        let mut d: Vec<usize> = Vec::new();
        let mut j: usize = 0;
        proof {
            assert(row.subrange(0, 0) =~= Seq::<usize>::empty());
        }
        while j < deg
            invariant
                j <= deg,
                d@ == dedup(row.subrange(0, j as int)),
            decreases deg - j,
        {
            let w = self.neighbor(v, j);
            let mut found = false;
            let mut t: usize = 0;
            while t < d.len()
                invariant
                    t <= d@.len(),
                    !found ==> forall|q: int| 0 <= q < t ==> (#[trigger] d@[q]) != w,
                    found ==> d@.contains(w),
                decreases d@.len() - t,
            {
                if d[t] == w {
                    found = true;
                }
                t += 1;
            }
            proof {
                assert(row.subrange(0, j + 1).drop_last() =~= row.subrange(0, j as int));
                assert(row.subrange(0, j + 1).last() == row[j as int]);
                lemma_dedup_props(row.subrange(0, j as int));
                if !found {
                    assert(!d@.contains(w));
                }
            }
            if !found {
                d.push(w);
            }
            j += 1;
        }
        proof {
            assert(row.subrange(0, deg as int) =~= row);
        }
        d
    }

    /// Per node: the closed and the possible unordered pairs of its
    /// distinct out-neighbor set. The local clustering coefficient of a
    /// node is the first count over the second; a node with fewer than two
    /// distinct out-neighbors has no possible pair and contributes zero.
    /// The closed count never exceeds the possible count.
    #[verifier::loop_isolation(false)]
    pub fn clustering_fractions(&self) -> (r: Vec<(u128, u128)>)
        requires
            self.wf(),
        ensures
            r@.len() == self.adj().len(),
            forall|v: int|
                0 <= v < r@.len() ==> (#[trigger] r@[v]).0 == node_closed_pairs(self.adj(), v)
                    && r@[v].1 == node_possible_pairs(self.adj(), v),
            forall|v: int| 0 <= v < r@.len() ==> (#[trigger] r@[v]).0 <= r@[v].1,
    {
        let ghost gg = self.adj();
        let n = self.node_count();
        let mut r: Vec<(u128, u128)> = Vec::new();
        let mut v: usize = 0;
        while v < n
            invariant
                v <= n,
                r@.len() == v,
                forall|w: int|
                    0 <= w < v ==> (#[trigger] r@[w]).0 == node_closed_pairs(gg, w) && r@[w].1
                        == node_possible_pairs(gg, w),
                forall|w: int| 0 <= w < v ==> (#[trigger] r@[w]).0 <= r@[w].1,
            decreases n - v,
        {
            let d = self.distinct_neighbors(v);
            let k = d.len();
            let ghost kk = k as int;
            proof {
                lemma_dedup_props(gg[v as int]);
                assert forall|q: int| 0 <= q < d@.len() implies (#[trigger] d@[q])
                    < gg.len() by {
                    assert(d@.contains(d@[q]));
                    assert(gg[v as int].contains(d@[q]));
                    let t = choose|t: int|
                        0 <= t < gg[v as int].len() && gg[v as int][t] == d@[q];
                    assert(gg[v as int][t] < gg.len());
                }
                lemma_pairs_from_bound(kk, 0);
                lemma_closed_le_pairs(gg, d@, 0);
                assert((kk * kk) < u128::MAX) by (nonlinear_arith)
                    requires
                        0 <= kk <= u64::MAX,
                ;
            }
            let mut closed: u128 = 0;
            let mut possible: u128 = 0;
            let mut i: usize = 0;
            while i < k
                invariant
                    i <= k,
                    closed + closed_from(gg, d@, i as int) == closed_from(gg, d@, 0),
                    possible + pairs_from(kk, i as int) == pairs_from(kk, 0),
                decreases k - i,
            {
                let mut j: usize = i + 1;
                while j < k
                    invariant
                        i < j <= k,
                        closed + closed_with(gg, d@, i as int, j as int) + closed_from(
                            gg,
                            d@,
                            i + 1,
                        ) == closed_from(gg, d@, 0),
                        possible + ((k - j) as nat) + pairs_from(kk, i + 1) == pairs_from(
                            kk,
                            0,
                        ),
                    decreases k - j,
                {
                    possible = possible + 1;
                    if self.contains_edge(d[i], d[j]) || self.contains_edge(d[j], d[i]) {
                        closed = closed + 1;
                    }
                    j += 1;
                }
                i += 1;
            }
            r.push((closed, possible));
            v += 1;
        }
        r
    }
}

} // verus!
