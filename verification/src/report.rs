//! The statistics report: counts, the extremal-degree nodes by external
//! identifier, and the three headline aggregates. Extremal queries on an
//! empty graph return an explicit absent value rather than failing.

use vstd::prelude::*;
use crate::graph::Graph;
use crate::stats::{total_depth_sum, total_pair_count, total_max_depth};
use crate::clustering::{node_closed_pairs, node_possible_pairs};

verus! {

/// `i` is the first node index attaining the maximum out-degree
/// (parallel edges included).
pub open spec fn is_first_max_degree(g: Seq<Seq<usize>>, i: int) -> bool {
    &&& 0 <= i < g.len()
    &&& forall|j: int| 0 <= j < g.len() ==> (#[trigger] g[j]).len() <= g[i].len()
    &&& forall|j: int| 0 <= j < i ==> (#[trigger] g[j]).len() < g[i].len()
}

/// `i` is the first node index attaining the minimum out-degree.
pub open spec fn is_first_min_degree(g: Seq<Seq<usize>>, i: int) -> bool {
    &&& 0 <= i < g.len()
    &&& forall|j: int| 0 <= j < g.len() ==> (#[trigger] g[j]).len() >= g[i].len()
    &&& forall|j: int| 0 <= j < i ==> (#[trigger] g[j]).len() > g[i].len()
}

/// All statistics of one run, with exact integer aggregates. The average
/// degree of separation is `separation.0 / separation.1` (zero when the
/// pair count is zero); a node's clustering coefficient is
/// `clustering[v].0 / clustering[v].1` (zero when no pair is possible).
pub struct GraphReport {
    pub node_count: usize,
    pub edge_count: usize,
    pub separation: Option<(u64, u64)>,
    pub largest_separation: usize,
    pub clustering: Vec<(u128, u128)>,
    pub highest_degree: Option<u64>,
    pub lowest_degree: Option<u64>,
}

impl Graph {
    /// External identifier of the node with the highest out-degree,
    /// parallel edges counted, the first-discovered node winning ties;
    /// absent exactly on the empty graph.
    #[verifier::loop_isolation(false)]
    pub fn highest_degree_node(&self) -> (r: Option<u64>)
        requires
            self.wf(),
        ensures
            (r is Some) <==> self.adj().len() > 0,
            r matches Some(id) ==> exists|i: int|
                #[trigger] is_first_max_degree(self.adj(), i) && id == self.ext()[i],
    {
        let n = self.node_count();
        if n == 0 {
            return None;
        }
        let mut best: usize = 0;
        let mut bestdeg = self.out_degree(0);
        let mut i: usize = 1;
        while i < n
            invariant
                1 <= i <= n,
                (best as int) < i,
                bestdeg == self.adj()[best as int].len(),
                forall|j: int| 0 <= j < i ==> (#[trigger] self.adj()[j]).len() <= bestdeg,
                forall|j: int| 0 <= j < best ==> (#[trigger] self.adj()[j]).len() < bestdeg,
            decreases n - i,
        {
            let deg = self.out_degree(i);
            if deg > bestdeg {
                best = i;
                bestdeg = deg;
            }
            i += 1;
        }
        proof {
            assert(is_first_max_degree(self.adj(), best as int));
        }
        Some(self.external_id(best))
    }

    /// External identifier of the node with the lowest out-degree,
    /// parallel edges counted, the first-discovered node winning ties;
    /// absent exactly on the empty graph.
    #[verifier::loop_isolation(false)]
    pub fn lowest_degree_node(&self) -> (r: Option<u64>)
        requires
            self.wf(),
        ensures
            (r is Some) <==> self.adj().len() > 0,
            r matches Some(id) ==> exists|i: int|
                #[trigger] is_first_min_degree(self.adj(), i) && id == self.ext()[i],
    {
        let n = self.node_count();
        if n == 0 {
            return None;
        }
        let mut best: usize = 0;
        let mut bestdeg = self.out_degree(0);
        let mut i: usize = 1;
        while i < n
            invariant
                1 <= i <= n,
                (best as int) < i,
                bestdeg == self.adj()[best as int].len(),
                forall|j: int| 0 <= j < i ==> (#[trigger] self.adj()[j]).len() >= bestdeg,
                forall|j: int| 0 <= j < best ==> (#[trigger] self.adj()[j]).len() > bestdeg,
            decreases n - i,
        {
            let deg = self.out_degree(i);
            if deg < bestdeg {
                best = i;
                bestdeg = deg;
            }
            i += 1;
        }
        proof {
            assert(is_first_min_degree(self.adj(), best as int));
        }
        Some(self.external_id(best))
    }

    /// Assemble the full report.
    pub fn statistics(&self) -> (r: GraphReport)
        requires
            self.wf(),
        ensures
            r.node_count == self.adj().len(),
            r.edge_count == self.spec_edge_count(),
            match r.separation {
                Some(t) => t.0 == total_depth_sum(self.adj(), self.adj().len() as int) && t.1
                    == total_pair_count(self.adj(), self.adj().len() as int),
                None => total_depth_sum(self.adj(), self.adj().len() as int) > u64::MAX
                    || total_pair_count(self.adj(), self.adj().len() as int) > u64::MAX,
            },
            r.largest_separation == total_max_depth(self.adj(), self.adj().len() as int),
            r.clustering@.len() == self.adj().len(),
            forall|v: int|
                0 <= v < r.clustering@.len() ==> (#[trigger] r.clustering@[v]).0
                    == node_closed_pairs(self.adj(), v) && r.clustering@[v].1
                    == node_possible_pairs(self.adj(), v) && r.clustering@[v].0
                    <= r.clustering@[v].1,
            (r.highest_degree is Some) <==> self.adj().len() > 0,
            r.highest_degree matches Some(id) ==> exists|i: int|
                #[trigger] is_first_max_degree(self.adj(), i) && id == self.ext()[i],
            (r.lowest_degree is Some) <==> self.adj().len() > 0,
            r.lowest_degree matches Some(id) ==> exists|i: int|
                #[trigger] is_first_min_degree(self.adj(), i) && id == self.ext()[i],
    {
        GraphReport {
            node_count: self.node_count(),
            edge_count: self.edge_count(),
            separation: self.separation_totals(),
            largest_separation: self.largest_degree_of_separation(),
            clustering: self.clustering_fractions(),
            highest_degree: self.highest_degree_node(),
            lowest_degree: self.lowest_degree_node(),
        }
    }
}

} // verus!
