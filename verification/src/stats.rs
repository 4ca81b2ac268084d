//! Degree-of-separation statistics: breadth-first search is run from every
//! node, and the depths of all reached (start, node) pairs are aggregated
//! into an exact sum, a pair count, and a maximum. The average degree of
//! separation is the quotient of the sum by the pair count; it is left to
//! the presentation layer as an exact pair of integers.

use vstd::prelude::*;
use crate::graph::{Graph, build_model, lemma_relabel_invariant};
use crate::traversal::{
    reachable_within, is_depth, reaches, lemma_depth_exists, lemma_depth_unique,
};

verus! {

/// The exact breadth-first depth of `v` from `s`, for reachable `v`.
pub open spec fn spec_depth(g: Seq<Seq<usize>>, s: int, v: int) -> nat {
    choose|d: nat| is_depth(g, s, v, d)
}

/// A reachable node's `spec_depth` is its exact depth.
pub proof fn lemma_spec_depth(g: Seq<Seq<usize>>, s: int, v: int, k: nat)
    requires
        reachable_within(g, s, v, k),
    ensures
        is_depth(g, s, v, spec_depth(g, s, v)),
        spec_depth(g, s, v) <= k,
{
    lemma_depth_exists(g, s, v, k);
    let d = choose|d: nat| d <= k && #[trigger] is_depth(g, s, v, d);
    assert(is_depth(g, s, v, spec_depth(g, s, v)));
    lemma_depth_unique(g, s, v, d, spec_depth(g, s, v));
}

/// Sum of the depths of the nodes below `upto` reached from `s`.
pub open spec fn row_depth_sum(g: Seq<Seq<usize>>, s: int, upto: int) -> nat
    decreases upto,
{
    if upto <= 0 {
        0
    } else {
        row_depth_sum(g, s, upto - 1) + (if reaches(g, s, upto - 1) {
            spec_depth(g, s, upto - 1)
        } else {
            0
        })
    }
}

/// Number of nodes below `upto` reached from `s`, the start itself included.
pub open spec fn row_pair_count(g: Seq<Seq<usize>>, s: int, upto: int) -> nat
    decreases upto,
{
    if upto <= 0 {
        0
    } else {
        row_pair_count(g, s, upto - 1) + (if reaches(g, s, upto - 1) {
            1nat
        } else {
            0nat
        })
    }
}

/// Sum of all reached depths over the traversals started below `upto`.
pub open spec fn total_depth_sum(g: Seq<Seq<usize>>, upto: int) -> nat
    decreases upto,
{
    if upto <= 0 {
        0
    } else {
        total_depth_sum(g, upto - 1) + row_depth_sum(g, upto - 1, g.len() as int)
    }
}

/// Number of reached (start, node) pairs over the traversals started below
/// `upto`.
pub open spec fn total_pair_count(g: Seq<Seq<usize>>, upto: int) -> nat
    decreases upto,
{
    if upto <= 0 {
        0
    } else {
        total_pair_count(g, upto - 1) + row_pair_count(g, upto - 1, g.len() as int)
    }
}

pub open spec fn nmax(a: nat, b: nat) -> nat {
    if a >= b {
        a
    } else {
        b
    }
}

/// Largest depth among the nodes below `upto` reached from `s`.
pub open spec fn row_max_depth(g: Seq<Seq<usize>>, s: int, upto: int) -> nat
    decreases upto,
{
    if upto <= 0 {
        0
    } else {
        nmax(
            row_max_depth(g, s, upto - 1),
            if reaches(g, s, upto - 1) {
                spec_depth(g, s, upto - 1)
            } else {
                0
            },
        )
    }
}

/// Largest depth observed over the traversals started below `upto`.
pub open spec fn total_max_depth(g: Seq<Seq<usize>>, upto: int) -> nat
    decreases upto,
{
    if upto <= 0 {
        0
    } else {
        nmax(total_max_depth(g, upto - 1), row_max_depth(g, upto - 1, g.len() as int))
    }
}

proof fn lemma_row_mono(g: Seq<Seq<usize>>, s: int, a: int, b: int)
    requires
        0 <= a <= b,
    ensures
        row_depth_sum(g, s, a) <= row_depth_sum(g, s, b),
        row_pair_count(g, s, a) <= row_pair_count(g, s, b),
    decreases b,
{
    if a < b {
        lemma_row_mono(g, s, a, b - 1);
    }
}

proof fn lemma_total_mono(g: Seq<Seq<usize>>, a: int, b: int)
    requires
        0 <= a <= b,
    ensures
        total_depth_sum(g, a) <= total_depth_sum(g, b),
        total_pair_count(g, a) <= total_pair_count(g, b),
    decreases b,
{
    if a < b {
        lemma_total_mono(g, a, b - 1);
    }
}

/// A partial accumulation never exceeds the grand total.
proof fn lemma_partial_le_total(g: Seq<Seq<usize>>, s: int, v: int)
    requires
        0 <= s < g.len(),
        0 <= v <= g.len(),
    ensures
        total_depth_sum(g, s) + row_depth_sum(g, s, v) <= total_depth_sum(g, g.len() as int),
        total_pair_count(g, s) + row_pair_count(g, s, v) <= total_pair_count(
            g,
            g.len() as int,
        ),
{
    lemma_row_mono(g, s, v, g.len() as int);
    lemma_total_mono(g, s + 1, g.len() as int);
}

/// Law: the degree-of-separation statistics are invariant to the external
/// numbering of nodes. Relabeling every identifier of an edge list by an
/// injective mapping builds a graph with the same depth sum, the same
/// reached-pair count, and the same largest depth, so the average and the
/// maximum degree of separation are unchanged.
pub proof fn lemma_relabel_preserves_separation(es: Seq<(u64, u64)>, f: spec_fn(u64) -> u64)
    requires
        forall|a: u64, b: u64| #[trigger] f(a) == #[trigger] f(b) ==> a == b,
    ensures
        ({
            let g1 = build_model(es).adj;
            let g2 = build_model(es.map_values(|e: (u64, u64)| (f(e.0), f(e.1)))).adj;
            &&& total_depth_sum(g2, g2.len() as int) == total_depth_sum(g1, g1.len() as int)
            &&& total_pair_count(g2, g2.len() as int) == total_pair_count(
                g1,
                g1.len() as int,
            )
            &&& total_max_depth(g2, g2.len() as int) == total_max_depth(g1, g1.len() as int)
        }),
{
    lemma_relabel_invariant(es, f);
}

impl Graph {
    /// The two exact aggregates behind the average degree of separation:
    /// the sum of the depths of all reached (start, node) pairs over
    /// breadth-first traversals from every node, and the count of those
    /// pairs. `None` exactly when either aggregate overflows `u64`; the
    /// average itself is the quotient of the two, zero pairs meaning an
    /// average of zero.
    #[verifier::loop_isolation(false)]
    pub fn separation_totals(&self) -> (r: Option<(u64, u64)>)
        requires
            self.wf(),
        ensures
            match r {
                Some(t) => t.0 == total_depth_sum(self.adj(), self.adj().len() as int) && t.1
                    == total_pair_count(self.adj(), self.adj().len() as int),
                None => total_depth_sum(self.adj(), self.adj().len() as int) > u64::MAX
                    || total_pair_count(self.adj(), self.adj().len() as int) > u64::MAX,
            },
    {
        let ghost gg = self.adj();
        let n = self.node_count();
        let mut td: u64 = 0;
        let mut tp: u64 = 0;
        let mut s: usize = 0;
        while s < n
            invariant
                s <= n,
                td == total_depth_sum(gg, s as int),
                tp == total_pair_count(gg, s as int),
            decreases n - s,
        {
            let depths = self.bfs_depths(s);
            let ghost td0 = td;
            let ghost tp0 = tp;
            let mut v: usize = 0;
            while v < n
                invariant
                    v <= n,
                    td == td0 + row_depth_sum(gg, s as int, v as int),
                    tp == tp0 + row_pair_count(gg, s as int, v as int),
                decreases n - v,
            {
                match depths[v] {
                    Some(d) => {
                        proof {
                            assert(is_depth(gg, s as int, v as int, d as nat));
                            assert(reachable_within(gg, s as int, v as int, d as nat));
                            assert(reaches(gg, s as int, v as int));
                            lemma_spec_depth(gg, s as int, v as int, d as nat);
                            lemma_depth_unique(
                                gg,
                                s as int,
                                v as int,
                                d as nat,
                                spec_depth(gg, s as int, v as int),
                            );
                        }
                        if td > u64::MAX - (d as u64) {
                            proof {
                                lemma_partial_le_total(gg, s as int, v + 1);
                            }
                            return None;
                        }
                        td = td + (d as u64);
                        if tp == u64::MAX {
                            proof {
                                lemma_partial_le_total(gg, s as int, v + 1);
                            }
                            return None;
                        }
                        tp = tp + 1;
                    },
                    None => {
                        proof {
                            if reaches(gg, s as int, v as int) {
                                let k = choose|k: nat|
                                    reachable_within(gg, s as int, v as int, k);
                                assert(depths@[v as int] is Some);
                            }
                        }
                    },
                }
                v += 1;
            }
            s += 1;
        }
        Some((td, tp))
    }

    /// The largest degree of separation: the maximum breadth-first depth
    /// observed over traversals from every node; zero on an empty graph.
    #[verifier::loop_isolation(false)]
    pub fn largest_degree_of_separation(&self) -> (r: usize)
        requires
            self.wf(),
        ensures
            r == total_max_depth(self.adj(), self.adj().len() as int),
    {
        let ghost gg = self.adj();
        let n = self.node_count();
        let mut m: usize = 0;
        let mut s: usize = 0;
        while s < n
            invariant
                s <= n,
                m == total_max_depth(gg, s as int),
            decreases n - s,
        {
            let depths = self.bfs_depths(s);
            let ghost m0 = m;
            let mut v: usize = 0;
            while v < n
                invariant
                    v <= n,
                    m == nmax(m0 as nat, row_max_depth(gg, s as int, v as int)),
                decreases n - v,
            {
                match depths[v] {
                    Some(d) => {
                        proof {
                            assert(is_depth(gg, s as int, v as int, d as nat));
                            assert(reachable_within(gg, s as int, v as int, d as nat));
                            assert(reaches(gg, s as int, v as int));
                            lemma_spec_depth(gg, s as int, v as int, d as nat);
                            lemma_depth_unique(
                                gg,
                                s as int,
                                v as int,
                                d as nat,
                                spec_depth(gg, s as int, v as int),
                            );
                        }
                        if d > m {
                            m = d;
                        }
                    },
                    None => {
                        proof {
                            if reaches(gg, s as int, v as int) {
                                let k = choose|k: nat|
                                    reachable_within(gg, s as int, v as int, k);
                                assert(depths@[v as int] is Some);
                            }
                        }
                    },
                }
                v += 1;
            }
            s += 1;
        }
        m
    }
}

} // verus!
