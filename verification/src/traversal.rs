//! Breadth-first search over the directed graph: per-node shortest
//! hop-depth from a start node. `is_depth` is the specification of a
//! degree of separation: the least number of directed hops that reaches a
//! node; unreachable nodes carry no depth.

use vstd::prelude::*;
use crate::graph::{Graph, valid_adj};

verus! {

/// There is a directed edge from `u` to `v`.
pub open spec fn has_edge(g: Seq<Seq<usize>>, u: int, v: int) -> bool {
    0 <= u < g.len() && exists|j: int| 0 <= j < g[u].len() && (#[trigger] g[u][j]) as int == v
}

/// Some in-neighbor of `v` is reachable from `s` within `k` hops.
pub open spec fn pred_reachable(g: Seq<Seq<usize>>, s: int, v: int, k: nat) -> bool
    decreases k, 1int,
{
    exists|u: int| reachable_within(g, s, u, k) && #[trigger] has_edge(g, u, v)
}

/// `v` can be reached from `s` by at most `k` directed hops.
pub open spec fn reachable_within(g: Seq<Seq<usize>>, s: int, v: int, k: nat) -> bool
    decreases k, 0int,
{
    v == s || (k > 0 && pred_reachable(g, s, v, (k - 1) as nat))
}

/// `v` is reachable from `s` by directed hops.
pub open spec fn reaches(g: Seq<Seq<usize>>, s: int, v: int) -> bool {
    exists|k: nat| reachable_within(g, s, v, k)
}

/// `d` is the exact breadth-first depth of `v` from `s`: `v` is reachable
/// in `d` hops and, unless `d` is zero, in no fewer.
pub open spec fn is_depth(g: Seq<Seq<usize>>, s: int, v: int, d: nat) -> bool {
    reachable_within(g, s, v, d) && (d == 0 || !reachable_within(g, s, v, (d - 1) as nat))
}

pub proof fn lemma_reachable_succ(g: Seq<Seq<usize>>, s: int, v: int, k: nat)
    requires
        reachable_within(g, s, v, k),
    ensures
        reachable_within(g, s, v, (k + 1) as nat),
    decreases k,
{
    if v != s {
        let u = choose|u: int|
            reachable_within(g, s, u, (k - 1) as nat) && #[trigger] has_edge(g, u, v);
        lemma_reachable_succ(g, s, u, (k - 1) as nat);
        assert((((k - 1) as nat) + 1) as nat == k);
        assert(reachable_within(g, s, u, k));
        assert(pred_reachable(g, s, v, k));
        assert((((k + 1) as nat) - 1) as nat == k);
    }
}

pub proof fn lemma_reachable_mono(g: Seq<Seq<usize>>, s: int, v: int, k1: nat, k2: nat)
    requires
        k1 <= k2,
        reachable_within(g, s, v, k1),
    ensures
        reachable_within(g, s, v, k2),
    decreases k2 - k1,
{
    if k1 < k2 {
        lemma_reachable_succ(g, s, v, k1);
        lemma_reachable_mono(g, s, v, (k1 + 1) as nat, k2);
    }
}

/// One more hop along an edge keeps the target reachable.
pub proof fn lemma_reachable_step(g: Seq<Seq<usize>>, s: int, u: int, v: int, k: nat)
    requires
        reachable_within(g, s, u, k),
        has_edge(g, u, v),
    ensures
        reachable_within(g, s, v, (k + 1) as nat),
{
    assert(pred_reachable(g, s, v, k));
    assert((((k + 1) as nat) - 1) as nat == k);
}

/// In a well-formed graph every node reachable from a valid start is a
/// valid node index.
pub proof fn lemma_reachable_in_range(g: Seq<Seq<usize>>, s: int, v: int, k: nat)
    requires
        valid_adj(g),
        0 <= s < g.len(),
        reachable_within(g, s, v, k),
    ensures
        0 <= v < g.len(),
    decreases k,
{
    if v != s {
        let u = choose|u: int|
            reachable_within(g, s, u, (k - 1) as nat) && #[trigger] has_edge(g, u, v);
        let j = choose|j: int| 0 <= j < g[u].len() && (#[trigger] g[u][j]) as int == v;
        assert(g[u][j] < g.len());
    }
}

/// A reachable node has an exact depth, no larger than any hop bound.
pub proof fn lemma_depth_exists(g: Seq<Seq<usize>>, s: int, v: int, k: nat)
    requires
        reachable_within(g, s, v, k),
    ensures
        exists|d: nat| d <= k && #[trigger] is_depth(g, s, v, d),
    decreases k,
{
    if k == 0 {
        assert(is_depth(g, s, v, 0));
    } else if reachable_within(g, s, v, (k - 1) as nat) {
        lemma_depth_exists(g, s, v, (k - 1) as nat);
        let d = choose|d: nat| d <= (k - 1) as nat && #[trigger] is_depth(g, s, v, d);
        assert(d <= k && is_depth(g, s, v, d));
    } else {
        assert(is_depth(g, s, v, k));
    }
}

/// The exact depth is unique.
pub proof fn lemma_depth_unique(g: Seq<Seq<usize>>, s: int, v: int, d1: nat, d2: nat)
    requires
        is_depth(g, s, v, d1),
        is_depth(g, s, v, d2),
    ensures
        d1 == d2,
{
    if d1 < d2 {
        lemma_reachable_mono(g, s, v, d1, (d2 - 1) as nat);
    }
    if d2 < d1 {
        lemma_reachable_mono(g, s, v, d2, (d1 - 1) as nat);
    }
}

/// An exact depth never exceeds a hop bound that reaches the node.
pub proof fn lemma_depth_min(g: Seq<Seq<usize>>, s: int, v: int, d: nat, k: nat)
    requires
        is_depth(g, s, v, d),
        reachable_within(g, s, v, k),
    ensures
        d <= k,
{
    if d > k {
        lemma_reachable_mono(g, s, v, k, (d - 1) as nat);
    }
}

/// Law: breadth-first depth is monotone along edges. The depth of a node
/// exceeds the depth of any of its in-neighbors by at most one; in
/// particular a node discovered at depth `d` has no in-neighbor of the
/// same traversal at depth less than `d - 1`.
pub proof fn lemma_depth_edge_bound(g: Seq<Seq<usize>>, s: int, u: int, v: int, du: nat, dv: nat)
    requires
        is_depth(g, s, u, du),
        is_depth(g, s, v, dv),
        has_edge(g, u, v),
    ensures
        dv <= du + 1,
{
    lemma_reachable_step(g, s, u, v, du);
    lemma_depth_min(g, s, v, dv, (du + 1) as nat);
}

/// The recorded depth of a discovered node.
pub open spec fn dep(depths: Seq<Option<usize>>, v: usize) -> int {
    depths[v as int].unwrap() as int
}

/// A sequence of distinct indices below `n` has at most `n` elements.
proof fn lemma_distinct_bounded_len(q: Seq<usize>, n: nat)
    requires
        q.no_duplicates(),
        forall|i: int| 0 <= i < q.len() ==> ((#[trigger] q[i]) as nat) < n,
    ensures
        q.len() <= n,
{
    let qi = q.map_values(|x: usize| x as int);
    q.lemma_no_duplicates_injective(|x: usize| x as int);
    qi.unique_seq_to_set();
    vstd::set_lib::lemma_int_range(0, n as int);
    assert forall|x: int| qi.to_set().contains(x) implies vstd::set_lib::set_int_range(
        0,
        n as int,
    ).contains(x) by {
        let i = choose|i: int| 0 <= i < qi.len() && qi[i] == x;
        assert((q[i] as nat) < n);
    }
    vstd::set_lib::lemma_len_subset(qi.to_set(), vstd::set_lib::set_int_range(0, n as int));
}

/// The standing facts of the search: the queue holds exactly the
/// discovered nodes, once each, in nondecreasing order of depth; each
/// recorded depth is the exact depth and is bounded by the node's
/// discovery position; and every out-neighbor of a processed node is
/// discovered within one more hop.
spec fn bfs_inv(
    g: Seq<Seq<usize>>,
    s: int,
    depths: Seq<Option<usize>>,
    queue: Seq<usize>,
    head: int,
) -> bool {
    &&& valid_adj(g)
    &&& g.len() <= usize::MAX
    &&& 0 <= s < g.len()
    &&& depths.len() == g.len()
    &&& 0 <= head <= queue.len()
    &&& depths[s] == Some(0usize)
    &&& queue.no_duplicates()
    &&& forall|i: int| 0 <= i < queue.len() ==> (#[trigger] queue[i]) < g.len()
    &&& forall|v: usize|
        (v as int) < g.len() ==> ((#[trigger] depths[v as int]) is Some <==> queue.contains(v))
    &&& forall|i: int|
        0 <= i < queue.len() ==> depths[(#[trigger] queue[i]) as int] is Some && dep(
            depths,
            queue[i],
        ) <= i
    &&& forall|i: int, j: int|
        0 <= i <= j < queue.len() ==> dep(depths, #[trigger] queue[i]) <= dep(
            depths,
            #[trigger] queue[j],
        )
    &&& forall|v: usize|
        (v as int) < g.len() ==> ((#[trigger] depths[v as int]) matches Some(d) ==> is_depth(
            g,
            s,
            v as int,
            d as nat,
        ))
    &&& forall|i: int, j: int|
        0 <= i < head && 0 <= j < g[queue[i] as int].len() ==> depths[(#[trigger] g[queue[
            i
        ] as int][j]) as int] is Some && dep(depths, g[queue[i] as int][j]) <= dep(
            depths,
            queue[i],
        ) + 1
}

/// If every out-neighbor of every node before `head` is discovered within
/// one more hop, then every node reachable within the current frontier
/// depth is discovered.
proof fn lemma_frontier_complete(
    g: Seq<Seq<usize>>,
    s: int,
    depths: Seq<Option<usize>>,
    queue: Seq<usize>,
    head: int,
    v: usize,
    k: nat,
)
    requires
        bfs_inv(g, s, depths, queue, head),
        (v as int) < g.len(),
        reachable_within(g, s, v as int, k),
        head == queue.len() || k <= dep(depths, queue[head]),
    ensures
        depths[v as int] is Some,
    decreases k,
{
    if v as int != s {
        let u = choose|u: int|
            reachable_within(g, s, u, (k - 1) as nat) && #[trigger] has_edge(g, u, v as int);
        lemma_reachable_in_range(g, s, u, (k - 1) as nat);
        assert((u as usize) as int == u);
        lemma_frontier_complete(g, s, depths, queue, head, u as usize, (k - 1) as nat);
        // `u` is discovered: its recorded depth is its exact depth, which is
        // at most `k - 1`, so `u` stands before `head` and was processed.
        let du = depths[u].unwrap() as nat;
        lemma_depth_min(g, s, u, du, (k - 1) as nat);
        assert(queue.contains(u as usize));
        let iu = choose|iu: int| 0 <= iu < queue.len() && queue[iu] == u as usize;
        if iu >= head {
            // then head < queue.len() and dep(queue[head]) <= dep(queue[iu]) = du
            assert(dep(depths, queue[head]) <= dep(depths, queue[iu]));
            assert(k <= du);
            lemma_reachable_mono(g, s, u, (k - 1) as nat, k);
            lemma_depth_min(g, s, u, du, k);
            assert(du <= k - 1);
            assert(false);
        }
        let j = choose|j: int| 0 <= j < g[u].len() && (#[trigger] g[u][j]) as int == v as int;
        assert(depths[(g[queue[iu] as int][j]) as int] is Some);
    }
}

impl Graph {
    /// Breadth-first depths from `start`: `depths[v]` is `Some(d)` exactly
    /// when `v` is reachable from `start` and its least hop count is `d`;
    /// unreachable nodes are `None`. The start itself has depth zero.
    #[verifier::loop_isolation(false)]
    pub fn bfs_depths(&self, start: usize) -> (depths: Vec<Option<usize>>)
        requires
            self.wf(),
            start < self.adj().len(),
        ensures
            depths@.len() == self.adj().len(),
            depths@[start as int] == Some(0usize),
            forall|v: int|
                0 <= v < depths@.len() ==> ((#[trigger] depths@[v]) matches Some(d) ==> is_depth(
                    self.adj(),
                    start as int,
                    v,
                    d as nat,
                ) && (d as int) < depths@.len()),
            forall|v: int, k: nat|
                0 <= v < depths@.len() && #[trigger] reachable_within(
                    self.adj(),
                    start as int,
                    v,
                    k,
                ) ==> depths@[v] is Some,
    {
        let ghost gg = self.adj();
        let ghost s = start as int;
        let n = self.node_count();
        let mut depths: Vec<Option<usize>> = Vec::new();
        let mut v0: usize = 0;
        while v0 < n
            invariant
                v0 <= n,
                depths@.len() == v0,
                forall|x: int| 0 <= x < v0 ==> (#[trigger] depths@[x]) is None,
            decreases n - v0,
        {
            depths.push(None);
            v0 += 1;
        }
        depths[start] = Some(0);
        let mut queue: Vec<usize> = Vec::new();
        queue.push(start);
        let mut head: usize = 0;
        proof {
            assert(reachable_within(gg, s, s, 0));
            assert(is_depth(gg, s, s, 0));
            assert(queue@[0] == start);
            assert forall|v: usize|
                (v as int) < gg.len() implies ((#[trigger] depths@[v as int]) is Some
                <==> queue@.contains(v)) by {
                if depths@[v as int] is Some {
                    assert(v == start);
                    assert(queue@[0] == v);
                }
                if queue@.contains(v) {
                    let i = choose|i: int| 0 <= i < queue@.len() && queue@[i] == v;
                    assert(i == 0);
                }
            }
            assert forall|v: usize, k: nat|
                (v as int) < gg.len() && #[trigger] reachable_within(gg, s, v as int, k) && (
                head as int == queue@.len() || k <= dep(depths@, queue@[head as int]))
                implies depths@[v as int] is Some by {
                if k == 0 {
                    assert(v as int == s);
                } else {
                    assert(k <= dep(depths@, queue@[0]));
                    assert(dep(depths@, start) == 0);
                    assert(false);
                }
            }
            assert(bfs_inv(gg, s, depths@, queue@, head as int));
        }
        while head < queue.len()
            invariant
                bfs_inv(gg, s, depths@, queue@, head as int),
                queue@.len() <= n,
                (head as int) < queue@.len() ==> forall|i: int|
                    0 <= i < queue@.len() ==> dep(depths@, #[trigger] queue@[i]) <= dep(
                        depths@,
                        queue@[head as int],
                    ) + 1,
                forall|v: usize, k: nat|
                    (v as int) < gg.len() && #[trigger] reachable_within(gg, s, v as int, k)
                        && (head as int == queue@.len() || k <= dep(
                        depths@,
                        queue@[head as int],
                    )) ==> depths@[v as int] is Some,
            decreases n - head,
        {
            let u = queue[head];
            let du = depths[u].unwrap();
            let ghost du_n = du as nat;
            proof {
                assert(is_depth(gg, s, u as int, du_n));
                assert(du as int <= head as int);
            }
            let deg = self.out_degree(u);
            let mut j: usize = 0;
            while j < deg
                invariant
                    j <= deg,
                    deg == gg[u as int].len(),
                    bfs_inv(gg, s, depths@, queue@, head as int),
                    queue@.len() <= n,
                    head < queue@.len(),
                    queue@[head as int] == u,
                    depths@[u as int] == Some(du),
                    forall|i: int|
                        0 <= i < queue@.len() ==> dep(depths@, #[trigger] queue@[i]) <= du
                            + 1,
                    forall|v: usize, k: nat|
                        (v as int) < gg.len() && #[trigger] reachable_within(gg, s, v as int, k)
                            && k <= du as int ==> depths@[v as int] is Some,
                    forall|jj: int|
                        0 <= jj < j ==> depths@[(#[trigger] gg[u as int][jj]) as int] is Some
                            && dep(depths@, gg[u as int][jj]) <= du + 1,
                decreases deg - j,
            {
                let w = self.neighbor(u, j);
                proof {
                    assert(gg[u as int][j as int] == w);
                    assert((w as int) < gg.len());
                    assert(has_edge(gg, u as int, w as int));
                }
                if depths[w].is_none() {
                    proof {
                        // Minimality: were `w` reachable within `du` hops it
                        // would already be discovered.
                        if reachable_within(gg, s, w as int, du_n) {
                            assert(depths@[w as int] is Some);
                            assert(false);
                        }
                        lemma_reachable_step(gg, s, u as int, w as int, du_n);
                        assert(is_depth(gg, s, w as int, (du + 1) as nat));
                    }
                    let ghost depths_before = depths@;
                    let ghost queue_before = queue@;
                    depths[w] = Some(du + 1);
                    queue.push(w);
                    proof {
                        assert(!queue_before.contains(w));
                        assert(queue@ =~= queue_before.push(w));
                        assert forall|x: int, y: int|
                            0 <= x < y < queue@.len() implies queue@[x] != queue@[y] by {
                            if y == queue@.len() - 1 {
                                assert(queue@[y] == w);
                                if queue@[x] == w {
                                    assert(queue_before.contains(w));
                                }
                            }
                        }
                        assert(queue@.no_duplicates());
                        assert forall|v: usize|
                            (v as int) < gg.len() implies ((#[trigger] depths@[v as int]) is Some
                            <==> queue@.contains(v)) by {
                            if v == w {
                                assert(queue@[queue@.len() - 1] == w);
                            } else {
                                if depths@[v as int] is Some {
                                    assert(depths_before[v as int] is Some);
                                    assert(queue_before.contains(v));
                                    let i = choose|i: int|
                                        0 <= i < queue_before.len() && queue_before[i] == v;
                                    assert(queue@[i] == v);
                                }
                                if queue@.contains(v) {
                                    let i = choose|i: int|
                                        0 <= i < queue@.len() && queue@[i] == v;
                                    assert(i < queue_before.len());
                                    assert(queue_before.contains(v));
                                }
                            }
                        }
                        lemma_distinct_bounded_len(queue@, gg.len() as nat);
                        assert(bfs_inv(gg, s, depths@, queue@, head as int));
                    }
                } else {
                    proof {
                        let dw = depths@[w as int].unwrap() as nat;
                        lemma_depth_edge_bound(gg, s, u as int, w as int, du_n, dw);
                    }
                }
                j += 1;
            }
            head += 1;
            proof {
                assert(bfs_inv(gg, s, depths@, queue@, head as int));
                if head < queue.len() {
                    assert(dep(depths@, queue@[head as int]) >= du) by {
                        assert(dep(depths@, queue@[head - 1]) <= dep(
                            depths@,
                            queue@[head as int],
                        ));
                    }
                }
                assert forall|v: usize, k: nat|
                    (v as int) < gg.len() && #[trigger] reachable_within(gg, s, v as int, k) && (
                    head as int == queue@.len() || k <= dep(depths@, queue@[head as int]))
                    implies depths@[v as int] is Some by {
                    lemma_frontier_complete(gg, s, depths@, queue@, head as int, v, k);
                }
            }
        }
        proof {
            assert forall|v: int|
                0 <= v < depths@.len() implies ((#[trigger] depths@[v]) matches Some(d)
                ==> is_depth(gg, s, v, d as nat) && (d as int) < depths@.len()) by {
                if depths@[v] is Some {
                    let d = depths@[v].unwrap();
                    let vu = v as usize;
                    assert(depths@[vu as int] is Some);
                    assert(queue@.contains(vu));
                    let i = choose|i: int| 0 <= i < queue@.len() && queue@[i] == vu;
                    assert(dep(depths@, queue@[i]) <= i);
                    assert((d as int) < queue@.len());
                }
            }
        }
        depths
    }
}

} // verus!
