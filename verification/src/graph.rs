//! Compressed adjacency (CSR) representation of a directed graph with dense
//! integer node ids.

use vstd::prelude::*;
use vstd::slice::slice_subrange;

verus! {

/// Directed graph in compressed sparse row form: the out-neighbors of node `v`
/// are `neighbors[offsets[v] .. offsets[v + 1]]`, in insertion order, with
/// duplicate edges preserved.
pub struct Graph {
    pub num_nodes: usize,
    pub num_edges: usize,
    pub offsets: Vec<usize>,
    pub neighbors: Vec<usize>,
    pub out_degree: Vec<usize>,
}

/// The out-neighbor sequence that a list of `(source, target)` edge pairs
/// assigns to node `v`: every target whose source is `v`, in order.
pub open spec fn edge_targets(edges: Seq<(usize, usize)>, v: int) -> Seq<usize>
    decreases edges.len(),
{
    if edges.len() == 0 {
        Seq::empty()
    } else {
        let prefix = edge_targets(edges.drop_last(), v);
        if edges.last().0 as int == v {
            prefix.push(edges.last().1)
        } else {
            prefix
        }
    }
}

/// How many edges in the list have a source strictly below `v`.
pub open spec fn edges_below(edges: Seq<(usize, usize)>, v: int) -> nat
    decreases edges.len(),
{
    if edges.len() == 0 {
        0
    } else {
        edges_below(edges.drop_last(), v) + if (edges.last().0 as int) < v {
            1nat
        } else {
            0nat
        }
    }
}

impl Graph {
    /// Structural invariant of the CSR form.
    pub open spec fn wf(self) -> bool {
        &&& self.offsets@.len() == self.num_nodes + 1
        &&& self.out_degree@.len() == self.num_nodes
        &&& self.neighbors@.len() == self.num_edges
        &&& self.offsets@[0] == 0
        &&& self.offsets@[self.num_nodes as int] == self.num_edges
        &&& forall|i: int, j: int|
            0 <= i <= j <= self.num_nodes ==> #[trigger] self.offsets@[i] <= #[trigger] self.offsets@[j]
        &&& forall|v: int|
            0 <= v < self.num_nodes ==> #[trigger] self.out_degree@[v]
                == self.offsets@[v + 1] - self.offsets@[v]
        &&& forall|v: int, k: int|
            0 <= v < self.num_nodes && 0 <= k < self.nbrs(v).len() ==> #[trigger] self.nbrs(v)[k]
                < self.num_nodes
    }

    /// Out-neighbor sequence of node `v`; empty when `v` is out of range.
    pub open spec fn nbrs(self, v: int) -> Seq<usize> {
        if 0 <= v < self.num_nodes {
            self.neighbors@.subrange(self.offsets@[v] as int, self.offsets@[v + 1] as int)
        } else {
            Seq::empty()
        }
    }

    /// There is a directed edge from `u` to `v`.
    pub open spec fn has_edge(self, u: int, v: int) -> bool {
        exists|k: int| 0 <= k < self.nbrs(u).len() && #[trigger] self.nbrs(u)[k] as int == v
    }

    /// An empty graph over `num_nodes` nodes.
    pub fn new(num_nodes: usize) -> (g: Graph)
        requires
            num_nodes < usize::MAX,
        ensures
            g.wf(),
            g.num_nodes == num_nodes,
            g.num_edges == 0,
            forall|v: int| g.nbrs(v) == Seq::<usize>::empty(),
    {
        let g = Graph {
            num_nodes,
            num_edges: 0,
            offsets: vec![0usize; num_nodes + 1],
            neighbors: Vec::new(),
            out_degree: vec![0usize; num_nodes],
        };
        proof {
            assert(forall|v: int| 0 <= v < g.num_nodes ==> g.nbrs(v) =~= Seq::<usize>::empty());
        }
        g
    }

    /// The slice of out-neighbors of node `v`; empty if `v` is out of range.
    pub fn neighbors(&self, v: usize) -> (r: &[usize])
        requires
            self.wf(),
        ensures
            r@ == self.nbrs(v as int),
    {
        if v >= self.num_nodes {
            let r = slice_subrange(self.neighbors.as_slice(), 0, 0);
            proof {
                assert(r@ =~= self.nbrs(v as int));
            }
            r
        } else {
            assert(self.offsets@[v as int] <= self.offsets@[v as int + 1]
                <= self.offsets@[self.num_nodes as int]);
            slice_subrange(self.neighbors.as_slice(), self.offsets[v], self.offsets[v + 1])
        }
    }

    pub fn is_valid_node(&self, v: usize) -> (r: bool)
        ensures
            r == (v < self.num_nodes),
    {
        v < self.num_nodes
    }
}

/// There is an edge between `u` and `v` in some direction.
pub open spec fn uedge(g: Graph, u: int, v: int) -> bool {
    g.has_edge(u, v) || g.has_edge(v, u)
}

/// A walk through the graph along edges taken as undirected.
pub open spec fn is_uwalk(g: Graph, p: Seq<int>) -> bool {
    &&& p.len() >= 1
    &&& forall|i: int| 0 <= i < p.len() ==> 0 <= #[trigger] p[i] < g.num_nodes
    &&& forall|i: int| 0 <= i < p.len() - 1 ==> uedge(g, #[trigger] p[i], p[i + 1])
}

/// `u` and `v` lie in the same weakly-connected component.
pub open spec fn connected(g: Graph, u: int, v: int) -> bool {
    exists|p: Seq<int>| is_uwalk(g, p) && p.first() == u && p.last() == v
}

/// A walk through the graph along directed edges.
pub open spec fn is_dwalk(g: Graph, p: Seq<int>) -> bool {
    &&& p.len() >= 1
    &&& forall|i: int| 0 <= i < p.len() ==> 0 <= #[trigger] p[i] < g.num_nodes
    &&& forall|i: int| 0 <= i < p.len() - 1 ==> g.has_edge(#[trigger] p[i], p[i + 1])
}

/// A directed walk from `u` to `v`.
pub open spec fn dwalk_from_to(g: Graph, p: Seq<int>, u: int, v: int) -> bool {
    is_dwalk(g, p) && p.first() == u && p.last() == v
}

/// `v` can be reached from `u` along directed edges.
pub open spec fn dreach(g: Graph, u: int, v: int) -> bool {
    exists|p: Seq<int>| dwalk_from_to(g, p, u, v)
}

/// A node reaches itself by the one-node walk.
pub proof fn lemma_dwalk_single(g: Graph, u: int)
    requires
        0 <= u < g.num_nodes,
    ensures
        dwalk_from_to(g, seq![u], u, u),
{
    let p = seq![u];
    assert(is_dwalk(g, p));
}

/// Extending a directed walk by one edge.
pub proof fn lemma_dwalk_push(g: Graph, p: Seq<int>, u: int, v: int, t: int)
    requires
        g.wf(),
        dwalk_from_to(g, p, u, v),
        g.has_edge(v, t),
        0 <= t < g.num_nodes,
    ensures
        dwalk_from_to(g, p.push(t), u, t),
        p.push(t).len() == p.len() + 1,
{
    let q = p.push(t);
    assert forall|i: int| 0 <= i < q.len() - 1 implies g.has_edge(#[trigger] q[i], q[i + 1]) by {
        if i < p.len() - 1 {
            assert(g.has_edge(p[i], p[i + 1]));
        } else {
            assert(q[i] == v && q[i + 1] == t);
        }
    }
    assert(is_dwalk(g, q));
}

pub proof fn lemma_connected_refl(g: Graph, u: int)
    requires
        0 <= u < g.num_nodes,
    ensures
        connected(g, u, u),
{
    let p = seq![u];
    assert(is_uwalk(g, p) && p.first() == u && p.last() == u);
}

pub proof fn lemma_connected_sym(g: Graph, u: int, v: int)
    requires
        connected(g, u, v),
    ensures
        connected(g, v, u),
{
    let p = choose|p: Seq<int>| is_uwalk(g, p) && p.first() == u && p.last() == v;
    let q = Seq::new(p.len(), |i: int| p[p.len() - 1 - i]);
    assert(is_uwalk(g, q) && q.first() == v && q.last() == u);
}

pub proof fn lemma_connected_trans(g: Graph, u: int, v: int, w: int)
    requires
        connected(g, u, v),
        connected(g, v, w),
    ensures
        connected(g, u, w),
{
    let p1 = choose|p: Seq<int>| is_uwalk(g, p) && p.first() == u && p.last() == v;
    let p2 = choose|p: Seq<int>| is_uwalk(g, p) && p.first() == v && p.last() == w;
    let q = p1 + p2.subrange(1, p2.len() as int);
    assert(q.last() == w);
    assert forall|i: int| 0 <= i < q.len() - 1 implies uedge(g, #[trigger] q[i], q[i + 1]) by {
        if i < p1.len() - 1 {
            assert(uedge(g, p1[i], p1[i + 1]));
        } else if i == p1.len() - 1 {
            assert(q[i] == p2[0] && q[i + 1] == p2[1]);
            assert(uedge(g, p2[0], p2[1]));
        } else {
            let j = i - p1.len();
            assert(uedge(g, p2[j + 1], p2[j + 2]));
        }
    }
    assert(is_uwalk(g, q) && q.first() == u && q.last() == w);
}

/// An edge taken as undirected connects its endpoints.
pub proof fn lemma_uedge_connected(g: Graph, u: int, v: int)
    requires
        0 <= u < g.num_nodes,
        0 <= v < g.num_nodes,
        uedge(g, u, v),
    ensures
        connected(g, u, v),
{
    let p = seq![u, v];
    assert(is_uwalk(g, p) && p.first() == u && p.last() == v);
}

/// A labelling that agrees across every edge is constant along a walk.
pub proof fn lemma_walk_labels(g: Graph, lab: spec_fn(int) -> int, p: Seq<int>)
    requires
        is_uwalk(g, p),
        forall|a: int, b: int|
            0 <= a < g.num_nodes && 0 <= b < g.num_nodes && #[trigger] uedge(g, a, b) ==> lab(a)
                == lab(b),
    ensures
        lab(p.first()) == lab(p.last()),
    decreases p.len(),
{
    if p.len() > 1 {
        let q = p.drop_last();
        assert(is_uwalk(g, q));
        lemma_walk_labels(g, lab, q);
        assert(uedge(g, p[p.len() - 2], p[p.len() - 1]));
    }
}

proof fn lemma_targets_len_le(edges: Seq<(usize, usize)>, v: int)
    ensures
        edge_targets(edges, v).len() <= edges.len(),
    decreases edges.len(),
{
    if edges.len() > 0 {
        lemma_targets_len_le(edges.drop_last(), v);
    }
}

/// Extending the edge list by one pair extends exactly the target sequence of
/// that pair's source.
proof fn lemma_targets_take_step(edges: Seq<(usize, usize)>, i: int, v: int)
    requires
        0 <= i < edges.len(),
    ensures
        edge_targets(edges.take(i + 1), v) == if edges[i].0 as int == v {
            edge_targets(edges.take(i), v).push(edges[i].1)
        } else {
            edge_targets(edges.take(i), v)
        },
{
    assert(edges.take(i + 1).drop_last() =~= edges.take(i));
    assert(edges.take(i + 1).last() == edges[i]);
}

/// The edges below `v + 1` are the edges below `v` plus those from `v` itself.
proof fn lemma_below_split(edges: Seq<(usize, usize)>, v: int)
    ensures
        edges_below(edges, v + 1) == edges_below(edges, v) + edge_targets(edges, v).len(),
    decreases edges.len(),
{
    if edges.len() > 0 {
        lemma_below_split(edges.drop_last(), v);
    }
}

proof fn lemma_below_nonpos(edges: Seq<(usize, usize)>, v: int)
    requires
        v <= 0,
    ensures
        edges_below(edges, v) == 0,
    decreases edges.len(),
{
    if edges.len() > 0 {
        lemma_below_nonpos(edges.drop_last(), v);
    }
}

proof fn lemma_below_le_len(edges: Seq<(usize, usize)>, v: int)
    ensures
        edges_below(edges, v) <= edges.len(),
    decreases edges.len(),
{
    if edges.len() > 0 {
        lemma_below_le_len(edges.drop_last(), v);
    }
}

proof fn lemma_below_monotone(edges: Seq<(usize, usize)>, i: int, j: int)
    requires
        i <= j,
    ensures
        edges_below(edges, i) <= edges_below(edges, j),
    decreases edges.len(),
{
    if edges.len() > 0 {
        lemma_below_monotone(edges.drop_last(), i, j);
    }
}

/// When every source lies below `n`, every edge is counted below `n`.
proof fn lemma_below_all(edges: Seq<(usize, usize)>, n: int)
    requires
        forall|k: int| 0 <= k < edges.len() ==> ((#[trigger] edges[k]).0 as int) < n,
    ensures
        edges_below(edges, n) == edges.len(),
    decreases edges.len(),
{
    if edges.len() > 0 {
        assert(forall|k: int|
            0 <= k < edges.drop_last().len() ==> #[trigger] edges.drop_last()[k] == edges[k]);
        lemma_below_all(edges.drop_last(), n);
    }
}

proof fn lemma_targets_prefix_len(edges: Seq<(usize, usize)>, i: int, v: int)
    requires
        0 <= i <= edges.len(),
    ensures
        edge_targets(edges.take(i), v).len() <= edge_targets(edges, v).len(),
    decreases edges.len() - i,
{
    if i == edges.len() {
        assert(edges.take(i) =~= edges);
    } else {
        lemma_targets_take_step(edges, i, v);
        lemma_targets_prefix_len(edges, i + 1, v);
    }
}

proof fn lemma_targets_in_range(edges: Seq<(usize, usize)>, v: int, n: int)
    requires
        forall|k: int| 0 <= k < edges.len() ==> ((#[trigger] edges[k]).1 as int) < n,
    ensures
        forall|j: int|
            0 <= j < edge_targets(edges, v).len() ==> (#[trigger] edge_targets(edges, v)[j] as int)
                < n,
    decreases edges.len(),
{
    if edges.len() > 0 {
        assert(forall|k: int|
            0 <= k < edges.drop_last().len() ==> #[trigger] edges.drop_last()[k] == edges[k]);
        lemma_targets_in_range(edges.drop_last(), v, n);
        let t = edge_targets(edges, v);
        let p = edge_targets(edges.drop_last(), v);
        assert forall|j: int| 0 <= j < t.len() implies (t[j] as int) < n by {
            if edges.last().0 as int == v && j == p.len() {
                assert(t[j] == edges[edges.len() - 1].1);
            } else {
                assert(t[j] == p[j]);
            }
        }
    }
}

/// Builds a CSR graph from a list of directed edges `(source, target)`.
///
/// Nodes must be in `0..num_nodes`. Duplicate edges are kept.
pub fn build_csr(num_nodes: usize, edges: Vec<(usize, usize)>) -> (g: Graph)
    requires
        num_nodes < usize::MAX,
        forall|k: int|
            0 <= k < edges@.len() ==> (#[trigger] edges@[k]).0 < num_nodes && edges@[k].1
                < num_nodes,
    ensures
        g.wf(),
        g.num_nodes == num_nodes,
        g.num_edges == edges@.len(),
        forall|v: int| 0 <= v < num_nodes ==> g.nbrs(v) == edge_targets(edges@, v),
{
    let ghost all = edges@;
    let num_edges = edges.len();

    // Count the out-degree of every source.
    let mut out_degree = vec![0usize; num_nodes];
    let mut idx: usize = 0;
    while idx < num_edges
        invariant
            num_edges == all.len(),
            out_degree@.len() == num_nodes,
            idx <= num_edges,
            edges@ == all,
            forall|k: int|
                0 <= k < all.len() ==> (#[trigger] all[k]).0 < num_nodes && all[k].1 < num_nodes,
            forall|v: int|
                0 <= v < num_nodes ==> #[trigger] out_degree@[v] == edge_targets(
                    all.take(idx as int),
                    v,
                ).len(),
        decreases num_edges - idx,
    {
        let s = edges[idx].0;
        proof {
            lemma_targets_len_le(all.take(idx as int), s as int);
            assert(all.take(idx as int).len() == idx as int);
            assert forall|v: int| 0 <= v < num_nodes implies #[trigger] edge_targets(
                all.take(idx as int + 1),
                v,
            ) == if all[idx as int].0 as int == v {
                edge_targets(all.take(idx as int), v).push(all[idx as int].1)
            } else {
                edge_targets(all.take(idx as int), v)
            } by {
                lemma_targets_take_step(all, idx as int, v);
            }
        }
        let d = out_degree[s];
        out_degree.set(s, d + 1);
        idx = idx + 1;
    }
    proof {
        assert(all.take(num_edges as int) =~= all);
    }

    // Prefix-sum the degrees into offsets.
    let mut offsets = vec![0usize; num_nodes + 1];
    let mut offset: usize = 0;
    let mut i: usize = 0;
    proof {
        lemma_below_nonpos(all, 0);
    }
    while i < num_nodes
        invariant
            num_edges == all.len(),
            offsets@.len() == num_nodes + 1,
            out_degree@.len() == num_nodes,
            i <= num_nodes,
            offset == edges_below(all, i as int),
            forall|v: int| 0 <= v < num_nodes ==> #[trigger] out_degree@[v] == edge_targets(all, v).len(),
            forall|j: int| 0 <= j < i ==> #[trigger] offsets@[j] == edges_below(all, j),
        decreases num_nodes - i,
    {
        proof {
            lemma_below_split(all, i as int);
            lemma_below_le_len(all, i as int + 1);
        }
        offsets.set(i, offset);
        offset = offset + out_degree[i];
        i = i + 1;
    }
    offsets.set(num_nodes, offset);
    proof {
        lemma_below_all(all, num_nodes as int);
        assert(offsets@[num_nodes as int] == all.len());
    }

    // Scatter each target into its source's segment, preserving order.
    let mut neighbors = vec![0usize; num_edges];
    let mut cursor = vstd::slice::slice_to_vec(offsets.as_slice());
    let mut idx2: usize = 0;
    proof {
        assert(all.take(0) =~= Seq::<(usize, usize)>::empty());
        assert forall|v: int|
            0 <= v < num_nodes implies neighbors@.subrange(
            offsets@[v] as int,
            #[trigger] cursor@[v] as int,
        ) == edge_targets(all.take(0), v) by {
            lemma_below_le_len(all, v);
            assert(neighbors@.subrange(offsets@[v] as int, offsets@[v] as int)
                =~= Seq::<usize>::empty());
        }
    }
    while idx2 < num_edges
        invariant
            num_edges == all.len(),
            edges@ == all,
            offsets@.len() == num_nodes + 1,
            cursor@.len() == num_nodes + 1,
            neighbors@.len() == num_edges,
            idx2 <= num_edges,
            forall|k: int|
                0 <= k < all.len() ==> (#[trigger] all[k]).0 < num_nodes && all[k].1 < num_nodes,
            forall|j: int| 0 <= j <= num_nodes ==> #[trigger] offsets@[j] == edges_below(all, j),
            forall|v: int|
                0 <= v < num_nodes ==> #[trigger] cursor@[v] == offsets@[v] + edge_targets(
                    all.take(idx2 as int),
                    v,
                ).len(),
            forall|v: int|
                0 <= v < num_nodes ==> neighbors@.subrange(
                    offsets@[v] as int,
                    #[trigger] cursor@[v] as int,
                ) == edge_targets(all.take(idx2 as int), v),
        decreases num_edges - idx2,
    {
        let s = edges[idx2].0;
        let t = edges[idx2].1;
        let ghost prefix = all.take(idx2 as int);
        proof {
            // The write position stays inside the segment of `s`.
            lemma_targets_take_step(all, idx2 as int, s as int);
            lemma_targets_prefix_len(all, idx2 as int + 1, s as int);
            lemma_below_split(all, s as int);
            lemma_below_le_len(all, s as int + 1);
            assert(cursor@[s as int] < offsets@[s as int + 1]);
        }
        let pos = cursor[s];
        let ghost old_neighbors = neighbors@;
        let ghost old_cursor = cursor@;
        neighbors.set(pos, t);
        cursor.set(s, pos + 1);
        proof {
            assert forall|v: int| 0 <= v < num_nodes implies #[trigger] cursor@[v] == offsets@[v]
                + edge_targets(all.take(idx2 as int + 1), v).len() by {
                lemma_targets_take_step(all, idx2 as int, v);
            }
            assert forall|v: int|
                0 <= v < num_nodes implies neighbors@.subrange(
                offsets@[v] as int,
                #[trigger] cursor@[v] as int,
            ) == edge_targets(all.take(idx2 as int + 1), v) by {
                lemma_targets_take_step(all, idx2 as int, v);
                lemma_below_split(all, v);
                lemma_below_le_len(all, v + 1);
                lemma_targets_prefix_len(all, idx2 as int, v);
                let o = offsets@[v] as int;
                let c = old_cursor[v] as int;
                assert(c <= offsets@[v + 1]);
                assert(old_neighbors.subrange(o, c) == edge_targets(prefix, v));
                if v == s as int {
                    assert(neighbors@.subrange(o, c + 1) =~= old_neighbors.subrange(o, c).push(t));
                } else {
                    if v < s as int {
                        lemma_below_monotone(all, v + 1, s as int);
                    } else {
                        lemma_below_monotone(all, s as int + 1, v);
                    }
                    assert(neighbors@.subrange(o, c) =~= old_neighbors.subrange(o, c));
                }
            }
        }
        idx2 = idx2 + 1;
    }
    proof {
        assert(all.take(num_edges as int) =~= all);
    }

    let g = Graph { num_nodes, num_edges, offsets, neighbors, out_degree };
    proof {
        assert forall|i0: int, j0: int| 0 <= i0 <= j0 <= num_nodes implies #[trigger] g.offsets@[i0]
            <= #[trigger] g.offsets@[j0] by {
            lemma_below_monotone(all, i0, j0);
        }
        assert forall|v: int| 0 <= v < num_nodes implies #[trigger] g.out_degree@[v]
            == g.offsets@[v + 1] - g.offsets@[v] by {
            lemma_below_split(all, v);
        }
        assert forall|v: int| 0 <= v < num_nodes implies g.nbrs(v) == edge_targets(all, v) by {
            lemma_below_split(all, v);
            assert(g.offsets@[v + 1] == g.offsets@[v] + edge_targets(all, v).len());
            assert(g.nbrs(v) == g.neighbors@.subrange(g.offsets@[v] as int, cursor@[v] as int));
        }
        assert forall|v: int, k: int|
            0 <= v < num_nodes && 0 <= k < g.nbrs(v).len() implies #[trigger] g.nbrs(v)[k]
            < num_nodes by {
            lemma_targets_in_range(all, v, num_nodes as int);
        }
    }
    g
}

} // verus!
