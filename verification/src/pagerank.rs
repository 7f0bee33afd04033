//! Verified scaffolding of the PageRank passes: the sink-node list that the
//! partition-reduce variant precomputes once, and the contiguous chunk bounds
//! that the parallel variants hand to their workers. The floating-point
//! iteration itself cannot live in the verified core.

use vstd::prelude::*;
use crate::graph::Graph;

verus! {

/// The nodes with no outgoing edges ("dangling"/sink nodes), in ascending
/// order. Their rank mass is redistributed uniformly on every iteration.
pub fn sink_nodes(graph: &Graph) -> (sinks: Vec<usize>)
    requires
        graph.wf(),
    ensures
        forall|k1: int, k2: int|
            0 <= k1 < k2 < sinks@.len() ==> #[trigger] sinks@[k1] < #[trigger] sinks@[k2],
        forall|k: int| 0 <= k < sinks@.len() ==> (#[trigger] sinks@[k] as int) < graph.num_nodes,
        forall|v: int|
            0 <= v < graph.num_nodes ==> (sinks@.contains(v as usize) <==> graph.nbrs(v).len()
                == 0),
{
    let g = graph;
    let n = g.num_nodes;
    let mut sinks: Vec<usize> = Vec::new();
    let mut v: usize = 0;
    while v < n
        invariant
            g.wf(),
            g == graph,
            n == g.num_nodes,
            v <= n,
            forall|k1: int, k2: int|
                0 <= k1 < k2 < sinks@.len() ==> #[trigger] sinks@[k1] < #[trigger] sinks@[k2],
            forall|k: int| 0 <= k < sinks@.len() ==> (#[trigger] sinks@[k] as int) < v,
            forall|v2: int|
                0 <= v2 < v ==> (sinks@.contains(v2 as usize) <==> g.nbrs(v2).len() == 0),
        decreases n - v,
    {
        let ghost sinks0 = sinks@;
        let deg = g.out_degree[v];
        proof {
            assert(g.out_degree@[v as int] == g.nbrs(v as int).len());
        }
        if deg == 0 {
            sinks.push(v);
        }
        proof {
            assert forall|v2: int|
                0 <= v2 < v + 1 implies (sinks@.contains(v2 as usize) <==> g.nbrs(v2).len()
                == 0) by {
                if v2 < v {
                    if sinks0.contains(v2 as usize) {
                        let k = choose|k: int|
                            0 <= k < sinks0.len() && #[trigger] sinks0[k] == v2 as usize;
                        assert(sinks@[k] == v2 as usize);
                    }
                    if sinks@.contains(v2 as usize) {
                        let k = choose|k: int|
                            0 <= k < sinks@.len() && #[trigger] sinks@[k] == v2 as usize;
                        assert(k < sinks0.len());
                        assert(sinks0.contains(v2 as usize));
                    }
                } else {
                    if deg == 0 {
                        assert(sinks@[sinks@.len() - 1] == v);
                    } else {
                        if sinks@.contains(v2 as usize) {
                            let k = choose|k: int|
                                0 <= k < sinks@.len() && #[trigger] sinks@[k] == v2 as usize;
                        }
                    }
                }
            }
        }
        v = v + 1;
    }
    sinks
}

/// Splits the id range `0 .. n` into at most `chunks` contiguous pieces that
/// cover it exactly, in order: each worker of a parallel pass gets one piece.
pub fn chunk_ranges(n: usize, chunks: usize) -> (r: Vec<(usize, usize)>)
    ensures
        r@.len() >= 1,
        (r@[0]).0 == 0,
        r@.last().1 == n,
        forall|k: int| 0 <= k < r@.len() ==> (#[trigger] r@[k]).0 <= r@[k].1 <= n,
        forall|k: int| 0 <= k < r@.len() - 1 ==> (#[trigger] r@[k]).1 == r@[k + 1].0,
{
    let c: usize = if chunks == 0 {
        1
    } else {
        chunks
    };
    let mut size = n / c;
    if n % c != 0 && size < n {
        size = size + 1;
    }
    if size == 0 {
        size = 1;
    }
    let mut r: Vec<(usize, usize)> = Vec::new();
    let mut start: usize = 0;
    while start < n
        invariant
            start <= n,
            size >= 1,
            r@.len() >= 1 ==> (r@[0]).0 == 0 && r@.last().1 == start,
            r@.len() == 0 ==> start == 0,
            forall|k: int| 0 <= k < r@.len() ==> (#[trigger] r@[k]).0 <= r@[k].1 <= n,
            forall|k: int| 0 <= k < r@.len() - 1 ==> (#[trigger] r@[k]).1 == r@[k + 1].0,
        decreases n - start,
    {
        let end = if size < n - start {
            start + size
        } else {
            n
        };
        r.push((start, end));
        start = end;
    }
    if r.len() == 0 {
        r.push((0, 0));
    }
    r
}

} // verus!
