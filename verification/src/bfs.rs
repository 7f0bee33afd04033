//! Breadth-first distances from a single source, with a level-synchronous
//! frontier variant for the parallel mode.

use vstd::prelude::*;
use std::collections::VecDeque;
use crate::graph::{Graph, dreach, dwalk_from_to, is_dwalk, lemma_dwalk_single, lemma_dwalk_push};

verus! {

/// `dv` is the exact number of edges on a shortest directed walk from
/// `source` to `v`: some walk has that many edges and none has fewer.
pub open spec fn dist_ok(g: Graph, source: int, v: int, dv: int) -> bool {
    &&& exists|p: Seq<int>| #[trigger] dwalk_from_to(g, p, source, v) && p.len() == dv + 1
    &&& forall|p: Seq<int>| #[trigger] dwalk_from_to(g, p, source, v) ==> p.len() >= dv + 1
}

/// What a breadth-first distance vector must say: `-1` exactly on the nodes
/// the source does not reach, and the shortest-walk edge count elsewhere. An
/// out-of-range source yields an all-unreached vector.
pub open spec fn bfs_post(g: Graph, source: int, d: Seq<i32>) -> bool {
    &&& d.len() == g.num_nodes
    &&& !(0 <= source < g.num_nodes) ==> forall|v: int| 0 <= v < d.len() ==> #[trigger] d[v] == -1
    &&& (0 <= source < g.num_nodes) ==> {
        &&& forall|v: int| 0 <= v < d.len() ==> -1 <= #[trigger] d[v] < g.num_nodes
        &&& d[source] == 0
        &&& forall|v: int| 0 <= v < d.len() ==> (#[trigger] d[v] != -1 <==> dreach(g, source, v))
        &&& forall|v: int|
            0 <= v < d.len() && #[trigger] d[v] != -1 ==> dist_ok(g, source, v, d[v] as int)
    }
}

/// Law: the distance vector is determined by the graph and the source, so any
/// two computations of it agree.
pub proof fn lemma_bfs_unique(g: Graph, source: int, d1: Seq<i32>, d2: Seq<i32>)
    requires
        bfs_post(g, source, d1),
        bfs_post(g, source, d2),
    ensures
        d1 == d2,
{
    assert forall|v: int| 0 <= v < d1.len() implies d1[v] == d2[v] by {
        if 0 <= source < g.num_nodes {
            if d1[v] != -1 {
                assert(dreach(g, source, v));
                assert(d2[v] != -1);
                let p1 = choose|p: Seq<int>|
                    #[trigger] dwalk_from_to(g, p, source, v) && p.len() == d1[v] + 1;
                let p2 = choose|p: Seq<int>|
                    #[trigger] dwalk_from_to(g, p, source, v) && p.len() == d2[v] + 1;
                assert(p1.len() >= d2[v] + 1);
                assert(p2.len() >= d1[v] + 1);
            } else {
                assert(!dreach(g, source, v));
                assert(d2[v] == -1);
            }
        }
    }
    assert(d1 =~= d2);
}

/// Law: breadth-first distances respect every edge. Where `u` is reached,
/// each neighbor `v` is reached with `d[v] <= d[u] + 1`; the source sits at
/// distance zero; unreached nodes hold `-1` (part of `bfs_post` itself).
pub proof fn lemma_bfs_edge_property(g: Graph, source: int, d: Seq<i32>)
    requires
        g.wf(),
        bfs_post(g, source, d),
        0 <= source < g.num_nodes,
    ensures
        d[source] == 0,
        forall|u: int, v: int|
            0 <= u < g.num_nodes && 0 <= v < g.num_nodes && #[trigger] g.has_edge(u, v) && d[u]
                != -1 ==> d[v] != -1 && d[v] <= d[u] + 1,
{
    assert forall|u: int, v: int|
        0 <= u < g.num_nodes && 0 <= v < g.num_nodes && #[trigger] g.has_edge(u, v) && d[u]
            != -1 implies d[v] != -1 && d[v] <= d[u] + 1 by {
        assert(dist_ok(g, source, u, d[u] as int));
        let p = choose|p: Seq<int>|
            #[trigger] dwalk_from_to(g, p, source, u) && p.len() == d[u] + 1;
        lemma_dwalk_push(g, p, source, u, v);
        assert(dwalk_from_to(g, p.push(v), source, v));
        assert(dreach(g, source, v));
        assert(d[v] != -1);
        assert(dist_ok(g, source, v, d[v] as int));
        assert(p.push(v).len() >= d[v] + 1);
    }
}

/// A sequence of distinct node ids below `n` has at most `n` entries.
proof fn lemma_distinct_bounded(s: Seq<usize>, n: nat)
    requires
        n <= usize::MAX,
        s.no_duplicates(),
        forall|k: int| 0 <= k < s.len() ==> (#[trigger] s[k] as nat) < n,
    ensures
        s.len() <= n,
{
    let ids = Seq::new(n, |i: int| i as usize);
    assert(ids.no_duplicates());
    s.unique_seq_to_set();
    ids.unique_seq_to_set();
    vstd::seq_lib::seq_to_set_is_finite(ids);
    assert forall|z: usize| s.to_set().contains(z) implies ids.to_set().contains(z) by {
        let k = choose|k: int| 0 <= k < s.len() && s[k] == z;
        assert(ids[z as int] == z);
    }
    vstd::set_lib::lemma_len_subset(s.to_set(), ids.to_set());
}

/// Once every reached node's neighbors sit within one step of it, every walk
/// from the source ends on a reached node no farther than the walk's length.
proof fn lemma_walk_dist_bound(g: Graph, d: Seq<i32>, source: int, p: Seq<int>)
    requires
        g.wf(),
        d.len() == g.num_nodes,
        0 <= source < g.num_nodes,
        d[source] == 0,
        forall|u: int, k: int|
            0 <= u < g.num_nodes && d[u] != -1 && 0 <= k < g.nbrs(u).len() ==> {
                &&& d[#[trigger] g.nbrs(u)[k] as int] != -1
                &&& d[g.nbrs(u)[k] as int] <= d[u] + 1
            },
        is_dwalk(g, p),
        p.first() == source,
    ensures
        d[p.last()] != -1,
        d[p.last()] <= p.len() - 1,
    decreases p.len(),
{
    if p.len() == 1 {
        assert(p.last() == source);
    } else {
        let q = p.drop_last();
        assert(is_dwalk(g, q));
        lemma_walk_dist_bound(g, d, source, q);
        let v = q.last();
        let t = p.last();
        assert(g.has_edge(p[p.len() - 2], p[p.len() - 1]));
        let k = choose|k: int| 0 <= k < g.nbrs(v).len() && #[trigger] g.nbrs(v)[k] as int == t;
        assert(d[g.nbrs(v)[k] as int] != -1 && d[g.nbrs(v)[k] as int] <= d[v] + 1);
    }
}

/// Sequential BFS: returns distance from source for each node (-1 if unreachable).
#[verifier::rlimit(100)]
pub fn bfs_sequential(graph: &Graph, source: usize) -> (dist: Vec<i32>)
    requires
        graph.wf(),
        graph.num_nodes <= 0x7fff_ffff,
    ensures
        bfs_post(*graph, source as int, dist@),
{
    let g = graph;
    let n = g.num_nodes;
    let mut dist: Vec<i32> = vec![-1; n];

    if source >= n {
        return dist;
    }

    dist.set(source, 0);
    let mut queue: VecDeque<usize> = VecDeque::new();
    queue.push_back(source);
    let ghost mut visited: Seq<usize> = seq![source];
    let ghost mut h: int = 0;
    proof {
        lemma_dwalk_single(*g, source as int);
        assert(visited[0] == source);
        assert forall|v: int|
            0 <= v < n implies ((#[trigger] dist@[v] != -1) <==> visited.contains(v as usize)) by {
            if dist@[v] != -1 {
                assert(v == source as int);
                assert(visited.contains(source));
            }
            if visited.contains(v as usize) {
                let k = choose|k: int| 0 <= k < visited.len() && #[trigger] visited[k] == v as usize;
                assert(k == 0);
            }
        }
    }

    while queue.len() > 0
        invariant
            g.wf(),
            g == graph,
            n == g.num_nodes,
            n <= 0x7fff_ffff,
            source < n,
            dist@.len() == n,
            dist@[source as int] == 0,
            0 <= h <= visited.len(),
            queue@ == visited.subrange(h, visited.len() as int),
            visited.no_duplicates(),
            forall|k: int|
                0 <= k < visited.len() ==> (#[trigger] visited[k] as int) < n && dist@[visited[k] as int] != -1,
            forall|k: int| 0 <= k < visited.len() ==> dist@[#[trigger] visited[k] as int] <= k,
            forall|k1: int, k2: int|
                0 <= k1 <= k2 < visited.len() ==> dist@[#[trigger] visited[k1] as int] <= dist@[#[trigger] visited[k2] as int],
            h < visited.len() ==> dist@[visited[visited.len() - 1] as int] <= dist@[visited[h] as int] + 1,
            forall|v: int|
                0 <= v < n ==> ((#[trigger] dist@[v] != -1) <==> visited.contains(v as usize)),
            forall|v: int| 0 <= v < n ==> -1 <= #[trigger] dist@[v] < n,
            forall|v: int|
                0 <= v < n && #[trigger] dist@[v] != -1 ==> exists|p: Seq<int>|
                    #[trigger] dwalk_from_to(*g, p, source as int, v) && p.len() == dist@[v] + 1,
            forall|k: int, j: int|
                0 <= k < h && 0 <= j < g.nbrs(visited[k] as int).len() ==> {
                    &&& dist@[#[trigger] g.nbrs(visited[k] as int)[j] as int] != -1
                    &&& dist@[g.nbrs(visited[k] as int)[j] as int] <= dist@[visited[k] as int] + 1
                },
        decreases n - h,
    {
        let u = queue.pop_front().unwrap();
        proof {
            assert(u == visited[h]);
            h = h + 1;
            lemma_distinct_bounded(visited, n as nat);
        }
        let du = dist[u];
        let ns = g.neighbors(u);
        let deg = ns.len();
        let mut j: usize = 0;
        while j < deg
            invariant
                g.wf(),
                g == graph,
                n == g.num_nodes,
                n <= 0x7fff_ffff,
                source < n,
                dist@.len() == n,
                dist@[source as int] == 0,
                0 < h <= visited.len(),
                visited.len() <= n,
                queue@ == visited.subrange(h, visited.len() as int),
                visited.no_duplicates(),
                u == visited[h - 1],
                du == dist@[u as int],
                0 <= du <= h - 1,
                ns@ == g.nbrs(u as int),
                deg == ns@.len(),
                j <= deg,
                forall|k: int|
                    0 <= k < visited.len() ==> (#[trigger] visited[k] as int) < n && dist@[visited[k] as int] != -1,
                forall|k: int| 0 <= k < visited.len() ==> dist@[#[trigger] visited[k] as int] <= k,
                forall|k1: int, k2: int|
                    0 <= k1 <= k2 < visited.len() ==> dist@[#[trigger] visited[k1] as int] <= dist@[#[trigger] visited[k2] as int],
                forall|k: int|
                    h <= k < visited.len() ==> du <= dist@[#[trigger] visited[k] as int] <= du + 1,
                forall|v: int|
                    0 <= v < n ==> ((#[trigger] dist@[v] != -1) <==> visited.contains(v as usize)),
                forall|v: int| 0 <= v < n ==> -1 <= #[trigger] dist@[v] < n,
                forall|v: int|
                    0 <= v < n && #[trigger] dist@[v] != -1 ==> exists|p: Seq<int>|
                        #[trigger] dwalk_from_to(*g, p, source as int, v) && p.len() == dist@[v]
                        + 1,
                forall|k: int, j2: int|
                    0 <= k < h - 1 && 0 <= j2 < g.nbrs(visited[k] as int).len() ==> {
                        &&& dist@[#[trigger] g.nbrs(visited[k] as int)[j2] as int] != -1
                        &&& dist@[g.nbrs(visited[k] as int)[j2] as int] <= dist@[visited[k] as int]
                            + 1
                    },
                forall|j2: int|
                    0 <= j2 < j ==> {
                        &&& dist@[#[trigger] ns@[j2] as int] != -1
                        &&& dist@[ns@[j2] as int] <= du + 1
                    },
            decreases deg - j,
        {
            let v = ns[j];
            proof {
                assert(g.nbrs(u as int)[j as int] == v);
                assert((v as int) < n);
            }
            if dist[v] == -1 {
                proof {
                    assert(!visited.contains(v));
                    assert(du + 1 < 0x8000_0000) by {
                        assert(du <= h - 1 < n);
                    }
                    let ghost pu = choose|p: Seq<int>|
                        #[trigger] dwalk_from_to(*g, p, source as int, u as int) && p.len() == du
                        + 1;
                    assert(g.has_edge(u as int, v as int)) by {
                        assert(g.nbrs(u as int)[j as int] as int == v as int);
                    }
                    lemma_dwalk_push(*g, pu, source as int, u as int, v as int);
                }
                dist.set(v, du + 1);
                queue.push_back(v);
                proof {
                    let old_visited = visited;
                    visited = visited.push(v);
                    assert(queue@ == visited.subrange(h, visited.len() as int)) by {
                        assert(queue@ =~= visited.subrange(h, visited.len() as int));
                    }
                    assert(visited.no_duplicates()) by {
                        assert(forall|k: int|
                            0 <= k < old_visited.len() ==> #[trigger] visited[k]
                                == old_visited[k]);
                    }
                    lemma_distinct_bounded(visited, n as nat);
                    assert forall|v2: int|
                        0 <= v2 < n implies ((#[trigger] dist@[v2] != -1) <==> visited.contains(
                        v2 as usize,
                    )) by {
                        if dist@[v2] != -1 {
                            if v2 == v as int {
                                assert(visited[visited.len() - 1] == v);
                            } else {
                                assert(old_visited.contains(v2 as usize));
                                let k = choose|k: int|
                                    0 <= k < old_visited.len() && #[trigger] old_visited[k]
                                        == v2 as usize;
                                assert(visited[k] == v2 as usize);
                            }
                        } else {
                            if visited.contains(v2 as usize) {
                                let k = choose|k: int|
                                    0 <= k < visited.len() && #[trigger] visited[k] == v2 as usize;
                                assert(k < old_visited.len());
                                assert(old_visited.contains(v2 as usize));
                            }
                        }
                    }
                }
            } else {
                proof {
                    assert(visited.contains(v));
                    let k = choose|k: int|
                        0 <= k < visited.len() && #[trigger] visited[k] == v;
                    if k <= h - 1 {
                        assert(dist@[visited[k] as int] <= dist@[visited[h - 1] as int]);
                    } else {
                        assert(du <= dist@[visited[k] as int] <= du + 1);
                    }
                }
            }
            j = j + 1;
        }
    }

    proof {
        assert(h == visited.len());
        assert forall|v: int| 0 <= v < n && #[trigger] dist@[v] != -1 implies dist_ok(
            *g,
            source as int,
            v,
            dist@[v] as int,
        ) by {
            assert forall|p: Seq<int>| #[trigger] dwalk_from_to(*g, p, source as int, v) implies p
                .len() >= dist@[v] + 1 by {
                lemma_closure_bound(*g, dist@, source as int, visited, p);
            }
        }
        assert forall|v: int| 0 <= v < n implies (#[trigger] dist@[v] != -1 <==> dreach(
            *g,
            source as int,
            v,
        )) by {
            if dist@[v] != -1 {
                let p = choose|p: Seq<int>|
                    #[trigger] dwalk_from_to(*g, p, source as int, v) && p.len() == dist@[v] + 1;
                assert(dreach(*g, source as int, v));
            }
            if dreach(*g, source as int, v) {
                let p = choose|p: Seq<int>| #[trigger] dwalk_from_to(*g, p, source as int, v);
                lemma_closure_bound(*g, dist@, source as int, visited, p);
            }
        }
    }
    dist
}

pub open spec fn sorted_asc(s: Seq<usize>) -> bool {
    forall|a: int, b: int| 0 <= a <= b < s.len() ==> s[a] <= s[b]
}

/// In-place insertion sort of a node list.
fn sort_nodes(v: &mut Vec<usize>)
    ensures
        final(v)@.to_multiset() == old(v)@.to_multiset(),
        final(v)@.len() == old(v)@.len(),
        sorted_asc(final(v)@),
        forall|x: usize| final(v)@.contains(x) <==> old(v)@.contains(x),
        old(v)@.no_duplicates() ==> final(v)@.no_duplicates(),
{
    broadcast use vstd::seq_lib::group_to_multiset_ensures;

    let ghost orig = v@;
    let len = v.len();
    if len <= 1 {
        return;
    }
    let mut i: usize = 1;
    while i < len
        invariant
            len == v@.len(),
            1 <= i <= len,
            v@.to_multiset() == orig.to_multiset(),
            orig.len() == len,
            sorted_asc(v@.take(i as int)),
        decreases len - i,
    {
        let x = v[i];
        let mut j: usize = i;
        while j > 0 && v[j - 1] > x
            invariant
                len == v@.len(),
                j <= i < len,
                x == v@[i as int],
                forall|k: int| j <= k < i ==> v@[k] > x,
            decreases j,
        {
            j = j - 1;
        }
        let ghost before = v@;
        let y = v.remove(i);
        v.insert(j, y);
        proof {
            assert(v@ == before.remove(i as int).insert(j as int, y));
            assert(v@.to_multiset() == orig.to_multiset()) by {
                vstd::seq_lib::to_multiset_remove::<usize>(before, i as int);
                vstd::seq_lib::to_multiset_insert::<usize>(
                    before.remove(i as int),
                    j as int,
                    y,
                );
                vstd::seq_lib::to_multiset_contains::<usize>(before, y);
                assert(before.contains(y));
                assert(before.to_multiset().count(y) > 0);
                assert(v@.to_multiset() =~= before.to_multiset());
            }
            assert(sorted_asc(v@.take(i as int + 1))) by {
                assert forall|a: int, b: int|
                    #![trigger v@[a], v@[b]]
                    0 <= a <= b < i + 1 implies v@[a] <= v@[b] by {
                    assert(forall|k: int| 0 <= k < j ==> #[trigger] v@[k] == before[k]);
                    assert(v@[j as int] == y);
                    assert(forall|k: int| j < k <= i ==> #[trigger] v@[k] == before[k - 1]);
                    assert forall|a2: int, b2: int|
                        #![trigger before[a2], before[b2]]
                        0 <= a2 <= b2 < i implies before[a2] <= before[b2] by {
                        assert(before.take(i as int)[a2] == before[a2]);
                        assert(before.take(i as int)[b2] == before[b2]);
                    }
                    if j > 0 {
                        assert(before[j - 1] <= x);
                    }
                }
                assert(forall|k: int|
                    0 <= k < i + 1 ==> #[trigger] v@.take(i as int + 1)[k] == v@[k]);
            }
        }
        i = i + 1;
    }
    proof {
        if len == 0 {
            assert(v@ =~= orig);
        } else {
            assert(v@.take(len as int) =~= v@);
        }
        vstd::seq_lib::lemma_multiset_commutative(v@, orig);
        assert forall|x: usize| v@.contains(x) <==> orig.contains(x) by {
            assert(v@.contains(x) <==> v@.to_multiset().count(x) > 0);
            assert(orig.contains(x) <==> orig.to_multiset().count(x) > 0);
        }
        if orig.no_duplicates() {
            orig.lemma_multiset_has_no_duplicates();
            v@.lemma_multiset_has_no_duplicates_conv();
        }
    }
}

/// Removes adjacent duplicates from a sorted node list; on a duplicate-free
/// list it returns the input unchanged.
fn dedup_adjacent(v: &Vec<usize>) -> (out: Vec<usize>)
    requires
        v@.no_duplicates(),
    ensures
        out@ == v@,
{
    let mut out: Vec<usize> = Vec::new();
    let mut i: usize = 0;
    while i < v.len()
        invariant
            i <= v@.len(),
            v@.no_duplicates(),
            out@ == v@.take(i as int),
        decreases v@.len() - i,
    {
        if out.len() == 0 || out[out.len() - 1] != v[i] {
            out.push(v[i]);
        } else {
            proof {
                assert(out@[out@.len() - 1] == v@.take(i as int)[i - 1]);
                assert(v@[i - 1] == v@[i as int]);
                assert(false);
            }
        }
        proof {
            assert(out@ =~= v@.take(i as int + 1));
        }
        i = i + 1;
    }
    proof {
        assert(v@.take(v@.len() as int) =~= v@);
    }
    out
}

/// Packages the final closure facts of the search loop for `lemma_walk_dist_bound`.
proof fn lemma_closure_bound(g: Graph, d: Seq<i32>, source: int, visited: Seq<usize>, p: Seq<int>)
    requires
        g.wf(),
        d.len() == g.num_nodes,
        0 <= source < g.num_nodes,
        d[source] == 0,
        forall|v: int| 0 <= v < g.num_nodes ==> ((#[trigger] d[v] != -1) <==> visited.contains(v as usize)),
        forall|k: int|
            0 <= k < visited.len() ==> (#[trigger] visited[k] as int) < g.num_nodes,
        forall|k: int, j: int|
            0 <= k < visited.len() && 0 <= j < g.nbrs(visited[k] as int).len() ==> {
                &&& d[#[trigger] g.nbrs(visited[k] as int)[j] as int] != -1
                &&& d[g.nbrs(visited[k] as int)[j] as int] <= d[visited[k] as int] + 1
            },
        is_dwalk(g, p),
        p.first() == source,
    ensures
        d[p.last()] != -1,
        d[p.last()] <= p.len() - 1,
{
    assert forall|u: int, k: int|
        0 <= u < g.num_nodes && d[u] != -1 && 0 <= k < g.nbrs(u).len() implies {
        &&& d[#[trigger] g.nbrs(u)[k] as int] != -1
        &&& d[g.nbrs(u)[k] as int] <= d[u] + 1
    } by {
        assert(visited.contains(u as usize));
        let kk = choose|kk: int| 0 <= kk < visited.len() && #[trigger] visited[kk] == u as usize;
        assert(d[g.nbrs(visited[kk] as int)[k] as int] != -1);
    }
    lemma_walk_dist_bound(g, d, source, p);
}


/// Below this many nodes the parallel mode falls back entirely to the
/// sequential pass: dispatch overhead dominates on small graphs.
pub const PAR_MIN_NODES: usize = 50000;

/// Minimum frontier size for handing a level to parallel workers rather than
/// expanding it in place.
pub const PAR_MIN_FRONTIER: usize = 1024;

/// Parallel-mode BFS: level-synchronous frontier expansion. Falls back to the
/// sequential pass for small graphs; its result is provably the same vector.
///
/// Each level claims every still-unreached neighbor of the frontier exactly
/// once, which is the invariant the claim-once compare-and-swap enforces when
/// `num_threads` workers race on the distance array; the set of nodes claimed
/// per level — and so the returned vector — is the same for every
/// interleaving, which is what the contract pins down.
pub fn bfs_parallel(graph: &Graph, source: usize, num_threads: usize) -> (dist: Vec<i32>)
    requires
        graph.wf(),
        graph.num_nodes <= 0x7fff_ffff,
    ensures
        bfs_post(*graph, source as int, dist@),
{
    let _ = num_threads;
    if graph.num_nodes < PAR_MIN_NODES {
        return bfs_sequential(graph, source);
    }
    bfs_level_sync(graph, source)
}

/// One level at a time: expand the whole frontier, collect the newly claimed
/// nodes, sort and deduplicate them, and make them the next frontier.
#[verifier::rlimit(100)]
fn bfs_level_sync(graph: &Graph, source: usize) -> (dist: Vec<i32>)
    requires
        graph.wf(),
        graph.num_nodes <= 0x7fff_ffff,
    ensures
        bfs_post(*graph, source as int, dist@),
{
    let g = graph;
    let n = g.num_nodes;
    let mut dist: Vec<i32> = vec![-1; n];

    if source >= n {
        return dist;
    }

    dist.set(source, 0);
    let mut frontier: Vec<usize> = Vec::new();
    frontier.push(source);
    let mut level: i32 = 0;
    let ghost mut claimed: Seq<usize> = seq![source];
    proof {
        lemma_dwalk_single(*g, source as int);
        assert(claimed[0] == source);
        assert(frontier@ == seq![source]);
        assert forall|v: int|
            0 <= v < n implies ((#[trigger] dist@[v] != -1) <==> claimed.contains(v as usize)) by {
            if dist@[v] != -1 {
                assert(v == source as int);
                assert(claimed.contains(source));
            }
            if claimed.contains(v as usize) {
                let k = choose|k: int| 0 <= k < claimed.len() && #[trigger] claimed[k] == v as usize;
                assert(k == 0);
            }
        }
        assert forall|v: int|
            0 <= v < n implies ((#[trigger] dist@[v] == level) <==> frontier@.contains(
            v as usize,
        )) by {
            if dist@[v] == level {
                assert(v == source as int);
                assert(frontier@[0] == source);
            }
            if frontier@.contains(v as usize) {
                let k = choose|k: int|
                    0 <= k < frontier@.len() && #[trigger] frontier@[k] == v as usize;
                assert(k == 0);
            }
        }
    }

    while frontier.len() > 0
        invariant
            g.wf(),
            g == graph,
            n == g.num_nodes,
            n <= 0x7fff_ffff,
            source < n,
            dist@.len() == n,
            dist@[source as int] == 0,
            0 <= level,
            level <= claimed.len(),
            frontier@.len() > 0 ==> level < claimed.len(),
            claimed.no_duplicates(),
            forall|k: int| 0 <= k < claimed.len() ==> (#[trigger] claimed[k] as int) < n,
            forall|v: int|
                0 <= v < n ==> ((#[trigger] dist@[v] != -1) <==> claimed.contains(v as usize)),
            frontier@.no_duplicates(),
            forall|k: int| 0 <= k < frontier@.len() ==> (#[trigger] frontier@[k] as int) < n,
            forall|v: int|
                0 <= v < n ==> ((#[trigger] dist@[v] == level) <==> frontier@.contains(v as usize)),
            forall|v: int| 0 <= v < n ==> -1 <= #[trigger] dist@[v] <= level,
            forall|v: int| 0 <= v < n ==> (#[trigger] dist@[v] as int) < n,
            forall|v: int|
                0 <= v < n && #[trigger] dist@[v] != -1 ==> exists|p: Seq<int>|
                    #[trigger] dwalk_from_to(*g, p, source as int, v) && p.len() == dist@[v] + 1,
            forall|u: int, j: int|
                0 <= u < n && 0 <= dist@[u] < level && 0 <= j < g.nbrs(u).len() ==> {
                    &&& dist@[#[trigger] g.nbrs(u)[j] as int] != -1
                    &&& dist@[g.nbrs(u)[j] as int] <= dist@[u] + 1
                },
        decreases 2 * (n - claimed.len()) + frontier@.len(),
    {
        let ghost claimed0 = claimed;
        let ghost frontier_snap = frontier@;
        proof {
            lemma_distinct_bounded(claimed, n as nat);
            assert(level < claimed0.len());
            assert(level < n);
        }
        let flen = frontier.len();
        let mut next: Vec<usize> = Vec::new();
        let mut i: usize = 0;
        while i < flen
            invariant
                g.wf(),
                g == graph,
                n == g.num_nodes,
                n <= 0x7fff_ffff,
                source < n,
                dist@.len() == n,
                dist@[source as int] == 0,
                0 <= level < n,
                level < claimed0.len(),
                i <= flen,
                frontier@ == frontier_snap,
                flen == frontier@.len(),
                claimed.no_duplicates(),
                claimed0.len() <= claimed.len(),
                forall|k: int| 0 <= k < claimed.len() ==> (#[trigger] claimed[k] as int) < n,
                forall|v: int|
                    0 <= v < n ==> ((#[trigger] dist@[v] != -1) <==> claimed.contains(v as usize)),
                frontier@.no_duplicates(),
                forall|k: int| 0 <= k < frontier@.len() ==> (#[trigger] frontier@[k] as int) < n,
                forall|v: int|
                    0 <= v < n ==> ((#[trigger] dist@[v] == level) <==> frontier@.contains(
                        v as usize,
                    )),
                next@.no_duplicates(),
                forall|k: int| 0 <= k < next@.len() ==> (#[trigger] next@[k] as int) < n,
                forall|v: int|
                    0 <= v < n ==> ((#[trigger] dist@[v] == level + 1) <==> next@.contains(
                        v as usize,
                    )),
                next@.len() + claimed0.len() == claimed.len(),
                forall|v: int| 0 <= v < n ==> -1 <= #[trigger] dist@[v] <= level + 1,
                forall|v: int| 0 <= v < n ==> (#[trigger] dist@[v] as int) < n,
                forall|v: int|
                    0 <= v < n && #[trigger] dist@[v] != -1 ==> exists|p: Seq<int>|
                        #[trigger] dwalk_from_to(*g, p, source as int, v) && p.len() == dist@[v]
                        + 1,
                forall|u: int, j: int|
                    0 <= u < n && 0 <= dist@[u] < level && 0 <= j < g.nbrs(u).len() ==> {
                        &&& dist@[#[trigger] g.nbrs(u)[j] as int] != -1
                        &&& dist@[g.nbrs(u)[j] as int] <= dist@[u] + 1
                    },
                forall|k: int, j: int|
                    0 <= k < i && 0 <= j < g.nbrs(frontier@[k] as int).len() ==> {
                        &&& dist@[#[trigger] g.nbrs(frontier@[k] as int)[j] as int] != -1
                        &&& dist@[g.nbrs(frontier@[k] as int)[j] as int] <= level + 1
                    },
            decreases flen - i,
        {
            let u = frontier[i];
            proof {
                assert(frontier@.contains(u));
                assert(dist@[u as int] == level);
            }
            let ns = g.neighbors(u);
            let deg = ns.len();
            let mut j: usize = 0;
            while j < deg
                invariant
                    g.wf(),
                    g == graph,
                    n == g.num_nodes,
                    n <= 0x7fff_ffff,
                    source < n,
                    dist@.len() == n,
                    dist@[source as int] == 0,
                    0 <= level < n,
                    level < claimed0.len(),
                    i < flen,
                    j <= deg,
                    frontier@ == frontier_snap,
                    flen == frontier@.len(),
                    u == frontier@[i as int],
                    (u as int) < n,
                    dist@[u as int] == level,
                    ns@ == g.nbrs(u as int),
                    deg == ns@.len(),
                    claimed.no_duplicates(),
                    claimed0.len() <= claimed.len(),
                    forall|k: int| 0 <= k < claimed.len() ==> (#[trigger] claimed[k] as int) < n,
                    forall|v: int|
                        0 <= v < n ==> ((#[trigger] dist@[v] != -1) <==> claimed.contains(
                            v as usize,
                        )),
                    frontier@.no_duplicates(),
                    forall|k: int| 0 <= k < frontier@.len() ==> (#[trigger] frontier@[k] as int) < n,
                    forall|v: int|
                        0 <= v < n ==> ((#[trigger] dist@[v] == level) <==> frontier@.contains(
                            v as usize,
                        )),
                    next@.no_duplicates(),
                    forall|k: int| 0 <= k < next@.len() ==> (#[trigger] next@[k] as int) < n,
                    forall|v: int|
                        0 <= v < n ==> ((#[trigger] dist@[v] == level + 1) <==> next@.contains(
                            v as usize,
                        )),
                    next@.len() + claimed0.len() == claimed.len(),
                    forall|v: int| 0 <= v < n ==> -1 <= #[trigger] dist@[v] <= level + 1,
                    forall|v: int| 0 <= v < n ==> (#[trigger] dist@[v] as int) < n,
                    forall|v: int|
                        0 <= v < n && #[trigger] dist@[v] != -1 ==> exists|p: Seq<int>|
                            #[trigger] dwalk_from_to(*g, p, source as int, v) && p.len() == dist@[v]
                            + 1,
                    forall|u2: int, j2: int|
                        0 <= u2 < n && 0 <= dist@[u2] < level && 0 <= j2 < g.nbrs(u2).len() ==> {
                            &&& dist@[#[trigger] g.nbrs(u2)[j2] as int] != -1
                            &&& dist@[g.nbrs(u2)[j2] as int] <= dist@[u2] + 1
                        },
                    forall|k: int, j2: int|
                        0 <= k < i && 0 <= j2 < g.nbrs(frontier@[k] as int).len() ==> {
                            &&& dist@[#[trigger] g.nbrs(frontier@[k] as int)[j2] as int] != -1
                            &&& dist@[g.nbrs(frontier@[k] as int)[j2] as int] <= level + 1
                        },
                    forall|j2: int|
                        0 <= j2 < j ==> {
                            &&& dist@[#[trigger] ns@[j2] as int] != -1
                            &&& dist@[ns@[j2] as int] <= level + 1
                        },
                decreases deg - j,
            {
                let t = ns[j];
                proof {
                    assert(g.nbrs(u as int)[j as int] == t);
                    assert((t as int) < n);
                }
                if dist[t] == -1 {
                    proof {
                        assert(!claimed.contains(t));
                        assert(!next@.contains(t));
                        // The new node makes the claimed list longer than
                        // level + 1, and it stays within the n distinct ids.
                        lemma_distinct_bounded(claimed.push(t), n as nat);
                        assert(level + 1 < n);
                        let ghost pu = choose|p: Seq<int>|
                            #[trigger] dwalk_from_to(*g, p, source as int, u as int) && p.len()
                            == level + 1;
                        assert(g.has_edge(u as int, t as int)) by {
                            assert(g.nbrs(u as int)[j as int] as int == t as int);
                        }
                        lemma_dwalk_push(*g, pu, source as int, u as int, t as int);
                    }
                    dist.set(t, level + 1);
                    let ghost next_before = next@;
                    next.push(t);
                    proof {
                        let old_claimed = claimed;
                        claimed = claimed.push(t);
                        assert(next@ == next_before.push(t));
                        assert(claimed.no_duplicates()) by {
                            assert(forall|k: int|
                                0 <= k < old_claimed.len() ==> #[trigger] claimed[k]
                                    == old_claimed[k]);
                        }
                        assert(next@.no_duplicates()) by {
                            assert(forall|k: int|
                                0 <= k < next_before.len() ==> #[trigger] next@[k]
                                    == next_before[k]);
                        }
                        assert forall|v2: int|
                            0 <= v2 < n implies ((#[trigger] dist@[v2] != -1)
                            <==> claimed.contains(v2 as usize)) by {
                            if dist@[v2] != -1 {
                                if v2 == t as int {
                                    assert(claimed[claimed.len() - 1] == t);
                                } else {
                                    assert(old_claimed.contains(v2 as usize));
                                    let k = choose|k: int|
                                        0 <= k < old_claimed.len() && #[trigger] old_claimed[k]
                                            == v2 as usize;
                                    assert(claimed[k] == v2 as usize);
                                }
                            } else {
                                if claimed.contains(v2 as usize) {
                                    let k = choose|k: int|
                                        0 <= k < claimed.len() && #[trigger] claimed[k]
                                            == v2 as usize;
                                    assert(k < old_claimed.len());
                                    assert(old_claimed.contains(v2 as usize));
                                }
                            }
                        }
                        assert forall|v2: int|
                            0 <= v2 < n implies ((#[trigger] dist@[v2] == level + 1)
                            <==> next@.contains(v2 as usize)) by {
                            if dist@[v2] == level + 1 {
                                if v2 == t as int {
                                    assert(next@[next@.len() - 1] == t);
                                } else {
                                    assert(next_before.contains(v2 as usize));
                                    let k = choose|k: int|
                                        0 <= k < next_before.len() && #[trigger] next_before[k]
                                            == v2 as usize;
                                    assert(next@[k] == v2 as usize);
                                }
                            } else {
                                if next@.contains(v2 as usize) {
                                    let k = choose|k: int|
                                        0 <= k < next@.len() && #[trigger] next@[k] == v2 as usize;
                                    assert(k < next_before.len());
                                    assert(next_before.contains(v2 as usize));
                                }
                            }
                        }
                    }
                } else {
                }
                j = j + 1;
            }
            i = i + 1;
        }

        // The next level's frontier is sorted and deduplicated; with the
        // claim-once discipline it is already duplicate-free, so this keeps
        // the scan order canonical without changing the set.
        let ghost pre_sort = next@;
        sort_nodes(&mut next);
        let next = dedup_adjacent(&next);

        proof {
            assert(next@.len() == pre_sort.len());
            assert(next@.len() + claimed0.len() == claimed.len());
            assert forall|k: int| 0 <= k < next@.len() implies (#[trigger] next@[k] as int)
                < n by {
                assert(next@.contains(next@[k]));
                assert(pre_sort.contains(next@[k]));
                let k2 = choose|k2: int|
                    0 <= k2 < pre_sort.len() && #[trigger] pre_sort[k2] == next@[k];
            }
            assert forall|v: int|
                0 <= v < n implies ((#[trigger] dist@[v] == level + 1) <==> next@.contains(
                v as usize,
            )) by {
                assert(next@.contains(v as usize) <==> pre_sort.contains(v as usize));
            }
            lemma_level_expanded(*g, dist@, frontier_snap, level as int);
            lemma_distinct_bounded(claimed, n as nat);
        }
        frontier = next;
        level = level + 1;
    }

    proof {
        assert forall|u: int, k: int|
            0 <= u < n && dist@[u] != -1 && 0 <= k < g.nbrs(u).len() implies {
            &&& dist@[#[trigger] g.nbrs(u)[k] as int] != -1
            &&& dist@[g.nbrs(u)[k] as int] <= dist@[u] + 1
        } by {
            assert(!frontier@.contains(u as usize));
            assert(dist@[u] != level);
            assert(dist@[u] < level);
        }
        assert forall|v: int| 0 <= v < n && #[trigger] dist@[v] != -1 implies dist_ok(
            *g,
            source as int,
            v,
            dist@[v] as int,
        ) by {
            assert forall|p: Seq<int>| #[trigger] dwalk_from_to(*g, p, source as int, v) implies p
                .len() >= dist@[v] + 1 by {
                lemma_walk_dist_bound(*g, dist@, source as int, p);
            }
        }
        assert forall|v: int| 0 <= v < n implies (#[trigger] dist@[v] != -1 <==> dreach(
            *g,
            source as int,
            v,
        )) by {
            if dist@[v] != -1 {
                let p = choose|p: Seq<int>|
                    #[trigger] dwalk_from_to(*g, p, source as int, v) && p.len() == dist@[v] + 1;
                assert(dreach(*g, source as int, v));
            }
            if dreach(*g, source as int, v) {
                let p = choose|p: Seq<int>| #[trigger] dwalk_from_to(*g, p, source as int, v);
                lemma_walk_dist_bound(*g, dist@, source as int, p);
            }
        }
    }
    dist
}

/// After the whole frontier of a level has been expanded, every node at or
/// below that level has all neighbors claimed within one step.
proof fn lemma_level_expanded(g: Graph, d: Seq<i32>, frontier: Seq<usize>, level: int)
    requires
        g.wf(),
        d.len() == g.num_nodes,
        forall|v: int|
            0 <= v < g.num_nodes ==> ((#[trigger] d[v] == level) <==> frontier.contains(
                v as usize,
            )),
        forall|u: int, j: int|
            0 <= u < g.num_nodes && 0 <= d[u] < level && 0 <= j < g.nbrs(u).len() ==> {
                &&& d[#[trigger] g.nbrs(u)[j] as int] != -1
                &&& d[g.nbrs(u)[j] as int] <= d[u] + 1
            },
        forall|k: int, j: int|
            0 <= k < frontier.len() && 0 <= j < g.nbrs(frontier[k] as int).len() ==> {
                &&& d[#[trigger] g.nbrs(frontier[k] as int)[j] as int] != -1
                &&& d[g.nbrs(frontier[k] as int)[j] as int] <= level + 1
            },
    ensures
        forall|u: int, j: int|
            0 <= u < g.num_nodes && 0 <= d[u] < level + 1 && 0 <= j < g.nbrs(u).len() ==> {
                &&& d[#[trigger] g.nbrs(u)[j] as int] != -1
                &&& d[g.nbrs(u)[j] as int] <= d[u] + 1
            },
{
    assert forall|u: int, j: int|
        0 <= u < g.num_nodes && 0 <= d[u] < level + 1 && 0 <= j < g.nbrs(u).len() implies {
        &&& d[#[trigger] g.nbrs(u)[j] as int] != -1
        &&& d[g.nbrs(u)[j] as int] <= d[u] + 1
    } by {
        if d[u] == level {
            assert(frontier.contains(u as usize));
            let k = choose|k: int|
                0 <= k < frontier.len() && #[trigger] frontier[k] == u as usize;
            assert(d[g.nbrs(frontier[k] as int)[j] as int] != -1);
            assert(d[g.nbrs(frontier[k] as int)[j] as int] <= level + 1);
        }
    }
}

} // verus!
