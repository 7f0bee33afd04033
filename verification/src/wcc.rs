//! Weakly-connected components: every directed edge is taken as undirected,
//! endpoints are united in a disjoint-set structure, and each node is labelled
//! with its set's representative.

use vstd::prelude::*;
use crate::graph::{Graph, connected, uedge, is_uwalk, lemma_connected_refl, lemma_connected_sym,
    lemma_connected_trans, lemma_uedge_connected, lemma_walk_labels};
use crate::union_find::UnionFind;
use crate::atomic_union_find::AtomicUnionFind;

verus! {

/// The label vector `comps` partitions the nodes of `g` exactly by
/// weak connectivity.
pub open spec fn components_wf(g: Graph, comps: Seq<usize>) -> bool {
    &&& comps.len() == g.num_nodes
    &&& forall|v: int| 0 <= v < g.num_nodes ==> (#[trigger] comps[v] as int) < g.num_nodes
    &&& forall|u: int, v: int|
        #![trigger comps[u], comps[v]]
        0 <= u < g.num_nodes && 0 <= v < g.num_nodes ==> (comps[u] == comps[v] <==> connected(
            g,
            u,
            v,
        ))
}

/// Sequential WCC: finds weakly connected components (treats graph as undirected).
pub fn wcc_sequential(graph: &Graph) -> (comps: Vec<usize>)
    requires
        graph.wf(),
    ensures
        components_wf(*graph, comps@),
{
    let g = graph;
    let n = g.num_nodes;
    let mut uf = UnionFind::new(n);
    proof {
        assert forall|a: int, b: int|
            0 <= a < n && 0 <= b < n && #[trigger] uf.same_set(a, b) implies connected(
            *g,
            a,
            b,
        ) by {
            assert(uf.root_spec(a) == a && uf.root_spec(b) == b);
            lemma_connected_refl(*g, a);
        }
    }

    let mut u: usize = 0;
    while u < n
        invariant
            g.wf(),
            g == graph,
            n == g.num_nodes,
            uf.wf(),
            uf.spec_len() == n,
            u <= n,
            forall|a: int, b: int|
                0 <= a < n && 0 <= b < n && #[trigger] uf.same_set(a, b) ==> connected(*g, a, b),
            forall|w: int, k: int|
                0 <= w < u && 0 <= k < g.nbrs(w).len() ==> uf.same_set(w, #[trigger] g.nbrs(w)[k] as int),
        decreases n - u,
    {
        let ns = g.neighbors(u);
        let deg = ns.len();
        let mut j: usize = 0;
        while j < deg
            invariant
                g.wf(),
                g == graph,
                n == g.num_nodes,
                uf.wf(),
                uf.spec_len() == n,
                u < n,
                j <= deg,
                ns@ == g.nbrs(u as int),
                deg == g.nbrs(u as int).len(),
                forall|a: int, b: int|
                    0 <= a < n && 0 <= b < n && #[trigger] uf.same_set(a, b) ==> connected(
                        *g,
                        a,
                        b,
                    ),
                forall|w: int, k: int|
                    0 <= w < u && 0 <= k < g.nbrs(w).len() ==> uf.same_set(
                        w,
                        #[trigger] g.nbrs(w)[k] as int,
                    ),
                forall|k: int| 0 <= k < j ==> uf.same_set(u as int, #[trigger] g.nbrs(u as int)[k] as int),
            decreases deg - j,
        {
            let t = ns[j];
            let ghost uf_before = uf;
            proof {
                assert(g.nbrs(u as int)[j as int] == t);
                assert((t as int) < n);
                assert(g.has_edge(u as int, t as int));
            }
            uf.union(u, t);
            proof {
                lemma_uedge_connected(*g, u as int, t as int);
                assert forall|a: int, b: int|
                    0 <= a < n && 0 <= b < n && #[trigger] uf.same_set(a, b) implies connected(
                    *g,
                    a,
                    b,
                ) by {
                    if uf_before.same_set(a, b) {
                    } else if uf_before.same_set(a, u as int) && uf_before.same_set(b, t as int) {
                        lemma_connected_trans(*g, a, u as int, t as int);
                        lemma_connected_sym(*g, b, t as int);
                        lemma_connected_trans(*g, a, t as int, b);
                    } else {
                        lemma_connected_sym(*g, u as int, t as int);
                        lemma_connected_trans(*g, a, t as int, u as int);
                        lemma_connected_sym(*g, b, u as int);
                        lemma_connected_trans(*g, a, u as int, b);
                    }
                }
            }
            j = j + 1;
        }
        u = u + 1;
    }

    let ghost uf_done = uf;
    let comps = uf.get_components();
    proof {
        let lab = |z: int| uf_done.root_spec(z);
        assert forall|v: int| #![trigger comps@[v]] 0 <= v < n implies comps@[v] as int == lab(
            v,
        ) by {}
        assert forall|v: int| 0 <= v < n implies 0 <= #[trigger] lab(v) < n by {
            uf_done.lemma_root_props(v);
        }
        assert forall|a: int, b: int|
            0 <= a < n && 0 <= b < n && #[trigger] lab(a) == #[trigger] lab(b) implies connected(
            *g,
            a,
            b,
        ) by {
            assert(uf_done.same_set(a, b));
        }
        assert forall|w: int, k: int|
            0 <= w < n && 0 <= k < g.nbrs(w).len() implies lab(w) == lab(
            #[trigger] g.nbrs(w)[k] as int,
        ) by {
            assert(uf_done.same_set(w, g.nbrs(w)[k] as int));
        }
        lemma_components_from_labels(*g, lab, comps@);
    }
    comps
}

/// Parallel-mode WCC: identical partition semantics to `wcc_sequential`, built
/// on the merge discipline of `AtomicUnionFind` (smaller root always linked
/// below the larger), under which every order of processing the edges — and so
/// every interleaving of the workers that `num_threads` requests — converges to
/// the same partition. Individual root labels may differ from the sequential
/// pass.
pub fn wcc_parallel(graph: &Graph, num_threads: usize) -> (comps: Vec<usize>)
    requires
        graph.wf(),
    ensures
        components_wf(*graph, comps@),
{
    let _ = num_threads;
    let g = graph;
    let n = g.num_nodes;
    let mut uf = AtomicUnionFind::new(n);
    proof {
        assert forall|a: int, b: int|
            0 <= a < n && 0 <= b < n && #[trigger] uf.same_set(a, b) implies connected(
            *g,
            a,
            b,
        ) by {
            assert(uf.root_spec(a) == a && uf.root_spec(b) == b);
            lemma_connected_refl(*g, a);
        }
    }

    let mut u: usize = 0;
    while u < n
        invariant
            g.wf(),
            g == graph,
            n == g.num_nodes,
            uf.wf(),
            uf.spec_len() == n,
            u <= n,
            forall|a: int, b: int|
                0 <= a < n && 0 <= b < n && #[trigger] uf.same_set(a, b) ==> connected(*g, a, b),
            forall|w: int, k: int|
                0 <= w < u && 0 <= k < g.nbrs(w).len() ==> uf.same_set(w, #[trigger] g.nbrs(w)[k] as int),
        decreases n - u,
    {
        let ns = g.neighbors(u);
        let deg = ns.len();
        let mut j: usize = 0;
        while j < deg
            invariant
                g.wf(),
                g == graph,
                n == g.num_nodes,
                uf.wf(),
                uf.spec_len() == n,
                u < n,
                j <= deg,
                ns@ == g.nbrs(u as int),
                deg == g.nbrs(u as int).len(),
                forall|a: int, b: int|
                    0 <= a < n && 0 <= b < n && #[trigger] uf.same_set(a, b) ==> connected(
                        *g,
                        a,
                        b,
                    ),
                forall|w: int, k: int|
                    0 <= w < u && 0 <= k < g.nbrs(w).len() ==> uf.same_set(
                        w,
                        #[trigger] g.nbrs(w)[k] as int,
                    ),
                forall|k: int| 0 <= k < j ==> uf.same_set(u as int, #[trigger] g.nbrs(u as int)[k] as int),
            decreases deg - j,
        {
            let t = ns[j];
            let ghost uf_before = uf;
            proof {
                assert(g.nbrs(u as int)[j as int] == t);
                assert((t as int) < n);
                assert(g.has_edge(u as int, t as int));
            }
            uf.union(u, t);
            proof {
                lemma_uedge_connected(*g, u as int, t as int);
                assert forall|a: int, b: int|
                    0 <= a < n && 0 <= b < n && #[trigger] uf.same_set(a, b) implies connected(
                    *g,
                    a,
                    b,
                ) by {
                    if uf_before.same_set(a, b) {
                    } else if uf_before.same_set(a, u as int) && uf_before.same_set(b, t as int) {
                        lemma_connected_trans(*g, a, u as int, t as int);
                        lemma_connected_sym(*g, b, t as int);
                        lemma_connected_trans(*g, a, t as int, b);
                    } else {
                        lemma_connected_sym(*g, u as int, t as int);
                        lemma_connected_trans(*g, a, t as int, u as int);
                        lemma_connected_sym(*g, b, u as int);
                        lemma_connected_trans(*g, a, u as int, b);
                    }
                }
            }
            j = j + 1;
        }
        u = u + 1;
    }

    let ghost uf_done = uf;
    let comps = uf.get_components();
    proof {
        let lab = |z: int| uf_done.root_spec(z);
        assert forall|v: int| #![trigger comps@[v]] 0 <= v < n implies comps@[v] as int == lab(
            v,
        ) by {}
        assert forall|v: int| 0 <= v < n implies 0 <= #[trigger] lab(v) < n by {
            uf_done.lemma_root_props(v);
        }
        assert forall|a: int, b: int|
            0 <= a < n && 0 <= b < n && #[trigger] lab(a) == #[trigger] lab(b) implies connected(
            *g,
            a,
            b,
        ) by {
            assert(uf_done.same_set(a, b));
        }
        assert forall|w: int, k: int|
            0 <= w < n && 0 <= k < g.nbrs(w).len() implies lab(w) == lab(
            #[trigger] g.nbrs(w)[k] as int,
        ) by {
            assert(uf_done.same_set(w, g.nbrs(w)[k] as int));
        }
        lemma_components_from_labels(*g, lab, comps@);
    }
    comps
}

/// Number of occurrences of `x` in `s`; the size of `x`'s component when `s`
/// is a component-label vector and `x` a label that occurs.
pub open spec fn count_of(s: Seq<usize>, x: usize) -> nat
    decreases s.len(),
{
    if s.len() == 0 {
        0
    } else {
        count_of(s.drop_last(), x) + if s.last() == x {
            1nat
        } else {
            0nat
        }
    }
}

proof fn lemma_count_take_step(s: Seq<usize>, i: int, x: usize)
    requires
        0 <= i < s.len(),
    ensures
        count_of(s.take(i + 1), x) == count_of(s.take(i), x) + if s[i] == x {
            1nat
        } else {
            0nat
        },
{
    assert(s.take(i + 1).drop_last() =~= s.take(i));
    assert(s.take(i + 1).last() == s[i]);
}

proof fn lemma_count_zero_if_absent(s: Seq<usize>, x: usize)
    requires
        !s.contains(x),
    ensures
        count_of(s, x) == 0,
    decreases s.len(),
{
    if s.len() > 0 {
        assert(forall|k: int|
            0 <= k < s.drop_last().len() ==> #[trigger] s.drop_last()[k] == s[k]);
        lemma_count_zero_if_absent(s.drop_last(), x);
        assert(s[s.len() - 1] != x);
    }
}

proof fn lemma_count_le_len(s: Seq<usize>, x: usize)
    ensures
        count_of(s, x) <= s.len(),
    decreases s.len(),
{
    if s.len() > 0 {
        lemma_count_le_len(s.drop_last(), x);
    }
}

/// Statistics over a component-label vector.
pub struct WccStats {
    pub num_components: usize,
    pub largest_component: usize,
    pub smallest_component: usize,
    pub component_sizes: std::collections::HashMap<usize, usize>,
}

impl WccStats {
    /// The statistics describe the label vector `s`: one map entry per label
    /// that occurs, holding how often it occurs, and the extremes over them.
    pub open spec fn describes(self, s: Seq<usize>) -> bool {
        &&& self.component_sizes@.dom() == s.to_set()
        &&& forall|id: usize|
            s.to_set().contains(id) ==> #[trigger] self.component_sizes@[id] == count_of(s, id)
        &&& self.num_components == s.to_set().len()
        &&& s.len() == 0 ==> self.largest_component == 0 && self.smallest_component == 0
            && self.num_components == 0
        &&& s.len() > 0 ==> {
            &&& exists|v: int| 0 <= v < s.len() && self.largest_component == count_of(s, #[trigger] s[v])
            &&& forall|v: int| 0 <= v < s.len() ==> count_of(s, #[trigger] s[v]) <= self.largest_component
            &&& exists|v: int| 0 <= v < s.len() && self.smallest_component == count_of(s, #[trigger] s[v])
            &&& forall|v: int|
                0 <= v < s.len() ==> count_of(s, #[trigger] s[v]) >= self.smallest_component
        }
    }
}

/// Computes statistics for a WCC result (component counts and sizes).
pub fn wcc_stats(components: &[usize]) -> (stats: WccStats)
    ensures
        stats.describes(components@),
{
    broadcast use vstd::std_specs::hash::group_hash_axioms;

    let ghost s = components@;
    let n = components.len();
    let mut comp_sizes: std::collections::HashMap<usize, usize> =
        std::collections::HashMap::new();

    let mut i: usize = 0;
    while i < n
        invariant
            n == s.len(),
            components@ == s,
            i <= n,
            comp_sizes@.dom() =~= s.take(i as int).to_set(),
            comp_sizes@.dom().finite(),
            forall|id: usize|
                s.take(i as int).to_set().contains(id) ==> #[trigger] comp_sizes@[id] == count_of(
                    s.take(i as int),
                    id,
                ),
        decreases n - i,
    {
        let c = components[i];
        proof {
            lemma_count_take_step(s, i as int, c);
            lemma_count_le_len(s.take(i as int), c);
            assert forall|id: usize| id != c implies count_of(s.take(i as int + 1), id) == count_of(
                s.take(i as int),
                id,
            ) by {
                lemma_count_take_step(s, i as int, id);
            }
            assert(s.take(i as int + 1).to_set() =~= s.take(i as int).to_set().insert(c)) by {
                assert forall|z: usize| s.take(i as int + 1).to_set().contains(z) implies s.take(
                    i as int,
                ).to_set().insert(c).contains(z) by {
                    let k = choose|k: int| 0 <= k < i + 1 && #[trigger] s.take(i as int + 1)[k] == z;
                    if k < i {
                        assert(s.take(i as int)[k] == z);
                    }
                }
                assert forall|z: usize| s.take(i as int).to_set().insert(c).contains(z) implies s
                    .take(i as int + 1).to_set().contains(z) by {
                    if s.take(i as int).to_set().contains(z) {
                        let k = choose|k: int| 0 <= k < i && #[trigger] s.take(i as int)[k] == z;
                        assert(s.take(i as int + 1)[k] == z);
                    } else {
                        assert(s.take(i as int + 1)[i as int] == c);
                    }
                }
            }
        }
        let ghost m_before = comp_sizes@;
        if comp_sizes.contains_key(&c) {
            let cur = *comp_sizes.get(&c).unwrap();
            proof {
                lemma_count_le_len(s, c);
            }
            comp_sizes.insert(c, cur + 1);
        } else {
            proof {
                assert(!s.take(i as int).to_set().contains(c));
                lemma_count_zero_if_absent(s.take(i as int), c);
            }
            comp_sizes.insert(c, 1);
        }
        proof {
            assert forall|id: usize| s.take(i as int + 1).to_set().contains(id) implies
                #[trigger] comp_sizes@[id] == count_of(s.take(i as int + 1), id) by {
                if id != c {
                    assert(s.take(i as int).to_set().contains(id));
                    assert(comp_sizes@[id] == m_before[id]);
                }
            }
        }
        i = i + 1;
    }
    proof {
        assert(s.take(n as int) =~= s);
        assert(comp_sizes@.dom() =~= s.to_set());
        if n == 0 {
            assert(s.to_set() =~= Set::<usize>::empty());
            assert(s.to_set().len() == 0);
        }
    }

    let num_components = comp_sizes.len();

    let mut largest: usize = 0;
    let mut smallest: usize = 0;
    if n > 0 {
        let c0 = *comp_sizes.get(&components[0]).unwrap();
        proof {
            assert(s.to_set().contains(s[0]));
        }
        largest = c0;
        smallest = c0;
        let mut v: usize = 1;
        while v < n
            invariant
                n == s.len(),
                components@ == s,
                1 <= v <= n,
                comp_sizes@.dom() == s.to_set(),
                forall|id: usize|
                    s.to_set().contains(id) ==> #[trigger] comp_sizes@[id] == count_of(s, id),
                exists|w: int| 0 <= w < v && largest == count_of(s, #[trigger] s[w]),
                forall|w: int| 0 <= w < v ==> count_of(s, #[trigger] s[w]) <= largest,
                exists|w: int| 0 <= w < v && smallest == count_of(s, #[trigger] s[w]),
                forall|w: int| 0 <= w < v ==> count_of(s, #[trigger] s[w]) >= smallest,
            decreases n - v,
        {
            proof {
                assert(s.to_set().contains(s[v as int]));
            }
            let c = *comp_sizes.get(&components[v]).unwrap();
            if c > largest {
                largest = c;
            }
            if c < smallest {
                smallest = c;
            }
            v = v + 1;
        }
    }

    WccStats { num_components, largest_component: largest, smallest_component: smallest, component_sizes: comp_sizes }
}

/// A labelling that sends connected nodes to one label, distinct components to
/// distinct labels, and in-range nodes to in-range labels partitions the nodes
/// exactly by weak connectivity.
proof fn lemma_components_from_labels(g: Graph, lab: spec_fn(int) -> int, comps: Seq<usize>)
    requires
        g.wf(),
        comps.len() == g.num_nodes,
        forall|v: int|
            #![trigger comps[v]]
            0 <= v < g.num_nodes ==> comps[v] as int == lab(v),
        forall|v: int| 0 <= v < g.num_nodes ==> 0 <= #[trigger] lab(v) < g.num_nodes,
        forall|a: int, b: int|
            0 <= a < g.num_nodes && 0 <= b < g.num_nodes && #[trigger] lab(a) == #[trigger] lab(b)
                ==> connected(g, a, b),
        forall|w: int, k: int|
            0 <= w < g.num_nodes && 0 <= k < g.nbrs(w).len() ==> lab(w) == lab(
                #[trigger] g.nbrs(w)[k] as int,
            ),
    ensures
        components_wf(g, comps),
{
    let n = g.num_nodes;
    assert forall|u: int, v: int|
        #![trigger comps[u], comps[v]]
        0 <= u < n && 0 <= v < n implies (comps[u] == comps[v] <==> connected(g, u, v)) by {
        if comps[u] == comps[v] {
            assert(lab(u) == lab(v));
            assert(connected(g, u, v));
        }
        if connected(g, u, v) {
            assert forall|a: int, b: int|
                0 <= a < n && 0 <= b < n && #[trigger] uedge(g, a, b) implies lab(a) == lab(b) by {
                if g.has_edge(a, b) {
                    let k = choose|k: int|
                        0 <= k < g.nbrs(a).len() && #[trigger] g.nbrs(a)[k] as int == b;
                    assert(lab(a) == lab(g.nbrs(a)[k] as int));
                } else {
                    let k = choose|k: int|
                        0 <= k < g.nbrs(b).len() && #[trigger] g.nbrs(b)[k] as int == a;
                    assert(lab(b) == lab(g.nbrs(b)[k] as int));
                }
            }
            let p = choose|p: Seq<int>| is_uwalk(g, p) && p.first() == u && p.last() == v;
            lemma_walk_labels(g, lab, p);
        }
    }
}

/// The indices at which `x` occurs in `s`.
spec fn occurrences(s: Seq<usize>, x: usize) -> Set<int> {
    Set::new(|u: int| 0 <= u < s.len() && s[u] == x)
}

/// The occurrence count of a label is the size of its set of positions.
proof fn lemma_count_is_card(s: Seq<usize>, x: usize)
    ensures
        occurrences(s, x).finite(),
        count_of(s, x) == occurrences(s, x).len(),
    decreases s.len(),
{
    if s.len() == 0 {
        assert(occurrences(s, x) =~= Set::<int>::empty());
    } else {
        let d = s.drop_last();
        lemma_count_is_card(d, x);
        if s.last() == x {
            assert(occurrences(s, x) =~= occurrences(d, x).insert(s.len() - 1));
            assert(!occurrences(d, x).contains(s.len() - 1));
        } else {
            assert(occurrences(s, x) =~= occurrences(d, x));
        }
    }
}

/// Law: any two component labelings of the same graph describe the same
/// partition. Every node's component has the same size under both labelings
/// (so the multiset of component sizes agrees), and the number of distinct
/// labels agrees, for any order in which the edges were united.
pub proof fn lemma_wcc_agreement(g: Graph, c1: Seq<usize>, c2: Seq<usize>)
    requires
        g.wf(),
        components_wf(g, c1),
        components_wf(g, c2),
    ensures
        c1.len() == c2.len(),
        forall|v: int|
            0 <= v < g.num_nodes ==> count_of(c1, #[trigger] c1[v]) == count_of(c2, c2[v]),
        c1.to_set().len() == c2.to_set().len(),
{
    let n = g.num_nodes;
    assert forall|v: int| 0 <= v < n implies count_of(c1, #[trigger] c1[v]) == count_of(
        c2,
        c2[v],
    ) by {
        lemma_count_is_card(c1, c1[v]);
        lemma_count_is_card(c2, c2[v]);
        assert(occurrences(c1, c1[v]) =~= occurrences(c2, c2[v]));
    }

    // Map each label of `c1` to the label `c2` gives the same component.
    let f = |l: usize| c2[choose|v: int| 0 <= v < c1.len() && c1[v] == l];
    vstd::seq_lib::seq_to_set_is_finite(c1);
    assert forall|l1: usize, l2: usize|
        c1.to_set().contains(l1) && c1.to_set().contains(l2) && #[trigger] f(l1) == #[trigger] f(
            l2,
        ) implies l1 == l2 by {
        let v1 = choose|v: int| 0 <= v < c1.len() && c1[v] == l1;
        let v2 = choose|v: int| 0 <= v < c1.len() && c1[v] == l2;
        assert(c2[v1] == c2[v2]);
        assert(connected(g, v1, v2));
        assert(c1[v1] == c1[v2]);
    }
    assert(c1.to_set().map(f) =~= c2.to_set()) by {
        assert forall|m: usize| c1.to_set().map(f).contains(m) implies c2.to_set().contains(
            m,
        ) by {
            let l = choose|l: usize| c1.to_set().contains(l) && #[trigger] f(l) == m;
            let v = choose|v: int| 0 <= v < c1.len() && c1[v] == l;
            assert(c2[v] == m);
        }
        assert forall|m: usize| c2.to_set().contains(m) implies c1.to_set().map(f).contains(
            m,
        ) by {
            let v = choose|v: int| 0 <= v < c2.len() && c2[v] == m;
            assert(c1.to_set().contains(c1[v]));
            let w = choose|w: int| 0 <= w < c1.len() && c1[w] == c1[v];
            assert(connected(g, w, v));
            assert(c2[w] == c2[v]);
            assert(f(c1[v]) == m);
        }
    }
    vstd::set_lib::lemma_map_size(c1.to_set(), c2.to_set(), f);
}

} // verus!
