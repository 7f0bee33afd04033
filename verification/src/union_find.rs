//! Disjoint-set structure (union-find) with recursive path compression and
//! union by rank.

use vstd::prelude::*;

verus! {

broadcast use vstd::std_specs::hash::group_hash_axioms;

/// Representative of `x`: the end of the parent chain starting at `x`.
///
/// Termination comes from the rank strictly increasing along parent edges, so
/// the chain is followed only while that holds; under `parents_wf` the chain
/// always ends at a self-parented root.
pub open spec fn chain_root(p: Seq<usize>, rk: Seq<usize>, x: int) -> int
    decreases (if 0 <= x < rk.len() { usize::MAX - rk[x] } else { 0int }),
{
    if 0 <= x < p.len() && p.len() == rk.len() && p[x] as int != x && (p[x] as int) < p.len()
        && rk[x] < rk[p[x] as int] {
        chain_root(p, rk, p[x] as int)
    } else {
        x
    }
}

pub open spec fn is_root(p: Seq<usize>, x: int) -> bool {
    0 <= x < p.len() && p[x] as int == x
}

/// The set of self-parented nodes; one per disjoint set.
pub open spec fn self_roots(p: Seq<usize>) -> Set<usize> {
    Set::new(|z: usize| (z as int) < p.len() && is_root(p, z as int))
}

/// Well-formed parent and rank sequences: parents stay in range, rank strictly
/// increases along parent edges (which makes the forest acyclic), and the rank
/// of every root leaves room for one increment per remaining merge.
pub open spec fn parents_wf(p: Seq<usize>, rk: Seq<usize>) -> bool {
    &&& p.len() == rk.len()
    &&& forall|x: int| #![trigger p[x]] 0 <= x < p.len() ==> (p[x] as int) < p.len()
    &&& forall|x: int|
        #![trigger p[x]]
        0 <= x < p.len() && p[x] as int != x ==> rk[x] < rk[p[x] as int]
    &&& self_roots(p).finite()
    &&& forall|x: int| #[trigger] is_root(p, x) ==> rk[x] + self_roots(p).len() <= p.len()
}

/// Basic facts about the representative of an in-range node.
pub proof fn lemma_chain_root_props(p: Seq<usize>, rk: Seq<usize>, x: int)
    requires
        parents_wf(p, rk),
        0 <= x < p.len(),
    ensures
        0 <= chain_root(p, rk, x) < p.len(),
        is_root(p, chain_root(p, rk, x)),
        rk[x] <= rk[chain_root(p, rk, x)],
        p[x] as int != x ==> chain_root(p, rk, x) == chain_root(p, rk, p[x] as int) && rk[x]
            < rk[chain_root(p, rk, x)],
    decreases usize::MAX - rk[x],
{
    if p[x] as int != x {
        lemma_chain_root_props(p, rk, p[x] as int);
    }
}

/// Repointing `x` at its own representative changes no representative.
proof fn lemma_compress_one(p: Seq<usize>, rk: Seq<usize>, x: int, r: int, y: int)
    requires
        parents_wf(p, rk),
        0 <= x < p.len(),
        r == chain_root(p, rk, x),
        p[x] as int != x,
        0 <= y < p.len(),
    ensures
        chain_root(p.update(x, r as usize), rk, y) == chain_root(p, rk, y),
    decreases usize::MAX - rk[y],
{
    let p2 = p.update(x, r as usize);
    lemma_chain_root_props(p, rk, x);
    if y == x {
        lemma_chain_root_props(p, rk, r);
        assert(p2[r] as int == r);
        assert(chain_root(p2, rk, r) == r);
    } else {
        if p[y] as int != y {
            lemma_chain_root_props(p, rk, y);
            lemma_compress_one(p, rk, x, r, p[y] as int);
        }
    }
}

/// Path compression: repointing `x` at its representative keeps the structure
/// well-formed and preserves every representative.
proof fn lemma_compress(p: Seq<usize>, rk: Seq<usize>, x: int, r: int)
    requires
        parents_wf(p, rk),
        0 <= x < p.len(),
        r == chain_root(p, rk, x),
    ensures
        parents_wf(p.update(x, r as usize), rk),
        forall|y: int|
            0 <= y < p.len() ==> chain_root(p.update(x, r as usize), rk, y) == chain_root(
                p,
                rk,
                y,
            ),
        self_roots(p.update(x, r as usize)) == self_roots(p),
{
    lemma_chain_root_props(p, rk, x);
    let p2 = p.update(x, r as usize);
    if p[x] as int == x {
        assert(p2 =~= p);
        assert(self_roots(p2) =~= self_roots(p));
    } else {
        assert(self_roots(p2) =~= self_roots(p));
        assert forall|y: int| 0 <= y < p.len() implies chain_root(p2, rk, y) == chain_root(
            p,
            rk,
            y,
        ) by {
            lemma_compress_one(p, rk, x, r, y);
        }
        assert forall|z: int| #[trigger] is_root(p2, z) implies rk[z] + self_roots(p2).len()
            <= p2.len() by {
            assert(z != x);
            assert(is_root(p, z));
            assert(rk[z] + self_roots(p).len() <= p.len());
        }
    }
}

/// Linking root `a` below root `b` sends exactly `a`'s class to `b`.
proof fn lemma_link_one(p: Seq<usize>, rk: Seq<usize>, a: int, b: int, y: int)
    requires
        p.len() == rk.len(),
        forall|x: int| #![trigger p[x]] 0 <= x < p.len() ==> (p[x] as int) < p.len(),
        forall|x: int|
            #![trigger p[x]]
            0 <= x < p.len() && p[x] as int != x ==> rk[x] < rk[p[x] as int],
        is_root(p, a),
        is_root(p, b),
        a != b,
        rk[a] < rk[b],
        0 <= y < p.len(),
    ensures
        chain_root(p.update(a, b as usize), rk, y) == (if chain_root(p, rk, y) == a {
            b
        } else {
            chain_root(p, rk, y)
        }),
    decreases usize::MAX - rk[y],
{
    let p2 = p.update(a, b as usize);
    if y == a {
        assert(p2[b] as int == b);
        assert(chain_root(p2, rk, b) == b);
        assert(chain_root(p, rk, a) == a);
    } else if p[y] as int == y {
        assert(chain_root(p2, rk, y) == y);
        assert(chain_root(p, rk, y) == y);
    } else {
        lemma_link_one(p, rk, a, b, p[y] as int);
    }
}

/// Raising the rank of a root neither breaks the rank guard nor moves any
/// representative.
proof fn lemma_bump_one(p: Seq<usize>, rk: Seq<usize>, a: int, y: int)
    requires
        p.len() == rk.len(),
        forall|x: int| #![trigger p[x]] 0 <= x < p.len() ==> (p[x] as int) < p.len(),
        forall|x: int|
            #![trigger p[x]]
            0 <= x < p.len() && p[x] as int != x ==> rk[x] < rk[p[x] as int],
        is_root(p, a),
        rk[a] < usize::MAX,
        0 <= y < p.len(),
    ensures
        chain_root(p, rk.update(a, (rk[a] + 1) as usize), y) == chain_root(p, rk, y),
    decreases usize::MAX - rk[y],
{
    if p[y] as int != y {
        lemma_bump_one(p, rk, a, p[y] as int);
    }
}

/// Two distinct roots witness at least two disjoint sets.
proof fn lemma_two_roots(p: Seq<usize>, a: int, b: int)
    requires
        self_roots(p).finite(),
        is_root(p, a),
        is_root(p, b),
        a != b,
    ensures
        self_roots(p).len() >= 2,
{
    let s = self_roots(p);
    assert(s.contains(a as usize));
    assert(s.contains(b as usize));
    let rest = s.remove(b as usize);
    assert(rest.contains(a as usize));
    assert(rest.remove(a as usize).insert(a as usize) =~= rest);
    assert(s.remove(b as usize).insert(b as usize) =~= s);
}

/// Linking root `a` below root `b`: what the update does to every
/// representative and to the set of roots. Stated over the pieces of
/// `parents_wf` that survive while a rank bump is in flight.
proof fn lemma_link(p: Seq<usize>, rk: Seq<usize>, a: int, b: int)
    requires
        p.len() == rk.len(),
        forall|x: int| #![trigger p[x]] 0 <= x < p.len() ==> (p[x] as int) < p.len(),
        forall|x: int|
            #![trigger p[x]]
            0 <= x < p.len() && p[x] as int != x ==> rk[x] < rk[p[x] as int],
        self_roots(p).finite(),
        is_root(p, a),
        is_root(p, b),
        a != b,
        rk[a] < rk[b],
    ensures
        forall|x: int|
            #![trigger p.update(a, b as usize)[x]]
            0 <= x < p.len() ==> (p.update(a, b as usize)[x] as int) < p.len(),
        forall|x: int|
            #![trigger p.update(a, b as usize)[x]]
            0 <= x < p.len() && p.update(a, b as usize)[x] as int != x ==> rk[x] < rk[p.update(
                a,
                b as usize,
            )[x] as int],
        forall|y: int|
            0 <= y < p.len() ==> chain_root(p.update(a, b as usize), rk, y) == (if chain_root(
                p,
                rk,
                y,
            ) == a {
                b
            } else {
                chain_root(p, rk, y)
            }),
        self_roots(p.update(a, b as usize)) == self_roots(p).remove(a as usize),
        self_roots(p.update(a, b as usize)).finite(),
        self_roots(p.update(a, b as usize)).len() + 1 == self_roots(p).len(),
{
    let p2 = p.update(a, b as usize);
    assert(self_roots(p2) =~= self_roots(p).remove(a as usize));
    assert(self_roots(p).contains(a as usize));
    assert(self_roots(p).remove(a as usize).insert(a as usize) =~= self_roots(p));
    assert forall|y: int| 0 <= y < p.len() implies chain_root(p2, rk, y) == (if chain_root(
        p,
        rk,
        y,
    ) == a {
        b
    } else {
        chain_root(p, rk, y)
    }) by {
        lemma_link_one(p, rk, a, b, y);
    }
}

/// Union-Find (Disjoint Set Union) with path compression and union by rank.
pub struct UnionFind {
    parent: Vec<usize>,
    rank: Vec<usize>,
}

impl UnionFind {
    /// Number of elements.
    pub closed spec fn spec_len(self) -> nat {
        self.parent@.len()
    }

    pub closed spec fn wf(self) -> bool {
        parents_wf(self.parent@, self.rank@)
    }

    /// Representative of element `x`.
    pub closed spec fn root_spec(self, x: int) -> int {
        chain_root(self.parent@, self.rank@, x)
    }

    /// `x` and `y` belong to the same set.
    pub open spec fn same_set(self, x: int, y: int) -> bool {
        self.root_spec(x) == self.root_spec(y)
    }

    /// Number of disjoint sets.
    pub closed spec fn num_sets(self) -> nat {
        self_roots(self.parent@).len()
    }

    /// The stored ranks, used only as a termination measure.
    pub closed spec fn ranks(self) -> Seq<usize> {
        self.rank@
    }

    /// A representative is an in-range element and its own representative.
    pub proof fn lemma_root_props(self, x: int)
        requires
            self.wf(),
            0 <= x < self.spec_len(),
        ensures
            0 <= self.root_spec(x) < self.spec_len(),
            self.root_spec(self.root_spec(x)) == self.root_spec(x),
    {
        lemma_chain_root_props(self.parent@, self.rank@, x);
        let r = chain_root(self.parent@, self.rank@, x);
        assert(chain_root(self.parent@, self.rank@, r) == r);
    }

    /// Creates a new Union-Find for `n` elements (each in its own set).
    pub fn new(n: usize) -> (uf: UnionFind)
        ensures
            uf.wf(),
            uf.spec_len() == n,
            forall|x: int| 0 <= x < n ==> uf.root_spec(x) == x,
            uf.num_sets() == n,
    {
        let mut parent: Vec<usize> = Vec::new();
        let mut i: usize = 0;
        while i < n
            invariant
                i <= n,
                parent@.len() == i,
                forall|x: int| 0 <= x < i ==> parent@[x] == x,
            decreases n - i,
        {
            parent.push(i);
            i = i + 1;
        }
        let rank = vec![0usize; n];
        let uf = UnionFind { parent, rank };
        proof {
            let p = uf.parent@;
            let ids = Seq::new(n as nat, |i: int| i as usize);
            assert forall|z: usize| self_roots(p).contains(z) implies ids.to_set().contains(
                z,
            ) by {
                assert(ids[z as int] == z);
            }
            assert(self_roots(p) =~= ids.to_set());
            vstd::seq_lib::seq_to_set_is_finite(ids);
            assert(ids.no_duplicates());
            ids.unique_seq_to_set();
            assert(forall|x: int| 0 <= x < n ==> uf.root_spec(x) == x);
        }
        uf
    }

    /// Returns the representative (root) of the set containing `x`, collapsing
    /// the path from `x` onto the root.
    #[verifier::rlimit(60)]
    pub fn find(&mut self, x: usize) -> (r: usize)
        requires
            old(self).wf(),
            x < old(self).spec_len(),
        ensures
            final(self).wf(),
            final(self).spec_len() == old(self).spec_len(),
            r as int == old(self).root_spec(x as int),
            forall|y: int|
                0 <= y < old(self).spec_len() ==> final(self).root_spec(y) == old(self).root_spec(
                    y,
                ),
            final(self).num_sets() == old(self).num_sets(),
            final(self).ranks() == old(self).ranks(),
        decreases usize::MAX - old(self).ranks()[x as int],
    {
        let ghost uf0 = *self;
        proof {
            lemma_chain_root_props(uf0.parent@, uf0.rank@, x as int);
        }
        let px = self.parent[x];
        if px != x {
            let r = self.find(px);
            proof {
                assert(self.root_spec(x as int) == uf0.root_spec(x as int));
                assert(r as int == chain_root(self.parent@, self.rank@, x as int));
                lemma_compress(self.parent@, self.rank@, x as int, r as int);
            }
            let ghost uf_mid = *self;
            self.parent.set(x, r);
            proof {
                assert forall|y: int| 0 <= y < uf0.spec_len() implies self.root_spec(y)
                    == uf0.root_spec(y) by {
                    assert(self.root_spec(y) == uf_mid.root_spec(y));
                }
            }
            r
        } else {
            x
        }
    }

    /// Unites the sets containing `x` and `y`. Returns `true` if they were in
    /// different sets.
    #[verifier::rlimit(60)]
    pub fn union(&mut self, x: usize, y: usize) -> (merged: bool)
        requires
            old(self).wf(),
            x < old(self).spec_len(),
            y < old(self).spec_len(),
        ensures
            final(self).wf(),
            final(self).spec_len() == old(self).spec_len(),
            merged == !old(self).same_set(x as int, y as int),
            final(self).same_set(x as int, y as int),
            forall|a: int, b: int|
                0 <= a < old(self).spec_len() && 0 <= b < old(self).spec_len() ==> (
                #[trigger] final(self).same_set(a, b) <==> (old(self).same_set(a, b) || (old(
                    self,
                ).same_set(a, x as int) && old(self).same_set(b, y as int)) || (old(self).same_set(
                    a,
                    y as int,
                ) && old(self).same_set(b, x as int)))),
    {
        let ghost uf0 = *self;
        let root_x = self.find(x);
        let root_y = self.find(y);

        if root_x == root_y {
            return false;
        }

        let ghost p = self.parent@;
        let ghost rk = self.rank@;
        let ghost uf1 = *self;
        proof {
            // The two representatives are self-parented in the current state.
            self.lemma_root_props(x as int);
            self.lemma_root_props(y as int);
            assert(self.root_spec(x as int) == root_x as int);
            assert(self.root_spec(root_x as int) == root_x as int);
            lemma_chain_root_props(p, rk, root_x as int);
            assert(is_root(p, root_x as int));
            assert(self.root_spec(y as int) == root_y as int);
            assert(self.root_spec(root_y as int) == root_y as int);
            lemma_chain_root_props(p, rk, root_y as int);
            assert(is_root(p, root_y as int));
        }

        let rank_x = self.rank[root_x];
        let rank_y = self.rank[root_y];
        let n_elems = self.parent.len();
        proof {
            assert(p.len() == n_elems as nat);
        }

        if rank_x < rank_y {
            proof {
                lemma_link(p, rk, root_x as int, root_y as int);
                let p2 = p.update(root_x as int, root_y as usize);
                assert forall|r: int| #[trigger] is_root(p2, r) implies rk[r]
                    + self_roots(p2).len() <= p2.len() by {
                    assert(is_root(p, r));
                }
            }
            self.parent.set(root_x, root_y);
        } else if rank_x > rank_y {
            proof {
                lemma_link(p, rk, root_y as int, root_x as int);
                let p2 = p.update(root_y as int, root_x as usize);
                assert forall|r: int| #[trigger] is_root(p2, r) implies rk[r]
                    + self_roots(p2).len() <= p2.len() by {
                    assert(is_root(p, r));
                }
            }
            self.parent.set(root_y, root_x);
        } else {
            let ghost rk2 = rk.update(root_x as int, (rank_x + 1) as usize);
            proof {
                // One merge is still owed, so the winning rank has room to grow.
                lemma_two_roots(p, root_x as int, root_y as int);
                assert(rk[root_x as int] + self_roots(p).len() <= p.len());
                assert(rank_x + 1 <= n_elems);
                assert(rk2[root_x as int] == rank_x + 1);
                // The bump keeps the rank guard and moves no representative.
                assert forall|xx: int|
                    #![trigger p[xx]]
                    0 <= xx < p.len() && p[xx] as int != xx implies rk2[xx] < rk2[p[xx] as int] by {
                    assert(rk[xx] < rk[p[xx] as int]);
                }
                assert forall|yy: int| 0 <= yy < p.len() implies chain_root(p, rk2, yy)
                    == chain_root(p, rk, yy) by {
                    lemma_bump_one(p, rk, root_x as int, yy);
                }
                lemma_link(p, rk2, root_y as int, root_x as int);
                let p2 = p.update(root_y as int, root_x as usize);
                assert forall|r: int| #[trigger] is_root(p2, r) implies rk2[r]
                    + self_roots(p2).len() <= p2.len() by {
                    assert(is_root(p, r));
                    assert(rk[r] + self_roots(p).len() <= p.len());
                }
            }
            self.rank.set(root_x, rank_x + 1);
            self.parent.set(root_y, root_x);
        }
        proof {
            assert forall|z: int| 0 <= z < uf0.spec_len() implies uf1.root_spec(z)
                == uf0.root_spec(z) by {}
            assert forall|a: int, b: int|
                0 <= a < uf0.spec_len() && 0 <= b < uf0.spec_len() implies (
            #[trigger] self.same_set(a, b) <==> (uf0.same_set(a, b) || (uf0.same_set(a, x as int)
                && uf0.same_set(b, y as int)) || (uf0.same_set(a, y as int) && uf0.same_set(
                b,
                x as int,
            )))) by {
                uf0.lemma_root_props(a);
                uf0.lemma_root_props(b);
                assert(uf1.root_spec(a) == uf0.root_spec(a));
                assert(uf1.root_spec(b) == uf0.root_spec(b));
            }
        }
        true
    }


    /// Returns the number of distinct components (sets).
    pub fn count_components(&mut self) -> (count: usize)
        requires
            old(self).wf(),
        ensures
            final(self).wf(),
            final(self).spec_len() == old(self).spec_len(),
            count == old(self).num_sets(),
            forall|y: int|
                0 <= y < old(self).spec_len() ==> final(self).root_spec(y) == old(self).root_spec(
                    y,
                ),
    {
        let ghost uf0 = *self;
        let n = self.parent.len();
        let mut roots: std::collections::HashSet<usize> = std::collections::HashSet::new();
        let mut i: usize = 0;
        while i < n
            invariant
                self.wf(),
                self.spec_len() == n,
                uf0.wf(),
                uf0.spec_len() == n,
                i <= n,
                forall|y: int| 0 <= y < n ==> self.root_spec(y) == uf0.root_spec(y),
                self.num_sets() == uf0.num_sets(),
                roots@ == Set::new(
                    |z: usize| exists|j: int| 0 <= j < i && uf0.root_spec(j) == z as int,
                ),
            decreases n - i,
        {
            let ghost before = roots@;
            let r = self.find(i);
            roots.insert(r);
            proof {
                let after = Set::new(
                    |z: usize| exists|j: int| 0 <= j < i + 1 && uf0.root_spec(j) == z as int,
                );
                assert forall|z: usize| roots@.contains(z) implies after.contains(z) by {
                    if before.contains(z) {
                        let j = choose|j: int| 0 <= j < i && uf0.root_spec(j) == z as int;
                        assert(0 <= j < i + 1 && uf0.root_spec(j) == z as int);
                    } else {
                        assert(z == r);
                        assert(uf0.root_spec(i as int) == z as int);
                    }
                }
                assert forall|z: usize| after.contains(z) implies roots@.contains(z) by {
                    let j = choose|j: int| 0 <= j < i + 1 && uf0.root_spec(j) == z as int;
                    if j < i {
                        assert(before.contains(z));
                    } else {
                        assert(z == r);
                    }
                }
                assert(roots@ =~= after);
            }
            i = i + 1;
        }
        proof {
            uf0.lemma_roots_set_is_self_roots(roots@);
        }
        roots.len()
    }

    /// The set of representatives reached from the elements is exactly the set
    /// of self-parented roots.
    proof fn lemma_roots_set_is_self_roots(self, s: Set<usize>)
        requires
            self.wf(),
            s == Set::new(
                |z: usize| exists|j: int| 0 <= j < self.spec_len() && self.root_spec(j) == z as int,
            ),
        ensures
            s == self_roots(self.parent@),
    {
        assert forall|z: usize| s.contains(z) implies self_roots(self.parent@).contains(z) by {
            let j = choose|j: int| 0 <= j < self.spec_len() && self.root_spec(j) == z as int;
            lemma_chain_root_props(self.parent@, self.rank@, j);
        }
        assert forall|z: usize| self_roots(self.parent@).contains(z) implies s.contains(z) by {
            assert(chain_root(self.parent@, self.rank@, z as int) == z as int);
            assert((z as int) < self.spec_len() && self.root_spec(z as int) == z as int);
        }
        assert(s =~= self_roots(self.parent@));
    }

    /// Returns the component id (root) for each element.
    pub fn get_components(&mut self) -> (comps: Vec<usize>)
        requires
            old(self).wf(),
        ensures
            final(self).wf(),
            final(self).spec_len() == old(self).spec_len(),
            comps@.len() == old(self).spec_len(),
            forall|y: int|
                0 <= y < old(self).spec_len() ==> #[trigger] comps@[y] as int == old(
                    self,
                ).root_spec(y),
            forall|y: int|
                0 <= y < old(self).spec_len() ==> final(self).root_spec(y) == old(self).root_spec(
                    y,
                ),
    {
        let ghost uf0 = *self;
        let n = self.parent.len();
        let mut comps: Vec<usize> = Vec::new();
        let mut i: usize = 0;
        while i < n
            invariant
                self.wf(),
                self.spec_len() == n,
                uf0.wf(),
                uf0.spec_len() == n,
                i <= n,
                comps@.len() == i,
                forall|y: int| 0 <= y < n ==> self.root_spec(y) == uf0.root_spec(y),
                forall|y: int| 0 <= y < i ==> #[trigger] comps@[y] as int == uf0.root_spec(y),
            decreases n - i,
        {
            let r = self.find(i);
            comps.push(r);
            i = i + 1;
        }
        comps
    }
}

} // verus!
