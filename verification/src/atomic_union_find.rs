//! Disjoint-set structure for the parallel components pass, with path-halving
//! lookups and a fixed merge direction: the smaller root is always linked
//! below the larger one. That deterministic total order on merge direction is
//! what keeps concurrent unions convergent and acyclic; it also means every
//! parent pointer only ever grows, which is the shape verified here.

use vstd::prelude::*;

verus! {

/// Representative of `x`: the end of the parent chain starting at `x`.
/// Parent pointers strictly grow along a chain, which bounds it.
pub open spec fn mono_root(p: Seq<usize>, x: int) -> int
    decreases (if 0 <= x < p.len() { p.len() - x } else { 0int }),
{
    if 0 <= x < p.len() && x < p[x] as int && (p[x] as int) < p.len() {
        mono_root(p, p[x] as int)
    } else {
        x
    }
}

/// Every parent pointer stays in range and never points below its node.
pub open spec fn mono_wf(p: Seq<usize>) -> bool {
    forall|x: int| #![trigger p[x]] 0 <= x < p.len() ==> x <= p[x] as int && (p[x] as int) < p.len()
}

pub proof fn lemma_mono_root_props(p: Seq<usize>, x: int)
    requires
        mono_wf(p),
        0 <= x < p.len(),
    ensures
        x <= mono_root(p, x) < p.len(),
        p[mono_root(p, x)] as int == mono_root(p, x),
        p[x] as int != x ==> mono_root(p, x) == mono_root(p, p[x] as int),
    decreases p.len() - x,
{
    if p[x] as int != x {
        lemma_mono_root_props(p, p[x] as int);
    }
}

/// Repointing `x` at a node of its own chain with the same representative
/// moves no representative.
proof fn lemma_mono_repoint_one(p: Seq<usize>, x: int, g: int, y: int)
    requires
        mono_wf(p),
        0 <= x < p.len(),
        x < g < p.len(),
        mono_root(p, g) == mono_root(p, x),
        0 <= y < p.len(),
    ensures
        mono_root(p.update(x, g as usize), y) == mono_root(p, y),
    decreases p.len() - y,
{
    let p2 = p.update(x, g as usize);
    if y == x {
        lemma_mono_repoint_one(p, x, g, g);
    } else {
        if (p[y] as int) > y {
            lemma_mono_repoint_one(p, x, g, p[y] as int);
        }
    }
}

/// Linking root `small` below root `large` sends exactly `small`'s class to
/// `large` and moves no other representative.
proof fn lemma_mono_link_one(p: Seq<usize>, small: int, large: int, y: int)
    requires
        mono_wf(p),
        p[small] as int == small,
        p[large] as int == large,
        0 <= small < large < p.len(),
        0 <= y < p.len(),
    ensures
        mono_root(p.update(small, large as usize), y) == (if mono_root(p, y) == small {
            large
        } else {
            mono_root(p, y)
        }),
    decreases p.len() - y,
{
    let p2 = p.update(small, large as usize);
    if y == small {
        assert(mono_root(p2, large) == large);
    } else if (p[y] as int) > y {
        lemma_mono_link_one(p, small, large, p[y] as int);
    }
}

/// Thread-safe union-find for the parallel components pass. Lookups use
/// path halving; unions always link the numerically smaller root below the
/// larger one.
pub struct AtomicUnionFind {
    parent: Vec<usize>,
}

impl AtomicUnionFind {
    /// Number of elements.
    pub closed spec fn spec_len(self) -> nat {
        self.parent@.len()
    }

    pub closed spec fn wf(self) -> bool {
        mono_wf(self.parent@)
    }

    /// Representative of element `x`.
    pub closed spec fn root_spec(self, x: int) -> int {
        mono_root(self.parent@, x)
    }

    /// `x` and `y` belong to the same set.
    pub open spec fn same_set(self, x: int, y: int) -> bool {
        self.root_spec(x) == self.root_spec(y)
    }

    /// A representative is an in-range element and its own representative.
    pub proof fn lemma_root_props(self, x: int)
        requires
            self.wf(),
            0 <= x < self.spec_len(),
        ensures
            0 <= self.root_spec(x) < self.spec_len(),
            self.root_spec(self.root_spec(x)) == self.root_spec(x),
    {
        lemma_mono_root_props(self.parent@, x);
        let r = mono_root(self.parent@, x);
        assert(mono_root(self.parent@, r) == r);
    }

    pub fn new(n: usize) -> (uf: AtomicUnionFind)
        ensures
            uf.wf(),
            uf.spec_len() == n,
            forall|x: int| 0 <= x < n ==> uf.root_spec(x) == x,
    {
        let mut parent: Vec<usize> = Vec::new();
        let mut i: usize = 0;
        while i < n
            invariant
                i <= n,
                parent@.len() == i,
                forall|x: int| 0 <= x < i ==> parent@[x] == x,
            decreases n - i,
        {
            parent.push(i);
            i = i + 1;
        }
        AtomicUnionFind { parent }
    }

    /// Find with path halving: each visited node is repointed at its
    /// grandparent, then the walk moves one step up.
    pub fn find(&mut self, x: usize) -> (r: usize)
        requires
            old(self).wf(),
            x < old(self).spec_len(),
        ensures
            final(self).wf(),
            final(self).spec_len() == old(self).spec_len(),
            r as int == old(self).root_spec(x as int),
            forall|y: int|
                0 <= y < old(self).spec_len() ==> final(self).root_spec(y) == old(self).root_spec(
                    y,
                ),
    {
        let ghost uf0 = *self;
        let n = self.parent.len();
        let mut cur = x;
        loop
            invariant
                uf0 == *old(self),
                self.wf(),
                self.spec_len() == n,
                uf0.spec_len() == n,
                cur < n,
                self.root_spec(cur as int) == uf0.root_spec(x as int),
                forall|y: int| 0 <= y < n ==> self.root_spec(y) == uf0.root_spec(y),
            decreases n - cur,
        {
            proof {
                lemma_mono_root_props(self.parent@, cur as int);
            }
            let parent = self.parent[cur];
            if parent == cur {
                return cur;
            }
            proof {
                lemma_mono_root_props(self.parent@, parent as int);
            }
            let grand = self.parent[parent];
            if grand == parent {
                return parent;
            }
            proof {
                let p = self.parent@;
                assert(mono_root(p, grand as int) == mono_root(p, cur as int));
                assert forall|y: int| 0 <= y < n implies mono_root(
                    p.update(cur as int, grand),
                    y,
                ) == mono_root(p, y) by {
                    lemma_mono_repoint_one(p, cur as int, grand as int, y);
                }
            }
            self.parent.set(cur, grand);
            cur = parent;
        }
    }

    /// Thread-safe union: always links the smaller root below the larger one.
    pub fn union(&mut self, x: usize, y: usize)
        requires
            old(self).wf(),
            x < old(self).spec_len(),
            y < old(self).spec_len(),
        ensures
            final(self).wf(),
            final(self).spec_len() == old(self).spec_len(),
            final(self).same_set(x as int, y as int),
            final(self).root_spec(x as int) == (if old(self).root_spec(x as int) < old(
                self,
            ).root_spec(y as int) {
                old(self).root_spec(y as int)
            } else {
                old(self).root_spec(x as int)
            }),
            forall|a: int, b: int|
                0 <= a < old(self).spec_len() && 0 <= b < old(self).spec_len() ==> (
                #[trigger] final(self).same_set(a, b) <==> (old(self).same_set(a, b) || (old(
                    self,
                ).same_set(a, x as int) && old(self).same_set(b, y as int)) || (old(self).same_set(
                    a,
                    y as int,
                ) && old(self).same_set(b, x as int)))),
    {
        let ghost uf0 = *self;
        let root_x = self.find(x);
        let root_y = self.find(y);

        if root_x == root_y {
            return;
        }

        let ghost p = self.parent@;
        let ghost uf1 = *self;
        proof {
            self.lemma_root_props(x as int);
            self.lemma_root_props(y as int);
            assert(self.root_spec(root_x as int) == root_x as int);
            assert(self.root_spec(root_y as int) == root_y as int);
            lemma_mono_root_props(p, root_x as int);
            lemma_mono_root_props(p, root_y as int);
        }

        let (small, large) = if root_x < root_y {
            (root_x, root_y)
        } else {
            (root_y, root_x)
        };

        proof {
            assert forall|z: int| 0 <= z < p.len() implies mono_root(
                p.update(small as int, large),
                z,
            ) == (if mono_root(p, z) == small as int {
                large as int
            } else {
                mono_root(p, z)
            }) by {
                lemma_mono_link_one(p, small as int, large as int, z);
            }
        }
        self.parent.set(small, large);
        proof {
            assert forall|a: int, b: int|
                0 <= a < uf0.spec_len() && 0 <= b < uf0.spec_len() implies (
            #[trigger] self.same_set(a, b) <==> (uf0.same_set(a, b) || (uf0.same_set(a, x as int)
                && uf0.same_set(b, y as int)) || (uf0.same_set(a, y as int) && uf0.same_set(
                b,
                x as int,
            )))) by {
                uf0.lemma_root_props(a);
                uf0.lemma_root_props(b);
                assert(uf1.root_spec(a) == uf0.root_spec(a));
                assert(uf1.root_spec(b) == uf0.root_spec(b));
            }
        }
    }

    /// Returns the final component id (root) for each element.
    pub fn get_components(&mut self) -> (comps: Vec<usize>)
        requires
            old(self).wf(),
        ensures
            final(self).wf(),
            final(self).spec_len() == old(self).spec_len(),
            comps@.len() == old(self).spec_len(),
            forall|y: int|
                0 <= y < old(self).spec_len() ==> #[trigger] comps@[y] as int == old(
                    self,
                ).root_spec(y),
            forall|y: int|
                0 <= y < old(self).spec_len() ==> final(self).root_spec(y) == old(self).root_spec(
                    y,
                ),
    {
        let ghost uf0 = *self;
        let n = self.parent.len();
        let mut comps: Vec<usize> = Vec::new();
        let mut i: usize = 0;
        while i < n
            invariant
                self.wf(),
                self.spec_len() == n,
                uf0.spec_len() == n,
                i <= n,
                comps@.len() == i,
                forall|y: int| 0 <= y < n ==> self.root_spec(y) == uf0.root_spec(y),
                forall|y: int| 0 <= y < i ==> #[trigger] comps@[y] as int == uf0.root_spec(y),
            decreases n - i,
        {
            let r = self.find(i);
            comps.push(r);
            i = i + 1;
        }
        comps
    }
}

} // verus!
