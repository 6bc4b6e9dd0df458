//! Union-find over dense indices, with an explicit parent array.
//!
//! Every parent link points downward, so walking to the root terminates and
//! the partition can be read off as a mathematical function of the array.

use vstd::prelude::*;

verus! {

/// Every parent link points at an index no larger than its own.
pub open spec fn dsu_wf(p: Seq<usize>) -> bool {
    forall|i: int| 0 <= i < p.len() ==> (#[trigger] p[i]) as int <= i
}

/// The representative index reached by following parent links from `x`.
pub open spec fn root_of(p: Seq<usize>, x: int) -> int
    decreases x,
        when dsu_wf(p) && 0 <= x < p.len()
{
    if p[x] as int == x {
        x
    } else {
        root_of(p, p[x] as int)
    }
}

/// `a` and `b` lie in the same class of the partition.
pub open spec fn same_root(p: Seq<usize>, a: int, b: int) -> bool {
    root_of(p, a) == root_of(p, b)
}

pub proof fn lemma_root_props(p: Seq<usize>, x: int)
    requires
        dsu_wf(p),
        0 <= x < p.len(),
    ensures
        0 <= root_of(p, x) <= x,
        p[root_of(p, x)] as int == root_of(p, x),
    decreases x,
{
    if p[x] as int != x {
        lemma_root_props(p, p[x] as int);
    }
}

/// After re-rooting `r2` under `r1`, exactly the class of `r2` is relabeled.
proof fn lemma_reroot(p: Seq<usize>, r1: int, r2: int, a: int)
    requires
        dsu_wf(p),
        0 <= r1 < p.len(),
        0 <= r2 < p.len(),
        p[r1] as int == r1,
        p[r2] as int == r2,
        r1 < r2,
        0 <= a < p.len(),
    ensures
        dsu_wf(p.update(r2, r1 as usize)),
        root_of(p.update(r2, r1 as usize), a) == if root_of(p, a) == r2 {
            r1
        } else {
            root_of(p, a)
        },
    decreases a,
{
    let q = p.update(r2, r1 as usize);
    assert(dsu_wf(q));
    if a == r2 {
        assert(q[a] as int == r1);
        assert(q[r1] as int == r1);
        assert(root_of(q, a) == root_of(q, r1));
        assert(root_of(q, r1) == r1);
        assert(root_of(p, a) == r2);
    } else {
        if p[a] as int == a {
            assert(q[a] as int == a);
            assert(root_of(q, a) == a);
            assert(root_of(p, a) == a);
        } else {
            lemma_reroot(p, r1, r2, p[a] as int);
            assert(q[a] == p[a]);
            assert(root_of(q, a) == root_of(q, p[a] as int));
            assert(root_of(p, a) == root_of(p, p[a] as int));
        }
    }
}

/// Union-find with an explicit parent array over `0 .. n`.
pub struct Dsu {
    parent: Vec<usize>,
}

impl Dsu {
    /// The parent array, for specifications.
    pub closed spec fn view(&self) -> Seq<usize> {
        self.parent@
    }

    pub fn new(n: usize) -> (r: Dsu)
        ensures
            r@.len() == n,
            dsu_wf(r@),
            forall|i: int| 0 <= i < n ==> (#[trigger] r@[i]) as int == i,
    {
        let mut parent: Vec<usize> = Vec::new();
        let mut i: usize = 0;
        while i < n
            invariant
                i <= n,
                parent@.len() == i,
                forall|k: int| 0 <= k < i ==> (#[trigger] parent@[k]) as int == k,
            decreases n - i,
        {
            parent.push(i);
            i = i + 1;
        }
        Dsu { parent }
    }

    /// Walks to the representative of `x`.
    pub fn find(&self, x: usize) -> (r: usize)
        requires
            dsu_wf(self@),
            x < self@.len(),
        ensures
            r as int == root_of(self@, x as int),
            r < self@.len(),
            self@[r as int] as int == r as int,
    {
        let mut y: usize = x;
        while self.parent[y] != y
            invariant
                dsu_wf(self@),
                y < self@.len(),
                root_of(self@, y as int) == root_of(self@, x as int),
            decreases y,
        {
            y = self.parent[y];
        }
        proof {
            lemma_root_props(self@, x as int);
        }
        y
    }

    /// Merges the classes of `x` and `y`; every other class is untouched.
    pub fn union(&mut self, x: usize, y: usize)
        requires
            dsu_wf(old(self)@),
            x < old(self)@.len(),
            y < old(self)@.len(),
        ensures
            dsu_wf(final(self)@),
            final(self)@.len() == old(self)@.len(),
            forall|a: int, b: int|
                0 <= a < old(self)@.len() && 0 <= b < old(self)@.len() ==> (#[trigger] same_root(
                    final(self)@,
                    a,
                    b,
                ) <==> (same_root(old(self)@, a, b) || (same_root(old(self)@, a, x as int)
                    && same_root(old(self)@, b, y as int)) || (same_root(old(self)@, a, y as int)
                    && same_root(old(self)@, b, x as int)))),
    {
        let rx = self.find(x);
        let ry = self.find(y);
        if rx == ry {
            return ;
        }
        let ghost p = self@;
        let lo: usize = if rx < ry {
            rx
        } else {
            ry
        };
        let hi: usize = if rx < ry {
            ry
        } else {
            rx
        };
        self.parent.set(hi, lo);
        proof {
            let q = self@;
            assert(q =~= p.update(hi as int, lo));
            assert forall|a: int| 0 <= a < p.len() implies root_of(q, a) == (if root_of(p, a)
                == hi as int {
                lo as int
            } else {
                root_of(p, a)
            }) by {
                lemma_reroot(p, lo as int, hi as int, a);
            }
            assert forall|a: int, b: int|
                0 <= a < p.len() && 0 <= b < p.len() implies (#[trigger] same_root(q, a, b) <==> (
            same_root(p, a, b) || (same_root(p, a, x as int) && same_root(p, b, y as int)) || (
            same_root(p, a, y as int) && same_root(p, b, x as int)))) by {
                lemma_root_props(p, a);
                lemma_root_props(p, b);
                lemma_root_props(p, x as int);
                lemma_root_props(p, y as int);
            }
        }
    }
}

} // verus!
