//! Union-find with union by rank and path compression, over `0..n`.
//!
//! The abstract view of the structure is the root each element reaches by following parent links;
//! ranks strictly increase along those links, which is what makes the walk terminate.

use vstd::prelude::*;

verus! {

/// The root reached from `x` by following parent links (ranks strictly increase along a link; a
/// link that does not raise the rank, or leaves the domain, ends the walk).
pub open spec fn root_of(parent: Seq<usize>, rank: Seq<usize>, x: int) -> int
    decreases usize::MAX - (if 0 <= x < rank.len() { rank[x] as int } else { 0 }),
{
    if 0 <= x < parent.len() && parent.len() == rank.len() && parent[x] != x && 0 <= parent[x] < parent.len()
        && rank[parent[x] as int] > rank[x] {
        root_of(parent, rank, parent[x] as int)
    } else {
        x
    }
}

/// Simple union-find over `n` elements.
pub struct UnionFind {
    pub parent: Vec<usize>,
    pub rank: Vec<usize>,
}

impl UnionFind {
    /// Well-formed: parents stay in the domain, a non-root's parent has a strictly larger rank, and
    /// no rank exceeds `bound`.
    pub open spec fn wf(&self, bound: int) -> bool {
        &&& self.parent@.len() == self.rank@.len()
        &&& forall|x: int| 0 <= x < self.parent@.len() ==> #[trigger] self.parent@[x] < self.parent@.len()
        &&& forall|x: int|
            0 <= x < self.parent@.len() && #[trigger] self.parent@[x] != x ==> self.rank@[self.parent@[x] as int]
                > self.rank@[x]
        &&& forall|x: int| 0 <= x < self.rank@.len() ==> #[trigger] self.rank@[x] <= bound
    }

    /// The root of `x`.
    #[verifier::inline]
    pub open spec fn root(&self, x: int) -> int {
        root_of(self.parent@, self.rank@, x)
    }

    /// `n` singletons.
    pub fn new(n: usize) -> (r: Self)
        ensures
            r.wf(0),
            r.parent@.len() == n,
            forall|x: int| 0 <= x < n ==> #[trigger] r.root(x) == x,
    {
        let mut parent: Vec<usize> = Vec::new();
        let mut rank: Vec<usize> = Vec::new();
        let mut i: usize = 0;
        while i < n
            invariant
                i <= n,
                parent@.len() == i,
                rank@.len() == i,
                forall|x: int| 0 <= x < i ==> #[trigger] parent@[x] == x,
                forall|x: int| 0 <= x < i ==> #[trigger] rank@[x] == 0,
            decreases n - i,
        {
            parent.push(i);
            rank.push(0);
            i = i + 1;
        }
        let r = UnionFind { parent, rank };
        assert forall|x: int| 0 <= x < n implies #[trigger] r.root(x) == x by {
            assert(r.parent@[x] == x);
        }
        r
    }

    /// Find the root of `x`, compressing the walked path onto it. Roots of all elements are kept.
    pub fn find(&mut self, x: usize, Ghost(bound): Ghost<int>) -> (r: usize)
        requires
            old(self).wf(bound),
            x < old(self).parent@.len(),
        ensures
            final(self).wf(bound),
            final(self).parent@.len() == old(self).parent@.len(),
            final(self).rank@ == old(self).rank@,
            r == old(self).root(x as int),
            forall|y: int| 0 <= y < old(self).parent@.len() ==> #[trigger] final(self).root(y) == old(self).root(y),
    {
        let ghost n = self.parent@.len() as int;
        proof {
            lemma_root_props(self.parent@, self.rank@, n, x as int);
        }
        let mut root = x;
        while self.parent[root] != root
            invariant
                self.wf(bound),
                self.parent@.len() == n,
                root < n,
                self.root(root as int) == self.root(x as int),
            decreases usize::MAX - self.rank@[root as int],
        {
            proof {
                lemma_root_props(self.parent@, self.rank@, n, root as int);
            }
            root = self.parent[root];
        }
        proof {
            lemma_root_props(self.parent@, self.rank@, n, root as int);
        }
        let ghost p0 = self.parent@;
        let mut cur = x;
        while self.parent[cur] != root
            invariant
                self.wf(bound),
                self.parent@.len() == n,
                self.rank@ == old(self).rank@,
                root < n,
                cur < n,
                self.parent@[root as int] == root,
                self.root(cur as int) == root,
                forall|y: int| 0 <= y < n ==> #[trigger] root_of(self.parent@, self.rank@, y) == old(self).root(y),
            decreases usize::MAX - self.rank@[cur as int],
        {
            let next = self.parent[cur];
            let ghost before = self.parent@;
            proof {
                lemma_root_props(before, self.rank@, n, cur as int);
                lemma_compress(before, self.rank@, n, cur as int);
                assert(root_of(before, self.rank@, cur as int) == root as int);
            }
            self.parent.set(cur, root);
            proof {
                assert(self.parent@ == before.update(cur as int, root));
                assert(root_of(before, self.rank@, cur as int) as usize == root);
                assert(self.parent@ == before.update(cur as int, root_of(before, self.rank@, cur as int) as usize));
                assert forall|y: int| 0 <= y < n implies #[trigger] root_of(self.parent@, self.rank@, y) == old(self).root(y) by {
                    assert(root_of(self.parent@, self.rank@, y) == root_of(before, self.rank@, y));
                }
                assert(self.root(next as int) == root_of(before, self.rank@, next as int));
                assert(before[cur as int] != cur);
                assert(root_of(before, self.rank@, next as int) == root);
            }
            cur = next;
        }
        root
    }

    /// Merge the sets of `x` and `y` (union by rank). Every element of either set gets the merged
    /// root, which is one of the two old roots; all other roots are kept.
    pub fn union(&mut self, x: usize, y: usize, Ghost(bound): Ghost<int>)
        requires
            old(self).wf(bound),
            0 <= bound < usize::MAX,
            x < old(self).parent@.len(),
            y < old(self).parent@.len(),
        ensures
            final(self).wf(bound + 1),
            final(self).parent@.len() == old(self).parent@.len(),
            final(self).root(x as int) == final(self).root(y as int),
            final(self).root(x as int) == old(self).root(x as int) || final(self).root(x as int) == old(self).root(
                y as int,
            ),
            forall|u: int|
                0 <= u < old(self).parent@.len() ==> #[trigger] final(self).root(u) == if old(self).root(u)
                    == old(self).root(x as int) || old(self).root(u) == old(self).root(y as int) {
                    final(self).root(x as int)
                } else {
                    old(self).root(u)
                },
    {
        let ghost n = self.parent@.len() as int;
        let rx = self.find(x, Ghost(bound));
        let ry = self.find(y, Ghost(bound));
        let ghost p = self.parent@;
        let ghost rk = self.rank@;
        proof {
            lemma_root_props(p, rk, n, x as int);
            lemma_root_props(p, rk, n, y as int);
        }
        assert(rx < n && ry < n);
        if rx == ry {
            return;
        }
        if self.rank[rx] < self.rank[ry] {
            self.parent.set(rx, ry);
            proof {
                lemma_link(p, rk, rk, n, rx as int, ry as int, bound);
                assert(self.parent@ == p.update(rx as int, (ry as int) as usize));
                assert(root_of(p, rk, x as int) == rx);
                assert(root_of(p, rk, y as int) == ry);
                assert(self.root(x as int) == ry);
                assert(self.root(y as int) == ry);
            }
        } else if self.rank[rx] > self.rank[ry] {
            self.parent.set(ry, rx);
            proof {
                lemma_link(p, rk, rk, n, ry as int, rx as int, bound);
                assert(self.parent@ == p.update(ry as int, (rx as int) as usize));
                assert(root_of(p, rk, y as int) == ry);
                assert(root_of(p, rk, x as int) == rx);
                assert(self.root(x as int) == rx);
                assert(self.root(y as int) == rx);
            }
        } else {
            self.parent.set(ry, rx);
            let r1 = self.rank[rx] + 1;
            self.rank.set(rx, r1);
            proof {
                lemma_link(p, rk, self.rank@, n, ry as int, rx as int, bound);
                assert(self.parent@ == p.update(ry as int, (rx as int) as usize));
                assert(root_of(p, rk, y as int) == ry);
                assert(root_of(p, rk, x as int) == rx);
                assert(self.root(x as int) == rx);
                assert(self.root(y as int) == rx);
            }
        }
    }
}

/// Hanging root `a` under root `b` (whose rank may be raised by one) moves `a`'s set to `b` and
/// keeps every other root.
pub proof fn lemma_link(parent: Seq<usize>, rank: Seq<usize>, rank2: Seq<usize>, n: int, a: int, b: int, bound: int)
    requires
        parent.len() == n,
        rank.len() == n,
        forall|y: int| 0 <= y < n ==> #[trigger] parent[y] < n,
        forall|y: int| 0 <= y < n && #[trigger] parent[y] != y ==> rank[parent[y] as int] > rank[y],
        forall|y: int| 0 <= y < n ==> #[trigger] rank[y] <= bound,
        0 <= a < n,
        0 <= b < n,
        a != b,
        parent[a] == a,
        parent[b] == b,
        rank2 == rank || (rank2 == rank.update(b, (rank[b] + 1) as usize) && rank[b] < usize::MAX),
        rank2[b] > rank2[a],
    ensures
        ({
            let p2 = parent.update(a, b as usize);
            &&& forall|y: int| 0 <= y < n ==> #[trigger] p2[y] < n
            &&& forall|y: int| 0 <= y < n && #[trigger] p2[y] != y ==> rank2[p2[y] as int] > rank2[y]
            &&& forall|y: int| 0 <= y < n ==> #[trigger] rank2[y] <= bound + 1
            &&& rank2.len() == n
            &&& forall|u: int|
                0 <= u < n ==> #[trigger] root_of(p2, rank2, u) == if root_of(parent, rank, u) == a {
                    b
                } else {
                    root_of(parent, rank, u)
                }
        }),
{
    let p2 = parent.update(a, b as usize);
    assert forall|y: int| 0 <= y < n && #[trigger] p2[y] != y implies rank2[p2[y] as int] > rank2[y] by {
        if y != a {
            assert(y != b);
        }
    }
    assert forall|u: int| 0 <= u < n implies #[trigger] root_of(p2, rank2, u) == if root_of(parent, rank, u) == a {
        b
    } else {
        root_of(parent, rank, u)
    } by {
        lemma_link_one(parent, rank, rank2, n, a, b, u);
    }
}

proof fn lemma_link_one(parent: Seq<usize>, rank: Seq<usize>, rank2: Seq<usize>, n: int, a: int, b: int, u: int)
    requires
        parent.len() == n,
        rank.len() == n,
        forall|y: int| 0 <= y < n ==> #[trigger] parent[y] < n,
        forall|y: int| 0 <= y < n && #[trigger] parent[y] != y ==> rank[parent[y] as int] > rank[y],
        0 <= a < n,
        0 <= b < n,
        a != b,
        parent[a] == a,
        parent[b] == b,
        rank2 == rank || (rank2 == rank.update(b, (rank[b] + 1) as usize) && rank[b] < usize::MAX),
        rank2[b] > rank2[a],
        0 <= u < n,
    ensures
        root_of(parent.update(a, b as usize), rank2, u) == if root_of(parent, rank, u) == a {
            b
        } else {
            root_of(parent, rank, u)
        },
    decreases usize::MAX - rank[u],
{
    let p2 = parent.update(a, b as usize);
    lemma_root_props(parent, rank, n, u);
    assert(p2[b] == b);
    assert(root_of(p2, rank2, b) == b);
    if u == a {
        assert(root_of(p2, rank2, a) == root_of(p2, rank2, b));
    } else if parent[u] == u {
        assert(p2[u] == u);
    } else {
        assert(u != b);
        assert(rank2[u] == rank[u]);
        assert(rank2[parent[u] as int] >= rank[parent[u] as int]);
        lemma_link_one(parent, rank, rank2, n, a, b, parent[u] as int);
        assert(root_of(p2, rank2, u) == root_of(p2, rank2, parent[u] as int));
    }
}

/// Basic facts about the root walk in a well-formed structure.
pub proof fn lemma_root_props(parent: Seq<usize>, rank: Seq<usize>, n: int, x: int)
    requires
        parent.len() == n,
        rank.len() == n,
        forall|y: int| 0 <= y < n ==> #[trigger] parent[y] < n,
        forall|y: int| 0 <= y < n && #[trigger] parent[y] != y ==> rank[parent[y] as int] > rank[y],
        0 <= x < n,
    ensures
        0 <= root_of(parent, rank, x) < n,
        parent[root_of(parent, rank, x)] == root_of(parent, rank, x),
        rank[root_of(parent, rank, x)] >= rank[x],
        root_of(parent, rank, x) != x ==> rank[root_of(parent, rank, x)] > rank[x],
        parent[x] != x ==> root_of(parent, rank, x) == root_of(parent, rank, parent[x] as int),
    decreases usize::MAX - rank[x],
{
    if parent[x] != x {
        lemma_root_props(parent, rank, n, parent[x] as int);
    }
}

/// Pointing `c` straight at its root keeps every element's root.
pub proof fn lemma_compress(parent: Seq<usize>, rank: Seq<usize>, n: int, c: int)
    requires
        parent.len() == n,
        rank.len() == n,
        forall|y: int| 0 <= y < n ==> #[trigger] parent[y] < n,
        forall|y: int| 0 <= y < n && #[trigger] parent[y] != y ==> rank[parent[y] as int] > rank[y],
        0 <= c < n,
    ensures
        ({
            let r = root_of(parent, rank, c);
            let p2 = parent.update(c, r as usize);
            &&& forall|y: int| 0 <= y < n ==> #[trigger] p2[y] < n
            &&& forall|y: int| 0 <= y < n && #[trigger] p2[y] != y ==> rank[p2[y] as int] > rank[y]
            &&& forall|y: int| 0 <= y < n ==> #[trigger] root_of(p2, rank, y) == root_of(parent, rank, y)
        }),
{
    let r = root_of(parent, rank, c);
    lemma_root_props(parent, rank, n, c);
    let p2 = parent.update(c, r as usize);
    assert forall|y: int| 0 <= y < n && #[trigger] p2[y] != y implies rank[p2[y] as int] > rank[y] by {
        if y == c {
            assert(r != c);
        }
    }
    assert forall|y: int| 0 <= y < n implies #[trigger] root_of(p2, rank, y) == root_of(parent, rank, y) by {
        lemma_compress_one(parent, rank, n, c, y);
    }
}

proof fn lemma_compress_one(parent: Seq<usize>, rank: Seq<usize>, n: int, c: int, y: int)
    requires
        parent.len() == n,
        rank.len() == n,
        forall|z: int| 0 <= z < n ==> #[trigger] parent[z] < n,
        forall|z: int| 0 <= z < n && #[trigger] parent[z] != z ==> rank[parent[z] as int] > rank[z],
        0 <= c < n,
        0 <= y < n,
    ensures
        root_of(parent.update(c, root_of(parent, rank, c) as usize), rank, y) == root_of(parent, rank, y),
    decreases usize::MAX - rank[y],
{
    let r = root_of(parent, rank, c);
    lemma_root_props(parent, rank, n, c);
    lemma_root_props(parent, rank, n, y);
    let p2 = parent.update(c, r as usize);
    if y == c {
        if r != c {
            assert(p2[r] == r);
            assert(root_of(p2, rank, r) == r);
            assert(root_of(p2, rank, c) == root_of(p2, rank, r));
        } else {
            assert(p2 =~= parent);
        }
    } else if parent[y] != y {
        lemma_compress_one(parent, rank, n, c, parent[y] as int);
        assert(p2[y] == parent[y]);
        assert(root_of(p2, rank, y) == root_of(p2, rank, parent[y] as int));
    } else {
        assert(p2[y] == y);
    }
}

} // verus!
