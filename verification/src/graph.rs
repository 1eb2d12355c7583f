//! Match graph: connected components over verified pairs, then a maximum-inlier spanning tree.
//!
//! Panorama frames form a graph whose edges are verified overlaps. The *largest connected component*
//! is kept (a shoot can contain unrelated stragglers) and a maximum spanning tree is grown over it
//! with Prim's rule so pose seeding chains through the most-confident overlaps. The tree root is the
//! frame with the most total inlier support — the "central" frame — which becomes the
//! identity-rotation reference.

use vstd::prelude::*;
use crate::unionfind::{root_of, UnionFind};
use crate::PanoError;

verus! {

/// An undirected verified edge between two frames, weighted by inlier count.
#[derive(Debug, Clone, Copy)]
pub struct Edge {
    pub a: usize,
    pub b: usize,
    pub weight: usize,
    /// Index into the caller's pairwise list, so pose seeding can fetch the homography.
    pub pair_idx: usize,
}

/// A directed spanning-tree step: `child`'s pose is derived from `parent`'s via `pair_idx`.
#[derive(Debug, Clone, Copy)]
pub struct TreeEdge {
    pub parent: usize,
    pub child: usize,
    pub pair_idx: usize,
}

/// The spanning tree over the largest component.
#[derive(Debug)]
pub struct SpanningTree {
    /// Frames in the largest connected component, ascending.
    pub used: Vec<usize>,
    /// Root frame (max total inlier support) — the identity-rotation reference.
    pub reference: usize,
    /// Parent→child steps in the order they join the tree (each parent already has a pose).
    pub order: Vec<TreeEdge>,
}

/// `lab` gives both ends of each of the first `m` edges the same label.
pub open spec fn respects(edges: Seq<Edge>, m: int, lab: spec_fn(int) -> int) -> bool {
    forall|e: int| 0 <= e < m ==> lab(#[trigger] edges[e].a as int) == lab(edges[e].b as int)
}

/// `u` and `v` are joined by the first `m` edges: every labeling that respects those edges gives
/// them the same label.
pub open spec fn connected_upto(edges: Seq<Edge>, m: int, u: int, v: int) -> bool {
    forall|lab: spec_fn(int) -> int| #[trigger] respects(edges, m, lab) ==> lab(u) == lab(v)
}

/// `u` and `v` lie in the same connected component of the edge list.
pub open spec fn connected(edges: Seq<Edge>, u: int, v: int) -> bool {
    connected_upto(edges, edges.len() as int, u, v)
}

/// Size of `v`'s component among the frames `[0, k)`.
pub open spec fn count_conn(edges: Seq<Edge>, v: int, k: int) -> int
    decreases k,
{
    if k <= 0 {
        0
    } else {
        count_conn(edges, v, k - 1) + if connected(edges, v, k - 1) { 1int } else { 0int }
    }
}

/// Number of frames in `[0, k)` whose root is `c`.
pub open spec fn count_root(roots: Seq<int>, c: int, k: int) -> int
    decreases k,
{
    if k <= 0 {
        0
    } else {
        count_root(roots, c, k - 1) + if roots[k - 1] == c { 1int } else { 0int }
    }
}

/// Every edge joins two of the `n` frames.
pub open spec fn edges_in_range(edges: Seq<Edge>, n: int) -> bool {
    forall|e: int| 0 <= e < edges.len() ==> (#[trigger] edges[e]).a < n && edges[e].b < n
}

/// Equal predicates over `[0, k)` give equal counts.
proof fn lemma_counts_agree(edges: Seq<Edge>, roots: Seq<int>, v: int, c: int, k: int)
    requires
        k <= roots.len(),
        forall|u: int| 0 <= u < k ==> (roots[u] == c <==> #[trigger] connected(edges, v, u)),
    ensures
        count_root(roots, c, k) == count_conn(edges, v, k),
    decreases k,
{
    if k > 0 {
        assert(roots[k - 1] == c <==> connected(edges, v, k - 1));
        lemma_counts_agree(edges, roots, v, c, k - 1);
    }
}

/// Counts are bounded by the range and positive when a member lies in it.
proof fn lemma_count_root_bounds(roots: Seq<int>, c: int, k: int, u: int)
    requires
        0 <= k <= roots.len(),
    ensures
        0 <= count_root(roots, c, k) <= k,
        0 <= u < k && roots[u] == c ==> count_root(roots, c, k) >= 1,
    decreases k,
{
    if k > 0 {
        lemma_count_root_bounds(roots, c, k - 1, u);
    }
}

/// The union-find's roots after processing the first `m` edges describe exactly their components.
proof fn lemma_union_step(
    edges: Seq<Edge>,
    m: int,
    n: int,
    r0: spec_fn(int) -> int,
    r1: spec_fn(int) -> int,
)
    requires
        0 <= m < edges.len(),
        edges_in_range(edges, n),
        forall|e: int| 0 <= e < m ==> r0(#[trigger] edges[e].a as int) == r0(edges[e].b as int),
        forall|u: int, v: int|
            0 <= u < n && 0 <= v < n && r0(u) == r0(v) ==> #[trigger] connected_upto(edges, m, u, v),
        ({
            let x = edges[m].a as int;
            let y = edges[m].b as int;
            &&& r1(x) == r1(y)
            &&& (r1(x) == r0(x) || r1(x) == r0(y))
            &&& forall|u: int|
                0 <= u < n ==> #[trigger] r1(u) == if r0(u) == r0(x) || r0(u) == r0(y) {
                    r1(x)
                } else {
                    r0(u)
                }
        }),
        forall|u: int| 0 <= u < n ==> 0 <= #[trigger] r0(u) < n,
    ensures
        forall|e: int| 0 <= e < m + 1 ==> r1(#[trigger] edges[e].a as int) == r1(edges[e].b as int),
        forall|u: int, v: int|
            0 <= u < n && 0 <= v < n && r1(u) == r1(v) ==> #[trigger] connected_upto(edges, m + 1, u, v),
{
    let x = edges[m].a as int;
    let y = edges[m].b as int;
    assert(edges[m].a < n && edges[m].b < n);
    assert forall|e: int| 0 <= e < m + 1 implies r1(#[trigger] edges[e].a as int) == r1(edges[e].b as int) by {
        assert(edges[e].a < n && edges[e].b < n);
        if e < m {
            assert(r0(edges[e].a as int) == r0(edges[e].b as int));
        }
    }
    assert forall|u: int, v: int|
        0 <= u < n && 0 <= v < n && r1(u) == r1(v) implies #[trigger] connected_upto(edges, m + 1, u, v) by {
        assert forall|lab: spec_fn(int) -> int| #[trigger] respects(edges, m + 1, lab) implies lab(u) == lab(v) by {
            assert(respects(edges, m, lab));
            assert(lab(x) == lab(y)) by {
                assert(lab(edges[m].a as int) == lab(edges[m].b as int));
            }
            let ru = r0(u);
            let rv = r0(v);
            let merged_u = ru == r0(x) || ru == r0(y);
            let merged_v = rv == r0(x) || rv == r0(y);
            if ru == rv {
                assert(connected_upto(edges, m, u, v));
            } else if merged_u && merged_v {
                if ru == r0(x) {
                    assert(connected_upto(edges, m, u, x));
                    assert(connected_upto(edges, m, y, v));
                } else {
                    assert(connected_upto(edges, m, u, y));
                    assert(connected_upto(edges, m, x, v));
                }
            } else {
                // exactly one of them was merged: their new roots differ
                assert(r1(x) == r0(x) || r1(x) == r0(y));
                assert(false);
            }
        }
    }
}

/// Union-find over the edges: per frame, the root of its component (equal roots exactly for
/// connected frames).
pub fn component_roots(n: usize, edges: &[Edge]) -> (roots: Vec<usize>)
    requires
        edges_in_range(edges@, n as int),
    ensures
        roots@.len() == n,
        forall|u: int| 0 <= u < n ==> #[trigger] roots@[u] < n,
        forall|u: int, v: int|
            0 <= u < n && 0 <= v < n ==> (roots@[u] == roots@[v] <==> #[trigger] connected(edges@, u, v)),
{
    let mut uf = UnionFind::new(n);
    let mut m: usize = 0;
    while m < edges.len()
        invariant
            m <= edges.len(),
            edges_in_range(edges@, n as int),
            uf.wf(m as int),
            uf.parent@.len() == n,
            forall|e: int| 0 <= e < m ==> uf.root(#[trigger] edges@[e].a as int) == uf.root(edges@[e].b as int),
            forall|u: int, v: int|
                0 <= u < n && 0 <= v < n && uf.root(u) == uf.root(v) ==> #[trigger] connected_upto(edges@, m as int, u, v),
        decreases edges.len() - m,
    {
        let ghost p0 = uf.parent@;
        let ghost k0 = uf.rank@;
        assert(edges@[m as int].a < n && edges@[m as int].b < n);
        let x = edges[m].a;
        let y = edges[m].b;
        uf.union(x, y, Ghost(m as int));
        proof {
            let r0 = |u: int| root_of(p0, k0, u);
            let r1 = |u: int| root_of(uf.parent@, uf.rank@, u);
            assert forall|u: int| 0 <= u < n implies 0 <= #[trigger] r0(u) < n by {
                crate::unionfind::lemma_root_props(p0, k0, n as int, u);
            }
            assert forall|e: int| 0 <= e < m implies r0(#[trigger] edges@[e].a as int) == r0(edges@[e].b as int) by {
            }
            assert forall|u: int, v: int|
                0 <= u < n && 0 <= v < n && r0(u) == r0(v) implies #[trigger] connected_upto(edges@, m as int, u, v) by {
            }
            assert forall|u: int| 0 <= u < n implies #[trigger] r1(u) == if r0(u) == r0(x as int) || r0(u) == r0(y as int) {
                r1(x as int)
            } else {
                r0(u)
            } by {
            }
            lemma_union_step(edges@, m as int, n as int, r0, r1);
            assert forall|u: int, v: int|
                0 <= u < n && 0 <= v < n && uf.root(u) == uf.root(v) implies #[trigger] connected_upto(edges@, m + 1, u, v) by {
                assert(r1(u) == r1(v));
            }
            assert forall|e: int| 0 <= e < m + 1 implies uf.root(#[trigger] edges@[e].a as int) == uf.root(edges@[e].b as int) by {
                assert(r1(edges@[e].a as int) == r1(edges@[e].b as int));
            }
        }
        m = m + 1;
    }
    let ghost rt = Seq::new(n as nat, |u: int| root_of(uf.parent@, uf.rank@, u));
    proof {
        assert forall|u: int| 0 <= u < n implies 0 <= #[trigger] rt[u] < n by {
            crate::unionfind::lemma_root_props(uf.parent@, uf.rank@, n as int, u);
        }
    }
    let mut roots: Vec<usize> = Vec::new();
    let mut v: usize = 0;
    while v < n
        invariant
            v <= n,
            uf.wf(edges.len() as int),
            uf.parent@.len() == n,
            rt.len() == n,
            forall|u: int| 0 <= u < n ==> #[trigger] root_of(uf.parent@, uf.rank@, u) == rt[u],
            forall|u: int| 0 <= u < n ==> 0 <= #[trigger] rt[u] < n,
            roots@.len() == v,
            forall|u: int| 0 <= u < v ==> #[trigger] roots@[u] == rt[u],
        decreases n - v,
    {
        let r = uf.find(v, Ghost(edges.len() as int));
        roots.push(r);
        v = v + 1;
    }
    proof {
        let lab = |u: int| rt[u];
        assert(respects(edges@, edges@.len() as int, |u: int| root_of(uf.parent@, uf.rank@, u)));
        assert forall|u: int, v: int|
            0 <= u < n && 0 <= v < n implies (roots@[u] == roots@[v] <==> #[trigger] connected(edges@, u, v)) by {
            if connected(edges@, u, v) {
                let l = |w: int| root_of(uf.parent@, uf.rank@, w);
                assert(respects(edges@, edges@.len() as int, l));
                assert(l(u) == l(v));
            }
        }
    }
    roots
}

/// Connectivity is symmetric.
pub proof fn lemma_connected_symmetric(edges: Seq<Edge>, u: int, v: int)
    requires
        connected(edges, u, v),
    ensures
        connected(edges, v, u),
{
    assert forall|lab: spec_fn(int) -> int| #[trigger] respects(edges, edges.len() as int, lab) implies lab(v) == lab(u) by {
        assert(lab(u) == lab(v));
    }
}

/// Connectivity is transitive.
pub proof fn lemma_connected_transitive(edges: Seq<Edge>, u: int, v: int, w: int)
    requires
        connected(edges, u, v),
        connected(edges, v, w),
    ensures
        connected(edges, u, w),
{
    assert forall|lab: spec_fn(int) -> int| #[trigger] respects(edges, edges.len() as int, lab) implies lab(u) == lab(w) by {
        assert(lab(u) == lab(v));
        assert(lab(v) == lab(w));
    }
}

/// The two ends of an edge are connected.
pub proof fn lemma_connected_edge(edges: Seq<Edge>, e: int)
    requires
        0 <= e < edges.len(),
    ensures
        connected(edges, edges[e].a as int, edges[e].b as int),
{
    assert forall|lab: spec_fn(int) -> int| #[trigger] respects(edges, edges.len() as int, lab) implies lab(
        edges[e].a as int,
    ) == lab(edges[e].b as int) by {
        assert(lab(edges[e].a as int) == lab(edges[e].b as int));
    }
}

/// Every frame is connected to itself.
pub proof fn lemma_connected_refl(edges: Seq<Edge>, u: int)
    ensures
        connected(edges, u, u),
{
    assert forall|lab: spec_fn(int) -> int| #[trigger] respects(edges, edges.len() as int, lab) implies lab(u) == lab(u) by {}
}

/// `used` is the largest connected component (ascending), ties broken towards the component with
/// the lowest frame index.
pub open spec fn largest_component(edges: Seq<Edge>, n: int, used: Seq<usize>) -> bool {
    &&& used.len() > 0
    &&& forall|i: int, j: int| 0 <= i < j < used.len() ==> #[trigger] used[i] < #[trigger] used[j]
    &&& forall|i: int| 0 <= i < used.len() ==> #[trigger] used[i] < n
    &&& forall|u: int| 0 <= u < n ==> (used.contains(u as usize) <==> #[trigger] connected(edges, used[0] as int, u))
    &&& forall|v: int| 0 <= v < n ==> #[trigger] count_conn(edges, v, n) <= used.len()
    &&& forall|v: int, u: int|
        0 <= v < n && 0 <= u < n && count_conn(edges, v, n) == used.len() && #[trigger] connected(edges, v, u)
            ==> used[0] <= u
}

/// Sum of the weights of the first `k` edges at frame `v` (a self-loop counts twice).
pub open spec fn incident(edges: Seq<Edge>, v: int, k: int) -> int
    decreases k,
{
    if k <= 0 {
        0
    } else {
        incident(edges, v, k - 1) + (if edges[k - 1].a == v { edges[k - 1].weight as int } else { 0int }) + (
        if edges[k - 1].b == v { edges[k - 1].weight as int } else { 0int })
    }
}

/// Inlier support of `v` over the first `k` edges that lie inside `used`.
pub open spec fn support(edges: Seq<Edge>, used: Seq<usize>, v: int, k: int) -> int
    decreases k,
{
    if k <= 0 {
        0
    } else {
        support(edges, used, v, k - 1) + if used.contains(edges[k - 1].a) && used.contains(edges[k - 1].b) {
            (if edges[k - 1].a == v { edges[k - 1].weight as int } else { 0int }) + (if edges[k - 1].b == v {
                edges[k - 1].weight as int
            } else {
                0int
            })
        } else {
            0int
        }
    }
}

/// Support never exceeds the incident weight, which only grows with more edges.
proof fn lemma_support_bound(edges: Seq<Edge>, used: Seq<usize>, v: int, k: int, k2: int)
    requires
        0 <= k <= k2 <= edges.len(),
    ensures
        0 <= support(edges, used, v, k) <= incident(edges, v, k) <= incident(edges, v, k2),
    decreases k2,
{
    if k2 > k {
        lemma_support_bound(edges, used, v, k, k2 - 1);
    } else if k > 0 {
        lemma_support_bound(edges, used, v, k - 1, k - 1);
    }
}

/// `reference` is the first frame of `used` with the greatest support (`used[0]` when every support
/// is zero).
pub open spec fn reference_ok(edges: Seq<Edge>, used: Seq<usize>, reference: int) -> bool {
    exists|ri: int|
        0 <= ri < used.len() && used[ri] == reference && (ri == 0 || support(
            edges,
            used,
            reference,
            edges.len() as int,
        ) > 0) && (forall|j: int|
            0 <= j < used.len() ==> support(edges, used, #[trigger] used[j] as int, edges.len() as int)
                <= support(edges, used, reference, edges.len() as int)) && (forall|j: int|
            0 <= j < ri ==> support(edges, used, #[trigger] used[j] as int, edges.len() as int) < support(
                edges,
                used,
                reference,
                edges.len() as int,
            ))
}

/// Frame `x` is in the tree after the first `t` steps.
pub open spec fn tree_has(reference: int, order: Seq<TreeEdge>, t: int, x: int) -> bool
    decreases t,
{
    if t <= 0 {
        x == reference
    } else {
        tree_has(reference, order, t - 1, x) || order[t - 1].child == x
    }
}

/// Edge `e`, oriented from `p` to `c`, crosses the tree frontier after `t` steps.
pub open spec fn crossing(
    edges: Seq<Edge>,
    used: Seq<usize>,
    reference: int,
    order: Seq<TreeEdge>,
    t: int,
    e: int,
    p: int,
    c: int,
) -> bool {
    &&& 0 <= e < edges.len()
    &&& used.contains(edges[e].a) && used.contains(edges[e].b)
    &&& ((edges[e].a == p && edges[e].b == c) || (edges[e].a == c && edges[e].b == p))
    &&& tree_has(reference, order, t, p)
    &&& !tree_has(reference, order, t, c)
}

/// Prim's preference: heavier first, then the lower child, then the lower parent.
pub open spec fn better(w1: int, c1: int, p1: int, w2: int, c2: int, p2: int) -> bool {
    w1 > w2 || (w1 == w2 && (c1 < c2 || (c1 == c2 && p1 < p2)))
}

/// Edge `e` is the one Prim's rule takes at step `t`: a best crossing edge, the lowest-indexed one
/// among equals.
pub open spec fn chosen(
    edges: Seq<Edge>,
    used: Seq<usize>,
    reference: int,
    order: Seq<TreeEdge>,
    t: int,
    e: int,
) -> bool {
    let p = order[t].parent as int;
    let c = order[t].child as int;
    &&& crossing(edges, used, reference, order, t, e, p, c)
    &&& edges[e].pair_idx == order[t].pair_idx
    &&& forall|e2: int, p2: int, c2: int|
        #[trigger] crossing(edges, used, reference, order, t, e2, p2, c2) ==> !better(
            edges[e2].weight as int,
            c2,
            p2,
            edges[e].weight as int,
            c,
            p,
        ) && ((edges[e2].weight == edges[e].weight && c2 == c && p2 == p) ==> e <= e2)
}

/// Step `t` of `order` is the one Prim's rule takes.
pub open spec fn step_ok(edges: Seq<Edge>, used: Seq<usize>, reference: int, order: Seq<TreeEdge>, t: int) -> bool {
    exists|e: int| #[trigger] chosen(edges, used, reference, order, t, e)
}

/// `order` is the maximum spanning tree Prim's rule grows over `used` from `reference`.
pub open spec fn tree_ok(edges: Seq<Edge>, used: Seq<usize>, reference: int, order: Seq<TreeEdge>) -> bool {
    &&& order.len() + 1 == used.len()
    &&& forall|t: int| 0 <= t < order.len() ==> #[trigger] step_ok(edges, used, reference, order, t)
}

/// The component label chosen for the largest component: the root with the most members, ties to
/// the one whose first member is lowest. Returns `(root, size, first member)`; `size == 0` only
/// when `n == 0`.
fn pick_component(n: usize, roots: &Vec<usize>) -> (res: (usize, usize, usize))
    requires
        roots@.len() == n,
        forall|u: int| 0 <= u < n ==> #[trigger] roots@[u] < n,
    ensures
        n == 0 ==> res.1 == 0,
        n > 0 ==> {
            let rs = roots@.map_values(|r: usize| r as int);
            &&& res.0 < n
            &&& res.1 == count_root(rs, res.0 as int, n as int)
            &&& res.1 > 0
            &&& res.2 < n && roots@[res.2 as int] == res.0
            &&& forall|u: int| 0 <= u < res.2 ==> #[trigger] roots@[u] != res.0
            &&& forall|v: int|
                0 <= v < n ==> #[trigger] count_root(rs, roots@[v] as int, n as int) <= res.1
            &&& forall|v: int, u: int|
                0 <= v < n && 0 <= u < n && count_root(rs, roots@[v] as int, n as int) == res.1
                    && #[trigger] roots@[u] == #[trigger] roots@[v] ==> res.2 <= u
        },
{
    let ghost rs = roots@.map_values(|r: usize| r as int);
    let mut counts: Vec<usize> = vec![0usize; n];
    let mut first: Vec<usize> = vec![0usize; n];
    let mut v: usize = 0;
    while v < n
        invariant
            v <= n,
            roots@.len() == n,
            rs == roots@.map_values(|r: usize| r as int),
            forall|u: int| 0 <= u < n ==> #[trigger] roots@[u] < n,
            counts@.len() == n,
            first@.len() == n,
            forall|c: int| 0 <= c < n ==> #[trigger] counts@[c] == count_root(rs, c, v as int),
            forall|c: int|
                0 <= c < n && counts@[c] > 0 ==> #[trigger] first@[c] < v && roots@[first@[c] as int] == c
                    && forall|u: int| 0 <= u < first@[c] ==> #[trigger] roots@[u] != c,
        decreases n - v,
    {
        let r = roots[v];
        proof {
            assert forall|c: int| 0 <= c < n implies count_root(rs, c, v as int) <= v by {
                lemma_count_root_bounds(rs, c, v as int, 0);
            }
        }
        if counts[r] == 0 {
            first.set(r, v);
            proof {
                assert forall|u: int| 0 <= u < v implies #[trigger] roots@[u] != r by {
                    if roots@[u] == r {
                        lemma_count_root_bounds(rs, r as int, v as int, u);
                    }
                }
            }
        }
        let c1 = counts[r] + 1;
        counts.set(r, c1);
        proof {
            assert(rs[v as int] == r);
            assert forall|c: int| 0 <= c < n implies #[trigger] counts@[c] == count_root(rs, c, v + 1) by {}
        }
        v = v + 1;
    }
    let mut best_c: usize = 0;
    let mut best_count: usize = 0;
    let mut best_first: usize = 0;
    let mut c: usize = 0;
    while c < n
        invariant
            c <= n,
            roots@.len() == n,
            rs == roots@.map_values(|r: usize| r as int),
            forall|u: int| 0 <= u < n ==> #[trigger] roots@[u] < n,
            counts@.len() == n,
            first@.len() == n,
            forall|cc: int| 0 <= cc < n ==> #[trigger] counts@[cc] == count_root(rs, cc, n as int),
            forall|cc: int|
                0 <= cc < n && counts@[cc] > 0 ==> #[trigger] first@[cc] < n && roots@[first@[cc] as int] == cc
                    && forall|u: int| 0 <= u < first@[cc] ==> #[trigger] roots@[u] != cc,
            best_count == 0 <==> forall|cc: int| 0 <= cc < c ==> #[trigger] counts@[cc] == 0,
            best_count > 0 ==> best_c < c && counts@[best_c as int] == best_count && first@[best_c as int] == best_first,
            forall|cc: int|
                0 <= cc < c && counts@[cc] > 0 ==> #[trigger] counts@[cc] < best_count || (counts@[cc] == best_count
                    && first@[cc] >= best_first),
        decreases n - c,
    {
        let k = counts[c];
        if k > 0 && (best_count == 0 || k > best_count || (k == best_count && first[c] < best_first)) {
            best_c = c;
            best_count = k;
            best_first = first[c];
        }
        c = c + 1;
    }
    proof {
        if n > 0 {
            assert(rs[0] == roots@[0]);
            lemma_count_root_bounds(rs, roots@[0] as int, n as int, 0);
            assert(counts@[roots@[0] as int] > 0);
            assert forall|v: int| 0 <= v < n implies #[trigger] count_root(rs, roots@[v] as int, n as int) <= best_count by {
                assert(counts@[roots@[v] as int] == count_root(rs, roots@[v] as int, n as int));
            }
            assert forall|v: int, u: int|
                0 <= v < n && 0 <= u < n && count_root(rs, roots@[v] as int, n as int) == best_count
                    && #[trigger] roots@[u] == #[trigger] roots@[v] implies best_first <= u by {
                let cv = roots@[v] as int;
                assert(counts@[cv] == best_count);
                lemma_count_root_bounds(rs, cv, n as int, v);
                assert(first@[cv] >= best_first);
                assert(!(u < first@[cv]));
            }
        }
    }
    (best_c, best_count, best_first)
}

/// The frames whose root is `c`, ascending.
fn collect_members(n: usize, roots: &Vec<usize>, c: usize) -> (used: Vec<usize>)
    requires
        roots@.len() == n,
    ensures
        used@.len() == count_root(roots@.map_values(|r: usize| r as int), c as int, n as int),
        forall|i: int, j: int| 0 <= i < j < used@.len() ==> #[trigger] used@[i] < #[trigger] used@[j],
        forall|i: int| 0 <= i < used@.len() ==> #[trigger] used@[i] < n,
        forall|u: int| 0 <= u < n ==> (used@.contains(u as usize) <==> #[trigger] roots@[u] == c),
        used@.len() > 0 ==> forall|u: int| 0 <= u < used@[0] ==> #[trigger] roots@[u] != c,
{
    let ghost rs = roots@.map_values(|r: usize| r as int);
    let mut used: Vec<usize> = Vec::new();
    let mut v: usize = 0;
    while v < n
        invariant
            v <= n,
            roots@.len() == n,
            rs == roots@.map_values(|r: usize| r as int),
            used@.len() == count_root(rs, c as int, v as int),
            forall|i: int, j: int| 0 <= i < j < used@.len() ==> #[trigger] used@[i] < #[trigger] used@[j],
            forall|i: int| 0 <= i < used@.len() ==> #[trigger] used@[i] < v,
            forall|u: int| 0 <= u < v ==> (used@.contains(u as usize) <==> #[trigger] roots@[u] == c),
            used@.len() > 0 ==> forall|u: int| 0 <= u < used@[0] ==> #[trigger] roots@[u] != c,
            used@.len() == 0 ==> forall|u: int| 0 <= u < v ==> #[trigger] roots@[u] != c,
        decreases n - v,
    {
        let ghost old_used = used@;
        if roots[v] == c {
            used.push(v);
            proof {
                assert forall|u: int| 0 <= u < v + 1 implies (used@.contains(u as usize) <==> #[trigger] roots@[u] == c) by {
                    if u < v {
                        if old_used.contains(u as usize) {
                            let q = choose|q: int| 0 <= q < old_used.len() && old_used[q] == u as usize;
                            assert(used@[q] == old_used[q]);
                        }
                        if used@.contains(u as usize) {
                            let q = choose|q: int| 0 <= q < used@.len() && used@[q] == u as usize;
                            if q < old_used.len() {
                                assert(old_used[q] == used@[q]);
                            }
                        }
                    } else {
                        assert(used@[old_used.len() as int] == v);
                    }
                }
            }
        } else {
            proof {
                assert forall|u: int| 0 <= u < v + 1 implies (used@.contains(u as usize) <==> #[trigger] roots@[u] == c) by {
                    if u == v {
                        if used@.contains(u as usize) {
                            let q = choose|q: int| 0 <= q < used@.len() && used@[q] == u as usize;
                        }
                    }
                }
            }
        }
        v = v + 1;
    }
    used
}

/// Per-frame inlier support over the edges inside component `c` (`used`).
fn supports(n: usize, edges: &[Edge], roots: &Vec<usize>, c: usize, Ghost(used): Ghost<Seq<usize>>) -> (sup: Vec<usize>)
    requires
        edges_in_range(edges@, n as int),
        roots@.len() == n,
        forall|x: int| 0 <= x < n ==> (used.contains(x as usize) <==> #[trigger] roots@[x] == c),
        forall|v: int| 0 <= v < n ==> #[trigger] incident(edges@, v, edges@.len() as int) <= usize::MAX,
    ensures
        sup@.len() == n,
        forall|x: int| 0 <= x < n ==> #[trigger] sup@[x] == support(edges@, used, x, edges@.len() as int),
{
    let mut sup: Vec<usize> = vec![0usize; n];
    let mut e: usize = 0;
    while e < edges.len()
        invariant
            e <= edges.len(),
            edges_in_range(edges@, n as int),
            roots@.len() == n,
            forall|x: int| 0 <= x < n ==> (used.contains(x as usize) <==> #[trigger] roots@[x] == c),
            forall|v: int| 0 <= v < n ==> #[trigger] incident(edges@, v, edges@.len() as int) <= usize::MAX,
            sup@.len() == n,
            forall|x: int| 0 <= x < n ==> #[trigger] sup@[x] == support(edges@, used, x, e as int),
        decreases edges.len() - e,
    {
        assert(edges@[e as int].a < n && edges@[e as int].b < n);
        let a = edges[e].a;
        let b = edges[e].b;
        let w = edges[e].weight;
        proof {
            lemma_support_bound(edges@, used, a as int, e + 1, edges@.len() as int);
            lemma_support_bound(edges@, used, b as int, e + 1, edges@.len() as int);
            assert(roots@[a as int] == c <==> used.contains(a));
            assert(roots@[b as int] == c <==> used.contains(b));
        }
        if roots[a] == c && roots[b] == c {
            let sa = sup[a] + w;
            sup.set(a, sa);
            let sb = sup[b] + w;
            sup.set(b, sb);
        }
        proof {
            assert forall|x: int| 0 <= x < n implies #[trigger] sup@[x] == support(edges@, used, x, e + 1) by {}
        }
        e = e + 1;
    }
    sup
}

/// The first member of `used` with the greatest support (`used[0]` if all are zero).
fn pick_reference(used: &Vec<usize>, sup: &Vec<usize>, Ghost(edges): Ghost<Seq<Edge>>) -> (r: usize)
    requires
        used@.len() > 0,
        forall|i: int| 0 <= i < used@.len() ==> #[trigger] used@[i] < sup@.len(),
        forall|x: int| 0 <= x < sup@.len() ==> #[trigger] sup@[x] == support(edges, used@, x, edges.len() as int),
    ensures
        reference_ok(edges, used@, r as int),
{
    let mut reference = used[0];
    let mut best: usize = 0;
    let ghost mut ri: int = 0;
    let mut j: usize = 0;
    while j < used.len()
        invariant
            j <= used@.len(),
            used@.len() > 0,
            forall|i: int| 0 <= i < used@.len() ==> #[trigger] used@[i] < sup@.len(),
            0 <= ri < used@.len(),
            ri == 0 || ri < j,
            reference == used@[ri],
            j > 0 ==> best == sup@[reference as int],
            j == 0 ==> best == 0,
            ri == 0 || best > 0,
            forall|jj: int| 0 <= jj < j ==> sup@[#[trigger] used@[jj] as int] <= best,
            forall|jj: int| 0 <= jj < ri ==> sup@[#[trigger] used@[jj] as int] < best,
        decreases used@.len() - j,
    {
        let x = used[j];
        let sx = sup[x];
        if sx > best {
            best = sx;
            reference = x;
            proof {
                ri = j as int;
            }
        }
        j = j + 1;
    }
    proof {
        let sr = support(edges, used@, reference as int, edges.len() as int);
        assert(sup@[reference as int] == sr);
        assert forall|jj: int| 0 <= jj < used@.len() implies support(edges, used@, #[trigger] used@[jj] as int, edges.len() as int) <= sr by {
            assert(sup@[used@[jj] as int] <= best);
        }
        assert forall|jj: int| 0 <= jj < ri implies support(edges, used@, #[trigger] used@[jj] as int, edges.len() as int) < sr by {
            assert(sup@[used@[jj] as int] < best);
        }
        assert(ri == 0 || sr > 0);
    }
    reference
}

/// The reference is in the tree at every step.
proof fn lemma_tree_has_reference(reference: int, order: Seq<TreeEdge>, t: int)
    ensures
        tree_has(reference, order, t, reference),
    decreases t,
{
    if t > 0 {
        lemma_tree_has_reference(reference, order, t - 1);
    }
}

/// Tree membership after `t` steps depends only on the first `t` steps.
proof fn lemma_tree_has_prefix(reference: int, o1: Seq<TreeEdge>, o2: Seq<TreeEdge>, t: int, x: int)
    requires
        t <= o1.len(),
        t <= o2.len(),
        forall|q: int| 0 <= q < t ==> #[trigger] o1[q] == o2[q],
    ensures
        tree_has(reference, o1, t, x) == tree_has(reference, o2, t, x),
    decreases t,
{
    if t > 0 {
        lemma_tree_has_prefix(reference, o1, o2, t - 1, x);
    }
}

/// A step of Prim's rule stays valid when later steps are appended.
proof fn lemma_step_ok_prefix(
    edges: Seq<Edge>,
    used: Seq<usize>,
    reference: int,
    o1: Seq<TreeEdge>,
    o2: Seq<TreeEdge>,
    t: int,
    e: int,
)
    requires
        0 <= t < o1.len(),
        t < o2.len(),
        forall|q: int| 0 <= q <= t ==> #[trigger] o1[q] == o2[q],
        chosen(edges, used, reference, o1, t, e),
    ensures
        chosen(edges, used, reference, o2, t, e),
{
    assert forall|x: int| #[trigger] tree_has(reference, o1, t, x) == tree_has(reference, o2, t, x) by {
        lemma_tree_has_prefix(reference, o1, o2, t, x);
    }
    assert forall|e2: int, p2: int, c2: int|
        #[trigger] crossing(edges, used, reference, o2, t, e2, p2, c2) implies crossing(
            edges,
            used,
            reference,
            o1,
            t,
            e2,
            p2,
            c2,
        ) by {
        assert(tree_has(reference, o1, t, p2) == tree_has(reference, o2, t, p2));
        assert(tree_has(reference, o1, t, c2) == tree_has(reference, o2, t, c2));
    }
    assert(o1[t] == o2[t]);
    let p = o1[t].parent as int;
    let c = o1[t].child as int;
    assert(tree_has(reference, o1, t, p) == tree_has(reference, o2, t, p));
    assert(tree_has(reference, o1, t, c) == tree_has(reference, o2, t, c));
}

/// While some member of the component is outside the tree, an edge crosses the frontier.
proof fn lemma_some_crossing(
    edges: Seq<Edge>,
    n: int,
    used: Seq<usize>,
    reference: int,
    order: Seq<TreeEdge>,
    t: int,
    u: int,
)
    requires
        edges_in_range(edges, n),
        largest_component(edges, n, used),
        0 <= reference < n,
        used.contains(reference as usize),
        0 <= u < n,
        used.contains(u as usize),
        forall|x: int| #[trigger] tree_has(reference, order, t, x) ==> 0 <= x < n && used.contains(x as usize),
        !tree_has(reference, order, t, u),
    ensures
        exists|e: int, p: int, c: int| #[trigger] crossing(edges, used, reference, order, t, e, p, c),
{
    if !(exists|e: int, p: int, c: int| #[trigger] crossing(edges, used, reference, order, t, e, p, c)) {
        let lab = |x: int| if tree_has(reference, order, t, x) { 0int } else { 1int };
        assert forall|e: int| 0 <= e < edges.len() implies lab(#[trigger] edges[e].a as int) == lab(edges[e].b as int) by {
            let a = edges[e].a as int;
            let b = edges[e].b as int;
            assert(a < n && b < n);
            if used.contains(a as usize) && used.contains(b as usize) {
                assert(!crossing(edges, used, reference, order, t, e, a, b));
                assert(!crossing(edges, used, reference, order, t, e, b, a));
            } else if used.contains(a as usize) {
                assert(connected(edges, used[0] as int, a));
                lemma_connected_edge(edges, e);
                lemma_connected_transitive(edges, used[0] as int, a, b);
            } else if used.contains(b as usize) {
                assert(connected(edges, used[0] as int, b));
                lemma_connected_edge(edges, e);
                lemma_connected_symmetric(edges, a, b);
                lemma_connected_transitive(edges, used[0] as int, b, a);
            } else {
                if tree_has(reference, order, t, a) {
                    assert(used.contains(a as usize));
                }
                if tree_has(reference, order, t, b) {
                    assert(used.contains(b as usize));
                }
            }
        }
        assert(respects(edges, edges.len() as int, lab));
        assert(connected(edges, used[0] as int, reference));
        assert(connected(edges, used[0] as int, u));
        lemma_connected_symmetric(edges, used[0] as int, reference);
        lemma_connected_transitive(edges, reference, used[0] as int, u);
        lemma_tree_has_reference(reference, order, t);
        assert(lab(reference) == lab(u));
        assert(false);
    }
}

/// Scan the edges for the crossing edge Prim's rule takes (heaviest, then lowest child, then lowest
/// parent, then lowest edge index). Returns `(found, parent, child, pair_idx, edge index)`.
fn best_crossing(
    n: usize,
    edges: &[Edge],
    roots: &Vec<usize>,
    c: usize,
    in_tree: &Vec<bool>,
    Ghost(used): Ghost<Seq<usize>>,
    Ghost(reference): Ghost<int>,
    Ghost(order): Ghost<Seq<TreeEdge>>,
) -> (r: (bool, usize, usize, usize, Ghost<int>))
    requires
        edges_in_range(edges@, n as int),
        roots@.len() == n,
        forall|x: int| 0 <= x < n ==> (used.contains(x as usize) <==> #[trigger] roots@[x] == c),
        in_tree@.len() == n,
        forall|x: int| 0 <= x < n ==> #[trigger] in_tree@[x] == tree_has(reference, order, order.len() as int, x),
    ensures
        ({
            let t = order.len() as int;
            let (found, p, ch, pi, ge) = r;
            let e = ge@;
            &&& found ==> {
                &&& crossing(edges@, used, reference, order, t, e, p as int, ch as int)
                &&& edges@[e].pair_idx == pi
                &&& forall|e2: int, p2: int, c2: int|
                    #[trigger] crossing(edges@, used, reference, order, t, e2, p2, c2) ==> !better(
                        edges@[e2].weight as int,
                        c2,
                        p2,
                        edges@[e].weight as int,
                        ch as int,
                        p as int,
                    ) && ((edges@[e2].weight == edges@[e].weight && c2 == ch && p2 == p) ==> e <= e2)
            }
            &&& !found ==> forall|e2: int, p2: int, c2: int| !#[trigger] crossing(edges@, used, reference, order, t, e2, p2, c2)
        }),
{
    let ghost t = order.len() as int;
    let mut found = false;
    let mut bw: usize = 0;
    let mut bp: usize = 0;
    let mut bc: usize = 0;
    let mut bpi: usize = 0;
    let ghost mut be: int = 0;
    let mut e: usize = 0;
    while e < edges.len()
        invariant
            e <= edges.len(),
            edges_in_range(edges@, n as int),
            roots@.len() == n,
            forall|x: int| 0 <= x < n ==> (used.contains(x as usize) <==> #[trigger] roots@[x] == c),
            in_tree@.len() == n,
            forall|x: int| 0 <= x < n ==> #[trigger] in_tree@[x] == tree_has(reference, order, t, x),
            found ==> {
                &&& 0 <= be < e
                &&& crossing(edges@, used, reference, order, t, be, bp as int, bc as int)
                &&& edges@[be].pair_idx == bpi
                &&& edges@[be].weight == bw
                &&& forall|e2: int, p2: int, c2: int|
                    e2 < e && #[trigger] crossing(edges@, used, reference, order, t, e2, p2, c2) ==> !better(
                        edges@[e2].weight as int,
                        c2,
                        p2,
                        bw as int,
                        bc as int,
                        bp as int,
                    ) && ((edges@[e2].weight == bw && c2 == bc && p2 == bp) ==> be <= e2)
            },
            !found ==> forall|e2: int, p2: int, c2: int|
                e2 < e ==> !#[trigger] crossing(edges@, used, reference, order, t, e2, p2, c2),
        decreases edges.len() - e,
    {
        assert(edges@[e as int].a < n && edges@[e as int].b < n);
        let a = edges[e].a;
        let b = edges[e].b;
        let w = edges[e].weight;
        let pi = edges[e].pair_idx;
        let ghost old_found = found;
        let ghost (ow, op, oc, obe) = (bw, bp, bc, be);
        if roots[a] == c && roots[b] == c {
            if in_tree[a] && !in_tree[b] {
                if !found || w > bw || (w == bw && (b < bc || (b == bc && a < bp))) {
                    found = true;
                    bw = w;
                    bp = a;
                    bc = b;
                    bpi = pi;
                    proof {
                        be = e as int;
                    }
                }
            }
            if in_tree[b] && !in_tree[a] {
                if !found || w > bw || (w == bw && (a < bc || (a == bc && b < bp))) {
                    found = true;
                    bw = w;
                    bp = b;
                    bc = a;
                    bpi = pi;
                    proof {
                        be = e as int;
                    }
                }
            }
        }
        proof {
            let ee = e as int;
            assert(used.contains(a) <==> roots@[a as int] == c);
            assert(used.contains(b) <==> roots@[b as int] == c);
            assert forall|e2: int, p2: int, c2: int|
                e2 < ee + 1 && #[trigger] crossing(edges@, used, reference, order, t, e2, p2, c2) implies found && !better(
                    edges@[e2].weight as int,
                    c2,
                    p2,
                    bw as int,
                    bc as int,
                    bp as int,
                ) && ((edges@[e2].weight == bw && c2 == bc && p2 == bp) ==> be <= e2) by {
                if e2 == ee {
                    assert(in_tree@[a as int] == tree_has(reference, order, t, a as int));
                    assert(in_tree@[b as int] == tree_has(reference, order, t, b as int));
                }
            }
        }
        e = e + 1;
    }
    (found, bp, bc, bpi, Ghost(be))
}

/// Build the largest-component maximum-inlier spanning tree over frames `0..n`. Errors with
/// `TooFewMatched` (carrying the component size) if the biggest component has fewer than two frames.
pub fn largest_component_tree(n: usize, edges: &[Edge]) -> (res: Result<SpanningTree, PanoError>)
    requires
        edges_in_range(edges@, n as int),
        forall|v: int| 0 <= v < n ==> #[trigger] incident(edges@, v, edges@.len() as int) <= usize::MAX,
    ensures
        match res {
            Ok(tree) => {
                &&& largest_component(edges@, n as int, tree.used@)
                &&& tree.used@.len() >= 2
                &&& reference_ok(edges@, tree.used@, tree.reference as int)
                &&& tree_ok(edges@, tree.used@, tree.reference as int, tree.order@)
            },
            Err(PanoError::TooFewMatched(k)) => {
                &&& k == (if n == 0 { 0usize } else { 1usize })
                &&& forall|v: int| 0 <= v < n ==> #[trigger] count_conn(edges@, v, n as int) <= k
            },
            Err(_) => false,
        },
{
    let roots = component_roots(n, edges);
    let ghost rs = roots@.map_values(|r: usize| r as int);
    let (bc, cnt, fst) = pick_component(n, &roots);
    let used = collect_members(n, &roots, bc);
    proof {
        assert forall|v: int| 0 <= v < n implies count_conn(edges@, v, n as int) == count_root(
            rs,
            roots@[v] as int,
            n as int,
        ) by {
            assert forall|u: int| 0 <= u < n implies (rs[u] == roots@[v] as int <==> #[trigger] connected(edges@, v, u)) by {
                assert(rs[u] == roots@[u]);
            }
            lemma_counts_agree(edges@, rs, v, roots@[v] as int, n as int);
        }
    }
    if cnt < 2 {
        return Err(PanoError::TooFewMatched(cnt));
    }
    proof {
        assert(used@.len() == cnt);
        let u0 = used@[0] as int;
        assert(used@.contains(used@[0]));
        assert(roots@[u0] == bc);
        assert(u0 == fst) by {
            if u0 < fst {
                assert(roots@[u0] != bc);
            }
            if fst < u0 {
                assert(roots@[fst as int] != bc);
            }
        }
        assert forall|u: int| 0 <= u < n implies (used@.contains(u as usize) <==> #[trigger] connected(edges@, u0, u)) by {
            assert(roots@[u] == roots@[u0] <==> connected(edges@, u0, u));
        }
        assert forall|v: int| 0 <= v < n implies #[trigger] count_conn(edges@, v, n as int) <= used@.len() by {
            assert(count_root(rs, roots@[v] as int, n as int) <= cnt);
        }
        assert forall|v: int, u: int|
            0 <= v < n && 0 <= u < n && count_conn(edges@, v, n as int) == used@.len() && #[trigger] connected(
                edges@,
                v,
                u,
            ) implies used@[0] <= u by {
            assert(roots@[u] == roots@[v]);
        }
        assert(largest_component(edges@, n as int, used@));
    }
    let sup = supports(n, edges, &roots, bc, Ghost(used@));
    let reference = pick_reference(&used, &sup, Ghost(edges@));
    proof {
        let ri = choose|ri: int|
            0 <= ri < used@.len() && used@[ri] == reference && (ri == 0 || support(
                edges@,
                used@,
                reference as int,
                edges@.len() as int,
            ) > 0) && (forall|j: int|
                0 <= j < used@.len() ==> support(edges@, used@, #[trigger] used@[j] as int, edges@.len() as int)
                    <= support(edges@, used@, reference as int, edges@.len() as int)) && (forall|j: int|
                0 <= j < ri ==> support(edges@, used@, #[trigger] used@[j] as int, edges@.len() as int) < support(
                    edges@,
                    used@,
                    reference as int,
                    edges@.len() as int,
                ));
        assert(used@.contains(reference));
    }
    let mut in_tree: Vec<bool> = vec![false; n];
    in_tree.set(reference, true);
    let mut order: Vec<TreeEdge> = Vec::new();
    let ghost mut tset: Set<usize> = Set::empty().insert(reference);
    proof {
        used@.unique_seq_to_set();
        assert forall|x: int| 0 <= x < n implies #[trigger] in_tree@[x] == tree_has(reference as int, order@, 0, x) by {}
    }
    while order.len() + 1 < used.len()
        invariant
            edges_in_range(edges@, n as int),
            largest_component(edges@, n as int, used@),
            used@.len() == cnt,
            used@.to_set().len() == used@.len(),
            roots@.len() == n,
            forall|x: int| 0 <= x < n ==> (used@.contains(x as usize) <==> #[trigger] roots@[x] == bc),
            reference < n,
            used@.contains(reference),
            order@.len() + 1 <= used@.len(),
            in_tree@.len() == n,
            forall|x: int| 0 <= x < n ==> #[trigger] in_tree@[x] == tree_has(reference as int, order@, order@.len() as int, x),
            forall|x: int|
                #[trigger] tree_has(reference as int, order@, order@.len() as int, x) ==> 0 <= x < n && used@.contains(
                    x as usize,
                ),
            tset.finite(),
            tset.len() == order@.len() + 1,
            forall|x: usize| #[trigger] tset.contains(x) <==> tree_has(reference as int, order@, order@.len() as int, x as int),
            forall|t: int| 0 <= t < order@.len() ==> #[trigger] step_ok(edges@, used@, reference as int, order@, t),
        decreases used@.len() - order@.len(),
    {
        let ghost t = order@.len() as int;
        proof {
            // some member of the component is still outside the tree
            assert(!used@.to_set().subset_of(tset)) by {
                if used@.to_set().subset_of(tset) {
                    vstd::set_lib::lemma_len_subset(used@.to_set(), tset);
                }
            }
            let u = choose|u: usize| used@.to_set().contains(u) && !tset.contains(u);
            assert(used@.contains(u));
            let q = choose|q: int| 0 <= q < used@.len() && used@[q] == u;
            assert(u < n);
            lemma_some_crossing(edges@, n as int, used@, reference as int, order@, t, u as int);
        }
        let (found, p, ch, pi, Ghost(e)) = best_crossing(
            n,
            edges,
            &roots,
            bc,
            &in_tree,
            Ghost(used@),
            Ghost(reference as int),
            Ghost(order@),
        );
        assert(found);
        let ghost old_order = order@;
        proof {
            assert(ch < n) by {
                assert(edges@[e].a < n && edges@[e].b < n);
            }
        }
        in_tree.set(ch, true);
        order.push(TreeEdge { parent: p, child: ch, pair_idx: pi });
        proof {
            assert forall|q: int| 0 <= q <= t implies #[trigger] old_order.push(TreeEdge { parent: p, child: ch, pair_idx: pi })[q] == order@[q] by {}
            assert forall|x: int| #[trigger] tree_has(reference as int, order@, t, x) == tree_has(reference as int, old_order, t, x) by {
                lemma_tree_has_prefix(reference as int, order@, old_order, t, x);
            }
            assert(!tset.contains(ch));
            tset = tset.insert(ch);
            assert forall|x: int| 0 <= x < n implies #[trigger] in_tree@[x] == tree_has(reference as int, order@, t + 1, x) by {
                assert(tree_has(reference as int, order@, t, x) == tree_has(reference as int, old_order, t, x));
            }
            assert forall|x: int|
                #[trigger] tree_has(reference as int, order@, t + 1, x) implies 0 <= x < n && used@.contains(x as usize) by {
                assert(tree_has(reference as int, order@, t, x) == tree_has(reference as int, old_order, t, x));
                if x == ch {
                    assert(used@.contains(edges@[e].a) && used@.contains(edges@[e].b));
                }
            }
            assert forall|x: usize| #[trigger] tset.contains(x) <==> tree_has(reference as int, order@, t + 1, x as int) by {
                assert(tree_has(reference as int, order@, t, x as int) == tree_has(reference as int, old_order, t, x as int));
            }
            assert forall|e2: int, p2: int, c2: int|
                #[trigger] crossing(edges@, used@, reference as int, order@, t, e2, p2, c2) implies crossing(
                    edges@,
                    used@,
                    reference as int,
                    old_order,
                    t,
                    e2,
                    p2,
                    c2,
                ) by {
                assert(tree_has(reference as int, order@, t, p2) == tree_has(reference as int, old_order, t, p2));
                assert(tree_has(reference as int, order@, t, c2) == tree_has(reference as int, old_order, t, c2));
            }
            assert(tree_has(reference as int, order@, t, p as int) == tree_has(reference as int, old_order, t, p as int));
            assert(tree_has(reference as int, order@, t, ch as int) == tree_has(reference as int, old_order, t, ch as int));
            assert(chosen(edges@, used@, reference as int, order@, t, e));
            assert(step_ok(edges@, used@, reference as int, order@, t));
            assert forall|tt: int| 0 <= tt < order@.len() implies #[trigger] step_ok(edges@, used@, reference as int, order@, tt) by {
                if tt < t {
                    assert(step_ok(edges@, used@, reference as int, old_order, tt));
                    let ee = choose|ee: int| #[trigger] chosen(edges@, used@, reference as int, old_order, tt, ee);
                    lemma_step_ok_prefix(edges@, used@, reference as int, old_order, order@, tt, ee);
                }
            }
        }
    }
    Ok(SpanningTree { used, reference, order })
}

} // verus!
