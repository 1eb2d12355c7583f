//! The graph-cut seam: the overlap grid of two frames as a flow network (frame `i` the source,
//! frame `j` the sink), its maximum flow from `pathfinding`, the source side of the cut recovered by
//! a search of the residual network, and the ownership reassigned accordingly.

use vstd::prelude::*;
use std::collections::HashMap;
use crate::seam::{assigned, cell_in, rect_fits, PairCoverage};

verus! {

broadcast use vstd::std_specs::hash::group_hash_axioms;

// ── The residual network ──────────────────────────────────────────────────────────────────────

/// An arc `(from, to)` with its capacity (or flow).
pub type FlowArc = ((usize, usize), i64);

/// The total of the entries of `es` on the arc `(u, v)`.
pub open spec fn arc_sum(es: Seq<FlowArc>, u: int, v: int) -> int
    decreases es.len(),
{
    if es.len() == 0 {
        0
    } else {
        arc_sum(es.drop_last(), u, v) + if es.last().0.0 == u && es.last().0.1 == v {
            es.last().1 as int
        } else {
            0int
        }
    }
}

/// Residual capacity of the arc `(u, v)`: its capacity, less the flow along it, plus the flow back.
pub open spec fn residual(caps: Seq<FlowArc>, flows: Seq<FlowArc>, u: int, v: int) -> int {
    arc_sum(caps, u, v) - arc_sum(flows, u, v) + arc_sum(flows, v, u)
}

/// The arc runs between `u` and `v`, in either direction.
pub open spec fn joins(a: FlowArc, u: int, v: int) -> bool {
    (a.0.0 == u && a.0.1 == v) || (a.0.0 == v && a.0.1 == u)
}

/// Some capacity entry joins `u` and `v`.
pub open spec fn linked(caps: Seq<FlowArc>, u: int, v: int) -> bool {
    exists|e: int| 0 <= e < caps.len() && #[trigger] joins(caps[e], u, v)
}

/// The search may step from `u` to `v`: they are joined and the arc has residual capacity left.
pub open spec fn res_step(caps: Seq<FlowArc>, flows: Seq<FlowArc>, u: int, v: int) -> bool {
    linked(caps, u, v) && residual(caps, flows, u, v) > 0
}

/// A walk from the source (node 0) along residual steps.
pub open spec fn res_path(caps: Seq<FlowArc>, flows: Seq<FlowArc>, p: Seq<int>) -> bool {
    &&& p.len() >= 1
    &&& p[0] == 0
    &&& forall|i: int| 0 <= i < p.len() - 1 ==> #[trigger] res_step(caps, flows, p[i], p[i + 1])
}

/// Node `v` is reachable from the source in the residual network.
pub open spec fn res_reachable(caps: Seq<FlowArc>, flows: Seq<FlowArc>, v: int) -> bool {
    exists|p: Seq<int>| #[trigger] res_path(caps, flows, p) && p.last() == v
}

/// The hash-map key of the arc `(u, v)`.
pub open spec fn arc_key(u: int, v: int) -> int {
    u * 0x1_0000_0000_0000_0000 + v
}

/// Distinct arcs have distinct keys.
proof fn lemma_arc_key(u: usize, v: usize, a: usize, b: usize)
    requires
        arc_key(u as int, v as int) == arc_key(a as int, b as int),
    ensures
        u == a && v == b,
{
    assert(usize::MAX < 0x1_0000_0000_0000_0000);
    vstd::arithmetic::div_mod::lemma_fundamental_div_mod_converse(arc_key(u as int, v as int), 0x1_0000_0000_0000_0000, u as int, v as int);
    vstd::arithmetic::div_mod::lemma_fundamental_div_mod_converse(arc_key(a as int, b as int), 0x1_0000_0000_0000_0000, a as int, b as int);
}

fn key_of(u: usize, v: usize) -> (k: u128)
    ensures
        k == arc_key(u as int, v as int),
{
    assert(usize::MAX < 0x1_0000_0000_0000_0000);
    (u as u128) * 0x1_0000_0000_0000_0000 + (v as u128)
}

/// The value a map holds under `k`, or 0.
pub open spec fn lookup(m: Map<u128, i128>, k: int) -> int {
    if m.contains_key(k as u128) {
        m[k as u128] as int
    } else {
        0
    }
}

/// The entries of `es` summed per arc, keyed by [`arc_key`].
fn arc_sums(es: &[FlowArc]) -> (m: HashMap<u128, i128>)
    requires
        forall|e: int| 0 <= e < es@.len() ==> (#[trigger] es@[e]).1 >= 0,
    ensures
        forall|u: usize, v: usize| #[trigger] lookup(m@, arc_key(u as int, v as int)) == arc_sum(es@, u as int, v as int),
        forall|u: usize, v: usize| 0 <= #[trigger] arc_sum(es@, u as int, v as int) <= es@.len() * 0x8000_0000_0000_0000,
{
    let mut m: HashMap<u128, i128> = HashMap::new();
    let mut k: usize = 0;
    while k < es.len()
        invariant
            k <= es@.len(),
            forall|e: int| 0 <= e < es@.len() ==> (#[trigger] es@[e]).1 >= 0,
            forall|u: usize, v: usize| #[trigger] lookup(m@, arc_key(u as int, v as int)) == arc_sum(es@.take(k as int), u as int, v as int),
            forall|u: usize, v: usize| 0 <= #[trigger] arc_sum(es@.take(k as int), u as int, v as int) <= k * 0x8000_0000_0000_0000,
            forall|q: u128| #[trigger] m@.contains_key(q) ==> exists|u: usize, v: usize| q == arc_key(u as int, v as int),
        decreases es@.len() - k,
    {
        let ((a, b), c) = es[k];
        let key = key_of(a, b);
        let ghost pre = es@.take(k as int);
        let ghost post = es@.take(k + 1);
        assert(post.drop_last() =~= pre);
        assert(arc_sum(pre, a as int, b as int) <= k * 0x8000_0000_0000_0000);
        assert(lookup(m@, arc_key(a as int, b as int)) == arc_sum(pre, a as int, b as int));
        let cur: i128 = match m.get(&key) {
            Some(x) => *x,
            None => 0,
        };
        assert(cur == arc_sum(pre, a as int, b as int));
        assert(k * 0x8000_0000_0000_0000 + 0x8000_0000_0000_0000 <= usize::MAX * 0x8000_0000_0000_0000 + 0x8000_0000_0000_0000);
        let ghost m0 = m@;
        m.insert(key, cur + c as i128);
        proof {
            assert(post.last() == es@[k as int]);
            assert forall|u: usize, v: usize| #[trigger] lookup(m@, arc_key(u as int, v as int)) == arc_sum(post, u as int, v as int) by {
                assert(lookup(m0, arc_key(u as int, v as int)) == arc_sum(pre, u as int, v as int));
                assert(arc_key(u as int, v as int) < 0x1_0000_0000_0000_0000_0000_0000_0000_0000) by {
                    assert(u <= usize::MAX && v <= usize::MAX);
                    assert(usize::MAX < 0x1_0000_0000_0000_0000);
                    assert(u * 0x1_0000_0000_0000_0000 <= (0x1_0000_0000_0000_0000 - 1) * 0x1_0000_0000_0000_0000);
                }
                if u == a && v == b {
                } else {
                    if arc_key(u as int, v as int) == arc_key(a as int, b as int) {
                        lemma_arc_key(u, v, a, b);
                    }
                }
            }
            assert forall|u: usize, v: usize| 0 <= #[trigger] arc_sum(post, u as int, v as int) <= (k + 1) * 0x8000_0000_0000_0000 by {
                assert(arc_sum(pre, u as int, v as int) <= k * 0x8000_0000_0000_0000);
            }
            assert forall|q: u128| #[trigger] m@.contains_key(q) implies exists|u: usize, v: usize| q == arc_key(u as int, v as int) by {
                if q != key {
                }
            }
        }
        k = k + 1;
    }
    assert(es@.take(es@.len() as int) =~= es@);
    m
}

/// For each node below `n`, the nodes a capacity entry joins it to, in entry order.
fn adjacency(n: usize, caps: &[FlowArc]) -> (adj: Vec<Vec<usize>>)
    requires
        forall|e: int| 0 <= e < caps@.len() ==> (#[trigger] caps@[e]).0.0 < n && caps@[e].0.1 < n,
    ensures
        adj@.len() == n,
        forall|u: int, j: int|
            0 <= u < n && 0 <= j < adj@[u]@.len() ==> #[trigger] adj@[u]@[j] < n && linked(caps@, u, adj@[u]@[j] as int),
        forall|u: int, v: int| 0 <= u < n && 0 <= v < n && #[trigger] linked(caps@, u, v) ==> adj@[u]@.contains(v as usize),
{
    let mut adj: Vec<Vec<usize>> = Vec::new();
    let mut i: usize = 0;
    while i < n
        invariant
            i <= n,
            adj@.len() == i,
            forall|u: int| 0 <= u < i ==> (#[trigger] adj@[u])@.len() == 0,
        decreases n - i,
    {
        adj.push(Vec::new());
        i = i + 1;
    }
    let mut e: usize = 0;
    while e < caps.len()
        invariant
            e <= caps@.len(),
            adj@.len() == n,
            forall|f: int| 0 <= f < caps@.len() ==> (#[trigger] caps@[f]).0.0 < n && caps@[f].0.1 < n,
            forall|u: int, j: int|
                0 <= u < n && 0 <= j < adj@[u]@.len() ==> #[trigger] adj@[u]@[j] < n && linked(caps@, u, adj@[u]@[j] as int),
            forall|f: int, u: int, v: int|
                0 <= f < e && #[trigger] joins(caps@[f], u, v) ==> adj@[u]@.contains(v as usize),
        decreases caps@.len() - e,
    {
        let ((a, b), _c) = caps[e];
        let ghost a0 = adj@;
        adj[a].push(b);
        let ghost a1 = adj@;
        adj[b].push(a);
        proof {
            assert(joins(caps@[e as int], a as int, b as int));
            assert(joins(caps@[e as int], b as int, a as int));
            assert(linked(caps@, a as int, b as int));
            assert(linked(caps@, b as int, a as int));
            assert forall|u: int, j: int|
                0 <= u < n && 0 <= j < adj@[u]@.len() implies #[trigger] adj@[u]@[j] < n && linked(caps@, u, adj@[u]@[j] as int) by {
                if u == b as int {
                    if j < a1[u]@.len() {
                        assert(adj@[u]@[j] == a1[u]@[j]);
                    }
                }
                if u != b as int || j < a1[u]@.len() {
                    assert(adj@[u]@[j] == a1[u]@[j]);
                    if u == a as int && j < a0[u]@.len() {
                        assert(a1[u]@[j] == a0[u]@[j]);
                    }
                    if u != a as int {
                        assert(a1[u]@[j] == a0[u]@[j]);
                    }
                }
            }
            assert forall|f: int, u: int, v: int| 0 <= f < e + 1 && #[trigger] joins(caps@[f], u, v) implies adj@[u]@.contains(
                v as usize,
            ) by {
                if f < e {
                    assert(a0[u]@.contains(v as usize));
                    let j = choose|j: int| 0 <= j < a0[u]@.len() && a0[u]@[j] == v as usize;
                    assert(a1[u]@[j] == v as usize);
                    assert(adj@[u]@[j] == v as usize);
                } else {
                    if u == a as int && v == b as int {
                        let j = a1[u]@.len() - 1;
                        assert(a1[u]@[j] == v as usize);
                        assert(adj@[u]@[j] == v as usize);
                    } else {
                        let j = adj@[u]@.len() - 1;
                        assert(adj@[u]@[j] == v as usize);
                    }
                }
            }
        }
        e = e + 1;
    }
    adj
}

/// How many entries are `true`.
pub open spec fn count_true(s: Seq<bool>) -> int
    decreases s.len(),
{
    if s.len() == 0 {
        0
    } else {
        count_true(s.drop_last()) + if s.last() { 1int } else { 0int }
    }
}

proof fn lemma_count_true_bound(s: Seq<bool>)
    ensures
        0 <= count_true(s) <= s.len(),
    decreases s.len(),
{
    if s.len() > 0 {
        lemma_count_true_bound(s.drop_last());
    }
}

proof fn lemma_count_true_set(s: Seq<bool>, i: int)
    requires
        0 <= i < s.len(),
        !s[i],
    ensures
        count_true(s.update(i, true)) == count_true(s) + 1,
    decreases s.len(),
{
    let t = s.update(i, true);
    if i == s.len() - 1 {
        assert(t.drop_last() =~= s.drop_last());
    } else {
        assert(t.drop_last() =~= s.drop_last().update(i, true));
        lemma_count_true_set(s.drop_last(), i);
    }
}

/// The total a map of [`arc_sums`] holds for the arc `(u, v)`.
fn sum_at(m: &HashMap<u128, i128>, u: usize, v: usize) -> (r: i128)
    ensures
        r == lookup(m@, arc_key(u as int, v as int)),
{
    let k = key_of(u, v);
    match m.get(&k) {
        Some(x) => *x,
        None => 0,
    }
}

/// Every node on a residual walk is joined to the one before it, so lies below `n`.
proof fn lemma_path_in_range(caps: Seq<FlowArc>, flows: Seq<FlowArc>, p: Seq<int>, n: int, i: int)
    requires
        forall|e: int| 0 <= e < caps.len() ==> (#[trigger] caps[e]).0.0 < n && caps[e].0.1 < n,
        0 < n,
        res_path(caps, flows, p),
        0 <= i < p.len(),
    ensures
        0 <= p[i] < n,
{
    if i > 0 {
        let k = i - 1;
        assert(res_step(caps, flows, p[k], p[k + 1]));
        let e = choose|e: int| 0 <= e < caps.len() && #[trigger] joins(caps[e], p[i - 1], p[i]);
        assert(caps[e].0.0 < n && caps[e].0.1 < n);
    }
}

/// A set of nodes that holds the source and is closed under residual steps holds every node of
/// every residual walk.
proof fn lemma_closed_holds_paths(caps: Seq<FlowArc>, flows: Seq<FlowArc>, seen: Seq<bool>, p: Seq<int>, i: int)
    requires
        forall|e: int| 0 <= e < caps.len() ==> (#[trigger] caps[e]).0.0 < seen.len() && caps[e].0.1 < seen.len(),
        0 < seen.len(),
        seen[0],
        forall|u: int, v: int| 0 <= u < seen.len() && 0 <= v < seen.len() && seen[u] && #[trigger] res_step(caps, flows, u, v) ==> seen[v],
        res_path(caps, flows, p),
        0 <= i < p.len(),
    ensures
        seen[p[i]],
    decreases i,
{
    if i > 0 {
        lemma_closed_holds_paths(caps, flows, seen, p, i - 1);
        lemma_path_in_range(caps, flows, p, seen.len() as int, i - 1);
        lemma_path_in_range(caps, flows, p, seen.len() as int, i);
        let k = i - 1;
        assert(res_step(caps, flows, p[k], p[k + 1]));
    }
}

/// The nodes reachable from the source (node 0) in the residual network of capacities `caps`
/// under `flows`: a breadth-first search along arcs with residual capacity left.
pub fn residual_reach(n: usize, caps: &[FlowArc], flows: &[FlowArc]) -> (seen: Vec<bool>)
    requires
        n >= 1,
        forall|e: int| 0 <= e < caps@.len() ==> (#[trigger] caps@[e]).0.0 < n && caps@[e].0.1 < n,
        forall|e: int| 0 <= e < caps@.len() ==> (#[trigger] caps@[e]).1 >= 0,
        forall|e: int| 0 <= e < flows@.len() ==> (#[trigger] flows@[e]).1 >= 0,
    ensures
        seen@.len() == n,
        forall|v: int| 0 <= v < n ==> (#[trigger] seen@[v] <==> res_reachable(caps@, flows@, v)),
{
    let cm = arc_sums(caps);
    let fm = arc_sums(flows);
    let adj = adjacency(n, caps);
    let mut seen: Vec<bool> = Vec::new();
    let mut i: usize = 0;
    while i < n
        invariant
            i <= n,
            seen@.len() == i,
            forall|v: int| 0 <= v < i ==> !(#[trigger] seen@[v]),
        decreases n - i,
    {
        seen.push(false);
        i = i + 1;
    }
    proof {
        assert(count_true(seen@) == 0) by {
            assert(seen@ =~= Seq::new(n as nat, |v: int| false));
            lemma_count_false(n as nat);
        }
        lemma_count_true_set(seen@, 0);
    }
    seen.set(0, true);
    let mut queue: Vec<usize> = Vec::new();
    queue.push(0);
    let ghost mut paths: Map<int, Seq<int>> = Map::empty().insert(0, seq![0int]);
    assert(res_path(caps@, flows@, seq![0int]));
    assert(queue@[0] == 0usize);
    assert forall|v: int| 0 <= v < n && #[trigger] seen@[v] implies queue@.contains(v as usize) && v == 0 by {
        if v != 0 {
            assert(!seen@[v]);
        }
    }
    let mut head: usize = 0;
    while head < queue.len()
        invariant
            seen@.len() == n,
            adj@.len() == n,
            forall|u: int, j: int|
                0 <= u < n && 0 <= j < adj@[u]@.len() ==> #[trigger] adj@[u]@[j] < n && linked(caps@, u, adj@[u]@[j] as int),
            forall|u: int, v: int| 0 <= u < n && 0 <= v < n && #[trigger] linked(caps@, u, v) ==> adj@[u]@.contains(v as usize),
            forall|u: usize, v: usize| #[trigger] lookup(cm@, arc_key(u as int, v as int)) == arc_sum(caps@, u as int, v as int),
            forall|u: usize, v: usize| 0 <= #[trigger] arc_sum(caps@, u as int, v as int) <= caps@.len() * 0x8000_0000_0000_0000,
            forall|u: usize, v: usize| #[trigger] lookup(fm@, arc_key(u as int, v as int)) == arc_sum(flows@, u as int, v as int),
            forall|u: usize, v: usize| 0 <= #[trigger] arc_sum(flows@, u as int, v as int) <= flows@.len() * 0x8000_0000_0000_0000,
            head <= queue@.len(),
            queue@.len() == count_true(seen@),
            seen@[0],
            forall|i: int| 0 <= i < queue@.len() ==> #[trigger] queue@[i] < n && seen@[queue@[i] as int],
            forall|v: int| 0 <= v < n && #[trigger] seen@[v] ==> queue@.contains(v as usize),
            forall|i: int, v: int|
                0 <= i < head && 0 <= v < n && #[trigger] res_step(caps@, flows@, queue@[i] as int, v) ==> seen@[v],
            forall|v: int|
                0 <= v < n && #[trigger] seen@[v] ==> paths.contains_key(v) && res_path(caps@, flows@, paths[v])
                    && paths[v].last() == v,
        decreases n - head,
    {
        proof {
            lemma_count_true_bound(seen@);
        }
        let u = queue[head];
        let row = &adj[u];
        let ghost seen0 = seen@;
        let mut j: usize = 0;
        while j < row.len()
            invariant
                u < n,
                seen@.len() == n,
                adj@.len() == n,
                row@ == adj@[u as int]@,
                forall|jj: int| 0 <= jj < row@.len() ==> #[trigger] row@[jj] < n && linked(caps@, u as int, row@[jj] as int),
                forall|u: usize, v: usize| #[trigger] lookup(cm@, arc_key(u as int, v as int)) == arc_sum(caps@, u as int, v as int),
                forall|u: usize, v: usize| 0 <= #[trigger] arc_sum(caps@, u as int, v as int) <= caps@.len() * 0x8000_0000_0000_0000,
                forall|u: usize, v: usize| #[trigger] lookup(fm@, arc_key(u as int, v as int)) == arc_sum(flows@, u as int, v as int),
                forall|u: usize, v: usize| 0 <= #[trigger] arc_sum(flows@, u as int, v as int) <= flows@.len() * 0x8000_0000_0000_0000,
                head < queue@.len(),
                queue@[head as int] == u,
                queue@.len() == count_true(seen@),
                seen@[0],
                seen@[u as int],
                forall|v: int| 0 <= v < n && seen0[v] ==> #[trigger] seen@[v],
                forall|i: int| 0 <= i < queue@.len() ==> #[trigger] queue@[i] < n && seen@[queue@[i] as int],
                forall|v: int| 0 <= v < n && #[trigger] seen@[v] ==> queue@.contains(v as usize),
                forall|i: int, v: int|
                    0 <= i < head && 0 <= v < n && #[trigger] res_step(caps@, flows@, queue@[i] as int, v) ==> seen@[v],
                forall|jj: int| 0 <= jj < j && #[trigger] res_step(caps@, flows@, u as int, row@[jj] as int) ==> seen@[row@[jj] as int],
                forall|v: int|
                    0 <= v < n && #[trigger] seen@[v] ==> paths.contains_key(v) && res_path(caps@, flows@, paths[v])
                        && paths[v].last() == v,
            decreases row@.len() - j,
        {
            let v = row[j];
            if !seen[v] {
                let a = sum_at(&cm, u, v);
                let b = sum_at(&fm, u, v);
                let c = sum_at(&fm, v, u);
                assert(usize::MAX < 0x1_0000_0000_0000_0000);
                if a - b > -c {
                    proof {
                        lemma_count_true_set(seen@, v as int);
                        lemma_count_true_bound(seen@);
                        let p = paths[u as int];
                        let q = p.push(v as int);
                        assert(res_step(caps@, flows@, u as int, v as int));
                        assert forall|i: int| 0 <= i < q.len() - 1 implies #[trigger] res_step(caps@, flows@, q[i], q[i + 1]) by {
                            if i < p.len() - 1 {
                                assert(q[i] == p[i] && q[i + 1] == p[i + 1]);
                                assert(res_step(caps@, flows@, p[i], p[i + 1]));
                            }
                        }
                        paths = paths.insert(v as int, q);
                    }
                    let ghost qs = queue@;
                    seen.set(v, true);
                    queue.push(v);
                    proof {
                        assert forall|w: int| 0 <= w < n && #[trigger] seen@[w] implies queue@.contains(w as usize) by {
                            if w == v as int {
                                assert(queue@[queue@.len() - 1] == v);
                            } else {
                                assert(qs.contains(w as usize));
                                let k = choose|k: int| 0 <= k < qs.len() && qs[k] == w as usize;
                                assert(queue@[k] == w as usize);
                            }
                        }
                    }
                }
            }
            j = j + 1;
        }
        proof {
            assert forall|w: int| 0 <= w < n && #[trigger] res_step(caps@, flows@, u as int, w) implies seen@[w] by {
                assert(row@.contains(w as usize));
                let jj = choose|jj: int| 0 <= jj < row@.len() && row@[jj] == w as usize;
                assert(res_step(caps@, flows@, u as int, row@[jj] as int));
            }
        }
        head = head + 1;
    }
    proof {
        assert forall|x: int, y: int|
            0 <= x < seen@.len() && 0 <= y < seen@.len() && seen@[x] && #[trigger] res_step(caps@, flows@, x, y) implies seen@[y] by {
            assert(queue@.contains(x as usize));
            let i = choose|i: int| 0 <= i < queue@.len() && queue@[i] == x as usize;
            assert(res_step(caps@, flows@, queue@[i] as int, y));
        }
        assert forall|v: int| 0 <= v < n implies (#[trigger] seen@[v] <==> res_reachable(caps@, flows@, v)) by {
            if seen@[v] {
                assert(res_path(caps@, flows@, paths[v]));
            }
            if res_reachable(caps@, flows@, v) {
                let p = choose|p: Seq<int>| #[trigger] res_path(caps@, flows@, p) && p.last() == v;
                lemma_closed_holds_paths(caps@, flows@, seen@, p, p.len() - 1);
            }
        }
    }
    seen
}

proof fn lemma_count_false(n: nat)
    ensures
        count_true(Seq::new(n, |v: int| false)) == 0,
    decreases n,
{
    if n > 0 {
        assert(Seq::new(n, |v: int| false).drop_last() =~= Seq::new((n - 1) as nat, |v: int| false));
        lemma_count_false((n - 1) as nat);
    }
}

// ── The overlap grid as a flow network ───────────────────────────────────────────────────────

/// Which of the pair's frames cover a cell of the coarsened overlap grid.
#[derive(Debug, Clone, Copy, PartialEq, Eq, Structural)]
pub enum Cell {
    /// Only frame `i`: forced to the source side.
    IOnly,
    /// Only frame `j`: forced to the sink side.
    JOnly,
    /// Both frames: a node the cut may give to either side.
    Both,
    /// Neither frame: not part of the pair.
    Neither,
}

/// The capacity that stands for "unbounded" on a terminal link.
pub const CUT_INF: i64 = 2305843009213693951;

/// The coarsened overlap grid of a graph-cut seam, row by row: each cell's coverage class, whether
/// a probe beyond the rectangle's edge next to it found frame `i` alone (`probe_i`) or frame `j`
/// alone (`probe_j`), and the capacities of its links to the right and down neighbours (the
/// quantized colour disagreement of the two frames there, used where both cells are `Both`).
pub struct CutGrid {
    pub gw: usize,
    pub gh: usize,
    pub cells: Vec<Cell>,
    pub probe_i: Vec<bool>,
    pub probe_j: Vec<bool>,
    pub right: Vec<i64>,
    pub down: Vec<i64>,
}

impl CutGrid {
    /// Every per-cell list covers the grid, and capacities are not negative.
    pub open spec fn wf(&self) -> bool {
        &&& self.cells@.len() == self.gw * self.gh
        &&& self.probe_i@.len() == self.gw * self.gh
        &&& self.probe_j@.len() == self.gw * self.gh
        &&& self.right@.len() == self.gw * self.gh
        &&& self.down@.len() == self.gw * self.gh
        &&& forall|g: int| 0 <= g < self.gw * self.gh ==> (#[trigger] self.right@[g]) >= 0 && self.down@[g] >= 0
    }

    /// Some neighbour of cell `(gx, gy)` has class `c`.
    pub open spec fn neighbour_is(&self, gx: int, gy: int, c: Cell) -> bool {
        let nb = crate::seam::neighbours(gx, gy, self.gw as int, self.gh as int);
        exists|k: int| 0 <= k < nb.len() && self.cells@[nb[k].1 * self.gw + nb[k].0] == c
    }

    /// The link from the source to the node of cell `(gx, gy)` (node `2 + g` for cell `g`), when
    /// it borders a frame-`i`-only region.
    pub open spec fn source_arcs(&self, gx: int, gy: int) -> Seq<FlowArc> {
        let g = gy * self.gw + gx;
        if self.neighbour_is(gx, gy, Cell::IOnly) || self.probe_i@[g] {
            seq![((0usize, (2 + g) as usize), CUT_INF)]
        } else {
            Seq::empty()
        }
    }

    /// The link from the node of cell `(gx, gy)` to the sink, when it borders a frame-`j`-only
    /// region.
    pub open spec fn sink_arcs(&self, gx: int, gy: int) -> Seq<FlowArc> {
        let g = gy * self.gw + gx;
        if self.neighbour_is(gx, gy, Cell::JOnly) || self.probe_j@[g] {
            seq![(((2 + g) as usize, 1usize), CUT_INF)]
        } else {
            Seq::empty()
        }
    }

    /// Both directions of the link to the right neighbour, when that is `Both`.
    pub open spec fn right_arcs(&self, gx: int, gy: int) -> Seq<FlowArc> {
        let g = gy * self.gw + gx;
        if gx + 1 < self.gw && self.cells@[g + 1] == Cell::Both {
            seq![(((2 + g) as usize, (3 + g) as usize), self.right@[g]), (((3 + g) as usize, (2 + g) as usize), self.right@[g])]
        } else {
            Seq::empty()
        }
    }

    /// Both directions of the link to the neighbour below, when that is `Both`.
    pub open spec fn down_arcs(&self, gx: int, gy: int) -> Seq<FlowArc> {
        let g = gy * self.gw + gx;
        let h = g + self.gw;
        if gy + 1 < self.gh && self.cells@[h] == Cell::Both {
            seq![(((2 + g) as usize, (2 + h) as usize), self.down@[g]), (((2 + h) as usize, (2 + g) as usize), self.down@[g])]
        } else {
            Seq::empty()
        }
    }

    /// The arcs cell `(gx, gy)` adds: none unless it is `Both`; then its terminal links and both
    /// directions of its links to the right and down `Both` neighbours.
    pub open spec fn cell_arcs(&self, gx: int, gy: int) -> Seq<FlowArc> {
        if self.cells@[gy * self.gw + gx] != Cell::Both {
            Seq::empty()
        } else {
            self.source_arcs(gx, gy) + self.sink_arcs(gx, gy) + self.right_arcs(gx, gy) + self.down_arcs(gx, gy)
        }
    }

    /// The arcs of the first `m` cells, in row order.
    pub open spec fn arcs_upto(&self, m: nat) -> Seq<FlowArc>
        decreases m,
    {
        if m == 0 || self.gw == 0 {
            Seq::empty()
        } else {
            let g = m - 1;
            self.arcs_upto((m - 1) as nat) + self.cell_arcs(g % self.gw as int, g / self.gw as int)
        }
    }

    /// The nodes of the first `m` cells: the source and the sink, then each `Both` cell's node.
    pub open spec fn nodes_upto(&self, m: nat) -> Seq<usize>
        decreases m,
    {
        if m == 0 {
            seq![0usize, 1usize]
        } else {
            let g = m - 1;
            let p = self.nodes_upto((m - 1) as nat);
            if self.cells@[g] == Cell::Both {
                p.push((2 + g) as usize)
            } else {
                p
            }
        }
    }
}

/// Cell `(gx, gy)` of a `gw`-wide grid, stored row by row.
proof fn lemma_cell_index(gw: int, gh: int, gx: int, gy: int)
    requires
        0 <= gx < gw,
        0 <= gy < gh,
    ensures
        0 <= gy * gw + gx < gw * gh,
        (gy * gw + gx) % gw == gx,
        (gy * gw + gx) / gw == gy,
        (gy + 1) * gw == gy * gw + gw,
{
    assert(0 <= gy * gw + gx < gw * gh && (gy + 1) * gw == gy * gw + gw) by (nonlinear_arith)
        requires
            0 <= gx < gw,
            0 <= gy < gh,
    ;
    vstd::arithmetic::div_mod::lemma_fundamental_div_mod_converse(gy * gw + gx, gw, gy, gx);
}

/// Whether some neighbour of cell `(gx, gy)` has class `c`.
fn borders(grid: &CutGrid, gx: usize, gy: usize, c: Cell) -> (r: bool)
    requires
        grid.wf(),
        grid.gw * grid.gh + 2 <= usize::MAX,
        gx < grid.gw,
        gy < grid.gh,
    ensures
        r == grid.neighbour_is(gx as int, gy as int, c),
{
    let gw = grid.gw;
    let gh = grid.gh;
    let nb = crate::seam::neigh(gx, gy, gw, gh);
    let mut k: usize = 0;
    while k < nb.len()
        invariant
            grid.wf(),
            gw == grid.gw,
            gh == grid.gh,
            gw * gh + 2 <= usize::MAX,
            nb@ == crate::seam::neighbours(gx as int, gy as int, gw as int, gh as int),
            forall|q: int| 0 <= q < nb@.len() ==> (#[trigger] nb@[q]).0 < gw && nb@[q].1 < gh,
            k <= nb@.len(),
            forall|q: int| 0 <= q < k ==> grid.cells@[(#[trigger] nb@[q]).1 * gw + nb@[q].0] != c,
        decreases nb@.len() - k,
    {
        let (nx, ny) = nb[k];
        proof {
            lemma_cell_index(gw as int, gh as int, nx as int, ny as int);
        }
        if grid.cells[ny * gw + nx] == c {
            return true;
        }
        k = k + 1;
    }
    false
}

/// Adds the terminal links of `Both` cell `(gx, gy)`.
fn push_terminals(grid: &CutGrid, gx: usize, gy: usize, caps: &mut Vec<FlowArc>)
    requires
        grid.wf(),
        grid.gw * grid.gh + 2 <= usize::MAX,
        gx < grid.gw,
        gy < grid.gh,
    ensures
        final(caps)@ == old(caps)@ + grid.source_arcs(gx as int, gy as int) + grid.sink_arcs(gx as int, gy as int),
{
    proof {
        lemma_cell_index(grid.gw as int, grid.gh as int, gx as int, gy as int);
    }
    let g = gy * grid.gw + gx;
    let node = 2 + g;
    let to_src = borders(grid, gx, gy, Cell::IOnly) || grid.probe_i[g];
    let to_snk = borders(grid, gx, gy, Cell::JOnly) || grid.probe_j[g];
    let ghost c0 = caps@;
    if to_src {
        caps.push(((0, node), CUT_INF));
    }
    assert(caps@ =~= c0 + grid.source_arcs(gx as int, gy as int));
    let ghost c1 = caps@;
    if to_snk {
        caps.push(((node, 1), CUT_INF));
    }
    assert(caps@ =~= c1 + grid.sink_arcs(gx as int, gy as int));
}

/// Adds the links of `Both` cell `(gx, gy)` to its right and down `Both` neighbours.
fn push_links(grid: &CutGrid, gx: usize, gy: usize, caps: &mut Vec<FlowArc>)
    requires
        grid.wf(),
        grid.gw * grid.gh + 2 <= usize::MAX,
        gx < grid.gw,
        gy < grid.gh,
    ensures
        final(caps)@ == old(caps)@ + grid.right_arcs(gx as int, gy as int) + grid.down_arcs(gx as int, gy as int),
{
    let gw = grid.gw;
    let gh = grid.gh;
    proof {
        lemma_cell_index(gw as int, gh as int, gx as int, gy as int);
    }
    let g = gy * gw + gx;
    let node = 2 + g;
    let ghost c0 = caps@;
    if gx + 1 < gw {
        proof {
            lemma_cell_index(gw as int, gh as int, (gx + 1) as int, gy as int);
        }
        if grid.cells[g + 1] == Cell::Both {
            let c = grid.right[g];
            caps.push(((node, node + 1), c));
            caps.push(((node + 1, node), c));
        }
    }
    assert(caps@ =~= c0 + grid.right_arcs(gx as int, gy as int));
    let ghost c1 = caps@;
    if gy + 1 < gh {
        proof {
            lemma_cell_index(gw as int, gh as int, gx as int, (gy + 1) as int);
        }
        if grid.cells[g + gw] == Cell::Both {
            let c = grid.down[g];
            caps.push(((node, node + gw), c));
            caps.push(((node + gw, node), c));
        }
    }
    assert(caps@ =~= c1 + grid.down_arcs(gx as int, gy as int));
}

/// Adds the node and the arcs of cell `(gx, gy)` ([`CutGrid::cell_arcs`]).
fn push_cell(grid: &CutGrid, gx: usize, gy: usize, vertices: &mut Vec<usize>, caps: &mut Vec<FlowArc>)
    requires
        grid.wf(),
        grid.gw * grid.gh + 2 <= usize::MAX,
        gx < grid.gw,
        gy < grid.gh,
    ensures
        final(caps)@ == old(caps)@ + grid.cell_arcs(gx as int, gy as int),
        final(vertices)@ == if grid.cells@[gy * grid.gw + gx] == Cell::Both {
            old(vertices)@.push((2 + gy * grid.gw + gx) as usize)
        } else {
            old(vertices)@
        },
{
    proof {
        lemma_cell_index(grid.gw as int, grid.gh as int, gx as int, gy as int);
    }
    let g = gy * grid.gw + gx;
    let ghost before = caps@;
    if grid.cells[g] == Cell::Both {
        vertices.push(2 + g);
        push_terminals(grid, gx, gy, caps);
        push_links(grid, gx, gy, caps);
    }
    assert(caps@ =~= before + grid.cell_arcs(gx as int, gy as int));
}

/// The flow network of the grid: its nodes and its arcs ([`CutGrid::nodes_upto`],
/// [`CutGrid::arcs_upto`] over the whole grid).
pub fn cut_network(grid: &CutGrid) -> (net: (Vec<usize>, Vec<FlowArc>))
    requires
        grid.wf(),
        grid.gw * grid.gh + 2 <= usize::MAX,
    ensures
        net.0@ == grid.nodes_upto((grid.gw * grid.gh) as nat),
        net.1@ == grid.arcs_upto((grid.gw * grid.gh) as nat),
{
    let gw = grid.gw;
    let gh = grid.gh;
    let mut vertices: Vec<usize> = Vec::new();
    vertices.push(0);
    vertices.push(1);
    let mut caps: Vec<FlowArc> = Vec::new();
    assert(vertices@ =~= grid.nodes_upto(0));
    if gw == 0 {
        assert(gw * gh == 0) by (nonlinear_arith)
            requires
                gw == 0,
        ;
        return (vertices, caps);
    }
    let mut gy: usize = 0;
    while gy < gh
        invariant
            grid.wf(),
            gw == grid.gw,
            gh == grid.gh,
            gw > 0,
            gw * gh + 2 <= usize::MAX,
            gy <= gh,
            vertices@ == grid.nodes_upto((gy * gw) as nat),
            caps@ == grid.arcs_upto((gy * gw) as nat),
        decreases gh - gy,
    {
        let mut gx: usize = 0;
        while gx < gw
            invariant
                grid.wf(),
                gw == grid.gw,
                gh == grid.gh,
                gw > 0,
                gw * gh + 2 <= usize::MAX,
                gy < gh,
                gx <= gw,
                vertices@ == grid.nodes_upto((gy * gw + gx) as nat),
                caps@ == grid.arcs_upto((gy * gw + gx) as nat),
            decreases gw - gx,
        {
            proof {
                lemma_cell_index(gw as int, gh as int, gx as int, gy as int);
            }
            push_cell(grid, gx, gy, &mut vertices, &mut caps);
            gx = gx + 1;
        }
        proof {
            lemma_cell_index(gw as int, gh as int, 0, gy as int);
        }
        gy = gy + 1;
    }
    assert(gh * gw == gw * gh) by (nonlinear_arith);
    (vertices, caps)
}

/// A node of the network: the source, the sink, or the node `2 + g` of a `Both` cell `g`.
pub open spec fn is_node(grid: &CutGrid, x: int) -> bool {
    x == 0 || x == 1 || (2 <= x < 2 + grid.gw * grid.gh && grid.cells@[x - 2] == Cell::Both)
}

/// The arc joins two nodes of the network and its capacity is not negative.
pub open spec fn arc_ok(grid: &CutGrid, a: FlowArc) -> bool {
    is_node(grid, a.0.0 as int) && is_node(grid, a.0.1 as int) && a.1 >= 0
}

/// Every arc of `s` is [`arc_ok`].
pub open spec fn arcs_ok(grid: &CutGrid, s: Seq<FlowArc>) -> bool {
    forall|e: int| 0 <= e < s.len() ==> arc_ok(grid, #[trigger] s[e])
}

proof fn lemma_arcs_ok_concat(grid: &CutGrid, a: Seq<FlowArc>, b: Seq<FlowArc>)
    requires
        arcs_ok(grid, a),
        arcs_ok(grid, b),
    ensures
        arcs_ok(grid, a + b),
{
    assert forall|e: int| 0 <= e < (a + b).len() implies arc_ok(grid, #[trigger] (a + b)[e]) by {
        if e < a.len() {
            assert((a + b)[e] == a[e]);
        } else {
            assert((a + b)[e] == b[e - a.len()]);
        }
    }
}

/// The arcs of the first `m` cells join nodes of the network, with capacities that are not
/// negative.
proof fn lemma_arcs_nodes(grid: &CutGrid, m: nat)
    requires
        grid.wf(),
        grid.gw * grid.gh + 2 <= usize::MAX,
        m <= grid.gw * grid.gh,
    ensures
        arcs_ok(grid, grid.arcs_upto(m)),
    decreases m,
{
    if m > 0 && grid.gw > 0 {
        lemma_arcs_nodes(grid, (m - 1) as nat);
        let gw = grid.gw as int;
        let gh = grid.gh as int;
        let g = m - 1;
        let gx = g % gw;
        let gy = g / gw;
        vstd::arithmetic::div_mod::lemma_fundamental_div_mod(g, gw);
        assert(0 <= gx < gw);
        assert(gy * gw + gx == g && gy >= 0 && gy < gh) by (nonlinear_arith)
            requires
                g == gw * gy + gx,
                0 <= gx < gw,
                0 <= g < gw * gh,
        ;
        lemma_cell_index(gw, gh, gx, gy);
        if gx + 1 < gw {
            lemma_cell_index(gw, gh, gx + 1, gy);
        }
        if gy + 1 < gh {
            lemma_cell_index(gw, gh, gx, gy + 1);
        }
        assert(grid.right@[g] >= 0 && grid.down@[g] >= 0);
        let s1 = grid.source_arcs(gx, gy);
        let s2 = grid.sink_arcs(gx, gy);
        let s3 = grid.right_arcs(gx, gy);
        let s4 = grid.down_arcs(gx, gy);
        if grid.cells@[g] == Cell::Both {
            assert(arcs_ok(grid, s1));
            assert(arcs_ok(grid, s2));
            assert(arcs_ok(grid, s3));
            assert(arcs_ok(grid, s4));
            lemma_arcs_ok_concat(grid, s1, s2);
            lemma_arcs_ok_concat(grid, s1 + s2, s3);
            lemma_arcs_ok_concat(grid, s1 + s2 + s3, s4);
        }
        assert(arcs_ok(grid, grid.cell_arcs(gx, gy)));
        lemma_arcs_ok_concat(grid, grid.arcs_upto((m - 1) as nat), grid.cell_arcs(gx, gy));
    }
}

/// The nodes of the first `m` cells hold the source, the sink and the node of every `Both` cell
/// among them, and nothing else.
proof fn lemma_nodes_upto(grid: &CutGrid, m: nat)
    requires
        grid.wf(),
        grid.gw * grid.gh + 2 <= usize::MAX,
        m <= grid.gw * grid.gh,
    ensures
        grid.nodes_upto(m).contains(0usize),
        grid.nodes_upto(m).contains(1usize),
        forall|g: int| 0 <= g < m && grid.cells@[g] == Cell::Both ==> #[trigger] grid.nodes_upto(m).contains((2 + g) as usize),
        grid.nodes_upto(m).len() == 2 <==> forall|g: int| 0 <= g < m ==> grid.cells@[g] != Cell::Both,
        grid.nodes_upto(m).len() >= 2,
    decreases m,
{
    if m == 0 {
        assert(grid.nodes_upto(0)[0] == 0usize);
        assert(grid.nodes_upto(0)[1] == 1usize);
    } else {
        lemma_nodes_upto(grid, (m - 1) as nat);
        let p = grid.nodes_upto((m - 1) as nat);
        let q = grid.nodes_upto(m);
        assert forall|x: usize| p.contains(x) implies q.contains(x) by {
            let i = choose|i: int| 0 <= i < p.len() && p[i] == x;
            assert(q[i] == x);
        }
        assert forall|g: int| 0 <= g < m && grid.cells@[g] == Cell::Both implies #[trigger] q.contains((2 + g) as usize) by {
            if g < m - 1 {
                assert(p.contains((2 + g) as usize));
            } else {
                assert(q[q.len() - 1] == (2 + g) as usize);
            }
        }
    }
}

// ── Flows and cuts ─────────────────────────────────────────────────────────────────────────────

/// No two entries of `s` are on the same arc.
pub open spec fn distinct_arcs<C>(s: Seq<((usize, usize), C)>) -> bool {
    forall|a: int, b: int| 0 <= a < b < s.len() ==> (#[trigger] s[a]).0 != (#[trigger] s[b]).0
}

/// The total of the entries of `f` leaving `x`.
pub open spec fn out_total(f: Seq<FlowArc>, x: int) -> int
    decreases f.len(),
{
    if f.len() == 0 {
        0
    } else {
        out_total(f.drop_last(), x) + if f.last().0.0 == x {
            f.last().1 as int
        } else {
            0int
        }
    }
}

/// The total of the entries of `f` entering `x`.
pub open spec fn in_total(f: Seq<FlowArc>, x: int) -> int
    decreases f.len(),
{
    if f.len() == 0 {
        0
    } else {
        in_total(f.drop_last(), x) + if f.last().0.1 == x {
            f.last().1 as int
        } else {
            0int
        }
    }
}

/// `f` is a flow from node 0 to node 1 in the network `caps`: one positive entry per arc, none
/// above the arc's capacity, never both directions of a pair, and as much entering as leaving every
/// node but the source and the sink.
pub open spec fn is_flow(caps: Seq<FlowArc>, f: Seq<FlowArc>) -> bool {
    &&& distinct_arcs(f)
    &&& forall|e: int| 0 <= e < f.len() ==> 0 < (#[trigger] f[e]).1 <= arc_sum(caps, f[e].0.0 as int, f[e].0.1 as int)
    &&& forall|a: int, b: int|
        0 <= a < f.len() && 0 <= b < f.len() ==> !((#[trigger] f[a]).0.0 == (#[trigger] f[b]).0.1 && f[a].0.1 == f[b].0.0)
    &&& forall|x: int| x != 0 && x != 1 ==> #[trigger] out_total(f, x) == in_total(f, x)
}

/// `f` is a maximum flow: a flow after which the residual network no longer reaches the sink.
pub open spec fn is_max_flow(caps: Seq<FlowArc>, f: Seq<FlowArc>) -> bool {
    is_flow(caps, f) && !res_reachable(caps, f, 1)
}

/// On distinct arcs, the total on an arc is its one entry.
proof fn lemma_arc_sum_entry(s: Seq<FlowArc>, k: int)
    requires
        distinct_arcs(s),
        0 <= k < s.len(),
    ensures
        arc_sum(s, s[k].0.0 as int, s[k].0.1 as int) == s[k].1,
    decreases s.len(),
{
    let l = s.drop_last();
    if k < s.len() - 1 {
        assert(l[k] == s[k]);
        assert(distinct_arcs(l)) by {
            assert forall|a: int, b: int| 0 <= a < b < l.len() implies (#[trigger] l[a]).0 != (#[trigger] l[b]).0 by {
                assert(l[a] == s[a] && l[b] == s[b]);
            }
        }
        lemma_arc_sum_entry(l, k);
        assert(s.last() == s[s.len() - 1]);
        assert(s[k].0 != s[s.len() - 1].0);
    } else {
        lemma_arc_sum_absent(l, s[k].0.0 as int, s[k].0.1 as int);
    }
}

/// The total on an arc no entry is on is 0.
proof fn lemma_arc_sum_absent(s: Seq<FlowArc>, u: int, v: int)
    requires
        forall|e: int| 0 <= e < s.len() ==> !((#[trigger] s[e]).0.0 == u && s[e].0.1 == v),
    ensures
        arc_sum(s, u, v) == 0,
    decreases s.len(),
{
    if s.len() > 0 {
        let l = s.drop_last();
        assert forall|e: int| 0 <= e < l.len() implies !((#[trigger] l[e]).0.0 == u && l[e].0.1 == v) by {
            assert(l[e] == s[e]);
        }
        lemma_arc_sum_absent(l, u, v);
        assert(s.last() == s[s.len() - 1]);
    }
}

/// On distinct arcs with capacities that are not negative, the total on an arc is not negative.
proof fn lemma_arc_sum_nonneg(s: Seq<FlowArc>, u: int, v: int)
    requires
        distinct_arcs(s),
        forall|e: int| 0 <= e < s.len() ==> (#[trigger] s[e]).1 >= 0,
    ensures
        arc_sum(s, u, v) >= 0,
{
    if exists|k: int| 0 <= k < s.len() && (#[trigger] s[k]).0.0 == u && s[k].0.1 == v {
        let k = choose|k: int| 0 <= k < s.len() && (#[trigger] s[k]).0.0 == u && s[k].0.1 == v;
        lemma_arc_sum_entry(s, k);
    } else {
        lemma_arc_sum_absent(s, u, v);
    }
}

/// On distinct arcs, the total on an arc fits in `i64`.
proof fn lemma_arc_sum_bound(s: Seq<FlowArc>, u: int, v: int)
    requires
        distinct_arcs(s),
    ensures
        arc_sum(s, u, v) <= i64::MAX,
{
    if exists|k: int| 0 <= k < s.len() && (#[trigger] s[k]).0.0 == u && s[k].0.1 == v {
        let k = choose|k: int| 0 <= k < s.len() && (#[trigger] s[k]).0.0 == u && s[k].0.1 == v;
        lemma_arc_sum_entry(s, k);
    } else {
        lemma_arc_sum_absent(s, u, v);
    }
}

/// A residual step from a reached node reaches its end.
proof fn lemma_reach_step(caps: Seq<FlowArc>, f: Seq<FlowArc>, u: int, v: int)
    requires
        res_reachable(caps, f, u),
        res_step(caps, f, u, v),
    ensures
        res_reachable(caps, f, v),
{
    let p = choose|p: Seq<int>| #[trigger] res_path(caps, f, p) && p.last() == u;
    let q = p.push(v);
    assert forall|i: int| 0 <= i < q.len() - 1 implies #[trigger] res_step(caps, f, q[i], q[i + 1]) by {
        if i < p.len() - 1 {
            assert(q[i] == p[i] && q[i + 1] == p[i + 1]);
            assert(res_step(caps, f, p[i], p[i + 1]));
        } else {
            assert(q[i] == u && q[i + 1] == v);
        }
    }
    assert(res_path(caps, f, q) && q.last() == v);
}

/// The cut a maximum flow leaves is crossed by exactly the flow: the nodes the
/// residual network reaches hold the source and not the sink, every arc from a reached node to an
/// unreached one carries its full capacity, and none carries flow back from an unreached node to a
/// reached one.
pub proof fn law_cut_saturated(caps: Seq<FlowArc>, f: Seq<FlowArc>, u: int, v: int)
    requires
        distinct_arcs(caps),
        forall|e: int| 0 <= e < caps.len() ==> (#[trigger] caps[e]).1 >= 0,
        is_max_flow(caps, f),
        linked(caps, u, v),
        res_reachable(caps, f, u),
        !res_reachable(caps, f, v),
    ensures
        res_reachable(caps, f, 0),
        !res_reachable(caps, f, 1),
        arc_sum(f, u, v) == arc_sum(caps, u, v),
        arc_sum(f, v, u) == 0,
{
    let p0 = seq![0int];
    assert(res_path(caps, f, p0) && p0.last() == 0);
    if residual(caps, f, u, v) > 0 {
        lemma_reach_step(caps, f, u, v);
    }
    lemma_arc_sum_nonneg(caps, u, v);
    if exists|k: int| 0 <= k < f.len() && (#[trigger] f[k]).0.0 == u && f[k].0.1 == v {
        let k = choose|k: int| 0 <= k < f.len() && (#[trigger] f[k]).0.0 == u && f[k].0.1 == v;
        lemma_arc_sum_entry(f, k);
    } else {
        lemma_arc_sum_absent(f, u, v);
    }
    if exists|k: int| 0 <= k < f.len() && (#[trigger] f[k]).0.0 == v && f[k].0.1 == u {
        let k = choose|k: int| 0 <= k < f.len() && (#[trigger] f[k]).0.0 == v && f[k].0.1 == u;
        lemma_arc_sum_entry(f, k);
    } else {
        lemma_arc_sum_absent(f, v, u);
    }
}

/// The total of the entries of `f` on arcs that leave the node set `s` (from inside to outside);
/// over a network's capacities, the capacity of the cut `s`.
pub open spec fn leaving(f: Seq<FlowArc>, s: spec_fn(int) -> bool) -> int
    decreases f.len(),
{
    if f.len() == 0 {
        0
    } else {
        leaving(f.drop_last(), s) + if s(f.last().0.0 as int) && !s(f.last().0.1 as int) {
            f.last().1 as int
        } else {
            0int
        }
    }
}

/// The total of the entries of `f` on arcs that enter the node set `s`.
pub open spec fn entering(f: Seq<FlowArc>, s: spec_fn(int) -> bool) -> int
    decreases f.len(),
{
    if f.len() == 0 {
        0
    } else {
        entering(f.drop_last(), s) + if !s(f.last().0.0 as int) && s(f.last().0.1 as int) {
            f.last().1 as int
        } else {
            0int
        }
    }
}

/// The value of a flow: what leaves the source, less what comes back to it.
pub open spec fn flow_value(f: Seq<FlowArc>) -> int {
    out_total(f, 0) - in_total(f, 0)
}

/// Adding node `x` to a node set changes the flow across it by what leaves `x` less what enters.
proof fn lemma_net_add(f: Seq<FlowArc>, s: spec_fn(int) -> bool, s2: spec_fn(int) -> bool, x: int)
    requires
        forall|y: int| #[trigger] s2(y) == (s(y) || y == x),
        !s(x),
    ensures
        (leaving(f, s2) - entering(f, s2)) - (leaving(f, s) - entering(f, s)) == out_total(f, x) - in_total(f, x),
    decreases f.len(),
{
    if f.len() > 0 {
        lemma_net_add(f.drop_last(), s, s2, x);
        let a = f.last().0.0 as int;
        let b = f.last().0.1 as int;
        assert(s2(a) == (s(a) || a == x));
        assert(s2(b) == (s(b) || b == x));
    }
}

/// Node sets that agree on every end of `f` carry the same flow across them.
proof fn lemma_net_congr(f: Seq<FlowArc>, s: spec_fn(int) -> bool, s2: spec_fn(int) -> bool)
    requires
        forall|e: int| 0 <= e < f.len() ==> s((#[trigger] f[e]).0.0 as int) == s2(f[e].0.0 as int) && s(f[e].0.1 as int) == s2(f[e].0.1 as int),
    ensures
        leaving(f, s) == leaving(f, s2),
        entering(f, s) == entering(f, s2),
    decreases f.len(),
{
    if f.len() > 0 {
        let l = f.drop_last();
        assert forall|e: int| 0 <= e < l.len() implies s((#[trigger] l[e]).0.0 as int) == s2(l[e].0.0 as int) && s(l[e].0.1 as int) == s2(l[e].0.1 as int) by {
            assert(l[e] == f[e]);
        }
        lemma_net_congr(l, s, s2);
        assert(f.last() == f[f.len() - 1]);
    }
}

/// Nothing crosses the empty node set.
proof fn lemma_net_empty(f: Seq<FlowArc>, s: spec_fn(int) -> bool)
    requires
        forall|y: int| !#[trigger] s(y),
    ensures
        leaving(f, s) == 0,
        entering(f, s) == 0,
    decreases f.len(),
{
    if f.len() > 0 {
        lemma_net_empty(f.drop_last(), s);
        assert(!s(f.last().0.0 as int));
    }
}

/// The source, with the nodes of `t` below `k` other than the sink.
pub open spec fn nodes_below(t: spec_fn(int) -> bool, k: int) -> spec_fn(int) -> bool {
    |x: int| x == 0 || (x != 1 && t(x) && 0 <= x < k)
}

/// A flow carries its value across every node set that holds the source, not the sink, and only
/// nodes below `k` besides.
proof fn lemma_net_chain(f: Seq<FlowArc>, t: spec_fn(int) -> bool, k: nat)
    requires
        forall|x: int| x != 0 && x != 1 ==> #[trigger] out_total(f, x) == in_total(f, x),
    ensures
        leaving(f, nodes_below(t, k as int)) - entering(f, nodes_below(t, k as int)) == flow_value(f),
    decreases k,
{
    let cur = nodes_below(t, k as int);
    if k == 0 {
        let none = |y: int| false;
        lemma_net_empty(f, none);
        assert forall|y: int| #[trigger] cur(y) == (none(y) || y == 0) by {}
        lemma_net_add(f, none, cur, 0);
    } else {
        lemma_net_chain(f, t, (k - 1) as nat);
        let prev = nodes_below(t, k - 1);
        let y = k - 1;
        if t(y) && y != 0 && y != 1 {
            assert forall|z: int| #[trigger] cur(z) == (prev(z) || z == y) by {}
            assert(out_total(f, y) == in_total(f, y));
            lemma_net_add(f, prev, cur, y);
        } else {
            assert forall|e: int| 0 <= e < f.len() implies prev((#[trigger] f[e]).0.0 as int) == cur(f[e].0.0 as int) && prev(f[e].0.1 as int) == cur(f[e].0.1 as int) by {}
            lemma_net_congr(f, prev, cur);
        }
    }
}

/// A flow carries its value across every cut: every node set with the source and not the sink.
proof fn lemma_net_value(f: Seq<FlowArc>, t: spec_fn(int) -> bool)
    requires
        forall|x: int| x != 0 && x != 1 ==> #[trigger] out_total(f, x) == in_total(f, x),
        t(0),
        !t(1),
    ensures
        leaving(f, t) - entering(f, t) == flow_value(f),
{
    let k: nat = 0x1_0000_0000_0000_0000;
    lemma_net_chain(f, t, k);
    let all = nodes_below(t, k as int);
    assert forall|e: int| 0 <= e < f.len() implies all((#[trigger] f[e]).0.0 as int) == t(f[e].0.0 as int) && all(f[e].0.1 as int) == t(f[e].0.1 as int) by {}
    lemma_net_congr(f, all, t);
}

/// The totals of a concatenation add up.
proof fn lemma_leaving_concat(a: Seq<FlowArc>, b: Seq<FlowArc>, s: spec_fn(int) -> bool)
    ensures
        leaving(a + b, s) == leaving(a, s) + leaving(b, s),
        forall|u: int, v: int| #[trigger] arc_sum(a + b, u, v) == arc_sum(a, u, v) + arc_sum(b, u, v),
    decreases b.len(),
{
    if b.len() == 0 {
        assert(a + b =~= a);
        assert forall|u: int, v: int| #[trigger] arc_sum(a + b, u, v) == arc_sum(a, u, v) + arc_sum(b, u, v) by {
            assert(arc_sum(b, u, v) == 0);
        }
    } else {
        let bl = b.drop_last();
        lemma_leaving_concat(a, bl, s);
        assert((a + b).drop_last() =~= a + bl);
        assert((a + b).last() == b.last());
        assert forall|u: int, v: int| #[trigger] arc_sum(a + b, u, v) == arc_sum(a, u, v) + arc_sum(b, u, v) by {
            assert(arc_sum(a + bl, u, v) == arc_sum(a, u, v) + arc_sum(bl, u, v));
        }
    }
}

/// Taking entry `i` out of `b` takes its share out of the totals.
proof fn lemma_remove_entry(b: Seq<FlowArc>, i: int, s: spec_fn(int) -> bool)
    requires
        0 <= i < b.len(),
    ensures
        leaving(b, s) == leaving(b.remove(i), s) + if s(b[i].0.0 as int) && !s(b[i].0.1 as int) {
            b[i].1 as int
        } else {
            0int
        },
        forall|u: int, v: int| #[trigger] arc_sum(b, u, v) == arc_sum(b.remove(i), u, v) + if b[i].0.0 == u && b[i].0.1 == v {
            b[i].1 as int
        } else {
            0int
        },
{
    let p = b.subrange(0, i);
    let q = b.subrange(i + 1, b.len() as int);
    let one = seq![b[i]];
    assert(b =~= p + one + q);
    assert(b.remove(i) =~= p + q);
    lemma_leaving_concat(p, one, s);
    lemma_leaving_concat(p + one, q, s);
    lemma_leaving_concat(p, q, s);
    assert(one.drop_last() =~= Seq::<FlowArc>::empty());
    assert(one.last() == b[i]);
    assert(leaving(one.drop_last(), s) == 0);
    assert(leaving(one, s) == if s(b[i].0.0 as int) && !s(b[i].0.1 as int) {
        b[i].1 as int
    } else {
        0int
    });
    assert forall|u: int, v: int| #[trigger] arc_sum(b, u, v) == arc_sum(b.remove(i), u, v) + if b[i].0.0 == u && b[i].0.1 == v {
        b[i].1 as int
    } else {
        0int
    } by {
        assert(arc_sum(one.drop_last(), u, v) == 0);
        assert(arc_sum(p + one, u, v) == arc_sum(p, u, v) + arc_sum(one, u, v));
        assert(arc_sum(p + one + q, u, v) == arc_sum(p + one, u, v) + arc_sum(q, u, v));
        assert(arc_sum(p + q, u, v) == arc_sum(p, u, v) + arc_sum(q, u, v));
    }
}

/// Entries that are not negative cross a cut with a total that is not negative.
proof fn lemma_leaving_nonneg(b: Seq<FlowArc>, s: spec_fn(int) -> bool)
    requires
        forall|e: int| 0 <= e < b.len() ==> (#[trigger] b[e]).1 >= 0,
    ensures
        leaving(b, s) >= 0,
        entering(b, s) >= 0,
    decreases b.len(),
{
    if b.len() > 0 {
        let l = b.drop_last();
        assert forall|e: int| 0 <= e < l.len() implies (#[trigger] l[e]).1 >= 0 by {
            assert(l[e] == b[e]);
        }
        lemma_leaving_nonneg(l, s);
        assert(b.last() == b[b.len() - 1]);
    }
}

/// If every entry of `a` leaving `s` is covered by what `b` holds on its arc, `a` leaves `s` with at
/// most what `b` does.
proof fn lemma_leaving_le(a: Seq<FlowArc>, b: Seq<FlowArc>, s: spec_fn(int) -> bool)
    requires
        distinct_arcs(a),
        distinct_arcs(b),
        forall|e: int| 0 <= e < b.len() ==> (#[trigger] b[e]).1 >= 0,
        forall|e: int|
            0 <= e < a.len() && s((#[trigger] a[e]).0.0 as int) && !s(a[e].0.1 as int) ==> a[e].1 <= arc_sum(
                b,
                a[e].0.0 as int,
                a[e].0.1 as int,
            ),
    ensures
        leaving(a, s) <= leaving(b, s),
    decreases a.len(),
{
    if a.len() == 0 {
        lemma_leaving_nonneg(b, s);
    } else {
        let l = a.drop_last();
        let x = a.last();
        assert(x == a[a.len() - 1]);
        assert(distinct_arcs(l)) by {
            assert forall|i: int, j: int| 0 <= i < j < l.len() implies (#[trigger] l[i]).0 != (#[trigger] l[j]).0 by {
                assert(l[i] == a[i] && l[j] == a[j]);
            }
        }
        let u = x.0.0 as int;
        let v = x.0.1 as int;
        if s(u) && !s(v) && x.1 > 0 {
            if !exists|k: int| 0 <= k < b.len() && (#[trigger] b[k]).0.0 == u && b[k].0.1 == v {
                lemma_arc_sum_absent(b, u, v);
            }
            let i = choose|k: int| 0 <= k < b.len() && (#[trigger] b[k]).0.0 == u && b[k].0.1 == v;
            lemma_arc_sum_entry(b, i);
            let c = b.remove(i);
            lemma_remove_entry(b, i, s);
            assert(distinct_arcs(c)) by {
                assert forall|p: int, q: int| 0 <= p < q < c.len() implies (#[trigger] c[p]).0 != (#[trigger] c[q]).0 by {
                    let pp = if p < i { p } else { p + 1 };
                    let qq = if q < i { q } else { q + 1 };
                    assert(c[p] == b[pp] && c[q] == b[qq]);
                }
            }
            assert forall|e: int| 0 <= e < c.len() implies (#[trigger] c[e]).1 >= 0 by {
                let ee = if e < i { e } else { e + 1 };
                assert(c[e] == b[ee]);
            }
            assert forall|e: int|
                0 <= e < l.len() && s((#[trigger] l[e]).0.0 as int) && !s(l[e].0.1 as int) implies l[e].1 <= arc_sum(
                c,
                l[e].0.0 as int,
                l[e].0.1 as int,
            ) by {
                assert(l[e] == a[e]);
                assert(a[e].0 != a[a.len() - 1].0);
                assert(arc_sum(b, l[e].0.0 as int, l[e].0.1 as int) == arc_sum(c, l[e].0.0 as int, l[e].0.1 as int) + if b[i].0.0
                    == l[e].0.0 as int && b[i].0.1 == l[e].0.1 as int {
                    b[i].1 as int
                } else {
                    0int
                });
            }
            lemma_leaving_le(l, c, s);
        } else {
            assert forall|e: int|
                0 <= e < l.len() && s((#[trigger] l[e]).0.0 as int) && !s(l[e].0.1 as int) implies l[e].1 <= arc_sum(
                b,
                l[e].0.0 as int,
                l[e].0.1 as int,
            ) by {
                assert(l[e] == a[e]);
            }
            lemma_leaving_le(l, b, s);
        }
    }
}

/// Nothing enters a node set that no entry enters.
proof fn lemma_entering_none(f: Seq<FlowArc>, s: spec_fn(int) -> bool)
    requires
        forall|e: int| 0 <= e < f.len() ==> !(!s((#[trigger] f[e]).0.0 as int) && s(f[e].0.1 as int)),
    ensures
        entering(f, s) == 0,
    decreases f.len(),
{
    if f.len() > 0 {
        let l = f.drop_last();
        assert forall|e: int| 0 <= e < l.len() implies !(!s((#[trigger] l[e]).0.0 as int) && s(l[e].0.1 as int)) by {
            assert(l[e] == f[e]);
        }
        lemma_entering_none(l, s);
        assert(f.last() == f[f.len() - 1]);
    }
}

/// Max-flow min-cut: the nodes the residual network of a maximum flow reaches form a cut whose
/// capacity is the flow's value, and no cut (a node set with the source and not the sink) has less
/// capacity; so that cut is a minimum cut and the flow a maximum one.
pub proof fn law_min_cut(caps: Seq<FlowArc>, f: Seq<FlowArc>, t: spec_fn(int) -> bool)
    requires
        distinct_arcs(caps),
        forall|e: int| 0 <= e < caps.len() ==> (#[trigger] caps[e]).1 >= 0,
        is_max_flow(caps, f),
        t(0),
        !t(1),
    ensures
        leaving(caps, |x: int| res_reachable(caps, f, x)) == flow_value(f),
        flow_value(f) <= leaving(caps, t),
{
    let r = |x: int| res_reachable(caps, f, x);
    let p0 = seq![0int];
    assert(res_path(caps, f, p0) && p0.last() == 0);
    assert(r(0));
    assert(!r(1));
    assert forall|e: int| 0 <= e < f.len() implies (#[trigger] f[e]).1 >= 0 by {}
    // Any cut: the value crosses it, and crossing it forward is bounded by its capacity.
    lemma_net_value(f, t);
    lemma_leaving_nonneg(f, t);
    lemma_leaving_le(f, caps, t);
    // The residual cut: nothing flows back into it, and every arc out of it is saturated.
    lemma_net_value(f, r);
    assert forall|e: int| 0 <= e < f.len() implies !(!r((#[trigger] f[e]).0.0 as int) && r(f[e].0.1 as int)) by {
        let v = f[e].0.0 as int;
        let u = f[e].0.1 as int;
        if !r(v) && r(u) {
            if !exists|k: int| 0 <= k < caps.len() && (#[trigger] caps[k]).0.0 == v && caps[k].0.1 == u {
                lemma_arc_sum_absent(caps, v, u);
            }
            let k = choose|k: int| 0 <= k < caps.len() && (#[trigger] caps[k]).0.0 == v && caps[k].0.1 == u;
            assert(joins(caps[k], u, v));
            law_cut_saturated(caps, f, u, v);
            lemma_arc_sum_entry(f, e);
        }
    }
    lemma_entering_none(f, r);
    lemma_leaving_le(f, caps, r);
    assert forall|e: int|
        0 <= e < caps.len() && r((#[trigger] caps[e]).0.0 as int) && !r(caps[e].0.1 as int) implies caps[e].1 <= arc_sum(
        f,
        caps[e].0.0 as int,
        caps[e].0.1 as int,
    ) by {
        let u = caps[e].0.0 as int;
        let v = caps[e].0.1 as int;
        assert(joins(caps[e], u, v));
        law_cut_saturated(caps, f, u, v);
        lemma_arc_sum_entry(caps, e);
    }
    lemma_leaving_le(caps, f, r);
}

/// The lower of an arc's ends that are cell nodes (at least 2).
pub open spec fn arc_low(a: FlowArc) -> int {
    let x = a.0.0 as int;
    let y = a.0.1 as int;
    if x >= 2 && (y < 2 || x <= y) {
        x
    } else {
        y
    }
}

/// Two lists on distinct arcs, sharing no arc, are on distinct arcs together.
proof fn lemma_distinct_concat(a: Seq<FlowArc>, b: Seq<FlowArc>)
    requires
        distinct_arcs(a),
        distinct_arcs(b),
        forall|i: int, j: int| 0 <= i < a.len() && 0 <= j < b.len() ==> (#[trigger] a[i]).0 != (#[trigger] b[j]).0,
    ensures
        distinct_arcs(a + b),
{
    let c = a + b;
    assert forall|i: int, j: int| 0 <= i < j < c.len() implies (#[trigger] c[i]).0 != (#[trigger] c[j]).0 by {
        if j < a.len() {
            assert(c[i] == a[i] && c[j] == a[j]);
        } else if i < a.len() {
            assert(c[i] == a[i] && c[j] == b[j - a.len()]);
        } else {
            assert(c[i] == b[i - a.len()] && c[j] == b[j - a.len()]);
        }
    }
}

/// The arcs a cell adds are on distinct arcs, all with the cell's node as their lower cell end.
proof fn lemma_cell_arcs_distinct(grid: &CutGrid, gx: int, gy: int)
    requires
        grid.wf(),
        grid.gw * grid.gh + 2 <= usize::MAX,
        0 <= gx < grid.gw,
        0 <= gy < grid.gh,
    ensures
        distinct_arcs(grid.cell_arcs(gx, gy)),
        forall|e: int| 0 <= e < grid.cell_arcs(gx, gy).len() ==> arc_low(#[trigger] grid.cell_arcs(gx, gy)[e]) == 2 + gy * grid.gw + gx,
{
    let gw = grid.gw as int;
    let gh = grid.gh as int;
    let g = gy * gw + gx;
    lemma_cell_index(gw, gh, gx, gy);
    if gx + 1 < gw {
        lemma_cell_index(gw, gh, gx + 1, gy);
    }
    if gy + 1 < gh {
        lemma_cell_index(gw, gh, gx, gy + 1);
    }
    let s1 = grid.source_arcs(gx, gy);
    let s2 = grid.sink_arcs(gx, gy);
    let s3 = grid.right_arcs(gx, gy);
    let s4 = grid.down_arcs(gx, gy);
    if grid.cells@[g] == Cell::Both {
        assert(distinct_arcs(s1));
        assert(distinct_arcs(s2));
        assert(distinct_arcs(s3));
        assert(distinct_arcs(s4));
        assert(forall|e: int| 0 <= e < s1.len() ==> (#[trigger] s1[e]).0.0 == 0 && arc_low(s1[e]) == 2 + g);
        assert(forall|e: int| 0 <= e < s2.len() ==> (#[trigger] s2[e]).0.1 == 1 && s2[e].0.0 >= 2 && arc_low(s2[e]) == 2 + g);
        assert(forall|e: int| 0 <= e < s3.len() ==> (#[trigger] s3[e]).0.0 >= 2 && s3[e].0.1 >= 2
            && (s3[e].0.0 == 3 + g || s3[e].0.1 == 3 + g) && gw >= 2 && arc_low(s3[e]) == 2 + g);
        assert(forall|e: int| 0 <= e < s4.len() ==> (#[trigger] s4[e]).0.0 >= 2 && s4[e].0.1 >= 2
            && (gw >= 2 ==> s4[e].0.0 != 3 + g && s4[e].0.1 != 3 + g) && arc_low(s4[e]) == 2 + g);
        lemma_distinct_concat(s1, s2);
        let a12 = s1 + s2;
        assert forall|e: int| 0 <= e < a12.len() implies (#[trigger] a12[e]).0.0 == 0 || a12[e].0.1 == 1 by {
            if e < s1.len() {
                assert(a12[e] == s1[e]);
            } else {
                assert(a12[e] == s2[e - s1.len()]);
            }
        }
        assert forall|i: int, j: int| 0 <= i < a12.len() && 0 <= j < s3.len() implies (#[trigger] a12[i]).0 != (#[trigger] s3[j]).0 by {}
        lemma_distinct_concat(a12, s3);
        let a123 = a12 + s3;
        assert forall|e: int| 0 <= e < a123.len() implies (#[trigger] a123[e]).0.0 == 0 || a123[e].0.1 == 1 || (gw >= 2 && (
        a123[e].0.0 == 3 + g || a123[e].0.1 == 3 + g)) by {
            if e < a12.len() {
                assert(a123[e] == a12[e]);
            } else {
                assert(a123[e] == s3[e - a12.len()]);
            }
        }
        assert forall|i: int, j: int| 0 <= i < a123.len() && 0 <= j < s4.len() implies (#[trigger] a123[i]).0 != (#[trigger] s4[j]).0 by {}
        lemma_distinct_concat(a123, s4);
        let c = a123 + s4;
        assert(c == grid.cell_arcs(gx, gy));
        assert forall|e: int| 0 <= e < c.len() implies arc_low(#[trigger] c[e]) == 2 + g by {
            if e < s1.len() {
                assert(c[e] == s1[e]);
            } else if e < s1.len() + s2.len() {
                assert(c[e] == s2[e - s1.len()]);
            } else if e < s1.len() + s2.len() + s3.len() {
                assert(c[e] == s3[e - s1.len() - s2.len()]);
            } else {
                assert(c[e] == s4[e - s1.len() - s2.len() - s3.len()]);
            }
        }
    }
}

/// The arcs of the first `m` cells are on distinct arcs, each with its lower cell end among those
/// cells' nodes.
proof fn lemma_arcs_distinct(grid: &CutGrid, m: nat)
    requires
        grid.wf(),
        grid.gw * grid.gh + 2 <= usize::MAX,
        m <= grid.gw * grid.gh,
    ensures
        distinct_arcs(grid.arcs_upto(m)),
        forall|e: int| 0 <= e < grid.arcs_upto(m).len() ==> 2 <= arc_low(#[trigger] grid.arcs_upto(m)[e]) < 2 + m,
    decreases m,
{
    if m > 0 && grid.gw > 0 {
        lemma_arcs_distinct(grid, (m - 1) as nat);
        let gw = grid.gw as int;
        let gh = grid.gh as int;
        let g = m - 1;
        let gx = g % gw;
        let gy = g / gw;
        vstd::arithmetic::div_mod::lemma_fundamental_div_mod(g, gw);
        assert(gy * gw + gx == g && gy >= 0 && gy < gh) by (nonlinear_arith)
            requires
                g == gw * gy + gx,
                0 <= gx < gw,
                0 <= g < gw * gh,
        ;
        lemma_cell_arcs_distinct(grid, gx, gy);
        let p = grid.arcs_upto((m - 1) as nat);
        let c = grid.cell_arcs(gx, gy);
        assert forall|i: int, j: int| 0 <= i < p.len() && 0 <= j < c.len() implies (#[trigger] p[i]).0 != (#[trigger] c[j]).0 by {
            assert(arc_low(p[i]) < arc_low(c[j]));
        }
        lemma_distinct_concat(p, c);
        let q = grid.arcs_upto(m);
        assert(q == p + c);
        assert forall|e: int| 0 <= e < q.len() implies 2 <= arc_low(#[trigger] q[e]) < 2 + m by {
            if e < p.len() {
                assert(q[e] == p[e]);
            } else {
                assert(q[e] == c[e - p.len()]);
            }
        }
    }
}

/// The nodes of the first `m` cells are distinct: the source, the sink, and nodes of those cells.
proof fn lemma_nodes_distinct(grid: &CutGrid, m: nat)
    requires
        m + 2 <= usize::MAX,
    ensures
        grid.nodes_upto(m).no_duplicates(),
        forall|i: int| 0 <= i < grid.nodes_upto(m).len() ==> (#[trigger] grid.nodes_upto(m)[i]) < 2 + m,
    decreases m,
{
    if m > 0 {
        lemma_nodes_distinct(grid, (m - 1) as nat);
        let p = grid.nodes_upto((m - 1) as nat);
        let q = grid.nodes_upto(m);
        if grid.cells@[m - 1] == Cell::Both {
            assert(q[p.len() as int] == (1 + m) as usize);
            assert forall|i: int| 0 <= i < q.len() implies (#[trigger] q[i]) < 2 + m by {
                if i < p.len() {
                    assert(q[i] == p[i]);
                }
            }
            assert forall|i: int, j: int| 0 <= i < q.len() && 0 <= j < q.len() && i != j implies q[i] != q[j] by {
                if i < p.len() && j < p.len() {
                    assert(q[i] == p[i] && q[j] == p[j]);
                } else if i < p.len() {
                    assert(q[i] == p[i] && p[i] < 1 + m);
                } else {
                    assert(q[j] == p[j] && p[j] < 1 + m);
                }
            }
        }
    } else {
        let q = grid.nodes_upto(0);
        assert(q[0] == 0usize && q[1] == 1usize && q.len() == 2);
    }
}

/// The flows `pathfinding`'s Edmonds–Karp search finds in the network with nodes `vertices` and
/// arcs `caps` (capacities widened to `i128`), from node 0 to node 1: its positive flow per arc.
pub uninterp spec fn max_flow_arcs(vertices: Seq<usize>, caps: Seq<FlowArc>) -> Seq<((usize, usize), i128)>;

/// `pathfinding::directed::edmonds_karp::edmonds_karp_sparse` from node 0 to node 1, capacities
/// widened to `i128`; the flows it reports. Claimed: they are the named ones, which depend on the
/// nodes and arcs alone (the crate keeps them in B-tree maps, so their order is fixed); each is
/// positive and within its arc's capacity (the crate reports the positive part of the net flow per
/// pair, and only ever augments along residual capacity); and, as the crate documents, they form a
/// maximum flow: the net flow is conserved at every node but the source and the sink, and the
/// search stops only when the residual network no longer reaches the sink. Excluded: a source, sink
/// or arc end missing from `vertices` (it panics), negative capacities (setting one can panic,
/// cancelling a flow that is not there), a repeated vertex (the crate maps a deduplicated index
/// back into the list) and a repeated arc (the crate keeps only its last capacity).
#[verifier::external_body]
fn max_flow(vertices: &[usize], caps: &[FlowArc]) -> (r: Vec<((usize, usize), i128)>)
    requires
        vertices@.contains(0usize),
        vertices@.contains(1usize),
        vertices@.no_duplicates(),
        distinct_arcs(caps@),
        forall|e: int|
            0 <= e < caps@.len() ==> vertices@.contains((#[trigger] caps@[e]).0.0) && vertices@.contains(caps@[e].0.1),
        forall|e: int| 0 <= e < caps@.len() ==> (#[trigger] caps@[e]).1 >= 0,
    ensures
        r@ == max_flow_arcs(vertices@, caps@),
        forall|e: int| 0 <= e < r@.len() ==> 0 < (#[trigger] r@[e]).1 <= arc_sum(caps@, r@[e].0.0 as int, r@[e].0.1 as int),
        is_max_flow(caps@, narrow(r@)),
{
    let wide = caps.iter().map(|&(arc, c)| (arc, c as i128));
    pathfinding::directed::edmonds_karp::edmonds_karp_sparse(vertices, &0, &1, wide).0
}

// ── The cut ───────────────────────────────────────────────────────────────────────────────────

/// Flows narrowed to `i64`.
pub open spec fn narrow(f: Seq<((usize, usize), i128)>) -> Seq<FlowArc> {
    Seq::new(f.len(), |k: int| (f[k].0, f[k].1 as i64))
}

impl CutGrid {
    /// The number of cells.
    pub open spec fn size(&self) -> nat {
        (self.gw * self.gh) as nat
    }

    /// The maximum flow of the grid's network.
    pub open spec fn flows(&self) -> Seq<((usize, usize), i128)> {
        max_flow_arcs(self.nodes_upto(self.size()), self.arcs_upto(self.size()))
    }

    /// Some cell is covered by both frames.
    pub open spec fn has_both(&self) -> bool {
        exists|g: int| 0 <= g < self.size() && self.cells@[g] == Cell::Both
    }

    /// Which frame the cut gives cell `g`: frame `i` (`true`) to an `IOnly` cell and to a `Both`
    /// cell the residual network still reaches from the source, frame `j` to the other `Both` cells
    /// and to `JOnly` cells, and none to a `Neither` cell.
    pub open spec fn side(&self, g: int) -> Option<bool> {
        match self.cells@[g] {
            Cell::IOnly => Some(true),
            Cell::JOnly => Some(false),
            Cell::Both => Some(res_reachable(self.arcs_upto(self.size()), narrow(self.flows()), 2 + g)),
            Cell::Neither => None,
        }
    }
}

/// The graph cut runs: the rectangle is at least 2×2 and some cell is covered by both frames.
pub open spec fn cut_runs(grid: &CutGrid, rect: (usize, usize, usize, usize)) -> bool {
    rect.2 >= 2 && rect.3 >= 2 && grid.has_both()
}

/// The owner of canvas pixel `p` after the cut: a pixel of the rectangle whose grid cell (`stride`
/// pixels a side) has a side is reassigned towards that side's frame as [`assigned`] allows.
pub open spec fn cut_owner(
    ids: Seq<u8>,
    cw: int,
    has_i: Seq<bool>,
    has_j: Seq<bool>,
    si: u8,
    sj: u8,
    rect: (usize, usize, usize, usize),
    stride: int,
    grid: &CutGrid,
    p: int,
) -> u8 {
    if cell_in(p, cw, rect) {
        let lx = p % cw - rect.0;
        let ly = p / cw - rect.1;
        let k = ly * rect.2 + lx;
        let g = (ly / stride) * grid.gw + lx / stride;
        match grid.side(g) {
            Some(b) => assigned(ids[p], si, sj, if b { si } else { sj }, has_i[k], has_j[k]),
            None => ids[p],
        }
    } else {
        ids[p]
    }
}

/// The grid cell of rectangle pixel `(lx, ly)`.
proof fn lemma_grid_cell(stride: int, gw: int, gh: int, lx: int, ly: int, ow: int, oh: int)
    requires
        stride >= 1,
        0 <= lx < ow,
        0 <= ly < oh,
        ow <= gw * stride,
        oh <= gh * stride,
    ensures
        0 <= lx / stride < gw,
        0 <= ly / stride < gh,
        0 <= (ly / stride) * gw + lx / stride < gw * gh,
{
    vstd::arithmetic::div_mod::lemma_fundamental_div_mod(lx, stride);
    vstd::arithmetic::div_mod::lemma_fundamental_div_mod(ly, stride);
    let qx = lx / stride;
    let qy = ly / stride;
    assert(0 <= qx < gw && 0 <= qy < gh) by (nonlinear_arith)
        requires
            stride >= 1,
            lx == stride * qx + lx % stride,
            ly == stride * qy + ly % stride,
            0 <= lx % stride < stride,
            0 <= ly % stride < stride,
            0 <= lx < ow,
            0 <= ly < oh,
            ow <= gw * stride,
            oh <= gh * stride,
    ;
    lemma_cell_index(gw, gh, qx, qy);
}

/// Cuts a seam through the overlap of two frames along the cut a maximum flow of the grid's flow
/// network leaves (frame `i` the source, frame `j` the sink), a minimum cut by [`law_min_cut`], and
/// reassigns the rectangle's pixels to the side of their grid cell. A rectangle thinner than 2
/// pixels, or a grid with no cell covered by both frames, leaves the map as it is.
pub fn graph_cut(
    ids: &mut Vec<u8>,
    canvas_w: usize,
    grid: &CutGrid,
    cov: &PairCoverage,
    si: u8,
    sj: u8,
    rect: (usize, usize, usize, usize),
    stride: usize,
)
    requires
        rect_fits(rect, canvas_w as int, old(ids)@.len() as int),
        cov.has_i@.len() == rect.2 * rect.3,
        cov.has_j@.len() == rect.2 * rect.3,
        grid.wf(),
        grid.gw * grid.gh + 2 <= usize::MAX,
        stride >= 1,
        rect.2 <= grid.gw * stride,
        rect.3 <= grid.gh * stride,
    ensures
        final(ids)@.len() == old(ids)@.len(),
        cut_runs(grid, rect) ==> distinct_arcs(grid.arcs_upto(grid.size())) && is_max_flow(
            grid.arcs_upto(grid.size()),
            narrow(grid.flows()),
        ),
        cut_runs(grid, rect) ==> forall|p: int|
            0 <= p < old(ids)@.len() ==> #[trigger] final(ids)@[p] == cut_owner(
                old(ids)@,
                canvas_w as int,
                cov.has_i@,
                cov.has_j@,
                si,
                sj,
                rect,
                stride as int,
                grid,
                p,
            ),
        !cut_runs(grid, rect) ==> final(ids)@ == old(ids)@,
{
    let (rx, ry, ow, oh) = rect;
    if ow < 2 || oh < 2 {
        return;
    }
    let gw = grid.gw;
    let ghost n = grid.size();
    let (vertices, caps) = cut_network(grid);
    proof {
        lemma_nodes_upto(grid, n);
        lemma_arcs_nodes(grid, n);
    }
    if vertices.len() == 2 {
        return;
    }
    proof {
        assert forall|e: int| 0 <= e < caps@.len() implies vertices@.contains((#[trigger] caps@[e]).0.0) && vertices@.contains(
            caps@[e].0.1,
        ) by {
            assert(arc_ok(grid, caps@[e]));
            let a = caps@[e].0.0 as int;
            let b = caps@[e].0.1 as int;
            if a >= 2 {
                assert(grid.nodes_upto(n).contains((2 + (a - 2)) as usize));
            }
            if b >= 2 {
                assert(grid.nodes_upto(n).contains((2 + (b - 2)) as usize));
            }
        }
        assert forall|e: int| 0 <= e < caps@.len() implies (#[trigger] caps@[e]).1 >= 0 by {
            assert(arc_ok(grid, caps@[e]));
        }
        lemma_nodes_distinct(grid, n);
        lemma_arcs_distinct(grid, n);
    }
    let flows = max_flow(vertices.as_slice(), caps.as_slice());
    let mut narrowed: Vec<FlowArc> = Vec::new();
    let mut k: usize = 0;
    while k < flows.len()
        invariant
            k <= flows@.len(),
            flows@ == grid.flows(),
            forall|e: int| 0 <= e < flows@.len() ==> 0 < (#[trigger] flows@[e]).1 <= arc_sum(caps@, flows@[e].0.0 as int, flows@[e].0.1 as int),
            distinct_arcs(caps@),
            forall|e: int| 0 <= e < caps@.len() ==> (#[trigger] caps@[e]).1 >= 0,
            narrowed@ == narrow(flows@).take(k as int),
        decreases flows@.len() - k,
    {
        let ((a, b), f) = flows[k];
        proof {
            lemma_arc_sum_bound(caps@, a as int, b as int);
        }
        narrowed.push(((a, b), f as i64));
        assert(narrowed@ =~= narrow(flows@).take(k + 1));
        k = k + 1;
    }
    assert(narrowed@ =~= narrow(flows@));
    let n_nodes = 2 + grid.gw * grid.gh;
    proof {
        assert forall|e: int| 0 <= e < caps@.len() implies (#[trigger] caps@[e]).0.0 < n_nodes && caps@[e].0.1 < n_nodes by {
            assert(arc_ok(grid, caps@[e]));
        }
        assert forall|e: int| 0 <= e < narrowed@.len() implies (#[trigger] narrowed@[e]).1 >= 0 by {
            assert(flows@[e].1 > 0);
        }
    }
    let seen = residual_reach(n_nodes, caps.as_slice(), narrowed.as_slice());
    let ghost orig = ids@;
    let ghost len = orig.len() as int;
    let total = ids.len();
    proof {
        crate::seam::lemma_area(canvas_w as int, rect, len);
    }
    let mut ly: usize = 0;
    while ly < oh
        invariant
            (rx, ry, ow, oh) == rect,
            ly <= oh,
            ids@.len() == len,
            len == orig.len(),
            len == total,
            ow * oh <= len,
            rect_fits(rect, canvas_w as int, len),
            cov.has_i@.len() == ow * oh,
            cov.has_j@.len() == ow * oh,
            grid.wf(),
            gw == grid.gw,
            grid.gw * grid.gh + 2 <= usize::MAX,
            n_nodes == 2 + grid.gw * grid.gh,
            stride >= 1,
            ow <= grid.gw * stride,
            oh <= grid.gh * stride,
            cut_runs(grid, rect),
            seen@.len() == n_nodes,
            forall|v: int| 0 <= v < n_nodes ==> (#[trigger] seen@[v] <==> res_reachable(caps@, narrowed@, v)),
            caps@ == grid.arcs_upto(grid.size()),
            narrowed@ == narrow(grid.flows()),
            forall|p: int|
                0 <= p < len ==> #[trigger] ids@[p] == if cell_in(p, canvas_w as int, rect) && p / (canvas_w as int) < ry + ly {
                    cut_owner(orig, canvas_w as int, cov.has_i@, cov.has_j@, si, sj, rect, stride as int, grid, p)
                } else {
                    orig[p]
                },
        decreases oh - ly,
    {
        let mut lx: usize = 0;
        while lx < ow
            invariant
                (rx, ry, ow, oh) == rect,
                ly < oh,
                lx <= ow,
                ids@.len() == len,
                len == orig.len(),
                len == total,
                ow * oh <= len,
                rect_fits(rect, canvas_w as int, len),
                cov.has_i@.len() == ow * oh,
                cov.has_j@.len() == ow * oh,
                grid.wf(),
                gw == grid.gw,
                grid.gw * grid.gh + 2 <= usize::MAX,
                n_nodes == 2 + grid.gw * grid.gh,
                stride >= 1,
                ow <= grid.gw * stride,
                oh <= grid.gh * stride,
                cut_runs(grid, rect),
                seen@.len() == n_nodes,
                forall|v: int| 0 <= v < n_nodes ==> (#[trigger] seen@[v] <==> res_reachable(caps@, narrowed@, v)),
                caps@ == grid.arcs_upto(grid.size()),
                narrowed@ == narrow(grid.flows()),
                forall|p: int|
                    0 <= p < len ==> #[trigger] ids@[p] == if cell_in(p, canvas_w as int, rect) && (p / (canvas_w as int) < ry + ly || (
                    p / (canvas_w as int) == ry + ly && p % (canvas_w as int) < rx + lx)) {
                        cut_owner(orig, canvas_w as int, cov.has_i@, cov.has_j@, si, sj, rect, stride as int, grid, p)
                    } else {
                        orig[p]
                    },
            decreases ow - lx,
        {
            proof {
                crate::seam::lemma_cell(canvas_w as int, rect, lx as int, ly as int, len);
                lemma_grid_cell(stride as int, grid.gw as int, grid.gh as int, lx as int, ly as int, ow as int, oh as int);
            }
            let idx = (ry + ly) * canvas_w + rx + lx;
            let kk = ly * ow + lx;
            let g = (ly / stride) * gw + lx / stride;
            let side: Option<bool> = match grid.cells[g] {
                Cell::IOnly => Some(true),
                Cell::JOnly => Some(false),
                Cell::Both => Some(seen[2 + g]),
                Cell::Neither => None,
            };
            assert(side == grid.side(g as int));
            let ghost before = ids@;
            assert(before[idx as int] == orig[idx as int]);
            match side {
                Some(b) => {
                    let desired = if b { si } else { sj };
                    crate::seam::assign_pixel(ids, idx, si, sj, desired, cov.has_i[kk], cov.has_j[kk]);
                },
                None => {},
            }
            proof {
                assert forall|p: int| 0 <= p < len implies #[trigger] ids@[p] == if cell_in(p, canvas_w as int, rect) && (p
                    / (canvas_w as int) < ry + ly || (p / (canvas_w as int) == ry + ly && p % (canvas_w as int) < rx + lx + 1)) {
                    cut_owner(orig, canvas_w as int, cov.has_i@, cov.has_j@, si, sj, rect, stride as int, grid, p)
                } else {
                    orig[p]
                } by {
                    if p == idx {
                        assert(p % (canvas_w as int) - rx == lx);
                        assert(p / (canvas_w as int) - ry == ly);
                    } else if canvas_w > 0 {
                        vstd::arithmetic::div_mod::lemma_fundamental_div_mod(p, canvas_w as int);
                        vstd::arithmetic::mul::lemma_mul_is_commutative(canvas_w as int, p / (canvas_w as int));
                    }
                }
            }
            lx = lx + 1;
        }
        ly = ly + 1;
    }
}

} // verus!
