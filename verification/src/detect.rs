//! Panorama grouping of a shoot: frames joined by a chain of verified panorama-class pairs form one
//! group; a group needs at least two frames. Groups list their frames ascending (capture order) and
//! come sorted by their first frame.

use vstd::prelude::*;
use crate::graph::{component_roots, connected, edges_in_range, lemma_connected_symmetric, lemma_connected_transitive, Edge};

verus! {

/// The panorama pairs as graph edges (unweighted).
pub open spec fn pano_edges(pairs: Seq<(usize, usize)>) -> Seq<Edge> {
    Seq::new(pairs.len(), |k: int| Edge { a: pairs[k].0, b: pairs[k].1, weight: 0, pair_idx: k as usize })
}

/// Every pair joins two of the `n` frames.
pub open spec fn pairs_in_range(pairs: Seq<(usize, usize)>, n: int) -> bool {
    forall|k: int| 0 <= k < pairs.len() ==> (#[trigger] pairs[k]).0 < n && pairs[k].1 < n
}

/// Frames `u` and `v` are joined by a chain of panorama pairs (or are the same frame).
pub open spec fn joined(pairs: Seq<(usize, usize)>, u: int, v: int) -> bool {
    connected(pano_edges(pairs), u, v)
}

/// Frame `v` is joined to some other of the `n` frames.
pub open spec fn grouped(pairs: Seq<(usize, usize)>, n: int, v: int) -> bool {
    exists|u: int| 0 <= u < n && u != v && #[trigger] joined(pairs, v, u)
}

/// The groups of a shoot: each lists, ascending, all frames joined to its first frame, and has at
/// least two; groups are sorted by first frame; every frame joined to another lies in a group.
pub open spec fn groups_ok(pairs: Seq<(usize, usize)>, n: int, groups: Seq<Seq<usize>>) -> bool {
    &&& forall|g: int| 0 <= g < groups.len() ==> (#[trigger] groups[g]).len() >= 2
    &&& forall|g: int, k: int, l: int|
        0 <= g < groups.len() && 0 <= k < l < groups[g].len() ==> #[trigger] groups[g][k] < #[trigger] groups[g][l]
    &&& forall|g: int, k: int|
        0 <= g < groups.len() && 0 <= k < groups[g].len() ==> #[trigger] groups[g][k] < n && joined(
            pairs,
            groups[g][0] as int,
            groups[g][k] as int,
        )
    &&& forall|g: int, v: int|
        0 <= g < groups.len() && 0 <= v < n && #[trigger] joined(pairs, groups[g][0] as int, v) ==> groups[g].contains(
            v as usize,
        )
    &&& forall|g: int, h: int| 0 <= g < h < groups.len() ==> #[trigger] groups[g][0] < #[trigger] groups[h][0]
    &&& forall|v: int| 0 <= v < n && #[trigger] grouped(pairs, n, v) ==> exists|g: int|
        0 <= g < groups.len() && #[trigger] groups[g].contains(v as usize)
}

/// The panorama groups among `n` frames, given the frame pairs verified as panorama overlaps.
pub fn pano_groups(n: usize, pairs: &[(usize, usize)]) -> (groups: Vec<Vec<usize>>)
    requires
        pairs_in_range(pairs@, n as int),
    ensures
        groups_ok(pairs@, n as int, Seq::new(groups@.len(), |g: int| groups@[g]@)),
{
    let ghost es = pano_edges(pairs@);
    let mut edges: Vec<Edge> = Vec::new();
    let mut k: usize = 0;
    while k < pairs.len()
        invariant
            k <= pairs@.len(),
            es == pano_edges(pairs@),
            edges@ == es.take(k as int),
        decreases pairs@.len() - k,
    {
        edges.push(Edge { a: pairs[k].0, b: pairs[k].1, weight: 0, pair_idx: k });
        assert(edges@ =~= es.take(k + 1));
        k = k + 1;
    }
    assert(edges@ =~= es);
    assert(edges_in_range(edges@, n as int)) by {
        assert forall|e: int| 0 <= e < edges@.len() implies (#[trigger] edges@[e]).a < n && edges@[e].b < n by {
            assert(pairs@[e].0 < n && pairs@[e].1 < n);
        }
    }
    let roots = component_roots(n, edges.as_slice());
    let mut groups: Vec<Vec<usize>> = Vec::new();
    let ghost gv = Seq::new(groups@.len(), |g: int| groups@[g]@);
    let mut v: usize = 0;
    while v < n
        invariant
            v <= n,
            roots@.len() == n,
            es == pano_edges(pairs@),
            forall|u: int, w: int|
                0 <= u < n && 0 <= w < n ==> (roots@[u] == roots@[w] <==> #[trigger] connected(es, u, w)),
            forall|g: int| 0 <= g < groups@.len() ==> (#[trigger] groups@[g])@.len() >= 2,
            forall|g: int, k: int, l: int|
                0 <= g < groups@.len() && 0 <= k < l < groups@[g]@.len() ==> #[trigger] groups@[g]@[k]
                    < #[trigger] groups@[g]@[l],
            forall|g: int, k: int|
                0 <= g < groups@.len() && 0 <= k < groups@[g]@.len() ==> #[trigger] groups@[g]@[k] < n
                    && roots@[groups@[g]@[k] as int] == roots@[groups@[g]@[0] as int],
            forall|g: int| 0 <= g < groups@.len() ==> #[trigger] groups@[g]@[0] < v,
            forall|g: int, w: int|
                #![trigger roots@[w], groups@[g]]
                0 <= g < groups@.len() && 0 <= w < n && roots@[w] == roots@[groups@[g]@[0] as int]
                    ==> groups@[g]@.contains(w as usize),
            forall|g: int, h: int| 0 <= g < h < groups@.len() ==> #[trigger] groups@[g]@[0] < #[trigger] groups@[h]@[0],
            forall|w: int|
                0 <= w < n && (exists|u: int| 0 <= u < v && roots@[u] == #[trigger] roots@[w]) && grouped(
                    pairs@,
                    n as int,
                    w,
                ) ==> exists|g: int| 0 <= g < groups@.len() && #[trigger] groups@[g]@.contains(w as usize),
        decreases n - v,
    {
        let ghost g0 = groups@;
        let mut first = true;
        let mut u: usize = 0;
        while u < v
            invariant
                u <= v < n,
                roots@.len() == n,
                first == forall|x: int| 0 <= x < u ==> roots@[x] != roots@[v as int],
            decreases v - u,
        {
            if roots[u] == roots[v] {
                first = false;
            }
            u = u + 1;
        }
        if first {
            let mut members: Vec<usize> = Vec::new();
            let mut w: usize = v;
            while w < n
                invariant
                    v <= w <= n,
                    roots@.len() == n,
                    forall|k: int| 0 <= k < members@.len() ==> v <= #[trigger] members@[k] < w,
                    forall|k: int, l: int| 0 <= k < l < members@.len() ==> #[trigger] members@[k] < #[trigger] members@[l],
                    forall|k: int| 0 <= k < members@.len() ==> roots@[#[trigger] members@[k] as int] == roots@[v as int],
                    forall|x: int| v <= x < w && roots@[x] == roots@[v as int] ==> #[trigger] members@.contains(x as usize),
                    w > v ==> members@.len() >= 1 && members@[0] == v,
                decreases n - w,
            {
                if roots[w] == roots[v] {
                    let ghost before = members@;
                    members.push(w);
                    assert forall|x: int| v <= x < w + 1 && roots@[x] == roots@[v as int] implies #[trigger] members@.contains(x as usize) by {
                        if x < w {
                            assert(before.contains(x as usize));
                            let i = choose|i: int| 0 <= i < before.len() && before[i] == x as usize;
                            assert(members@[i] == x as usize);
                        } else {
                            assert(members@[members@.len() - 1] == x as usize);
                        }
                    }
                }
                w = w + 1;
            }
            let ghost mem = members@;
            if members.len() >= 2 {
                groups.push(members);
            }
            proof {
                assert forall|w: int|
                    0 <= w < n && (exists|u: int| 0 <= u < v + 1 && roots@[u] == #[trigger] roots@[w]) && grouped(
                        pairs@,
                        n as int,
                        w,
                    ) implies exists|g: int| 0 <= g < groups@.len() && #[trigger] groups@[g]@.contains(w as usize) by {
                    if exists|u: int| 0 <= u < v && roots@[u] == #[trigger] roots@[w] {
                        let g = choose|g: int| 0 <= g < g0.len() && #[trigger] g0[g]@.contains(w as usize);
                        assert(groups@[g] == g0[g]);
                    } else {
                        let u = choose|u: int| 0 <= u < v + 1 && roots@[u] == #[trigger] roots@[w];
                        assert(u == v);
                        if w < v {
                            assert(roots@[w] == roots@[w]);
                        }
                        assert(mem.contains(w as usize));
                        let o = choose|o: int| 0 <= o < n && o != w && #[trigger] joined(pairs@, w, o);
                        assert(roots@[o] == roots@[w]);
                        if o < v {
                            assert(roots@[o] == roots@[o]);
                        }
                        assert(mem.contains(o as usize));
                        let i = choose|i: int| 0 <= i < mem.len() && mem[i] == w as usize;
                        let j = choose|j: int| 0 <= j < mem.len() && mem[j] == o as usize;
                        assert(i != j);
                        assert(mem.len() >= 2);
                        assert(groups@[groups@.len() - 1]@ == mem);
                    }
                }
            }
        } else {
            proof {
                let x = choose|x: int| 0 <= x < v && roots@[x] == roots@[v as int];
                assert forall|w: int|
                    0 <= w < n && (exists|u: int| 0 <= u < v + 1 && roots@[u] == #[trigger] roots@[w]) && grouped(
                        pairs@,
                        n as int,
                        w,
                    ) implies exists|g: int| 0 <= g < groups@.len() && #[trigger] groups@[g]@.contains(w as usize) by {
                    let u = choose|u: int| 0 <= u < v + 1 && roots@[u] == #[trigger] roots@[w];
                    if u == v {
                        assert(roots@[x] == roots@[w]);
                    }
                }
            }
        }
        v = v + 1;
    }
    proof {
        let gs = Seq::new(groups@.len(), |g: int| groups@[g]@);
        assert forall|g: int, k: int|
            0 <= g < gs.len() && 0 <= k < gs[g].len() implies #[trigger] gs[g][k] < n && joined(
                pairs@,
                gs[g][0] as int,
                gs[g][k] as int,
            ) by {
            assert(groups@[g]@[k] < n && roots@[groups@[g]@[k] as int] == roots@[groups@[g]@[0] as int]);
            assert(groups@[g]@[0] < n);
        }
        assert forall|g: int, w: int|
            0 <= g < gs.len() && 0 <= w < n && #[trigger] joined(pairs@, gs[g][0] as int, w) implies gs[g].contains(
                w as usize,
            ) by {
            assert(groups@[g]@[0] < n);
            assert(roots@[w] == roots@[groups@[g]@[0] as int]);
        }
        assert forall|w: int| 0 <= w < n && #[trigger] grouped(pairs@, n as int, w) implies exists|g: int|
            0 <= g < gs.len() && #[trigger] gs[g].contains(w as usize) by {
            assert(roots@[w] == roots@[w]);
            let g = choose|g: int| 0 <= g < groups@.len() && #[trigger] groups@[g]@.contains(w as usize);
            assert(gs[g] == groups@[g]@);
        }
    }
    groups
}

/// Panorama groups never share a frame: a frame lies in at most one group.
pub proof fn law_groups_disjoint(pairs: Seq<(usize, usize)>, n: int, groups: Seq<Seq<usize>>, g: int, h: int, v: usize)
    requires
        groups_ok(pairs, n, groups),
        0 <= g < groups.len(),
        0 <= h < groups.len(),
        groups[g].contains(v),
        groups[h].contains(v),
    ensures
        g == h,
{
    let es = pano_edges(pairs);
    let i = choose|i: int| 0 <= i < groups[g].len() && groups[g][i] == v;
    let j = choose|j: int| 0 <= j < groups[h].len() && groups[h][j] == v;
    let a = groups[g][0] as int;
    let b = groups[h][0] as int;
    assert(groups[g][i] < n && joined(pairs, a, groups[g][i] as int));
    assert(groups[h][j] < n && joined(pairs, b, groups[h][j] as int));
    assert(groups[g][0] < n && joined(pairs, a, a));
    assert(groups[h][0] < n && joined(pairs, b, b));
    lemma_connected_symmetric(es, b, v as int);
    lemma_connected_transitive(es, a, v as int, b);
    lemma_connected_symmetric(es, a, b);
    // each first frame lies in the other group, and a group's first frame is its least
    assert(joined(pairs, groups[g][0] as int, b));
    assert(joined(pairs, groups[h][0] as int, a));
    assert(groups[g].contains(b as usize));
    assert(groups[h].contains(a as usize));
    let p = choose|p: int| 0 <= p < groups[g].len() && groups[g][p] == b as usize;
    let q = choose|q: int| 0 <= q < groups[h].len() && groups[h][q] == a as usize;
    if p > 0 {
        assert(groups[g][0] < groups[g][p]);
    }
    if q > 0 {
        assert(groups[h][0] < groups[h][q]);
    }
    assert(a == b);
    if g < h {
        assert(groups[g][0] < groups[h][0]);
    } else if h < g {
        assert(groups[h][0] < groups[g][0]);
    }
}

} // verus!
