//! Descriptor matching: brute-force Hamming nearest and second-nearest neighbours in both
//! directions, Lowe's ratio test, and a mutual-best (cross-check) filter.

use vstd::prelude::*;

verus! {

/// A 256-bit binary feature descriptor.
#[derive(Clone, Copy, Debug)]
pub struct Descriptor {
    pub words: [u64; 4],
}

/// The number of one bits of `x`.
pub open spec fn popcount(x: u64) -> nat
    decreases x,
{
    if x == 0 {
        0
    } else {
        (x % 2) as nat + popcount(x / 2)
    }
}

proof fn lemma_popcount_bound(x: u64, k: nat)
    requires
        x < pow2(k),
    ensures
        popcount(x) <= k,
    decreases k,
{
    if x > 0 {
        if k == 0 {
            vstd::arithmetic::power2::lemma2_to64();
        }
        assert(k > 0);
        vstd::arithmetic::power2::lemma_pow2_unfold(k);
        assert(x / 2 < pow2((k - 1) as nat));
        lemma_popcount_bound(x / 2, (k - 1) as nat);
    }
}

/// The number of one bits of `x`, counted bit by bit.
fn count_ones(x: u64) -> (r: u32)
    ensures
        r == popcount(x),
{
    proof {
        vstd::arithmetic::power2::lemma2_to64();
        lemma_popcount_bound(x, 64);
    }
    let mut y = x;
    let mut c: u32 = 0;
    while y > 0
        invariant
            c + popcount(y) == popcount(x),
            popcount(x) <= 64,
        decreases y,
    {
        c = c + (y % 2) as u32;
        y = y / 2;
    }
    c
}

/// The Hamming distance of two descriptors: the number of differing bits.
pub open spec fn hamming_distance(a: [u64; 4], b: [u64; 4]) -> nat {
    popcount(a[0] ^ b[0]) + popcount(a[1] ^ b[1]) + popcount(a[2] ^ b[2]) + popcount(a[3] ^ b[3])
}

use vstd::arithmetic::power2::pow2;

impl Descriptor {
    /// A descriptor with the given bits.
    pub fn from_words(words: [u64; 4]) -> (d: Self)
        ensures
            d.words == words,
    {
        Descriptor { words }
    }

    /// Hamming distance: XOR and popcount over the four words.
    pub fn hamming(&self, other: &Descriptor) -> (r: u32)
        ensures
            r == hamming_distance(self.words, other.words),
            r <= 256,
    {
        proof {
            vstd::arithmetic::power2::lemma2_to64();
            lemma_popcount_bound(self.words[0] ^ other.words[0], 64);
            lemma_popcount_bound(self.words[1] ^ other.words[1], 64);
            lemma_popcount_bound(self.words[2] ^ other.words[2], 64);
            lemma_popcount_bound(self.words[3] ^ other.words[3], 64);
        }
        count_ones(self.words[0] ^ other.words[0]) + count_ones(self.words[1] ^ other.words[1])
            + count_ones(self.words[2] ^ other.words[2]) + count_ones(
            self.words[3] ^ other.words[3],
        )
    }
}

/// The Hamming distance is symmetric, and zero between a descriptor and itself.
pub proof fn law_hamming_metric(a: [u64; 4], b: [u64; 4])
    ensures
        hamming_distance(a, b) == hamming_distance(b, a),
        hamming_distance(a, a) == 0,
{
    let (a0, a1, a2, a3) = (a[0], a[1], a[2], a[3]);
    let (b0, b1, b2, b3) = (b[0], b[1], b[2], b[3]);
    assert(a0 ^ b0 == b0 ^ a0 && a1 ^ b1 == b1 ^ a1 && a2 ^ b2 == b2 ^ a2 && a3 ^ b3 == b3 ^ a3)
        by (bit_vector);
    assert(a0 ^ a0 == 0 && a1 ^ a1 == 0 && a2 ^ a2 == 0 && a3 ^ a3 == 0) by (bit_vector);
}

/// Distance from `q` to the `k`-th descriptor of `t`.
pub open spec fn dist(q: Descriptor, t: Seq<Descriptor>, k: int) -> nat {
    hamming_distance(q.words, t[k].words)
}

/// `j` is the first index of `t` nearest to `q`, and `s` is the least distance to any other index.
pub open spec fn nearest_two(q: Descriptor, t: Seq<Descriptor>, j: int, s: int) -> bool {
    &&& 0 <= j < t.len()
    &&& forall|k: int| 0 <= k < t.len() ==> #[trigger] dist(q, t, k) >= dist(q, t, j)
    &&& forall|k: int| 0 <= k < j ==> #[trigger] dist(q, t, k) > dist(q, t, j)
    &&& forall|k: int| 0 <= k < t.len() && k != j ==> #[trigger] dist(q, t, k) >= s
    &&& exists|k: int| 0 <= k < t.len() && k != j && #[trigger] dist(q, t, k) == s
}

/// Lowe's ratio test with ratio 0.8: the best distance is below 0.8 times the second best. For
/// distances of at most 256 this is exactly the single-precision comparison `best < 0.8 * second`.
pub open spec fn lowe_ok(best: int, second: int) -> bool {
    5 * best < 4 * second
}

/// `j` is the unambiguous nearest neighbour of `q` in `t`.
pub open spec fn accepted(q: Descriptor, t: Seq<Descriptor>, j: int) -> bool {
    exists|s: int| nearest_two(q, t, j, s) && lowe_ok(dist(q, t, j) as int, s)
}

/// The ratio-passing nearest neighbour of `q` in `t`, if any (none when `t` has fewer than two).
pub open spec fn match_of(q: Descriptor, t: Seq<Descriptor>) -> Option<usize> {
    if t.len() >= 2 && exists|j: int| accepted(q, t, j) {
        Some((choose|j: int| accepted(q, t, j)) as usize)
    } else {
        None
    }
}

/// For each descriptor of `from`, its ratio-passing nearest neighbour in `to`.
pub open spec fn matches_of(from: Seq<Descriptor>, to: Seq<Descriptor>) -> Seq<Option<usize>> {
    Seq::new(from.len(), |i: int| match_of(from[i], to))
}

/// The nearest index and second distance are unique.
proof fn lemma_nearest_two_unique(q: Descriptor, t: Seq<Descriptor>, j1: int, s1: int, j2: int, s2: int)
    requires
        nearest_two(q, t, j1, s1),
        nearest_two(q, t, j2, s2),
    ensures
        j1 == j2,
        s1 == s2,
{
    assert(dist(q, t, j2) >= dist(q, t, j1));
    assert(dist(q, t, j1) >= dist(q, t, j2));
    if j1 < j2 {
        assert(dist(q, t, j1) > dist(q, t, j2));
    }
    if j2 < j1 {
        assert(dist(q, t, j2) > dist(q, t, j1));
    }
    let k1 = choose|k: int| 0 <= k < t.len() && k != j1 && #[trigger] dist(q, t, k) == s1;
    let k2 = choose|k: int| 0 <= k < t.len() && k != j2 && #[trigger] dist(q, t, k) == s2;
    assert(dist(q, t, k1) >= s2);
    assert(dist(q, t, k2) >= s1);
}

/// Nearest and second-nearest descriptor of `train` for `query`: `(best index, best distance,
/// second distance)`, with `u32::MAX` for a missing neighbour.
pub fn best_two(query: &Descriptor, train: &[Descriptor]) -> (r: (usize, u32, u32))
    ensures
        train@.len() == 0 ==> r == (0usize, u32::MAX, u32::MAX),
        train@.len() == 1 ==> r == (0usize, dist(*query, train@, 0) as u32, u32::MAX),
        train@.len() >= 2 ==> nearest_two(*query, train@, r.0 as int, r.2 as int) && r.1 == dist(
            *query,
            train@,
            r.0 as int,
        ),
{
    let mut best: u32 = u32::MAX;
    let mut second: u32 = u32::MAX;
    let mut best_idx: usize = 0;
    let mut idx: usize = 0;
    while idx < train.len()
        invariant
            idx <= train@.len(),
            idx == 0 ==> best == u32::MAX && second == u32::MAX && best_idx == 0,
            idx > 0 ==> best_idx < idx && best == dist(*query, train@, best_idx as int),
            idx > 0 ==> forall|k: int| 0 <= k < idx ==> #[trigger] dist(*query, train@, k) >= best,
            forall|k: int| 0 <= k < best_idx ==> #[trigger] dist(*query, train@, k) > best,
            forall|k: int| 0 <= k < idx && k != best_idx ==> #[trigger] dist(*query, train@, k) >= second,
            idx >= 2 ==> exists|k: int| 0 <= k < idx && k != best_idx && #[trigger] dist(*query, train@, k) == second,
            idx == 1 ==> second == u32::MAX,
        decreases train@.len() - idx,
    {
        let d = query.hamming(&train[idx]);
        assert(d == dist(*query, train@, idx as int));
        if d < best {
            proof {
                if idx >= 1 {
                    assert(dist(*query, train@, best_idx as int) == best);
                }
            }
            second = best;
            best = d;
            best_idx = idx;
        } else if d < second {
            second = d;
        }
        idx = idx + 1;
    }
    (best_idx, best, second)
}

/// For every descriptor of `from`, its ratio-passing nearest index in `to` (or `None`).
pub fn directional(from: &[Descriptor], to: &[Descriptor]) -> (out: Vec<Option<usize>>)
    ensures
        out@ == matches_of(from@, to@),
        forall|i: int| 0 <= i < out@.len() ==> (#[trigger] out@[i] matches Some(j) ==> j < to@.len()),
{
    let mut out: Vec<Option<usize>> = Vec::new();
    let mut i: usize = 0;
    while i < from.len()
        invariant
            i <= from@.len(),
            out@ == matches_of(from@, to@).take(i as int),
            forall|k: int| 0 <= k < out@.len() ==> (#[trigger] out@[k] matches Some(j) ==> j < to@.len()),
        decreases from@.len() - i,
    {
        let q = &from[i];
        let m = if to.len() < 2 {
            None
        } else {
            let (idx, best, second) = best_two(q, to);
            let pass = 5 * (best as u64) < 4 * (second as u64);
            proof {
                if pass {
                    assert(accepted(*q, to@, idx as int));
                } else {
                    assert forall|j: int| !accepted(*q, to@, j) by {
                        if accepted(*q, to@, j) {
                            let s = choose|s: int| nearest_two(*q, to@, j, s) && lowe_ok(dist(*q, to@, j) as int, s);
                            lemma_nearest_two_unique(*q, to@, j, s, idx as int, second as int);
                        }
                    }
                }
                if exists|j: int| accepted(*q, to@, j) {
                    let c = choose|j: int| accepted(*q, to@, j);
                    let s = choose|s: int| nearest_two(*q, to@, c, s) && lowe_ok(dist(*q, to@, c) as int, s);
                    lemma_nearest_two_unique(*q, to@, c, s, idx as int, second as int);
                }
            }
            if pass {
                Some(idx)
            } else {
                None
            }
        };
        assert(m == match_of(from@[i as int], to@));
        out.push(m);
        assert(out@ =~= matches_of(from@, to@).take(i + 1));
        i = i + 1;
    }
    assert(out@ =~= matches_of(from@, to@));
    out
}

/// The mutually consistent pairs among the first `n` entries: `(i, j)` with `fwd[i] = j` and
/// `bwd[j] = i`, in increasing `i`.
pub open spec fn mutual_pairs(fwd: Seq<Option<usize>>, bwd: Seq<Option<usize>>, n: int) -> Seq<(usize, usize)>
    decreases n,
{
    if n <= 0 {
        Seq::empty()
    } else {
        let p = mutual_pairs(fwd, bwd, n - 1);
        match fwd[n - 1] {
            Some(j) => if j < bwd.len() && bwd[j as int] == Some((n - 1) as usize) {
                p.push(((n - 1) as usize, j))
            } else {
                p
            },
            None => p,
        }
    }
}

/// Mutually consistent, ratio-passing matches as `(i, j)` index pairs into `di` and `dj`.
pub fn match_descriptors(di: &[Descriptor], dj: &[Descriptor]) -> (out: Vec<(usize, usize)>)
    ensures
        out@ == mutual_pairs(
            matches_of(di@, dj@),
            matches_of(dj@, di@),
            di@.len() as int,
        ),
{
    let fwd = directional(di, dj);
    let bwd = directional(dj, di);
    let mut out: Vec<(usize, usize)> = Vec::new();
    let mut i: usize = 0;
    while i < fwd.len()
        invariant
            fwd@ == matches_of(di@, dj@),
            bwd@ == matches_of(dj@, di@),
            bwd@.len() == dj@.len(),
            forall|k: int| 0 <= k < fwd@.len() ==> (#[trigger] fwd@[k] matches Some(j) ==> j < dj@.len()),
            i <= fwd@.len(),
            out@ == mutual_pairs(fwd@, bwd@, i as int),
        decreases fwd@.len() - i,
    {
        if let Some(j) = fwd[i] {
            if bwd[j] == Some(i) {
                out.push((i, j));
            }
        }
        i = i + 1;
    }
    out
}

/// Mutual-best matching is one-to-one: no index of either side is matched twice.
pub proof fn law_mutual_matches_one_to_one(fwd: Seq<Option<usize>>, bwd: Seq<Option<usize>>, n: int)
    requires
        0 <= n <= fwd.len() <= usize::MAX,
    ensures
        forall|a: int, b: int|
            0 <= a < b < mutual_pairs(fwd, bwd, n).len() ==> #[trigger] mutual_pairs(fwd, bwd, n)[a].0
                < #[trigger] mutual_pairs(fwd, bwd, n)[b].0 && mutual_pairs(fwd, bwd, n)[a].1
                != mutual_pairs(fwd, bwd, n)[b].1,
        forall|a: int|
            0 <= a < mutual_pairs(fwd, bwd, n).len() ==> (#[trigger] mutual_pairs(fwd, bwd, n)[a]).0 < n
                && fwd[mutual_pairs(fwd, bwd, n)[a].0 as int] == Some(mutual_pairs(fwd, bwd, n)[a].1)
                && bwd[mutual_pairs(fwd, bwd, n)[a].1 as int] == Some(mutual_pairs(fwd, bwd, n)[a].0),
    decreases n,
{
    if n > 0 {
        law_mutual_matches_one_to_one(fwd, bwd, n - 1);
        let p = mutual_pairs(fwd, bwd, n - 1);
        let cur = mutual_pairs(fwd, bwd, n);
        if cur.len() > p.len() {
            let x = cur[cur.len() - 1];
            assert(cur =~= p.push(x));
            assert(x.0 == n - 1);
            assert(bwd[x.1 as int] == Some(x.0));
            assert forall|a: int, b: int| 0 <= a < b < cur.len() implies #[trigger] cur[a].0
                < #[trigger] cur[b].0 && cur[a].1 != cur[b].1 by {
                if b == cur.len() - 1 {
                    assert(cur[a] == p[a]);
                    assert(p[a].0 < n - 1);
                    if p[a].1 == x.1 {
                        assert(bwd[x.1 as int] == Some(p[a].0));
                    }
                } else {
                    assert(cur[a] == p[a] && cur[b] == p[b]);
                }
            }
            assert forall|a: int| 0 <= a < cur.len() implies (#[trigger] cur[a]).0 < n && fwd[cur[a].0 as int]
                == Some(cur[a].1) && bwd[cur[a].1 as int] == Some(cur[a].0) by {
                if a < cur.len() - 1 {
                    assert(cur[a] == p[a]);
                }
            }
        } else {
            assert(cur =~= p);
        }
    }
}

} // verus!
