//! Auto-crop: the largest axis-aligned all-covered rectangle inside a panorama's valid mask.
//!
//! Per row, the running height of consecutive covered pixels ending at that row is kept for every
//! column; each row's histogram is then solved for its largest rectangle with a monotonic stack.
//! Overall `O(w·h)`.

use vstd::prelude::*;

verus! {

/// Bar `i` of a histogram, with the sentinel bar `0` past the right end.
pub open spec fn bar(h: Seq<usize>, i: int) -> int {
    if 0 <= i < h.len() { h[i] as int } else { 0 }
}

/// Every bar in `[l, r)` is at least `hh` tall.
pub open spec fn bars_at_least(h: Seq<usize>, l: int, r: int, hh: int) -> bool {
    forall|t: int| l <= t < r ==> #[trigger] bar(h, t) >= hh
}

/// `k` is the first position of the minimum bar of `[l, r)`.
pub open spec fn first_min(h: Seq<usize>, l: int, k: int, r: int) -> bool {
    &&& l <= k < r
    &&& forall|t: int| l <= t < k ==> #[trigger] bar(h, t) > bar(h, k)
    &&& forall|t: int| k <= t < r ==> #[trigger] bar(h, t) >= bar(h, k)
}

/// Every non-empty range of bars has a first minimum.
pub proof fn lemma_first_min(h: Seq<usize>, l: int, r: int) -> (k: int)
    requires
        l < r,
    ensures
        first_min(h, l, k, r),
    decreases r - l,
{
    if r == l + 1 {
        l
    } else {
        let k0 = lemma_first_min(h, l, r - 1);
        if bar(h, r - 1) >= bar(h, k0) {
            k0
        } else {
            r - 1
        }
    }
}

/// Lower bound of the run of bars that sits between stack slot `j - 1` and stack slot `j`.
pub open spec fn gap_lo(s: Seq<usize>, j: int) -> int {
    if j == 0 { 0 } else { s[j - 1] + 1 }
}

/// The monotonic-stack invariant after the bars `[0, i)` have been pushed.
#[verifier::opaque]
pub open spec fn stack_ok(h: Seq<usize>, s: Seq<usize>, i: int) -> bool {
    &&& forall|j: int| 0 <= j < s.len() ==> #[trigger] s[j] < i
    &&& forall|a: int, b: int| 0 <= a < b < s.len() ==> #[trigger] s[a] < #[trigger] s[b]
    &&& forall|a: int, b: int|
        0 <= a < b < s.len() ==> bar(h, #[trigger] s[a] as int) <= bar(h, #[trigger] s[b] as int)
    &&& forall|j: int, t: int|
        0 <= j < s.len() && gap_lo(s, j) <= t < s[j] ==> #[trigger] bar(h, t) > bar(
            h,
            #[trigger] s[j] as int,
        )
    &&& forall|j: int, t: int|
        0 <= j < s.len() && s[j] < t < i ==> #[trigger] bar(h, t) >= bar(h, #[trigger] s[j] as int)
}

/// Some bar in `(k, i]` is strictly lower than bar `k`.
pub open spec fn lower_after(h: Seq<usize>, k: int, i: int) -> bool {
    exists|p: int| k < p <= i && #[trigger] bar(h, p) < bar(h, k)
}

/// A bar that left the stack before `i` was popped by a strictly lower bar in `(k, i]`.
#[verifier::opaque]
pub open spec fn popped_ok(h: Seq<usize>, s: Seq<usize>, i: int) -> bool {
    forall|k: int| 0 <= k < i && !s.contains(k as usize) ==> #[trigger] lower_after(h, k, i)
}

/// Every rectangle whose first minimum already left the stack is no larger than `best`.
#[verifier::opaque]
pub open spec fn covered_by_best(h: Seq<usize>, s: Seq<usize>, i: int, best: int) -> bool {
    forall|l: int, k: int, r: int|
        r <= i && r <= h.len() && 0 <= l && #[trigger] first_min(h, l, k, r) && !s.contains(
            k as usize,
        ) ==> bar(h, k) * (r - l) <= best
}

/// Every rectangle ending before `rb` whose first minimum already left the stack is smaller than
/// `best`.
#[verifier::opaque]
pub open spec fn earlier_smaller(h: Seq<usize>, s: Seq<usize>, rb: int, best: int) -> bool {
    forall|l: int, k: int, r: int|
        r < rb && 0 <= l && #[trigger] first_min(h, l, k, r) && !s.contains(k as usize) ==> bar(h, k) * (r
            - l) < best
}

/// Every rectangle ending at `rb` that is taller than `hb` is smaller than `best`.
#[verifier::opaque]
pub open spec fn taller_smaller(h: Seq<usize>, rb: int, hb: int, best: int) -> bool {
    forall|l: int, hh: int| 0 <= l <= rb && hh > hb && #[trigger] bars_at_least(h, l, rb, hh) ==> hh * (rb - l) < best
}

/// Every bar right of the stack top (up to `i`) is strictly taller than `cur`.
#[verifier::opaque]
pub open spec fn above_top(h: Seq<usize>, s: Seq<usize>, i: int, cur: int) -> bool {
    forall|t: int| (if s.len() == 0 { 0 } else { s.last() + 1 }) <= t < i ==> #[trigger] bar(h, t) > cur
}

/// `(x0, width, height)` is a rectangle standing on the histogram.
pub open spec fn hist_rect(h: Seq<usize>, x0: int, width: int, height: int) -> bool {
    &&& 0 <= x0
    &&& x0 + width <= h.len()
    &&& bars_at_least(h, x0, x0 + width, height)
}

/// Largest rectangle in a histogram: `(x0, width, height, area)` of a best bar-bounded rectangle,
/// `(0, 0, 0, 0)` when every bar is empty.
pub fn largest_in_histogram(heights: &[usize]) -> (res: (usize, usize, usize, usize))
    requires
        forall|k: int| 0 <= k < heights.len() ==> heights[k] * heights.len() <= usize::MAX,
    ensures
        hist_rect(heights@, res.0 as int, res.1 as int, res.2 as int),
        res.3 == res.2 * res.1,
        forall|l: int, r: int, hh: int|
            0 <= l <= r <= heights.len() && 0 <= hh && bars_at_least(heights@, l, r, hh) ==> hh * (r
                - l) <= res.3,
        res.3 == 0 ==> res == (0usize, 0usize, 0usize, 0usize),
        res.3 > 0 ==> forall|l: int, r: int, hh: int|
            0 <= l <= r <= heights.len() && 0 <= hh && bars_at_least(heights@, l, r, hh) && hh * (r - l)
                == res.3 ==> res.0 + res.1 < r || (res.0 + res.1 == r && hh <= res.2),
{
    let ghost h = heights@;
    let n = heights.len();
    let mut stack: Vec<usize> = Vec::new();
    let mut best = (0usize, 0usize, 0usize, 0usize);
    let mut best_area = 0usize;
    let mut i: usize = 0;
    assert(best_area == best.2 * best.1);
    proof {
        lemma_histogram_start(h);
    }
    loop
        invariant_except_break
            i <= n,
            n == h.len(),
            h == heights@,
            forall|k: int| 0 <= k < n ==> heights[k] * n <= usize::MAX,
            stack@.len() == 0 <==> i == 0,
            i > 0 ==> stack@.last() == i - 1,
            stack_ok(h, stack@, i as int),
            forall|j: int| 0 <= j < stack@.len() ==> stack@[j] < i,
            popped_ok(h, stack@, i as int - 1),
            covered_by_best(h, stack@, i as int, best_area as int),
            best.3 == best_area,
            best_area == best.2 * best.1,
            hist_rect(h, best.0 as int, best.1 as int, best.2 as int),
            best_area == 0 ==> best == (0usize, 0usize, 0usize, 0usize),
            best_area > 0 ==> best.0 + best.1 <= i && earlier_smaller(h, stack@, best.0 + best.1, best_area as int)
                && taller_smaller(h, best.0 + best.1, best.2 as int, best_area as int),
        ensures
            stack_ok(h, stack@, n + 1int),
            stack@.len() > 0,
            stack@.last() == n,
            covered_by_best(h, stack@, n + 1int, best_area as int),
            best.3 == best_area,
            best_area == best.2 * best.1,
            hist_rect(h, best.0 as int, best.1 as int, best.2 as int),
            best_area == 0 ==> best == (0usize, 0usize, 0usize, 0usize),
            best_area > 0 ==> best.0 + best.1 <= n && earlier_smaller(h, stack@, best.0 + best.1, best_area as int)
                && taller_smaller(h, best.0 + best.1, best.2 as int, best_area as int),
        decreases n - i,
    {
        let cur = if i < n { heights[i] } else { 0 };
        assert(cur == bar(h, i as int));
        proof {
            lemma_popped_ok_advance(h, stack@, i as int);
            reveal(above_top);
        }
        loop
            invariant_except_break
                i <= n,
                n == h.len(),
                h == heights@,
                cur == bar(h, i as int),
                forall|k: int| 0 <= k < n ==> heights[k] * n <= usize::MAX,
                stack_ok(h, stack@, i as int),
                forall|j: int| 0 <= j < stack@.len() ==> stack@[j] < i,
                above_top(h, stack@, i as int, cur as int),
                popped_ok(h, stack@, i as int),
                covered_by_best(h, stack@, i as int, best_area as int),
                best.3 == best_area,
                best_area == best.2 * best.1,
                hist_rect(h, best.0 as int, best.1 as int, best.2 as int),
                best_area == 0 ==> best == (0usize, 0usize, 0usize, 0usize),
                best_area > 0 ==> best.0 + best.1 <= i && earlier_smaller(h, stack@, best.0 + best.1, best_area as int)
                    && taller_smaller(h, best.0 + best.1, best.2 as int, best_area as int),
            ensures
                stack_ok(h, stack@, i as int),
                forall|j: int| 0 <= j < stack@.len() ==> stack@[j] < i,
                stack@.len() > 0 ==> bar(h, stack@.last() as int) <= cur,
                above_top(h, stack@, i as int, cur as int),
                popped_ok(h, stack@, i as int),
                covered_by_best(h, stack@, i as int, best_area as int),
                best.3 == best_area,
                best_area == best.2 * best.1,
                hist_rect(h, best.0 as int, best.1 as int, best.2 as int),
                best_area == 0 ==> best == (0usize, 0usize, 0usize, 0usize),
                best_area > 0 ==> best.0 + best.1 <= i && earlier_smaller(h, stack@, best.0 + best.1, best_area as int)
                    && taller_smaller(h, best.0 + best.1, best.2 as int, best_area as int),
            decreases stack@.len(),
        {
            if stack.len() == 0 {
                break;
            }
            let top = stack[stack.len() - 1];
            if heights[top] <= cur {
                break;
            }
            let ghost old_s = stack@;
            stack.pop();
            let height = heights[top];
            let left = if stack.len() > 0 { stack[stack.len() - 1] + 1 } else { 0 };
            let width = i - left;
            proof {
                assert(old_s[old_s.len() - 1] == top);
                assert(stack@ == old_s.drop_last());
                assert(width <= n);
                vstd::arithmetic::mul::lemma_mul_inequality(width as int, n as int, height as int);
                vstd::arithmetic::mul::lemma_mul_is_commutative(width as int, height as int);
                vstd::arithmetic::mul::lemma_mul_is_commutative(n as int, height as int);
                assert(heights[top as int] * n <= usize::MAX);
            }
            let area = height * width;
            proof {
                lemma_pop_geometry(h, old_s, i as int, cur as int, left as int);
                lemma_pop_bounds(h, old_s, i as int, cur as int, best_area as int, left as int);
                lemma_stack_ok_drop_last(h, old_s, i as int);
                lemma_tie_pop(h, old_s, i as int, cur as int, best_area as int, left as int, best.0 + best.1, best.2 as int);
            }
            if area > best_area {
                best_area = area;
                best = (left, width, height, area);
            }
        }
        let ghost old_s = stack@;
        stack.push(i);
        proof {
            lemma_push_step(h, old_s, i as int, cur as int, best_area as int);
            if best_area > 0 {
                lemma_tie_push(h, old_s, i as usize, best.0 + best.1, best_area as int);
            }
        }
        if i == n {
            break;
        }
        i = i + 1;
    }
    proof {
        lemma_histogram_final(h, stack@, best_area as int);
        if best_area > 0 {
            lemma_tie_final(h, stack@, best.0 + best.1, best.2 as int, best_area as int);
        }
    }
    best
}

/// Membership in a stack after dropping its top.
proof fn lemma_drop_last_contains(s: Seq<usize>, x: usize)
    requires
        s.len() > 0,
    ensures
        s.contains(x) <==> (s.drop_last().contains(x) || s.last() == x),
{
    let s2 = s.drop_last();
    if s.contains(x) {
        let q = choose|q: int| 0 <= q < s.len() && s[q] == x;
        if q < s.len() - 1 {
            assert(s2[q] == s[q]);
        }
    }
    if s2.contains(x) {
        let q = choose|q: int| 0 <= q < s2.len() && s2[q] == x;
        assert(s[q] == s2[q]);
    }
    if s.last() == x {
        assert(s[s.len() - 1] == x);
    }
}

/// Membership in a stack after a push.
proof fn lemma_push_contains(s: Seq<usize>, v: usize, x: usize)
    ensures
        s.push(v).contains(x) <==> (s.contains(x) || v == x),
{
    let s2 = s.push(v);
    if s.contains(x) {
        let q = choose|q: int| 0 <= q < s.len() && s[q] == x;
        assert(s2[q] == s[q]);
    }
    if s2.contains(x) {
        let q = choose|q: int| 0 <= q < s2.len() && s2[q] == x;
        if q < s.len() {
            assert(s[q] == s2[q]);
        }
    }
    if v == x {
        assert(s2[s.len() as int] == x);
    }
}

/// Dropping the top of the stack keeps its shape invariant.
proof fn lemma_stack_ok_drop_last(h: Seq<usize>, s: Seq<usize>, i: int)
    requires
        stack_ok(h, s, i),
        s.len() > 0,
    ensures
        stack_ok(h, s.drop_last(), i),
{
    reveal(stack_ok);
    let s2 = s.drop_last();
    assert forall|a: int, b: int| 0 <= a < b < s2.len() implies #[trigger] s2[a] < #[trigger] s2[b] by {
        assert(s2[a] == s[a] && s2[b] == s[b]);
    }
    assert forall|a: int, b: int|
        0 <= a < b < s2.len() implies bar(h, #[trigger] s2[a] as int) <= bar(h, #[trigger] s2[b] as int) by {
        assert(s2[a] == s[a] && s2[b] == s[b]);
    }
    assert forall|jj: int, t: int|
        0 <= jj < s2.len() && gap_lo(s2, jj) <= t < s2[jj] implies #[trigger] bar(h, t) > bar(h, #[trigger] s2[jj] as int) by {
        assert(s2[jj] == s[jj]);
        assert(gap_lo(s2, jj) == gap_lo(s, jj));
    }
    assert forall|jj: int, t: int|
        0 <= jj < s2.len() && s2[jj] < t < i implies #[trigger] bar(h, t) >= bar(h, #[trigger] s2[jj] as int) by {
        assert(s2[jj] == s[jj]);
    }
    assert forall|jj: int| 0 <= jj < s2.len() implies #[trigger] s2[jj] < i by {
        assert(s2[jj] == s[jj]);
    }
}

/// Facts about the top of the stack and the bar below it.
proof fn lemma_pop_geometry(h: Seq<usize>, s: Seq<usize>, i: int, cur: int, left: int)
    requires
        0 <= i <= h.len(),
        cur == bar(h, i),
        s.len() > 0,
        bar(h, s.last() as int) > cur,
        left == (if s.len() > 1 { s[s.len() - 2] + 1 } else { 0 }),
        stack_ok(h, s, i),
        above_top(h, s, i, cur),
    ensures
        ({
            let s2 = s.drop_last();
            let k = s.last() as int;
            &&& above_top(h, s2, i, cur)
            &&& hist_rect(h, left, i - left, bar(h, k))
            &&& k < h.len()
            &&& 0 <= left <= k < i
            &&& s.len() > 1 ==> bar(h, s[s.len() - 2] as int) <= bar(h, k) && s[s.len() - 2] < k
        }),
{
    reveal(stack_ok);
    reveal(above_top);
    let s2 = s.drop_last();
    let k = s.last() as int;
    let j = s.len() - 1;
    assert(s[j] == k);
    assert(k < i);
    assert(k < h.len()) by {
        if k >= h.len() {
            assert(bar(h, k) == 0);
        }
    }
    assert(left == gap_lo(s, j));
    if s.len() > 1 {
        assert(s[j - 1] < s[j]);
        assert(bar(h, s[j - 1] as int) <= bar(h, s[j] as int));
        assert(s2.last() == s[j - 1]);
    }
    assert forall|t: int|
        (if s2.len() == 0 { 0 } else { s2.last() + 1 }) <= t < i implies #[trigger] bar(h, t) > cur by {
        if t < k {
            assert(gap_lo(s, j) <= t < s[j]);
            assert(bar(h, t) > bar(h, s[j] as int));
        }
    }
    assert forall|t: int| left <= t < left + (i - left) implies #[trigger] bar(h, t) >= bar(h, k) by {
        if t < k {
            assert(gap_lo(s, j) <= t < s[j]);
        } else if t > k {
            assert(s[j] < t < i);
        }
    }
}

/// After popping bar `k` at `i`, it has a strictly lower witness, and every rectangle whose first
/// minimum is `k` fits inside `[left, i)`.
proof fn lemma_pop_bounds(h: Seq<usize>, s: Seq<usize>, i: int, cur: int, best: int, left: int)
    requires
        0 <= i <= h.len(),
        h.len() <= usize::MAX,
        cur == bar(h, i),
        s.len() > 0,
        bar(h, s.last() as int) > cur,
        left == (if s.len() > 1 { s[s.len() - 2] + 1 } else { 0 }),
        s.len() > 1 ==> bar(h, s[s.len() - 2] as int) <= bar(h, s.last() as int) && s[s.len() - 2] < s.last(),
        0 <= left <= s.last() < i,
        popped_ok(h, s, i),
        covered_by_best(h, s, i, best),
    ensures
        ({
            let s2 = s.drop_last();
            let k = s.last() as int;
            &&& popped_ok(h, s2, i)
            &&& covered_by_best(h, s2, i, if bar(h, k) * (i - left) > best { bar(h, k) * (i - left) } else { best })
        }),
{
    reveal(popped_ok);
    reveal(covered_by_best);
    let s2 = s.drop_last();
    let k = s.last() as int;
    assert forall|kk: int| 0 <= kk < i && !s2.contains(kk as usize) implies #[trigger] lower_after(h, kk, i) by {
        lemma_drop_last_contains(s, kk as usize);
        if kk == k {
            assert(bar(h, i) < bar(h, kk));
        }
    }
    let area = bar(h, k) * (i - left);
    let nb = if area > best { area } else { best };
    assert forall|l: int, kk: int, r: int|
        r <= i && r <= h.len() && 0 <= l && #[trigger] first_min(h, l, kk, r) && !s2.contains(kk as usize)
            implies bar(h, kk) * (r - l) <= nb by {
        lemma_drop_last_contains(s, kk as usize);
        if kk == k {
            if s.len() > 1 {
                let b = s[s.len() - 2] as int;
                if b >= l {
                    assert(l <= b < kk);
                    assert(bar(h, b) > bar(h, kk));
                }
            }
            assert(r - l <= i - left);
            vstd::arithmetic::mul::lemma_mul_inequality(r - l, i - left, bar(h, k));
            vstd::arithmetic::mul::lemma_mul_is_commutative(r - l, bar(h, k));
            vstd::arithmetic::mul::lemma_mul_is_commutative(i - left, bar(h, k));
        }
    }
}

/// Pushing bar `i` after the pops keeps the invariants for `i + 1`.
proof fn lemma_push_step(h: Seq<usize>, s: Seq<usize>, i: int, cur: int, best: int)
    requires
        0 <= i <= h.len(),
        h.len() <= usize::MAX,
        cur == bar(h, i),
        stack_ok(h, s, i),
        s.len() > 0 ==> bar(h, s.last() as int) <= cur,
        above_top(h, s, i, cur),
        popped_ok(h, s, i),
        covered_by_best(h, s, i, best),
    ensures
        ({
            let s2 = s.push(i as usize);
            &&& stack_ok(h, s2, i + 1)
            &&& popped_ok(h, s2, i)
            &&& covered_by_best(h, s2, i + 1, best)
            &&& s2.last() == i
        }),
{
    reveal(stack_ok);
    reveal(above_top);
    reveal(popped_ok);
    reveal(covered_by_best);
    let s2 = s.push(i as usize);
    let m = s.len() as int;
    assert(s2[m] == i);
    assert forall|jj: int| 0 <= jj < s2.len() implies #[trigger] s2[jj] < i + 1 by {
        if jj < m { assert(s2[jj] == s[jj]); }
    }
    assert forall|a: int, b: int| 0 <= a < b < s2.len() implies #[trigger] s2[a] < #[trigger] s2[b] by {
        assert(s2[a] == s[a]);
        if b < m { assert(s2[b] == s[b]); }
    }
    assert forall|a: int, b: int|
        0 <= a < b < s2.len() implies bar(h, #[trigger] s2[a] as int) <= bar(h, #[trigger] s2[b] as int) by {
        assert(s2[a] == s[a]);
        if b < m {
            assert(s2[b] == s[b]);
        } else {
            assert(bar(h, s[a] as int) <= bar(h, s.last() as int)) by {
                if a < m - 1 {
                    assert(s[a] < s[m - 1]);
                }
            }
        }
    }
    assert forall|jj: int, t: int|
        0 <= jj < s2.len() && gap_lo(s2, jj) <= t < s2[jj] implies #[trigger] bar(h, t) > bar(h, #[trigger] s2[jj] as int) by {
        if jj < m {
            assert(s2[jj] == s[jj]);
            assert(gap_lo(s2, jj) == gap_lo(s, jj));
        } else {
            if m > 0 {
                assert(s2[jj - 1] == s[m - 1]);
            }
        }
    }
    assert forall|jj: int, t: int|
        0 <= jj < s2.len() && s2[jj] < t < i + 1 implies #[trigger] bar(h, t) >= bar(h, #[trigger] s2[jj] as int) by {
        if jj < m {
            assert(s2[jj] == s[jj]);
            if t == i {
                assert(bar(h, s[jj] as int) <= bar(h, s.last() as int)) by {
                    if jj < m - 1 {
                        assert(s[jj] < s[m - 1]);
                    }
                }
            }
        }
    }
    assert forall|kk: int| 0 <= kk < i && !s2.contains(kk as usize) implies #[trigger] lower_after(h, kk, i) by {
        lemma_push_contains(s, i as usize, kk as usize);
    }
    assert forall|l: int, kk: int, r: int|
        r <= i + 1 && r <= h.len() && 0 <= l && #[trigger] first_min(h, l, kk, r) && !s2.contains(kk as usize)
            implies bar(h, kk) * (r - l) <= best by {
        lemma_push_contains(s, i as usize, kk as usize);
        if r == i + 1 {
            assert(lower_after(h, kk, i));
            let p = choose|p: int| kk < p <= i && #[trigger] bar(h, p) < bar(h, kk);
            assert(kk <= p < r);
        }
    }
}

/// Popping bar `k` at `i` keeps the tie-break facts: a new best is the first rectangle ending at `i`
/// that reaches its area, and a bar that does not beat the best leaves it standing.
proof fn lemma_tie_pop(h: Seq<usize>, s: Seq<usize>, i: int, cur: int, best: int, left: int, rb: int, hb: int)
    requires
        0 <= i <= h.len(),
        h.len() <= usize::MAX,
        cur == bar(h, i),
        cur >= 0,
        best >= 0,
        s.len() > 0,
        bar(h, s.last() as int) > cur,
        left == (if s.len() > 1 { s[s.len() - 2] + 1 } else { 0 }),
        s.len() > 1 ==> bar(h, s[s.len() - 2] as int) <= bar(h, s.last() as int) && s[s.len() - 2] < s.last(),
        0 <= left <= s.last() < i,
        stack_ok(h, s, i),
        covered_by_best(h, s, i, best),
        best > 0 ==> rb <= i && earlier_smaller(h, s, rb, best) && taller_smaller(h, rb, hb, best),
    ensures
        ({
            let s2 = s.drop_last();
            let k = s.last() as int;
            let area = bar(h, k) * (i - left);
            &&& area > best ==> earlier_smaller(h, s2, i, area) && taller_smaller(h, i, bar(h, k), area)
            &&& area <= best && best > 0 ==> earlier_smaller(h, s2, rb, best)
        }),
{
    reveal(stack_ok);
    reveal(covered_by_best);
    reveal(earlier_smaller);
    reveal(taller_smaller);
    let s2 = s.drop_last();
    let k = s.last() as int;
    let area = bar(h, k) * (i - left);
    assert(bar(h, k) > 0);
    // A rectangle with first minimum `k` starts at or after `left`.
    assert forall|l: int, r: int| 0 <= l && #[trigger] first_min(h, l, k, r) implies l >= left by {
        if s.len() > 1 {
            let b = s[s.len() - 2] as int;
            if b >= l {
                assert(l <= b < k);
                assert(bar(h, b) > bar(h, k));
            }
        }
    }
    if area > best {
        assert forall|l: int, kk: int, r: int|
            r < i && 0 <= l && #[trigger] first_min(h, l, kk, r) && !s2.contains(kk as usize) implies bar(h, kk) * (r
                - l) < area by {
            lemma_drop_last_contains(s, kk as usize);
            if kk == k {
                assert(l >= left);
                vstd::arithmetic::mul::lemma_mul_strict_inequality(r - l, i - left, bar(h, k));
                vstd::arithmetic::mul::lemma_mul_is_commutative(r - l, bar(h, k));
                vstd::arithmetic::mul::lemma_mul_is_commutative(i - left, bar(h, k));
            } else {
                assert(r <= h.len());
            }
        }
        assert forall|l: int, hh: int| 0 <= l <= i && hh > bar(h, k) && #[trigger] bars_at_least(h, l, i, hh) implies hh
            * (i - l) < area by {
            if l <= k {
                assert(bar(h, k) >= hh);
            } else if l == i {
                assert(hh * (i - l) == 0) by (nonlinear_arith)
                    requires
                        i - l == 0,
                ;
            } else {
                let kk = lemma_first_min(h, l, i);
                assert(bar(h, kk) >= hh);
                assert(!s.contains(kk as usize)) by {
                    if s.contains(kk as usize) {
                        let q = choose|q: int| 0 <= q < s.len() && s[q] == kk as usize;
                        if q < s.len() - 1 {
                            assert(s[q] < s[s.len() - 1]);
                        }
                    }
                }
                assert(bar(h, kk) * (i - l) <= best);
                vstd::arithmetic::mul::lemma_mul_inequality(hh, bar(h, kk), i - l);
            }
        }
    } else if best > 0 {
        assert forall|l: int, kk: int, r: int|
            r < rb && 0 <= l && #[trigger] first_min(h, l, kk, r) && !s2.contains(kk as usize) implies bar(h, kk) * (r
                - l) < best by {
            lemma_drop_last_contains(s, kk as usize);
            if kk == k {
                assert(l >= left);
                vstd::arithmetic::mul::lemma_mul_strict_inequality(r - l, i - left, bar(h, k));
                vstd::arithmetic::mul::lemma_mul_is_commutative(r - l, bar(h, k));
                vstd::arithmetic::mul::lemma_mul_is_commutative(i - left, bar(h, k));
            }
        }
    }
}

/// Pushing a bar keeps the tie-break facts.
proof fn lemma_tie_push(h: Seq<usize>, s: Seq<usize>, i: usize, rb: int, best: int)
    requires
        earlier_smaller(h, s, rb, best),
    ensures
        earlier_smaller(h, s.push(i), rb, best),
{
    reveal(earlier_smaller);
    assert forall|l: int, kk: int, r: int|
        r < rb && 0 <= l && #[trigger] first_min(h, l, kk, r) && !s.push(i).contains(kk as usize) implies bar(h, kk) * (r
            - l) < best by {
        lemma_push_contains(s, i, kk as usize);
    }
}

/// After the sentinel pass, a rectangle as large as the best ends no earlier, and one ending where
/// the best ends is no taller.
proof fn lemma_tie_final(h: Seq<usize>, s: Seq<usize>, rb: int, hb: int, best: int)
    requires
        h.len() <= usize::MAX,
        stack_ok(h, s, h.len() + 1int),
        s.len() > 0,
        s.last() == h.len(),
        best > 0,
        earlier_smaller(h, s, rb, best),
        taller_smaller(h, rb, hb, best),
    ensures
        forall|l: int, r: int, hh: int|
            0 <= l <= r <= h.len() && 0 <= hh && bars_at_least(h, l, r, hh) && hh * (r - l) == best ==> rb < r
                || (rb == r && hh <= hb),
{
    reveal(stack_ok);
    reveal(earlier_smaller);
    reveal(taller_smaller);
    assert forall|l: int, r: int, hh: int|
        0 <= l <= r <= h.len() && 0 <= hh && bars_at_least(h, l, r, hh) && hh * (r - l) == best implies rb < r || (rb
            == r && hh <= hb) by {
        if l == r {
            assert(hh * (r - l) == 0) by (nonlinear_arith)
                requires
                    r - l == 0,
            ;
        } else {
            let k = lemma_first_min(h, l, r);
            assert(bar(h, k) >= hh);
            if s.contains(k as usize) {
                let q = choose|q: int| 0 <= q < s.len() && s[q] == k as usize;
                let m = s.len() - 1;
                assert(q < m) by {
                    if q == m {
                        assert(k < h.len());
                    }
                }
                assert(bar(h, s[q] as int) <= bar(h, s[m] as int));
                assert(bar(h, h.len() as int) == 0);
                assert(hh * (r - l) == 0) by (nonlinear_arith)
                    requires
                        hh == 0,
                ;
            } else {
                vstd::arithmetic::mul::lemma_mul_inequality(hh, bar(h, k), r - l);
                if r < rb {
                    assert(first_min(h, l, k, r));
                    assert(bar(h, k) * (r - l) < best);
                }
                if r == rb && hh > hb {
                    assert(bars_at_least(h, l, rb, hh));
                }
            }
        }
    }
}

/// Advancing `i` past a bar that is still on top of the stack keeps the popped-bar witnesses.
proof fn lemma_popped_ok_advance(h: Seq<usize>, s: Seq<usize>, i: int)
    requires
        popped_ok(h, s, i - 1),
        i > 0 ==> s.len() > 0 && s.last() == i - 1,
        i <= usize::MAX,
    ensures
        popped_ok(h, s, i),
{
    reveal(popped_ok);
    assert forall|k: int| 0 <= k < i && !s.contains(k as usize) implies #[trigger] lower_after(h, k, i) by {
        if k == i - 1 {
            assert(s[s.len() - 1] == k as usize);
        } else {
            assert(lower_after(h, k, i - 1));
            let p = choose|p: int| k < p <= i - 1 && #[trigger] bar(h, p) < bar(h, k);
            assert(k < p <= i && bar(h, p) < bar(h, k));
        }
    }
}

/// The invariants hold before the first bar.
proof fn lemma_histogram_start(h: Seq<usize>)
    ensures
        stack_ok(h, Seq::<usize>::empty(), 0),
        popped_ok(h, Seq::<usize>::empty(), -1),
        covered_by_best(h, Seq::<usize>::empty(), 0, 0),
{
    reveal(stack_ok);
    reveal(popped_ok);
    reveal(covered_by_best);
    assert forall|l: int, k: int, r: int|
        r <= 0 && 0 <= l && #[trigger] first_min(h, l, k, r) implies false by {}
}

/// After the sentinel pass, every rectangle on the histogram is bounded by `best`.
proof fn lemma_histogram_final(h: Seq<usize>, s: Seq<usize>, best: int)
    requires
        h.len() <= usize::MAX,
        stack_ok(h, s, h.len() + 1int),
        s.len() > 0,
        s.last() == h.len(),
        covered_by_best(h, s, h.len() + 1int, best),
        best >= 0,
    ensures
        forall|l: int, r: int, hh: int|
            0 <= l <= r <= h.len() && 0 <= hh && bars_at_least(h, l, r, hh) ==> hh * (r - l) <= best,
{
    reveal(stack_ok);
    reveal(covered_by_best);
    assert forall|l: int, r: int, hh: int|
        0 <= l <= r <= h.len() && 0 <= hh && bars_at_least(h, l, r, hh) implies hh * (r - l) <= best by {
        if l < r {
            let k = lemma_first_min(h, l, r);
            assert(bar(h, k) >= hh);
            if s.contains(k as usize) {
                let q = choose|q: int| 0 <= q < s.len() && s[q] == k as usize;
                let m = s.len() - 1;
                assert(s[m] == h.len());
                assert(q < m) by {
                    if q == m { assert(k < h.len()); }
                }
                assert(bar(h, s[q] as int) <= bar(h, s[m] as int));
                assert(bar(h, h.len() as int) == 0);
                assert(hh == 0);
                assert(hh * (r - l) == 0) by (nonlinear_arith)
                    requires
                        hh == 0,
                ;
            } else {
                assert(first_min(h, l, k, r));
                vstd::arithmetic::mul::lemma_mul_inequality(hh, bar(h, k), r - l);
            }
        } else {
            assert(hh * (r - l) == 0) by (nonlinear_arith)
                requires
                    r - l == 0,
            ;
        }
    }
}

/// Mask pixel `(x, y)` of a `w`-wide row-major mask is covered.
pub open spec fn covered(valid: Seq<u8>, w: int, x: int, y: int) -> bool {
    valid[y * w + x] != 0
}

/// Every pixel of the rectangle `(x0, y0, cw, ch)` is covered.
pub open spec fn all_covered(valid: Seq<u8>, w: int, x0: int, y0: int, cw: int, ch: int) -> bool {
    forall|x: int, y: int| x0 <= x < x0 + cw && y0 <= y < y0 + ch ==> #[trigger] covered(valid, w, x, y)
}

/// The rectangle `(x0, y0, cw, ch)` lies inside the `w × h` mask.
pub open spec fn in_mask(w: int, h: int, x0: int, y0: int, cw: int, ch: int) -> bool {
    0 <= x0 && 0 <= y0 && 0 <= cw && 0 <= ch && x0 + cw <= w && y0 + ch <= h
}

/// Number of consecutive covered pixels of column `x` ending at row `y` (0 when `y < 0`).
pub open spec fn run(valid: Seq<u8>, w: int, x: int, y: int) -> int
    decreases y + 1,
{
    if y < 0 {
        0
    } else if covered(valid, w, x, y) {
        run(valid, w, x, y - 1) + 1
    } else {
        0
    }
}

/// A run is never negative and never reaches above row 0.
proof fn lemma_run_bounds(valid: Seq<u8>, w: int, x: int, y: int)
    requires
        y >= -1,
    ensures
        0 <= run(valid, w, x, y) <= y + 1,
    decreases y + 1,
{
    if y >= 0 {
        lemma_run_bounds(valid, w, x, y - 1);
    }
}

/// A run of length at least `hh` means the `hh` pixels ending at row `y` are covered.
proof fn lemma_run_covered(valid: Seq<u8>, w: int, x: int, y: int, hh: int)
    requires
        y >= -1,
        0 <= hh <= run(valid, w, x, y),
    ensures
        0 <= run(valid, w, x, y) <= y + 1,
        forall|yy: int| y - hh < yy <= y ==> #[trigger] covered(valid, w, x, yy),
    decreases y + 1,
{
    lemma_run_bounds(valid, w, x, y);
    if y >= 0 && hh > 0 {
        assert(covered(valid, w, x, y));
        assert(run(valid, w, x, y) == run(valid, w, x, y - 1) + 1);
        lemma_run_covered(valid, w, x, y - 1, hh - 1);
    }
}

/// `hh` covered pixels ending at row `y` give a run of length at least `hh`.
proof fn lemma_covered_run(valid: Seq<u8>, w: int, x: int, y: int, hh: int)
    requires
        0 <= hh <= y + 1,
        forall|yy: int| y - hh < yy <= y ==> #[trigger] covered(valid, w, x, yy),
    ensures
        run(valid, w, x, y) >= hh,
    decreases hh,
{
    lemma_run_bounds(valid, w, x, y);
    if hh > 0 {
        assert(covered(valid, w, x, y));
        assert(run(valid, w, x, y) == run(valid, w, x, y - 1) + 1);
        assert forall|yy: int| (y - 1) - (hh - 1) < yy <= y - 1 implies #[trigger] covered(valid, w, x, yy) by {
            assert(y - hh < yy <= y);
        }
        lemma_covered_run(valid, w, x, y - 1, hh - 1);
    }
}

/// Largest inscribed rectangle of covered pixels in a `w × h` mask. Returns `(x0, y0, cw, ch)`; a
/// mask without any covered pixel yields `(0, 0, 0, 0)`.
pub fn largest_inscribed_rect(valid: &[u8], w: usize, h: usize) -> (res: (usize, usize, usize, usize))
    requires
        w * h <= valid.len(),
    ensures
        in_mask(w as int, h as int, res.0 as int, res.1 as int, res.2 as int, res.3 as int),
        all_covered(valid@, w as int, res.0 as int, res.1 as int, res.2 as int, res.3 as int),
        forall|x0: int, y0: int, cw: int, ch: int|
            in_mask(w as int, h as int, x0, y0, cw, ch) && all_covered(valid@, w as int, x0, y0, cw, ch)
                ==> cw * ch <= res.2 * res.3,
        res.2 * res.3 == 0 ==> res == (0usize, 0usize, 0usize, 0usize),
        res.2 * res.3 > 0 ==> forall|x0: int, y0: int, cw: int, ch: int|
            in_mask(w as int, h as int, x0, y0, cw, ch) && all_covered(valid@, w as int, x0, y0, cw, ch) && cw * ch
                == res.2 * res.3 ==> res.1 + res.3 < y0 + ch || (res.1 + res.3 == y0 + ch && (res.0 + res.2 < x0 + cw || (
                res.0 + res.2 == x0 + cw && ch <= res.3))),
{
    let ghost v = valid@;
    if w == 0 || h == 0 {
        proof {
            assert forall|x0: int, y0: int, cw: int, ch: int|
                in_mask(w as int, h as int, x0, y0, cw, ch) && all_covered(v, w as int, x0, y0, cw, ch)
                    implies cw * ch <= 0 by {
                if w == 0 {
                    assert(cw == 0);
                } else {
                    assert(ch == 0);
                }
                assert(cw * ch == 0) by (nonlinear_arith)
                    requires
                        cw == 0 || ch == 0,
                ;
            }
        }
        return (0, 0, 0, 0);
    }
    let mut heights: Vec<usize> = vec![0usize; w];
    let mut best = (0usize, 0usize, 0usize, 0usize);
    let mut best_area = 0usize;
    assert(best.2 == 0 && best.3 == 0);
    assert(best_area == best.2 * best.3) by (nonlinear_arith)
        requires
            best.2 == 0,
            best_area == 0,
    ;
    let mut y: usize = 0;
    while y < h
        invariant
            0 < w,
            0 < h,
            y <= h,
            v == valid@,
            v.len() == valid.len(),
            w * h <= v.len(),
            heights@.len() == w,
            forall|x: int| 0 <= x < w ==> #[trigger] heights@[x] == run(v, w as int, x, y - 1),
            best_area == best.2 * best.3,
            in_mask(w as int, h as int, best.0 as int, best.1 as int, best.2 as int, best.3 as int),
            all_covered(v, w as int, best.0 as int, best.1 as int, best.2 as int, best.3 as int),
            forall|x0: int, y0: int, cw: int, ch: int|
                in_mask(w as int, y as int, x0, y0, cw, ch) && all_covered(v, w as int, x0, y0, cw, ch)
                    ==> cw * ch <= best_area,
            best_area == 0 ==> best == (0usize, 0usize, 0usize, 0usize),
            best_area > 0 ==> best.1 + best.3 <= y,
            best_area > 0 ==> forall|x0: int, y0: int, cw: int, ch: int|
                in_mask(w as int, h as int, x0, y0, cw, ch) && all_covered(v, w as int, x0, y0, cw, ch) && y0 + ch
                    < best.1 + best.3 ==> cw * ch < best_area,
            best_area > 0 ==> forall|x0: int, y0: int, cw: int, ch: int|
                in_mask(w as int, h as int, x0, y0, cw, ch) && all_covered(v, w as int, x0, y0, cw, ch) && y0 + ch
                    == best.1 + best.3 && cw * ch == best_area ==> best.0 + best.2 < x0 + cw || (best.0 + best.2 == x0
                    + cw && ch <= best.3),
        decreases h - y,
    {
        proof {
            assert(y * w + w <= w * h) by (nonlinear_arith)
                requires
                    y < h,
            ;
        }
        let mut x: usize = 0;
        while x < w
            invariant
                0 < w,
                y < h,
                x <= w,
                v == valid@,
                v.len() == valid.len(),
                w * h <= v.len(),
                y * w + w <= w * h,
                heights@.len() == w,
                forall|xx: int| 0 <= xx < x ==> #[trigger] heights@[xx] == run(v, w as int, xx, y as int),
                forall|xx: int| x <= xx < w ==> #[trigger] heights@[xx] == run(v, w as int, xx, y - 1),
            decreases w - x,
        {
            proof {
                lemma_run_bounds(v, w as int, x as int, y - 1);
                assert(heights@[x as int] == run(v, w as int, x as int, y - 1));
                assert(y * w + x < v.len());
            }
            let nh = if valid[y * w + x] != 0 { heights[x] + 1 } else { 0 };
            heights.set(x, nh);
            x = x + 1;
        }
        proof {
            assert forall|k: int| 0 <= k < heights@.len() implies heights@[k] * heights@.len() <= usize::MAX by {
                lemma_run_bounds(v, w as int, k, y as int);
                assert(heights@[k] <= h);
                vstd::arithmetic::mul::lemma_mul_inequality(heights@[k] as int, h as int, w as int);
                vstd::arithmetic::mul::lemma_mul_is_commutative(h as int, w as int);
            }
        }
        let (rx0, rw, rh, area) = largest_in_histogram(&heights);
        proof {
            lemma_row_bound(v, w as int, h as int, y as int, heights@, best_area as int, area as int);
        }
        if area > best_area {
            proof {
                lemma_row_rect(v, w as int, h as int, y as int, heights@, rx0 as int, rw as int, rh as int);
                vstd::arithmetic::mul::lemma_mul_is_commutative(rw as int, rh as int);
                lemma_row_tie(v, w as int, h as int, y as int, heights@, rx0 as int, rw as int, rh as int, area as int);
                assert forall|x0: int, y0: int, cw: int, ch: int|
                    in_mask(w as int, h as int, x0, y0, cw, ch) && all_covered(v, w as int, x0, y0, cw, ch) && y0 + ch
                        < y + 1 implies cw * ch < area by {
                    assert(in_mask(w as int, y as int, x0, y0, cw, ch));
                }
            }
            best_area = area;
            best = (rx0, y + 1 - rh, rw, rh);
        }
        y = y + 1;
    }
    best
}

/// The rectangle the row-`y` histogram reports is covered and inside the mask.
proof fn lemma_row_rect(
    v: Seq<u8>,
    w: int,
    h: int,
    y: int,
    heights: Seq<usize>,
    rx0: int,
    rw: int,
    rh: int,
)
    requires
        0 <= y < h,
        heights.len() == w,
        forall|x: int| 0 <= x < w ==> #[trigger] heights[x] == run(v, w, x, y),
        hist_rect(heights, rx0, rw, rh),
        rw > 0,
        rh > 0,
    ensures
        rh <= y + 1,
        in_mask(w, h, rx0, y + 1 - rh, rw, rh),
        all_covered(v, w, rx0, y + 1 - rh, rw, rh),
{
    assert(bar(heights, rx0) >= rh);
    lemma_run_covered(v, w, rx0, y, rh);
    assert forall|x: int, yy: int| rx0 <= x < rx0 + rw && y + 1 - rh <= yy < y + 1 implies #[trigger] covered(
        v,
        w,
        x,
        yy,
    ) by {
        assert(bar(heights, x) >= rh);
        lemma_run_covered(v, w, x, y, rh);
    }
}

/// A covered rectangle with its bottom edge on row `y` stands on row `y`'s histogram, so the
/// histogram's tie-break orders it after the row's best when it is as large.
proof fn lemma_row_tie(
    v: Seq<u8>,
    w: int,
    h: int,
    y: int,
    heights: Seq<usize>,
    rx0: int,
    rw: int,
    rh: int,
    area: int,
)
    requires
        0 <= y < h,
        heights.len() == w,
        forall|x: int| 0 <= x < w ==> #[trigger] heights[x] == run(v, w, x, y),
        area > 0,
        forall|l: int, r: int, hh: int|
            0 <= l <= r <= heights.len() && 0 <= hh && bars_at_least(heights, l, r, hh) && hh * (r - l) == area ==> rx0
                + rw < r || (rx0 + rw == r && hh <= rh),
    ensures
        forall|x0: int, y0: int, cw: int, ch: int|
            in_mask(w, h, x0, y0, cw, ch) && all_covered(v, w, x0, y0, cw, ch) && y0 + ch == y + 1 && cw * ch == area
                ==> rx0 + rw < x0 + cw || (rx0 + rw == x0 + cw && ch <= rh),
{
    assert forall|x0: int, y0: int, cw: int, ch: int|
        in_mask(w, h, x0, y0, cw, ch) && all_covered(v, w, x0, y0, cw, ch) && y0 + ch == y + 1 && cw * ch == area implies rx0
            + rw < x0 + cw || (rx0 + rw == x0 + cw && ch <= rh) by {
        assert(ch > 0) by {
            if ch == 0 {
                assert(cw * ch == 0) by (nonlinear_arith)
                    requires
                        ch == 0,
                ;
            }
        }
        assert forall|t: int| x0 <= t < x0 + cw implies #[trigger] bar(heights, t) >= ch by {
            assert forall|yy: int| y - ch < yy <= y implies #[trigger] covered(v, w, t, yy) by {
                assert(covered(v, w, t, yy));
            }
            lemma_covered_run(v, w, t, y, ch);
        }
        assert(bars_at_least(heights, x0, x0 + cw, ch));
        vstd::arithmetic::mul::lemma_mul_is_commutative(cw, ch);
        assert(ch * ((x0 + cw) - x0) == area);
    }
}

/// Rectangles whose bottom edge is at most row `y` are bounded by the best area after row `y`.
proof fn lemma_row_bound(
    v: Seq<u8>,
    w: int,
    h: int,
    y: int,
    heights: Seq<usize>,
    best: int,
    area: int,
)
    requires
        0 <= y < h,
        0 <= best,
        heights.len() == w,
        forall|x: int| 0 <= x < w ==> #[trigger] heights[x] == run(v, w, x, y),
        forall|x0: int, y0: int, cw: int, ch: int|
            in_mask(w, y, x0, y0, cw, ch) && all_covered(v, w, x0, y0, cw, ch) ==> cw * ch <= best,
        forall|l: int, r: int, hh: int|
            0 <= l <= r <= heights.len() && 0 <= hh && bars_at_least(heights, l, r, hh) ==> hh * (r - l) <= area,
    ensures
        forall|x0: int, y0: int, cw: int, ch: int|
            in_mask(w, y + 1, x0, y0, cw, ch) && all_covered(v, w, x0, y0, cw, ch) ==> cw * ch <= (if area > best { area } else { best }),
{
    assert forall|x0: int, y0: int, cw: int, ch: int|
        in_mask(w, y + 1, x0, y0, cw, ch) && all_covered(v, w, x0, y0, cw, ch) implies cw * ch <= (if area > best { area } else { best }) by {
        if y0 + ch <= y {
            assert(in_mask(w, y, x0, y0, cw, ch));
            assert(cw * ch <= best);
        } else if ch > 0 {
            assert(y0 + ch == y + 1);
            assert forall|t: int| x0 <= t < x0 + cw implies #[trigger] bar(heights, t) >= ch by {
                assert forall|yy: int| y - ch < yy <= y implies #[trigger] covered(v, w, t, yy) by {
                    assert(covered(v, w, t, yy));
                }
                lemma_covered_run(v, w, t, y, ch);
            }
            assert(bars_at_least(heights, x0, x0 + cw, ch));
            assert(ch * ((x0 + cw) - x0) <= area);
            assert((x0 + cw) - x0 == cw);
            assert(ch * cw <= area);
            vstd::arithmetic::mul::lemma_mul_is_commutative(cw, ch);
            assert(cw * ch <= area);
        } else {
            assert(cw * ch == 0) by (nonlinear_arith)
                requires
                    ch == 0,
            ;
        }
    }
}

} // verus!
