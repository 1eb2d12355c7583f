//! Minimal-sample drawing for RANSAC: four distinct correspondence indices from the
//! deterministic generator.

use vstd::prelude::*;

use crate::rng::{
    lemma_mix_unmix, lemma_steps_step, lemma_steps_zero, spec_mix, spec_step, spec_unmix,
    steps_between, SplitMix64,
};

verus! {

/// Every element of `acc` is below `n`.
pub open spec fn all_below(acc: Seq<usize>, n: int) -> bool {
    forall|i: int| 0 <= i < acc.len() ==> #[trigger] acc[i] < n
}

/// A partial draw: at most four distinct indices below `n`, with `n` large enough for four.
pub open spec fn draw_ok(n: int, acc: Seq<usize>) -> bool {
    &&& 4 <= n <= u64::MAX
    &&& acc.len() <= 4
    &&& acc.no_duplicates()
    &&& all_below(acc, n)
}

/// Some index below `n` that the draw does not hold yet.
pub open spec fn absent_value(acc: Seq<usize>, n: int) -> int {
    choose|v: int| 0 <= v < n && !#[trigger] acc.contains(v as usize)
}

/// Generator steps until the draw produces [`absent_value`].
pub open spec fn draw_measure(state: u64, acc: Seq<usize>, n: int) -> int {
    steps_between(spec_step(state), spec_unmix(absent_value(acc, n) as u64))
}

/// Fewer than four values leave one of `0..4` free.
pub proof fn lemma_absent_exists(acc: Seq<usize>, n: int)
    requires
        draw_ok(n, acc),
        acc.len() < 4,
    ensures
        0 <= absent_value(acc, n) < n,
        !acc.contains(absent_value(acc, n) as usize),
{
    if acc.contains(0usize) && acc.contains(1usize) && acc.contains(2usize) && acc.contains(3usize) {
        let i0 = choose|i: int| 0 <= i < acc.len() && acc[i] == 0usize;
        let i1 = choose|i: int| 0 <= i < acc.len() && acc[i] == 1usize;
        let i2 = choose|i: int| 0 <= i < acc.len() && acc[i] == 2usize;
        let i3 = choose|i: int| 0 <= i < acc.len() && acc[i] == 3usize;
        assert(false);
    }
    let w: int = if !acc.contains(0usize) {
        0
    } else if !acc.contains(1usize) {
        1
    } else if !acc.contains(2usize) {
        2
    } else {
        3
    };
    assert(0 <= w < n && !acc.contains(w as usize));
}

/// A repeated draw brings the generator one step closer to the absent value.
pub proof fn lemma_draw_progress(state: u64, acc: Seq<usize>, n: int)
    requires
        draw_ok(n, acc),
        acc.len() < 4,
        acc.contains((spec_mix(spec_step(state)) as int % n) as usize),
    ensures
        0 <= draw_measure(spec_step(state), acc, n),
        draw_measure(spec_step(state), acc, n) == draw_measure(state, acc, n) - 1,
{
    lemma_absent_exists(acc, n);
    let v = absent_value(acc, n);
    let t = spec_unmix(v as u64);
    let s1 = spec_step(state);
    lemma_steps_zero(s1, t);
    if steps_between(s1, t) == 0 {
        lemma_mix_unmix(v as u64);
        assert(spec_mix(s1) == v);
        vstd::arithmetic::div_mod::lemma_small_mod(v as nat, n as nat);
        assert(false);
    }
    lemma_steps_step(s1, t);
    lemma_steps_zero(spec_step(s1), t);
}

/// The indices drawn from `state` on, appended to `acc` until there are four, and the generator
/// state after the last draw. A draw is the next output modulo `n`; a repeat is discarded.
pub open spec fn draw_run(state: u64, n: int, acc: Seq<usize>) -> (Seq<usize>, u64)
    decreases 4 - acc.len(), draw_measure(state, acc, n),
    when draw_ok(n, acc)
{
    if acc.len() >= 4 {
        (acc, state)
    } else {
        let s1 = spec_step(state);
        let c = (spec_mix(s1) as int % n) as usize;
        if acc.contains(c) {
            proof {
                lemma_draw_progress(state, acc, n);
                lemma_steps_zero(spec_step(state), spec_unmix(absent_value(acc, n) as u64));
            }
            draw_run(s1, n, acc)
        } else {
            draw_run(s1, n, acc.push(c))
        }
    }
}

/// A draw ends with four distinct indices below `n`, extending the partial draw it started from.
pub proof fn lemma_draw_run(state: u64, n: int, acc: Seq<usize>)
    requires
        draw_ok(n, acc),
    ensures
        draw_ok(n, draw_run(state, n, acc).0),
        draw_run(state, n, acc).0.len() == 4,
        acc.len() <= 4 ==> draw_run(state, n, acc).0.take(acc.len() as int) == acc,
    decreases 4 - acc.len(), draw_measure(state, acc, n),
{
    if acc.len() < 4 {
        let s1 = spec_step(state);
        let c = (spec_mix(s1) as int % n) as usize;
        if acc.contains(c) {
            lemma_draw_progress(state, acc, n);
            lemma_steps_zero(spec_step(state), spec_unmix(absent_value(acc, n) as u64));
            lemma_draw_run(s1, n, acc);
        } else {
            let a2 = acc.push(c);
            assert(a2.no_duplicates()) by {
                assert forall|i: int, j: int| 0 <= i < a2.len() && 0 <= j < a2.len() && i != j implies a2[i]
                    != a2[j] by {
                    if i < acc.len() && j < acc.len() {
                        assert(a2[i] == acc[i] && a2[j] == acc[j]);
                    } else if i < acc.len() {
                        assert(a2[i] == acc[i]);
                    } else {
                        assert(a2[j] == acc[j]);
                    }
                }
            }
            lemma_draw_run(s1, n, a2);
            let r = draw_run(s1, n, a2).0;
            assert(r.take(acc.len() as int) =~= r.take(a2.len() as int).take(acc.len() as int));
            assert(a2.take(acc.len() as int) =~= acc);
        }
    } else {
        assert(acc.take(acc.len() as int) =~= acc);
    }
}

/// Picks four distinct indices in `0..n` from the generator: each draw is the next output modulo
/// `n`, and a value already picked is drawn again.
pub fn pick4(rng: &mut SplitMix64, n: usize) -> (out: [usize; 4])
    requires
        4 <= n,
    ensures
        out@ == draw_run(old(rng).state, n as int, Seq::empty()).0,
        final(rng).state == draw_run(old(rng).state, n as int, Seq::empty()).1,
        out@.no_duplicates(),
        forall|i: int| 0 <= i < 4 ==> #[trigger] out@[i] < n,
{
    let ghost s0 = rng.state;
    let ghost target = draw_run(s0, n as int, Seq::empty());
    let mut acc: Vec<usize> = Vec::new();
    proof {
        lemma_draw_run(s0, n as int, Seq::empty());
    }
    while acc.len() < 4
        invariant
            4 <= n,
            draw_ok(n as int, acc@),
            draw_run(rng.state, n as int, acc@) == target,
        decreases 4 - acc@.len(), draw_measure(rng.state, acc@, n as int),
    {
        let ghost st = rng.state;
        let cand = rng.gen_range(n);
        let mut found = false;
        let mut i: usize = 0;
        while i < acc.len()
            invariant
                i <= acc@.len(),
                found == acc@.take(i as int).contains(cand),
            decreases acc@.len() - i,
        {
            let ghost t = acc@.take(i as int);
            let ghost t1 = acc@.take(i + 1);
            proof {
                assert(t1 =~= t.push(acc@[i as int]));
                if t.contains(cand) {
                    let k = choose|k: int| 0 <= k < t.len() && t[k] == cand;
                    assert(t1[k] == cand);
                }
                if acc@[i as int] == cand {
                    assert(t1[i as int] == cand);
                }
                if t1.contains(cand) {
                    let k = choose|k: int| 0 <= k < t1.len() && t1[k] == cand;
                    if k < i {
                        assert(t[k] == cand);
                    }
                }
            }
            if acc[i] == cand {
                found = true;
            }
            i = i + 1;
        }
        assert(acc@.take(acc@.len() as int) =~= acc@);
        assert(cand == (spec_mix(spec_step(st)) as int % n as int) as usize);
        if found {
            proof {
                lemma_draw_progress(st, acc@, n as int);
            }
        } else {
            let ghost before = acc@;
            acc.push(cand);
            proof {
                lemma_draw_run(st, n as int, before);
                assert(acc@.no_duplicates()) by {
                    assert forall|p: int, q: int| 0 <= p < acc@.len() && 0 <= q < acc@.len() && p != q implies acc@[p]
                        != acc@[q] by {
                        if p < before.len() && q < before.len() {
                            assert(acc@[p] == before[p] && acc@[q] == before[q]);
                        } else if p < before.len() {
                            assert(acc@[p] == before[p]);
                        } else {
                            assert(acc@[q] == before[q]);
                        }
                    }
                }
            }
        }
    }
    let out = [acc[0], acc[1], acc[2], acc[3]];
    assert(out@ =~= acc@);
    proof {
        lemma_draw_run(rng.state, n as int, acc@);
    }
    out
}

} // verus!
