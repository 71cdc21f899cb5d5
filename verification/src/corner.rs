//! The dyadic ladder of window half-widths at which turning is measured, and the
//! corner anchors: the samples whose saliency is a strict maximum of its window.

use vstd::prelude::*;
use vstd::arithmetic::power2::{pow2, lemma_pow2_unfold, lemma2_to64};

verus! {

/// The half-widths `k, 2k, 4k, ...` while the window `2k` fits inside `n` samples.
pub open spec fn ladder(n: int, k: int) -> Seq<int>
    decreases n - k,
{
    if k >= 1 && 2 * k < n {
        seq![k] + ladder(n, 2 * k)
    } else {
        Seq::empty()
    }
}

/// Half-widths, in samples, at which the turning is measured: the dyadic ladder
/// `1, 2, 4, ...` while the window fits inside the chain.
pub fn turning_scales(n_samples: usize) -> (out: Vec<usize>)
    requires
        n_samples <= usize::MAX / 2 + 1,
    ensures
        out@.map_values(|k: usize| k as int) == ladder(n_samples as int, 1),
{
    let mut out: Vec<usize> = Vec::new();
    let mut k: usize = 1;
    while 2 * k < n_samples
        invariant
            k >= 1,
            k < n_samples || k == 1,
            n_samples <= usize::MAX / 2 + 1,
            out@.map_values(|v: usize| v as int) + ladder(n_samples as int, k as int) == ladder(
                n_samples as int,
                1,
            ),
        decreases n_samples - k,
    {
        let ghost prev = out@.map_values(|v: usize| v as int);
        out.push(k);
        proof {
            assert(out@.map_values(|v: usize| v as int) =~= prev.push(k as int));
            assert(ladder(n_samples as int, k as int) == seq![k as int] + ladder(
                n_samples as int,
                2 * k,
            ));
            assert(prev.push(k as int) + ladder(n_samples as int, 2 * k) =~= prev + ladder(
                n_samples as int,
                k as int,
            ));
        }
        k = k * 2;
    }
    assert(ladder(n_samples as int, k as int) =~= Seq::<int>::empty());
    assert(out@.map_values(|v: usize| v as int) =~= out@.map_values(|v: usize| v as int) + Seq::<
        int,
    >::empty());
    out
}

/// The ladder from one is exactly the powers of two whose doubled window fits:
/// its `i`-th rung is `2^i`, and the first power of two left out has `2 * 2^len >= n`.
pub proof fn lemma_ladder_is_powers_of_two(n: int)
    ensures
        forall|i: int| 0 <= i < ladder(n, 1).len() ==> #[trigger] ladder(n, 1)[i] == pow2(i as nat)
            && 2 * pow2(i as nat) < n,
        2 * pow2(ladder(n, 1).len()) >= n,
{
    lemma2_to64();
    lemma_ladder_from(n, 0);
    assert(pow2(0) == 1);
    let l0 = ladder(n, pow2(0) as int);
    assert(l0 == ladder(n, 1));
    assert forall|i: int| 0 <= i < ladder(n, 1).len() implies #[trigger] ladder(n, 1)[i] == pow2(
        i as nat,
    ) && 2 * pow2(i as nat) < n by {
        assert(l0[i] == pow2((0 + i) as nat) && 2 * pow2((0 + i) as nat) < n);
        assert((0 + i) as nat == i as nat);
    }
    assert((0 + ladder(n, 1).len()) as nat == ladder(n, 1).len());
}

proof fn lemma_ladder_from(n: int, e: nat)
    ensures
        forall|i: int|
            0 <= i < ladder(n, pow2(e) as int).len() ==> #[trigger] ladder(n, pow2(e) as int)[i]
                == pow2((e + i) as nat) && 2 * pow2((e + i) as nat) < n,
        2 * pow2(e + ladder(n, pow2(e) as int).len()) >= n,
    decreases n - pow2(e),
{
    lemma_pow2_unfold(e + 1);
    vstd::arithmetic::power2::lemma_pow2_pos(e);
    let k = pow2(e) as int;
    if 2 * k < n {
        lemma_ladder_from(n, e + 1);
        assert(pow2(e + 1) == 2 * k);
        let rest = ladder(n, 2 * k);
        let rest_e = ladder(n, pow2(e + 1) as int);
        assert(rest_e == rest);
        assert(ladder(n, k) == seq![k] + rest);
        assert forall|i: int| 0 <= i < ladder(n, k).len() implies #[trigger] ladder(n, k)[i] == pow2(
            (e + i) as nat,
        ) && 2 * pow2((e + i) as nat) < n by {
            if i > 0 {
                assert(ladder(n, k)[i] == rest[i - 1]);
                assert(rest_e[i - 1] == pow2((e + 1 + (i - 1)) as nat));
                assert((e + 1 + (i - 1)) as nat == (e + i) as nat);
            } else {
                assert((e + i) as nat == e);
            }
        }
        assert((e + 1 + rest.len()) as nat == (e + ladder(n, k).len()) as nat);
    } else {
        assert(ladder(n, k).len() == 0);
        assert((e + ladder(n, k).len()) as nat == e);
    }
}

/// A corner proposal as the anchor rule reads it: its sample, and its saliency as an
/// order key. Key `0` stands for a saliency that is zero or below, `u64::MAX` for
/// one that is not a number or is infinitely large; every other key is a positive
/// finite saliency, and keys order exactly as those saliencies do.
#[derive(Debug, Clone, Copy, PartialEq, Eq, Structural)]
pub struct AnchorCandidate {
    pub sample: usize,
    pub saliency_key: u64,
}

/// A key that may anchor: a positive, finite saliency.
pub open spec fn eligible(key: u64) -> bool {
    0 < key < u64::MAX
}

/// Candidate `idx` is a strict maximum of the window of `hw` candidates either
/// side of it, clipped to the list, and its saliency may anchor.
pub open spec fn is_anchor(c: Seq<AnchorCandidate>, hw: int, idx: int) -> bool {
    &&& eligible(c[idx].saliency_key)
    &&& forall|j: int|
        0 <= j < c.len() && idx - hw <= j <= idx + hw && j != idx ==> #[trigger] c[j].saliency_key
            < c[idx].saliency_key
}

/// The samples of the anchors among the first `m` candidates, in order.
pub open spec fn anchors_upto(c: Seq<AnchorCandidate>, hw: int, m: int) -> Seq<usize>
    decreases m,
{
    if m <= 0 {
        Seq::empty()
    } else if is_anchor(c, hw, m - 1) {
        anchors_upto(c, hw, m - 1).push(c[m - 1].sample)
    } else {
        anchors_upto(c, hw, m - 1)
    }
}

/// The samples the span schedule anchors on: every candidate whose saliency is a
/// strict maximum over the `half_window` candidates either side of it, and is
/// positive and finite.
pub fn corner_anchors(proposals: &Vec<AnchorCandidate>, half_window: usize) -> (out: Vec<usize>)
    requires
        proposals@.len() + half_window <= usize::MAX,
    ensures
        out@ == anchors_upto(proposals@, half_window as int, proposals@.len() as int),
        out@.len() <= (proposals@.len() + half_window) / (half_window + 1),
{
    let n = proposals.len();
    let mut out: Vec<usize> = Vec::new();
    let mut idx: usize = 0;
    while idx < n
        invariant
            n == proposals@.len(),
            n + half_window <= usize::MAX,
            idx <= n,
            out@ == anchors_upto(proposals@, half_window as int, idx as int),
        decreases n - idx,
    {
        let p = proposals[idx];
        if 0 < p.saliency_key && p.saliency_key < u64::MAX {
            let lo = if idx >= half_window {
                idx - half_window
            } else {
                0
            };
            let hi = if idx + half_window < n - 1 {
                idx + half_window
            } else {
                n - 1
            };
            let mut strict = true;
            let mut j = lo;
            while j <= hi
                invariant
                    n == proposals@.len(),
                    idx < n,
                    hi < n,
                    lo <= j <= hi + 1,
                    lo == (if idx >= half_window { idx - half_window } else { 0 }),
                    hi == (if idx + half_window < n - 1 { idx + half_window } else { n - 1 }),
                    p == proposals@[idx as int],
                    strict == (forall|t: int|
                        lo <= t < j && t != idx ==> #[trigger] proposals@[t].saliency_key
                            < p.saliency_key),
                decreases hi + 1 - j,
            {
                if j != idx && !(proposals[j].saliency_key < p.saliency_key) {
                    strict = false;
                }
                j = j + 1;
            }
            proof {
                assert(strict == (forall|t: int|
                    0 <= t < proposals@.len() && idx - half_window <= t <= idx + half_window && t
                        != idx ==> #[trigger] proposals@[t].saliency_key < p.saliency_key)) by {
                    if !strict {
                        let t = choose|t: int|
                            lo <= t < j && t != idx && !(#[trigger] proposals@[t].saliency_key
                                < p.saliency_key);
                        assert(0 <= t < proposals@.len() && idx - half_window <= t <= idx
                            + half_window);
                    }
                }
            }
            if strict {
                out.push(p.sample);
            }
        }
        idx = idx + 1;
    }
    proof {
        lemma_anchor_count_bounded(proposals@, half_window as int);
    }
    out
}

/// Two anchors are more than `hw` candidates apart: each lies in the other's
/// window, where each would have to be strictly above the other.
pub proof fn lemma_anchors_are_spread(c: Seq<AnchorCandidate>, hw: int, i: int, j: int)
    requires
        0 <= i < j < c.len(),
        is_anchor(c, hw, i),
        is_anchor(c, hw, j),
    ensures
        j - i > hw,
{
    if j - i <= hw {
        assert(c[j].saliency_key < c[i].saliency_key);
        assert(c[i].saliency_key < c[j].saliency_key);
    }
}

/// The number of anchors among the first `m` candidates, and the last of them.
proof fn lemma_anchor_count_upto(c: Seq<AnchorCandidate>, hw: int, m: int) -> (last: int)
    requires
        hw >= 0,
        0 <= m <= c.len(),
    ensures
        anchors_upto(c, hw, m).len() > 0 ==> 0 <= last < m && is_anchor(c, hw, last)
            && anchors_upto(c, hw, m).len() <= last / (hw + 1) + 1,
    decreases m,
{
    if m <= 0 {
        0
    } else {
        let prev = lemma_anchor_count_upto(c, hw, m - 1);
        if is_anchor(c, hw, m - 1) {
            if anchors_upto(c, hw, m - 1).len() > 0 {
                lemma_anchors_are_spread(c, hw, prev, m - 1);
                assert(prev / (hw + 1) + 1 <= (m - 1) / (hw + 1)) by {
                    vstd::arithmetic::div_mod::lemma_div_is_ordered((hw + 1) + prev, m - 1, hw + 1);
                    vstd::arithmetic::div_mod::lemma_div_plus_one(prev, hw + 1);
                }
            } else {
                assert(0 <= (m - 1) / (hw + 1)) by {
                    vstd::arithmetic::div_mod::lemma_div_pos_is_pos(m - 1, hw + 1);
                }
            }
            m - 1
        } else {
            prev
        }
    }
}

/// The anchor count is bounded by the window: at most one anchor per `hw + 1`
/// candidates, rounding up.
pub proof fn lemma_anchor_count_bounded(c: Seq<AnchorCandidate>, hw: int)
    requires
        hw >= 0,
    ensures
        anchors_upto(c, hw, c.len() as int).len() <= (c.len() + hw) / (hw + 1),
{
    let last = lemma_anchor_count_upto(c, hw, c.len() as int);
    if anchors_upto(c, hw, c.len() as int).len() > 0 {
        assert(last / (hw + 1) + 1 <= (c.len() + hw) / (hw + 1)) by {
            vstd::arithmetic::div_mod::lemma_div_is_ordered((hw + 1) + last, c.len() + hw, hw + 1);
            vstd::arithmetic::div_mod::lemma_div_plus_one(last, hw + 1);
        }
    }
}

} // verus!
