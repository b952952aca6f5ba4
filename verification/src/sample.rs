//! The candidate-sampling arithmetic: top-k window truncation,
//! temperature scaling, and the weighted draw.
//!
//! All of it is exact integer arithmetic, so a draw is a function of the
//! model and the random value alone, on every platform. Probabilities
//! never appear as stored numbers: a candidate's probability is its count
//! over the context total, and the draw works on integer weights that are
//! proportional to the scaled probabilities.
use vstd::prelude::*;
use vstd::arithmetic::power::pow;
use vstd::arithmetic::power::lemma_pow_increases;
use vstd::arithmetic::power::lemma_pow_positive;
use vstd::arithmetic::div_mod::lemma_div_by_multiple;
use vstd::arithmetic::div_mod::lemma_div_is_ordered;
use crate::arith::iroot;
use crate::arith::nth_root;
use crate::arith::pow_checked;
use crate::arith::lemma_pow_base_le;
use crate::arith::lemma_pow_base_lt;

verus! {

/// Scale of the integer weights produced by temperature scaling.
pub const WEIGHT_SCALE: u64 = 4096;

/// Scale used when a count is quantized against the window maximum.
pub const QUANT_SCALE: u64 = 65536;

/// Cap on the total count of one context's candidates; it keeps every
/// cumulative weight comfortably inside 64 bits.
pub const MAX_CONTEXT_TOTAL: u64 = 0x4_0000_0000_0000;

/// The effective top-k window: `max(1, floor(len * num / den))` candidates,
/// or all of them when the fraction is one.
pub open spec fn spec_window_len(len: nat, num: nat, den: nat) -> nat {
    if num == den {
        len
    } else if (len * num) / den >= 1 {
        (len * num) / den
    } else {
        1
    }
}

/// Compute the effective top-k window length.
pub fn window_len(len: usize, num: u64, den: u64) -> (k: usize)
    requires
        1 <= num <= den <= 1_000_000,
        len >= 1,
    ensures
        k == spec_window_len(len as nat, num as nat, den as nat),
        1 <= k <= len,
{
    if num == den {
        return len;
    }
    proof {
        assert((len as int) * (num as int) <= (len as int) * (den as int)) by (nonlinear_arith)
            requires num <= den, len >= 0,
        ;
        lemma_div_is_ordered((len as int) * (num as int), (len as int) * (den as int), den as int);
        lemma_div_by_multiple(len as int, den as int);
        assert((len as int) * (num as int) <= 0x1_0000_0000_0000_0000int * 0x10_0000int)
            by (nonlinear_arith)
            requires 0 <= len < 0x1_0000_0000_0000_0000int, 0 <= num <= 0x10_0000int,
        ;
    }
    let k = (((len as u128) * (num as u128)) / (den as u128)) as usize;
    if k == 0 {
        1
    } else {
        k
    }
}

/// A count scaled against the window maximum: `floor(count * 65536 / maxc)`.
pub open spec fn spec_quantized(count: nat, maxc: nat) -> nat {
    (count * 65536) / maxc
}

/// The temperature-scaled weight: the floor `r`-th root of
/// `q^e * 4096^r / 65536^e`, where `q` is the quantized count and `e/r`
/// is the exponent `1/T`. It is proportional (up to integer rounding) to
/// `(count/maxc)^(e/r)` at scale 4096.
pub open spec fn spec_temp_weight(count: nat, maxc: nat, e: nat, r: nat) -> nat {
    nth_root(
        ((pow(spec_quantized(count, maxc) as int, e) * pow(4096, r)) / pow(65536, e)) as nat,
        r,
    )
}

/// The sampling weight of one candidate. With temperature one the weight
/// is the raw count (exact maximum-likelihood sampling); otherwise it is
/// the temperature-scaled fixed-point weight.
pub open spec fn spec_weight(count: nat, maxc: nat, t_num: nat, t_den: nat) -> nat {
    if t_num == t_den {
        count
    } else {
        spec_temp_weight(count, maxc, t_den, t_num)
    }
}

/// Compute the sampling weight of one candidate.
pub fn weight(count: u64, maxc: u64, t_num: u64, t_den: u64) -> (w: u64)
    requires
        1 <= maxc,
        count <= maxc,
        1 <= t_num <= 4,
        1 <= t_den <= 4,
    ensures
        w == spec_weight(count as nat, maxc as nat, t_num as nat, t_den as nat),
        t_num != t_den ==> w <= 4096,
        count == maxc ==> w >= 1,
{
    if t_num == t_den {
        return count;
    }
    let e: u32 = t_den as u32;
    let r: u32 = t_num as u32;
    let q: u128 = ((count as u128) * 65536) / (maxc as u128);
    proof {
        assert((count as int) * 65536 <= (maxc as int) * 65536) by (nonlinear_arith)
            requires count <= maxc,
        ;
        lemma_div_is_ordered((count as int) * 65536, (maxc as int) * 65536, maxc as int);
        lemma_div_by_multiple(65536, maxc as int);
        assert(q <= 65536);
        reveal(pow);
        lemma_pow_base_le(q as nat, 65536, e as nat);
        lemma_pow_increases(65536, e as nat, 4);
        assert(pow(65536int, 4) == 0x1_0000_0000_0000_0000) by {
            vstd::arithmetic::power::lemma_pow1(65536int);
            assert(pow(65536int, 2) == 65536 * pow(65536int, 1));
            assert(pow(65536int, 3) == 65536 * pow(65536int, 2));
            assert(pow(65536int, 4) == 65536 * pow(65536int, 3));
        }
        lemma_pow_increases(4096, r as nat, 4);
        assert(pow(4096int, 4) == 0x1_0000_0000_0000) by {
            vstd::arithmetic::power::lemma_pow1(4096int);
            assert(pow(4096int, 2) == 4096 * pow(4096int, 1));
            assert(pow(4096int, 3) == 4096 * pow(4096int, 2));
            assert(pow(4096int, 4) == 4096 * pow(4096int, 3));
        }
    }
    let qe = match pow_checked(q, e) {
        Some(v) => v,
        None => {
            proof {
                assert(false);
            }
            0
        },
    };
    let br = match pow_checked(4096, r) {
        Some(v) => v,
        None => {
            proof {
                assert(false);
            }
            0
        },
    };
    let de = match pow_checked(65536, e) {
        Some(v) => v,
        None => {
            proof {
                assert(false);
            }
            0
        },
    };
    proof {
        assert(qe <= de);
        assert(de >= 1 && br >= 1) by {
            lemma_pow_positive(65536int, e as nat);
            lemma_pow_positive(4096int, r as nat);
        }
        assert((qe as int) * (br as int) <= (de as int) * (br as int)) by (nonlinear_arith)
            requires qe <= de, br >= 0,
        ;
        assert((de as int) * (br as int) <= 0x1_0000_0000_0000_0000int * 0x1_0000_0000_0000int)
            by (nonlinear_arith)
            requires
                de <= 0x1_0000_0000_0000_0000int,
                br <= 0x1_0000_0000_0000int,
                de >= 0,
                br >= 0,
        ;
    }
    let num: u128 = qe * br;
    let u: u128 = num / de;
    proof {
        lemma_div_is_ordered(num as int, (de as int) * (br as int), de as int);
        lemma_div_by_multiple(br as int, de as int);
        assert(u <= br);
    }
    let w = iroot(u, r);
    proof {
        if w > 4096 {
            lemma_pow_base_lt(4096, w as nat, r as nat);
            assert(pow(w as int, r as nat) <= u as int);
            assert(false);
        }
        if count == maxc {
            lemma_div_by_multiple(65536, maxc as int);
            assert(q == 65536);
            lemma_div_by_multiple(br as int, de as int);
            assert((qe as int) * (br as int) == (de as int) * (br as int));
            assert((de as int) * (br as int) == (br as int) * (de as int)) by (nonlinear_arith);
            assert(u == br);
            assert(pow(1int, r as nat) <= br as int) by {
                vstd::arithmetic::power::lemma1_pow(r as nat);
            }
            if w == 0 {
                assert(pow(0int + 1, r as nat) > u as int);
                assert(false);
            }
        }
    }
    w as u64
}

/// The sum of the first `i` weights.
pub open spec fn prefix_sum(ws: Seq<u64>, i: int) -> nat
    decreases i,
{
    if i <= 0 {
        0
    } else {
        prefix_sum(ws, i - 1) + (ws[i - 1] as nat)
    }
}

/// Prefix sums grow with the prefix.
pub proof fn lemma_prefix_sum_mono(ws: Seq<u64>, i: int, j: int)
    requires
        i <= j,
    ensures
        prefix_sum(ws, i) <= prefix_sum(ws, j),
    decreases j - i,
{
    if i < j {
        lemma_prefix_sum_mono(ws, i, j - 1);
    }
}

/// The index the weighted draw selects, scanning from the front: the
/// first index whose cumulative weight, scaled by 2^64, exceeds the draw
/// scaled by the total weight.
pub open spec fn pick_rec(ws: Seq<u64>, x: u64, total: nat, i: int) -> int
    decreases ws.len() - i,
    when 0 <= i <= ws.len()
{
    if i >= ws.len() {
        i
    } else if prefix_sum(ws, i + 1) * 0x1_0000_0000_0000_0000 > (x as nat) * total {
        i
    } else {
        pick_rec(ws, x, total, i + 1)
    }
}

/// The index selected by a 64-bit draw `x` over the weights `ws`.
pub open spec fn spec_pick(ws: Seq<u64>, x: u64) -> int {
    pick_rec(ws, x, prefix_sum(ws, ws.len() as int), 0)
}

/// Walk the weights in order and select the first candidate whose
/// cumulative weight exceeds the draw. Exact integer arithmetic: the
/// walk provably selects some candidate, so the out-of-weights fallback
/// of inexact implementations cannot arise.
pub fn pick(ws: &Vec<u64>, total: u64, x: u64) -> (i: usize)
    requires
        total == prefix_sum(ws@, ws.len() as int),
        1 <= total < 0x8000_0000_0000_0000,
    ensures
        i < ws.len(),
        i == spec_pick(ws@, x),
{
    let mut cum: u64 = 0;
    let mut i: usize = 0;
    while i < ws.len()
        invariant
            0 <= i <= ws.len(),
            cum == prefix_sum(ws@, i as int),
            total == prefix_sum(ws@, ws.len() as int),
            total < 0x8000_0000_0000_0000,
            spec_pick(ws@, x) == pick_rec(ws@, x, total as nat, i as int),
            forall|j: int|
                0 <= j < i ==> #[trigger] prefix_sum(ws@, j + 1) * 0x1_0000_0000_0000_0000 <= (
                x as nat) * (total as nat),
        decreases ws.len() - i,
    {
        proof {
            lemma_prefix_sum_mono(ws@, i + 1, ws.len() as int);
            assert((x as int) * (total as int) < 0x1_0000_0000_0000_0000int
                * 0x8000_0000_0000_0000int) by (nonlinear_arith)
                requires x < 0x1_0000_0000_0000_0000int, 0 <= total < 0x8000_0000_0000_0000int,
            ;
            assert((prefix_sum(ws@, i + 1) as int) * 0x1_0000_0000_0000_0000int
                <= 0x8000_0000_0000_0000int * 0x1_0000_0000_0000_0000int) by (nonlinear_arith)
                requires 0 <= prefix_sum(ws@, i + 1) <= 0x8000_0000_0000_0000int,
            ;
        }
        let cum2 = cum + ws[i];
        if (cum2 as u128) * 0x1_0000_0000_0000_0000u128 > (x as u128) * (total as u128) {
            return i;
        }
        cum = cum2;
        i = i + 1;
    }
    proof {
        let last = ws.len() - 1;
        assert(ws.len() >= 1) by {
            if ws.len() == 0 {
                assert(prefix_sum(ws@, 0) == 0);
            }
        }
        assert(prefix_sum(ws@, last + 1) * 0x1_0000_0000_0000_0000 <= (x as nat) * (total as nat));
        assert(prefix_sum(ws@, ws.len() as int) * 0x1_0000_0000_0000_0000 <= (x as nat) * (
        total as nat));
        assert((x as nat) * (total as nat) < 0x1_0000_0000_0000_0000nat * (total as nat))
            by (nonlinear_arith)
            requires x < 0x1_0000_0000_0000_0000nat, total >= 1,
        ;
        assert((total as nat) * 0x1_0000_0000_0000_0000nat == 0x1_0000_0000_0000_0000nat * (
        total as nat)) by (nonlinear_arith);
        assert(false);
    }
    0
}

} // verus!
