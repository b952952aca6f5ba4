//! Integer powers and integer roots.
//!
//! Temperature scaling raises probabilities to a rational exponent. To
//! keep every weight an exact integer (and generation reproducible
//! bit-for-bit), the scaled weights are computed with integer powers and
//! floor integer roots.
use vstd::prelude::*;
use vstd::arithmetic::power::pow;
use vstd::arithmetic::power::lemma_pow_increases;
use vstd::arithmetic::power::lemma_pow_positive;

verus! {

/// `w` is the floor `r`-th root of `n`.
pub open spec fn is_root(n: nat, r: nat, w: nat) -> bool {
    pow(w as int, r) <= n < pow((w + 1) as int, r)
}

/// The floor `r`-th root of `n` (meaningful for `r >= 1`).
pub open spec fn nth_root(n: nat, r: nat) -> nat {
    choose|w: nat| is_root(n, r, w)
}

/// `pow` grows with its base.
pub proof fn lemma_pow_base_le(a: nat, b: nat, e: nat)
    requires
        a <= b,
    ensures
        pow(a as int, e) <= pow(b as int, e),
    decreases e,
{
    reveal(pow);
    if e > 0 {
        if a == 0 {
            vstd::arithmetic::power::lemma0_pow(e);
            if b > 0 {
                lemma_pow_positive(b as int, e);
            }
            assert(pow(a as int, e) <= pow(b as int, e));
        } else {
            lemma_pow_base_le(a, b, (e - 1) as nat);
            lemma_pow_positive(a as int, (e - 1) as nat);
            assert(pow(a as int, e) == a * pow(a as int, (e - 1) as nat));
            assert(pow(b as int, e) == b * pow(b as int, (e - 1) as nat));
            let pa = pow(a as int, (e - 1) as nat);
            let pb = pow(b as int, (e - 1) as nat);
            assert(a * pa <= b * pb) by (nonlinear_arith)
                requires 0 <= a <= b, 0 <= pa <= pb,
            ;
        }
    }
}

/// `pow` grows strictly with its base when the exponent is positive.
pub proof fn lemma_pow_base_lt(a: nat, b: nat, e: nat)
    requires
        a < b,
        e >= 1,
    ensures
        pow(a as int, e) < pow(b as int, e),
    decreases e,
{
    reveal(pow);
    if a == 0 {
        vstd::arithmetic::power::lemma0_pow(e);
        assert(pow(a as int, e) == 0);
        lemma_pow_positive(b as int, e);
        assert(pow(b as int, e) > 0);
    } else if e == 1 {
        assert(pow(a as int, 0) == 1);
        assert(pow(b as int, 0) == 1);
        assert(pow(a as int, 1) == a * pow(a as int, 0));
        assert(pow(b as int, 1) == b * pow(b as int, 0));
        assert(pow(a as int, e) < pow(b as int, e));
    } else {
        lemma_pow_base_lt(a, b, (e - 1) as nat);
        lemma_pow_positive(a as int, (e - 1) as nat);
        assert(pow(a as int, e) == a * pow(a as int, (e - 1) as nat));
        assert(pow(b as int, e) == b * pow(b as int, (e - 1) as nat));
        let pa = pow(a as int, (e - 1) as nat);
        let pb = pow(b as int, (e - 1) as nat);
        assert(a * pa < b * pb) by (nonlinear_arith)
            requires 0 <= a < b, 0 < pa <= pb,
        ;
    }
}

/// Every `n` has a floor `r`-th root.
pub proof fn lemma_root_exists(n: nat, r: nat)
    ensures
        r >= 1 ==> is_root(n, r, nth_root(n, r)),
    decreases n,
{
    reveal(pow);
    if r >= 1 {
        if n == 0 {
            assert(pow(0int, r) == 0) by {
                vstd::arithmetic::power::lemma0_pow(r);
            }
            assert(pow(1int, r) == 1) by {
                vstd::arithmetic::power::lemma1_pow(r);
            }
            assert(is_root(0, r, 0));
        } else {
            lemma_root_exists((n - 1) as nat, r);
            let w0 = nth_root((n - 1) as nat, r);
            if pow((w0 + 1) as int, r) <= n {
                // then n == pow(w0 + 1, r), so w0 + 1 is the root of n
                lemma_pow_base_lt(w0 + 1, w0 + 2, r);
                assert(is_root(n, r, w0 + 1));
            } else {
                assert(is_root(n, r, w0));
            }
        }
        let w = choose|w: nat| is_root(n, r, w);
        assert(is_root(n, r, w));
    }
}

/// The floor `r`-th root is unique.
pub proof fn lemma_root_unique(n: nat, r: nat, w1: nat, w2: nat)
    requires
        r >= 1,
        is_root(n, r, w1),
        is_root(n, r, w2),
    ensures
        w1 == w2,
{
    if w1 < w2 {
        lemma_pow_base_le(w1 + 1, w2, r);
    }
    if w2 < w1 {
        lemma_pow_base_le(w2 + 1, w1, r);
    }
}

/// `pow(b, e)` when it fits in `u128`, `None` when it overflows.
pub fn pow_checked(b: u128, e: u32) -> (r: Option<u128>)
    ensures
        match r {
            Some(v) => v == pow(b as int, e as nat),
            None => pow(b as int, e as nat) > u128::MAX,
        },
{
    let mut acc: u128 = 1;
    let mut i: u32 = 0;
    proof {
        reveal(pow);
    }
    while i < e
        invariant
            0 <= i <= e,
            acc == pow(b as int, i as nat),
        decreases e - i,
    {
        proof {
            reveal(pow);
            assert(pow(b as int, (i + 1) as nat) == b * pow(b as int, i as nat));
            assert(acc * b == b * acc) by (nonlinear_arith);
            if acc * b > u128::MAX {
                assert(b > 0) by (nonlinear_arith)
                    requires acc * b > 0,
                ;
                lemma_pow_increases(b as nat, (i + 1) as nat, e as nat);
            }
        }
        acc = match acc.checked_mul(b) {
            Some(v) => v,
            None => {
                return None;
            },
        };
        i = i + 1;
    }
    Some(acc)
}

/// The floor `r`-th root of `n`, by binary search.
pub fn iroot(n: u128, r: u32) -> (w: u128)
    requires
        r >= 1,
        n < u128::MAX,
    ensures
        w == nth_root(n as nat, r as nat),
        is_root(n as nat, r as nat, w as nat),
{
    let mut lo: u128 = 0;
    let mut hi: u128 = n + 1;
    proof {
        reveal(pow);
        vstd::arithmetic::power::lemma0_pow(r as nat);
        assert(pow((n + 1) as int, 1) == (n + 1) * pow((n + 1) as int, 0));
        if n + 1 > 1 {
            lemma_pow_increases((n + 1) as nat, 1, r as nat);
        } else {
            vstd::arithmetic::power::lemma1_pow(r as nat);
        }
    }
    while lo + 1 < hi
        invariant
            0 <= lo < hi <= n + 1,
            pow(lo as int, r as nat) <= n,
            pow(hi as int, r as nat) > n,
        decreases hi - lo,
    {
        let mid = lo + (hi - lo) / 2;
        let fits = match pow_checked(mid, r) {
            Some(v) => v <= n,
            None => false,
        };
        if fits {
            lo = mid;
        } else {
            hi = mid;
        }
    }
    proof {
        assert(is_root(n as nat, r as nat, lo as nat));
        lemma_root_exists(n as nat, r as nat);
        lemma_root_unique(n as nat, r as nat, lo as nat, nth_root(n as nat, r as nat));
    }
    lo
}

} // verus!
