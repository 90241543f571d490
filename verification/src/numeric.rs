//! Integer arithmetic for the confidence-bound score.
//!
//! The engine keeps every statistic as an integer and evaluates the
//! exploration term of the confidence bound in fixed point, so it needs a
//! floor base-two logarithm and an integer square root, both with exact
//! contracts.

use vstd::arithmetic::power2::{lemma2_to64, lemma_pow2_adds, lemma_pow2_pos, pow2};
use vstd::prelude::*;

verus! {

/// The floor of the base-two logarithm: 0 for inputs below 2, and one more
/// for each halving until the input is below 2.
pub open spec fn spec_log2(n: int) -> int
    decreases n,
{
    if n < 2 {
        0
    } else {
        1 + spec_log2(n / 2)
    }
}

/// `r` is the integer square root of `x`.
pub open spec fn is_isqrt(x: int, r: int) -> bool {
    0 <= r && r * r <= x && x < (r + 1) * (r + 1)
}

/// The integer square root of `x`: the unique `r` with
/// `r * r <= x < (r + 1) * (r + 1)`.
pub open spec fn spec_isqrt(x: int) -> int {
    choose|r: int| is_isqrt(x, r)
}

/// Two integer square roots of the same value are the same number.
proof fn lemma_isqrt_unique(x: int, a: int, b: int)
    requires
        is_isqrt(x, a),
        is_isqrt(x, b),
    ensures
        a == b,
{
    if a < b {
        assert((a + 1) * (a + 1) <= b * b) by (nonlinear_arith)
            requires
                0 <= a,
                a + 1 <= b,
        ;
        assert(false);
    }
    if b < a {
        assert((b + 1) * (b + 1) <= a * a) by (nonlinear_arith)
            requires
                0 <= b,
                b + 1 <= a,
        ;
        assert(false);
    }
}

/// The floor of the base-two logarithm of `n`.
pub fn log2_floor(n: u64) -> (r: u32)
    requires
        n >= 1,
    ensures
        r == spec_log2(n as int),
        r <= 63,
{
    let mut m: u64 = n;
    let mut r: u32 = 0;
    proof {
        lemma2_to64();
    }
    while m >= 2
        invariant
            1 <= m,
            r <= 63,
            (m as int) * pow2(r as nat) <= n,
            spec_log2(n as int) == r + spec_log2(m as int),
        decreases m,
    {
        proof {
            lemma_pow2_adds(r as nat, 1);
            lemma2_to64();
            lemma_pow2_pos(r as nat);
            lemma_pow2_pos((r + 1) as nat);
            assert(pow2((r + 1) as nat) == 2 * pow2(r as nat));
            // With m >= 2, one more doubling still fits under n.
            assert(pow2((r + 1) as nat) <= (m as int) * pow2(r as nat)) by (nonlinear_arith)
                requires
                    m >= 2,
                    pow2((r + 1) as nat) == 2 * pow2(r as nat),
                    pow2(r as nat) >= 1,
            ;
            // If r were already 63, n would have to reach 2^64.
            if r >= 63 {
                assert(pow2(64) == 0x10000000000000000);
                assert(false);
            }
            assert(((m / 2) as int) * pow2((r + 1) as nat) <= (m as int) * pow2(r as nat))
                by (nonlinear_arith)
                requires
                    pow2((r + 1) as nat) == 2 * pow2(r as nat),
                    pow2(r as nat) >= 1,
                    m >= 2,
            ;
        }
        m = m / 2;
        r = r + 1;
    }
    r
}

/// The integer square root of `x`.
pub fn isqrt(x: u64) -> (r: u64)
    ensures
        is_isqrt(x as int, r as int),
        r == spec_isqrt(x as int),
{
    let mut lo: u64 = 0;
    let mut hi: u64 = 0x1_0000_0000;
    proof {
        assert((x as int) < (0x1_0000_0000 as int) * (0x1_0000_0000 as int));
    }
    while lo + 1 < hi
        invariant
            lo < hi <= 0x1_0000_0000,
            lo as int * lo as int <= x as int,
            (x as int) < hi as int * hi as int,
        decreases hi - lo,
    {
        let mid: u64 = lo + (hi - lo) / 2;
        proof {
            assert((mid as int) * (mid as int) < (0x1_0000_0000 as int) * (0x1_0000_0000 as int))
                by (nonlinear_arith)
                requires
                    0 <= mid && (mid as int) < (0x1_0000_0000 as int),
            ;
        }
        if mid * mid <= x {
            lo = mid;
        } else {
            hi = mid;
        }
    }
    proof {
        let r = lo as int;
        assert(is_isqrt(x as int, r));
        assert(is_isqrt(x as int, spec_isqrt(x as int))) by {
            assert(exists|q: int| is_isqrt(x as int, q)) by {
                assert(is_isqrt(x as int, r));
            }
        }
        lemma_isqrt_unique(x as int, r, spec_isqrt(x as int));
    }
    lo
}

} // verus!
