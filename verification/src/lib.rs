//! Verified core of a tweet-clustering library: a chained hash table with
//! automatic growth, text normalization, per-author word-frequency models
//! with exact integer vector algebra, a binary codec, and scalar k-means
//! clustering over the authors.
pub mod codec;
pub mod freq;
pub mod processor;
pub mod summation;
pub mod text;
pub mod tweet;
pub mod twithash;

use vstd::prelude::*;

verus! {

/// Floor of the square root: the unique `r` with `r * r <= n < (r + 1) * (r + 1)`.
pub open spec fn sqrt_floor(n: nat) -> nat {
    choose|r: nat| #[trigger] (r * r) <= n && n < (r + 1) * (r + 1)
}

/// The floor square root exists and is unique, so `sqrt_floor` is well defined.
pub proof fn lemma_sqrt_floor_exists(n: nat)
    ensures
        sqrt_floor(n) * sqrt_floor(n) <= n,
        n < (sqrt_floor(n) + 1) * (sqrt_floor(n) + 1),
    decreases n,
{
    if n == 0 {
        assert((0 as nat) * (0 as nat) <= n && n < ((0 as nat) + 1) * ((0 as nat) + 1))
            by (nonlinear_arith)
            requires n == 0,;
        assert(exists|r: nat| #[trigger] (r * r) <= n && n < (r + 1) * (r + 1));
    } else {
        lemma_sqrt_floor_exists((n - 1) as nat);
        let p = sqrt_floor((n - 1) as nat);
        if n < (p + 1) * (p + 1) {
            assert(p * p <= n && n < (p + 1) * (p + 1)) by (nonlinear_arith)
                requires p * p <= n - 1, n < (p + 1) * (p + 1),;
            assert(exists|r: nat| #[trigger] (r * r) <= n && n < (r + 1) * (r + 1));
        } else {
            assert(n == (p + 1) * (p + 1));
            assert((p + 1) * (p + 1) <= n && n < (p + 2) * (p + 2)) by (nonlinear_arith)
                requires n == (p + 1) * (p + 1),;
            assert(exists|r: nat| #[trigger] (r * r) <= n && n < (r + 1) * (r + 1));
        }
    }
}

/// Floor square root of a 128-bit integer, by binary search.
pub fn isqrt(n: u128) -> (r: u128)
    ensures
        r as nat == sqrt_floor(n as nat),
        r * r <= n,
{
    let mut lo: u128 = 0;
    let mut hi: u128 = 0x2_0000_0000_0000_0000;
    proof {
        assert(hi * hi > u128::MAX) by (nonlinear_arith)
            requires hi == 0x2_0000_0000_0000_0000u128;
    }
    while hi - lo > 1
        invariant
            lo < hi,
            lo * lo <= n as nat,
            (n as nat) < hi * hi,
            hi <= 0x2_0000_0000_0000_0000,
        decreases hi - lo,
    {
        let mid = lo + (hi - lo) / 2;
        if mid <= n / mid {
            proof {
                assert(mid * mid <= n) by (nonlinear_arith)
                    requires mid >= 1, mid <= n / mid, n / mid == n as nat / mid as nat;
            }
            lo = mid;
        } else {
            proof {
                assert(n < mid * mid) by (nonlinear_arith)
                    requires mid >= 1, mid > n / mid, n / mid == n as nat / mid as nat;
            }
            hi = mid;
        }
    }
    proof {
        lemma_sqrt_floor_exists(n as nat);
        let s = sqrt_floor(n as nat);
        assert(s == lo) by (nonlinear_arith)
            requires
                s * s <= n as nat, (n as nat) < (s + 1) * (s + 1),
                lo * lo <= n as nat, (n as nat) < (lo + 1) * (lo + 1);
    }
    lo
}

} // verus!
