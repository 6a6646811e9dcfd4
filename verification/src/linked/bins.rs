//! Size classes: the map from a user size to one of the 96 free-list bins.
use crate::linked::overlay::Overlay;
use vstd::arithmetic::div_mod::*;
use vstd::arithmetic::power2::*;
use vstd::bits::*;
use vstd::prelude::*;

verus! {

/// Number of bins that each serve a single 8-byte step of sizes.
pub const EXACT_BINS_LEN: usize = 32;

/// Number of bins that each serve a quarter of a power-of-two range.
pub const SORTED_BINS_LEN: usize = 64;

/// Total number of bins.
pub const BINS_LEN: usize = 96;

/// Bytes of bookkeeping at the start of a chunk that is in use.
pub const META_SIZE: usize = 8;

/// Smallest chunk: the meta word, two list links and the footer.
pub const MIN_SIZE: usize = 32;

/// Smallest user size a chunk can serve.
pub const MIN_USER_SIZE: usize = 24;

/// Position of the most significant set bit of `x` (0 for `x < 2`).
pub open spec fn log2_floor(x: nat) -> nat
    decreases x,
{
    if x < 2 {
        0
    } else {
        1 + log2_floor(x / 2)
    }
}

/// The bin that serves user size `size`.
///
/// Sizes below 256 get one bin per 8-byte step. From 256 up to 2^24 each
/// power-of-two range is cut into four bins. Everything larger shares the
/// last bin.
pub open spec fn bin_index(size: nat) -> nat {
    let s = if size < 24 {
        24
    } else {
        size
    };
    if s < 256 {
        s / 8
    } else if s >= 0x100_0000 {
        95
    } else {
        let m = log2_floor(s / 256);
        32 + 4 * m + (s / pow2(m + 6)) % 4
    }
}

/// `x` lies between `2^log2_floor(x)` and the next power of two.
pub(crate) proof fn lemma_log2_floor_bounds(x: nat)
    requires
        x >= 1,
    ensures
        pow2(log2_floor(x)) <= x < pow2(log2_floor(x) + 1),
    decreases x,
{
    lemma2_to64();
    if x >= 2 {
        lemma_log2_floor_bounds(x / 2);
        lemma_pow2_unfold(log2_floor(x / 2) + 1);
        lemma_pow2_unfold(log2_floor(x / 2) + 2);
    }
}

/// `log2_floor` never decreases as its argument grows.
pub(crate) proof fn lemma_log2_floor_monotone(x: nat, y: nat)
    requires
        x <= y,
    ensures
        log2_floor(x) <= log2_floor(y),
    decreases y,
{
    if x >= 2 {
        lemma_log2_floor_monotone(x / 2, y / 2);
    }
}

/// Any value below `2^k` has its top bit below position `k`.
pub(crate) proof fn lemma_log2_floor_below(x: nat, k: nat)
    requires
        1 <= x < pow2(k),
    ensures
        log2_floor(x) < k,
{
    lemma_log2_floor_bounds(x);
    if log2_floor(x) >= k {
        if log2_floor(x) > k {
            lemma_pow2_strictly_increases(k, log2_floor(x));
        }
    }
}

/// In the sorted range, the quotient that selects the quarter lies in `4..8`.
pub(crate) proof fn lemma_quarter_bounds(s: nat)
    requires
        256 <= s < 0x100_0000,
    ensures
        log2_floor(s / 256) <= 15,
        4 * pow2(log2_floor(s / 256) + 6) <= s < 8 * pow2(log2_floor(s / 256) + 6),
        4 <= s / pow2(log2_floor(s / 256) + 6) < 8,
        (s / pow2(log2_floor(s / 256) + 6)) % 4 == s / pow2(log2_floor(s / 256) + 6) - 4,
{
    lemma2_to64();
    let m = log2_floor(s / 256);
    lemma_log2_floor_bounds(s / 256);
    lemma_log2_floor_below(s / 256, 16);
    let p = pow2(m + 6);
    lemma_pow2_adds(m, 6);
    lemma_pow2_adds(m, 8);
    lemma_pow2_adds(m + 1, 8);
    lemma_pow2_unfold(m + 1);
    lemma_pow2_pos(m);
    assert(pow2(m + 8) == 4 * p) by (nonlinear_arith)
        requires
            pow2(m + 8) == pow2(m) * 256,
            p == pow2(m) * 64,
    ;
    assert(pow2(m + 9) == 8 * p) by (nonlinear_arith)
        requires
            pow2(m + 9) == 2 * pow2(m) * 256,
            p == pow2(m) * 64,
    ;
    assert(pow2(m) * 256 <= s) by (nonlinear_arith)
        requires
            pow2(m) <= s / 256,
    ;
    assert(s < 2 * pow2(m) * 256) by (nonlinear_arith)
        requires
            s / 256 < 2 * pow2(m),
    ;
    assert(4 <= s / p < 8) by (nonlinear_arith)
        requires
            4 * p <= s < 8 * p,
            p > 0,
    ;
}

/// The bin index is monotone in the size.
pub proof fn lemma_bin_index_monotone(a: nat, b: nat)
    requires
        a <= b,
    ensures
        bin_index(a) <= bin_index(b),
{
    let s = if a < 24 {
        24
    } else {
        a
    };
    let t = if b < 24 {
        24
    } else {
        b
    };
    if s >= 256 && t < 0x100_0000 {
        let ms = log2_floor(s / 256);
        let mt = log2_floor(t / 256);
        lemma_quarter_bounds(s);
        lemma_quarter_bounds(t);
        lemma_log2_floor_monotone(s / 256, t / 256);
        if ms == mt {
            lemma_pow2_pos(ms + 6);
            lemma_div_is_ordered(s as int, t as int, pow2(ms + 6) as int);
        }
    } else if t >= 0x100_0000 {
        if 256 <= s < 0x100_0000 {
            lemma_quarter_bounds(s);
        }
    }
}

/// Every bin index lies in `3..96`.
pub proof fn lemma_bin_index_range(size: nat)
    ensures
        3 <= bin_index(size) < 96,
{
    let s = if size < 24 {
        24
    } else {
        size
    };
    if 256 <= s < 0x100_0000 {
        lemma_quarter_bounds(s);
    }
}

impl Overlay {
    /// Computes the bin that serves user size `size`.
    pub fn bin_index_of_size(size: usize) -> (index: usize)
        ensures
            index == bin_index(size as nat),
            3 <= index < 96,
    {
        proof {
            lemma_bin_index_range(size as nat);
        }
        let s: u64 = if size < MIN_USER_SIZE {
            24
        } else {
            size as u64
        };
        let top: u64 = s >> 8;
        assert(top == s / 256) by (bit_vector)
            requires
                top == s >> 8,
        ;
        if top == 0 {
            (s / 8) as usize
        } else if top >= 0x10000 {
            BINS_LEN - 1
        } else {
            let mut m: u64 = 0;
            let mut t: u64 = top;
            proof {
                lemma2_to64();
            }
            while t > 1
                invariant
                    1 <= t,
                    m <= 15,
                    t < pow2((16 - m) as nat),
                    log2_floor(top as nat) == m + log2_floor(t as nat),
                decreases t,
            {
                proof {
                    if m == 15 {
                        lemma2_to64();
                    }
                    lemma_pow2_unfold((16 - m) as nat);
                }
                assert(t >> 1 == t / 2) by (bit_vector);
                t = t >> 1;
                m = m + 1;
            }
            let shift: u64 = m + 6;
            let q: u64 = s >> shift;
            let quarter: u64 = q & 3;
            let step: u64 = m << 2;
            proof {
                lemma_u64_shr_is_div(s, shift);
                lemma_quarter_bounds(s as nat);
            }
            assert(quarter == q % 4) by (bit_vector)
                requires
                    quarter == q & 3,
            ;
            assert(step == 4 * m) by (bit_vector)
                requires
                    step == m << 2,
                    m <= 15,
            ;
            (32 + step + quarter) as usize
        }
    }
}

} // verus!
