//! Fixed-point scales and small numeric helpers shared by the ranking model
//! and the matchup sampler, together with the summation spec functions their
//! contracts are written over.
use vstd::prelude::*;

use vstd::arithmetic::div_mod::{
    lemma_div_pos_is_pos, lemma_fundamental_div_mod, lemma_multiply_divide_lt,
};
use vstd::arithmetic::mul::lemma_mul_strict_inequality;
use vstd::arithmetic::power2::{
    lemma2_to64, lemma_pow2_adds, lemma_pow2_strictly_increases, pow2,
};

verus! {

/// Two to the 128th, written out so the solver can fold the product.
proof fn lemma_pow2_128()
    ensures
        pow2(128) == 0x1_0000_0000_0000_0000_0000_0000_0000_0000,
{
    lemma_pow2_adds(64, 64);
    lemma2_to64();
}

/// Abilities are fixed-point values in millionths: `ABILITY_ONE` is 1.0.
pub const ABILITY_ONE: u64 = 1_000_000;

/// The degeneracy floor for abilities: one millionth (1e-6).
pub const MIN_ABILITY: u64 = 1;

/// Abilities are clamped to this ceiling (one million in real terms) so that
/// every intermediate product in the fitting and sampling arithmetic fits in
/// the machine words used for it.
pub const ABILITY_CEILING: u64 = 1_000_000_000_000;

/// Sampler weights are fixed-point values in billionths: `WEIGHT_ONE` is 1.0.
pub const WEIGHT_ONE: u64 = 1_000_000_000;

/// The floor every sampler weight is clamped to, one billionth (1e-9).
pub const MIN_WEIGHT: u64 = 1;

/// Upper bound on the item count accepted by fitting and sampling, chosen so
/// that all summations provably fit their integer types.
pub const MAX_ITEMS: usize = 65536;

/// `ABILITY_ONE` squared: the scale the fitting denominators are held at.
pub const FIT_SCALE: u128 = 1_000_000_000_000;

/// Mathematical sum of a sequence of 64-bit values.
pub open spec fn sum64(s: Seq<u64>) -> int
    decreases s.len(),
{
    if s.len() == 0 {
        0
    } else {
        sum64(s.drop_last()) + s.last()
    }
}

/// Mathematical sum of a sequence of 32-bit values.
pub open spec fn sum32(s: Seq<u32>) -> int
    decreases s.len(),
{
    if s.len() == 0 {
        0
    } else {
        sum32(s.drop_last()) + s.last()
    }
}

pub proof fn lemma_sum64_nonneg(s: Seq<u64>)
    ensures
        sum64(s) >= 0,
    decreases s.len(),
{
    if s.len() > 0 {
        lemma_sum64_nonneg(s.drop_last());
    }
}

pub proof fn lemma_sum32_nonneg(s: Seq<u32>)
    ensures
        sum32(s) >= 0,
    decreases s.len(),
{
    if s.len() > 0 {
        lemma_sum32_nonneg(s.drop_last());
    }
}

/// A sequence whose entries are all bounded has a bounded sum.
pub proof fn lemma_sum64_bounded(s: Seq<u64>, bound: int)
    requires
        forall|i: int| 0 <= i < s.len() ==> s[i] <= bound,
        bound >= 0,
    ensures
        sum64(s) <= s.len() * bound,
    decreases s.len(),
{
    if s.len() > 0 {
        lemma_sum64_bounded(s.drop_last(), bound);
        assert((s.len() - 1) * bound + bound == s.len() * bound) by (nonlinear_arith);
    }
}

/// The sum of a prefix is at most the sum of the whole sequence.
pub proof fn lemma_sum32_take_le(s: Seq<u32>, k: int)
    requires
        0 <= k <= s.len(),
    ensures
        sum32(s.take(k)) <= sum32(s),
    decreases s.len(),
{
    if k == s.len() {
        assert(s.take(k) =~= s);
    } else if s.len() > 0 {
        assert(s.take(k) =~= s.drop_last().take(k));
        lemma_sum32_take_le(s.drop_last(), k);
    }
}

/// A sequence whose entries are all at least one has a sum of at least its
/// length.
pub proof fn lemma_sum64_lower(s: Seq<u64>)
    requires
        forall|i: int| 0 <= i < s.len() ==> s[i] >= 1,
    ensures
        sum64(s) >= s.len(),
    decreases s.len(),
{
    if s.len() > 0 {
        lemma_sum64_lower(s.drop_last());
    }
}

/// Every entry is at most the whole sum.
pub proof fn lemma_sum64_element_le(s: Seq<u64>, i: int)
    requires
        0 <= i < s.len(),
    ensures
        s[i] <= sum64(s),
    decreases s.len(),
{
    if i == s.len() - 1 {
        lemma_sum64_nonneg(s.drop_last());
    } else {
        lemma_sum64_element_le(s.drop_last(), i);
    }
}

/// The deep view of a win matrix indexes to the same rows as the plain view.
pub proof fn lemma_matrix_deep_view(m: Vec<Vec<u32>>)
    ensures
        m.deep_view().len() == m@.len(),
        forall|i: int| 0 <= i < m@.len() ==> m.deep_view()[i] == m@[i]@,
{
    assert forall|i: int| 0 <= i < m@.len() implies m.deep_view()[i] == m@[i]@ by {
        assert(m@[i].deep_view() =~= m@[i]@);
    }
}

/// Clamp a raw ability into the representable band
/// `[MIN_ABILITY, ABILITY_CEILING]`.
pub open spec fn spec_clamp_ability(v: u64) -> u64 {
    if v < MIN_ABILITY {
        MIN_ABILITY
    } else if v > ABILITY_CEILING {
        ABILITY_CEILING
    } else {
        v
    }
}

pub fn clamp_ability(v: u64) -> (r: u64)
    ensures
        r == spec_clamp_ability(v),
{
    if v < MIN_ABILITY {
        MIN_ABILITY
    } else if v > ABILITY_CEILING {
        ABILITY_CEILING
    } else {
        v
    }
}

/// Largest argument `lg2_milli` accepts (two to the 110th), which keeps its
/// intermediate products inside 128 bits.
pub const LOG_ARG_MAX: u128 = 0x4000_0000_0000_0000_0000_0000_0000;

/// Floor of the base-two logarithm, by repeated halving.
pub open spec fn spec_ilog2(x: int) -> int
    decreases x,
{
    if x < 2 {
        0
    } else {
        1 + spec_ilog2(x / 2)
    }
}

pub proof fn lemma_ilog2(x: int)
    requires
        x >= 1,
    ensures
        0 <= spec_ilog2(x),
        pow2(spec_ilog2(x) as nat) <= x,
        x < pow2((spec_ilog2(x) + 1) as nat),
    decreases x,
{
    if x < 2 {
        lemma2_to64();
    } else {
        lemma_ilog2(x / 2);
        let e = spec_ilog2(x / 2);
        lemma_fundamental_div_mod(x, 2);
        lemma_pow2_adds(e as nat, 1);
        lemma_pow2_adds((e + 1) as nat, 1);
        lemma2_to64();
    }
}

/// Base-two logarithm in millibits: `e * 1000` plus a linear interpolation
/// of the fraction above the power of two below.
pub open spec fn spec_lg2_milli(x: int) -> int {
    let e = spec_ilog2(x);
    e * 1000 + (x - pow2(e as nat)) * 1000 / (pow2(e as nat) as int)
}

/// Floor of the base-two logarithm.
pub fn ilog2_u128(x: u128) -> (r: u32)
    requires
        x >= 1,
    ensures
        r as int == spec_ilog2(x as int),
        r <= 127,
    decreases x,
{
    proof {
        lemma_ilog2(x as int);
        if spec_ilog2(x as int) >= 128 {
            if spec_ilog2(x as int) > 128 {
                lemma_pow2_strictly_increases(128, spec_ilog2(x as int) as nat);
            }
            lemma_pow2_128();
        }
    }
    if x < 2 {
        0
    } else {
        let sub = ilog2_u128(x / 2);
        sub + 1
    }
}

/// Two to the `e`th power.
pub fn pow2_u128(e: u32) -> (r: u128)
    requires
        e <= 127,
    ensures
        r as nat == pow2(e as nat),
        r >= 1,
{
    let mut k: u32 = 0;
    let mut p: u128 = 1;
    proof {
        lemma2_to64();
    }
    while k < e
        invariant
            k <= e <= 127,
            p as nat == pow2(k as nat),
            p >= 1,
        decreases e - k,
    {
        proof {
            lemma_pow2_adds(k as nat, 1);
            lemma2_to64();
            lemma_pow2_strictly_increases((k + 1) as nat, 128);
            lemma_pow2_128();
        }
        p = p * 2;
        k = k + 1;
    }
    p
}

/// Base-two logarithm in millibits.
pub fn lg2_milli(x: u128) -> (r: u64)
    requires
        1 <= x <= LOG_ARG_MAX,
    ensures
        r as int == spec_lg2_milli(x as int),
        r <= 127_999,
{
    let e = ilog2_u128(x);
    let p = pow2_u128(e);
    proof {
        lemma_ilog2(x as int);
        lemma_pow2_adds(e as nat, 1);
        lemma2_to64();
        lemma_mul_strict_inequality((x - p) as int, p as int, 1000);
        lemma_multiply_divide_lt((x - p) as int * 1000, p as int, 1000);
        lemma_div_pos_is_pos((x - p) as int * 1000, p as int);
    }
    let frac = ((x - p) * 1000 / p) as u64;
    (e as u64) * 1000 + frac
}

/// Integer square root: the greatest `r` with `r * r <= x`.
pub fn isqrt64(x: u64) -> (r: u64)
    ensures
        (r as int) * (r as int) <= x as int,
        (x as int) < (r as int + 1) * (r as int + 1),
{
    let mut lo: u64 = 0;
    let mut hi: u64 = 0x1_0000_0000;
    assert((hi as int) * (hi as int) > x as int) by (nonlinear_arith)
        requires
            hi == 0x1_0000_0000u64,
            x <= u64::MAX,
    ;
    while hi - lo > 1
        invariant
            lo < hi <= 0x1_0000_0000,
            (lo as int) * (lo as int) <= x as int,
            (hi as int) * (hi as int) > x as int,
        decreases hi - lo,
    {
        let mid = lo + (hi - lo) / 2;
        assert((mid as int) * (mid as int) <= u128::MAX) by (nonlinear_arith)
            requires
                mid <= 0x1_0000_0000u64,
        ;
        if (mid as u128) * (mid as u128) <= x as u128 {
            lo = mid;
        } else {
            hi = mid;
        }
    }
    lo
}

} // verus!
