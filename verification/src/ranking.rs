//! Bradley-Terry strength model: one fixed-point ability per item, fitted to a
//! win-count matrix by iterative proportional updates and kept normalized so
//! the vector always sums to `ABILITY_ONE`.
use vstd::prelude::*;

use vstd::arithmetic::div_mod::{
    lemma_div_by_multiple, lemma_div_is_ordered, lemma_div_nonincreasing, lemma_div_pos_is_pos,
    lemma_remainder, lemma_remainder_lower,
};
use vstd::arithmetic::div_mod::lemma_multiply_divide_lt;
use vstd::arithmetic::mul::{
    lemma_mul_inequality, lemma_mul_inequality_converse, lemma_mul_strict_inequality,
    lemma_mul_strict_inequality_converse,
};

use crate::fixed::{
    clamp_ability, lemma_matrix_deep_view, lemma_sum64_element_le, lemma_sum64_lower, lg2_milli,
    spec_clamp_ability, spec_lg2_milli, sum32, sum64, ABILITY_CEILING, ABILITY_ONE, FIT_SCALE,
    MAX_ITEMS, MIN_ABILITY,
};

verus! {

/// The ability vector with every entry clamped into the representable band.
pub open spec fn clamped(s: Seq<u64>) -> Seq<u64> {
    s.map_values(|v: u64| spec_clamp_ability(v))
}

/// Sum of the clamped entries: the normalization denominator.
pub open spec fn clamped_total(s: Seq<u64>) -> int {
    sum64(clamped(s))
}

/// Sum of the first `k` clamped entries.
pub open spec fn prefix_clamped(s: Seq<u64>, k: int) -> int {
    sum64(clamped(s).take(k))
}

/// The pool of millionths left to hand out proportionally once every entry
/// has been granted the one-millionth floor.
pub open spec fn spec_pool(n: int) -> int {
    ABILITY_ONE - n
}

/// The rounded-down proportional share of the pool for a clamped entry.
pub open spec fn spec_share(c: u64, total: int, n: int) -> int {
    (c as int) * spec_pool(n) / total
}

/// Sum of the proportional shares of the first `k` entries.
pub open spec fn spec_share_sum(s: Seq<u64>, k: int) -> int
    decreases k,
{
    if k <= 0 {
        0
    } else {
        spec_share_sum(s, k - 1) + spec_share(
            spec_clamp_ability(s[k - 1]),
            clamped_total(s),
            s.len() as int,
        )
    }
}

/// The millionths still short of an exact total after flooring every share.
pub open spec fn spec_deficit(s: Seq<u64>) -> int {
    spec_pool(s.len() as int) - spec_share_sum(s, s.len() as int)
}

/// Whether entry `j` is served before entry `i` when the rounding deficit
/// is handed out: strictly stronger entries first, ties by position.
pub open spec fn precedes(s: Seq<u64>, i: int, j: int) -> bool {
    ||| spec_clamp_ability(s[j]) > spec_clamp_ability(s[i])
    ||| (spec_clamp_ability(s[j]) == spec_clamp_ability(s[i]) && j < i)
}

/// How many of the first `k` entries are served before entry `i`.
pub open spec fn rank_upto(s: Seq<u64>, i: int, k: int) -> int
    decreases k,
{
    if k <= 0 {
        0
    } else {
        rank_upto(s, i, k - 1) + if precedes(s, i, k - 1) {
            1int
        } else {
            0int
        }
    }
}

/// Entry `i`'s position in the deficit hand-out order.
pub open spec fn spec_rank(s: Seq<u64>, i: int) -> int {
    rank_upto(s, i, s.len() as int)
}

/// Normalization: every entry is clamped into the representable band, then
/// granted the one-millionth floor plus its rounded-down proportional share
/// of the remaining pool; the rounding deficit is handed out one millionth
/// each to the entries first in the strength order. The total is exactly
/// `ABILITY_ONE`, no entry falls below the floor, and a strictly stronger
/// entry never lands below a weaker one (exact ties can differ by at most
/// one millionth, which an exact unit total makes unavoidable). A clamped
/// sum of zero resets the vector to a uniform distribution instead (with
/// clamped entries this cannot occur, but the rule is kept as the defensive
/// reset the design calls for).
pub open spec fn spec_normalize(s: Seq<u64>) -> Seq<u64> {
    if s.len() == 0 {
        s
    } else if clamped_total(s) == 0 {
        Seq::new(s.len(), |i: int| ((ABILITY_ONE as int) / (s.len() as int)) as u64)
    } else {
        Seq::new(
            s.len(),
            |i: int|
                (1 + spec_share(spec_clamp_ability(s[i]), clamped_total(s), s.len() as int) + (
                if spec_rank(s, i) < spec_deficit(s) {
                    1int
                } else {
                    0int
                })) as u64,
        )
    }
}

proof fn lemma_prefix_clamped_step(s: Seq<u64>, i: int)
    requires
        0 <= i < s.len(),
    ensures
        prefix_clamped(s, i + 1) == prefix_clamped(s, i) + spec_clamp_ability(s[i]),
{
    assert(clamped(s).take(i + 1).drop_last() =~= clamped(s).take(i));
    assert(clamped(s).take(i + 1).last() == spec_clamp_ability(s[i]));
}

proof fn lemma_share_bounds(s: Seq<u64>, i: int)
    requires
        0 <= i < s.len(),
        s.len() <= ABILITY_ONE,
        clamped_total(s) > 0,
    ensures
        0 <= spec_share(spec_clamp_ability(s[i]), clamped_total(s), s.len() as int)
            <= spec_pool(s.len() as int),
{
    let c = spec_clamp_ability(s[i]) as int;
    let t = clamped_total(s);
    let p = spec_pool(s.len() as int);
    lemma_sum64_element_le(clamped(s), i);
    assert(c * p >= 0) by (nonlinear_arith)
        requires
            c >= 0,
            p >= 0,
    ;
    lemma_div_pos_is_pos(c * p, t);
    lemma_mul_inequality(c, t, p);
    lemma_div_is_ordered(c * p, t * p, t);
    lemma_div_by_multiple(p, t);
    assert(t * p == p * t) by (nonlinear_arith);
}

proof fn lemma_share_sum_bounds(s: Seq<u64>, k: int)
    requires
        0 <= k <= s.len(),
        s.len() <= ABILITY_ONE,
        clamped_total(s) > 0,
    ensures
        clamped_total(s) * spec_share_sum(s, k) <= prefix_clamped(s, k) * spec_pool(
            s.len() as int,
        ),
        clamped_total(s) * spec_share_sum(s, k) >= prefix_clamped(s, k) * spec_pool(
            s.len() as int,
        ) - k * (clamped_total(s) - 1),
    decreases k,
{
    let t = clamped_total(s);
    let p = spec_pool(s.len() as int);
    if k == 0 {
        assert(clamped(s).take(0) =~= Seq::<u64>::empty());
        assert(t * 0 == 0) by (nonlinear_arith);
        assert(0 * p == 0) by (nonlinear_arith);
        assert(0 * (t - 1) == 0) by (nonlinear_arith);
    } else {
        lemma_share_sum_bounds(s, k - 1);
        lemma_prefix_clamped_step(s, k - 1);
        let c = spec_clamp_ability(s[k - 1]) as int;
        let sh = spec_share(spec_clamp_ability(s[k - 1]), t, s.len() as int);
        assert(sh == c * p / t);
        assert(c * p >= 0) by (nonlinear_arith)
            requires
                c >= 0,
                p >= 0,
        ;
        lemma_remainder(c * p, t);
        assert(t * sh == (c * p / t) * t) by (nonlinear_arith)
            requires
                sh == c * p / t,
        ;
        assert(spec_share_sum(s, k) == spec_share_sum(s, k - 1) + sh);
        assert(t * spec_share_sum(s, k) == t * spec_share_sum(s, k - 1) + t * sh)
            by (nonlinear_arith)
            requires
                spec_share_sum(s, k) == spec_share_sum(s, k - 1) + sh,
        ;
        assert((prefix_clamped(s, k - 1) + c) * p == prefix_clamped(s, k - 1) * p + c * p)
            by (nonlinear_arith);
        assert(k * (t - 1) == (k - 1) * (t - 1) + (t - 1)) by (nonlinear_arith);
    }
}

proof fn lemma_share_sum_mono(s: Seq<u64>, k1: int, k2: int)
    requires
        0 <= k1 <= k2 <= s.len(),
        s.len() <= ABILITY_ONE,
        clamped_total(s) > 0,
    ensures
        spec_share_sum(s, k1) <= spec_share_sum(s, k2),
    decreases k2 - k1,
{
    if k1 < k2 {
        lemma_share_sum_mono(s, k1, k2 - 1);
        lemma_share_bounds(s, k2 - 1);
    }
}

proof fn lemma_share_le_sum(s: Seq<u64>, i: int)
    requires
        0 <= i < s.len(),
        s.len() <= ABILITY_ONE,
        clamped_total(s) > 0,
    ensures
        spec_share(spec_clamp_ability(s[i]), clamped_total(s), s.len() as int)
            <= spec_share_sum(s, s.len() as int),
{
    lemma_share_sum_mono(s, 0, i);
    lemma_share_sum_mono(s, i + 1, s.len() as int);
    assert(spec_share_sum(s, i + 1) == spec_share_sum(s, i) + spec_share(
        spec_clamp_ability(s[i]),
        clamped_total(s),
        s.len() as int,
    ));
}

proof fn lemma_deficit_range(s: Seq<u64>)
    requires
        1 <= s.len() <= ABILITY_ONE,
        clamped_total(s) > 0,
    ensures
        0 <= spec_deficit(s) < s.len(),
{
    let n = s.len() as int;
    let t = clamped_total(s);
    let p = spec_pool(n);
    lemma_share_sum_bounds(s, n);
    assert(clamped(s).take(n) =~= clamped(s));
    assert(prefix_clamped(s, n) == t);
    assert(t * spec_share_sum(s, n) <= t * p) by (nonlinear_arith)
        requires
            t * spec_share_sum(s, n) <= prefix_clamped(s, n) * spec_pool(s.len() as int),
            prefix_clamped(s, n) == t,
            p == spec_pool(s.len() as int),
    ;
    assert(spec_share_sum(s, n) * t <= p * t) by (nonlinear_arith)
        requires
            t * spec_share_sum(s, n) <= t * p,
    ;
    lemma_mul_inequality_converse(spec_share_sum(s, n), p, t);
    assert(t * spec_share_sum(s, n) > (p - n) * t) by (nonlinear_arith)
        requires
            t * spec_share_sum(s, n) >= prefix_clamped(s, n) * spec_pool(s.len() as int) - n
                * (t - 1),
            prefix_clamped(s, n) == t,
            p == spec_pool(s.len() as int),
            n >= 1,
            t >= 1,
    ;
    assert((p - n) * t < spec_share_sum(s, n) * t) by (nonlinear_arith)
        requires
            t * spec_share_sum(s, n) > (p - n) * t,
    ;
    lemma_mul_strict_inequality_converse(p - n, spec_share_sum(s, n), t);
}

proof fn lemma_rank_range(s: Seq<u64>, i: int, k: int)
    requires
        0 <= i < s.len(),
        0 <= k <= s.len(),
    ensures
        0 <= rank_upto(s, i, k) <= k,
        i < k ==> rank_upto(s, i, k) <= k - 1,
    decreases k,
{
    if k > 0 {
        lemma_rank_range(s, i, k - 1);
        assert(!precedes(s, i, i));
    }
}

proof fn lemma_rank_strict(s: Seq<u64>, i: int, j: int, k: int)
    requires
        0 <= i < s.len(),
        0 <= j < s.len(),
        precedes(s, i, j),
        0 <= k <= s.len(),
    ensures
        rank_upto(s, j, k) <= rank_upto(s, i, k),
        k > j ==> rank_upto(s, j, k) < rank_upto(s, i, k),
    decreases k,
{
    if k > 0 {
        lemma_rank_strict(s, i, j, k - 1);
        if precedes(s, j, k - 1) {
            assert(precedes(s, i, k - 1));
        }
        if k - 1 == j {
            assert(!precedes(s, j, j));
            assert(precedes(s, i, k - 1));
        }
    }
}

/// How many of the first `k` entries have a hand-out position in `[lo, hi)`.
spec fn cnt_rank_in(s: Seq<u64>, lo: int, hi: int, k: int) -> int
    decreases k,
{
    if k <= 0 {
        0
    } else {
        cnt_rank_in(s, lo, hi, k - 1) + if lo <= spec_rank(s, k - 1) < hi {
            1int
        } else {
            0int
        }
    }
}

proof fn lemma_cnt_bounds(s: Seq<u64>, lo: int, hi: int, k: int)
    ensures
        0 <= cnt_rank_in(s, lo, hi, k) <= (if k >= 0 {
            k
        } else {
            0
        }),
    decreases k,
{
    if k > 0 {
        lemma_cnt_bounds(s, lo, hi, k - 1);
    }
}

proof fn lemma_cnt_split(s: Seq<u64>, lo: int, mid: int, hi: int, k: int)
    requires
        lo <= mid <= hi,
    ensures
        cnt_rank_in(s, lo, hi, k) == cnt_rank_in(s, lo, mid, k) + cnt_rank_in(s, mid, hi, k),
    decreases k,
{
    if k > 0 {
        lemma_cnt_split(s, lo, mid, hi, k - 1);
    }
}

proof fn lemma_cnt_full(s: Seq<u64>, k: int)
    requires
        0 <= k <= s.len(),
    ensures
        cnt_rank_in(s, 0, s.len() as int, k) == k,
    decreases k,
{
    if k > 0 {
        lemma_cnt_full(s, k - 1);
        lemma_rank_range(s, k - 1, s.len() as int);
    }
}

proof fn lemma_cnt_witness(s: Seq<u64>, lo: int, hi: int, k: int)
    requires
        cnt_rank_in(s, lo, hi, k) >= 1,
    ensures
        exists|m: int| 0 <= m < k && lo <= #[trigger] spec_rank(s, m) < hi,
    decreases k,
{
    if k > 0 {
        if lo <= spec_rank(s, k - 1) < hi {
        } else {
            lemma_cnt_witness(s, lo, hi, k - 1);
        }
    }
}

proof fn lemma_cnt_two(s: Seq<u64>, lo: int, hi: int, k: int)
    requires
        cnt_rank_in(s, lo, hi, k) >= 2,
    ensures
        exists|m1: int, m2: int|
            0 <= m1 < m2 < k && lo <= #[trigger] spec_rank(s, m1) < hi && lo
                <= #[trigger] spec_rank(s, m2) < hi,
    decreases k,
{
    if k > 0 {
        if lo <= spec_rank(s, k - 1) < hi {
            lemma_cnt_witness(s, lo, hi, k - 1);
            let m = choose|m: int| 0 <= m < k - 1 && lo <= #[trigger] spec_rank(s, m) < hi;
            assert(0 <= m < k - 1 && lo <= spec_rank(s, m) < hi && lo <= spec_rank(s, k - 1)
                < hi);
        } else {
            lemma_cnt_two(s, lo, hi, k - 1);
        }
    }
}

proof fn lemma_cnt_upper(s: Seq<u64>, lo: int, hi: int)
    requires
        0 <= lo <= hi,
    ensures
        cnt_rank_in(s, lo, hi, s.len() as int) <= hi - lo,
    decreases hi - lo,
{
    let n = s.len() as int;
    if lo == hi {
        lemma_cnt_bounds(s, lo, hi, n);
        if cnt_rank_in(s, lo, hi, n) >= 1 {
            lemma_cnt_witness(s, lo, hi, n);
        }
    } else {
        lemma_cnt_split(s, lo, hi - 1, hi, n);
        lemma_cnt_upper(s, lo, hi - 1);
        lemma_cnt_bounds(s, hi - 1, hi, n);
        if cnt_rank_in(s, hi - 1, hi, n) >= 2 {
            lemma_cnt_two(s, hi - 1, hi, n);
            let (m1, m2) = choose|m1: int, m2: int|
                0 <= m1 < m2 < n && hi - 1 <= #[trigger] spec_rank(s, m1) < hi && hi - 1
                    <= #[trigger] spec_rank(s, m2) < hi;
            if precedes(s, m1, m2) {
                lemma_rank_strict(s, m1, m2, n);
            } else {
                assert(precedes(s, m2, m1));
                lemma_rank_strict(s, m2, m1, n);
            }
        }
    }
}

proof fn lemma_cnt_exact(s: Seq<u64>, d: int)
    requires
        0 <= d <= s.len(),
    ensures
        cnt_rank_in(s, 0, d, s.len() as int) == d,
{
    let n = s.len() as int;
    lemma_cnt_full(s, n);
    lemma_cnt_split(s, 0, d, n, n);
    lemma_cnt_upper(s, 0, d);
    lemma_cnt_upper(s, d, n);
}

proof fn lemma_normalize_sum_take(s: Seq<u64>, k: int)
    requires
        1 <= s.len() <= ABILITY_ONE,
        clamped_total(s) > 0,
        0 <= k <= s.len(),
    ensures
        sum64(spec_normalize(s).take(k)) == k + spec_share_sum(s, k) + cnt_rank_in(
            s,
            0,
            spec_deficit(s),
            k,
        ),
    decreases k,
{
    if k == 0 {
        assert(spec_normalize(s).take(0) =~= Seq::<u64>::empty());
    } else {
        lemma_normalize_sum_take(s, k - 1);
        lemma_share_bounds(s, k - 1);
        lemma_rank_range(s, k - 1, s.len() as int);
        assert(spec_normalize(s).take(k).drop_last() =~= spec_normalize(s).take(k - 1));
        assert(spec_normalize(s).take(k).last() == spec_normalize(s)[k - 1]);
    }
}

/// After normalizing a non-empty vector the entries sum to exactly
/// `ABILITY_ONE` and every entry lies between the one-millionth floor and
/// `ABILITY_ONE`.
pub proof fn lemma_normalize_props(s: Seq<u64>)
    requires
        1 <= s.len() <= ABILITY_ONE,
    ensures
        spec_normalize(s).len() == s.len(),
        sum64(spec_normalize(s)) == ABILITY_ONE,
        forall|i: int|
            0 <= i < s.len() ==> MIN_ABILITY <= #[trigger] spec_normalize(s)[i] <= ABILITY_ONE,
{
    let n = s.len() as int;
    assert forall|i: int| 0 <= i < clamped(s).len() implies #[trigger] clamped(s)[i] >= 1 by {}
    lemma_sum64_lower(clamped(s));
    let t = clamped_total(s);
    let d = spec_deficit(s);
    lemma_deficit_range(s);
    lemma_normalize_sum_take(s, n);
    assert(spec_normalize(s).take(n) =~= spec_normalize(s));
    lemma_cnt_exact(s, d);
    assert forall|i: int| 0 <= i < n implies MIN_ABILITY <= #[trigger] spec_normalize(s)[i]
        <= ABILITY_ONE by {
        lemma_share_bounds(s, i);
        lemma_rank_range(s, i, n);
        let sh = spec_share(spec_clamp_ability(s[i]), t, n);
        if spec_rank(s, i) < d {
            // a deficit unit went to this entry, so its share fell short of
            // the pool by at least the deficit
            lemma_share_le_sum(s, i);
        }
    }
}

/// A strictly stronger entry never normalizes below a weaker one, and
/// entries of equal strength differ by at most one millionth (the rounding
/// unit an exact total forces).
pub proof fn lemma_normalize_order(s: Seq<u64>, i: int, j: int)
    requires
        0 <= i < s.len(),
        0 <= j < s.len(),
        s.len() <= ABILITY_ONE,
    ensures
        spec_clamp_ability(s[i]) > spec_clamp_ability(s[j]) ==> spec_normalize(s)[i]
            >= spec_normalize(s)[j],
        spec_clamp_ability(s[i]) == spec_clamp_ability(s[j]) ==> spec_normalize(s)[i]
            + 1 >= spec_normalize(s)[j],
        spec_clamp_ability(s[i]) == spec_clamp_ability(s[j]) && i < j ==> spec_normalize(
            s,
        )[i] >= spec_normalize(s)[j],
{
    let n = s.len() as int;
    let t = clamped_total(s);
    assert forall|k: int| 0 <= k < clamped(s).len() implies #[trigger] clamped(s)[k] >= 1 by {}
    lemma_sum64_lower(clamped(s));
    let ci = spec_clamp_ability(s[i]) as int;
    let cj = spec_clamp_ability(s[j]) as int;
    lemma_share_bounds(s, i);
    lemma_share_bounds(s, j);
    if ci > cj {
        lemma_mul_inequality(cj, ci, spec_pool(n));
        lemma_div_is_ordered(cj * spec_pool(n), ci * spec_pool(n), t);
        assert(precedes(s, j, i));
        lemma_rank_strict(s, j, i, n);
    }
    if ci == cj && i < j {
        assert(precedes(s, j, i));
        lemma_rank_strict(s, j, i, n);
    }
}

/// Resizing to `n` entries: grow with the uniform share `1/n`, or truncate.
pub open spec fn spec_resize(s: Seq<u64>, n: int) -> Seq<u64> {
    if s.len() < n {
        s + Seq::new((n - s.len()) as nat, |i: int| ((ABILITY_ONE as int) / n) as u64)
    } else {
        s.take(n)
    }
}

/// What `ensure_len` leaves behind: the resized vector, renormalized unless
/// it is empty.
pub open spec fn spec_ensure_len(s: Seq<u64>, n: int) -> Seq<u64> {
    spec_normalize(spec_resize(s, n))
}

/// An ability vector whose entries all fit under the ceiling.
pub open spec fn ability_vec_wf(s: Seq<u64>) -> bool {
    forall|i: int| 0 <= i < s.len() ==> #[trigger] s[i] <= ABILITY_CEILING
}

/// The expected-outcome formula: the probability (in millionths) that item
/// `i` beats item `j`, from the two clamped abilities; one half for an empty
/// model.
pub open spec fn spec_expected_score(s: Seq<u64>, i: int, j: int) -> u64 {
    if s.len() == 0 {
        (ABILITY_ONE / 2) as u64
    } else {
        let ai = spec_clamp_ability(s[i]) as int;
        let aj = spec_clamp_ability(s[j]) as int;
        let q = ai * (ABILITY_ONE as int) / (ai + aj);
        if q < MIN_ABILITY {
            MIN_ABILITY
        } else {
            q as u64
        }
    }
}

/// Natural logarithm of `x` millionths, in milli-nats: the millibit
/// logarithm shifted to the 1.0 anchor and rescaled by ln 2.
pub open spec fn spec_ln_milli(x: int) -> int {
    let d = spec_lg2_milli(x);
    if d >= LG2_MILLI_OF_ONE {
        (d - LG2_MILLI_OF_ONE) * 693_147 / 1_000_000
    } else {
        -((LG2_MILLI_OF_ONE - d) * 693_147 / 1_000_000)
    }
}

/// The millibit logarithm of `ABILITY_ONE` (one million).
pub const LG2_MILLI_OF_ONE: u64 = 19_907;

/// The log-strength of item `index` in milli-nats; a missing index reads as
/// an ability of 1.0 and a zero ability is floored to the minimum.
pub open spec fn spec_log_score(s: Seq<u64>, index: int) -> int {
    let a = if 0 <= index < s.len() {
        s[index]
    } else {
        ABILITY_ONE
    };
    let x = if a < MIN_ABILITY {
        MIN_ABILITY as int
    } else {
        a as int
    };
    spec_ln_milli(x)
}

/// The display rating in milli-points: a 1000-point baseline plus one
/// hundred times the natural log of the count-adjusted ability, floored at
/// zero.
pub open spec fn spec_display_rating(s: Seq<u64>, index: int) -> u64 {
    let a0 = if 0 <= index < s.len() {
        s[index]
    } else {
        ABILITY_ONE
    };
    let a = if a0 < MIN_ABILITY {
        MIN_ABILITY as int
    } else {
        a0 as int
    };
    let count = if s.len() == 0 {
        1
    } else {
        s.len() as int
    };
    let raw = 1_000_000 + 100 * spec_ln_milli(a * count);
    if raw < 0 {
        0u64
    } else {
        raw as u64
    }
}

/// A square win matrix: every row as long as the matrix is high.
pub open spec fn spec_square(w: Seq<Seq<u32>>) -> bool {
    forall|i: int| 0 <= i < w.len() ==> #[trigger] w[i].len() == w.len()
}

/// Total wins recorded for item `i`: the sum of its matrix row.
pub open spec fn spec_row_wins(w: Seq<Seq<u32>>, i: int) -> int {
    sum32(w[i])
}

/// Comparisons recorded between `i` and `j`, in either direction.
pub open spec fn spec_pair_total(w: Seq<Seq<u32>>, i: int, j: int) -> int {
    w[i][j] + w[j][i]
}

/// One opponent's contribution to item `i`'s fitting denominator, held at
/// `FIT_SCALE`: comparisons against `j` divided by the floored ability sum.
pub open spec fn spec_denom_term(a: Seq<u64>, w: Seq<Seq<u32>>, i: int, j: int) -> int {
    if j == i || spec_pair_total(w, i, j) == 0 {
        0
    } else {
        spec_pair_total(w, i, j) * (FIT_SCALE as int) / (a[i] + a[j] + MIN_ABILITY)
    }
}

/// The fitting denominator for item `i`, summed over opponents below `jn`.
pub open spec fn spec_denom_upto(a: Seq<u64>, w: Seq<Seq<u32>>, i: int, jn: int) -> int
    decreases jn,
{
    if jn <= 0 {
        0
    } else {
        spec_denom_upto(a, w, i, jn - 1) + spec_denom_term(a, w, i, jn - 1)
    }
}

/// The full fitting denominator for item `i`.
pub open spec fn spec_denom(a: Seq<u64>, w: Seq<Seq<u32>>, i: int) -> int {
    spec_denom_upto(a, w, i, w.len() as int)
}

/// Clamp an unbounded fitting quotient into the representable ability band.
pub open spec fn cap_ability_int(x: int) -> u64 {
    if x > ABILITY_CEILING {
        ABILITY_CEILING
    } else if x < MIN_ABILITY {
        MIN_ABILITY
    } else {
        x as u64
    }
}

/// The proportional update of one ability in a fitting pass: items without a
/// recorded win, or with an empty denominator, keep their ability.
pub open spec fn spec_update_one(a: Seq<u64>, w: Seq<Seq<u32>>, i: int) -> u64 {
    if spec_row_wins(w, i) == 0 {
        a[i]
    } else {
        let d = spec_denom(a, w, i);
        if d > 0 {
            cap_ability_int(spec_row_wins(w, i) * (FIT_SCALE as int) / d)
        } else {
            a[i]
        }
    }
}

/// One full fitting pass: update every ability from the previous vector,
/// then renormalize.
pub open spec fn spec_fit_pass(a: Seq<u64>, w: Seq<Seq<u32>>) -> Seq<u64> {
    spec_normalize(Seq::new(a.len(), |i: int| spec_update_one(a, w, i)))
}

/// `k` fitting passes in sequence.
pub open spec fn spec_fit_iters(a: Seq<u64>, w: Seq<Seq<u32>>, k: nat) -> Seq<u64>
    decreases k,
{
    if k == 0 {
        a
    } else {
        spec_fit_pass(spec_fit_iters(a, w, (k - 1) as nat), w)
    }
}

/// What `run_iterations` leaves behind: a no-op for an empty matrix or a
/// zero iteration budget, otherwise the fitted vector after resizing to the
/// matrix dimension.
pub open spec fn spec_run_iterations(s: Seq<u64>, w: Seq<Seq<u32>>, iters: nat) -> Seq<u64> {
    if w.len() == 0 || iters == 0 {
        s
    } else {
        spec_fit_iters(spec_ensure_len(s, w.len() as int), w, iters)
    }
}

proof fn lemma_div_reconstruct(w: int, d: int)
    requires
        1 <= d <= w,
    ensures
        w / (w / d) >= d,
        w / d >= 1,
{
    let q = w / d;
    lemma_div_is_ordered(d, w, d);
    lemma_div_by_multiple(1, d);
    assert(1 * d == d) by (nonlinear_arith);
    lemma_remainder_lower(w, d);
    lemma_div_is_ordered(q * d, w, q);
    lemma_div_by_multiple(d, q);
    assert(q * d == d * q) by (nonlinear_arith);
}

proof fn lemma_div_superadd(x: int, y: int, t: int)
    requires
        x >= 0,
        y >= 0,
        t >= 1,
    ensures
        (x + y) / t >= x / t + y / t,
{
    lemma_remainder_lower(x, t);
    lemma_remainder_lower(y, t);
    lemma_div_pos_is_pos(x, t);
    lemma_div_pos_is_pos(y, t);
    assert((x / t + y / t) * t == (x / t) * t + (y / t) * t) by (nonlinear_arith);
    lemma_div_is_ordered((x / t + y / t) * t, x + y, t);
    lemma_div_by_multiple(x / t + y / t, t);
}

proof fn lemma_sum32_three(r: Seq<u32>)
    requires
        r.len() == 3,
    ensures
        sum32(r) == r[0] + r[1] + r[2],
{
    assert(sum32(r.drop_last().drop_last().drop_last()) == 0);
    assert(sum32(r.drop_last().drop_last()) == r[0]);
    assert(sum32(r.drop_last()) == r[0] + r[1]);
}

proof fn lemma_sum64_three(r: Seq<u64>)
    requires
        r.len() == 3,
    ensures
        sum64(r) == r[0] + r[1] + r[2],
{
    assert(sum64(r.drop_last().drop_last().drop_last()) == 0);
    assert(sum64(r.drop_last().drop_last()) == r[0]);
    assert(sum64(r.drop_last()) == r[0] + r[1]);
}

/// The matrix shape of the monotonic-reward setting: three items, with wins
/// recorded only for the first item over the second.
pub open spec fn spec_single_edge_wins(w: Seq<Seq<u32>>) -> bool {
    &&& w.len() == 3
    &&& w[0].len() == 3 && w[1].len() == 3 && w[2].len() == 3
    &&& w[0][0] == 0 && w[0][1] >= 1 && w[0][2] == 0
    &&& w[1][0] == 0 && w[1][1] == 0 && w[1][2] == 0
    &&& w[2][0] == 0 && w[2][1] == 0 && w[2][2] == 0
}

/// A three-item ability vector as the fitting passes of the
/// monotonic-reward setting keep it: normalized, floored, and ordered.
spec fn reward_ordered(a: Seq<u64>) -> bool {
    &&& a.len() == 3
    &&& sum64(a) == ABILITY_ONE
    &&& a[0] >= a[1] >= a[2]
    &&& forall|i: int| 0 <= i < 3 ==> MIN_ABILITY <= #[trigger] a[i] <= ABILITY_ONE
}

#[verifier::rlimit(60)]
proof fn lemma_reward_pass(a: Seq<u64>, w: Seq<Seq<u32>>)
    requires
        spec_single_edge_wins(w),
        reward_ordered(a),
    ensures
        reward_ordered(spec_fit_pass(a, w)),
        spec_fit_pass(a, w)[0] > spec_fit_pass(a, w)[1],
{
    let k = w[0][1] as int;
    let a0 = a[0] as int;
    let a1 = a[1] as int;
    let a2 = a[2] as int;
    lemma_sum64_three(a);
    assert(3 * a0 >= a0 + a1 + a2);
    assert(a0 >= 333_334);
    let u = Seq::new(a.len(), |i: int| spec_update_one(a, w, i));
    // items without a recorded win keep their ability in the pass
    lemma_sum32_three(w[1]);
    lemma_sum32_three(w[2]);
    assert(u[1] == a[1]);
    assert(u[2] == a[2]);
    // the winner's denominator holds only the single recorded pairing
    lemma_sum32_three(w[0]);
    assert(spec_row_wins(w, 0) == k);
    let dd = a0 + a1 + (MIN_ABILITY as int);
    assert(spec_denom_term(a, w, 0, 0) == 0);
    assert(spec_pair_total(w, 0, 1) == k);
    assert(spec_denom_term(a, w, 0, 1) == k * (FIT_SCALE as int) / dd);
    assert(spec_pair_total(w, 0, 2) == 0);
    assert(spec_denom_term(a, w, 0, 2) == 0);
    assert(spec_denom_upto(a, w, 0, 0) == 0);
    assert(spec_denom_upto(a, w, 0, 1) == 0);
    assert(spec_denom_upto(a, w, 0, 2) == k * (FIT_SCALE as int) / dd);
    assert(spec_denom(a, w, 0) == k * (FIT_SCALE as int) / dd);
    let kf = k * (FIT_SCALE as int);
    assert((FIT_SCALE as int) == 1_000_000_000_000);
    assert(kf >= 1_000_000_000_000) by (nonlinear_arith)
        requires
            k >= 1,
            kf == k * 1_000_000_000_000,
    ;
    assert(dd <= 2_000_001);
    lemma_div_reconstruct(kf, dd);
    let q = kf / dd;
    assert(u[0] == cap_ability_int(kf / q));
    let u0 = u[0] as int;
    assert(u0 >= dd);
    assert(u0 <= ABILITY_CEILING);
    // normalize the pass result
    assert(u.len() == 3);
    lemma_normalize_props(u);
    assert(spec_fit_pass(a, w) == spec_normalize(u));
    // clamping leaves the in-band values alone
    assert(spec_clamp_ability(u[0]) == u[0]);
    assert(spec_clamp_ability(u[1]) == u[1]);
    assert(spec_clamp_ability(u[2]) == u[2]);
    lemma_normalize_order(u, 1, 2);
    assert(spec_normalize(u)[1] >= spec_normalize(u)[2]);
    // the winner's share strictly exceeds the runner-up's
    let t = clamped_total(u);
    lemma_sum64_three(clamped(u));
    assert(clamped(u)[0] == u[0] && clamped(u)[1] == u[1] && clamped(u)[2] == u[2]);
    assert(t == u0 + a1 + a2);
    let p = spec_pool(3);
    assert(p == 999_997);
    assert((u0 - a1) * p >= t) by (nonlinear_arith)
        requires
            u0 >= a0 + a1 + 1,
            a0 >= 333_334,
            1 <= a1 <= 1_000_000,
            1 <= a2 <= 1_000_000,
            u0 <= 1_000_000_000_000,
            t == u0 + a1 + a2,
            p == 999_997,
    ;
    lemma_div_is_ordered(t, (u0 - a1) * p, t);
    lemma_div_by_multiple(1, t);
    assert(1 * t == t) by (nonlinear_arith);
    assert((u0 - a1) * p / t >= 1);
    assert(a1 * p >= 0) by (nonlinear_arith)
        requires
            a1 >= 0,
            p >= 0,
    ;
    assert((u0 - a1) * p >= 0) by (nonlinear_arith)
        requires
            u0 >= a1,
            p >= 0,
    ;
    lemma_div_superadd(a1 * p, (u0 - a1) * p, t);
    assert(a1 * p + (u0 - a1) * p == u0 * p) by (nonlinear_arith);
    assert(spec_share(u[0], t, 3) >= spec_share(u[1], t, 3) + 1);
    // the winner also ranks first for the rounding hand-out
    assert(precedes(u, 1, 0));
    lemma_rank_strict(u, 1, 0, 3);
    assert(spec_rank(u, 0) < spec_rank(u, 1));
    lemma_share_bounds(u, 0);
    lemma_share_bounds(u, 1);
    assert(spec_normalize(u)[0] > spec_normalize(u)[1]);
}

proof fn lemma_reward_iters(a: Seq<u64>, w: Seq<Seq<u32>>, m: nat)
    requires
        spec_single_edge_wins(w),
        reward_ordered(a),
        m >= 1,
    ensures
        reward_ordered(spec_fit_iters(a, w, m)),
        spec_fit_iters(a, w, m)[0] > spec_fit_iters(a, w, m)[1],
    decreases m,
{
    if m == 1 {
        assert(spec_fit_iters(a, w, 0) == a);
        lemma_reward_pass(a, w);
    } else {
        lemma_reward_iters(a, w, (m - 1) as nat);
        lemma_reward_pass(spec_fit_iters(a, w, (m - 1) as nat), w);
    }
}

/// Monotonic reward: fitting a uniformly initialized three-item model, for
/// any number of passes, against a matrix that records only wins of the
/// first item over the second leaves the first item strictly strongest.
pub proof fn lemma_monotonic_reward(wins: Seq<Seq<u32>>, iters: nat)
    requires
        spec_single_edge_wins(wins),
        iters >= 1,
    ensures
        ({
            let fitted = spec_run_iterations(
                Seq::new(3, |i: int| ABILITY_ONE),
                wins,
                iters,
            );
            fitted[0] > fitted[1] && fitted[0] > fitted[2]
        }),
{
    let start = Seq::new(3, |i: int| ABILITY_ONE);
    let base = spec_ensure_len(start, 3);
    assert(spec_resize(start, 3) =~= start);
    lemma_normalize_props(start);
    assert(spec_clamp_ability(start[0]) == spec_clamp_ability(start[1]));
    assert(spec_clamp_ability(start[1]) == spec_clamp_ability(start[2]));
    lemma_normalize_order(start, 0, 1);
    lemma_normalize_order(start, 1, 2);
    assert(reward_ordered(base));
    lemma_reward_iters(base, wins, iters);
}

/// Renormalize the vector in place.
fn normalize(values: &mut Vec<u64>)
    requires
        old(values)@.len() <= ABILITY_ONE,
    ensures
        final(values)@ == spec_normalize(old(values)@),
{
    let ghost orig = values@;
    let n = values.len();
    if n == 0 {
        return;
    }
    let mut total: u128 = 0;
    for i in 0..n
        invariant
            n == orig.len(),
            values@ == orig,
            total == prefix_clamped(orig, i as int),
            total <= (i as int) * (ABILITY_CEILING as int),
    {
        let c = clamp_ability(values[i]);
        proof {
            lemma_prefix_clamped_step(orig, i as int);
            assert((i as int) * (ABILITY_CEILING as int) + (ABILITY_CEILING as int) == (i + 1)
                * (ABILITY_CEILING as int)) by (nonlinear_arith);
            assert((i + 1) * (ABILITY_CEILING as int) <= 0x1_0000_0000_0000_0000
                * (ABILITY_CEILING as int)) by (nonlinear_arith)
                requires
                    i + 1 <= 0x1_0000_0000_0000_0000,
            ;
        }
        total = total + c as u128;
    }
    proof {
        assert(clamped(orig).take(n as int) =~= clamped(orig));
    }
    if total == 0 {
        let fill = ABILITY_ONE / (n as u64);
        for i in 0..n
            invariant
                n == orig.len(),
                values@.len() == n,
                fill == ((ABILITY_ONE as int) / (n as int)) as u64,
            decreases n - i,
        {
            values.set(i, fill);
        }
        proof {
            // clamped entries are at least one, so a zero total is impossible
            assert forall|i: int| 0 <= i < clamped(orig).len() implies #[trigger] clamped(
                orig,
            )[i] >= 1 by {}
            lemma_sum64_lower(clamped(orig));
            assert(false);
        }
    } else {
        let ghost gtotal = clamped_total(orig);
        let pool = ABILITY_ONE - n as u64;
        let mut shares: Vec<u64> = Vec::new();
        let mut ssum: u64 = 0;
        for i in 0..n
            invariant
                n == orig.len(),
                n <= ABILITY_ONE,
                values@ == orig,
                gtotal == clamped_total(orig),
                total == gtotal,
                gtotal > 0,
                pool == spec_pool(n as int),
                shares@.len() == i,
                forall|k: int|
                    0 <= k < i ==> #[trigger] shares@[k] as int == spec_share(
                        spec_clamp_ability(orig[k]),
                        clamped_total(orig),
                        n as int,
                    ),
                ssum as int == spec_share_sum(orig, i as int),
                ssum <= (i as int) * (ABILITY_ONE as int),
    {
            let c = clamp_ability(values[i]);
            proof {
                lemma_share_bounds(orig, i as int);
                assert((c as int) * (pool as int) <= (ABILITY_CEILING as int) * (
                ABILITY_ONE as int)) by (nonlinear_arith)
                    requires
                        c <= ABILITY_CEILING,
                        pool <= ABILITY_ONE,
                ;
                assert((i as int) * (ABILITY_ONE as int) + (ABILITY_ONE as int) == (i + 1) * (
                ABILITY_ONE as int)) by (nonlinear_arith);
                assert((i + 1) * (ABILITY_ONE as int) <= 1_000_000 * 1_000_000)
                    by (nonlinear_arith)
                    requires
                        i + 1 <= 1_000_000,
                ;
            }
            let sh = ((c as u128) * (pool as u128) / total) as u64;
            shares.push(sh);
            ssum = ssum + sh;
        }
        proof {
            lemma_deficit_range(orig);
        }
        let d = pool - ssum;
        let mut out: Vec<u64> = Vec::new();
        for i in 0..n
            invariant
                n == orig.len(),
                n <= ABILITY_ONE,
                values@ == orig,
                gtotal == clamped_total(orig),
                gtotal > 0,
                pool == spec_pool(n as int),
                shares@.len() == n,
                forall|k: int|
                    0 <= k < n ==> #[trigger] shares@[k] as int == spec_share(
                        spec_clamp_ability(orig[k]),
                        clamped_total(orig),
                        n as int,
                    ),
                d as int == spec_deficit(orig),
                out@.len() == i,
                forall|k: int| 0 <= k < i ==> #[trigger] out@[k] == spec_normalize(orig)[k],
        {
            let ci = clamp_ability(values[i]);
            let mut rk: u64 = 0;
            for j in 0..n
                invariant
                    n == orig.len(),
                    0 <= i < n,
                    values@ == orig,
                    ci == spec_clamp_ability(orig[i as int]),
                    rk as int == rank_upto(orig, i as int, j as int),
                    rk <= j,
            {
                let cj = clamp_ability(values[j]);
                if cj > ci || (cj == ci && j < i) {
                    rk = rk + 1;
                }
            }
            let bonus: u64 = if rk < d {
                1
            } else {
                0
            };
            proof {
                lemma_share_bounds(orig, i as int);
            }
            let v = 1 + shares[i] + bonus;
            out.push(v);
            proof {
                assert(out@[i as int] == spec_normalize(orig)[i as int]);
            }
        }
        *values = out;
        proof {
            assert(values@ =~= spec_normalize(orig));
        }
    }
}

/// The strength model: one fixed-point ability per item.
#[derive(Debug, Clone)]
pub struct BradleyTerry {
    abilities: Vec<u64>,
}

impl View for BradleyTerry {
    type V = Seq<u64>;

    closed spec fn view(&self) -> Seq<u64> {
        self.abilities@
    }
}

impl BradleyTerry {
    /// All abilities fit under the arithmetic ceiling.
    pub open spec fn wf(&self) -> bool {
        ability_vec_wf(self@)
    }

    /// A model of `count` items with a uniform prior: every ability is 1.0.
    pub fn new(count: usize) -> (r: Self)
        ensures
            r@ =~= Seq::new(count as nat, |i: int| ABILITY_ONE),
            r.wf(),
    {
        let r = BradleyTerry { abilities: vec![ABILITY_ONE; count] };
        proof {
            assert(r@ =~= Seq::new(count as nat, |i: int| ABILITY_ONE));
        }
        r
    }

    /// Adopt a given ability vector, clamping every entry into the
    /// representable band; an empty input yields a zero-item model.
    pub fn from_abilities(abilities: Vec<u64>) -> (r: Self)
        ensures
            r@ == clamped(abilities@),
            r.wf(),
    {
        let mut out: Vec<u64> = Vec::new();
        let n = abilities.len();
        for i in 0..n
            invariant
                n == abilities@.len(),
                out@.len() == i,
                forall|j: int|
                    0 <= j < i ==> out@[j] == #[trigger] spec_clamp_ability(abilities@[j]),
        {
            out.push(clamp_ability(abilities[i]));
        }
        let r = BradleyTerry { abilities: out };
        proof {
            assert(r@ =~= clamped(abilities@));
        }
        r
    }

    /// The raw ability values, in item order.
    pub fn abilities(&self) -> (r: &[u64])
        ensures
            r@ == self@,
    {
        self.abilities.as_slice()
    }

    /// A copy of the ability vector.
    pub fn to_vec(&self) -> (r: Vec<u64>)
        ensures
            r@ == self@,
    {
        let mut out: Vec<u64> = Vec::new();
        let n = self.abilities.len();
        for i in 0..n
            invariant
                n == self@.len(),
                out@ == self@.take(i as int),
        {
            out.push(self.abilities[i]);
            proof {
                assert(out@ =~= self@.take(i + 1));
            }
        }
        proof {
            assert(self@.take(n as int) =~= self@);
        }
        out
    }

    /// Grow (with the uniform share `1/len`) or truncate the ability vector
    /// to exactly `len` entries, then renormalize if any remain.
    pub fn ensure_len(&mut self, len: usize)
        requires
            len <= ABILITY_ONE,
        ensures
            final(self)@ == spec_ensure_len(old(self)@, len as int),
            final(self)@.len() == len,
            len > 0 ==> sum64(final(self)@) == ABILITY_ONE,
            forall|i: int|
                0 <= i < len ==> MIN_ABILITY <= #[trigger] final(self)@[i] <= ABILITY_ONE,
            final(self).wf(),
    {
        let ghost orig = self@;
        let cur = self.abilities.len();
        if cur < len {
            let fill = if len > 0 {
                ABILITY_ONE / (len as u64)
            } else {
                ABILITY_ONE
            };
            while self.abilities.len() < len
                invariant
                    orig.len() <= self.abilities@.len() <= len,
                    orig.len() < len,
                    fill == ((ABILITY_ONE as int) / (len as int)) as u64,
                    self.abilities@.subrange(0, orig.len() as int) == orig,
                    forall|j: int|
                        orig.len() <= j < self.abilities@.len()
                            ==> #[trigger] self.abilities@[j] == fill,
                decreases len - self.abilities@.len(),
            {
                self.abilities.push(fill);
                proof {
                    assert(self.abilities@.subrange(0, orig.len() as int) =~= orig);
                }
            }
            proof {
                assert(self.abilities@ =~= spec_resize(orig, len as int));
            }
        } else if cur > len {
            self.abilities.truncate(len);
            proof {
                assert(self.abilities@ =~= spec_resize(orig, len as int));
            }
        } else {
            proof {
                assert(self.abilities@ =~= spec_resize(orig, len as int));
            }
        }
        if self.abilities.len() > 0 {
            normalize(&mut self.abilities);
            proof {
                lemma_normalize_props(spec_resize(orig, len as int));
            }
        }
    }

    /// The model's predicted probability, in millionths, that item `i` beats
    /// item `j`; one half when the model holds no items. The result stays
    /// strictly between zero and one: at least the one-millionth floor and
    /// below `ABILITY_ONE`.
    pub fn expected_score(&self, i: usize, j: usize) -> (r: u64)
        requires
            self@.len() > 0 ==> i < self@.len() && j < self@.len(),
        ensures
            r == spec_expected_score(self@, i as int, j as int),
            MIN_ABILITY <= r < ABILITY_ONE,
    {
        if self.abilities.is_empty() {
            return ABILITY_ONE / 2;
        }
        let ai = clamp_ability(self.abilities[i]);
        let aj = clamp_ability(self.abilities[j]);
        assert((ai as int) * (ABILITY_ONE as int) <= (ABILITY_CEILING as int) * (
        ABILITY_ONE as int)) by (nonlinear_arith)
            requires
                ai <= ABILITY_CEILING,
        ;
        let q = ai * ABILITY_ONE / (ai + aj);
        proof {
            lemma_mul_strict_inequality(ai as int, ai as int + aj as int, ABILITY_ONE as int);
            lemma_multiply_divide_lt(
                (ai as int) * (ABILITY_ONE as int),
                ai as int + aj as int,
                ABILITY_ONE as int,
            );
        }
        if q < MIN_ABILITY {
            MIN_ABILITY
        } else {
            q
        }
    }

    /// The log-strength of item `index` in milli-nats, for sorting and
    /// ranking display.
    pub fn log_score(&self, index: usize) -> (r: i64)
        ensures
            r as int == spec_log_score(self@, index as int),
    {
        let a = if index < self.abilities.len() {
            self.abilities[index]
        } else {
            ABILITY_ONE
        };
        let x = if a < MIN_ABILITY {
            MIN_ABILITY
        } else {
            a
        };
        let d = lg2_milli(x as u128);
        if d >= LG2_MILLI_OF_ONE {
            (((d - LG2_MILLI_OF_ONE) * 693_147) / 1_000_000) as i64
        } else {
            -((((LG2_MILLI_OF_ONE - d) * 693_147) / 1_000_000) as i64)
        }
    }

    /// A human-presentable rating in milli-points: 1000 points baseline,
    /// one hundred points per unit of log-strength, adjusted by the item
    /// count and floored at zero.
    pub fn display_rating(&self, index: usize) -> (r: u64)
        requires
            self.wf(),
        ensures
            r == spec_display_rating(self@, index as int),
    {
        let a0 = if index < self.abilities.len() {
            self.abilities[index]
        } else {
            ABILITY_ONE
        };
        let a = if a0 < MIN_ABILITY {
            MIN_ABILITY
        } else {
            a0
        };
        let count: u128 = if self.abilities.len() == 0 {
            1
        } else {
            self.abilities.len() as u128
        };
        proof {
            assert((a as int) * (count as int) <= (ABILITY_CEILING as int)
                * 0x1_0000_0000_0000_0000) by (nonlinear_arith)
                requires
                    a <= ABILITY_CEILING,
                    count <= 0x1_0000_0000_0000_0000u128,
            ;
            assert((a as int) * (count as int) >= 1 * 1) by (nonlinear_arith)
                requires
                    a >= 1,
                    count >= 1,
            ;
        }
        let x = (a as u128) * count;
        let d = lg2_milli(x);
        if d >= LG2_MILLI_OF_ONE {
            1_000_000 + 100 * (((d - LG2_MILLI_OF_ONE) * 693_147) / 1_000_000)
        } else {
            let drop = 100 * (((LG2_MILLI_OF_ONE - d) * 693_147) / 1_000_000);
            if drop > 1_000_000 {
                0
            } else {
                1_000_000 - drop
            }
        }
    }

    /// Run `iterations` proportional-fitting passes against the win matrix,
    /// resizing the model to the matrix dimension first. A no-op when the
    /// matrix is empty or no iterations were requested; otherwise the
    /// resulting abilities sum to exactly `ABILITY_ONE`.
    pub fn run_iterations(&mut self, wins: &Vec<Vec<u32>>, iterations: usize)
        requires
            spec_square(wins.deep_view()),
            wins@.len() <= MAX_ITEMS,
        ensures
            final(self)@ == spec_run_iterations(
                old(self)@,
                wins.deep_view(),
                iterations as nat,
            ),
            wins@.len() > 0 && iterations > 0 ==> sum64(final(self)@) == ABILITY_ONE
                && final(self)@.len() == wins@.len(),
            wins@.len() > 0 && iterations > 0 ==> forall|k: int|
                0 <= k < final(self)@.len() ==> MIN_ABILITY <= #[trigger] final(self)@[k],
            wins@.len() > 0 && iterations > 0 ==> final(self).wf(),
            wins@.len() == 0 || iterations == 0 ==> final(self)@ == old(self)@,
    {
        let ghost w = wins.deep_view();
        proof {
            lemma_matrix_deep_view(*wins);
        }
        let n = wins.len();
        if n == 0 || iterations == 0 {
            return;
        }
        self.ensure_len(n);
        let ghost base = self@;
        for it in 0..iterations
            invariant
                n == w.len() == wins@.len(),
                0 < n <= MAX_ITEMS,
                spec_square(w),
                forall|i: int| 0 <= i < n ==> w[i] == wins@[i]@,
                base == spec_ensure_len(old(self)@, n as int),
                self@ == spec_fit_iters(base, w, it as nat),
                self@.len() == n,
                forall|k: int| 0 <= k < n ==> MIN_ABILITY <= #[trigger] self@[k] <= ABILITY_ONE,
                it > 0 ==> sum64(self@) == ABILITY_ONE,
        {
            let ghost cur = self@;
            let mut updated: Vec<u64> = Vec::new();
            for i in 0..n
                invariant
                    n == w.len() == wins@.len(),
                    0 < n <= MAX_ITEMS,
                    spec_square(w),
                    forall|ii: int| 0 <= ii < n ==> w[ii] == wins@[ii]@,
                    cur == self@,
                    self@.len() == n,
                    forall|k: int| 0 <= k < n ==> #[trigger] self@[k] <= ABILITY_ONE,
                    updated@.len() == i,
                    forall|k: int|
                        0 <= k < i ==> updated@[k] == #[trigger] spec_update_one(cur, w, k),
            {
                let row = &wins[i];
                let mut wins_i: u64 = 0;
                for j in 0..n
                    invariant
                        n == w.len() == wins@.len(),
                        0 <= i < n,
                        0 < n <= MAX_ITEMS,
                        forall|ii: int| 0 <= ii < n ==> w[ii] == wins@[ii]@,
                        spec_square(w),
                        row@ == w[i as int],
                        wins_i == sum32(w[i as int].take(j as int)),
                        wins_i <= (j as int) * 0xFFFF_FFFF,
                {
                    proof {
                        assert(w[i as int].take(j + 1).drop_last() =~= w[i as int].take(
                            j as int,
                        ));
                        assert((j as int) * 0xFFFF_FFFF + 0xFFFF_FFFF == (j + 1)
                            * 0xFFFF_FFFF) by (nonlinear_arith);
                        assert((j + 1) * 0xFFFF_FFFF <= 65536 * 0xFFFF_FFFF)
                            by (nonlinear_arith)
                            requires
                                j + 1 <= 65536,
                        ;
                    }
                    wins_i = wins_i + row[j] as u64;
                }
                proof {
                    assert(w[i as int].take(n as int) =~= w[i as int]);
                }
                if wins_i == 0 {
                    updated.push(self.abilities[i]);
                } else {
                    let mut denom: u128 = 0;
                    for j in 0..n
                        invariant
                            n == w.len() == wins@.len(),
                            0 <= i < n,
                            0 < n <= MAX_ITEMS,
                            forall|ii: int| 0 <= ii < n ==> w[ii] == wins@[ii]@,
                            spec_square(w),
                            cur == self@,
                            self@.len() == n,
                            forall|k: int| 0 <= k < n ==> #[trigger] self@[k] <= ABILITY_ONE,
                            row@ == w[i as int],
                            denom == spec_denom_upto(cur, w, i as int, j as int),
                            denom <= (j as int) * (0x2_0000_0000 * (FIT_SCALE as int)),
                    {
                        proof {
                            assert((j as int) * (0x2_0000_0000 * (FIT_SCALE as int)) + (
                            0x2_0000_0000 * (FIT_SCALE as int)) == (j + 1) * (0x2_0000_0000
                                * (FIT_SCALE as int))) by (nonlinear_arith);
                            assert((j + 1) * (0x2_0000_0000 * (FIT_SCALE as int)) <= 65536
                                * (0x2_0000_0000 * (FIT_SCALE as int))) by (nonlinear_arith)
                                requires
                                    j + 1 <= 65536,
                            ;
                        }
                        if j != i {
                            proof {
                                assert(w[j as int].len() == w.len());
                                assert(w[j as int] == wins@[j as int]@);
                            }
                            let total = row[j] as u64 + wins[j][i] as u64;
                            if total > 0 {
                                let ai = self.abilities[i];
                                let aj = self.abilities[j];
                                let term = (total as u128) * FIT_SCALE / ((ai + aj
                                    + MIN_ABILITY) as u128);
                                proof {
                                    assert((total as int) * (FIT_SCALE as int)
                                        <= 0x2_0000_0000 * (FIT_SCALE as int))
                                        by (nonlinear_arith)
                                        requires
                                            total <= 0x2_0000_0000u64,
                                    ;
                                    lemma_div_is_ordered(
                                        0,
                                        (total as int) * (FIT_SCALE as int),
                                        (ai + aj + MIN_ABILITY) as int,
                                    );
                                    lemma_div_nonincreasing(
                                        (total as int) * (FIT_SCALE as int),
                                        (ai + aj + MIN_ABILITY) as int,
                                    );
                                }
                                denom = denom + term;
                            }
                        }
                    }
                    if denom > 0 {
                        let q = (wins_i as u128) * FIT_SCALE / denom;
                        proof {
                            assert((wins_i as int) * (FIT_SCALE as int) <= (65536
                                * 0xFFFF_FFFF) * (FIT_SCALE as int)) by (nonlinear_arith)
                                requires
                                    wins_i <= 65536 * 0xFFFF_FFFFu64,
                            ;
                        }
                        let v = if q > ABILITY_CEILING as u128 {
                            ABILITY_CEILING
                        } else if q < MIN_ABILITY as u128 {
                            MIN_ABILITY
                        } else {
                            q as u64
                        };
                        updated.push(v);
                    } else {
                        updated.push(self.abilities[i]);
                    }
                }
            }
            proof {
                assert(updated@ =~= Seq::new(n as nat, |i: int| spec_update_one(cur, w, i)));
            }
            normalize(&mut updated);
            self.abilities = updated;
            proof {
                lemma_normalize_props(Seq::new(n as nat, |i: int| spec_update_one(cur, w, i)));
            }
        }
    }
}

} // verus!
