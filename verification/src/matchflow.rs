//! Adaptive matchup sampling: pick the next pair of items to compare,
//! biased toward strong, under-measured, and closely matched items, with a
//! penalty against repeating the previous matchup.
use vstd::prelude::*;

use rand::distributions::Distribution;
use rand::distributions::WeightedIndex;
use rand::Rng;

use vstd::arithmetic::div_mod::{lemma_div_by_multiple, lemma_div_is_ordered, lemma_div_pos_is_pos};
use vstd::arithmetic::mul::lemma_mul_inequality;

use crate::fixed::{
    isqrt64, lemma_matrix_deep_view, lemma_sum64_bounded, lemma_sum64_element_le,
    lemma_sum64_lower, sum64, ABILITY_CEILING, MAX_ITEMS, MIN_WEIGHT, WEIGHT_ONE,
};
use crate::ranking::ability_vec_wf;
use crate::storage::cell_or_zero;

verus! {

/// A proposed pair of items to compare next.
#[derive(Debug, Clone, PartialEq, Eq, Structural)]
pub struct Matchup {
    pub left_index: usize,
    pub right_index: usize,
}

/// Whether two matchups name the same pair, in either order.
pub open spec fn same_pair(a: Matchup, b: Matchup) -> bool {
    ||| (a.left_index == b.left_index && a.right_index == b.right_index)
    ||| (a.left_index == b.right_index && a.right_index == b.left_index)
}

/// The item count the sampler works over: abilities and matrix rows must
/// both cover an index for it to be usable.
pub open spec fn sampler_count(abilities: Seq<u64>, matrix: Seq<Seq<u32>>) -> int {
    if abilities.len() <= matrix.len() {
        abilities.len() as int
    } else {
        matrix.len() as int
    }
}

/// Relies on rand's `Rng::gen_range` over `0..n` (with `rand::thread_rng`
/// as the generator): the result is always below `n`; the call panics only
/// on an empty range, which the precondition rules out.
#[verifier::external_body]
fn random_below(n: usize) -> (r: usize)
    requires
        n > 0,
    ensures
        r < n,
{
    rand::thread_rng().gen_range(0..n)
}

/// Relies on rand's `WeightedIndex::new` and `Distribution::sample` (with
/// `rand::thread_rng` as the generator): `new` fails exactly on an empty or
/// an all-zero weight list, unsigned weights never being negative, and
/// `sample` returns the index of a positive weight. `new` adds the weights
/// up in their own type, so they must not sum past `u64::MAX`.
#[verifier::external_body]
fn weighted_pick(weights: &Vec<u64>) -> (r: Option<usize>)
    requires
        sum64(weights@) <= u64::MAX,
    ensures
        match r {
            Option::Some(i) => i < weights@.len() && weights@[i as int] > 0,
            Option::None => weights@.len() == 0 || sum64(weights@) == 0,
        },
        weights@.len() > 0 && sum64(weights@) > 0 ==> r is Some,
{
    let mut rng = rand::thread_rng();
    match WeightedIndex::new(weights.iter()) {
        Ok(dist) => Some(dist.sample(&mut rng)),
        Err(_) => None,
    }
}

/// Draw an index with probability proportional to its weight; zero weights
/// are floored to the minimum, and an empty or all-zero list yields none.
fn sample_index(weights: &Vec<u64>) -> (r: Option<usize>)
    requires
        weights@.len() <= MAX_ITEMS,
        forall|k: int| 0 <= k < weights@.len() ==> #[trigger] weights@[k] <= WEIGHT_ONE,
    ensures
        r matches Some(i) ==> i < weights@.len(),
        (weights@.len() > 0 && exists|k: int|
            0 <= k < weights@.len() && weights@[k] > 0) <==> r is Some,
{
    let n = weights.len();
    if n == 0 {
        return None;
    }
    let mut sanitized: Vec<u64> = Vec::new();
    let mut any_positive = false;
    for i in 0..n
        invariant
            n == weights@.len() <= MAX_ITEMS,
            forall|k: int| 0 <= k < n ==> #[trigger] weights@[k] <= WEIGHT_ONE,
            sanitized@.len() == i,
            forall|k: int|
                0 <= k < i ==> 1 <= #[trigger] sanitized@[k] <= WEIGHT_ONE,
            any_positive <==> exists|k: int| 0 <= k < i && weights@[k] > 0,
    {
        let w = weights[i];
        if w > 0 {
            any_positive = true;
            sanitized.push(w);
        } else {
            sanitized.push(MIN_WEIGHT);
        }
    }
    if !any_positive {
        return None;
    }
    proof {
        lemma_sum64_bounded(sanitized@, WEIGHT_ONE as int);
        lemma_sum64_lower(sanitized@);
        assert((n as int) * (WEIGHT_ONE as int) <= 65536 * 1_000_000_000) by (nonlinear_arith)
            requires
                n <= 65536,
        ;
    }
    weighted_pick(&sanitized)
}

/// The mild compressive bias applied to a normalized ability share: the
/// eighth root, held at `WEIGHT_ONE` scale.
fn eighth_root_w(x: u64) -> (r: u64)
    requires
        x <= WEIGHT_ONE,
    ensures
        r <= WEIGHT_ONE,
        x >= 1 ==> r >= 1,
{
    let s1 = isqrt_w(x);
    let s2 = isqrt_w(s1);
    isqrt_w(s2)
}

/// Comparisons recorded between `a` and `b` in either direction, read
/// defensively from a possibly ragged matrix.
pub open spec fn spec_pair_count(w: Seq<Seq<u32>>, a: int, b: int) -> int {
    cell_or_zero(w, a, b) + cell_or_zero(w, b, a)
}

fn pair_matches(win_matrix: &Vec<Vec<u32>>, a: usize, b: usize) -> (r: u64)
    requires
        a < win_matrix@.len(),
        b < win_matrix@.len(),
    ensures
        r as int == spec_pair_count(win_matrix.deep_view(), a as int, b as int),
        r <= 0x1_FFFF_FFFE,
{
    proof {
        lemma_matrix_deep_view(*win_matrix);
    }
    let x = if b < win_matrix[a].len() {
        win_matrix[a][b]
    } else {
        0
    };
    let y = if a < win_matrix[b].len() {
        win_matrix[b][a]
    } else {
        0
    };
    proof {
        assert(x == cell_or_zero(win_matrix.deep_view(), a as int, b as int));
        assert(y == cell_or_zero(win_matrix.deep_view(), b as int, a as int));
    }
    x as u64 + y as u64
}

/// Total comparisons played by item `i`: the cached value where present,
/// else the sum of its row and column, accumulated under a fixed cap.
fn total_played(win_matrix: &Vec<Vec<u32>>, match_totals: &Vec<u32>, i: usize) -> (r: u64)
    requires
        i < win_matrix@.len(),
    ensures
        r <= 0x1000_0000_0000_0000,
{
    if i < match_totals.len() {
        return match_totals[i] as u64;
    }
    let cap: u64 = 0x1000_0000_0000_0000;
    let mut t: u64 = 0;
    let row = &win_matrix[i];
    let cols = row.len();
    for j in 0..cols
        invariant
            cols == row@.len(),
            cap == 0x1000_0000_0000_0000,
            t <= 0x1000_0000_0000_0000,
    {
        let v = row[j] as u64;
        t = if t + v > cap {
            cap
        } else {
            t + v
        };
    }
    let rows = win_matrix.len();
    for j in 0..rows
        invariant
            rows == win_matrix@.len(),
            i < rows,
            cap == 0x1000_0000_0000_0000,
            t <= 0x1000_0000_0000_0000,
    {
        if j != i {
            let v = if i < win_matrix[j].len() {
                win_matrix[j][i] as u64
            } else {
                0
            };
            t = if t + v > cap {
                cap
            } else {
                t + v
            };
        }
    }
    t
}

/// Square root at `WEIGHT_ONE` scale: the root of `x / W`, times `W`.
fn isqrt_w(x: u64) -> (r: u64)
    requires
        x <= WEIGHT_ONE,
    ensures
        r <= WEIGHT_ONE,
        x >= 1 ==> r >= 1,
{
    proof {
        assert((x as int) * (WEIGHT_ONE as int) <= (WEIGHT_ONE as int) * (
        WEIGHT_ONE as int)) by (nonlinear_arith)
            requires
                x <= WEIGHT_ONE,
        ;
    }
    let r = isqrt64(x * WEIGHT_ONE);
    proof {
        if r > WEIGHT_ONE {
            assert((r as int) * (r as int) > (WEIGHT_ONE as int) * (WEIGHT_ONE as int))
                by (nonlinear_arith)
                requires
                    r > WEIGHT_ONE,
            ;
        }
        if x >= 1 && r < 1 {
            assert(false);
        }
    }
    r
}

/// The exploration weight of item `i` for the first pick: the confidence
/// complement of a Wilson-style interval over its played total, floored at
/// the minimum weight.
fn uncertainty_weight(t: u64, opponents: u64) -> (r: u64)
    requires
        t <= 0x1000_0000_0000_0000,
        opponents <= 0x1_0000,
    ensures
        MIN_WEIGHT <= r <= WEIGHT_ONE,
{
    let conf: u64 = if t >= 1 && opponents > 1 {
        let var = isqrt64(WEIGHT_ONE * WEIGHT_ONE / (4 * t));
        proof {
            if var > WEIGHT_ONE {
                assert((var as int) * (var as int) > (WEIGHT_ONE as int) * (
                WEIGHT_ONE as int)) by (nonlinear_arith)
                    requires
                        var > WEIGHT_ONE,
                ;
            }
        }
        let cn = if opponents > t {
            opponents - t
        } else {
            0
        };
        proof {
            assert((cn as int) * (WEIGHT_ONE as int) <= 0x1_0000
                * 1_000_000_000) by (nonlinear_arith)
                requires
                    cn <= 0x1_0000u64,
            ;
        }
        let inner0 = (cn as u128) * (WEIGHT_ONE as u128) / (opponents as u128 - 1);
        let inner: u64 = if inner0 > 2 * (WEIGHT_ONE as u128) {
            2 * WEIGHT_ONE
        } else {
            inner0 as u64
        };
        let cov = isqrt64(inner * WEIGHT_ONE);
        proof {
            assert((inner as int) * (WEIGHT_ONE as int) <= 2_000_000_000
                * 1_000_000_000) by (nonlinear_arith)
                requires
                    inner <= 2_000_000_000u64,
            ;
            if cov > 2 * WEIGHT_ONE {
                assert((cov as int) * (cov as int) > 2_000_000_000 * 2_000_000_000)
                    by (nonlinear_arith)
                    requires
                        cov > 2_000_000_000u64,
                ;
            }
        }
        let scaled = 196 * var / 100;
        proof {
            assert((scaled as int) * (cov as int) <= 1_960_000_000
                * 2_000_000_000) by (nonlinear_arith)
                requires
                    scaled <= 1_960_000_000u64,
                    cov <= 2_000_000_000u64,
            ;
        }
        let interval = (scaled as u128) * (cov as u128) / (WEIGHT_ONE as u128);
        let base: u64 = if interval > WEIGHT_ONE as u128 {
            0
        } else {
            WEIGHT_ONE - interval as u64
        };
        proof {
            assert((base as int) * (base as int) <= (WEIGHT_ONE as int) * (
            WEIGHT_ONE as int)) by (nonlinear_arith)
                requires
                    base <= WEIGHT_ONE,
            ;
            lemma_div_is_ordered(
                (base as int) * (base as int),
                (WEIGHT_ONE as int) * (WEIGHT_ONE as int),
                WEIGHT_ONE as int,
            );
            lemma_div_by_multiple(WEIGHT_ONE as int, WEIGHT_ONE as int);
        }
        ((base as u128) * (base as u128) / (WEIGHT_ONE as u128)) as u64
    } else {
        0
    };
    let conf_c = if conf > WEIGHT_ONE {
        WEIGHT_ONE
    } else {
        conf
    };
    let uncert = WEIGHT_ONE - conf_c;
    if uncert < MIN_WEIGHT {
        MIN_WEIGHT
    } else {
        uncert
    }
}

/// Pick the next matchup: the first item is drawn with weight combining a
/// mild bias toward ability and a confidence-based exploration bias; the
/// second is drawn among the remaining items, preferring never-compared
/// opponents, close competitors, and fresh pairs, with a penalty against
/// repeating the previous matchup. Returns a pair of distinct valid indices
/// whenever at least two items exist, and nothing otherwise; whenever some
/// opponent has never been compared against the first pick, the returned
/// pair is such a never-compared one.
pub fn random_matchup(
    abilities: &Vec<u64>,
    win_matrix: &Vec<Vec<u32>>,
    match_totals: &Vec<u32>,
    last: Option<&Matchup>,
) -> (r: Option<Matchup>)
    requires
        ability_vec_wf(abilities@),
        sampler_count(abilities@, win_matrix.deep_view()) <= MAX_ITEMS,
    ensures
        r is None <==> sampler_count(abilities@, win_matrix.deep_view()) < 2,
        r matches Some(m) ==> {
            &&& m.left_index < sampler_count(abilities@, win_matrix.deep_view())
            &&& m.right_index < sampler_count(abilities@, win_matrix.deep_view())
            &&& m.left_index != m.right_index
            &&& (exists|j: int|
                0 <= j < sampler_count(abilities@, win_matrix.deep_view()) && j
                    != m.left_index as int && #[trigger] spec_pair_count(
                    win_matrix.deep_view(),
                    m.left_index as int,
                    j,
                ) == 0) ==> spec_pair_count(
                win_matrix.deep_view(),
                m.left_index as int,
                m.right_index as int,
            ) == 0
        },
{
    let ghost w = win_matrix.deep_view();
    proof {
        lemma_matrix_deep_view(*win_matrix);
    }
    let count = if abilities.len() <= win_matrix.len() {
        abilities.len()
    } else {
        win_matrix.len()
    };
    if count < 2 {
        return None;
    }
    // Total ability, for normalizing the first-pick shares.
    let alen = abilities.len();
    let mut total_acc: u128 = 0;
    for i in 0..alen
        invariant
            alen == abilities@.len(),
            ability_vec_wf(abilities@),
            total_acc == sum64(abilities@.take(i as int)),
            total_acc <= (i as int) * (ABILITY_CEILING as int),
    {
        proof {
            assert(abilities@.take(i + 1).drop_last() =~= abilities@.take(i as int));
            assert((i as int) * (ABILITY_CEILING as int) + (ABILITY_CEILING as int) == (i + 1)
                * (ABILITY_CEILING as int)) by (nonlinear_arith);
            assert((i + 1) * (ABILITY_CEILING as int) <= 0x1_0000_0000_0000_0000 * (
            ABILITY_CEILING as int)) by (nonlinear_arith)
                requires
                    i + 1 <= 0x1_0000_0000_0000_0000,
            ;
        }
        total_acc = total_acc + abilities[i] as u128;
    }
    proof {
        assert(abilities@.take(alen as int) =~= abilities@);
    }
    let total: u128 = if total_acc == 0 {
        1
    } else {
        total_acc
    };
    // First-pick weights.
    let mut first_weights: Vec<u64> = Vec::new();
    for i in 0..count
        invariant
            w == win_matrix.deep_view(),
            2 <= count <= MAX_ITEMS,
            count <= abilities@.len(),
            count <= win_matrix@.len() == w.len(),
            ability_vec_wf(abilities@),
            total >= 1,
            total_acc == sum64(abilities@),
            total == (if sum64(abilities@) == 0 {
                1
            } else {
                sum64(abilities@)
            }),
            first_weights@.len() == i,
            forall|k: int|
                0 <= k < i ==> MIN_WEIGHT <= #[trigger] first_weights@[k] <= WEIGHT_ONE,
    {
        let a = abilities[i];
        proof {
            lemma_sum64_element_le(abilities@, i as int);
            assert((a as int) * (WEIGHT_ONE as int) <= (ABILITY_CEILING as int) * (
            WEIGHT_ONE as int)) by (nonlinear_arith)
                requires
                    a <= ABILITY_CEILING,
            ;
            if total_acc > 0 {
                lemma_mul_inequality(a as int, total as int, WEIGHT_ONE as int);
                lemma_div_is_ordered(
                    (a as int) * (WEIGHT_ONE as int),
                    (total as int) * (WEIGHT_ONE as int),
                    total as int,
                );
                lemma_div_by_multiple(WEIGHT_ONE as int, total as int);
                assert((total as int) * (WEIGHT_ONE as int) == (WEIGHT_ONE as int) * (
                total as int)) by (nonlinear_arith);
            } else {
                assert(a == 0);
            }
            lemma_div_pos_is_pos((a as int) * (WEIGHT_ONE as int), total as int);
        }
        let q = (a as u128) * (WEIGHT_ONE as u128) / total;
        let ratio = if q < 1 {
            1u64
        } else {
            q as u64
        };
        let bias = eighth_root_w(ratio);
        let t = total_played(win_matrix, match_totals, i);
        let uncert = uncertainty_weight(t, (count - 1) as u64);
        proof {
            assert((bias as int) * (uncert as int) <= (WEIGHT_ONE as int) * (
            WEIGHT_ONE as int)) by (nonlinear_arith)
                requires
                    bias <= WEIGHT_ONE,
                    uncert <= WEIGHT_ONE,
            ;
            lemma_div_is_ordered(
                (bias as int) * (uncert as int),
                (WEIGHT_ONE as int) * (WEIGHT_ONE as int),
                WEIGHT_ONE as int,
            );
            lemma_div_by_multiple(WEIGHT_ONE as int, WEIGHT_ONE as int);
        }
        let wgt0 = (bias as u128) * (uncert as u128) / (WEIGHT_ONE as u128);
        let wgt1 = if wgt0 > WEIGHT_ONE as u128 {
            WEIGHT_ONE
        } else {
            wgt0 as u64
        };
        let wgt = if wgt1 < MIN_WEIGHT {
            MIN_WEIGHT
        } else {
            wgt1
        };
        first_weights.push(wgt);
    }
    let left = match sample_index(&first_weights) {
        Some(i) => i,
        None => {
            proof {
                assert(first_weights@[0] > 0);
            }
            return None;
        },
    };
    // Opponents never compared against the pick, and all other opponents.
    let mut fresh: Vec<usize> = Vec::new();
    let mut others: Vec<usize> = Vec::new();
    for j in 0..count
        invariant
            w == win_matrix.deep_view(),
            2 <= count <= MAX_ITEMS,
            count <= abilities@.len(),
            count <= win_matrix@.len() == w.len(),
            left < count,
            fresh@.len() <= others@.len(),
            others@.len() == (if j <= left {
                j as int
            } else {
                j - 1
            }),
            forall|k: int|
                0 <= k < fresh@.len() ==> #[trigger] fresh@[k] < count && fresh@[k] != left,
            forall|k: int|
                0 <= k < fresh@.len() ==> spec_pair_count(
                    w,
                    left as int,
                    #[trigger] fresh@[k] as int,
                ) == 0,
            forall|k: int|
                0 <= k < others@.len() ==> #[trigger] others@[k] < count && others@[k]
                    != left,
            (fresh@.len() > 0) <==> exists|j2: int|
                0 <= j2 < j && j2 != left as int && #[trigger] spec_pair_count(
                    w,
                    left as int,
                    j2,
                ) == 0,
    {
        if j != left {
            let pm = pair_matches(win_matrix, left, j);
            if pm == 0 {
                fresh.push(j);
                proof {
                    assert(spec_pair_count(w, left as int, j as int) == 0);
                }
            } else {
                proof {
                    assert forall|j2: int|
                        0 <= j2 < j + 1 && j2 != left as int && #[trigger] spec_pair_count(
                            w,
                            left as int,
                            j2,
                        ) == 0 implies 0 <= j2 < j by {
                        if j2 == j {
                            assert(spec_pair_count(w, left as int, j2) != 0);
                        }
                    }
                }
            }
            others.push(j);
        }
    }
    proof {
        assert(others@.len() == count - 1);
    }
    let ghost had_fresh = fresh@.len() > 0;
    let ghost gfresh = fresh@;
    let candidates = if fresh.len() > 0 {
        fresh
    } else {
        others
    };
    proof {
        assert(candidates@.len() >= 1);
        assert(had_fresh ==> candidates@ == gfresh);
    }
    if candidates.len() == 0 {
        return None;
    }
    // Second-pick weights over the candidates.
    let cn = candidates.len();
    let al = abilities[left];
    let mut second: Vec<u64> = Vec::new();
    for k in 0..cn
        invariant
            w == win_matrix.deep_view(),
            2 <= count <= MAX_ITEMS,
            count <= abilities@.len(),
            count <= win_matrix@.len() == w.len(),
            left < count,
            al == abilities@[left as int],
            ability_vec_wf(abilities@),
            cn == candidates@.len() < count,
            forall|kk: int|
                0 <= kk < cn ==> #[trigger] candidates@[kk] < count && candidates@[kk]
                    != left,
            second@.len() == k,
            forall|kk: int|
                0 <= kk < k ==> MIN_WEIGHT <= #[trigger] second@[kk] <= WEIGHT_ONE,
    {
        let j = candidates[k];
        let aj = abilities[j];
        let gap = if al >= aj {
            al - aj
        } else {
            aj - al
        };
        let gw = gap * 1000;
        let x = 4 * gw;
        proof {
            assert((x as int) * (x as int) <= 4_000_000_000_000_000
                * 4_000_000_000_000_000) by (nonlinear_arith)
                requires
                    x <= 4_000_000_000_000_000u64,
            ;
        }
        let dn: u128 = WEIGHT_ONE as u128 + x as u128 + (x as u128) * (x as u128) / (2
            * WEIGHT_ONE as u128);
        let prox0 = (WEIGHT_ONE as u128) * (WEIGHT_ONE as u128) / dn;
        let prox = if prox0 > WEIGHT_ONE as u128 {
            WEIGHT_ONE
        } else {
            prox0 as u64
        };
        let pm = pair_matches(win_matrix, left, j);
        let fr = WEIGHT_ONE / (pm + 1);
        let ab0 = if aj < 1 {
            1
        } else {
            aj
        };
        let ab = ab0 * 1000;
        proof {
            assert((ab as int) * (prox as int) <= 1_000_000_000_000_000
                * 1_000_000_000) by (nonlinear_arith)
                requires
                    ab <= 1_000_000_000_000_000u64,
                    prox <= 1_000_000_000u64,
            ;
        }
        let t1 = (ab as u128) * (prox as u128) / (WEIGHT_ONE as u128);
        let t1c = if t1 > 1_000_000_000_000_000u128 {
            1_000_000_000_000_000u128
        } else {
            t1
        };
        proof {
            assert(t1c * (fr as u128) <= 1_000_000_000_000_000
                * 1_000_000_000) by (nonlinear_arith)
                requires
                    t1c <= 1_000_000_000_000_000u128,
                    fr <= 1_000_000_000u64,
            ;
        }
        let t2 = t1c * (fr as u128) / (WEIGHT_ONE as u128);
        let repeat = match last {
            Some(prev) => (prev.left_index == left && prev.right_index == j) || (
            prev.left_index == j && prev.right_index == left),
            None => false,
        };
        let t2c = if t2 > 1_000_000_000_000_000u128 {
            1_000_000_000_000_000u128
        } else {
            t2
        };
        let t3 = if repeat {
            t2c * 35 / 100
        } else {
            t2c
        };
        let w1 = if t3 > WEIGHT_ONE as u128 {
            WEIGHT_ONE
        } else {
            t3 as u64
        };
        let wgt = if w1 < MIN_WEIGHT {
            MIN_WEIGHT
        } else {
            w1
        };
        second.push(wgt);
    }
    let pick = match sample_index(&second) {
        Some(k) => k,
        None => random_below(candidates.len()),
    };
    let right = candidates[pick];
    proof {
        if exists|j2: int|
            0 <= j2 < count && j2 != left as int && #[trigger] spec_pair_count(
                w,
                left as int,
                j2,
            ) == 0 {
            assert(had_fresh);
            assert(candidates@ == gfresh);
            assert(spec_pair_count(w, left as int, gfresh[pick as int] as int) == 0);
        }
    }
    Some(Matchup { left_index: left, right_index: right })
}

/// The lower-complexity fallback sampler: a uniform random pairing that,
/// whenever three or more items exist, deterministically avoids repeating
/// the previous matchup in either order.
pub fn uniform_matchup(count: usize, last: Option<&Matchup>) -> (r: Option<Matchup>)
    ensures
        r is None <==> count < 2,
        r matches Some(m) ==> {
            &&& m.left_index < count
            &&& m.right_index < count
            &&& m.left_index != m.right_index
        },
        count >= 3 ==> match (r, last) {
            (Some(m), Some(prev)) => !same_pair(m, *prev),
            _ => true,
        },
{
    if count < 2 {
        return None;
    }
    let i = random_below(count);
    let j0 = random_below(count - 1);
    let j = if j0 >= i {
        j0 + 1
    } else {
        j0
    };
    if count >= 3 {
        if let Some(prev) = last {
            let is_repeat = (prev.left_index == i && prev.right_index == j) || (prev.left_index
                == j && prev.right_index == i);
            if is_repeat {
                let k0 = random_below(count - 2);
                let lo = if i < j {
                    i
                } else {
                    j
                };
                let hi = if i < j {
                    j
                } else {
                    i
                };
                let k1 = if k0 >= lo {
                    k0 + 1
                } else {
                    k0
                };
                let k = if k1 >= hi {
                    k1 + 1
                } else {
                    k1
                };
                return Some(Matchup { left_index: i, right_index: k });
            }
        }
    }
    Some(Matchup { left_index: i, right_index: j })
}

} // verus!
