//! The matching engine: a project's ideal match, the shared scaling factor
//! that fits all matches into the pool, and each project's scaled match.

use crate::error::QfError;
use crate::isqrt::{floor_sqrt, sqrt_u128};
use crate::ledger::{
    aggregate_by_contributor, amount_sum, for_project, group_roots, lemma_aggregation_roots,
    lemma_sum_sqrt_le, sum_sqrt, Contribution,
};
use vstd::arithmetic::div_mod::lemma_fundamental_div_mod_converse;
use vstd::prelude::*;

verus! {

/// The fixed-point denominator of the scaling factor: `ALPHA_ONE` stands for 1.0.
pub const ALPHA_ONE: u32 = 10000;

/// The unconstrained quadratic-funding match of a project's contributions:
/// the square of the sum of the floor roots of each contributor's total.
pub open spec fn ideal_match(cs: Seq<Contribution>) -> nat {
    sum_sqrt(cs) * sum_sqrt(cs)
}

/// Sum of a sequence of naturals.
pub open spec fn seq_sum(s: Seq<nat>) -> nat
    decreases s.len(),
{
    if s.len() == 0 {
        0
    } else {
        seq_sum(s.drop_last()) + s.last()
    }
}

/// The naturals a sequence of `u128` stands for.
pub open spec fn as_nats(s: Seq<u128>) -> Seq<nat> {
    s.map_values(|v: u128| v as nat)
}

/// The scaling factor (over `ALPHA_ONE`) for a pool and the projects' ideal
/// matches: nothing without a pool or without contributions, full scale when
/// there is no demand, else the pool over the total demand, at most full scale.
pub open spec fn alpha_for(pool: nat, ideals: Seq<nat>, any_contribution: bool) -> nat {
    if pool == 0 || !any_contribution {
        0
    } else if seq_sum(ideals) == 0 {
        ALPHA_ONE as nat
    } else if pool >= seq_sum(ideals) {
        ALPHA_ONE as nat
    } else {
        (pool * (ALPHA_ONE as nat) / seq_sum(ideals)) as nat
    }
}

/// What computing the scaling factor yields: the total demand is summed only
/// when there is a pool and a contribution, and must fit in 128 bits.
pub open spec fn alpha_outcome(pool: nat, ideals: Seq<nat>, any_contribution: bool) -> Result<
    u32,
    QfError,
> {
    if pool == 0 || !any_contribution {
        Ok(0)
    } else if seq_sum(ideals) > u128::MAX {
        Err(QfError::Overflow)
    } else {
        Ok(alpha_for(pool, ideals, any_contribution) as u32)
    }
}

/// A project's match: its ideal match scaled by `alpha` over `ALPHA_ONE`, rounded down.
pub open spec fn scaled_match(alpha: nat, ideal: nat) -> nat {
    (alpha * ideal / (ALPHA_ONE as nat)) as nat
}

/// The matches of all projects under one scaling factor.
pub open spec fn matches_of(alpha: nat, ideals: Seq<nat>) -> Seq<nat> {
    ideals.map_values(|i: nat| scaled_match(alpha, i))
}

/// The ideal matches of the projects `eligible` given a round's contributions.
pub open spec fn round_ideals(round_cs: Seq<Contribution>, eligible: Seq<u32>) -> Seq<nat> {
    eligible.map_values(|pid: u32| ideal_match(for_project(round_cs, pid)))
}

/// Whether any project of `eligible` received a contribution in the round.
pub open spec fn any_contribution(round_cs: Seq<Contribution>, eligible: Seq<u32>) -> bool {
    exists|i: int| 0 <= i < eligible.len() && #[trigger] for_project(round_cs, eligible[i]).len() > 0
}

/// The scaling factor is never above full scale.
pub proof fn lemma_alpha_at_most_one(pool: nat, ideals: Seq<nat>, any: bool)
    ensures
        alpha_for(pool, ideals, any) <= ALPHA_ONE,
{
    let t = seq_sum(ideals);
    if pool > 0 && any && t > 0 && pool < t {
        assert(pool * 10000 / t <= 10000) by (nonlinear_arith)
            requires
                pool < t,
                t > 0,
        ;
    }
}

proof fn lemma_scaled_times_one_le(alpha: nat, ideal: nat)
    ensures
        ALPHA_ONE * scaled_match(alpha, ideal) <= alpha * ideal,
{
    assert(10000 * ((alpha * ideal) / 10000) <= alpha * ideal) by (nonlinear_arith);
}

/// Scaled matches, times `ALPHA_ONE`, sum to at most `alpha` times the total ideal.
proof fn lemma_matches_sum_bound(alpha: nat, ideals: Seq<nat>)
    ensures
        ALPHA_ONE * seq_sum(matches_of(alpha, ideals)) <= alpha * seq_sum(ideals),
    decreases ideals.len(),
{
    if ideals.len() > 0 {
        let d = ideals.drop_last();
        lemma_matches_sum_bound(alpha, d);
        assert(matches_of(alpha, ideals).drop_last() =~= matches_of(alpha, d));
        lemma_scaled_times_one_le(alpha, ideals.last());
        let a = seq_sum(matches_of(alpha, d));
        let b = scaled_match(alpha, ideals.last());
        assert(alpha * (seq_sum(d) + ideals.last()) == alpha * seq_sum(d) + alpha * ideals.last())
            by (nonlinear_arith);
        assert(10000 * (a + b) == 10000 * a + 10000 * b);
    }
}

/// The matches under the computed scaling factor never exceed the pool.
pub proof fn lemma_matches_within_pool(pool: nat, ideals: Seq<nat>, any: bool)
    ensures
        seq_sum(matches_of(alpha_for(pool, ideals, any), ideals)) <= pool,
{
    let a = alpha_for(pool, ideals, any);
    let t = seq_sum(ideals);
    let m = seq_sum(matches_of(a, ideals));
    lemma_matches_sum_bound(a, ideals);
    if a == 0 {
        assert(10000 * m <= 0 * t);
    } else if t == 0 {
        assert(10000 * m <= a * 0);
    } else if pool >= t {
        assert(10000 * m <= 10000 * t);
    } else {
        assert(a * t <= pool * 10000) by (nonlinear_arith)
            requires
                a == pool * 10000 / t,
                t > 0,
        ;
    }
}

/// A prefix of a sequence of naturals sums to at most the whole.
pub proof fn lemma_seq_sum_prefix(s: Seq<nat>, n: int)
    requires
        0 <= n <= s.len(),
    ensures
        seq_sum(s.subrange(0, n)) <= seq_sum(s),
    decreases s.len(),
{
    if n < s.len() {
        assert(s.drop_last() =~= s.subrange(0, s.len() - 1));
        assert(s.drop_last().subrange(0, n) =~= s.subrange(0, n));
        lemma_seq_sum_prefix(s.drop_last(), n);
    } else {
        assert(s.subrange(0, n) =~= s);
    }
}

/// A prefix of an aggregation has at most its root sum.
proof fn lemma_group_roots_prefix(g: Seq<(crate::ledger::Identity, u128)>, n: int)
    requires
        0 <= n <= g.len(),
    ensures
        group_roots(g.subrange(0, n)) <= group_roots(g),
    decreases g.len(),
{
    if n < g.len() {
        assert(g.drop_last() =~= g.subrange(0, g.len() - 1));
        assert(g.drop_last().subrange(0, n) =~= g.subrange(0, n));
        lemma_group_roots_prefix(g.drop_last(), n);
    } else {
        assert(g.subrange(0, n) =~= g);
    }
}

/// The ideal match of a project's contributions, `(sum of floor roots of each
/// contributor's total)^2`; an error where it does not fit in 128 bits.
pub fn calculate_project_ideal_match(cs: &Vec<Contribution>) -> (r: Result<u128, QfError>)
    requires
        amount_sum(cs@) <= u128::MAX,
    ensures
        ideal_match(cs@) <= u128::MAX ==> r == Ok::<u128, QfError>(ideal_match(cs@) as u128),
        ideal_match(cs@) > u128::MAX ==> r == Err::<u128, QfError>(QfError::Overflow),
{
    let g = aggregate_by_contributor(cs);
    proof {
        lemma_aggregation_roots(g@, cs@);
        lemma_sum_sqrt_le(cs@);
    }
    let mut sum: u128 = 0;
    let mut k: usize = 0;
    while k < g.len()
        invariant
            k <= g@.len(),
            group_roots(g@) <= u128::MAX,
            sum == group_roots(g@.subrange(0, k as int)),
        decreases g.len() - k,
    {
        let root = sqrt_u128(g[k].1);
        proof {
            assert(g@.subrange(0, k + 1).drop_last() =~= g@.subrange(0, k as int));
            lemma_group_roots_prefix(g@, k + 1);
        }
        sum = sum + root;
        k = k + 1;
    }
    proof {
        assert(g@.subrange(0, g@.len() as int) =~= g@);
    }
    match sum.checked_mul(sum) {
        Some(v) => Ok(v),
        None => Err(QfError::Overflow),
    }
}

/// `floor(x * m / d)` for `x < d`, exact without a wider integer type: the
/// product is built bit by bit of `m`, keeping quotient and remainder.
pub fn mul_div_below(x: u128, m: u32, d: u128) -> (q: u128)
    requires
        x < d,
    ensures
        q == (x as int * m as int) / (d as int),
        q <= m,
{
    let mut q: u128 = 0;
    let mut r: u128 = 0;
    let mut b: u64 = 32;
    let mm: u64 = m as u64;
    assert(mm >> 32u64 == 0u64) by (bit_vector)
        requires
            mm < 0x1_0000_0000u64,
    ;
    while b > 0
        invariant
            b <= 32,
            x < d,
            mm == m,
            r < d,
            q <= (mm >> b),
            q as int * d as int + r as int == x as int * (mm >> b) as int,
        decreases b,
    {
        let ghost pre = (mm >> b) as int;
        let b1: u64 = b - 1;
        let bit: u64 = (mm >> b1) & 1;
        assert(mm >> b1 == (mm >> b) * 2 + ((mm >> b1) & 1) && (mm >> b) < 0x1_0000_0000u64)
            by (bit_vector)
            requires
                b1 + 1 == b,
                1 <= b <= 32,
                mm < 0x1_0000_0000u64,
        ;
        assert(bit <= 1) by (bit_vector)
            requires
                bit == (mm >> b1) & 1,
        ;
        let ghost q0 = q as int;
        let ghost r0 = r as int;
        // double
        if r >= d - r {
            q = 2 * q + 1;
            r = r - (d - r);
        } else {
            q = 2 * q;
            r = r + r;
        }
        assert(q as int * d as int + r as int == 2 * (q0 * d as int + r0)) by (nonlinear_arith)
            requires
                (q as int == 2 * q0 + 1 && r as int == 2 * r0 - d as int) || (q as int == 2 * q0
                    && r as int == 2 * r0),
        ;
        let ghost pre2 = 2 * pre + bit;
        // add x once more where the bit is set
        if bit == 1 {
            let ghost q1 = q as int;
            let ghost r1 = r as int;
            if r >= d - x {
                q = q + 1;
                r = r - (d - x);
            } else {
                r = r + x;
            }
            assert(q as int * d as int + r as int == q1 * d as int + r1 + x as int)
                by (nonlinear_arith)
                requires
                    (q as int == q1 + 1 && r as int == r1 + x as int - d as int) || (q as int
                        == q1 && r as int == r1 + x as int),
            ;
            assert(x as int * pre2 == 2 * (x as int * pre) + x as int) by (nonlinear_arith)
                requires
                    pre2 == 2 * pre + 1,
            ;
        } else {
            assert(x as int * pre2 == 2 * (x as int * pre)) by (nonlinear_arith)
                requires
                    pre2 == 2 * pre,
            ;
        }
        b = b - 1;
        assert(pre2 == (mm >> b) as int);
        assert(q as int <= pre2) by (nonlinear_arith)
            requires
                q as int * d as int + r as int == x as int * pre2,
                x < d,
                r >= 0,
                pre2 >= 0,
        {
            if q as int > pre2 {
                assert(q as int * d as int >= (pre2 + 1) * d as int);
                assert(x as int * pre2 <= d as int * pre2);
            }
        }
    }
    assert(mm >> 0u64 == mm) by (bit_vector);
    proof {
        lemma_fundamental_div_mod_converse(x as int * m as int, d as int, q as int, r as int);
    }
    q
}

/// The scaling factor for a round: `0` without a pool or contributions,
/// else `min(ALPHA_ONE, pool * ALPHA_ONE / total ideal)` (full scale when the
/// total ideal is zero); an error where the total ideal does not fit in 128 bits.
pub fn find_optimal_alpha(ideals: &Vec<u128>, any_contribution: bool, matching_pool: u128) -> (r:
    Result<u32, QfError>)
    ensures
        r == alpha_outcome(matching_pool as nat, as_nats(ideals@), any_contribution),
{
    if matching_pool == 0 || !any_contribution {
        return Ok(0);
    }
    let ghost s = as_nats(ideals@);
    let mut total: u128 = 0;
    let mut k: usize = 0;
    while k < ideals.len()
        invariant
            k <= ideals@.len(),
            s == as_nats(ideals@),
            matching_pool != 0,
            any_contribution,
            total == seq_sum(s.subrange(0, k as int)),
        decreases ideals.len() - k,
    {
        proof {
            assert(s.subrange(0, k + 1).drop_last() =~= s.subrange(0, k as int));
            lemma_seq_sum_prefix(s, k + 1);
        }
        assert(s[k as int] == ideals@[k as int] as nat);
        match total.checked_add(ideals[k]) {
            Some(t) => {
                total = t;
            },
            None => {
                proof {
                    let sub = s.subrange(0, k + 1);
                    assert(sub.last() == s[k as int]);
                    assert(seq_sum(sub) == seq_sum(sub.drop_last()) + sub.last());
                }
                return Err(QfError::Overflow);
            },
        }
        k = k + 1;
    }
    proof {
        assert(s.subrange(0, s.len() as int) =~= s);
        lemma_alpha_at_most_one(matching_pool as nat, s, any_contribution);
    }
    if total == 0 {
        Ok(ALPHA_ONE)
    } else if total <= matching_pool {
        Ok(ALPHA_ONE)
    } else {
        let a = mul_div_below(matching_pool, ALPHA_ONE, total);
        Ok(a as u32)
    }
}

/// A project's match under `alpha`: `floor(alpha * ideal / ALPHA_ONE)`.
pub fn calculate_project_match(ideal: u128, alpha: u32) -> (r: u128)
    requires
        alpha <= ALPHA_ONE,
    ensures
        r == scaled_match(alpha as nat, ideal as nat),
        r <= ideal,
{
    let hi = ideal / 10000;
    let lo = ideal % 10000;
    assert(hi * (alpha as int) <= ideal) by (nonlinear_arith)
        requires
            hi == ideal / 10000,
            alpha <= 10000,
    ;
    assert(lo * (alpha as int) < 100_000_000) by (nonlinear_arith)
        requires
            lo < 10000,
            alpha <= 10000,
    ;
    let a = hi * (alpha as u128);
    let c = (lo * (alpha as u128)) / 10000;
    assert(a + c == (alpha as int * ideal as int) / 10000) by (nonlinear_arith)
        requires
            hi == ideal / 10000,
            lo == ideal % 10000,
            a == hi * alpha,
            c == (lo * alpha) / 10000,
    {
        assert(ideal as int == 10000 * hi + lo);
        assert(alpha as int * ideal as int == 10000 * (hi * alpha) + lo * alpha);
    }
    assert((alpha as int * ideal as int) / 10000 <= ideal) by (nonlinear_arith)
        requires
            alpha <= 10000,
    ;
    let r = a + c;
    assert(r <= ideal) by (nonlinear_arith)
        requires
            r == (alpha as int * ideal as int) / 10000,
            alpha <= 10000,
    ;
    r
}

} // verus!
