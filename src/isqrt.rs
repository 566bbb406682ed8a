//! Integer square root by Newton's method.

use vstd::prelude::*;

verus! {

/// `r` is the floor of the square root of `x`.
pub open spec fn is_floor_sqrt(x: int, r: int) -> bool {
    0 <= r && r * r <= x && x < (r + 1) * (r + 1)
}

/// One Newton step towards the square root of `x` from the guess `t`.
pub open spec fn newton_step(x: int, t: int) -> int {
    (x / t + t) / 2
}

/// A Newton step never falls below the floor root.
proof fn lemma_step_not_below(x: int, t: int, s: int)
    requires
        t >= 1,
        is_floor_sqrt(x, s),
    ensures
        newton_step(x, t) >= s,
{
    let q = x / t;
    assert(x < (q + 1) * t) by (nonlinear_arith)
        requires
            t >= 1,
            q == x / t,
    ;
    // (q + 1 + t)^2 >= 4 (q + 1) t > 4 x >= 4 s^2
    assert((q + 1 + t) * (q + 1 + t) >= 4 * ((q + 1) * t)) by (nonlinear_arith);
    assert(q + 1 + t > 2 * s) by (nonlinear_arith)
        requires
            (q + 1 + t) * (q + 1 + t) > 4 * (s * s),
            s >= 0,
            q + 1 + t >= 0,
    {
        if q + 1 + t <= 2 * s {
            assert((q + 1 + t) * (q + 1 + t) <= (2 * s) * (2 * s));
        }
    }
}

/// Above the floor root, a Newton step strictly decreases the guess.
proof fn lemma_step_decreases(x: int, t: int, s: int)
    requires
        t > s,
        is_floor_sqrt(x, s),
    ensures
        newton_step(x, t) < t,
{
    assert(t * t > x) by (nonlinear_arith)
        requires
            t >= s + 1,
            x < (s + 1) * (s + 1),
            s >= 0,
    ;
    assert(x / t < t) by (nonlinear_arith)
        requires
            t * t > x,
            t >= 1,
            x >= 0,
    ;
}

/// The floor root of `x` exists and is unique.
proof fn lemma_floor_sqrt_unique(x: int, a: int, b: int)
    requires
        is_floor_sqrt(x, a),
        is_floor_sqrt(x, b),
    ensures
        a == b,
{
    if a < b {
        assert((a + 1) * (a + 1) <= b * b) by (nonlinear_arith)
            requires
                0 <= a + 1 <= b,
        ;
    } else if b < a {
        assert((b + 1) * (b + 1) <= a * a) by (nonlinear_arith)
            requires
                0 <= b + 1 <= a,
        ;
    }
}

/// The floor of the square root of `x`: the greatest `r` with `r * r <= x`.
pub open spec fn floor_sqrt(x: nat) -> nat
    decreases x,
{
    if x == 0 {
        0
    } else {
        let r = floor_sqrt((x - 1) as nat);
        if (r + 1) * (r + 1) <= x {
            r + 1
        } else {
            r
        }
    }
}

/// `floor_sqrt` meets its defining property.
pub proof fn lemma_floor_sqrt(x: nat)
    ensures
        is_floor_sqrt(x as int, floor_sqrt(x) as int),
        floor_sqrt(x) <= x,
    decreases x,
{
    if x > 0 {
        lemma_floor_sqrt((x - 1) as nat);
        let r = floor_sqrt((x - 1) as nat) as int;
        if (r + 1) * (r + 1) <= x {
            assert(x < (r + 2) * (r + 2)) by (nonlinear_arith)
                requires
                    x - 1 < (r + 1) * (r + 1),
                    r >= 0,
            ;
            assert(r + 1 <= x) by (nonlinear_arith)
                requires
                    (r + 1) * (r + 1) <= x,
                    r >= 0,
            ;
        }
    }
}

/// The floor root of a value below 100, read from a table.
fn small_root(x: u128) -> (r: u128)
    requires
        x < 100,
    ensures
        is_floor_sqrt(x as int, r as int),
{
    if x < 1 {
        0
    } else if x < 4 {
        1
    } else if x < 9 {
        2
    } else if x < 16 {
        3
    } else if x < 25 {
        4
    } else if x < 36 {
        5
    } else if x < 49 {
        6
    } else if x < 64 {
        7
    } else if x < 81 {
        8
    } else {
        9
    }
}

/// The integer square root of `x`, `floor(sqrt(x))`, by Newton's method.
pub fn sqrt_u128(x: u128) -> (r: u128)
    ensures
        is_floor_sqrt(x as int, r as int),
        r == floor_sqrt(x as nat),
{
    proof {
        lemma_floor_sqrt(x as nat);
    }
    let ghost s = floor_sqrt(x as nat) as int;
    if x == 0 {
        return 0;
    }
    if x == 1 {
        return 1;
    }
    let mut result: u128 = x;
    let mut temp: u128 = x / 2 + x % 2;
    if x < 100 {
        temp = small_root(x);
        proof {
            lemma_floor_sqrt_unique(x as int, temp as int, s);
        }
        result = temp + 1;
    } else {
        proof {
            assert(s <= x);
            lemma_step_not_below(x as int, x as int, s);
            assert(x as int / x as int == 1) by (nonlinear_arith)
                requires
                    x >= 1,
            ;
            assert(s < x) by (nonlinear_arith)
                requires
                    is_floor_sqrt(x as int, s),
                    x >= 100,
            ;
        }
    }
    while temp < result
        invariant
            is_floor_sqrt(x as int, s),
            s == floor_sqrt(x as nat),
            x >= 2,
            temp >= s,
            result >= s,
            result > s ==> temp < result,
        decreases result,
    {
        result = temp;
        proof {
            assert(temp >= 1) by (nonlinear_arith)
                requires
                    is_floor_sqrt(x as int, s),
                    x >= 2,
                    temp >= s,
            ;
            lemma_step_not_below(x as int, temp as int, s);
            if temp > s {
                lemma_step_decreases(x as int, temp as int, s);
            }
        }
        let q = x / temp;
        temp = q / 2 + temp / 2 + (q % 2 + temp % 2) / 2;
        assert(temp == newton_step(x as int, result as int));
    }
    result
}

} // verus!
