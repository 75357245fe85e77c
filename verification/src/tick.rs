use vstd::prelude::*;

use vstd::arithmetic::div_mod::lemma_fundamental_div_mod_converse;

use crate::constants::TICK_ARRAY_SIZE;

verus! {

/// The largest multiple of `m` that is not above `t` (for `m > 0`).
pub open spec fn floor_multiple(t: int, m: int) -> int {
    (t / m) * m
}

/// The start of the tick array that holds `tick_index`: the largest multiple of
/// one array width (`TICK_ARRAY_SIZE * tick_spacing`) that is not above it.
pub open spec fn tick_array_start_of(tick_index: int, tick_spacing: int) -> int {
    floor_multiple(tick_index, TICK_ARRAY_SIZE * tick_spacing)
}

/// The initializable tick that `tick_index` rounds to: down when `round_up` is
/// `Some(false)`, up when it is `Some(true)`, and to the nearer one (half way
/// rounding up) when it is `None`.
pub open spec fn initializable_tick_of(tick_index: int, tick_spacing: int, round_up: Option<bool>) -> int {
    let below = floor_multiple(tick_index, tick_spacing);
    let remainder = tick_index % tick_spacing;
    let up = match round_up {
        Some(r) => r && remainder > 0,
        None => remainder >= tick_spacing / 2 && remainder > 0,
    };
    if up {
        below + tick_spacing
    } else {
        below
    }
}

/// The smallest multiple of `tick_spacing` above `tick_index`.
pub open spec fn next_initializable_of(tick_index: int, tick_spacing: int) -> int {
    floor_multiple(tick_index, tick_spacing) + tick_spacing
}

/// The largest multiple of `tick_spacing` below `tick_index`.
pub open spec fn prev_initializable_of(tick_index: int, tick_spacing: int) -> int {
    if tick_index % tick_spacing == 0 {
        tick_index - tick_spacing
    } else {
        floor_multiple(tick_index, tick_spacing)
    }
}

/// Floor division with its remainder, on integers of moderate size.
pub(crate) fn div_rem_floor(a: i64, d: i64) -> (res: (i64, i64))
    requires
        0 < d <= 0x1_0000_0000,
        -0x1_0000_0000_0000 <= a <= 0x1_0000_0000_0000,
    ensures
        res.0 == a / d,
        res.1 == a % d,
        0 <= res.1 < d,
        a == res.0 * d + res.1,
{
    if a >= 0 {
        let n = a as u64;
        let du = d as u64;
        let q = n / du;
        let r = n % du;
        proof {
            assert(n == q * du + r) by (nonlinear_arith)
                requires
                    q == n / du,
                    r == n % du,
                    du > 0,
            ;
            assert(q <= n) by (nonlinear_arith)
                requires
                    q == n / du,
                    du > 0,
            ;
            lemma_fundamental_div_mod_converse(a as int, d as int, q as int, r as int);
        }
        (q as i64, r as i64)
    } else {
        let n = (-a) as u64;
        let du = d as u64;
        let qn = n / du;
        let rn = n % du;
        proof {
            assert(n == qn * du + rn) by (nonlinear_arith)
                requires
                    qn == n / du,
                    rn == n % du,
                    du > 0,
            ;
            assert(qn <= n) by (nonlinear_arith)
                requires
                    qn == n / du,
                    du > 0,
            ;
        }
        if rn == 0 {
            let q = -(qn as i64);
            proof {
                assert(a == q * d + 0) by (nonlinear_arith)
                    requires
                        n == qn * du + rn,
                        rn == 0,
                        n == -a,
                        q == -qn,
                        du == d,
                ;
                lemma_fundamental_div_mod_converse(a as int, d as int, q as int, 0);
            }
            (q, 0)
        } else {
            let q = -(qn as i64) - 1;
            let r = d - rn as i64;
            proof {
                assert(a == q * d + r) by (nonlinear_arith)
                    requires
                        n == qn * du + rn,
                        n == -a,
                        q == -qn - 1,
                        r == d - rn,
                        du == d,
                ;
                lemma_fundamental_div_mod_converse(a as int, d as int, q as int, r as int);
            }
            (q, r)
        }
    }
}

/// `floor_multiple(t, m)` lies in `(t - m, t]`, and no multiple of `m` lies
/// strictly between it and `t + 1`, nor strictly between `t` and the next one.
pub proof fn lemma_floor_multiple(t: int, m: int)
    requires
        m > 0,
    ensures
        floor_multiple(t, m) <= t < floor_multiple(t, m) + m,
        floor_multiple(t, m) % m == 0,
        t % m == 0 <==> floor_multiple(t, m) == t,
        t - floor_multiple(t, m) == t % m,
        forall|d: int| #[trigger] (d % m) == 0 && d <= t ==> d <= floor_multiple(t, m),
        forall|d: int| #[trigger] (d % m) == 0 && d > t ==> d >= floor_multiple(t, m) + m,
{
    let q = t / m;
    let r = t % m;
    vstd::arithmetic::div_mod::lemma_fundamental_div_mod(t, m);
    assert(t == m * q + r);
    assert(q * m == m * q) by (nonlinear_arith);
    vstd::arithmetic::div_mod::lemma_mod_multiples_basic(q, m);
    assert forall|d: int| #[trigger] (d % m) == 0 && d <= t implies d <= floor_multiple(t, m) by {
        vstd::arithmetic::div_mod::lemma_fundamental_div_mod(d, m);
        let k = d / m;
        assert(d == m * k);
        assert(k <= q) by (nonlinear_arith)
            requires
                d == m * k,
                t == m * q + r,
                0 <= r < m,
                d <= t,
                m > 0,
        ;
        assert(m * k <= m * q) by (nonlinear_arith)
            requires
                k <= q,
                m > 0,
        ;
    }
    assert forall|d: int| #[trigger] (d % m) == 0 && d > t implies d >= floor_multiple(t, m) + m by {
        vstd::arithmetic::div_mod::lemma_fundamental_div_mod(d, m);
        let k = d / m;
        assert(d == m * k);
        assert(k >= q + 1) by (nonlinear_arith)
            requires
                d == m * k,
                t == m * q + r,
                0 <= r < m,
                d > t,
                m > 0,
        ;
        assert(m * k >= m * (q + 1)) by (nonlinear_arith)
            requires
                k >= q + 1,
                m > 0,
        ;
        assert(m * (q + 1) == m * q + m) by (nonlinear_arith);
    }
}

/// Returns the start index of the tick array that holds `tick_index`.
pub fn get_tick_array_start_tick_index(tick_index: i32, tick_spacing: u16) -> (r: i32)
    requires
        tick_spacing > 0,
        tick_array_start_of(tick_index as int, tick_spacing as int) >= i32::MIN,
    ensures
        r == tick_array_start_of(tick_index as int, tick_spacing as int),
{
    let spacing = tick_spacing as i64;
    let (real_spacing_index, r1) = div_rem_floor(tick_index as i64, spacing);
    assert(-0x1_0000_0000 <= real_spacing_index <= 0x1_0000_0000) by (nonlinear_arith)
        requires
            tick_index == real_spacing_index * spacing + r1,
            0 <= r1 < spacing,
            spacing >= 1,
            i32::MIN <= tick_index <= i32::MAX,
    ;
    let (real_index, r2) = div_rem_floor(real_spacing_index, TICK_ARRAY_SIZE as i64);
    let width: i64 = TICK_ARRAY_SIZE as i64 * spacing;
    proof {
        let w = width as int;
        assert(tick_index == real_index * w + (r2 * spacing + r1)) by (nonlinear_arith)
            requires
                tick_index == real_spacing_index * spacing + r1,
                real_spacing_index == real_index * 88 + r2,
                w == 88 * spacing,
        ;
        assert(0 <= r2 * spacing + r1 < w) by (nonlinear_arith)
            requires
                0 <= r1 < spacing,
                0 <= r2 < 88,
                w == 88 * spacing,
        ;
        lemma_fundamental_div_mod_converse(tick_index as int, w, real_index as int, r2 * spacing + r1);
        assert(real_index * w <= tick_index);
        assert(-0x1_0000_0000 <= real_index <= 0x1_0000_0000) by (nonlinear_arith)
            requires
                real_spacing_index == real_index * 88 + r2,
                0 <= r2 < 88,
                -0x1_0000_0000 <= real_spacing_index <= 0x1_0000_0000,
        ;
        assert(-0x1_0000_0000_0000_0000 <= real_index * w <= 0x1_0000_0000_0000_0000) by (nonlinear_arith)
            requires
                -0x1_0000_0000 <= real_index <= 0x1_0000_0000,
                0 < w <= 88 * 65535,
        ;
    }
    (real_index * width) as i32
}

/// Rounds `tick_index` to an initializable tick (a multiple of the spacing):
/// down for `Some(false)`, up for `Some(true)`, to the nearer one for `None`.
pub fn get_initializable_tick_index(tick_index: i32, tick_spacing: u16, round_up: Option<bool>) -> (r: i32)
    requires
        tick_spacing > 0,
        floor_multiple(tick_index as int, tick_spacing as int) >= i32::MIN,
        initializable_tick_of(tick_index as int, tick_spacing as int, round_up) <= i32::MAX,
    ensures
        r == initializable_tick_of(tick_index as int, tick_spacing as int, round_up),
{
    let spacing = tick_spacing as i64;
    let (quotient, remainder) = div_rem_floor(tick_index as i64, spacing);
    proof {
        assert(quotient * spacing == floor_multiple(tick_index as int, tick_spacing as int));
        assert(quotient * spacing <= tick_index) by (nonlinear_arith)
            requires
                tick_index == quotient * spacing + remainder,
                remainder >= 0,
        ;
    }
    let below = quotient * spacing;
    let should_round_up = match round_up {
        Some(r) => r && remainder > 0,
        None => remainder >= spacing / 2 && remainder > 0,
    };
    if should_round_up {
        (below + spacing) as i32
    } else {
        below as i32
    }
}

/// Returns the smallest initializable tick above `tick_index`.
pub fn get_next_initializable_tick_index(tick_index: i32, tick_spacing: u16) -> (r: i32)
    requires
        tick_spacing > 0,
        floor_multiple(tick_index as int, tick_spacing as int) >= i32::MIN,
        next_initializable_of(tick_index as int, tick_spacing as int) <= i32::MAX,
    ensures
        r == next_initializable_of(tick_index as int, tick_spacing as int),
{
    let spacing = tick_spacing as i64;
    let (quotient, remainder) = div_rem_floor(tick_index as i64, spacing);
    proof {
        assert(quotient * spacing == tick_index - remainder);
    }
    (tick_index as i64 - remainder + spacing) as i32
}

/// Returns the largest initializable tick below `tick_index`.
pub fn get_prev_initializable_tick_index(tick_index: i32, tick_spacing: u16) -> (r: i32)
    requires
        tick_spacing > 0,
        prev_initializable_of(tick_index as int, tick_spacing as int) >= i32::MIN,
    ensures
        r == prev_initializable_of(tick_index as int, tick_spacing as int),
{
    let spacing = tick_spacing as i64;
    let (quotient, remainder) = div_rem_floor(tick_index as i64, spacing);
    proof {
        assert(quotient * spacing == tick_index - remainder);
    }
    if remainder == 0 {
        (tick_index as i64 - spacing) as i32
    } else {
        (tick_index as i64 - remainder) as i32
    }
}

} // verus!
