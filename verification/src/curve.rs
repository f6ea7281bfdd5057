//! The issuance curve: prices a span of activity against the activity issued
//! since genesis.
//!
//! The per-unit reward is a piecewise-linear, non-increasing polyline over the
//! cumulative-activity axis: the axis is partitioned into segments of
//! `SEG_LEN` units, each segment has an integer slope drawn from a fixed
//! table that decays geometrically (halving every twenty-five segments), and
//! beyond the table the reward stays at a constant floor. The price of a span
//! is the exact integer sum of the per-unit rewards it covers, so pricing is
//! deterministic, additive without any rounding loss, and non-increasing in
//! the starting point.

use vstd::arithmetic::div_mod::{lemma_fundamental_div_mod, lemma_fundamental_div_mod_converse};
use vstd::arithmetic::mul::lemma_mul_inequality;
use vstd::prelude::*;

verus! {

/// Units of cumulative activity per curve segment.
pub const SEG_LEN: u64 = 1_000_000_000_000;

/// Per-unit reward (in token base units, 18 decimals) at the start of the
/// curve: one thousandth of a token per unit of activity.
pub const START_REWARD: u128 = 1_000_000_000_000_000;

/// Per-unit reward everywhere beyond the sloped part of the table:
/// `START_REWARD - SEG_LEN * slope_total()`.
pub const TAIL_REWARD: u128 = 225_000_000_000_000;

/// Slope of the per-unit reward inside segment `t`: starts at 16 base units
/// per activity unit and halves every twenty-five segments until it is zero.
pub open spec fn slope(t: int) -> int {
    if t < 25 {
        16
    } else if t < 50 {
        8
    } else if t < 75 {
        4
    } else if t < 100 {
        2
    } else if t < 125 {
        1
    } else {
        0
    }
}

/// Sum of the slopes of the segments before `t` (closed form).
pub open spec fn slope_sum(t: int) -> int {
    if t <= 25 {
        16 * t
    } else if t <= 50 {
        400 + 8 * (t - 25)
    } else if t <= 75 {
        600 + 4 * (t - 50)
    } else if t <= 100 {
        700 + 2 * (t - 75)
    } else if t <= 125 {
        750 + (t - 100)
    } else {
        775
    }
}

/// Per-unit reward at the start of segment `t`.
pub open spec fn intercept(t: int) -> int {
    START_REWARD - SEG_LEN * slope_sum(t)
}

/// Per-unit reward at cumulative-activity position `x`.
pub open spec fn reward(x: int) -> int
    recommends
        x >= 0,
{
    intercept(x / (SEG_LEN as int)) - slope(x / (SEG_LEN as int)) * (x % (SEG_LEN as int))
}

/// Price of issuing `d` units of activity starting at cumulative position
/// `n`: the exact sum of the per-unit rewards over `[n, n + d)`.
pub open spec fn price(n: int, d: nat) -> int
    decreases d,
{
    if d == 0 {
        0
    } else {
        reward(n) + price(n + 1, (d - 1) as nat)
    }
}

proof fn lemma_slope_sum_bounds(t: int)
    requires
        t >= 0,
    ensures
        0 <= slope_sum(t) <= 775,
        slope_sum(t + 1) == slope_sum(t) + slope(t),
        0 <= slope(t) <= 16,
{
}

/// The per-unit reward lies between the tail floor and the start value.
pub proof fn lemma_reward_bounds(x: int)
    requires
        x >= 0,
    ensures
        TAIL_REWARD <= reward(x) <= START_REWARD,
{
    let s = SEG_LEN as int;
    let t = x / s;
    let r = x % s;
    lemma_fundamental_div_mod(x, s);
    assert(t >= 0) by (nonlinear_arith)
        requires
            x >= 0,
            s > 0,
            x == s * t + r,
            0 <= r < s,
    ;
    lemma_slope_sum_bounds(t);
    assert(slope(t) * r >= 0) by (nonlinear_arith)
        requires
            slope(t) >= 0,
            r >= 0,
    ;
    lemma_mul_inequality(r, s, slope(t));
    assert(slope(t) * r <= slope(t) * s) by (nonlinear_arith)
        requires
            r <= s,
            slope(t) >= 0,
    ;
    assert(intercept(t) - slope(t) * s == intercept(t + 1));
    assert(intercept(t + 1) >= TAIL_REWARD);
}

/// Moving one unit to the right never increases the per-unit reward.
proof fn lemma_reward_step(x: int)
    requires
        x >= 0,
    ensures
        reward(x + 1) <= reward(x),
        x % (SEG_LEN as int) + 1 < SEG_LEN as int ==> reward(x + 1) == reward(x) - slope(
            x / (SEG_LEN as int),
        ),
{
    let s = SEG_LEN as int;
    let t = x / s;
    let r = x % s;
    lemma_fundamental_div_mod(x, s);
    assert(t >= 0) by (nonlinear_arith)
        requires
            x >= 0,
            s > 0,
            x == s * t + r,
            0 <= r < s,
    ;
    lemma_slope_sum_bounds(t);
    if r + 1 < s {
        lemma_fundamental_div_mod_converse(x + 1, s, t, r + 1);
        assert(reward(x + 1) == intercept(t) - slope(t) * (r + 1));
        assert(slope(t) * (r + 1) == slope(t) * r + slope(t)) by (nonlinear_arith);
    } else {
        assert(r == s - 1);
        lemma_fundamental_div_mod_converse(x + 1, s, t + 1, 0);
        assert(reward(x + 1) == intercept(t + 1));
        assert(intercept(t + 1) == intercept(t) - SEG_LEN * slope(t));
        assert(slope(t) * r == slope(t) * s - slope(t)) by (nonlinear_arith)
            requires
                r == s - 1,
        ;
        assert(slope(t) * s == s * slope(t)) by (nonlinear_arith);
    }
}

/// The per-unit reward is non-increasing along the curve.
pub proof fn lemma_reward_antitone(x: int, y: int)
    requires
        0 <= x <= y,
    ensures
        reward(y) <= reward(x),
    decreases y - x,
{
    if x < y {
        lemma_reward_antitone(x, y - 1);
        lemma_reward_step(y - 1);
    }
}

/// The price of a span is between `d * TAIL_REWARD` and `d * START_REWARD`.
pub proof fn lemma_price_bounds(n: int, d: nat)
    requires
        n >= 0,
    ensures
        d * TAIL_REWARD <= price(n, d) <= d * START_REWARD,
    decreases d,
{
    if d > 0 {
        lemma_reward_bounds(n);
        lemma_price_bounds(n + 1, (d - 1) as nat);
        assert((d - 1) * TAIL_REWARD + TAIL_REWARD == d * TAIL_REWARD) by (nonlinear_arith);
        assert((d - 1) * START_REWARD + START_REWARD == d * START_REWARD) by (nonlinear_arith);
    } else {
        assert(d * TAIL_REWARD == 0) by (nonlinear_arith)
            requires
                d == 0,
        ;
        assert(d * START_REWARD == 0) by (nonlinear_arith)
            requires
                d == 0,
        ;
    }
}

/// Splitting a span anywhere splits its price exactly: pricing `a` units and
/// then `b` more equals pricing `a + b` at once, with no rounding tolerance.
pub proof fn lemma_price_additive(n: int, a: nat, b: nat)
    ensures
        price(n, a) + price(n + a, b) == price(n, (a + b) as nat),
    decreases a,
{
    if a > 0 {
        lemma_price_additive(n + 1, (a - 1) as nat, b);
    }
}

/// For a fixed span length, the price never increases as the starting
/// cumulative position grows.
pub proof fn lemma_price_antitone(n1: int, n2: int, d: nat)
    requires
        0 <= n1 <= n2,
    ensures
        price(n2, d) <= price(n1, d),
    decreases d,
{
    if d > 0 {
        lemma_reward_antitone(n1, n2);
        lemma_price_antitone(n1 + 1, n2 + 1, (d - 1) as nat);
    }
}

/// Inside one segment the price is an arithmetic series: doubled, it is
/// `2 * c * reward(a) - slope * c * (c - 1)`.
proof fn lemma_price_in_segment(a: int, c: nat)
    requires
        a >= 0,
        a % (SEG_LEN as int) + c <= SEG_LEN as int,
    ensures
        2 * price(a, c) == 2 * c * reward(a) - slope(a / (SEG_LEN as int)) * (c * (c - 1)),
    decreases c,
{
    let s = SEG_LEN as int;
    let t = a / s;
    let k = slope(t);
    if c == 0 {
        assert(2 * c * reward(a) == 0) by (nonlinear_arith)
            requires
                c == 0,
        ;
        assert(k * (c * (c - 1)) == 0) by (nonlinear_arith)
            requires
                c == 0,
        ;
    } else if c == 1 {
        assert(price(a + 1, 0) == 0);
        assert(price(a, 1) == reward(a));
        assert(2 * c * reward(a) == 2 * reward(a)) by (nonlinear_arith)
            requires
                c == 1,
        ;
        assert(k * (c * (c - 1)) == 0) by (nonlinear_arith)
            requires
                c == 1,
        ;
    } else {
        lemma_fundamental_div_mod(a, s);
        lemma_reward_step(a);
        lemma_fundamental_div_mod_converse(a + 1, s, t, a % s + 1);
        assert((a + 1) / s == t && (a + 1) % s == a % s + 1);
        lemma_price_in_segment(a + 1, (c - 1) as nat);
        assert(reward(a + 1) == reward(a) - k);
        assert(2 * price(a + 1, (c - 1) as nat) == 2 * (c - 1) * (reward(a) - k) - k * ((c - 1) * (c
            - 2)));
        assert(2 * price(a, c) == 2 * reward(a) + 2 * price(a + 1, (c - 1) as nat));
        assert(2 * reward(a) + (2 * (c - 1) * (reward(a) - k) - k * ((c - 1) * (c - 2))) == 2 * c
            * reward(a) - k * (c * (c - 1))) by (nonlinear_arith);
    }
}

/// Beyond the slope table the per-unit reward is the constant tail value, so
/// a span is priced linearly.
proof fn lemma_price_tail(a: int, d: nat)
    requires
        a >= 125 * (SEG_LEN as int),
    ensures
        price(a, d) == d * TAIL_REWARD,
    decreases d,
{
    let s = SEG_LEN as int;
    if d == 0 {
        assert(d * TAIL_REWARD == 0) by (nonlinear_arith)
            requires
                d == 0,
        ;
    } else {
        lemma_fundamental_div_mod(a, s);
        assert(a / s >= 125) by (nonlinear_arith)
            requires
                a >= 125 * s,
                s > 0,
                a == s * (a / s) + a % s,
                0 <= a % s < s,
        ;
        assert(slope(a / s) * (a % s) == 0) by (nonlinear_arith)
            requires
                slope(a / s) == 0,
        ;
        assert(reward(a) == TAIL_REWARD);
        lemma_price_tail(a + 1, (d - 1) as nat);
        assert((d - 1) * TAIL_REWARD + TAIL_REWARD == d * TAIL_REWARD) by (nonlinear_arith);
    }
}

/// Slope of the per-unit reward in segment `t` of the table.
fn slope_at(t: u128) -> (k: u128)
    ensures
        k as int == slope(t as int),
{
    if t < 25 {
        16
    } else if t < 50 {
        8
    } else if t < 75 {
        4
    } else if t < 100 {
        2
    } else if t < 125 {
        1
    } else {
        0
    }
}

/// Per-unit reward at the start of segment `t`.
fn intercept_at(t: u128) -> (b: u128)
    ensures
        b as int == intercept(t as int),
{
    let ks: u128 = if t <= 25 {
        16 * t
    } else if t <= 50 {
        400 + 8 * (t - 25)
    } else if t <= 75 {
        600 + 4 * (t - 50)
    } else if t <= 100 {
        700 + 2 * (t - 75)
    } else if t <= 125 {
        750 + (t - 100)
    } else {
        775
    };
    proof {
        lemma_slope_sum_bounds(t as int);
        assert(ks as int == slope_sum(t as int));
        assert(ks <= 775);
        assert((SEG_LEN as int) * (ks as int) <= (SEG_LEN as int) * 775) by (nonlinear_arith)
            requires
                0 <= ks as int <= 775,
                SEG_LEN as int > 0,
        ;
    }
    START_REWARD - (SEG_LEN as u128) * ks
}

/// Per-unit reward at cumulative-activity position `x`.
fn reward_at(x: u128) -> (r: u128)
    requires
        x as int <= u64::MAX as int + u32::MAX as int,
    ensures
        r as int == reward(x as int),
{
    let t: u128 = x / (SEG_LEN as u128);
    let off: u128 = x % (SEG_LEN as u128);
    let b = intercept_at(t);
    let k = slope_at(t);
    proof {
        lemma_reward_bounds(x as int);
    }
    b - k * off
}

/// Price of issuing `delta` units of activity when `cumulative` units have
/// been issued so far: the exact sum of the per-unit rewards over the span.
pub fn compute_price(cumulative: u64, delta: u32) -> (r: u128)
    ensures
        r as int == price(cumulative as int, delta as nat),
{
    let seg: u128 = SEG_LEN as u128;
    let mut pos: u128 = cumulative as u128;
    let mut remaining: u32 = delta;
    let mut total: u128 = 0;
    proof {
        lemma_price_bounds(cumulative as int, delta as nat);
    }
    while remaining > 0
        invariant
            seg == SEG_LEN as int,
            remaining <= delta,
            pos == cumulative as int + delta - remaining,
            total == price(cumulative as int, (delta - remaining) as nat),
            0 <= total <= delta * START_REWARD,
        decreases remaining,
    {
        let ghost consumed = (delta - remaining) as nat;
        let t: u128 = pos / seg;
        proof {
            lemma_fundamental_div_mod(pos as int, seg as int);
        }
        if t >= 125 {
            proof {
                assert(pos as int >= 125 * (seg as int)) by (nonlinear_arith)
                    requires
                        pos as int == (seg as int) * (t as int) + (pos as int) % (seg as int),
                        (pos as int) % (seg as int) >= 0,
                        t as int >= 125,
                        seg as int > 0,
                ;
                lemma_price_tail(pos as int, remaining as nat);
                lemma_price_additive(cumulative as int, consumed, remaining as nat);
                lemma_price_bounds(cumulative as int, delta as nat);
                assert((remaining as int) * (TAIL_REWARD as int) <= (u32::MAX as int) * (
                TAIL_REWARD as int)) by (nonlinear_arith)
                    requires
                        0 <= remaining as int <= u32::MAX as int,
                ;
                assert(delta * START_REWARD <= (u32::MAX as int) * (START_REWARD as int))
                    by (nonlinear_arith)
                    requires
                        delta <= u32::MAX,
                        START_REWARD as int > 0,
                ;
            }
            total = total + (remaining as u128) * TAIL_REWARD;
            pos = pos + remaining as u128;
            remaining = 0;
        } else {
            let seg_end: u128 = (t + 1) * seg;
            proof {
                assert(seg_end as int == (t as int) * (seg as int) + seg as int)
                    by (nonlinear_arith)
                    requires
                        seg_end as int == (t as int + 1) * (seg as int),
                ;
                assert(pos < seg_end && seg_end - pos <= seg as int);
            }
            let room: u128 = seg_end - pos;
            let c: u32 = if (remaining as u128) <= room {
                remaining
            } else {
                room as u32
            };
            proof {
                assert(1 <= c && c as int <= room as int);
                // The span [pos, pos + c) stays inside segment t.
                assert((pos as int) % (seg as int) + c as int <= seg as int);
            }
            let r0 = reward_at(pos);
            let k = slope_at(t);
            proof {
                assert(((c / 2) as int) * ((c - 1) as int) <= (u32::MAX as int) * (u32::MAX as int))
                    by (nonlinear_arith)
                    requires
                        0 <= (c / 2) as int <= u32::MAX as int,
                        0 <= (c - 1) as int <= u32::MAX as int,
                ;
                assert((c as int) * (((c - 1) / 2) as int) <= (u32::MAX as int) * (u32::MAX as int))
                    by (nonlinear_arith)
                    requires
                        0 <= c as int <= u32::MAX as int,
                        0 <= ((c - 1) / 2) as int <= u32::MAX as int,
                ;
            }
            // c * (c - 1) is even; halve the even factor to avoid rounding.
            let half: u128 = if c % 2 == 0 {
                ((c / 2) as u128) * ((c - 1) as u128)
            } else {
                (c as u128) * (((c - 1) / 2) as u128)
            };
            proof {
                let ci = c as int;
                if c % 2 == 0 {
                    assert(2 * ((ci / 2) * (ci - 1)) == ci * (ci - 1)) by (nonlinear_arith)
                        requires
                            ci == 2 * (ci / 2),
                    ;
                } else {
                    assert(2 * (ci * ((ci - 1) / 2)) == ci * (ci - 1)) by (nonlinear_arith)
                        requires
                            ci - 1 == 2 * ((ci - 1) / 2),
                    ;
                }
                assert(2 * (half as int) == ci * (ci - 1));
                lemma_price_in_segment(pos as int, c as nat);
                lemma_price_bounds(pos as int, c as nat);
                assert((k as int) * (ci * (ci - 1)) == 2 * ((k as int) * (half as int)))
                    by (nonlinear_arith)
                    requires
                        ci * (ci - 1) == 2 * (half as int),
                ;
                // 2 * price == 2 * c * r0 - k * (c * (c - 1)) and price >= 0,
                // so k * half <= c * r0 and part below equals the price.
                assert(2 * (ci * (r0 as int)) == 2 * ci * (r0 as int)) by (nonlinear_arith);
                assert((k as int) * (half as int) <= ci * (r0 as int));
                assert(ci * (r0 as int) - (k as int) * (half as int) == price(pos as int, c as nat));
                assert(ci * (r0 as int) <= (u32::MAX as int) * (START_REWARD as int))
                    by (nonlinear_arith)
                    requires
                        0 <= ci <= u32::MAX as int,
                        0 <= r0 as int <= START_REWARD as int,
                ;
                lemma_price_additive(cumulative as int, consumed, c as nat);
                lemma_price_bounds(cumulative as int, (consumed + c) as nat);
                assert((consumed + c) * START_REWARD <= delta * START_REWARD) by (nonlinear_arith)
                    requires
                        consumed + c as int <= delta,
                        START_REWARD as int > 0,
                ;
                assert(delta * START_REWARD <= (u32::MAX as int) * (START_REWARD as int))
                    by (nonlinear_arith)
                    requires
                        delta <= u32::MAX,
                        START_REWARD as int > 0,
                ;
            }
            let part: u128 = (c as u128) * r0 - k * half;
            total = total + part;
            pos = pos + c as u128;
            remaining = remaining - c;
        }
    }
    total
}

} // verus!
