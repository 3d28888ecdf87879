//! Laws of the logistic curve, of the tables that learn, and of the curves that
//! refine a prediction.

use crate::model::logistic::{
    law_squash_range, law_stretch_inverts_squash, squash_of, stretch_of, KNOTS,
};
use crate::model::tables::{drifted, fresh_curves, fresh_table, learned, nearer_cell, refined};
use vstd::prelude::*;

verus! {

/// Law: between two knots the curve is the straight line through them, rounded to
/// the nearest number; behind its ends it is certain.
pub proof fn law_squash_is_a_line(d: int)
    ensures
        d >= 2047 ==> squash_of(d) == 4095,
        d <= -2047 ==> squash_of(d) == 0,
        -2047 < d < 2047 ==> {
            let i = (d + 2048) / 128;
            let w = (d + 2048) % 128;
            let line = KNOTS[i] * (128 - w) + KNOTS[i + 1] * w;
            line - 64 < 128 * squash_of(d) <= line + 64
        },
{
}

/// Law: the log odds rise with the probability.
pub proof fn law_stretch_monotone(p: int, q: int)
    requires
        0 <= p <= q <= 4095,
    ensures
        -2047 <= stretch_of(p) <= stretch_of(q) <= 2047,
{
    law_stretch_inverts_squash(p, 0);
    law_stretch_inverts_squash(q, 0);
    law_stretch_inverts_squash(p, stretch_of(q));
    law_stretch_inverts_squash(q, stretch_of(q));
}

/// Law: a table entry learns a bit by going one part in its count plus two of the way
/// to certainty, up to rounding, and its count rises by one, to 15 at most.
pub proof fn law_learning_rate(v: u16, bit: bool)
    ensures
        ({
            let (p, c) = (v as int / 16, v as int % 16);
            let (np, nc) = (learned(v, bit) as int / 16, learned(v, bit) as int % 16);
            let target = if bit {
                4096int
            } else {
                0int
            };
            &&& nc == if c < 15 {
                c + 1
            } else {
                15
            }
            &&& -(c + 3) <= (c + 2) * (np - p) - (target - p) <= c + 3
            &&& 0 <= np <= 4095
        }),
{
    let (p, c) = (v as int / 16, v as int % 16);
    let target = if bit {
        4096int
    } else {
        0int
    };
    let d = target - p;
    let r = 65536int / (c + 2);
    crate::model::tables::law_learned(v, bit);
    assert(65536 - (c + 2) < r * (c + 2) <= 65536) by (nonlinear_arith)
        requires
            r == 65536int / (c + 2),
            0 <= c <= 15,
    ;
    let x = d * r;
    let step = x / 65536;
    assert(65536 * step <= x < 65536 * step + 65536);
    let e = 65536 - r * (c + 2);
    assert((c + 2) * x == d * 65536 - d * e) by (nonlinear_arith)
        requires
            x == d * r,
            e == 65536 - r * (c + 2),
    ;
    assert(-4096 * 17 <= d * e <= 4096 * 17) by (nonlinear_arith)
        requires
            -4096 <= d <= 4096,
            0 <= e <= 17,
    ;
    assert((c + 2) * 65536 * step <= (c + 2) * x && (c + 2) * x <= (c + 2) * 65536 * step + (c + 2)
        * 65536) by (nonlinear_arith)
        requires
            65536 * step <= x < 65536 * step + 65536,
            0 <= c,
    ;
    let y = (c + 2) * step;
    assert((c + 2) * 65536 * step == 65536 * y) by (nonlinear_arith)
        requires
            y == (c + 2) * step,
    ;
    assert(learned(v, bit) as int / 16 == p + step);
}

/// Law: how far exactly a table entry goes: the share `r` of the way, in 65536ths, is
/// one in the count plus two, rounded down, and so is the way itself.
pub proof fn law_learning_step(v: u16, bit: bool, r: int)
    requires
        r * (v as int % 16 + 2) <= 65536 < (r + 1) * (v as int % 16 + 2),
    ensures
        ({
            let p = v as int / 16;
            let np = learned(v, bit) as int / 16;
            let target = if bit {
                4096int
            } else {
                0int
            };
            65536 * (np - p) <= (target - p) * r < 65536 * (np - p) + 65536
        }),
{
    let c = v as int % 16;
    crate::model::tables::law_learned(v, bit);
    assert(r == 65536int / (c + 2)) by (nonlinear_arith)
        requires
            0 <= c < 16,
            r * (c + 2) <= 65536 < (r + 1) * (c + 2),
    ;
}

/// Law: a point of a curve learns a bit by going a 32nd of the way to certainty,
/// rounded down.
pub proof fn law_drift_rate(v: u16, bit: bool)
    ensures
        ({
            let target = if bit {
                65536int
            } else {
                0int
            };
            0 <= (target - v) - 32 * (drifted(v, bit) - v) < 32
        }),
{
}

/// Law: a new table holds even odds everywhere, without any evidence.
pub proof fn law_fresh_table(size: nat, i: int)
    requires
        0 <= i < size,
    ensures
        fresh_table(size).len() == size,
        fresh_table(size)[i] as int / 16 == 2048,
        fresh_table(size)[i] as int % 16 == 0,
{
}

/// Law: each new curve is the logistic curve, in 33 points that are 128 apart.
pub proof fn law_fresh_curves(nctx: nat, ctx: int, i: int)
    requires
        0 <= ctx < nctx,
        0 <= i < 33,
    ensures
        fresh_curves(nctx).len() == 33 * nctx,
        fresh_curves(nctx)[ctx * 33 + i] == 16 * squash_of(128 * i - 2048),
{
    let k = ctx * 33 + i;
    assert(k % 33 == i && 0 <= k < nctx * 33);
    law_squash_range(128 * i - 2048);
}

/// The curve of the context at `s`, in 2048ths of a probability, in a straight line
/// from point to point.
pub open spec fn line(t: Seq<u16>, ctx: int, s: int) -> int {
    t[ctx * 33 + s / 128] * (128 - s % 128) + t[ctx * 33 + s / 128 + 1] * (s % 128)
}

/// Law: a refined probability is the context's curve at the log odds of the
/// probability, in a straight line from point to point, rounded down; and the point
/// that learns is the nearer one.
pub proof fn law_refined_is_on_the_curve(t: Seq<u16>, p: int, ctx: int)
    requires
        0 <= p <= 4095,
    ensures
        ({
            let s = stretch_of(p) + 2048;
            &&& 1 <= s <= 4095
            &&& 2048 * refined(t, p, ctx) <= line(t, ctx, s) < 2048 * refined(t, p, ctx) + 2048
            &&& -64 <= s - 128 * (nearer_cell(p, ctx) - ctx * 33) < 64
        }),
{
    law_stretch_inverts_squash(p, 0);
}

/// The curve of the context never falls.
pub open spec fn rises(t: Seq<u16>, ctx: int) -> bool {
    forall|i: int|
        0 <= i < 32 ==> #[trigger] t[ctx * 33 + i] <= t[ctx * 33 + i + 1]
}

proof fn lemma_line_step(t: Seq<u16>, ctx: int, s: int)
    requires
        rises(t, ctx),
        0 <= s < 4095,
    ensures
        line(t, ctx, s) <= line(t, ctx, s + 1),
{
    let i = s / 128;
    let w = s % 128;
    let a = t[ctx * 33 + i] as int;
    let b = t[ctx * 33 + i + 1] as int;
    assert(a <= b);
    if w < 127 {
        assert((s + 1) / 128 == i && (s + 1) % 128 == w + 1);
        assert(a * (128 - w) + b * w <= a * (128 - (w + 1)) + b * (w + 1)) by (nonlinear_arith)
            requires
                a <= b,
        ;
    } else {
        assert((s + 1) / 128 == i + 1 && (s + 1) % 128 == 0);
        let c = t[ctx * 33 + (i + 1) + 1] as int;
        let v = (s + 1) % 128;
        assert(b * (128 - v) == b * 128 && c * v == 0 && a * (128 - w) == a && b * w == b * 127)
            by (nonlinear_arith)
            requires
                v == 0,
                w == 127,
        ;
    }
}

proof fn lemma_line_monotone(t: Seq<u16>, ctx: int, s: int, u: int)
    requires
        rises(t, ctx),
        0 <= s <= u <= 4095,
    ensures
        line(t, ctx, s) <= line(t, ctx, u),
    decreases u - s,
{
    if s < u {
        lemma_line_step(t, ctx, s);
        lemma_line_monotone(t, ctx, s + 1, u);
    }
}

/// Law: where the curve never falls, a higher probability is never refined to a lower
/// one.
pub proof fn law_refined_monotone(t: Seq<u16>, p: int, q: int, ctx: int)
    requires
        rises(t, ctx),
        0 <= p <= q <= 4095,
    ensures
        refined(t, p, ctx) <= refined(t, q, ctx),
{
    law_refined_is_on_the_curve(t, p, ctx);
    law_refined_is_on_the_curve(t, q, ctx);
    law_stretch_monotone(p, q);
    lemma_line_monotone(t, ctx, stretch_of(p) + 2048, stretch_of(q) + 2048);
}

/// No part of the curve is steeper than 502 for 128.
proof fn lemma_steepest(i: int)
    requires
        0 <= i < 32,
    ensures
        0 <= KNOTS[i + 1] - KNOTS[i] <= 502,
        1 <= KNOTS[i] <= 4054,
        KNOTS[i + 1] <= 4054,
{
    if i < 8 {
        assert(i == 0 || i == 1 || i == 2 || i == 3 || i == 4 || i == 5 || i == 6 || i == 7);
    } else if i < 16 {
        assert(i == 8 || i == 9 || i == 10 || i == 11 || i == 12 || i == 13 || i == 14 || i == 15);
    } else if i < 24 {
        assert(i == 16 || i == 17 || i == 18 || i == 19 || i == 20 || i == 21 || i == 22 || i
            == 23);
    } else {
        assert(i == 24 || i == 25 || i == 26 || i == 27 || i == 28 || i == 29 || i == 30 || i
            == 31);
    }
}

/// One step along the curve is at most four units.
proof fn lemma_small_step(d: int)
    requires
        -2047 <= d < 2046,
    ensures
        squash_of(d + 1) <= squash_of(d) + 4,
{
    let s = d + 2048;
    let i = s / 128;
    let w = s % 128;
    lemma_steepest(i);
    law_squash_is_a_line(d);
    law_squash_is_a_line(d + 1);
    let a = KNOTS[i] as int;
    let b = KNOTS[i + 1] as int;
    if d == -2047 {
        assert(KNOTS[0] == 1 && KNOTS[1] == 2);
        let u: int = (d + 1 + 2048) % 128;
        assert((d + 1 + 2048) / 128 == 0 && u == 2);
        assert(KNOTS[0] * (128 - u) + KNOTS[1] * u == 130) by (nonlinear_arith)
            requires
                KNOTS[0] == 1,
                KNOTS[1] == 2,
                u == 2,
        ;
    } else if w < 127 {
        assert((s + 1) / 128 == i && (s + 1) % 128 == w + 1);
        assert(a * (128 - (w + 1)) + b * (w + 1) == a * (128 - w) + b * w + (b - a))
            by (nonlinear_arith);
    } else {
        assert((s + 1) / 128 == i + 1 && (s + 1) % 128 == 0);
        let c = KNOTS[i + 2] as int;
        let v = (s + 1) % 128;
        assert(b * (128 - v) == b * 128 && c * v == 0 && a * (128 - w) == a && b * w == b * 127)
            by (nonlinear_arith)
            requires
                v == 0,
                w == 127,
        ;
    }
}

/// Law: a new curve changes a probability by a few units only, in every context.
pub proof fn law_fresh_curves_change_little(nctx: nat, p: int, ctx: int)
    requires
        0 <= ctx < nctx,
        1 <= p <= 4054 || p == 4094,
    ensures
        p - 2 <= refined(fresh_curves(nctx), p, ctx) <= p + 3,
        p <= 4054 ==> refined(fresh_curves(nctx), p, ctx) <= 4054,
        p == 4094 ==> refined(fresh_curves(nctx), p, ctx) == 4094,
{
    let t = fresh_curves(nctx);
    let x = stretch_of(p);
    let s = x + 2048;
    let i = s / 128;
    let w = s % 128;
    law_refined_is_on_the_curve(t, p, ctx);
    law_stretch_inverts_squash(p, x);
    law_stretch_inverts_squash(p, -2047);
    if p == 4094 {
        law_squash_is_a_line(2046);
        law_squash_range(2046);
        law_stretch_inverts_squash(p, 2046);
        assert(x == 2047);
        law_fresh_curves(nctx, ctx, 31);
        law_fresh_curves(nctx, ctx, 32);
        law_squash_is_a_line(1920);
        assert(KNOTS[31] == 4054 && KNOTS[32] == 4054);
        assert(squash_of(1920) == 4054);
        assert(i == 31 && w == 127);
        law_squash_is_a_line(2048);
        assert(t[ctx * 33 + 31] == 16 * 4054 && t[ctx * 33 + 31 + 1] == 16 * 4095);
        let a = t[ctx * 33 + i] as int;
        let b = t[ctx * 33 + i + 1] as int;
        assert(line(t, ctx, s) == a * (128 - w) + b * w);
        assert(a * (128 - w) + b * w == 8_385_904) by (nonlinear_arith)
            requires
                a == 16 * 4054,
                b == 16 * 4095,
                w == 127,
        ;
    } else {
        assert(squash_of(1728) == 4054) by {
            law_squash_is_a_line(1728);
            assert(KNOTS[29] == 4053 && KNOTS[30] == 4054);
        }
        law_stretch_inverts_squash(p, 1728);
        assert(-2047 < x <= 1728);
        law_stretch_inverts_squash(p, x - 1);
        lemma_small_step(x - 1);
        law_squash_is_a_line(x);
        lemma_steepest(i);
        lemma_steepest(i + 1);
        law_fresh_curves(nctx, ctx, i);
        law_fresh_curves(nctx, ctx, i + 1);
        let a = KNOTS[i] as int;
        let b = KNOTS[i + 1] as int;
        law_squash_is_a_line(128 * i - 2048);
        law_squash_is_a_line(128 * (i + 1) - 2048);
        assert((128 * i) / 128 == i && (128 * i) % 128 == 0);
        assert((128 * (i + 1)) / 128 == i + 1 && (128 * (i + 1)) % 128 == 0);
        assert(KNOTS[i] * 128 + KNOTS[i + 1] * 0 == a * 128);
        assert(squash_of(128 * (i + 1) - 2048) == b) by {
            assert(KNOTS[i + 1] * 128 + KNOTS[i + 2] * 0 == b * 128);
        }
        let a0 = squash_of(128 * i - 2048);
        assert(i > 0 ==> a0 == a);
        assert(i == 0 ==> a0 == 0 && a == 1);
        assert(line(t, ctx, s) == 16 * (a0 * (128 - w) + b * w)) by (nonlinear_arith)
            requires
                line(t, ctx, s) == (16 * a0) * (128 - w) + (16 * b) * w,
        ;
        assert(a * (128 - w) - 128 <= a0 * (128 - w) <= a * (128 - w)) by (nonlinear_arith)
            requires
                a - 1 <= a0 <= a,
                0 <= w < 128,
        ;
        assert(a * (128 - w) + b * w <= 4054 * 128) by (nonlinear_arith)
            requires
                a <= 4054,
                b <= 4054,
                0 <= w < 128,
        ;
    }
}

} // verus!
