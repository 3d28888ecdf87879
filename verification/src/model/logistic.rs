//! The logistic curve and its inverse, in integers.
//!
//! A probability is a number from 0 to 4095. In the stretch domain it is a
//! number from -2047 to 2047, its log odds; there predictions can be summed.

use vstd::prelude::*;

verus! {

/// The curve at every 128th point from -2048 on.
pub const KNOTS: [i32; 33] = [
    1, 2, 3, 6, 10, 16, 27, 45, 73, 120, 194, 310, 488, 747, 1101, 1546, 2047, 2549, 2994, 3348,
    3607, 3785, 3901, 3968, 4010, 4032, 4045, 4050, 4052, 4053, 4054, 4054, 4054,
];

/// The point of the curve above `d`: a straight line from knot to knot, and
/// certainty behind either end.
pub open spec fn squash_of(d: int) -> int {
    if d >= 2047 {
        4095
    } else if d <= -2047 {
        0
    } else {
        let s = d + 2048;
        let w = s % 128;
        (KNOTS[s / 128] * (128 - w) + KNOTS[s / 128 + 1] * w + 64) / 128
    }
}

/// The smallest `x` from `from` on whose point of the curve is not below `p`.
pub open spec fn stretch_from(p: int, from: int) -> int
    decreases 2047 - from,
{
    if from >= 2047 || squash_of(from) >= p {
        from
    } else {
        stretch_from(p, from + 1)
    }
}

/// The log odds of `p`: where the curve first reaches it.
pub open spec fn stretch_of(p: int) -> int {
    stretch_from(p, -2047)
}

proof fn lemma_knots(i: int)
    requires
        0 <= i < 32,
    ensures
        1 <= KNOTS[i] <= KNOTS[i + 1] <= 4054,
{
    if i < 8 {
        assert(i == 0 || i == 1 || i == 2 || i == 3 || i == 4 || i == 5 || i == 6 || i == 7);
    } else if i < 16 {
        assert(i == 8 || i == 9 || i == 10 || i == 11 || i == 12 || i == 13 || i == 14 || i == 15);
    } else if i < 24 {
        assert(i == 16 || i == 17 || i == 18 || i == 19 || i == 20 || i == 21 || i == 22 || i
            == 23);
    } else {
        assert(i == 24 || i == 25 || i == 26 || i == 27 || i == 28 || i == 29 || i == 30 || i
            == 31);
    }
}

/// Law: the curve stays within the probabilities; only its ends are certain.
pub proof fn law_squash_range(d: int)
    ensures
        0 <= squash_of(d) <= 4095,
        -2047 < d < 2047 ==> 1 <= squash_of(d) <= 4054,
{
    if -2047 < d < 2047 {
        let s = d + 2048;
        let w = s % 128;
        let i = s / 128;
        lemma_knots(i);
        let a = KNOTS[i] as int;
        let b = KNOTS[i + 1] as int;
        assert(128 <= a * (128 - w) + b * w <= 4054 * 128) by (nonlinear_arith)
            requires
                1 <= a <= b <= 4054,
                0 <= w < 128,
        ;
    }
}

proof fn lemma_squash_step(d: int)
    ensures
        squash_of(d) <= squash_of(d + 1),
{
    law_squash_range(d);
    law_squash_range(d + 1);
    if -2047 < d && d + 1 < 2047 {
        let s = d + 2048;
        let w = s % 128;
        let i = s / 128;
        lemma_knots(i);
        let a = KNOTS[i] as int;
        let b = KNOTS[i + 1] as int;
        if w < 127 {
            assert((s + 1) % 128 == w + 1 && (s + 1) / 128 == i);
            assert(a * (128 - w) + b * w <= a * (128 - (w + 1)) + b * (w + 1)) by (nonlinear_arith)
                requires
                    a <= b,
            ;
        } else {
            assert((s + 1) % 128 == 0 && (s + 1) / 128 == i + 1);
            assert(a * (128 - w) == a && b * w == b * 127) by (nonlinear_arith)
                requires
                    w == 127,
            ;
            let c = KNOTS[i + 2] as int;
            let v = (s + 1) % 128;
            assert(b * (128 - v) == b * 128 && c * v == 0) by (nonlinear_arith)
                requires
                    v == 0,
            ;
            assert(squash_of(d + 1) == (b * 128 + 64) / 128);
        }
    }
}

/// Law: the curve never falls.
pub proof fn law_squash_monotone(d: int, e: int)
    requires
        d <= e,
    ensures
        squash_of(d) <= squash_of(e),
    decreases e - d,
{
    if d < e {
        lemma_squash_step(d);
        law_squash_monotone(d + 1, e);
    }
}

proof fn lemma_stretch_from(p: int, from: int)
    requires
        from <= 2047,
    ensures
        from <= stretch_from(p, from) <= 2047,
        p <= 4095 ==> squash_of(stretch_from(p, from)) >= p,
        forall|y: int| from <= y < stretch_from(p, from) ==> #[trigger] squash_of(y) < p,
    decreases 2047 - from,
{
    if !(from >= 2047 || squash_of(from) >= p) {
        lemma_stretch_from(p, from + 1);
    }
}

/// Law: the log odds of a probability are the smallest value that the curve
/// takes to it or above it.
pub proof fn law_stretch_inverts_squash(p: int, x: int)
    requires
        0 <= p <= 4095,
        -2047 <= x <= 2047,
    ensures
        -2047 <= stretch_of(p) <= 2047,
        squash_of(x) >= p <==> x >= stretch_of(p),
{
    lemma_stretch_from(p, -2047);
    if x >= stretch_of(p) {
        law_squash_monotone(stretch_of(p), x);
    }
}

/// Logistic squash: maps a stretch value in [-2047, 2047] to a 12-bit probability.
pub fn squash(d: i32) -> (p: i32)
    ensures
        p == squash_of(d as int),
        0 <= p <= 4095,
{
    if d >= 2047 {
        return 4095;
    }
    if d <= -2047 {
        return 0;
    }
    let s: i32 = d + 2048;
    let w: i32 = s % 128;
    let i: usize = (s / 128) as usize;
    proof {
        law_squash_range(d as int);
        lemma_knots(i as int);
        let a = KNOTS[i as int] as int;
        let b = KNOTS[i + 1] as int;
        assert(0 <= a * (128 - w) <= 4054 * 128 && 0 <= b * w <= 4054 * 128) by (nonlinear_arith)
            requires
                1 <= a <= b <= 4054,
                0 <= w < 128,
        ;
    }
    (KNOTS[i] * (128 - w) + KNOTS[i + 1] * w + 64) / 128
}

/// The table of the log odds of all probabilities.
pub fn build_stretch() -> (table: Vec<i16>)
    ensures
        is_stretch_table(table@),
{
    let mut table: Vec<i16> = Vec::with_capacity(4096);
    let mut x: i32 = -2047;
    proof {
        law_squash_range(-2047);
    }
    while x <= 2047
        invariant
            -2047 <= x <= 2048,
            table@.len() == if x == -2047 {
                0
            } else {
                squash_of(x - 1) + 1
            },
            forall|q: int| 0 <= q < table@.len() ==> #[trigger] table@[q] == stretch_of(q),
        decreases 2048 - x,
    {
        let v: usize = squash(x) as usize;
        proof {
            if x > -2047 {
                law_squash_monotone(x - 1, x as int);
            }
        }
        while table.len() <= v
            invariant
                -2047 <= x <= 2047,
                v == squash_of(x as int),
                v <= 4095,
                x > -2047 ==> squash_of(x - 1) < table@.len(),
                table@.len() <= v + 1,
                forall|q: int| 0 <= q < table@.len() ==> #[trigger] table@[q] == stretch_of(q),
            decreases v + 1 - table@.len(),
        {
            proof {
                let q = table@.len() as int;
                law_stretch_inverts_squash(q, x as int);
                if x > -2047 {
                    law_stretch_inverts_squash(q, x - 1);
                }
            }
            table.push(x as i16);
        }
        x = x + 1;
    }
    table
}

/// The table holds the log odds of each probability at its index.
pub open spec fn is_stretch_table(table: Seq<i16>) -> bool {
    &&& table.len() == 4096
    &&& forall|q: int| 0 <= q < 4096 ==> #[trigger] table[q] == stretch_of(q)
}

} // verus!
