//! Adaptive probabilities: the context tables, and the curves that refine a
//! mixed prediction.

use crate::model::logistic::{
    is_stretch_table, law_stretch_inverts_squash, squash, squash_of, stretch_of,
};
use vstd::prelude::*;

verus! {

/// The entries of a table, but for that of order 0.
pub const TABLE_SIZE: usize = 4_194_304;

/// The place of a context in its table: the hash of its bytes `a` and its number `b`.
pub open spec fn hash_of(a: u32, b: u32) -> int {
    let h = a.wrapping_mul(0x9E37_79B1) ^ b.wrapping_mul(0x85EB_CA77);
    (h ^ (h >> 15)) as int % TABLE_SIZE as int
}

/// The place of a context in its table.
pub fn hash(a: u32, b: u32) -> (i: usize)
    ensures
        i == hash_of(a, b),
        i < TABLE_SIZE,
{
    let h: u32 = a.wrapping_mul(0x9E37_79B1) ^ b.wrapping_mul(0x85EB_CA77);
    (h ^ (h >> 15)) as usize % TABLE_SIZE
}

/// The place of a longer context in its table.
pub open spec fn hash64_of(a: u64, b: u32) -> int {
    let h = a.wrapping_mul(0x9E37_79B9_7F4A_7C15) ^ (b as u64).wrapping_mul(0x85EB_CA77);
    (h ^ (h >> 29)) as int % TABLE_SIZE as int
}

/// The place of a longer context in its table.
pub fn hash64(a: u64, b: u32) -> (i: usize)
    ensures
        i == hash64_of(a, b),
        i < TABLE_SIZE,
{
    let h: u64 = a.wrapping_mul(0x9E37_79B9_7F4A_7C15) ^ (b as u64).wrapping_mul(0x85EB_CA77);
    ((h ^ (h >> 29)) % TABLE_SIZE as u64) as usize
}

/// RECIP[c] = 65536 / (c + 2)
pub const RECIP: [i32; 16] = [
    32768, 21845, 16384, 13107, 10922, 9362, 8192, 7281, 6553, 5957, 5461, 5041, 4681, 4369, 4096,
    3855,
];

proof fn lemma_recip(c: int)
    requires
        0 <= c < 16,
    ensures
        RECIP[c] == 65536int / (c + 2),
        0 < RECIP[c] <= 32768,
{
    assert(65536int / 2 == 32768 && 65536int / 3 == 21845 && 65536int / 4 == 16384);
    assert(65536int / 5 == 13107 && 65536int / 6 == 10922 && 65536int / 7 == 9362);
    assert(65536int / 8 == 8192 && 65536int / 9 == 7281 && 65536int / 10 == 6553);
    assert(65536int / 11 == 5957 && 65536int / 12 == 5461 && 65536int / 13 == 5041);
    assert(65536int / 14 == 4681 && 65536int / 15 == 4369 && 65536int / 16 == 4096);
    assert(65536int / 17 == 3855);
    if c < 8 {
        assert(c == 0 || c == 1 || c == 2 || c == 3 || c == 4 || c == 5 || c == 6 || c == 7);
    } else {
        assert(c == 8 || c == 9 || c == 10 || c == 11 || c == 12 || c == 13 || c == 14 || c == 15);
    }
}

/// Certainty of a bit, as a 12-bit probability of a 1.
pub open spec fn certainty(bit: bool) -> int {
    if bit {
        4096
    } else {
        0
    }
}

/// The probability in a table entry.
pub open spec fn entry_p(v: u16) -> int {
    v as int / 16
}

/// The confidence count in a table entry.
pub open spec fn entry_count(v: u16) -> int {
    v as int % 16
}

/// The probability after one more bit: it goes a part of the way to certainty,
/// the smaller the higher the count is.
pub open spec fn learned_p(v: u16, bit: bool) -> int {
    entry_p(v) + (certainty(bit) - entry_p(v)) * (65536int / (entry_count(v) + 2)) / 65536
}

/// A table entry after one more bit.
pub open spec fn learned(v: u16, bit: bool) -> u16 {
    let count = if entry_count(v) < 15 {
        entry_count(v) + 1
    } else {
        15
    };
    (learned_p(v, bit) * 16 + count) as u16
}

/// Law: a learned probability keeps to 12 bits, and learning a bit never makes
/// it less likely.
pub proof fn law_learned(v: u16, bit: bool)
    ensures
        0 <= learned_p(v, bit) <= 4095,
        entry_p(learned(v, bit)) == learned_p(v, bit),
        bit ==> learned_p(v, bit) >= entry_p(v),
        !bit ==> learned_p(v, bit) <= entry_p(v),
{
    let p = entry_p(v);
    let c = entry_count(v);
    let r = 65536int / (c + 2);
    lemma_recip(c);
    if bit {
        assert(0 <= (4096 - p) * r / 65536 <= (4096 - p) / 2) by (nonlinear_arith)
            requires
                0 <= p <= 4095,
                0 < r <= 32768,
        {
            assert(0 <= (4096 - p) * r <= (4096 - p) * 32768);
        }
    } else {
        assert(-p <= (0 - p) * r / 65536 <= 0) by (nonlinear_arith)
            requires
                0 <= p <= 4095,
                0 < r <= 32768,
        {
            assert(-p * 32768 <= (0 - p) * r <= 0);
        }
    }
}

/// Adaptive bit model: a 12-bit probability packed with a 4-bit confidence
/// count in one u16, so each model touches a single cache line per bit.
/// The count slows the learning rate as evidence accumulates; the divide is
/// replaced by a reciprocal multiply.
pub struct CtxTable {
    t: Vec<u16>,
}

impl View for CtxTable {
    type V = Seq<u16>;

    closed spec fn view(&self) -> Seq<u16> {
        self.t@
    }
}

/// A table of even odds without any evidence.
pub open spec fn fresh_table(size: nat) -> Seq<u16> {
    Seq::new(size, |i: int| 0x8000u16)
}

impl CtxTable {
    /// A table without any evidence.
    pub fn new(size: usize) -> (c: Self)
        ensures
            c@ == fresh_table(size as nat),
    {
        let t: Vec<u16> = vec![0x8000; size];
        assert(t@ == fresh_table(size as nat));
        CtxTable { t }
    }

    /// The probability of a 1 at a place.
    pub fn prob(&self, idx: usize) -> (p: usize)
        requires
            idx < self@.len(),
        ensures
            p == entry_p(self@[idx as int]),
            p <= 4095,
    {
        (self.t[idx] / 16) as usize
    }

    /// Learns the bit at a place.
    pub fn update(&mut self, idx: usize, bit: u32)
        requires
            idx < old(self)@.len(),
            bit <= 1,
        ensures
            final(self)@ == old(self)@.update(
                idx as int,
                learned(old(self)@[idx as int], bit != 0),
            ),
    {
        let v: u16 = self.t[idx];
        let p: i32 = (v / 16) as i32;
        let c: i32 = (v % 16) as i32;
        assert(bit << 12 == bit * 4096) by (bit_vector)
            requires
                bit <= 1,
        ;
        let target: i32 = (bit << 12) as i32;
        proof {
            lemma_recip(c as int);
            law_learned(v, bit != 0);
            let r = RECIP[c as int] as int;
            assert(-0x800_0000 <= (target - p) * r <= 0x800_0000) by (nonlinear_arith)
                requires
                    -4096 <= target - p <= 4096,
                    0 < r <= 32768,
            ;
        }
        let step: i32 = (target - p) * RECIP[c as usize];
        assert(step >> 16 == step / 65536) by (bit_vector);
        let np: i32 = p + (step >> 16);
        let nc: i32 = if c < 15 { c + 1 } else { 15 };
        self.t[idx] = np as u16 * 16 + nc as u16;
    }
}

/// The first of the 33 points of a context's curve, and how far the point of
/// `p` lies behind it, in parts of 128.
pub open spec fn curve_bin(p: int) -> int {
    (stretch_of(p) + 2048) / 128
}

pub open spec fn curve_weight(p: int) -> int {
    (stretch_of(p) + 2048) % 128
}

/// The refined probability: the curve of the context at `p`, in a straight line
/// from point to point.
pub open spec fn refined(t: Seq<u16>, p: int, ctx: int) -> int {
    let base = ctx * 33 + curve_bin(p);
    (t[base] * (128 - curve_weight(p)) + t[base + 1] * curve_weight(p)) / 2048
}

/// The point of the curve that is nearer to `p`.
pub open spec fn nearer_cell(p: int, ctx: int) -> int {
    ctx * 33 + curve_bin(p) + if curve_weight(p) >= 64 {
        1int
    } else {
        0int
    }
}

/// A point of a curve after one more bit: a 32nd of the way to certainty.
pub open spec fn drifted(v: u16, bit: bool) -> u16 {
    (v + (certainty(bit) * 16 - v) / 32) as u16
}

/// Law: a point of a curve keeps to 16 bits, and learning a bit never makes it
/// less likely.
pub proof fn law_drifted(v: u16, bit: bool)
    ensures
        drifted(v, bit) == v + (certainty(bit) * 16 - v) / 32,
        bit ==> drifted(v, bit) >= v,
        !bit ==> drifted(v, bit) <= v,
{
}

/// The curves before any evidence: each is the logistic curve itself.
pub open spec fn fresh_curves(nctx: nat) -> Seq<u16> {
    Seq::new(nctx * 33, |i: int| (squash_of((i % 33 - 16) * 128) * 16) as u16)
}

proof fn lemma_curve_bin(p: int)
    requires
        0 <= p <= 4095,
    ensures
        0 <= curve_bin(p) <= 31,
        0 <= curve_weight(p) < 128,
        1 <= stretch_of(p) + 2048 <= 4095,
{
    law_stretch_inverts_squash(p, 0);
}

/// One SSE/APM stage: a learned refinement curve per context, interpolated
/// across 33 bins in the stretch domain.
pub struct Apm {
    t: Vec<u16>,
    cell: usize,
}

impl Apm {
    /// The points of all curves.
    pub closed spec fn curves(&self) -> Seq<u16> {
        self.t@
    }

    /// The point that learns the next bit.
    pub closed spec fn cell(&self) -> int {
        self.cell as int
    }

    /// The remembered point is one of the curves' points.
    pub open spec fn wf(&self) -> bool {
        0 <= self.cell() < self.curves().len()
    }

    /// Curves without any evidence.
    pub fn new(nctx: usize) -> (a: Self)
        requires
            0 < nctx,
            nctx * 33 <= usize::MAX,
        ensures
            a.wf(),
            a.curves() == fresh_curves(nctx as nat),
            a.cell() == 0,
    {
        let mut t: Vec<u16> = Vec::new();
        let mut n: usize = 0;
        while n < nctx
            invariant
                n <= nctx,
                nctx * 33 <= usize::MAX,
                t@ == fresh_curves(n as nat),
            decreases nctx - n,
        {
            let mut i: i32 = 0;
            let ghost done = t@;
            while i < 33
                invariant
                    0 <= i <= 33,
                    n < nctx,
                    done == fresh_curves(n as nat),
                    t@.len() == n * 33 + i,
                    forall|k: int|
                        0 <= k < t@.len() ==> #[trigger] t@[k] == (squash_of((k % 33 - 16) * 128)
                            * 16) as u16,
                decreases 33 - i,
            {
                proof {
                    let k = n * 33 + i;
                    assert(k % 33 == i);
                }
                t.push((squash((i - 16) * 128) * 16) as u16);
                i = i + 1;
            }
            n = n + 1;
            assert(t@ == fresh_curves(n as nat));
        }
        Apm { t, cell: 0 }
    }

    /// Refines the probability `p` in a context, and remembers the nearer point
    /// of its curve.
    pub fn refine(&mut self, p: i32, ctx: usize, stretch: &Vec<i16>) -> (r: i32)
        requires
            old(self).wf(),
            0 <= p <= 4095,
            ctx * 33 + 33 <= old(self).curves().len(),
            is_stretch_table(stretch@),
        ensures
            final(self).wf(),
            final(self).curves() == old(self).curves(),
            final(self).cell() == nearer_cell(p as int, ctx as int),
            r == refined(old(self).curves(), p as int, ctx as int),
            0 <= r <= 4095,
    {
        proof {
            lemma_curve_bin(p as int);
            assert(self.t@.len() == self.t.len());
        }
        let s: i32 = stretch[p as usize] as i32 + 2048;
        let bin: usize = (s / 128) as usize;
        let w: i32 = s % 128;
        let base: usize = ctx * 33 + bin;
        self.cell = base + if w >= 64 { 1 } else { 0 };
        let a: i32 = self.t[base] as i32;
        let b: i32 = self.t[base + 1] as i32;
        assert(0 <= a * (128 - w) + b * w <= 65535 * 128 && 0 <= a * (128 - w) <= 65535 * 128 && 0
            <= b * w) by (nonlinear_arith)
            requires
                0 <= a <= 65535,
                0 <= b <= 65535,
                0 <= w < 128,
        ;
        (a * (128 - w) + b * w) / 2048
    }

    /// Teaches the remembered point the bit.
    pub fn update(&mut self, bit: u32)
        requires
            old(self).wf(),
            bit <= 1,
        ensures
            final(self).wf(),
            final(self).cell() == old(self).cell(),
            final(self).curves() == old(self).curves().update(
                old(self).cell(),
                drifted(old(self).curves()[old(self).cell()], bit != 0),
            ),
    {
        let v: i32 = self.t[self.cell] as i32;
        assert(bit << 16 == bit * 65536) by (bit_vector)
            requires
                bit <= 1,
        ;
        let target: i32 = (bit << 16) as i32;
        let step: i32 = target - v;
        assert(step >> 5 == step / 32) by (bit_vector);
        self.t[self.cell] = (v + (step >> 5)) as u16;
    }
}

} // verus!
