//! Laws of the arithmetic coder: what one bit does to the code, and what is read
//! from any input.

use crate::arith::{
    byte_at, code_of, coded, decided, decoded, encoded, is_open, is_span, narrowed, next_bit,
    read_through, shifted, undecided, window, Code, Reading, Span,
};
use crate::laws::bytes::pow256;
use vstd::prelude::*;

verus! {

/// The number that the bytes spell, the highest first.
pub open spec fn be_value(s: Seq<u8>) -> nat
    decreases s.len(),
{
    if s.len() == 0 {
        0
    } else {
        256 * be_value(s.drop_last()) + s.last() as nat
    }
}

/// Law: a bit splits the span into two parts that meet and cover it. The part of a 1
/// is as large, in proportion, as its probability, up to rounding down.
pub proof fn law_split(s: Span, p: int)
    requires
        0 <= s.lo < s.hi <= 0xFFFF_FFFF,
        0 <= p < 4096,
    ensures
        narrowed(s, true, p).lo == s.lo,
        narrowed(s, false, p).hi == s.hi,
        narrowed(s, false, p).lo == narrowed(s, true, p).hi + 1,
        s.lo <= narrowed(s, true, p).hi < s.hi,
        ({
            let n = narrowed(s, true, p).hi - s.lo;
            &&& 4096 * n <= (s.hi - s.lo) * p
            &&& (s.hi - s.lo) * p <= 4096 * n + 4095 * p
        }),
{
    let r = s.hi - s.lo;
    let q = r / 4096;
    assert(r == 4096 * q + r % 4096);
    assert(0 <= q * p < r && 4096 * (q * p) <= r * p && r * p <= 4096 * (q * p) + 4095 * p)
        by (nonlinear_arith)
        requires
            0 < r,
            0 <= p < 4096,
            0 <= q,
            4096 * q <= r <= 4096 * q + 4095,
    ;
}

/// The decided bytes and the rest of a span, behind the bytes `t`, are the span
/// itself at another scale.
proof fn lemma_scaled(s: Span)
    requires
        is_span(s),
    ensures
        is_open(undecided(s)),
        pow256(decided(s).len()) > 0,
        be_value(decided(s)) * 0x1_0000_0000 + undecided(s).lo == s.lo * pow256(decided(s).len()),
        be_value(decided(s)) * 0x1_0000_0000 + undecided(s).hi + 1 == (s.hi + 1) * pow256(
            decided(s).len(),
        ),
    decreases 0x1_0000_0000 - (s.hi - s.lo),
{
    let l = s.hi / 0x100_0000;
    if s.lo / 0x100_0000 == l {
        let t = shifted(s);
        lemma_scaled(t);
        let d = decided(t);
        let k = pow256(d.len()) as int;
        assert(decided(s) == seq![l as u8] + d);
        lemma_be_value_first(l as u8, d);
        assert(pow256(decided(s).len()) == 256 * k);
        let v = be_value(d) as int;
        assert(be_value(decided(s)) == l * k + v);
        let w: int = 0x1_0000_0000;
        assert(s.lo * 256 == l * w + t.lo && (s.hi + 1) * 256 == l * w + t.hi + 1);
        assert((l * k + v) * w + undecided(t).lo == s.lo * (256 * k) && (l * k + v) * w + undecided(
            t,
        ).hi + 1 == (s.hi + 1) * (256 * k)) by (nonlinear_arith)
            requires
                s.lo * 256 == l * w + t.lo,
                (s.hi + 1) * 256 == l * w + t.hi + 1,
                v * w + undecided(t).lo == t.lo * k,
                v * w + undecided(t).hi + 1 == (t.hi + 1) * k,
        ;
    } else {
        assert(be_value(decided(s)) == 0);
        assert(pow256(decided(s).len()) == 1);
    }
}

proof fn lemma_be_value_first(b: u8, s: Seq<u8>)
    ensures
        be_value(seq![b] + s) == b * pow256(s.len()) + be_value(s),
    decreases s.len(),
{
    let all = seq![b] + s;
    if s.len() == 0 {
        assert(all.drop_last() == Seq::<u8>::empty());
        assert(be_value(all.drop_last()) == 0);
        assert(pow256(0) == 1);
        assert(all.last() == b);
    } else {
        lemma_be_value_first(b, s.drop_last());
        assert(all.drop_last() == seq![b] + s.drop_last());
        let k = pow256((s.len() - 1) as nat) as int;
        assert(256 * (b * k) == b * (256 * k)) by (nonlinear_arith);
        assert(pow256(s.len()) == 256 * k);
    }
}

/// Law: coding a bit narrows the span to the bit's part, whatever was coded before.
/// The bytes on which all of that part agrees are written, and the rest of it is kept
/// at 256 times the scale for each of them, until its ends differ in the first byte.
pub proof fn law_one_bit(c: Code, bit: bool, p: int)
    requires
        is_open(c.span),
        0 <= p < 4096,
    ensures
        ({
            let part = narrowed(c.span, bit, p);
            let n = coded(c, bit, p);
            let new = n.bytes.skip(c.bytes.len() as int);
            &&& c.bytes.len() <= n.bytes.len()
            &&& n.bytes.take(c.bytes.len() as int) == c.bytes
            &&& be_value(new) * 0x1_0000_0000 + n.span.lo == part.lo * pow256(new.len())
            &&& be_value(new) * 0x1_0000_0000 + n.span.hi + 1 == (part.hi + 1) * pow256(new.len())
            &&& 0 <= n.span.lo < n.span.hi <= 0xFFFF_FFFF
            &&& n.span.lo / 0x100_0000 != n.span.hi / 0x100_0000
        }),
{
    let part = narrowed(c.span, bit, p);
    let n = coded(c, bit, p);
    law_split(c.span, p);
    lemma_scaled(part);
    assert(n.bytes.skip(c.bytes.len() as int) == decided(part));
    assert(n.bytes.take(c.bytes.len() as int) == c.bytes);
}

/// Law: the bits are coded one after the other, from no bytes and the span of all
/// 32-bit values; a code ends with the four bytes of the lowest value of its span.
pub proof fn law_code(bits: Seq<bool>, ps: Seq<u16>, bit: bool, p: u16)
    ensures
        code_of(Seq::empty(), Seq::empty()) == (Code {
            bytes: Seq::empty(),
            span: Span { lo: 0, hi: 0xFFFF_FFFF },
        }),
        code_of(bits.push(bit), ps.push(p)) == coded(code_of(bits, ps), bit, p as int),
        ({
            let c = code_of(bits, ps);
            let e = encoded(bits, ps);
            &&& e.len() == c.bytes.len() + 4
            &&& e.take(c.bytes.len() as int) == c.bytes
            &&& 0 <= c.span.lo <= 0xFFFF_FFFF ==> be_value(e.skip(c.bytes.len() as int))
                == c.span.lo
        }),
{
    assert(bits.push(bit).drop_last() == bits);
    assert(ps.push(p).drop_last() == ps);
    let c = code_of(bits, ps);
    let e = encoded(bits, ps);
    assert(e.take(c.bytes.len() as int) == c.bytes);
    let f = e.skip(c.bytes.len() as int);
    let x = c.span.lo;
    if 0 <= x <= 0xFFFF_FFFF {
        let f3 = f.drop_last();
        let f2 = f3.drop_last();
        let f1 = f2.drop_last();
        assert(f1.drop_last().len() == 0);
        assert(be_value(f1.drop_last()) == 0);
        assert(be_value(f1) == x / 0x100_0000);
        assert(be_value(f2) == 256 * be_value(f1) + f[1]);
        assert(be_value(f3) == 256 * be_value(f2) + f[2]);
        assert(be_value(f) == 256 * be_value(f3) + f[3]);
    }
}

/// Where the bytes from `at` on are those that a span decides, and the ones behind
/// them lie in what is left, all of them lie in the span; and the other way round.
proof fn lemma_window(s: Span, input: Seq<u8>, at: int)
    requires
        is_span(s),
        0 <= at,
        s.lo <= window(input, at) <= s.hi,
    ensures
        forall|i: int|
            0 <= i < decided(s).len() ==> byte_at(input, at + i) == #[trigger] decided(s)[i],
        undecided(s).lo <= window(input, at + decided(s).len()) <= undecided(s).hi,
    decreases 0x1_0000_0000 - (s.hi - s.lo),
{
    let l = s.hi / 0x100_0000;
    if s.lo / 0x100_0000 == l {
        let t = shifted(s);
        assert(0 <= byte_at(input, at) <= 255 && 0 <= byte_at(input, at + 1) <= 255 && 0 <= byte_at(
            input,
            at + 2,
        ) <= 255 && 0 <= byte_at(input, at + 3) <= 255 && 0 <= byte_at(input, at + 4) <= 255);
        assert(byte_at(input, at) == l);
        assert(t.lo <= window(input, at + 1) <= t.hi);
        lemma_window(t, input, at + 1);
        assert forall|i: int| 0 <= i < decided(s).len() implies byte_at(input, at + i)
            == #[trigger] decided(s)[i] by {
            if i > 0 {
                assert(decided(s)[i] == decided(t)[i - 1]);
                assert(byte_at(input, at + 1 + (i - 1)) == decided(t)[i - 1]);
            }
        }
    }
}

/// Law: whatever the input, what is read from it are bits whose code the input goes
/// on from: it starts with the bytes of that code, zeros standing in for missing
/// ones, and the next four bytes lie in the span that is left.
pub proof fn law_what_is_read(input: Seq<u8>, ps: Seq<u16>)
    requires
        forall|i: int| 0 <= i < ps.len() ==> ps[i] < 4096,
    ensures
        decoded(input, ps).len() == ps.len(),
        ({
            let c = code_of(decoded(input, ps), ps);
            let r = read_through(input, ps);
            &&& r == (Reading { input, at: c.bytes.len() as int, span: c.span })
            &&& is_open(c.span)
            &&& forall|i: int|
                0 <= i < c.bytes.len() ==> byte_at(input, i) == #[trigger] c.bytes[i]
            &&& c.span.lo <= window(input, c.bytes.len() as int) <= c.span.hi
        }),
    decreases ps.len(),
{
    if ps.len() == 0 {
        assert(0 <= byte_at(input, 0) <= 255 && 0 <= byte_at(input, 1) <= 255 && 0 <= byte_at(
            input,
            2,
        ) <= 255 && 0 <= byte_at(input, 3) <= 255);
    } else {
        let qs = ps.drop_last();
        let p = ps.last() as int;
        law_what_is_read(input, qs);
        let bits = decoded(input, qs);
        let c = code_of(bits, qs);
        let r = read_through(input, qs);
        let bit = next_bit(r, p);
        let part = narrowed(c.span, bit, p);
        law_split(c.span, p);
        assert(bits.push(bit).drop_last() == bits);
        assert(code_of(decoded(input, ps), ps) == coded(c, bit, p));
        lemma_window(part, input, r.at);
        lemma_scaled(part);
        let n = coded(c, bit, p);
        assert forall|i: int| 0 <= i < n.bytes.len() implies byte_at(input, i)
            == #[trigger] n.bytes[i] by {
            if i >= c.bytes.len() {
                assert(n.bytes[i] == decided(part)[i - c.bytes.len()]);
                assert(byte_at(input, r.at + (i - c.bytes.len())) == decided(part)[i
                    - c.bytes.len()]);
            }
        }
    }
}

} // verus!
