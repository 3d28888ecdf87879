//! Binary arithmetic coder (carry-free range coder, lpaq style).
//! Probabilities are 12-bit: p in 0..4096 is P(bit == 1).
//!
//! The coder keeps a span of 32-bit code values. Each bit splits the span in
//! two in proportion to its probability and keeps one part; the leading bytes
//! on which both ends of the span agree are final and leave the span.

use vstd::prelude::*;

verus! {

/// The code values from `lo` to `hi`, both ends included.
pub struct Span {
    pub lo: int,
    pub hi: int,
}

/// The span of all 32-bit code values.
pub open spec fn full_span() -> Span {
    Span { lo: 0, hi: 0xFFFF_FFFF }
}

/// The span holds at least one code value, and only 32-bit ones.
pub open spec fn is_span(s: Span) -> bool {
    0 <= s.lo <= s.hi <= 0xFFFF_FFFF
}

/// The leading byte of a 32-bit code value.
pub open spec fn lead(x: int) -> int {
    x / 0x100_0000
}

/// No byte of the code is decided yet: the two ends differ in the leading one.
pub open spec fn is_open(s: Span) -> bool {
    is_span(s) && lead(s.lo) != lead(s.hi)
}

/// The last code value of the part that stands for a 1.
pub open spec fn split(s: Span, p: int) -> int {
    s.lo + (s.hi - s.lo) / 4096 * p
}

/// The part of the span that stands for the bit.
pub open spec fn narrowed(s: Span, bit: bool, p: int) -> Span {
    if bit {
        Span { lo: s.lo, hi: split(s, p) }
    } else {
        Span { lo: split(s, p) + 1, hi: s.hi }
    }
}

/// The span of what may follow the leading byte, which both ends share.
pub open spec fn shifted(s: Span) -> Span {
    Span { lo: s.lo % 0x100_0000 * 256, hi: s.hi % 0x100_0000 * 256 + 255 }
}

/// The bytes that the span has decided.
pub open spec fn decided(s: Span) -> Seq<u8>
    decreases 0x1_0000_0000 - (s.hi - s.lo),
{
    if is_span(s) && lead(s.lo) == lead(s.hi) {
        seq![lead(s.hi) as u8] + decided(shifted(s))
    } else {
        Seq::empty()
    }
}

/// What is left of the span behind the bytes that it has decided.
pub open spec fn undecided(s: Span) -> Span
    decreases 0x1_0000_0000 - (s.hi - s.lo),
{
    if is_span(s) && lead(s.lo) == lead(s.hi) {
        undecided(shifted(s))
    } else {
        s
    }
}

/// A code under construction: the bytes written so far and the open span.
pub struct Code {
    pub bytes: Seq<u8>,
    pub span: Span,
}

/// The code before the first bit.
pub open spec fn empty_code() -> Code {
    Code { bytes: Seq::empty(), span: full_span() }
}

/// The code after one more bit.
pub open spec fn coded(c: Code, bit: bool, p: int) -> Code {
    let part = narrowed(c.span, bit, p);
    Code { bytes: c.bytes + decided(part), span: undecided(part) }
}

/// The code of the bits, each with the probability that stands at its index.
pub open spec fn code_of(bits: Seq<bool>, ps: Seq<u16>) -> Code
    decreases bits.len(),
{
    if bits.len() == 0 {
        empty_code()
    } else {
        coded(code_of(bits.drop_last(), ps.drop_last()), bits.last(), ps.last() as int)
    }
}

/// The four bytes of a 32-bit value, the leading one first.
pub open spec fn be_bytes(x: int) -> Seq<u8> {
    seq![
        (x / 0x100_0000 % 256) as u8,
        (x / 0x1_0000 % 256) as u8,
        (x / 0x100 % 256) as u8,
        (x % 256) as u8,
    ]
}

/// The finished code: any value of the open span would do, the lowest is taken.
pub open spec fn finished(c: Code) -> Seq<u8> {
    c.bytes + be_bytes(c.span.lo)
}

/// What the coder writes for the bits.
pub open spec fn encoded(bits: Seq<bool>, ps: Seq<u16>) -> Seq<u8> {
    finished(code_of(bits, ps))
}

/// The byte at an index; behind the end all bytes are zero.
pub open spec fn byte_at(s: Seq<u8>, i: int) -> int {
    if 0 <= i < s.len() {
        s[i] as int
    } else {
        0
    }
}

/// The 32-bit value of the four bytes from an index on.
pub open spec fn window(s: Seq<u8>, at: int) -> int {
    byte_at(s, at) * 0x100_0000 + byte_at(s, at + 1) * 0x1_0000 + byte_at(s, at + 2) * 0x100
        + byte_at(s, at + 3)
}

/// A code that is being read: where the undecided part starts, and its span.
pub struct Reading {
    pub input: Seq<u8>,
    pub at: int,
    pub span: Span,
}

/// The code before its first bit is read.
pub open spec fn unread(input: Seq<u8>) -> Reading {
    Reading { input, at: 0, span: full_span() }
}

/// The next bit that the code holds.
pub open spec fn next_bit(r: Reading, p: int) -> bool {
    window(r.input, r.at) <= split(r.span, p)
}

/// The code after its next bit was read.
pub open spec fn advanced(r: Reading, p: int) -> Reading {
    let part = narrowed(r.span, next_bit(r, p), p);
    Reading { input: r.input, at: r.at + decided(part).len(), span: undecided(part) }
}

/// The code after as many bits were read as there are probabilities.
pub open spec fn read_through(input: Seq<u8>, ps: Seq<u16>) -> Reading
    decreases ps.len(),
{
    if ps.len() == 0 {
        unread(input)
    } else {
        advanced(read_through(input, ps.drop_last()), ps.last() as int)
    }
}

/// The bits that the code holds, each with the probability at its index.
pub open spec fn decoded(input: Seq<u8>, ps: Seq<u16>) -> Seq<bool>
    decreases ps.len(),
{
    if ps.len() == 0 {
        Seq::empty()
    } else {
        decoded(input, ps.drop_last()).push(
            next_bit(read_through(input, ps.drop_last()), ps.last() as int),
        )
    }
}

/// Either part of an open span is a span of its own inside it.
proof fn lemma_narrowed(s: Span, bit: bool, p: int)
    requires
        is_span(s),
        s.lo < s.hi,
        0 <= p < 4096,
    ensures
        s.lo <= split(s, p) < s.hi,
        is_span(narrowed(s, bit, p)),
        s.lo <= narrowed(s, bit, p).lo,
        narrowed(s, bit, p).hi <= s.hi,
{
    let r = s.hi - s.lo;
    assert(0 <= r / 4096 * p < r) by (nonlinear_arith)
        requires
            0 < r,
            0 <= p < 4096,
    {
        assert(r / 4096 * 4096 <= r);
        assert(r / 4096 >= 0);
        if r / 4096 == 0 {
        } else {
            assert(r / 4096 * p < r / 4096 * 4096);
        }
    }
}

/// What follows the decided bytes is an open span.
proof fn lemma_undecided(s: Span)
    requires
        is_span(s),
    ensures
        is_open(undecided(s)),
        undecided(s).lo < undecided(s).hi,
    decreases 0x1_0000_0000 - (s.hi - s.lo),
{
    if lead(s.lo) == lead(s.hi) {
        lemma_undecided(shifted(s));
    }
}

proof fn lemma_lead_bits(x1: u32, x2: u32)
    ensures
        ((x1 ^ x2) & 0xFF00_0000 == 0) == (lead(x1 as int) == lead(x2 as int)),
        (x2 >> 24) as u8 == lead(x2 as int) as u8,
        x1 << 8 == x1 as int % 0x100_0000 * 256,
        (x2 << 8) | 0xFF == x2 as int % 0x100_0000 * 256 + 255,
{
    assert(((x1 ^ x2) & 0xFF00_0000 == 0) == (x1 / 0x100_0000 == x2 / 0x100_0000)) by (bit_vector);
    assert(x2 >> 24 == x2 / 0x100_0000) by (bit_vector);
    assert(x1 << 8 == x1 % 0x100_0000 * 256) by (bit_vector);
    assert((x2 << 8) | 0xFF == x2 % 0x100_0000 * 256 + 255) by (bit_vector);
}

/// The writing half of the coder.
pub struct Encoder {
    x1: u32,
    x2: u32,
    out: Vec<u8>,
}

impl View for Encoder {
    type V = Code;

    closed spec fn view(&self) -> Code {
        Code { bytes: self.out@, span: Span { lo: self.x1 as int, hi: self.x2 as int } }
    }
}

impl Encoder {
    /// The state of the coder between two bits.
    pub open spec fn wf(&self) -> bool {
        is_open(self@.span)
    }

    pub fn new() -> (e: Self)
        ensures
            e.wf(),
            e@ == empty_code(),
    {
        Encoder { x1: 0, x2: 0xFFFF_FFFF, out: Vec::new() }
    }

    /// Codes one bit, where `p` is the probability of a 1. Any `bit` but 0 is a 1.
    pub fn encode(&mut self, bit: u32, p: u16)
        requires
            old(self).wf(),
            p < 4096,
        ensures
            final(self).wf(),
            final(self)@ == coded(old(self)@, bit != 0, p as int),
    {
        let ghost span = self@.span;
        let ghost part = narrowed(span, bit != 0, p as int);
        proof {
            lemma_narrowed(span, bit != 0, p as int);
            lemma_undecided(part);
        }
        let range: u32 = self.x2 - self.x1;
        assert(range >> 12 == range / 4096) by (bit_vector);
        assert((range as int) / 4096 * (p as int) <= range) by {
            assert(split(span, p as int) <= span.hi);
        }
        let xmid: u32 = self.x1 + (range >> 12) * p as u32;
        if bit != 0 {
            self.x2 = xmid;
        } else {
            self.x1 = xmid + 1;
        }
        while (self.x1 ^ self.x2) & 0xFF00_0000 == 0
            invariant
                is_span(self@.span),
                undecided(self@.span) == undecided(part),
                self@.bytes + decided(self@.span) == old(self)@.bytes + decided(part),
            decreases 0x1_0000_0000 - (self.x2 - self.x1),
        {
            proof {
                lemma_lead_bits(self.x1, self.x2);
            }
            let ghost before = self@;
            self.out.push((self.x2 >> 24) as u8);
            self.x1 = self.x1 << 8;
            self.x2 = (self.x2 << 8) | 0xFF;
            assert(self@.bytes + decided(self@.span) == before.bytes + decided(before.span));
        }
        proof {
            lemma_lead_bits(self.x1, self.x2);
            assert(self@.bytes + decided(self@.span) == self@.bytes);
        }
    }

    /// Ends the code.
    pub fn finish(self) -> (out: Vec<u8>)
        requires
            self.wf(),
        ensures
            out@ == finished(self@),
    {
        let mut out = self.out;
        let x1: u32 = self.x1;
        proof {
            assert(x1 >> 24 == x1 / 0x100_0000) by (bit_vector);
            assert((x1 << 8) >> 24 == x1 / 0x1_0000 % 256) by (bit_vector);
            assert((x1 << 8 << 8) >> 24 == x1 / 0x100 % 256) by (bit_vector);
            assert((x1 << 8 << 8 << 8) >> 24 == x1 % 256) by (bit_vector);
        }
        let mut rest: u32 = x1;
        out.push((rest >> 24) as u8);
        rest = rest << 8;
        out.push((rest >> 24) as u8);
        rest = rest << 8;
        out.push((rest >> 24) as u8);
        rest = rest << 8;
        out.push((rest >> 24) as u8);
        assert(out@ == finished(self@));
        out
    }
}

/// The reading half of the coder.
pub struct Decoder<'a> {
    x1: u32,
    x2: u32,
    x: u32,
    input: &'a [u8],
    pos: usize,
    taken: Ghost<int>,
}

impl<'a> View for Decoder<'a> {
    type V = Reading;

    closed spec fn view(&self) -> Reading {
        Reading {
            input: self.input@,
            at: self.taken@ - 4,
            span: Span { lo: self.x1 as int, hi: self.x2 as int },
        }
    }
}

impl<'a> Decoder<'a> {
    /// The state of the coder between two bits.
    pub closed spec fn wf(&self) -> bool {
        &&& is_open(self@.span)
        &&& self.has_read()
        &&& self.x == window(self.input@, self.taken@ - 4)
        &&& self.x1 <= self.x <= self.x2
    }

    spec fn has_read(&self) -> bool {
        &&& 0 <= self.taken@
        &&& self.pos == if self.taken@ < self.input@.len() {
            self.taken@
        } else {
            self.input@.len() as int
        }
    }

    pub fn new(input: &'a [u8]) -> (d: Self)
        ensures
            d.wf(),
            d@ == unread(input@),
    {
        let mut d = Decoder { x1: 0, x2: 0xFFFF_FFFF, x: 0, input, pos: 0, taken: Ghost(0) };
        let b0: u8 = d.next_byte();
        let b1: u8 = d.next_byte();
        let b2: u8 = d.next_byte();
        let b3: u8 = d.next_byte();
        let x: u32 = 0;
        assert((((x << 8 | b0 as u32) << 8 | b1 as u32) << 8 | b2 as u32) << 8 | b3 as u32 == b0
            * 0x100_0000 + b1 * 0x1_0000 + b2 * 0x100 + b3) by (bit_vector)
            requires
                x == 0u32,
        ;
        d.x = (((x << 8 | b0 as u32) << 8 | b1 as u32) << 8 | b2 as u32) << 8 | b3 as u32;
        d
    }

    fn next_byte(&mut self) -> (b: u8)
        requires
            old(self).has_read(),
        ensures
            b == byte_at(old(self).input@, old(self).taken@),
            final(self).has_read(),
            final(self).taken@ == old(self).taken@ + 1,
            final(self).x1 == old(self).x1,
            final(self).x2 == old(self).x2,
            final(self).x == old(self).x,
            final(self).input == old(self).input,
    {
        self.taken = Ghost(self.taken@ + 1);
        if self.pos < self.input.len() {
            let b: u8 = self.input[self.pos];
            self.pos = self.pos + 1;
            b
        } else {
            0
        }
    }

    /// Reads one bit, where `p` is the probability of a 1 that it was coded with.
    pub fn decode(&mut self, p: u16) -> (bit: u32)
        requires
            old(self).wf(),
            p < 4096,
        ensures
            final(self).wf(),
            bit == if next_bit(old(self)@, p as int) { 1u32 } else { 0u32 },
            final(self)@ == advanced(old(self)@, p as int),
    {
        let ghost span = self@.span;
        let ghost one = next_bit(self@, p as int);
        let ghost part = narrowed(span, one, p as int);
        proof {
            lemma_narrowed(span, one, p as int);
            lemma_undecided(part);
        }
        let range: u32 = self.x2 - self.x1;
        assert(range >> 12 == range / 4096) by (bit_vector);
        assert((range as int) / 4096 * (p as int) <= range) by {
            assert(split(span, p as int) <= span.hi);
        }
        let xmid: u32 = self.x1 + (range >> 12) * p as u32;
        let bit: u32 = if self.x <= xmid { 1 } else { 0 };
        if bit != 0 {
            self.x2 = xmid;
        } else {
            self.x1 = xmid + 1;
        }
        while (self.x1 ^ self.x2) & 0xFF00_0000 == 0
            invariant
                is_span(self@.span),
                self.has_read(),
                self.x == window(self.input@, self.taken@ - 4),
                self.x1 <= self.x <= self.x2,
                self.input == old(self).input,
                undecided(self@.span) == undecided(part),
                self@.at + decided(self@.span).len() == old(self)@.at + decided(part).len(),
            decreases 0x1_0000_0000 - (self.x2 - self.x1),
        {
            proof {
                lemma_lead_bits(self.x1, self.x2);
            }
            let ghost before = *self;
            self.x1 = self.x1 << 8;
            self.x2 = (self.x2 << 8) | 0xFF;
            let b: u8 = self.next_byte();
            let x: u32 = self.x;
            assert(x << 8 | b as u32 == x % 0x100_0000 * 256 + b) by (bit_vector);
            self.x = x << 8 | b as u32;
        }
        proof {
            lemma_lead_bits(self.x1, self.x2);
        }
        bit
    }
}

/// The code starts with the bytes written so far and goes on inside the span.
pub open spec fn continues(code: Seq<u8>, c: Code) -> bool {
    &&& c.bytes.len() <= code.len()
    &&& code.take(c.bytes.len() as int) == c.bytes
    &&& c.span.lo <= window(code, c.bytes.len() as int) <= c.span.hi
}

/// A value behind the decided bytes lies in the undecided span only if the
/// value that starts with them lies in the span itself.
proof fn lemma_window_in_span(s: Span, code: Seq<u8>, at: int)
    requires
        is_span(s),
        0 <= at,
        at + decided(s).len() <= code.len(),
        code.subrange(at, at + decided(s).len()) == decided(s),
        undecided(s).lo <= window(code, at + decided(s).len()) <= undecided(s).hi,
    ensures
        s.lo <= window(code, at) <= s.hi,
    decreases 0x1_0000_0000 - (s.hi - s.lo),
{
    if lead(s.lo) == lead(s.hi) {
        let t = shifted(s);
        let tail = code.subrange(at + 1, at + 1 + decided(t).len());
        assert(tail == decided(t)) by {
            let all = code.subrange(at, at + decided(s).len());
            assert forall|i: int| 0 <= i < tail.len() implies tail[i] == decided(t)[i] by {
                assert(all[i + 1] == decided(s)[i + 1]);
            }
        }
        assert(code[at] == lead(s.hi) as u8) by {
            assert(code.subrange(at, at + decided(s).len())[0] == decided(s)[0]);
        }
        lemma_window_in_span(t, code, at + 1);
    }
}

/// A code that goes on behind a bit also goes on before it, in the part of the
/// span that stands for the bit.
proof fn lemma_continues_before(code: Seq<u8>, c: Code, bit: bool, p: int)
    requires
        is_open(c.span),
        0 <= p < 4096,
        continues(code, coded(c, bit, p)),
    ensures
        continues(code, c),
        ({
            let part = narrowed(c.span, bit, p);
            part.lo <= window(code, c.bytes.len() as int) <= part.hi
        }),
{
    let part = narrowed(c.span, bit, p);
    let next = coded(c, bit, p);
    let at = c.bytes.len() as int;
    lemma_narrowed(c.span, bit, p);
    assert(code.take(at) == c.bytes) by {
        assert(code.take(next.bytes.len() as int).take(at) == next.bytes.take(at));
        assert(code.take(at) == code.take(next.bytes.len() as int).take(at));
    }
    assert(code.subrange(at, at + decided(part).len()) == decided(part)) by {
        assert(code.take(next.bytes.len() as int).skip(at) == next.bytes.skip(at));
        assert(code.subrange(at, at + decided(part).len()) == code.take(
            next.bytes.len() as int,
        ).skip(at));
    }
    lemma_window_in_span(part, code, at);
}

/// The coder's span is open after every bit.
pub proof fn lemma_code_is_open(bits: Seq<bool>, ps: Seq<u16>)
    requires
        bits.len() == ps.len(),
        forall|i: int| 0 <= i < ps.len() ==> ps[i] < 4096,
    ensures
        is_open(code_of(bits, ps).span),
    decreases bits.len(),
{
    if bits.len() > 0 {
        lemma_code_is_open(bits.drop_last(), ps.drop_last());
        let c = code_of(bits.drop_last(), ps.drop_last());
        lemma_narrowed(c.span, bits.last(), ps.last() as int);
        lemma_undecided(narrowed(c.span, bits.last(), ps.last() as int));
    }
}

/// A code that goes on behind all of the bits goes on behind the first `n`.
pub proof fn lemma_continues_prefix(code: Seq<u8>, bits: Seq<bool>, ps: Seq<u16>, n: int)
    requires
        bits.len() == ps.len(),
        0 <= n <= bits.len(),
        forall|i: int| 0 <= i < ps.len() ==> ps[i] < 4096,
        continues(code, code_of(bits, ps)),
    ensures
        continues(code, code_of(bits.take(n), ps.take(n))),
    decreases bits.len(),
{
    if n == bits.len() {
        assert(bits.take(n) == bits);
        assert(ps.take(n) == ps);
    } else {
        lemma_code_is_open(bits.drop_last(), ps.drop_last());
        lemma_continues_before(
            code,
            code_of(bits.drop_last(), ps.drop_last()),
            bits.last(),
            ps.last() as int,
        );
        lemma_continues_prefix(code, bits.drop_last(), ps.drop_last(), n);
        assert(bits.drop_last().take(n) == bits.take(n));
        assert(ps.drop_last().take(n) == ps.take(n));
    }
}

/// A finished code goes on behind all of its bits.
pub proof fn lemma_finished_continues(bits: Seq<bool>, ps: Seq<u16>)
    requires
        bits.len() == ps.len(),
        forall|i: int| 0 <= i < ps.len() ==> ps[i] < 4096,
    ensures
        continues(encoded(bits, ps), code_of(bits, ps)),
{
    lemma_code_is_open(bits, ps);
    let c = code_of(bits, ps);
    let code = encoded(bits, ps);
    assert(code.take(c.bytes.len() as int) == c.bytes);
    assert(window(code, c.bytes.len() as int) == c.span.lo);
}

/// Reading a code that goes on behind the bits yields these bits and stops
/// where they end.
pub proof fn lemma_reads_back(code: Seq<u8>, bits: Seq<bool>, ps: Seq<u16>)
    requires
        bits.len() == ps.len(),
        forall|i: int| 0 <= i < ps.len() ==> ps[i] < 4096,
        continues(code, code_of(bits, ps)),
    ensures
        decoded(code, ps) == bits,
        read_through(code, ps) == (Reading {
            input: code,
            at: code_of(bits, ps).bytes.len() as int,
            span: code_of(bits, ps).span,
        }),
    decreases bits.len(),
{
    if bits.len() > 0 {
        let c = code_of(bits.drop_last(), ps.drop_last());
        lemma_code_is_open(bits.drop_last(), ps.drop_last());
        lemma_continues_before(code, c, bits.last(), ps.last() as int);
        lemma_reads_back(code, bits.drop_last(), ps.drop_last());
        assert(bits.drop_last().push(bits.last()) == bits);
    }
}

/// Law: reading what the coder wrote, with the same probabilities, gives back
/// the bits.
pub proof fn law_round_trip(bits: Seq<bool>, ps: Seq<u16>)
    requires
        bits.len() == ps.len(),
        forall|i: int| 0 <= i < ps.len() ==> ps[i] < 4096,
    ensures
        decoded(encoded(bits, ps), ps) == bits,
{
    lemma_finished_continues(bits, ps);
    lemma_reads_back(encoded(bits, ps), bits, ps);
}

/// A finished code goes on behind all of its bits, whatever follows it.
pub proof fn lemma_trailing_continues(bits: Seq<bool>, ps: Seq<u16>, tail: Seq<u8>)
    requires
        bits.len() == ps.len(),
        forall|i: int| 0 <= i < ps.len() ==> ps[i] < 4096,
    ensures
        continues(encoded(bits, ps) + tail, code_of(bits, ps)),
{
    lemma_finished_continues(bits, ps);
    let c = code_of(bits, ps);
    let code = encoded(bits, ps) + tail;
    assert(code.take(c.bytes.len() as int) == encoded(bits, ps).take(c.bytes.len() as int));
    assert(window(code, c.bytes.len() as int) == window(encoded(bits, ps), c.bytes.len() as int));
}

/// Law: bytes behind the end of a code do not change what is read from it.
pub proof fn law_trailing_bytes(bits: Seq<bool>, ps: Seq<u16>, tail: Seq<u8>)
    requires
        bits.len() == ps.len(),
        forall|i: int| 0 <= i < ps.len() ==> ps[i] < 4096,
    ensures
        decoded(encoded(bits, ps) + tail, ps) == bits,
{
    lemma_trailing_continues(bits, ps, tail);
    lemma_reads_back(encoded(bits, ps) + tail, bits, ps);
}

/// Law: a zero behind any input changes nothing, since missing bytes are read
/// as zeros.
pub proof fn law_zero_behind(input: Seq<u8>, ps: Seq<u16>)
    ensures
        decoded(input.push(0), ps) == decoded(input, ps),
        read_through(input, ps).input == input,
        read_through(input.push(0), ps) == (Reading {
            input: input.push(0),
            ..read_through(input, ps)
        }),
    decreases ps.len(),
{
    if ps.len() > 0 {
        law_zero_behind(input, ps.drop_last());
        let at = read_through(input, ps.drop_last()).at;
        assert(window(input.push(0), at) == window(input, at));
    }
}

} // verus!
