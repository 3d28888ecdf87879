//! "AI mode": an online-learning neural context-mixing compressor.
//!
//! Eleven predictors feed a two-layer neural mixer network:
//!   - nine context models (orders 0-6, a word model, and a sparse/gap
//!     model that skips the most recent byte),
//!   - a match model that follows the last occurrence of the current
//!     context through history,
//!   - a byte predictor of the network's own, folded down to per-bit
//!     probabilities.
//!
//! Layer 1 is three mixer banks selected by different contexts (partial
//! byte, previous byte, match state); layer 2 mixes their outputs. The
//! final probability is refined by a two-stage SSE/APM chain before
//! hitting the arithmetic coder. The network itself is given from outside,
//! see `network`.

pub mod context;
pub mod logistic;
pub mod mixer;
pub mod network;
pub mod tables;

use crate::arith;
use crate::model::context::{byte_bit, recent, sentinel};
use crate::model::mixer::{
    asked, byte_done, initial, lemma_predicted, lemma_told, match_place, may_hear, may_predict,
    predicted, reply, same_context, taught, told, updated, whole_byte, Mixer, Model, MATCH_SIZE,
};
use crate::model::network::{deterministic, Network};
use vstd::prelude::*;

verus! {

/// The bits of the data, the highest of each byte first.
pub open spec fn bits_of(data: Seq<u8>) -> Seq<bool> {
    Seq::new(8 * data.len(), |k: int| byte_bit(data[k / 8], k % 8))
}

/// The bytes that the bits make up, eight by eight.
pub open spec fn bytes_of(bits: Seq<bool>) -> Seq<u8> {
    Seq::new(bits.len() / 8, |i: int| whole_byte(bits.subrange(8 * i, 8 * i + 8)))
}

/// The model and the network that it works with.
pub struct Run<N> {
    pub model: Model,
    pub net: N,
}

/// The model and the network after these bits, each predicted and then learned.
/// At first the model is new, and the network is `net`, a deterministic one.
pub open spec fn run<N: Network>(bits: Seq<bool>, net: N) -> Run<N>
    decreases bits.len(),
{
    if bits.len() == 0 {
        Run { model: initial(), net }
    } else {
        let r = run(bits.drop_last(), net);
        let m = predicted(r.model, reply(r.model, r.net));
        Run {
            model: updated(m, bits.last()),
            net: told(m, asked(r.model, r.net), bits.last()),
        }
    }
}

/// The probability of a 1 that is predicted after these bits.
pub open spec fn next_p<N: Network>(bits: Seq<bool>, net: N) -> u16 {
    let r = run(bits, net);
    predicted(r.model, reply(r.model, r.net)).last.p as u16
}

/// The probabilities of a 1 with which the bits are coded.
pub open spec fn probabilities<N: Network>(bits: Seq<bool>, net: N) -> Seq<u16>
    decreases bits.len(),
{
    if bits.len() == 0 {
        Seq::empty()
    } else {
        probabilities(bits.drop_last(), net).push(next_p(bits.drop_last(), net))
    }
}

/// The payload that stands for the data.
pub open spec fn compressed<N: Network>(data: Seq<u8>, net: N) -> Seq<u8> {
    arith::encoded(bits_of(data), probabilities(bits_of(data), net))
}

/// The first `n` bits that the payload holds.
pub open spec fn read_bits<N: Network>(payload: Seq<u8>, n: nat, net: N) -> Seq<bool>
    decreases n,
{
    if n == 0 {
        Seq::empty()
    } else {
        let bits = read_bits(payload, (n - 1) as nat, net);
        bits.push(
            arith::next_bit(
                arith::read_through(payload, probabilities(bits, net)),
                next_p(bits, net) as int,
            ),
        )
    }
}

/// The first `n` bytes that the payload holds.
pub open spec fn decompressed<N: Network>(payload: Seq<u8>, n: nat, net: N) -> Seq<u8> {
    bytes_of(read_bits(payload, 8 * n, net))
}

/// Probabilities for `n` bits that leave both values of each possible.
pub open spec fn are_open(ps: Seq<u16>, n: nat) -> bool {
    &&& ps.len() == n
    &&& forall|i: int| 0 <= i < n ==> 1 <= #[trigger] ps[i] <= 4094
}

/// The payload codes the bits of the data with some probabilities, be the network
/// deterministic or not.
pub open spec fn codes(payload: Seq<u8>, data: Seq<u8>) -> bool {
    exists|ps: Seq<u16>| #[trigger]
        are_open(ps, 8 * data.len()) && payload == arith::encoded(bits_of(data), ps)
}

/// The bits of the output are read from the payload with some probabilities, be
/// the network deterministic or not.
pub open spec fn reads(payload: Seq<u8>, out: Seq<u8>) -> bool {
    exists|ps: Seq<u16>| #[trigger]
        are_open(ps, 8 * out.len()) && bits_of(out) == arith::decoded(payload, ps)
}

/// One more bit, as a deterministic network goes through it.
proof fn lemma_step<N: Network>(bits: Seq<bool>, net: N, r: Run<N>, p: u16, m: Model, n: N)
    requires
        deterministic::<N>(),
        r == run(bits, net),
        may_predict(r.model, r.net, m, n),
        p == m.last.p,
    ensures
        p == next_p(bits, net),
        forall|bit: bool, after: N| #[trigger]
            may_hear(m, n, bit, after) ==> run(bits.push(bit), net) == (Run {
                model: updated(m, bit),
                net: after,
            }),
        forall|bit: bool| #[trigger]
            probabilities(bits.push(bit), net) == probabilities(bits, net).push(p),
{
    lemma_predicted(r.model, r.net, m, n);
    assert forall|bit: bool, after: N| #[trigger] may_hear(m, n, bit, after) implies run(
        bits.push(bit),
        net,
    ) == (Run { model: updated(m, bit), net: after }) by {
        lemma_told(m, n, bit, after);
        assert(bits.push(bit).drop_last() == bits);
    }
    assert forall|bit: bool| #[trigger]
        probabilities(bits.push(bit), net) == probabilities(bits, net).push(p) by {
        assert(bits.push(bit).drop_last() == bits);
    }
}

/// Compresses the data, one bit at a time.
pub fn compress<N: Network>(data: &[u8], net: N) -> (out: Vec<u8>)
    ensures
        deterministic::<N>() ==> out@ == compressed(data@, net),
        codes(out@, data@),
{
    let mut mixer: Mixer = Mixer::new();
    let mut enc: arith::Encoder = arith::Encoder::new();
    let mut now: N = net;
    let ghost det = deterministic::<N>();
    let ghost all = bits_of(data@);
    let ghost mut ps: Seq<u16> = Seq::empty();
    let mut i: usize = 0;
    assert(all.take(0) == Seq::<bool>::empty());
    while i < data.len()
        invariant
            i <= data@.len(),
            all == bits_of(data@),
            det == deterministic::<N>(),
            mixer.wf(),
            enc.wf(),
            det ==> run(all.take(8 * i), net) == (Run { model: mixer@, net: now }),
            det ==> ps == probabilities(all.take(8 * i), net),
            are_open(ps, (8 * i) as nat),
            enc@ == arith::code_of(all.take(8 * i), ps),
        decreases data@.len() - i,
    {
        let byte: u8 = data[i];
        let mut k: u8 = 8;
        while k > 0
            invariant
                k <= 8,
                i < data@.len(),
                byte == data@[i as int],
                all == bits_of(data@),
                det == deterministic::<N>(),
                mixer.wf(),
                enc.wf(),
                det ==> run(all.take(8 * i + 8 - k), net) == (Run { model: mixer@, net: now }),
                det ==> ps == probabilities(all.take(8 * i + 8 - k), net),
                are_open(ps, (8 * i + 8 - k) as nat),
                enc@ == arith::code_of(all.take(8 * i + 8 - k), ps),
            decreases k,
        {
            let ghost n = 8 * i + 8 - k;
            let ghost done = all.take(n);
            k = k - 1;
            assert((byte >> k) & 1 <= 1) by (bit_vector);
            let bit: u32 = ((byte >> k) & 1) as u32;
            let ghost before = Run { model: mixer@, net: now };
            let (p, asked): (u16, N) = mixer.predict(now);
            proof {
                assert(n / 8 == i && n % 8 == 7 - k);
                assert(all[n] == (bit != 0));
                assert(all.take(n + 1) == done.push(bit != 0));
                assert(done.push(bit != 0).drop_last() == done);
                assert(ps.push(p).drop_last() == ps);
                if det {
                    lemma_step(done, net, before, p, mixer@, asked);
                    assert(probabilities(done.push(bit != 0), net) == ps.push(p));
                }
                ps = ps.push(p);
            }
            enc.encode(bit, p);
            now = mixer.update(bit, asked);
        }
        i = i + 1;
    }
    assert(all.take(8 * i) == all);
    enc.finish()
}

/// Bit `n` of a number, the lowest being bit 0.
spec fn low_bit(x: u32, n: u32) -> bool {
    (x >> n) & 1 == 1
}

/// How the bits of a number move up when a new one comes in.
proof fn lemma_shift_in(x: u32, bit: u32, n: u32)
    requires
        bit <= 1,
        n < 31,
    ensures
        low_bit((x << 1) | bit, 0) == (bit == 1),
        low_bit((x << 1) | bit, (n + 1) as u32) == low_bit(x, n),
{
    assert((((x << 1) | bit) >> 0) & 1 == bit) by (bit_vector)
        requires
            bit <= 1,
    ;
    let m = (n + 1) as u32;
    assert((((x << 1) | bit) >> m) & 1 == (x >> n) & 1) by (bit_vector)
        requires
            bit <= 1,
            n < 31,
            m == n + 1,
    ;
}

/// The bits of a byte are those of the number that it was made from.
proof fn lemma_byte_bits(x: u32, n: int)
    requires
        x < 256,
        0 <= n < 8,
    ensures
        byte_bit(x as u8, n) == low_bit(x, (7 - n) as u32),
{
    let s = (7 - n) as u8;
    let t = (7 - n) as u32;
    let b = x as u8;
    assert((b >> s) & 1 == 1 <==> (x >> t) & 1 == 1) by (bit_vector)
        requires
            x < 256,
            b == x as u8,
            s < 8,
            t == s,
    ;
}

/// Restores `orig_len` bytes of data, one bit at a time.
pub fn decompress<N: Network>(payload: &[u8], orig_len: usize, net: N) -> (out: Vec<u8>)
    ensures
        out@.len() == orig_len,
        deterministic::<N>() ==> out@ == decompressed(payload@, orig_len as nat, net),
        reads(payload@, out@),
{
    let mut mixer: Mixer = Mixer::new();
    let mut dec: arith::Decoder = arith::Decoder::new(payload);
    let mut out: Vec<u8> = Vec::new();
    let mut now: N = net;
    let ghost det = deterministic::<N>();
    let ghost mut ps: Seq<u16> = Seq::empty();
    assert(bits_of(out@) == Seq::<bool>::empty());
    while out.len() < orig_len
        invariant
            out@.len() <= orig_len,
            mixer.wf(),
            dec.wf(),
            det == deterministic::<N>(),
            det ==> bits_of(out@) == read_bits(payload@, 8 * out@.len(), net),
            det ==> run(bits_of(out@), net) == (Run { model: mixer@, net: now }),
            det ==> ps == probabilities(bits_of(out@), net),
            are_open(ps, 8 * out@.len()),
            bits_of(out@) == arith::decoded(payload@, ps),
            dec@ == arith::read_through(payload@, ps),
        decreases orig_len - out@.len(),
    {
        let ghost start = bits_of(out@);
        let ghost mut bits = start;
        let mut byte: u32 = 0;
        let mut k: u32 = 0;
        while k < 8
            invariant
                k <= 8,
                start.len() == 8 * out@.len(),
                bits.len() == start.len() + k,
                mixer.wf(),
                dec.wf(),
                det == deterministic::<N>(),
                det ==> bits == read_bits(payload@, bits.len(), net),
                det ==> run(bits, net) == (Run { model: mixer@, net: now }),
                det ==> ps == probabilities(bits, net),
                are_open(ps, bits.len()),
                bits == arith::decoded(payload@, ps),
                dec@ == arith::read_through(payload@, ps),
                bits.take(start.len() as int) == start,
                k == 0 ==> byte == 0,
                byte < 256,
                k < 8 ==> byte < 128,
                k < 7 ==> byte < 64,
                k < 6 ==> byte < 32,
                k < 5 ==> byte < 16,
                k < 4 ==> byte < 8,
                k < 3 ==> byte < 4,
                k < 2 ==> byte < 2,
                forall|t: int|
                    0 <= t < k ==> #[trigger] bits[start.len() + t] == low_bit(
                        byte,
                        (k - 1 - t) as u32,
                    ),
            decreases 8 - k,
        {
            let ghost run_before = Run { model: mixer@, net: now };
            let (p, asked): (u16, N) = mixer.predict(now);
            proof {
                if det {
                    lemma_step(bits, net, run_before, p, mixer@, asked);
                }
            }
            let bit: u32 = dec.decode(p);
            now = mixer.update(bit, asked);
            let ghost before = byte;
            assert((byte << 1) | bit == byte * 2 + bit) by (bit_vector)
                requires
                    byte < 128,
                    bit <= 1,
            ;
            byte = (byte << 1) | bit;
            proof {
                let more = bits.push(bit != 0);
                assert(ps.push(p).drop_last() == ps);
                if det {
                    assert(probabilities(more, net) == ps.push(p));
                    assert(read_bits(payload@, more.len(), net) == more);
                }
                ps = ps.push(p);
                assert(more.take(start.len() as int) == bits.take(start.len() as int));
                assert forall|t: int| 0 <= t < k + 1 implies #[trigger] more[start.len() + t]
                    == low_bit(byte, (k - t) as u32) by {
                    if t < k {
                        assert(bits[start.len() + t] == low_bit(before, (k - 1 - t) as u32));
                        lemma_shift_in(before, bit, (k - 1 - t) as u32);
                    } else {
                        lemma_shift_in(before, bit, 0);
                    }
                }
                bits = more;
            }
            k = k + 1;
        }
        let ghost whole = out@;
        out.push(byte as u8);
        proof {
            assert forall|j: int| 0 <= j < bits.len() implies #[trigger] bits_of(out@)[j]
                == bits[j] by {
                if j < start.len() {
                    assert(bits_of(out@)[j] == start[j]);
                    assert(bits.take(start.len() as int)[j] == bits[j]);
                } else {
                    let t = j - start.len();
                    assert(j / 8 == whole.len() && j % 8 == t);
                    lemma_byte_bits(byte, t);
                    assert(bits[start.len() + t] == low_bit(byte, (7 - t) as u32));
                }
            }
            assert(bits_of(out@) == bits);
        }
    }
    proof {
        law_bytes_of_bits(out@);
    }
    out
}

/// The byte that the eight bits of a byte make up is that byte.
proof fn lemma_whole_byte(b: u8, bits: Seq<bool>)
    requires
        bits.len() == 8,
        forall|n: int| 0 <= n < 8 ==> #[trigger] bits[n] == byte_bit(b, n),
    ensures
        whole_byte(bits) == b,
{
    reveal_with_fuel(sentinel, 9);
    assert(bits[0] == byte_bit(b, 0) && bits[1] == byte_bit(b, 1) && bits[2] == byte_bit(b, 2));
    assert(bits[3] == byte_bit(b, 3) && bits[4] == byte_bit(b, 4) && bits[5] == byte_bit(b, 5));
    assert(bits[6] == byte_bit(b, 6) && bits[7] == byte_bit(b, 7));
    assert(b == 128 * ((b >> 7) & 1) + 64 * ((b >> 6) & 1) + 32 * ((b >> 5) & 1) + 16 * ((b >> 4)
        & 1) + 8 * ((b >> 3) & 1) + 4 * ((b >> 2) & 1) + 2 * ((b >> 1) & 1) + ((b >> 0) & 1))
        by (bit_vector);
    assert((b >> 7) & 1 <= 1 && (b >> 6) & 1 <= 1 && (b >> 5) & 1 <= 1 && (b >> 4) & 1 <= 1 && (b
        >> 3) & 1 <= 1 && (b >> 2) & 1 <= 1 && (b >> 1) & 1 <= 1 && (b >> 0) & 1 <= 1)
        by (bit_vector);
    assert(sentinel(bits) == 256 + b);
}

/// Law: data are made up again from their bits.
pub proof fn law_bytes_of_bits(data: Seq<u8>)
    ensures
        bytes_of(bits_of(data)) == data,
{
    let bits = bits_of(data);
    assert forall|i: int| 0 <= i < data.len() implies #[trigger] bytes_of(bits)[i] == data[i] by {
        let part = bits.subrange(8 * i, 8 * i + 8);
        assert forall|n: int| 0 <= n < 8 implies #[trigger] part[n] == byte_bit(data[i], n) by {
            let k = 8 * i + n;
            assert(k / 8 == i && k % 8 == n);
        }
        lemma_whole_byte(data[i], part);
    }
    assert(bytes_of(bits) == data);
}

/// The model keeps the whole bytes of the bits, and the bits behind them.
proof fn lemma_history<N: Network>(data: Seq<u8>, net: N, n: int)
    requires
        0 <= n <= 8 * data.len(),
    ensures
        run(bits_of(data).take(n), net).model.bytes == data.take(n / 8),
        run(bits_of(data).take(n), net).model.partial == bits_of(data).subrange(n / 8 * 8, n),
    decreases n,
{
    let bits = bits_of(data);
    reveal(initial);
    reveal(predicted);
    reveal(updated);
    if n == 0 {
        assert(bits.take(0).len() == 0);
        assert(bits.subrange(0, 0) == Seq::<bool>::empty());
        assert(data.take(0) == Seq::<u8>::empty());
    } else {
        lemma_history(data, net, n - 1);
        assert(bits.take(n).drop_last() == bits.take(n - 1));
        let start = (n - 1) / 8 * 8;
        let before = bits.subrange(start, n - 1);
        let now = before.push(bits[n - 1]);
        assert(now == bits.subrange(start, n));
        if n % 8 == 0 {
            assert(n / 8 == (n - 1) / 8 + 1 && n / 8 * 8 == n);
            assert forall|k: int| 0 <= k < 8 implies #[trigger] now[k] == byte_bit(
                data[(n - 1) / 8],
                k,
            ) by {
                assert((start + k) / 8 == (n - 1) / 8 && (start + k) % 8 == k);
            }
            lemma_whole_byte(data[(n - 1) / 8], now);
            assert(data.take(n / 8) == data.take((n - 1) / 8).push(data[(n - 1) / 8]));
            assert(bits.subrange(n, n) == Seq::<bool>::empty());
        } else {
            assert(n / 8 == (n - 1) / 8);
        }
    }
}

/// Law: after whole data the model's history is the data, whatever the network.
pub proof fn law_history<N: Network>(data: Seq<u8>, net: N)
    ensures
        run(bits_of(data), net).model.bytes == data,
        run(bits_of(data), net).model.partial.len() == 0,
{
    let n = 8 * data.len() as int;
    lemma_history(data, net, n);
    assert(n / 8 == data.len());
    assert(bits_of(data).take(n) == bits_of(data));
    assert(data.take(n / 8) == data);
}

/// The end of the last four bytes that have this place in the match table.
pub open spec fn last_seen(bytes: Seq<u8>, h: int) -> u32
    decreases bytes.len(),
{
    if bytes.len() < 4 {
        u32::MAX
    } else if match_place(bytes) == h {
        bytes.len() as u32
    } else {
        last_seen(bytes.drop_last(), h)
    }
}

proof fn lemma_match_table<N: Network>(data: Seq<u8>, net: N, n: int, h: int)
    requires
        0 <= n <= 8 * data.len(),
        0 <= h < MATCH_SIZE,
    ensures
        run(bits_of(data).take(n), net).model.match_table.len() == MATCH_SIZE,
        run(bits_of(data).take(n), net).model.match_table[h] == last_seen(data.take(n / 8), h),
    decreases n,
{
    let bits = bits_of(data);
    reveal(initial);
    reveal(predicted);
    reveal(updated);
    if n == 0 {
        assert(bits.take(0).len() == 0);
    } else {
        lemma_match_table(data, net, n - 1, h);
        lemma_history(data, net, n - 1);
        lemma_history(data, net, n);
        assert(bits.take(n).drop_last() == bits.take(n - 1));
        if n % 8 == 0 {
            assert(n / 8 == (n - 1) / 8 + 1);
            assert(data.take(n / 8).drop_last() == data.take((n - 1) / 8));
        } else {
            assert(n / 8 == (n - 1) / 8);
        }
    }
}

/// Law: each place of the match table holds where, in the data, the last four
/// bytes with this place end, whatever the network. Different four bytes may
/// share a place; the later ones then stand for both.
pub proof fn law_match_table<N: Network>(data: Seq<u8>, net: N, h: int)
    requires
        0 <= h < MATCH_SIZE,
    ensures
        run(bits_of(data), net).model.match_table[h] == last_seen(data, h),
{
    let n = 8 * data.len() as int;
    lemma_match_table(data, net, n, h);
    assert(n / 8 == data.len());
    assert(bits_of(data).take(n) == bits_of(data));
    assert(data.take(n / 8) == data);
}

/// A context is last seen where it is; no later one has its place.
proof fn lemma_last_seen(bytes: Seq<u8>, h: int)
    requires
        bytes.len() < u32::MAX,
        last_seen(bytes, h) != u32::MAX,
    ensures
        4 <= last_seen(bytes, h) <= bytes.len(),
        forall|q: int|
            last_seen(bytes, h) < q <= bytes.len() ==> match_place(#[trigger] bytes.take(q)) != h,
    decreases bytes.len(),
{
    if match_place(bytes) == h {
    } else {
        let before = bytes.drop_last();
        lemma_last_seen(before, h);
        assert forall|q: int| last_seen(bytes, h) < q <= bytes.len() implies match_place(
            #[trigger] bytes.take(q),
        ) != h by {
            if q == bytes.len() {
                assert(bytes.take(q) == bytes);
            } else {
                assert(bytes.take(q) == before.take(q));
            }
        }
    }
}

/// The place of a context rests on its four bytes alone.
proof fn lemma_same_place(a: Seq<u8>, b: Seq<u8>)
    requires
        4 <= a.len(),
        4 <= b.len(),
        a.subrange(a.len() - 4, a.len() as int) == b.subrange(b.len() - 4, b.len() as int),
    ensures
        match_place(a) == match_place(b),
{
    let s = a.subrange(a.len() - 4, a.len() as int);
    let t = b.subrange(b.len() - 4, b.len() as int);
    assert(s[0] == t[0] && s[1] == t[1] && s[2] == t[2] && s[3] == t[3]);
    let (a1, b1) = (a.drop_last(), b.drop_last());
    let (a2, b2) = (a1.drop_last(), b1.drop_last());
    let (a3, b3) = (a2.drop_last(), b2.drop_last());
    assert(recent(a3.drop_last(), 0) == 0 && recent(b3.drop_last(), 0) == 0);
    assert(a3.last() == s[0] && b3.last() == t[0]);
    assert(recent(a3, 1) == recent(b3, 1));
    assert(a2.last() == s[1] && b2.last() == t[1]);
    assert(recent(a2, 2) == recent(b2, 2));
    assert(a1.last() == s[2] && b1.last() == t[2]);
    assert(recent(a1, 3) == recent(b1, 3));
    assert(a.last() == s[3] && b.last() == t[3]);
    assert(recent(a, 4) == recent(b, 4));
}

/// A match that is followed is at least one byte long, and comes after a context.
proof fn lemma_match_len<N: Network>(bits: Seq<bool>, net: N)
    ensures
        ({
            let m = run(bits, net).model;
            m.match_valid ==> m.match_len > 0 && m.bytes.len() >= 4
        }),
    decreases bits.len(),
{
    reveal(initial);
    reveal(predicted);
    reveal(updated);
    if bits.len() > 0 {
        lemma_match_len(bits.drop_last(), net);
    }
}

/// Where a match that starts at the end of a byte comes from.
proof fn lemma_start(t: Model)
    requires
        byte_done(t).match_valid,
        byte_done(t).match_len == 1,
        t.match_valid ==> t.match_len > 0 && t.bytes.len() >= 4,
    ensures
        same_context(byte_done(t).bytes, byte_done(t).match_ptr),
        byte_done(t).match_ptr == t.match_table[match_place(byte_done(t).bytes)],
        t.match_table[match_place(byte_done(t).bytes)] != u32::MAX,
{
}

/// A match that starts at the end of the data comes from the match table.
proof fn lemma_match_start<N: Network>(data: Seq<u8>, net: N)
    requires
        run(bits_of(data), net).model.match_valid,
        run(bits_of(data), net).model.match_len == 1,
    ensures
        data.len() > 0,
        ({
            let ptr = run(bits_of(data), net).model.match_ptr;
            &&& same_context(data, ptr)
            &&& ptr == last_seen(data.drop_last(), match_place(data))
            &&& last_seen(data.drop_last(), match_place(data)) != u32::MAX
        }),
{
    let bits = bits_of(data);
    let n = 8 * data.len() as int;
    lemma_match_len(bits, net);
    law_history(data, net);
    let h = match_place(data);
    let r = run(bits.drop_last(), net);
    let t = taught(predicted(r.model, reply(r.model, r.net)), bits.last());
    assert(bits.drop_last() == bits.take(n - 1));
    assert((n - 1) / 8 == data.len() - 1);
    assert(data.take((n - 1) / 8) == data.drop_last());
    lemma_history(data, net, n - 1);
    lemma_match_table(data, net, n - 1, h);
    lemma_match_len(bits.drop_last(), net);
    assert(t.partial.len() == 8 && t.bytes == r.model.bytes && t.match_table
        == r.model.match_table && (t.match_valid ==> r.model.match_valid && t.match_len
        == r.model.match_len)) by {
        reveal(predicted);
    }
    assert(run(bits, net).model == byte_done(t)) by {
        reveal(updated);
    }
    lemma_start(t);
}

/// Law: a match that starts at the end of a byte follows the most recent earlier
/// occurrence of the last four bytes, whatever the network. (Positions are kept in
/// 32 bits.)
pub proof fn law_match_start<N: Network>(data: Seq<u8>, net: N)
    requires
        data.len() <= u32::MAX,
        run(bits_of(data), net).model.match_valid,
        run(bits_of(data), net).model.match_len == 1,
    ensures
        same_context(data, run(bits_of(data), net).model.match_ptr),
        forall|q: int|
            run(bits_of(data), net).model.match_ptr < q < data.len() ==> !same_context(data, q),
{
    let ptr = run(bits_of(data), net).model.match_ptr;
    let before = data.drop_last();
    lemma_match_start(data, net);
    lemma_last_seen(before, match_place(data));
    assert forall|q: int| ptr < q < data.len() implies !same_context(data, q) by {
        if same_context(data, q) {
            let part = before.take(q);
            assert(part.subrange(q - 4, q) == data.subrange(q - 4, q));
            lemma_same_place(part, data);
        }
    }
}

/// The last end of a context that has this place.
proof fn lemma_last_seen_is(bytes: Seq<u8>, h: int, q: int)
    requires
        bytes.len() < u32::MAX,
        4 <= q <= bytes.len(),
        match_place(bytes.take(q)) == h,
        forall|e: int| q < e <= bytes.len() ==> match_place(#[trigger] bytes.take(e)) != h,
    ensures
        last_seen(bytes, h) == q,
    decreases bytes.len(),
{
    assert(bytes.take(bytes.len() as int) == bytes);
    if q < bytes.len() {
        let before = bytes.drop_last();
        assert(before.take(q) == bytes.take(q));
        assert forall|e: int| q < e <= before.len() implies match_place(#[trigger] before.take(e))
            != h by {
            assert(before.take(e) == bytes.take(e));
        }
        lemma_last_seen_is(before, h, q);
    }
}

/// A match that is followed is inside the data.
proof fn lemma_match_inside<N: Network>(bits: Seq<bool>, net: N)
    ensures
        ({
            let m = run(bits, net).model;
            m.match_valid ==> m.match_ptr < m.bytes.len()
        }),
    decreases bits.len(),
{
    reveal(initial);
    reveal(predicted);
    reveal(updated);
    if bits.len() > 0 {
        lemma_match_inside(bits.drop_last(), net);
    }
}

/// A match goes on, or is looked up in the table.
proof fn lemma_goes_on_or_starts(t: Model)
    requires
        t.bytes.len() >= 3,
        t.match_valid ==> t.match_len > 0 && t.match_ptr < t.bytes.len(),
    ensures
        t.match_valid ==> byte_done(t).match_valid && byte_done(t).match_len > 1,
        ({
            let c = t.match_table[match_place(byte_done(t).bytes)];
            !t.match_valid && c != u32::MAX && same_context(byte_done(t).bytes, c as int) ==> {
                &&& byte_done(t).match_valid
                &&& byte_done(t).match_len == 1
                &&& byte_done(t).match_ptr == c
            }
        }),
{
}

/// Law: where the last four bytes occurred before, a match is followed, whatever the
/// network and however much came before; and if it has just started, it is the most
/// recent occurrence that is followed. Only a later context of the same place in the
/// match table can hide it. (Positions are kept in 32 bits.)
pub proof fn law_match_is_found<N: Network>(data: Seq<u8>, net: N, q: int)
    requires
        data.len() <= u32::MAX,
        same_context(data, q),
        forall|e: int|
            q < e < data.len() ==> match_place(#[trigger] data.take(e)) != match_place(data),
    ensures
        run(bits_of(data), net).model.match_valid,
        run(bits_of(data), net).model.match_len == 1 ==> run(bits_of(data), net).model.match_ptr
            == q,
{
    let bits = bits_of(data);
    let n = 8 * data.len() as int;
    let h = match_place(data);
    let before = data.drop_last();
    let r = run(bits.drop_last(), net);
    let t = taught(predicted(r.model, reply(r.model, r.net)), bits.last());
    assert(bits.drop_last() == bits.take(n - 1));
    assert((n - 1) / 8 == data.len() - 1);
    assert(data.take((n - 1) / 8) == before);
    lemma_history(data, net, n - 1);
    law_history(data, net);
    lemma_match_table(data, net, n - 1, h);
    lemma_match_len(bits.drop_last(), net);
    lemma_match_inside(bits.drop_last(), net);
    assert(t.partial.len() == 8 && t.bytes == r.model.bytes && t.match_table
        == r.model.match_table && t.match_ptr == r.model.match_ptr && (t.match_valid
        ==> r.model.match_valid && t.match_len == r.model.match_len)) by {
        reveal(predicted);
    }
    assert(run(bits, net).model == byte_done(t)) by {
        reveal(updated);
    }
    assert(before.take(q) == data.take(q));
    assert(data.take(q).subrange(q - 4, q) == data.subrange(q - 4, q));
    lemma_same_place(data.take(q), data);
    assert forall|e: int| q < e <= before.len() implies match_place(#[trigger] before.take(e))
        != h by {
        assert(before.take(e) == data.take(e));
    }
    lemma_last_seen_is(before, h, q);
    lemma_goes_on_or_starts(t);
}

/// Law: in a run of equal bytes a match is followed from the fifth one on, whatever the
/// network and however much came before.
pub proof fn law_runs_are_matched<N: Network>(data: Seq<u8>, net: N)
    requires
        5 <= data.len() <= u32::MAX,
        forall|k: int| data.len() - 5 <= k < data.len() ==> #[trigger] data[k] == data.last(),
    ensures
        run(bits_of(data), net).model.match_valid,
{
    let n = data.len() as int;
    assert(data.subrange(n - 5, n - 1) == data.subrange(n - 4, n));
    assert(same_context(data, n - 1));
    law_match_is_found(data, net, n - 1);
}

/// Law: every probability leaves both bits possible.
pub proof fn law_probabilities<N: Network>(bits: Seq<bool>, net: N)
    ensures
        probabilities(bits, net).len() == bits.len(),
        forall|i: int|
            0 <= i < bits.len() ==> 1 <= #[trigger] probabilities(bits, net)[i] <= 4094,
    decreases bits.len(),
{
    if bits.len() > 0 {
        law_probabilities(bits.drop_last(), net);
        reveal(predicted);
    }
}

/// The probabilities of the first bits do not depend on the later ones.
proof fn lemma_probabilities_prefix<N: Network>(bits: Seq<bool>, net: N, n: int)
    requires
        0 <= n <= bits.len(),
    ensures
        probabilities(bits.take(n), net) == probabilities(bits, net).take(n),
    decreases bits.len(),
{
    law_probabilities(bits, net);
    if n == bits.len() {
        assert(bits.take(n) == bits);
        assert(probabilities(bits, net).take(n) == probabilities(bits, net));
    } else {
        lemma_probabilities_prefix(bits.drop_last(), net, n);
        assert(bits.drop_last().take(n) == bits.take(n));
        assert(probabilities(bits, net).take(n) == probabilities(bits.drop_last(), net).take(n));
    }
}

/// The first bits that are read do not depend on how many are read.
proof fn lemma_read_bits_prefix<N: Network>(payload: Seq<u8>, n: nat, m: nat, net: N)
    requires
        n <= m,
    ensures
        read_bits(payload, m, net).len() == m,
        read_bits(payload, n, net) == read_bits(payload, m, net).take(n as int),
    decreases m,
{
    if m > 0 {
        let fewer = (m - 1) as nat;
        if n < m {
            lemma_read_bits_prefix(payload, n, fewer, net);
            assert(read_bits(payload, m, net).take(n as int) == read_bits(
                payload,
                fewer,
                net,
            ).take(n as int));
        } else {
            lemma_read_bits_prefix(payload, fewer, fewer, net);
            assert(read_bits(payload, m, net).take(n as int) == read_bits(payload, m, net));
        }
    } else {
        assert(read_bits(payload, 0, net).take(0) == read_bits(payload, 0, net));
    }
}

/// The bits that a payload was made from are read back, whatever follows it.
proof fn lemma_reads_back<N: Network>(bits: Seq<bool>, net: N, tail: Seq<u8>, n: nat)
    requires
        n <= bits.len(),
    ensures
        read_bits(arith::encoded(bits, probabilities(bits, net)) + tail, n, net) == bits.take(
            n as int,
        ),
    decreases n,
{
    let ps = probabilities(bits, net);
    let code = arith::encoded(bits, ps) + tail;
    let k = n as int;
    if n == 0 {
        assert(read_bits(code, 0, net) == bits.take(0));
    } else {
        lemma_reads_back(bits, net, tail, (n - 1) as nat);
        law_probabilities(bits, net);
        lemma_probabilities_prefix(bits, net, k - 1);
        lemma_probabilities_prefix(bits, net, k);
        arith::lemma_trailing_continues(bits, ps, tail);
        arith::lemma_continues_prefix(code, bits, ps, k);
        arith::lemma_reads_back(code, bits.take(k), ps.take(k));
        assert(bits.take(k).drop_last() == bits.take(k - 1));
        assert(ps.take(k).drop_last() == ps.take(k - 1));
        assert(arith::decoded(code, ps.take(k)).last() == bits[k - 1]);
        assert(bits.take(k - 1).push(bits[k - 1]) == bits.take(k));
    }
}

/// Law: decompression runs in lockstep with compression. With an equal network
/// it reads the bits of the data, and so makes the same predictions and leaves
/// the model and the network as compression left them.
pub proof fn law_lockstep<N: Network>(data: Seq<u8>, net: N)
    ensures
        ({
            let bits = read_bits(compressed(data, net), 8 * data.len(), net);
            &&& bits == bits_of(data)
            &&& probabilities(bits, net) == probabilities(bits_of(data), net)
            &&& run(bits, net) == run(bits_of(data), net)
        }),
{
    let bits = bits_of(data);
    let code = compressed(data, net);
    lemma_reads_back(bits, net, Seq::empty(), bits.len());
    assert(code + Seq::<u8>::empty() == code);
    assert(bits.take(bits.len() as int) == bits);
}

/// Law: a payload gives back the data that it was made from, with a network that
/// equals the one it was made with.
pub proof fn law_round_trip<N: Network>(data: Seq<u8>, net: N)
    ensures
        decompressed(compressed(data, net), data.len(), net) == data,
{
    law_lockstep(data, net);
    law_bytes_of_bits(data);
}

/// Law: bytes behind a payload change nothing.
pub proof fn law_trailing_bytes<N: Network>(data: Seq<u8>, net: N, tail: Seq<u8>)
    ensures
        decompressed(compressed(data, net) + tail, data.len(), net) == data,
{
    let bits = bits_of(data);
    lemma_reads_back(bits, net, tail, bits.len());
    assert(bits.take(bits.len() as int) == bits);
    law_bytes_of_bits(data);
}

/// Law: however many bytes are asked for, that many come, and the first ones do
/// not depend on how many follow. This holds of any payload.
pub proof fn law_prefix<N: Network>(payload: Seq<u8>, n: nat, m: nat, net: N)
    requires
        n <= m,
    ensures
        decompressed(payload, m, net).len() == m,
        decompressed(payload, n, net) == decompressed(payload, m, net).take(n as int),
{
    lemma_read_bits_prefix(payload, 8 * n, 8 * n, net);
    lemma_read_bits_prefix(payload, 8 * n, 8 * m, net);
    let few = read_bits(payload, 8 * n, net);
    let many = read_bits(payload, 8 * m, net);
    assert forall|i: int| 0 <= i < n implies #[trigger] bytes_of(few)[i] == bytes_of(many)[i] by {
        assert(few.subrange(8 * i, 8 * i + 8) == many.subrange(8 * i, 8 * i + 8));
    }
    assert(bytes_of(few) == bytes_of(many).take(n as int));
}

proof fn lemma_zero_behind<N: Network>(payload: Seq<u8>, n: nat, net: N)
    ensures
        read_bits(payload.push(0), n, net) == read_bits(payload, n, net),
    decreases n,
{
    if n > 0 {
        lemma_zero_behind(payload, (n - 1) as nat, net);
        let ps = probabilities(read_bits(payload, (n - 1) as nat, net), net);
        let p = next_p(read_bits(payload, (n - 1) as nat, net), net);
        arith::law_zero_behind(payload, ps.push(p));
        assert(ps.push(p).drop_last() == ps);
        assert(arith::decoded(payload.push(0), ps.push(p)).last() == arith::decoded(
            payload,
            ps.push(p),
        ).last());
    }
}

/// Law: a zero behind any payload changes nothing, since missing bytes are read
/// as zeros.
pub proof fn law_zero_behind<N: Network>(payload: Seq<u8>, n: nat, net: N)
    ensures
        decompressed(payload.push(0), n, net) == decompressed(payload, n, net),
{
    lemma_zero_behind(payload, 8 * n, net);
}

} // verus!
