//! Laws of one prediction and of one bit that is learned.

use crate::laws::curves::{
    law_drift_rate, law_fresh_curves_change_little, law_learning_rate, law_refined_monotone, rises,
};
use crate::model::context::{
    byte_bit, context_place, is_word_byte, lemma_sentinel, recent, sentinel, word_of,
};
use crate::model::logistic::{
    law_squash_monotone, law_squash_range, law_stretch_inverts_squash, squash_of, stretch_of,
};
use crate::model::mixer::{
    bank_errors, initial, match_place, may_hear, may_reply, mixed_p, place, predicted,
    same_context, stage2_context, stage_p, updated, whole_byte, Model, Reply, MATCH_SIZE,
};
use crate::model::network::{
    deterministic, may_expect, may_learn, may_mix, may_take, Mix, Network,
};
use crate::model::tables::{fresh_curves, hash64_of, hash_of, refined};
use vstd::prelude::*;

verus! {

/// The number nearest to `x` among the probabilities that leave both bits possible.
pub open spec fn kept_open(x: int) -> int {
    if x < 1 {
        1
    } else if x > 4094 {
        4094
    } else {
        x
    }
}

/// Law: the final probability follows the answer of the second layer, after any
/// history. Where the curves do not fall, a higher answer never gives a lower
/// probability, whatever else the two replies say.
pub proof fn law_follows_the_mixers(m: Model, r: Reply, s: Reply)
    requires
        r.out <= s.out,
        rises(m.apm1.curves, sentinel(m.partial)),
        rises(m.apm2.curves, stage2_context(m)),
    ensures
        predicted(m, r).last.p <= predicted(m, s).last.p,
{
    reveal(predicted);
    law_squash_monotone(r.out as int, s.out as int);
    let (a, b) = (mixed_p(r.out), mixed_p(s.out));
    let c1 = sentinel(m.partial);
    let c2 = stage2_context(m);
    law_refined_monotone(m.apm1.curves, a, b, c1);
    law_refined_monotone(
        m.apm2.curves,
        stage_p(m.apm1.curves, a, c1),
        stage_p(m.apm1.curves, b, c1),
        c2,
    );
}

/// Law: while both stages still hold the logistic curve, the final probability is the
/// one that the second layer answered, but for a few units, after any history.
pub proof fn law_new_stages_change_little(m: Model, r: Reply)
    requires
        m.partial.len() < 8,
        m.apm1.curves == fresh_curves(256),
        m.apm2.curves == fresh_curves(4096),
    ensures
        squash_of(r.out as int) - 8 <= predicted(m, r).last.p <= squash_of(r.out as int) + 8,
{
    reveal(predicted);
    law_squash_range(r.out as int);
    lemma_sentinel(m.partial);
    let a = mixed_p(r.out);
    let c1 = sentinel(m.partial);
    let c2 = stage2_context(m);
    law_stage2_context(m);
    law_fresh_curves_change_little(256, a, c1);
    let b = stage_p(m.apm1.curves, a, c1);
    law_fresh_curves_change_little(4096, b, c2);
}

/// A stage weighs its own probability once and the refined one three times, and keeps
/// both bits possible.
pub open spec fn weighs(own: int, curve: int, r: int) -> bool {
    ||| 1 <= r <= 4094 && 4 * r <= own + 3 * curve < 4 * r + 4
    ||| r == 1 && own + 3 * curve < 4
    ||| r == 4094 && own + 3 * curve >= 4 * 4095
}

/// Law: the final probability is that of the second layer, refined by two stages, each
/// with the curve of its own context: the bits of the current byte, and the last two
/// bytes. This holds in every state, however much came before.
pub proof fn law_two_stages(m: Model, r: Reply)
    ensures
        predicted(m, r).last.pm == kept_open(squash_of(r.out as int)),
        exists|p1: int|
            {
                &&& #[trigger] weighs(
                    kept_open(squash_of(r.out as int)),
                    refined(
                        m.apm1.curves,
                        kept_open(squash_of(r.out as int)),
                        sentinel(m.partial),
                    ),
                    p1,
                )
                &&& weighs(
                    p1,
                    refined(m.apm2.curves, p1, stage2_context(m)),
                    predicted(m, r).last.p,
                )
            },
{
    reveal(predicted);
    let pm = kept_open(squash_of(r.out as int));
    let p1 = stage_p(m.apm1.curves, pm, sentinel(m.partial));
    assert(weighs(pm, refined(m.apm1.curves, pm, sentinel(m.partial)), p1));
}

/// The byte `k` from the end, 0 where there is none.
pub open spec fn back(bytes: Seq<u8>, k: int) -> int {
    if 1 <= k <= bytes.len() {
        bytes[bytes.len() - k] as int
    } else {
        0
    }
}

/// Law: the last bytes as a number, each at its own power of 256, the newest lowest.
pub proof fn law_recent(bytes: Seq<u8>)
    ensures
        recent(bytes, 1) == back(bytes, 1),
        recent(bytes, 2) == back(bytes, 1) + 0x100 * back(bytes, 2),
        recent(bytes, 3) == back(bytes, 1) + 0x100 * back(bytes, 2) + 0x1_0000 * back(bytes, 3),
        recent(bytes, 4) == back(bytes, 1) + 0x100 * back(bytes, 2) + 0x1_0000 * back(bytes, 3)
            + 0x100_0000 * back(bytes, 4),
        recent(bytes, 5) == back(bytes, 1) + 0x100 * back(bytes, 2) + 0x1_0000 * back(bytes, 3)
            + 0x100_0000 * back(bytes, 4) + 0x1_0000_0000 * back(bytes, 5),
        recent(bytes, 6) == back(bytes, 1) + 0x100 * back(bytes, 2) + 0x1_0000 * back(bytes, 3)
            + 0x100_0000 * back(bytes, 4) + 0x1_0000_0000 * back(bytes, 5) + 0x100_0000_0000 * back(
            bytes,
            6,
        ),
    decreases bytes.len(),
{
    if bytes.len() > 0 {
        let d = bytes.drop_last();
        law_recent(d);
        assert(recent(d, 0) == 0);
        assert(back(d, 1) == back(bytes, 2) && back(d, 2) == back(bytes, 3) && back(d, 3) == back(
            bytes,
            4,
        ) && back(d, 4) == back(bytes, 5) && back(d, 5) == back(bytes, 6));
        assert(recent(bytes, 1) == 256 * recent(d, 0) + bytes.last());
        assert(recent(bytes, 2) == 256 * recent(d, 1) + bytes.last());
        assert(recent(bytes, 3) == 256 * recent(d, 2) + bytes.last());
        assert(recent(bytes, 4) == 256 * recent(d, 3) + bytes.last());
        assert(recent(bytes, 5) == 256 * recent(d, 4) + bytes.last());
        assert(recent(bytes, 6) == 256 * recent(d, 5) + bytes.last());
    }
}

/// Law: the second stage goes by the hash of the last two bytes, in 12 bits.
pub proof fn law_stage2_context(m: Model)
    ensures
        stage2_context(m) == (back(m.bytes, 1) + 0x100 * back(m.bytes, 2)) * 0x9E37_79B1
            % 0x1_0000_0000 / 0x10_0000,
        0 <= stage2_context(m) < 4096,
{
    law_recent(m.bytes);
}

/// Law: the match table goes by the hash of the last four bytes, in 22 bits.
pub proof fn law_match_place(bytes: Seq<u8>)
    ensures
        match_place(bytes) == (back(bytes, 1) + 0x100 * back(bytes, 2) + 0x1_0000 * back(bytes, 3)
            + 0x100_0000 * back(bytes, 4)) * 0x9E37_79B1 % 0x1_0000_0000 / 0x400,
        0 <= match_place(bytes) < MATCH_SIZE,
{
    law_recent(bytes);
}

/// Law: the bits of the current byte as a number with a leading 1.
pub proof fn law_sentinel(bits: Seq<bool>, bit: bool)
    ensures
        sentinel(Seq::empty()) == 1,
        sentinel(bits.push(bit)) == 2 * sentinel(bits) + if bit {
            1int
        } else {
            0int
        },
{
    assert(bits.push(bit).drop_last() == bits);
}

/// Law: what each context model looks at: the last one to six bytes, the word, and the
/// two bytes before the last.
pub proof fn law_contexts(bytes: Seq<u8>)
    ensures
        context_place(bytes, 1) == hash_of(back(bytes, 1) as u32, 1),
        context_place(bytes, 2) == hash_of((back(bytes, 1) + 0x100 * back(bytes, 2)) as u32, 2),
        context_place(bytes, 3) == hash_of(
            (back(bytes, 1) + 0x100 * back(bytes, 2) + 0x1_0000 * back(bytes, 3)) as u32,
            3,
        ),
        context_place(bytes, 4) == hash_of(
            (back(bytes, 1) + 0x100 * back(bytes, 2) + 0x1_0000 * back(bytes, 3) + 0x100_0000
                * back(bytes, 4)) as u32,
            4,
        ),
        context_place(bytes, 5) == hash64_of(
            (back(bytes, 1) + 0x100 * back(bytes, 2) + 0x1_0000 * back(bytes, 3) + 0x100_0000
                * back(bytes, 4) + 0x1_0000_0000 * back(bytes, 5)) as u64,
            5,
        ),
        context_place(bytes, 6) == hash64_of(
            (back(bytes, 1) + 0x100 * back(bytes, 2) + 0x1_0000 * back(bytes, 3) + 0x100_0000
                * back(bytes, 4) + 0x1_0000_0000 * back(bytes, 5) + 0x100_0000_0000 * back(
                bytes,
                6,
            )) as u64,
            6,
        ),
        context_place(bytes, 7) == hash_of(word_of(bytes), 7),
        context_place(bytes, 8) == hash_of((back(bytes, 2) + 0x100 * back(bytes, 3)) as u32, 8),
{
    law_recent(bytes);
    if bytes.len() > 0 {
        let d = bytes.drop_last();
        law_recent(d);
        assert(back(d, 1) == back(bytes, 2) && back(d, 2) == back(bytes, 3));
    }
}

/// Law: the hash of a context: two products without their upper halves, folded onto
/// each other, in 22 bits.
pub proof fn law_hash(a: u32, b: u32)
    ensures
        ({
            let h = ((a * 0x9E37_79B1) % 0x1_0000_0000) as u32 ^ ((b * 0x85EB_CA77) % 0x1_0000_0000)
                as u32;
            hash_of(a, b) == (h ^ (h >> 15)) as int % 4_194_304
        }),
        0 <= hash_of(a, b) < 4_194_304,
{
}

/// Law: the hash of a longer context.
pub proof fn law_hash64(a: u64, b: u32)
    ensures
        ({
            let h = ((a * 0x9E37_79B9_7F4A_7C15) % 0x1_0000_0000_0000_0000) as u64 ^ ((b
                * 0x85EB_CA77) % 0x1_0000_0000_0000_0000) as u64;
            hash64_of(a, b) == (h ^ (h >> 29)) as int % 4_194_304
        }),
        0 <= hash64_of(a, b) < 4_194_304,
{
}

/// Law: the word that is being written is hashed from its own bytes alone, however
/// much comes before it.
pub proof fn law_word(before: Seq<u8>, word: Seq<u8>)
    requires
        before.len() > 0 ==> !is_word_byte(before.last()),
        forall|i: int| 0 <= i < word.len() ==> is_word_byte(#[trigger] word[i]),
    ensures
        word_of(before + word) == word_of(word),
    decreases word.len(),
{
    if word.len() == 0 {
        assert(before + word == before);
    } else {
        law_word(before, word.drop_last());
        assert((before + word).drop_last() == before + word.drop_last());
    }
}

/// Law: letters and digits are what words are made of.
pub proof fn law_word_bytes(b: u8)
    ensures
        is_word_byte(b) <==> ('0' as u8 <= b <= '9' as u8 || 'A' as u8 <= b <= 'Z' as u8
            || 'a' as u8 <= b <= 'z' as u8),
{
}

/// Law: each context model looks at the place of its context, moved on by the bits of
/// the current byte; order 0 goes by those bits alone. After the same bytes, no two
/// beginnings of a byte share a place.
pub proof fn law_places(m: Model, n: Model, r: Reply, i: int)
    requires
        0 <= i < 9,
        m.partial.len() < 8,
        n.partial.len() < 8,
    ensures
        predicted(m, r).last.idx.len() == 9,
        i == 0 ==> predicted(m, r).last.idx[0] == sentinel(m.partial),
        i > 0 ==> predicted(m, r).last.idx[i] == (context_place(m.bytes, i) + 749 * sentinel(
            m.partial,
        )) % 4_194_304,
        m.bytes == n.bytes && sentinel(m.partial) != sentinel(n.partial) ==> place(m, i) != place(
            n,
            i,
        ),
{
    reveal(predicted);
    lemma_sentinel(m.partial);
    lemma_sentinel(n.partial);
    if i > 0 && m.bytes == n.bytes && sentinel(m.partial) != sentinel(n.partial) {
        let c = context_place(m.bytes, i);
        let (x, y) = (749 * sentinel(m.partial), 749 * sentinel(n.partial));
        let (a, b) = (c + x, c + y);
        assert(-4_194_304 < x - y < 4_194_304 && x != y);
        assert(a - b == 4_194_304 * (a / 4_194_304 - b / 4_194_304) + (a % 4_194_304 - b
            % 4_194_304));
    }
}

/// `d` are the log odds of `p`: the lowest value that the curve takes to it.
pub open spec fn are_log_odds(d: int, p: int) -> bool {
    &&& -2047 <= d <= 2047
    &&& forall|x: int| -2047 <= x <= 2047 ==> (#[trigger] squash_of(x) >= p <==> x >= d)
}

/// Law: the mixers take in the log odds of what each context table holds at its place,
/// the match model's opinion, and the log odds of the network's own prediction.
pub proof fn law_inputs(m: Model, r: Reply, i: int)
    requires
        0 <= i < 9,
    ensures
        ({
            let inputs = predicted(m, r).last.inputs;
            &&& inputs.len() == 11
            &&& are_log_odds(inputs[i] as int, m.tables[i][place(m, i)] as int / 16)
            &&& are_log_odds(
                inputs[10] as int,
                if r.p < 1 {
                    1
                } else if r.p > 4095 {
                    4095
                } else {
                    r.p as int
                },
            )
        }),
{
    reveal(predicted);
    let p = m.tables[i][place(m, i)] as int / 16;
    lemma_log_odds(p);
    lemma_log_odds(
        if r.p < 1 {
            1
        } else if r.p > 4095 {
            4095
        } else {
            r.p as int
        },
    );
}

proof fn lemma_log_odds(p: int)
    requires
        0 <= p <= 4095,
    ensures
        are_log_odds(stretch_of(p), p),
{
    law_stretch_inverts_squash(p, 0);
    assert forall|x: int| -2047 <= x <= 2047 implies (#[trigger] squash_of(x) >= p <==> x
        >= stretch_of(p)) by {
        law_stretch_inverts_squash(p, x);
    }
}

/// Law: the match model has an opinion exactly while it follows a match: for the bit
/// that came there, and the surer the longer the match is.
pub proof fn law_match_opinion(m: Model, r: Reply)
    ensures
        ({
            let opinion = predicted(m, r).last.inputs[9] as int;
            let sureness = if m.match_len < 7 {
                256 * (m.match_len as int + 1)
            } else {
                2047
            };
            &&& !m.match_valid ==> opinion == 0
            &&& m.match_valid && byte_bit(m.bytes[m.match_ptr], m.partial.len() as int) ==> opinion
                == sureness
            &&& m.match_valid && !byte_bit(m.bytes[m.match_ptr], m.partial.len() as int) ==> opinion
                == -sureness
        }),
{
    reveal(predicted);
}

/// Law: the mixers choose their weights by the bits of the current byte, by the last
/// byte, and by the length of the match or else the number of bits.
pub proof fn law_mixer_contexts(m: Model, r: Reply)
    requires
        m.partial.len() < 8,
    ensures
        ({
            let ctx = predicted(m, r).last.ctx;
            &&& ctx.len() == 3
            &&& ctx[0] == sentinel(m.partial)
            &&& ctx[1] == back(m.bytes, 1)
            &&& !m.match_valid ==> ctx[2] == m.partial.len()
            &&& m.match_valid && m.match_len < 7 ==> ctx[2] == 8 + m.match_len
            &&& m.match_valid && m.match_len >= 7 ==> ctx[2] == 15
        }),
{
    reveal(predicted);
    lemma_sentinel(m.partial);
    law_recent(m.bytes);
}

/// Law: what is remembered of the mixers' answer are their probabilities.
pub proof fn law_answer_is_remembered(m: Model, r: Reply, k: int)
    requires
        0 <= k < 3,
    ensures
        predicted(m, r).last.bank_p.len() == 3,
        predicted(m, r).last.bank_p[k] == squash_of(r.banks[k] as int),
{
    reveal(predicted);
    law_squash_range(r.banks[k] as int);
}

/// Law: the network is asked of the bits of the current byte so far, and then to mix
/// what the prediction remembers as its inputs, in the contexts that it remembers.
pub proof fn law_what_is_asked<N: Network>(m: Model, net: N, r: Reply, after: N)
    requires
        m.partial.len() < 8,
        may_reply(m, net, r, after),
    ensures
        exists|c0: usize| c0 == sentinel(m.partial) && #[trigger] may_expect(net, c0, r.p),
        may_mix(
            net,
            predicted(m, r).last.inputs,
            predicted(m, r).last.ctx,
            Mix { banks: r.banks, out: r.out, net: after },
        ),
{
    reveal(may_reply);
    reveal(predicted);
    lemma_sentinel(m.partial);
    let c0 = sentinel(m.partial) as usize;
    assert(may_expect(net, c0, r.p));
}

/// The value that a bit adds to a byte.
pub open spec fn worth(bit: bool, value: int) -> int {
    if bit {
        value
    } else {
        0
    }
}

/// Law: the eight bits of a byte are its binary digits, the highest first.
pub proof fn law_byte_value(bits: Seq<bool>)
    requires
        bits.len() == 8,
    ensures
        whole_byte(bits) == worth(bits[0], 128) + worth(bits[1], 64) + worth(bits[2], 32) + worth(
            bits[3],
            16,
        ) + worth(bits[4], 8) + worth(bits[5], 4) + worth(bits[6], 2) + worth(bits[7], 1),
{
    let b7 = bits.drop_last();
    let b6 = b7.drop_last();
    let b5 = b6.drop_last();
    let b4 = b5.drop_last();
    let b3 = b4.drop_last();
    let b2 = b3.drop_last();
    let b1 = b2.drop_last();
    assert(b1.drop_last().len() == 0);
    assert(sentinel(b1.drop_last()) == 1);
    assert(sentinel(b1) == 2 + worth(bits[0], 1));
    assert(sentinel(b2) == 2 * sentinel(b1) + worth(bits[1], 1));
    assert(sentinel(b3) == 2 * sentinel(b2) + worth(bits[2], 1));
    assert(sentinel(b4) == 2 * sentinel(b3) + worth(bits[3], 1));
    assert(sentinel(b5) == 2 * sentinel(b4) + worth(bits[4], 1));
    assert(sentinel(b6) == 2 * sentinel(b5) + worth(bits[5], 1));
    assert(sentinel(b7) == 2 * sentinel(b6) + worth(bits[6], 1));
    assert(sentinel(bits) == 2 * sentinel(b7) + worth(bits[7], 1));
}

/// Law: after every bit the network is told how far each of its probabilities was from
/// certainty of the bit, and after every eighth the byte, however much came before.
pub proof fn law_what_is_told<N: Network>(m: Model, net: N, bit: bool, after: N)
    requires
        may_hear(m, net, bit, after),
        m.last.bank_p.len() == 3,
        forall|k: int| 0 <= k < 3 ==> 0 <= #[trigger] m.last.bank_p[k] <= 4095,
        1 <= m.last.pm <= 4094,
    ensures
        exists|errs: Seq<i32>, err: i32, n: N|
            {
                &&& #[trigger] may_learn(net, errs, err, n)
                &&& errs.len() == 3
                &&& forall|k: int|
                    0 <= k < 3 ==> #[trigger] errs[k] == worth(bit, 4096) - m.last.bank_p[k]
                &&& err == worth(bit, 4096) - m.last.pm
                &&& m.partial.len() == 7 ==> may_take(n, whole_byte(m.partial.push(bit)), after)
                &&& m.partial.len() != 7 ==> n == after
            },
{
    reveal(may_hear);
    let errs = bank_errors(m, bit);
    let err = (worth(bit, 4096) - m.last.pm) as i32;
    let n = choose|n: N|
        {
            &&& #[trigger] may_learn(net, errs, err, n)
            &&& if m.partial.len() == 7 {
                may_take(n, whole_byte(m.partial.push(bit)), after)
            } else {
                n == after
            }
        };
    assert(may_learn(net, errs, err, n));
}

/// Law: a bit is learned in each table at the place that the prediction looked at, and
/// nowhere else: it goes a part of the way to certainty, the smaller the more often it
/// was there.
pub proof fn law_tables_learn(m: Model, bit: bool, i: int, j: int)
    requires
        0 <= i < 9,
        0 <= j < m.tables[i].len(),
        m.last.idx[i] < m.tables[i].len(),
    ensures
        ({
            let t = updated(m, bit).tables[i];
            let (p, c) = (m.tables[i][j] as int / 16, m.tables[i][j] as int % 16);
            let (np, nc) = (t[j] as int / 16, t[j] as int % 16);
            &&& updated(m, bit).tables.len() == 9
            &&& t.len() == m.tables[i].len()
            &&& j != m.last.idx[i] ==> t[j] == m.tables[i][j]
            &&& j == m.last.idx[i] ==> {
                &&& nc == if c < 15 {
                    c + 1
                } else {
                    15
                }
                &&& -(c + 3) <= (c + 2) * (np - p) - (worth(bit, 4096) - p) <= c + 3
            }
        }),
{
    reveal(updated);
    law_learning_rate(m.tables[i][j], bit);
}

/// Law: a bit is learned in each stage at the point that the prediction was nearest
/// to, and nowhere else: it goes a 32nd of the way to certainty.
pub proof fn law_stages_learn(m: Model, bit: bool, j: int)
    requires
        0 <= m.apm1.cell < m.apm1.curves.len(),
        0 <= m.apm2.cell < m.apm2.curves.len(),
    ensures
        ({
            let (s, t) = (m.apm1, updated(m, bit).apm1);
            &&& t.curves.len() == s.curves.len()
            &&& 0 <= j < s.curves.len() && j != s.cell ==> t.curves[j] == s.curves[j]
            &&& 0 <= worth(bit, 65536) - s.curves[s.cell] - 32 * (t.curves[s.cell]
                - s.curves[s.cell]) < 32
        }),
        ({
            let (s, t) = (m.apm2, updated(m, bit).apm2);
            &&& t.curves.len() == s.curves.len()
            &&& 0 <= j < s.curves.len() && j != s.cell ==> t.curves[j] == s.curves[j]
            &&& 0 <= worth(bit, 65536) - s.curves[s.cell] - 32 * (t.curves[s.cell]
                - s.curves[s.cell]) < 32
        }),
{
    reveal(updated);
    law_drift_rate(m.apm1.curves[m.apm1.cell], bit);
    law_drift_rate(m.apm2.curves[m.apm2.cell], bit);
}

/// Law: the point that learns is the one of the context's curve that is nearest to the
/// probability that the stage took in.
pub proof fn law_nearest_point_learns(m: Model, r: Reply)
    ensures
        ({
            let pm = kept_open(squash_of(r.out as int));
            let off = predicted(m, r).apm1.cell - 33 * sentinel(m.partial);
            -64 <= stretch_of(pm) + 2048 - 128 * off < 64
        }),
        exists|p1: int|
            {
                let off = predicted(m, r).apm2.cell - 33 * stage2_context(m);
                &&& #[trigger] weighs(
                    kept_open(squash_of(r.out as int)),
                    refined(
                        m.apm1.curves,
                        kept_open(squash_of(r.out as int)),
                        sentinel(m.partial),
                    ),
                    p1,
                )
                &&& -64 <= stretch_of(p1) + 2048 - 128 * off < 64
            },
{
    reveal(predicted);
    let pm = kept_open(squash_of(r.out as int));
    let p1 = stage_p(m.apm1.curves, pm, sentinel(m.partial));
    assert(weighs(pm, refined(m.apm1.curves, pm, sentinel(m.partial)), p1));
    law_stretch_inverts_squash(pm, 0);
    law_stretch_inverts_squash(p1, 0);
}

/// Law: a bit joins the current byte, and the eighth completes it.
pub proof fn law_bits_become_bytes(m: Model, bit: bool)
    requires
        m.partial.len() < 8,
    ensures
        m.partial.len() < 7 ==> updated(m, bit).partial == m.partial.push(bit) && updated(
            m,
            bit,
        ).bytes == m.bytes,
        m.partial.len() == 7 ==> updated(m, bit).partial == Seq::<bool>::empty() && updated(
            m,
            bit,
        ).bytes == m.bytes.push(whole_byte(m.partial.push(bit))),
{
    reveal(updated);
}

/// Law: a context is the same exactly where its four bytes are, one by one.
pub proof fn law_same_context(bytes: Seq<u8>, end: int)
    ensures
        same_context(bytes, end) <==> {
            let n = bytes.len() as int;
            &&& 4 <= end < n
            &&& bytes[end - 4] == bytes[n - 4]
            &&& bytes[end - 3] == bytes[n - 3]
            &&& bytes[end - 2] == bytes[n - 2]
            &&& bytes[end - 1] == bytes[n - 1]
        },
{
    let n = bytes.len() as int;
    if 4 <= end < n {
        let a = bytes.subrange(end - 4, end);
        let b = bytes.subrange(n - 4, n);
        assert(a[0] == bytes[end - 4] && a[1] == bytes[end - 3] && a[2] == bytes[end - 2] && a[3]
            == bytes[end - 1]);
        assert(b[0] == bytes[n - 4] && b[1] == bytes[n - 3] && b[2] == bytes[n - 2] && b[3]
            == bytes[n - 1]);
        if a[0] == b[0] && a[1] == b[1] && a[2] == b[2] && a[3] == b[3] {
            assert(a == b);
        }
    }
}

/// Law: inside a byte, a match is followed on exactly as long as its bits come.
pub proof fn law_match_inside_a_byte(m: Model, r: Reply, bit: bool)
    requires
        m.partial.len() < 7,
    ensures
        ({
            let n = updated(predicted(m, r), bit);
            let right = bit == byte_bit(m.bytes[m.match_ptr], m.partial.len() as int);
            &&& n.match_valid <==> m.match_valid && right
            &&& n.match_ptr == m.match_ptr
            &&& n.match_table == m.match_table
            &&& m.match_valid && right ==> n.match_len == m.match_len
        }),
{
    reveal(predicted);
    reveal(updated);
}

/// Law: a match whose byte came in full goes on to the next byte, one longer.
pub proof fn law_match_goes_on(m: Model, r: Reply, bit: bool)
    requires
        m.partial.len() == 7,
        m.match_valid,
        0 <= m.match_ptr < m.bytes.len(),
        m.bytes.len() >= 3,
        m.match_len < u32::MAX,
        bit == byte_bit(m.bytes[m.match_ptr], 7),
    ensures
        ({
            let n = updated(predicted(m, r), bit);
            &&& n.match_valid
            &&& n.match_ptr == m.match_ptr + 1
            &&& n.match_len == m.match_len + 1
        }),
{
    reveal(predicted);
    reveal(updated);
}

/// Law: after every byte the table holds, at the place of the last four bytes, where
/// they end, and elsewhere what it held.
pub proof fn law_table_is_kept(m: Model, r: Reply, bit: bool, h: int)
    requires
        m.partial.len() == 7,
        m.match_table.len() == MATCH_SIZE,
        0 <= h < MATCH_SIZE,
        m.bytes.len() < u32::MAX,
    ensures
        ({
            let n = updated(predicted(m, r), bit);
            &&& n.bytes.len() >= 4 && h == match_place(n.bytes) ==> n.match_table[h]
                == n.bytes.len()
            &&& n.bytes.len() < 4 || h != match_place(n.bytes) ==> n.match_table[h]
                == m.match_table[h]
        }),
{
    reveal(predicted);
    reveal(updated);
}

/// Law: a new model knows nothing: no bytes, no bits, no match, an empty match table,
/// even odds in every table, and the logistic curve in both stages.
pub proof fn law_new_model(i: int, j: int, h: int)
    requires
        0 <= i < 9,
        0 <= j < (if i == 0 {
            256int
        } else {
            4_194_304int
        }),
        0 <= h < MATCH_SIZE,
    ensures
        ({
            let m = initial();
            &&& m.bytes.len() == 0 && m.partial.len() == 0 && !m.match_valid
            &&& m.tables.len() == 9
            &&& m.tables[i].len() == (if i == 0 {
                256int
            } else {
                4_194_304int
            })
            &&& m.tables[i][j] as int / 16 == 2048
            &&& m.tables[i][j] as int % 16 == 0
            &&& m.apm1.curves == fresh_curves(256)
            &&& m.apm2.curves == fresh_curves(4096)
            &&& m.match_table.len() == MATCH_SIZE
            &&& m.match_table[h] == u32::MAX
        }),
{
    reveal(initial);
}

/// Law: networks are deterministic exactly where no call has two answers.
pub proof fn law_deterministic<N: Network>()
    ensures
        deterministic::<N>() <==> {
            &&& forall|net: N, c0: usize, p: i32, q: i32| #[trigger]
                may_expect(net, c0, p) && #[trigger] may_expect(net, c0, q) ==> p == q
            &&& forall|net: N, inputs: Seq<i32>, ctx: Seq<usize>, a: Mix<N>, b: Mix<N>| #[trigger]
                may_mix(net, inputs, ctx, a) && #[trigger] may_mix(net, inputs, ctx, b) ==> a == b
            &&& forall|net: N, bank_err: Seq<i32>, err: i32, a: N, b: N| #[trigger]
                may_learn(net, bank_err, err, a) && #[trigger] may_learn(net, bank_err, err, b)
                    ==> a == b
            &&& forall|net: N, byte: u8, a: N, b: N| #[trigger]
                may_take(net, byte, a) && #[trigger] may_take(net, byte, b) ==> a == b
        },
{
}

} // verus!
