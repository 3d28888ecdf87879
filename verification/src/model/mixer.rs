//! The model of the data: nine context models, a match model and a network,
//! whose mixed opinion two learned curves refine.

use crate::model::context::{
    byte_bit, context_place, is_word_byte, lemma_recent4, lemma_recent8, lemma_sentinel, recent,
    sentinel, word_of,
};
use crate::model::logistic::{
    build_stretch, is_stretch_table, squash, squash_of, stretch_of,
};
use crate::model::network::{
    after_byte, after_learn, ask_mix, deterministic, expected, may_expect, may_learn, may_mix,
    may_take, mix_of, tell_errors, Mix, Mixed, Network, NBANKS, NINPUTS, NMODELS,
};
use crate::model::tables::{
    certainty, drifted, entry_p, fresh_curves, fresh_table, hash, hash64, learned, nearer_cell,
    refined, Apm, CtxTable, TABLE_SIZE,
};
use vstd::prelude::*;

verus! {

/// The places of the match table.
pub const MATCH_SIZE: usize = 4_194_304;

/// The curves of one refinement stage, and the point that learns next.
#[verifier::ext_equal]
pub struct Stage {
    pub curves: Seq<u16>,
    pub cell: int,
}

/// What the model knows.
#[verifier::ext_equal]
pub struct Model {
    /// The context tables.
    pub tables: Seq<Seq<u16>>,
    /// The refinement stages: by partial byte, and by the last two bytes.
    pub apm1: Stage,
    pub apm2: Stage,
    /// All whole bytes so far, and the bits of the current one.
    pub bytes: Seq<u8>,
    pub partial: Seq<bool>,
    /// The match model: for each place of the table, where the last four bytes
    /// that have it end, and the earlier position that is being followed now.
    pub match_table: Seq<u32>,
    pub match_ptr: int,
    pub match_len: u32,
    pub match_valid: bool,
    /// The last prediction, from which the next bit is learned.
    pub last: Prediction,
}

/// A prediction, with all that went into it.
#[verifier::ext_equal]
pub struct Prediction {
    /// Where the context models looked.
    pub idx: Seq<usize>,
    /// The bit that the match model expects.
    pub match_bit: u32,
    /// What the mixers took in, and by what they chose their weights.
    pub inputs: Seq<i32>,
    pub ctx: Seq<usize>,
    /// The probabilities of the banks, of the second layer, and the final one.
    pub bank_p: Seq<i32>,
    pub pm: int,
    pub p: int,
}

/// What a network answers for one bit.
#[verifier::ext_equal]
pub struct Reply {
    pub p: i32,
    pub banks: Seq<i32>,
    pub out: i32,
}

/// The number nearest to `x` from `lo` to `hi`.
pub open spec fn clamped(x: int, lo: int, hi: int) -> int {
    if x < lo {
        lo
    } else if x > hi {
        hi
    } else {
        x
    }
}

/// Where context model `i` looks.
pub open spec fn place(m: Model, i: int) -> int {
    if i == 0 {
        sentinel(m.partial)
    } else {
        (context_place(m.bytes, i) + sentinel(m.partial) * 0x02ED) % TABLE_SIZE as int
    }
}

/// The opinion of context model `i`, in the stretch domain.
pub open spec fn opinion(m: Model, i: int) -> int {
    stretch_of(entry_p(m.tables[i][place(m, i)]))
}

/// The next bit of the byte at the earlier position that is being followed.
pub open spec fn followed_bit(m: Model) -> bool {
    byte_bit(m.bytes[m.match_ptr], m.partial.len() as int)
}

/// The opinion of the match model: the longer the match, the surer.
pub open spec fn match_opinion(m: Model) -> int {
    if m.match_valid {
        let sureness = if m.match_len < 7 {
            256 + 256 * m.match_len
        } else {
            2047
        };
        if followed_bit(m) {
            sureness
        } else {
            -sureness
        }
    } else {
        0
    }
}

/// What the mixers take in, where `p` is the network's own prediction.
pub open spec fn mixer_inputs(m: Model, p: i32) -> Seq<i32> {
    Seq::new(
        NINPUTS as nat,
        |i: int|
            if i < NMODELS {
                opinion(m, i) as i32
            } else if i == NMODELS {
                match_opinion(m) as i32
            } else {
                stretch_of(clamped(p as int, 1, 4095)) as i32
            },
    )
}

/// By what the mixers choose their weights: the partial byte, the previous
/// byte, and the state of the match or of the byte.
pub open spec fn mixer_contexts(m: Model) -> Seq<usize> {
    seq![
        sentinel(m.partial) as usize,
        recent(m.bytes, 1) as usize,
        if m.match_valid {
            (8 + clamped(m.match_len as int, 0, 7)) as usize
        } else {
            m.partial.len() as usize
        },
    ]
}

/// The probability that the second layer of mixers answers.
pub open spec fn mixed_p(out: i32) -> int {
    clamped(squash_of(out as int), 1, 4094)
}

/// The context of the second refinement stage.
pub open spec fn stage2_context(m: Model) -> int {
    recent(m.bytes, 2) as int * 0x9E37_79B1 % 0x1_0000_0000 / 0x10_0000
}

/// A probability after a stage has refined it: its own weight is a quarter.
pub open spec fn stage_p(curves: Seq<u16>, p: int, ctx: int) -> int {
    clamped((p + 3 * refined(curves, p, ctx)) / 4, 1, 4094)
}

/// The model after it has gathered what the mixers take in.
pub open spec fn gathered(m: Model, p: i32) -> Model {
    Model {
        last: Prediction {
            idx: Seq::new(NMODELS as nat, |i: int| place(m, i) as usize),
            match_bit: if !m.match_valid {
                m.last.match_bit
            } else if followed_bit(m) {
                1
            } else {
                0
            },
            inputs: mixer_inputs(m, p),
            ctx: mixer_contexts(m),
            ..m.last
        },
        ..m
    }
}

/// The model after the mixers have answered and the stages have refined it.
pub open spec fn settled(m: Model, banks: Seq<i32>, out: i32) -> Model {
    let pm = mixed_p(out);
    let ctx1 = sentinel(m.partial);
    let p1 = stage_p(m.apm1.curves, pm, ctx1);
    let ctx2 = stage2_context(m);
    Model {
        apm1: Stage { cell: nearer_cell(pm, ctx1), ..m.apm1 },
        apm2: Stage { cell: nearer_cell(p1, ctx2), ..m.apm2 },
        last: Prediction {
            bank_p: Seq::new(NBANKS as nat, |k: int| squash_of(banks[k] as int) as i32),
            pm,
            p: stage_p(m.apm2.curves, p1, ctx2),
            ..m.last
        },
        ..m
    }
}

/// The model after it has predicted the next bit.
#[verifier::opaque]
pub open spec fn predicted(m: Model, r: Reply) -> Model {
    settled(gathered(m, r.p), r.banks, r.out)
}

/// The network may answer so for the next bit, and then be `after`: it gives its
/// own prediction, and then mixes it with the other opinions.
#[verifier::opaque]
pub open spec fn may_reply<N: Network>(m: Model, net: N, r: Reply, after: N) -> bool {
    &&& may_expect(net, sentinel(m.partial) as usize, r.p)
    &&& may_mix(
        net,
        mixer_inputs(m, r.p),
        mixer_contexts(m),
        Mix { banks: r.banks, out: r.out, net: after },
    )
}

/// The model may be `next`, and the network `after`, once the next bit is predicted.
#[verifier::opaque]
pub open spec fn may_predict<N: Network>(m: Model, net: N, next: Model, after: N) -> bool {
    exists|r: Reply| #[trigger] may_reply(m, net, r, after) && next == predicted(m, r)
}

/// How the mixers of a deterministic network answer for the next bit.
pub open spec fn mix_for<N: Network>(m: Model, net: N) -> Mix<N> {
    let p = expected(net, sentinel(m.partial) as usize);
    mix_of(net, mixer_inputs(m, p), mixer_contexts(m))
}

/// What a deterministic network answers for the next bit.
#[verifier::opaque]
pub open spec fn reply<N: Network>(m: Model, net: N) -> Reply {
    Reply {
        p: expected(net, sentinel(m.partial) as usize),
        banks: mix_for(m, net).banks,
        out: mix_for(m, net).out,
    }
}

/// A deterministic network after it has answered for the next bit.
#[verifier::opaque]
pub open spec fn asked<N: Network>(m: Model, net: N) -> N {
    mix_for(m, net).net
}

/// With a deterministic network there is only one prediction.
pub proof fn lemma_predicted<N: Network>(m: Model, net: N, next: Model, after: N)
    requires
        deterministic::<N>(),
        may_predict(m, net, next, after),
    ensures
        next == predicted(m, reply(m, net)),
        after == asked(m, net),
{
    reveal(may_predict);
    reveal(may_reply);
    reveal(reply);
    reveal(asked);
    let r = choose|r: Reply| #[trigger] may_reply(m, net, r, after) && next == predicted(m, r);
    let c0 = sentinel(m.partial) as usize;
    assert(may_expect(net, c0, expected(net, c0)));
    assert(may_mix(net, mixer_inputs(m, r.p), mixer_contexts(m), mix_for(m, net)));
    assert(r == reply(m, net));
}

/// Law: a prediction leaves all that was learned or remembered as it was.
pub proof fn law_predict_learns_nothing(m: Model, r: Reply)
    ensures
        ({
            let n = predicted(m, r);
            &&& n.tables == m.tables
            &&& n.apm1.curves == m.apm1.curves
            &&& n.apm2.curves == m.apm2.curves
            &&& n.bytes == m.bytes
            &&& n.partial == m.partial
            &&& n.match_table == m.match_table
            &&& n.match_ptr == m.match_ptr
            &&& n.match_len == m.match_len
            &&& n.match_valid == m.match_valid
        }),
{
    reveal(predicted);
}

/// Law: a second prediction without a bit between asks the network the same, and
/// with the same reply changes nothing.
pub proof fn law_predict_twice<N: Network>(m: Model, r: Reply, net: N, s: Reply, after: N)
    ensures
        predicted(predicted(m, r), r) == predicted(m, r),
        may_reply(predicted(m, r), net, s, after) == may_reply(m, net, s, after),
        reply(predicted(m, r), net) == reply(m, net),
        asked(predicted(m, r), net) == asked(m, net),
{
    reveal(predicted);
    reveal(may_reply);
    reveal(reply);
    reveal(asked);
    let n = predicted(m, r);
    assert forall|p: i32| #[trigger] mixer_inputs(n, p) == mixer_inputs(m, p) by {
        assert forall|i: int| 0 <= i < NMODELS implies opinion(n, i) == opinion(m, i) by {}
        assert(mixer_inputs(n, p) =~= mixer_inputs(m, p));
    }
    assert(mixer_contexts(n) =~= mixer_contexts(m));
    assert(gathered(n, r.p).last.idx =~= gathered(m, r.p).last.idx);
    assert(predicted(n, r) =~~= n);
}

/// The stage after it has learned the bit.
pub open spec fn taught_stage(s: Stage, bit: bool) -> Stage {
    Stage { curves: s.curves.update(s.cell, drifted(s.curves[s.cell], bit)), ..s }
}

/// The model after it has learned the bit, with the bit in the current byte.
pub open spec fn taught(m: Model, bit: bool) -> Model {
    let missed = m.match_valid && bit != (m.last.match_bit == 1);
    Model {
        tables: Seq::new(
            NMODELS as nat,
            |i: int|
                m.tables[i].update(
                    m.last.idx[i] as int,
                    learned(m.tables[i][m.last.idx[i] as int], bit),
                ),
        ),
        apm1: taught_stage(m.apm1, bit),
        apm2: taught_stage(m.apm2, bit),
        partial: m.partial.push(bit),
        match_len: if missed {
            0
        } else {
            m.match_len
        },
        match_valid: m.match_valid && !missed,
        ..m
    }
}

/// The byte that eight bits make up.
pub open spec fn whole_byte(bits: Seq<bool>) -> u8 {
    (sentinel(bits) - 256) as u8
}

/// The place of the last four bytes in the match table.
pub open spec fn match_place(bytes: Seq<u8>) -> int {
    recent(bytes, 4) as int * 0x9E37_79B1 % 0x1_0000_0000 / 0x400
}

/// The four bytes before `end` are the last four, and come before them.
pub open spec fn same_context(bytes: Seq<u8>, end: int) -> bool {
    &&& 4 <= end < bytes.len()
    &&& bytes.subrange(end - 4, end) == bytes.subrange(bytes.len() - 4, bytes.len() as int)
}

/// The model after a byte is complete: a match goes on, or starts where the last
/// four bytes occurred before.
pub open spec fn byte_done(m: Model) -> Model {
    let bytes = m.bytes.push(whole_byte(m.partial));
    let partial = Seq::<bool>::empty();
    if bytes.len() < 4 {
        Model { bytes, partial, ..m }
    } else {
        let candidate = m.match_table[match_place(bytes)];
        let (ptr, len) = if m.match_valid {
            (m.match_ptr + 1, m.match_len.saturating_add(1))
        } else if candidate != u32::MAX && same_context(bytes, candidate as int) {
            (candidate as int, 1u32)
        } else {
            (m.match_ptr, 0u32)
        };
        Model {
            bytes,
            partial,
            match_table: m.match_table.update(match_place(bytes), bytes.len() as u32),
            match_ptr: ptr,
            match_len: len,
            match_valid: len > 0 && ptr < bytes.len(),
            ..m
        }
    }
}

/// The model after the bit that it has predicted.
#[verifier::opaque]
pub open spec fn updated(m: Model, bit: bool) -> Model {
    let t = taught(m, bit);
    if t.partial.len() == 8 {
        byte_done(t)
    } else {
        t
    }
}

/// How far the probabilities of the banks were from certainty of the bit.
pub open spec fn bank_errors(m: Model, bit: bool) -> Seq<i32> {
    Seq::new(NBANKS as nat, |k: int| (certainty(bit) - m.last.bank_p[k]) as i32)
}

/// The network may be `after` once it was told the bit, and the byte where the
/// bit ends one.
#[verifier::opaque]
pub open spec fn may_hear<N: Network>(m: Model, net: N, bit: bool, after: N) -> bool {
    let err = (certainty(bit) - m.last.pm) as i32;
    exists|n: N|
        {
            &&& #[trigger] may_learn(net, bank_errors(m, bit), err, n)
            &&& if m.partial.len() == 7 {
                may_take(n, whole_byte(m.partial.push(bit)), after)
            } else {
                n == after
            }
        }
}

/// A deterministic network after it was told the bit, and the byte where the bit
/// ends one.
#[verifier::opaque]
pub open spec fn told<N: Network>(m: Model, net: N, bit: bool) -> N {
    let n = after_learn(net, bank_errors(m, bit), (certainty(bit) - m.last.pm) as i32);
    if m.partial.len() == 7 {
        after_byte(n, whole_byte(m.partial.push(bit)))
    } else {
        n
    }
}

/// A deterministic network goes on in only one way.
pub proof fn lemma_told<N: Network>(m: Model, net: N, bit: bool, after: N)
    requires
        deterministic::<N>(),
        may_hear(m, net, bit, after),
    ensures
        after == told(m, net, bit),
{
    reveal(may_hear);
    reveal(told);
    let err = (certainty(bit) - m.last.pm) as i32;
    let n = after_learn(net, bank_errors(m, bit), err);
    assert(may_learn(net, bank_errors(m, bit), err, n));
    if m.partial.len() == 7 {
        let byte = whole_byte(m.partial.push(bit));
        assert(may_take(n, byte, after_byte(n, byte)));
    }
}

/// The model before the first bit.
#[verifier::opaque]
pub open spec fn initial() -> Model {
    Model {
        tables: Seq::new(
            NMODELS as nat,
            |i: int|
                fresh_table(
                    if i == 0 {
                        256
                    } else {
                        TABLE_SIZE as nat
                    },
                ),
        ),
        apm1: Stage { curves: fresh_curves(256), cell: 0 },
        apm2: Stage { curves: fresh_curves(4096), cell: 0 },
        bytes: Seq::empty(),
        partial: Seq::empty(),
        match_table: Seq::new(MATCH_SIZE as nat, |i: int| u32::MAX),
        match_ptr: 0,
        match_len: 0,
        match_valid: false,
        last: Prediction {
            idx: Seq::new(NMODELS as nat, |i: int| 0usize),
            match_bit: 0,
            inputs: Seq::new(NINPUTS as nat, |i: int| 0i32),
            ctx: Seq::new(NBANKS as nat, |k: int| 0usize),
            bank_p: Seq::new(NBANKS as nat, |k: int| 2048i32),
            pm: 2048,
            p: 2048,
        },
    }
}

/// The model as it runs.
pub struct Mixer {
    tables: Vec<CtxTable>,
    stretch: Vec<i16>,
    apm1: Apm,  // SSE stage 1: partial-byte context
    apm2: Apm,  // SSE stage 2: order-2 hashed context
    c0: u32,  // partial byte with leading 1 sentinel
    c4: u32,  // last 4 whole bytes
    c8: u64,  // last 8 whole bytes
    word: u32,
    nbits: u32,  // bits consumed of the current byte
    partial: Ghost<Seq<bool>>,
    // Match model: predicts the next bit by following the most recent
    // occurrence of the current 4-byte context through history.
    buf: Vec<u8>,
    match_table: Vec<u32>,
    match_ptr: usize,
    match_len: u32,
    match_valid: bool,
    expected_byte: u8,
    match_bit: u32,
    base: [usize; NMODELS],  // per-byte context hashes, refreshed once per byte
    idx: [usize; NMODELS],
    st: [i32; NINPUTS],
    bank_ctx: [usize; NBANKS],
    bank_p: [i32; NBANKS],  // layer-1 outputs squashed, for their own training
    pm: i32,  // layer-2 output (pre-SSE), used for weight training
    p: i32,  // final probability used for coding
}

impl View for Mixer {
    type V = Model;

    closed spec fn view(&self) -> Model {
        Model {
            tables: Seq::new(self.tables@.len(), |i: int| self.tables@[i]@),
            apm1: Stage { curves: self.apm1.curves(), cell: self.apm1.cell() },
            apm2: Stage { curves: self.apm2.curves(), cell: self.apm2.cell() },
            bytes: self.buf@,
            partial: self.partial@,
            match_table: self.match_table@,
            match_ptr: self.match_ptr as int,
            match_len: self.match_len,
            match_valid: self.match_valid,
            last: Prediction {
                idx: self.idx@,
                match_bit: self.match_bit,
                inputs: self.st@,
                ctx: self.bank_ctx@,
                bank_p: self.bank_p@,
                pm: self.pm as int,
                p: self.p as int,
            },
        }
    }
}

impl Mixer {
    /// The state of the model between two bits.
    pub closed spec fn wf(&self) -> bool {
        self.inv() && self.nbits < 8
    }

    spec fn inv(&self) -> bool {
        &&& self.tables_wf()
        &&& self.bases_wf()
        &&& is_stretch_table(self.stretch@)
        &&& self.apm1.wf() && self.apm1.curves().len() == 256 * 33
        &&& self.apm2.wf() && self.apm2.curves().len() == 4096 * 33
        &&& self.partial@.len() == self.nbits <= 8
        &&& self.c0 == sentinel(self.partial@)
        &&& self.match_table@.len() == MATCH_SIZE
        &&& self.match_valid ==> self.match_ptr < self.buf@.len() && self.expected_byte
            == self.buf@[self.match_ptr as int]
        &&& self.match_bit <= 1
        &&& forall|k: int| 0 <= k < NBANKS ==> 0 <= #[trigger] self.bank_p[k] <= 4095
        &&& 1 <= self.pm <= 4094
        &&& 1 <= self.p <= 4094
    }

    spec fn tables_wf(&self) -> bool {
        &&& self.tables@.len() == NMODELS
        &&& forall|i: int|
            0 <= i < NMODELS ==> (#[trigger] self.tables@[i])@.len() == if i == 0 {
                256int
            } else {
                TABLE_SIZE as int
            }
        &&& forall|i: int|
            0 <= i < NMODELS ==> #[trigger] self.idx[i] < if i == 0 {
                256
            } else {
                TABLE_SIZE
            }
    }

    spec fn bases_wf(&self) -> bool {
        &&& self.bytes_wf()
        &&& forall|i: int|
            1 <= i < NMODELS ==> #[trigger] self.base[i] == context_place(self.buf@, i)
        &&& forall|i: int| 0 <= i < NMODELS ==> #[trigger] self.base[i] < TABLE_SIZE
    }

    spec fn bytes_wf(&self) -> bool {
        &&& self.c4 == recent(self.buf@, 4)
        &&& self.c8 == recent(self.buf@, 8)
        &&& self.word == word_of(self.buf@)
    }

    /// The model before the first bit.
    pub fn new() -> (mixer: Self)
        ensures
            mixer.wf(),
            mixer@ == initial(),
    {
        let mut tables: Vec<CtxTable> = Vec::with_capacity(NMODELS);
        tables.push(CtxTable::new(256));  // order 0
        while tables.len() < NMODELS
            invariant
                1 <= tables@.len() <= NMODELS,
                tables@[0]@ == fresh_table(256),
                forall|i: int|
                    1 <= i < tables@.len() ==> (#[trigger] tables@[i])@ == fresh_table(
                        TABLE_SIZE as nat,
                    ),
            decreases NMODELS - tables@.len(),
        {
            tables.push(CtxTable::new(TABLE_SIZE));
        }
        let match_table: Vec<u32> = vec![u32::MAX; MATCH_SIZE];
        let mut mixer = Mixer {
            tables,
            stretch: build_stretch(),
            apm1: Apm::new(256),
            apm2: Apm::new(4096),
            c0: 1,
            c4: 0,
            c8: 0,
            word: 0,
            nbits: 0,
            partial: Ghost(Seq::empty()),
            buf: Vec::new(),
            match_table,
            match_ptr: 0,
            match_len: 0,
            match_valid: false,
            expected_byte: 0,
            match_bit: 0,
            base: [0; NMODELS],
            idx: [0; NMODELS],
            st: [0; NINPUTS],
            bank_ctx: [0; NBANKS],
            bank_p: [2048; NBANKS],
            pm: 2048,
            p: 2048,
        };
        mixer.refresh_bases();
        proof {
            reveal(initial);
            assert(mixer@ =~~= initial());
        }
        mixer
    }

    /// Looks up where the contexts of the next byte start.
    fn refresh_bases(&mut self)
        requires
            old(self).bytes_wf(),
        ensures
            *final(self) == (Mixer { base: final(self).base, ..*old(self) }),
            final(self).bases_wf(),
    {
        let c4: u32 = self.c4;
        let c8: u64 = self.c8;
        proof {
            lemma_recent4(self.buf@, 0);
            lemma_recent8(self.buf@, 0);
            assert(c4 & 0xFF == c4 % 0x100) by (bit_vector);
            assert(c4 & 0xFFFF == c4 % 0x1_0000) by (bit_vector);
            assert(c4 & 0xFF_FFFF == c4 % 0x100_0000) by (bit_vector);
            assert(c8 & 0xFF_FFFF_FFFF == c8 % 0x100_0000_0000) by (bit_vector);
            assert(c8 & 0xFFFF_FFFF_FFFF == c8 % 0x1_0000_0000_0000) by (bit_vector);
            assert((c8 >> 8) & 0xFFFF == c8 / 256 % 0x1_0000) by (bit_vector);
            assert((c8 >> 8) & 0xFFFF <= 0xFFFF) by (bit_vector);
        }
        self.base = [
            0,
            hash(c4 & 0xFF, 0x01),
            hash(c4 & 0xFFFF, 0x02),
            hash(c4 & 0xFF_FFFF, 0x03),
            hash(c4, 0x04),
            hash64(c8 & 0xFF_FFFF_FFFF, 0x05),
            hash64(c8 & 0xFFFF_FFFF_FFFF, 0x06),
            hash(self.word, 0x07),
            hash(((c8 >> 8) & 0xFFFF) as u32, 0x08),  // gap: skips newest byte
        ];
    }

    /// Gathers what the mixers take in, where `p` is the network's own prediction.
    pub fn gather(&mut self, p: i32)
        requires
            old(self).wf(),
        ensures
            final(self).wf(),
            final(self)@ == gathered(old(self)@, p),
    {
        proof {
            lemma_sentinel(self.partial@);
            lemma_recent4(self.buf@, 0);
        }
        let c0: usize = self.c0 as usize;
        let c0mix: usize = c0 * 0x02ED;
        self.idx[0] = c0;
        let mut i: usize = 1;
        while i < NMODELS
            invariant
                1 <= i <= NMODELS,
                old(self).wf(),
                c0 == sentinel(old(self).partial@) < 256,
                c0mix == c0 * 0x02ED,
                *self == (Mixer { idx: self.idx, ..*old(self) }),
                forall|k: int| 0 <= k < i ==> #[trigger] self.idx[k] == place(old(self)@, k),
            decreases NMODELS - i,
        {
            self.idx[i] = (self.base[i] + c0mix) % TABLE_SIZE;
            i = i + 1;
        }
        i = 0;
        while i < NMODELS
            invariant
                i <= NMODELS,
                old(self).wf(),
                sentinel(old(self).partial@) < 256,
                *self == (Mixer { idx: self.idx, st: self.st, ..*old(self) }),
                forall|k: int| 0 <= k < NMODELS ==> #[trigger] self.idx[k] == place(old(self)@, k),
                forall|k: int| 0 <= k < i ==> #[trigger] self.st[k] == opinion(old(self)@, k),
            decreases NMODELS - i,
        {
            assert(self.idx[i as int] == place(old(self)@, i as int));
            assert(old(self)@.tables[i as int] == self.tables@[i as int]@);
            let pr: usize = self.tables[i].prob(self.idx[i]);
            self.st[i] = self.stretch[pr] as i32;
            i = i + 1;
        }
        if self.match_valid {
            let shift: u8 = 7 - self.nbits as u8;
            let b: u8 = self.expected_byte;
            assert((b >> shift) & 1 <= 1) by (bit_vector);
            self.match_bit = ((b >> shift) & 1) as u32;
            let sureness: i32 = if self.match_len < 7 {
                256 + 256 * self.match_len as i32
            } else {
                2047
            };
            self.st[NMODELS] = if self.match_bit == 1 { sureness } else { -sureness };
        } else {
            self.st[NMODELS] = 0;
        }
        let q: usize = if p < 1 {
            1
        } else if p > 4095 {
            4095
        } else {
            p as usize
        };
        self.st[NMODELS + 1] = self.stretch[q] as i32;

        let c4: u32 = self.c4;
        assert(c4 & 0xFF == c4 % 0x100) by (bit_vector);
        self.bank_ctx = [
            c0,
            (c4 & 0xFF) as usize,
            if self.match_valid {
                8 + if self.match_len < 7 { self.match_len as usize } else { 7 }
            } else {
                self.nbits as usize
            },
        ];
        proof {
            let m = old(self)@;
            assert(self.idx@ =~= gathered(m, p).last.idx);
            assert(self.st@ =~= mixer_inputs(m, p));
            assert(self.bank_ctx@ =~= mixer_contexts(m));
            assert(self@ =~~= gathered(m, p));
        }
    }

    /// Takes the mixers' answer, refines it in two stages, and returns the
    /// probability that the next bit is a 1.
    pub fn settle(&mut self, mixed: &Mixed) -> (p: u16)
        requires
            old(self).wf(),
        ensures
            final(self).wf(),
            final(self)@ == settled(old(self)@, mixed.banks@, mixed.out),
            p == final(self)@.last.p,
            1 <= p <= 4094,
    {
        proof {
            lemma_sentinel(self.partial@);
            lemma_recent4(self.buf@, 0);
        }
        self.bank_p = [squash(mixed.banks[0]), squash(mixed.banks[1]), squash(mixed.banks[2])];
        self.pm = clamp12(squash(mixed.out));

        // SSE chain: two learned refinement stages.
        let a1: i32 = self.apm1.refine(self.pm, self.c0 as usize, &self.stretch);
        let p1: i32 = clamp12((self.pm + 3 * a1) / 4);
        let c4: u32 = self.c4;
        assert(c4 & 0xFFFF == c4 % 0x1_0000) by (bit_vector);
        let h: u32 = (c4 & 0xFFFF).wrapping_mul(0x9E37_79B1);
        assert(h >> 20 == h / 0x10_0000) by (bit_vector);
        assert(h >> 20 < 4096) by (bit_vector);
        let ctx2: usize = (h >> 20) as usize;
        let a2: i32 = self.apm2.refine(p1, ctx2, &self.stretch);
        self.p = clamp12((p1 + 3 * a2) / 4);
        proof {
            let m = settled(old(self)@, mixed.banks@, mixed.out);
            assert(self.bank_p@ =~= m.last.bank_p);
            assert(self@ =~~= m);
        }
        self.p as u16
    }

    /// Predicts the next bit: the probability that it is a 1. Hands the network
    /// back as it is after it was asked.
    pub fn predict<N: Network>(&mut self, net: N) -> (r: (u16, N))
        requires
            old(self).wf(),
        ensures
            final(self).wf(),
            may_predict(old(self)@, net, final(self)@, r.1),
            r.0 == final(self)@.last.p,
            1 <= r.0 <= 4094,
    {
        proof {
            lemma_sentinel(self.partial@);
        }
        let own: i32 = net.bit_p(self.c0 as usize);
        self.gather(own);
        let (mixed, after): (Mixed, N) = ask_mix(net, &self.st, &self.bank_ctx);
        let p: u16 = self.settle(&mixed);
        proof {
            let reply = Reply { p: own, banks: mixed.banks@, out: mixed.out };
            assert(may_reply(old(self)@, net, reply, after)) by {
                reveal(may_reply);
            }
            reveal(predicted);
            reveal(may_predict);
        }
        (p, after)
    }

    /// Teaches the tables and the stages the bit, and adds it to the current byte.
    fn teach(&mut self, bit: u32)
        requires
            old(self).wf(),
            bit <= 1,
        ensures
            final(self).inv(),
            final(self)@ == taught(old(self)@, bit != 0),
    {
        proof {
            lemma_sentinel(self.partial@);
        }
        self.apm1.update(bit);
        self.apm2.update(bit);
        let mut i: usize = 0;
        let ghost start = *self;
        while i < NMODELS
            invariant
                i <= NMODELS,
                bit <= 1,
                start.inv(),
                *self == (Mixer { tables: self.tables, ..start }),
                self.tables@.len() == NMODELS,
                forall|k: int|
                    i <= k < NMODELS ==> (#[trigger] self.tables@[k])@ == start.tables@[k]@,
                forall|k: int|
                    0 <= k < i ==> (#[trigger] self.tables@[k])@ == start.tables@[k]@.update(
                        start.idx[k] as int,
                        learned(start.tables@[k]@[start.idx[k] as int], bit != 0),
                    ),
            decreases NMODELS - i,
        {
            assert(start.idx[i as int] < start.tables@[i as int]@.len());
            let ix: usize = self.idx[i];
            self.tables[i].update(ix, bit);
            i = i + 1;
        }
        if self.match_valid && bit != self.match_bit {
            self.match_valid = false;
            self.match_len = 0;
        }
        let c0: u32 = self.c0;
        assert((c0 << 1) | bit == c0 * 2 + bit) by (bit_vector)
            requires
                c0 < 256,
                bit <= 1,
        ;
        self.c0 = (c0 << 1) | bit;
        self.nbits = self.nbits + 1;
        let ghost bits = self.partial@;
        self.partial = Ghost(bits.push(bit != 0));
        proof {
            assert(bits == old(self).partial@);
            assert(bits.push(bit != 0).drop_last() == bits);
            let m = taught(old(self)@, bit != 0);
            assert(self@.tables =~= m.tables);
            assert(self@ =~~= m);
            assert(self.tables_wf()) by {
                assert forall|k: int| 0 <= k < NMODELS implies (#[trigger] self.tables@[k])@.len()
                    == start.tables@[k]@.len() by {}
            }
        }
    }

    /// Ends the current byte, and returns it.
    fn end_byte(&mut self) -> (b: u8)
        requires
            old(self).inv(),
            old(self).nbits == 8,
        ensures
            final(self).wf(),
            b == whole_byte(old(self).partial@),
            final(self)@ == byte_done(old(self)@),
    {
        proof {
            lemma_sentinel(self.partial@);
        }
        let b: u8 = (self.c0 - 256) as u8;
        let ghost before = self.buf@;
        proof {
            lemma_recent4(before, b);
            lemma_recent8(before, b);
        }
        let c4: u32 = self.c4;
        assert((c4 << 8) | b as u32 == c4 % 0x100_0000 * 256 + b) by (bit_vector);
        self.c4 = (c4 << 8) | b as u32;
        let c8: u64 = self.c8;
        assert((c8 << 8) | b as u64 == c8 % 0x100_0000_0000_0000 * 256 + b) by (bit_vector);
        self.c8 = (c8 << 8) | b as u64;
        self.word = if is_word(b) {
            self.word.wrapping_mul(0x0100_0193) ^ b as u32
        } else {
            0
        };
        self.c0 = 1;
        self.nbits = 0;
        self.partial = Ghost(Seq::empty());
        self.buf.push(b);
        assert(self.buf@.drop_last() == before);

        if self.buf.len() >= 4 {
            proof {
                lemma_recent4(self.buf@, 0);
            }
            let h: u32 = self.c4.wrapping_mul(0x9E37_79B1);
            assert(h >> 10 == h / 0x400) by (bit_vector);
            assert(h >> 10 < 4_194_304) by (bit_vector);
            let mh: usize = (h >> 10) as usize;
            if self.match_valid {
                self.match_ptr = self.match_ptr + 1;
                self.match_len = self.match_len.saturating_add(1);
            } else {
                let cand: u32 = self.match_table[mh];
                if cand != u32::MAX && repeats(&self.buf, cand as usize) {
                    self.match_ptr = cand as usize;
                    self.match_len = 1;
                } else {
                    self.match_len = 0;
                }
            }
            self.match_table[mh] = self.buf.len() as u32;
            self.match_valid = self.match_len > 0 && self.match_ptr < self.buf.len();
            if self.match_valid {
                self.expected_byte = self.buf[self.match_ptr];
            }
        }
        self.refresh_bases();
        assert(self@ =~~= byte_done(old(self)@));
        b
    }

    /// Learns the bit that was predicted. Hands the network back as it is after it
    /// was told.
    pub fn update<N: Network>(&mut self, bit: u32, net: N) -> (after: N)
        requires
            old(self).wf(),
            bit <= 1,
        ensures
            final(self).wf(),
            final(self)@ == updated(old(self)@, bit != 0),
            may_hear(old(self)@, net, bit != 0, after),
    {
        let target: i32 = if bit != 0 { 4096 } else { 0 };
        assert(0 <= self.bank_p[0] <= 4095 && 0 <= self.bank_p[1] <= 4095 && 0 <= self.bank_p[2]
            <= 4095);
        let bank_err: [i32; NBANKS] = [
            target - self.bank_p[0],
            target - self.bank_p[1],
            target - self.bank_p[2],
        ];
        assert(bank_err@ == bank_errors(self@, bit != 0));
        let err: i32 = target - self.pm;
        let mut after: N = tell_errors(net, &bank_err, err);
        let ghost n = after;
        self.teach(bit);
        if self.nbits == 8 {
            let b: u8 = self.end_byte();
            after = after.on_byte(b);
        }
        proof {
            reveal(updated);
            reveal(may_hear);
            let m = old(self)@;
            assert(err == (certainty(bit != 0) - m.last.pm) as i32);
            assert(may_learn(net, bank_errors(m, bit != 0), err, n));
            if m.partial.len() == 7 {
                assert(may_take(n, whole_byte(m.partial.push(bit != 0)), after));
            } else {
                assert(n == after);
            }
            assert(may_hear(m, net, bit != 0, after));
        }
        after
    }
}

/// Keeps a probability away from certainty.
fn clamp12(p: i32) -> (r: i32)
    ensures
        r == clamped(p as int, 1, 4094),
{
    if p < 1 {
        1
    } else if p > 4094 {
        4094
    } else {
        p
    }
}

/// Whether the four bytes before `end` are the last four.
fn repeats(bytes: &Vec<u8>, end: usize) -> (r: bool)
    requires
        4 <= bytes@.len(),
    ensures
        r == same_context(bytes@, end as int),
{
    let n: usize = bytes.len();
    if end < 4 || end >= n {
        return false;
    }
    let ghost earlier = bytes@.subrange(end - 4, end as int);
    let ghost last = bytes@.subrange(n - 4, n as int);
    let r: bool = bytes[end - 4] == bytes[n - 4] && bytes[end - 3] == bytes[n - 3] && bytes[end - 2]
        == bytes[n - 2] && bytes[end - 1] == bytes[n - 1];
    proof {
        if r {
            assert(earlier == last);
        } else {
            assert(earlier[0] != last[0] || earlier[1] != last[1] || earlier[2] != last[2]
                || earlier[3] != last[3]);
        }
    }
    r
}

/// Whether the byte belongs to a word.
fn is_word(b: u8) -> (r: bool)
    ensures
        r == is_word_byte(b),
{
    (48 <= b && b <= 57) || (65 <= b && b <= 90) || (97 <= b && b <= 122)
}

} // verus!
