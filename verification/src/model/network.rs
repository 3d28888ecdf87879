//! The neural part of the model, as the rest of it sees it.
//!
//! The weights are not part of this library. It hands a network integers and
//! takes integers back; whatever a network answers, the model goes on.

use vstd::prelude::*;

verus! {

/// The context models.
pub const NMODELS: usize = 9;

/// What the mixers take in: the context models, the match model and the
/// network's own byte predictor.
pub const NINPUTS: usize = NMODELS + 2;

/// The mixers of the first layer.
pub const NBANKS: usize = 3;

/// What the two layers of mixers answer, in the stretch domain.
pub struct Mixed {
    pub banks: [i32; NBANKS],
    pub out: i32,
}

/// A byte predictor and two layers of mixers, all of them trained as the data
/// streams through. What is asked or told hands back the network as it then is.
///
/// Nothing is assumed of a network here; what is proved of the model speaks of
/// the calls that it makes. See `deterministic`.
pub trait Network: Sized {
    /// The probability, in 12 bits, that the next bit is a 1. The bits of the
    /// current byte so far are those of `c0` behind its leading 1.
    fn bit_p(&self, c0: usize) -> i32;

    /// Mixes the inputs. Each mixer of the first layer uses the weights of its
    /// own context, that of the second layer those of the first context.
    fn mix(self, inputs: &[i32; NINPUTS], ctx: &[usize; NBANKS]) -> (Mixed, Self);

    /// Trains the mixers that were used last: how far the probability of each
    /// bank, and that of the second layer, was from certainty of the bit.
    fn learn(self, bank_err: &[i32; NBANKS], err: i32) -> Self;

    /// Trains the byte predictor on the byte that arrived.
    fn on_byte(self, byte: u8) -> Self;
}

/// What the mixers answered, and the network as it then is.
pub struct Mix<N> {
    pub banks: Seq<i32>,
    pub out: i32,
    pub net: N,
}

/// The network may answer `p` to `bit_p`.
pub open spec fn may_expect<N: Network>(net: N, c0: usize, p: i32) -> bool {
    call_ensures(N::bit_p, (&net, c0), p)
}

/// The network may answer so to `mix`.
#[verifier::opaque]
pub open spec fn may_mix<N: Network>(
    net: N,
    inputs: Seq<i32>,
    ctx: Seq<usize>,
    mix: Mix<N>,
) -> bool {
    exists|i: [i32; NINPUTS], c: [usize; NBANKS], r: (Mixed, N)|
        {
            &&& #[trigger] call_ensures(N::mix, (net, &i, &c), r)
            &&& i@ == inputs
            &&& c@ == ctx
            &&& mix == Mix { banks: r.0.banks@, out: r.0.out, net: r.1 }
        }
}

/// The network may be `after` once it has learned.
#[verifier::opaque]
pub open spec fn may_learn<N: Network>(net: N, bank_err: Seq<i32>, err: i32, after: N) -> bool {
    exists|b: [i32; NBANKS]| #[trigger]
        call_ensures(N::learn, (net, &b, err), after) && b@ == bank_err
}

/// The network may be `after` once it has seen the byte.
pub open spec fn may_take<N: Network>(net: N, byte: u8, after: N) -> bool {
    call_ensures(N::on_byte, (net, byte), after)
}

/// Asks the mixers.
pub(crate) fn ask_mix<N: Network>(net: N, inputs: &[i32; NINPUTS], ctx: &[usize; NBANKS]) -> (r: (
    Mixed,
    N,
))
    ensures
        may_mix(net, inputs@, ctx@, Mix { banks: r.0.banks@, out: r.0.out, net: r.1 }),
{
    proof {
        reveal(may_mix);
    }
    net.mix(inputs, ctx)
}

/// Tells the mixers how far off they were.
pub(crate) fn tell_errors<N: Network>(net: N, bank_err: &[i32; NBANKS], err: i32) -> (after: N)
    ensures
        may_learn(net, bank_err@, err, after),
{
    proof {
        reveal(may_learn);
    }
    net.learn(bank_err, err)
}

/// What networks of this type answer, and what becomes of them, rests on what
/// they are and on what they are asked or told, and on nothing else. So equal
/// networks that are asked and told the same stay equal.
pub open spec fn deterministic<N: Network>() -> bool {
    &&& forall|net: N, c0: usize, p: i32, q: i32| #[trigger]
        may_expect(net, c0, p) && #[trigger] may_expect(net, c0, q) ==> p == q
    &&& forall|net: N, inputs: Seq<i32>, ctx: Seq<usize>, a: Mix<N>, b: Mix<N>| #[trigger]
        may_mix(net, inputs, ctx, a) && #[trigger] may_mix(net, inputs, ctx, b) ==> a == b
    &&& forall|net: N, bank_err: Seq<i32>, err: i32, a: N, b: N| #[trigger]
        may_learn(net, bank_err, err, a) && #[trigger] may_learn(net, bank_err, err, b) ==> a == b
    &&& forall|net: N, byte: u8, a: N, b: N| #[trigger]
        may_take(net, byte, a) && #[trigger] may_take(net, byte, b) ==> a == b
}

/// What a deterministic network answers to `bit_p`.
pub open spec fn expected<N: Network>(net: N, c0: usize) -> i32 {
    choose|p: i32| may_expect(net, c0, p)
}

/// What a deterministic network answers to `mix`.
pub open spec fn mix_of<N: Network>(net: N, inputs: Seq<i32>, ctx: Seq<usize>) -> Mix<N> {
    choose|mix: Mix<N>| may_mix(net, inputs, ctx, mix)
}

/// A deterministic network after it has learned.
pub open spec fn after_learn<N: Network>(net: N, bank_err: Seq<i32>, err: i32) -> N {
    choose|after: N| may_learn(net, bank_err, err, after)
}

/// A deterministic network after it has seen the byte.
pub open spec fn after_byte<N: Network>(net: N, byte: u8) -> N {
    choose|after: N| may_take(net, byte, after)
}

/// A network without weights: it holds all bits for equally likely and learns
/// nothing. It will do where the LZ engine is the only one to run.
#[derive(Clone, Copy, PartialEq, Eq, Structural, Debug)]
pub struct Blank;

impl Network for Blank {
    fn bit_p(&self, c0: usize) -> (p: i32)
        ensures
            p == 2048,
    {
        2048
    }

    fn mix(self, inputs: &[i32; NINPUTS], ctx: &[usize; NBANKS]) -> (r: (Mixed, Self))
        ensures
            r.0.banks@ == seq![0i32, 0, 0],
            r.0.out == 0,
            r.1 == self,
    {
        let m: Mixed = Mixed { banks: [0, 0, 0], out: 0 };
        assert(m.banks@ == seq![0i32, 0, 0]);
        (m, self)
    }

    fn learn(self, bank_err: &[i32; NBANKS], err: i32) -> (after: Self)
        ensures
            after == self,
    {
        self
    }

    fn on_byte(self, byte: u8) -> (after: Self)
        ensures
            after == self,
    {
        self
    }
}

/// Law: the network without weights is deterministic.
pub proof fn law_blank_is_deterministic()
    ensures
        deterministic::<Blank>(),
{
    reveal(may_mix);
    reveal(may_learn);
}

} // verus!
