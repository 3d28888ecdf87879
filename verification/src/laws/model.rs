//! Laws of the AI engine as a whole: how bits follow from data, how the model goes
//! from bit to bit, and what is coded.

use crate::arith;
use crate::laws::mixer::{law_byte_value, worth};
use crate::model::context::byte_bit;
use crate::model::mixer::{asked, initial, predicted, reply, told, updated, whole_byte};
use crate::model::network::Network;
use crate::model::{
    bits_of, bytes_of, compressed, decompressed, law_bytes_of_bits, law_prefix, law_probabilities,
    next_p, probabilities, read_bits, run,
};
use vstd::prelude::*;

verus! {

/// Law: the bits of the data are the binary digits of its bytes, the highest first.
pub proof fn law_bits(data: Seq<u8>, i: int)
    requires
        0 <= i < data.len(),
    ensures
        bits_of(data).len() == 8 * data.len(),
        ({
            let b = bits_of(data).skip(8 * i);
            data[i] == worth(b[0], 128) + worth(b[1], 64) + worth(b[2], 32) + worth(b[3], 16)
                + worth(b[4], 8) + worth(b[5], 4) + worth(b[6], 2) + worth(b[7], 1)
        }),
{
    let bits = bits_of(data);
    let part = bits.subrange(8 * i, 8 * i + 8);
    let b = bits.skip(8 * i);
    law_bytes_of_bits(data);
    law_byte_value(part);
    assert(bytes_of(bits)[i] == data[i]);
    assert(part[0] == b[0] && part[1] == b[1] && part[2] == b[2] && part[3] == b[3] && part[4]
        == b[4] && part[5] == b[5] && part[6] == b[6] && part[7] == b[7]);
}

/// Law: the model starts new, and goes on from bit to bit: each bit is predicted by
/// the model and the network as the bits before have left them, and both then learn it.
/// Nothing is ever forgotten or started anew.
pub proof fn law_bit_by_bit<N: Network>(bits: Seq<bool>, bit: bool, net: N)
    ensures
        run(Seq::empty(), net).model == initial(),
        run(Seq::empty(), net).net == net,
        ({
            let r = run(bits, net);
            let m = predicted(r.model, reply(r.model, r.net));
            let n = run(bits.push(bit), net);
            n.model == updated(m, bit) && n.net == told(m, asked(r.model, r.net), bit)
        }),
{
    assert(bits.push(bit).drop_last() == bits);
}

proof fn lemma_probability<N: Network>(bits: Seq<bool>, net: N, k: int)
    requires
        0 <= k < bits.len(),
    ensures
        probabilities(bits, net).len() == bits.len(),
        ({
            let r = run(bits.take(k), net);
            probabilities(bits, net)[k] == predicted(r.model, reply(r.model, r.net)).last.p
        }),
    decreases bits.len(),
{
    law_probabilities(bits, net);
    let before = bits.drop_last();
    if k == bits.len() - 1 {
        assert(bits.take(k) == before);
        reveal(predicted);
    } else {
        lemma_probability(before, net, k);
        assert(bits.take(k) == before.take(k));
    }
}

/// Law: every bit of the data is coded with the model's own prediction for it, the final
/// one, however much came before.
pub proof fn law_predictions_are_coded<N: Network>(data: Seq<u8>, net: N, ps: Seq<u16>)
    requires
        ps.len() == 8 * data.len(),
        forall|k: int|
            0 <= k < ps.len() ==> #[trigger] ps[k] == ({
                let r = run(bits_of(data).take(k), net);
                predicted(r.model, reply(r.model, r.net)).last.p
            }),
    ensures
        compressed(data, net) == arith::encoded(bits_of(data), ps),
{
    let bits = bits_of(data);
    law_probabilities(bits, net);
    assert forall|k: int| 0 <= k < ps.len() implies ps[k] == probabilities(bits, net)[k] by {
        lemma_probability(bits, net, k);
    }
    assert(ps == probabilities(bits, net));
}

proof fn lemma_decoded<N: Network>(payload: Seq<u8>, n: nat, net: N)
    ensures
        read_bits(payload, n, net).len() == n,
        read_bits(payload, n, net) == arith::decoded(
            payload,
            probabilities(read_bits(payload, n, net), net),
        ),
    decreases n,
{
    if n > 0 {
        let m = (n - 1) as nat;
        let before = read_bits(payload, m, net);
        let bits = read_bits(payload, n, net);
        lemma_decoded(payload, m, net);
        let ps = probabilities(before, net);
        assert(bits.drop_last() == before);
        assert(probabilities(bits, net) == ps.push(next_p(before, net)));
        assert(ps.push(next_p(before, net)).drop_last() == ps);
    }
}

/// The bits of a byte that was made of bits are those bits.
proof fn lemma_bits_of_whole(bits: Seq<bool>, n: int)
    requires
        bits.len() == 8,
        0 <= n < 8,
    ensures
        byte_bit(whole_byte(bits), n) == bits[n],
{
    law_byte_value(bits);
    let x = whole_byte(bits);
    let (a, b, c, d) = (bits[0], bits[1], bits[2], bits[3]);
    let (e, f, g, h) = (bits[4], bits[5], bits[6], bits[7]);
    assert(((x >> 7) & 1 == 1) == a && ((x >> 6) & 1 == 1) == b && ((x >> 5) & 1 == 1) == c && ((x
        >> 4) & 1 == 1) == d && ((x >> 3) & 1 == 1) == e && ((x >> 2) & 1 == 1) == f && ((x >> 1)
        & 1 == 1) == g && ((x >> 0) & 1 == 1) == h) by (bit_vector)
        requires
            x == worth(a, 128) + worth(b, 64) + worth(c, 32) + worth(d, 16) + worth(e, 8) + worth(
                f,
                4,
            ) + worth(g, 2) + worth(h, 1),
    ;
}

/// Law: whatever the payload, the bits of what it decompresses to are those that the
/// coder reads from it with the model's own prediction for each bit.
pub proof fn law_what_is_read<N: Network>(payload: Seq<u8>, n: nat, net: N)
    ensures
        decompressed(payload, n, net).len() == n,
        ({
            let bits = bits_of(decompressed(payload, n, net));
            &&& bits == arith::decoded(payload, probabilities(bits, net))
            &&& forall|k: int|
                0 <= k < bits.len() ==> #[trigger] probabilities(bits, net)[k] == ({
                    let r = run(bits.take(k), net);
                    predicted(r.model, reply(r.model, r.net)).last.p
                })
        }),
{
    let read = read_bits(payload, 8 * n, net);
    let out = decompressed(payload, n, net);
    let bits = bits_of(out);
    law_prefix(payload, n, n, net);
    lemma_decoded(payload, 8 * n, net);
    assert forall|k: int| 0 <= k < bits.len() implies #[trigger] bits[k] == read[k] by {
        let i = k / 8;
        let part = read.subrange(8 * i, 8 * i + 8);
        lemma_bits_of_whole(part, k % 8);
        assert(out[i] == whole_byte(part));
        assert(part[k % 8] == read[k]);
    }
    assert(bits == read);
    assert forall|k: int| 0 <= k < bits.len() implies #[trigger] probabilities(bits, net)[k] == ({
        let r = run(bits.take(k), net);
        predicted(r.model, reply(r.model, r.net)).last.p
    }) by {
        lemma_probability(bits, net, k);
    }
}

} // verus!
