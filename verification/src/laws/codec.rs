//! Laws of the container.

use crate::codec::{
    compressed, container, is_ai, mode_byte, packed, restored, stored_len, Mode, MAGIC,
};
use crate::error::Error;
use crate::laws::bytes::{law_le_digit, law_le_eight, pow256};
use crate::le::{le_bytes, lemma_le_bytes_len};
use crate::lz;
use crate::model;
use crate::model::network::Network;
use vstd::prelude::*;

verus! {

/// The bytes start with "MOUT".
pub open spec fn has_magic(bytes: Seq<u8>) -> bool {
    bytes.len() >= 4 && bytes[0] == 77 && bytes[1] == 79 && bytes[2] == 85 && bytes[3] == 84
}

/// Law: a payload that is shorter than the data is kept: it is what stands behind
/// the header, which names its engine.
pub proof fn law_keeps_a_shorter_payload(data: Seq<u8>, mode: Mode, payload: Seq<u8>)
    requires
        payload.len() < data.len(),
    ensures
        packed(data, mode, payload).len() == 13 + payload.len(),
        packed(data, mode, payload)[4] == mode_byte(mode),
        packed(data, mode, payload).skip(13) == payload,
{
    lemma_le_bytes_len(data.len(), 8);
    assert(packed(data, mode, payload).skip(13) == payload);
}

/// Law: a container is as long as its header and the shorter one of the payload
/// and the data.
pub proof fn law_container_len(data: Seq<u8>, mode: Mode, payload: Seq<u8>)
    ensures
        payload.len() <= data.len() ==> packed(data, mode, payload).len() == 13 + payload.len(),
        payload.len() >= data.len() ==> packed(data, mode, payload).len() == 13 + data.len(),
{
    lemma_le_bytes_len(data.len(), 8);
}

/// Law: a container starts with the magic bytes, a mode byte and the length of the
/// data in eight bytes, the lowest first.
pub proof fn law_header(data: Seq<u8>, mode: Mode, payload: Seq<u8>, i: nat)
    requires
        i < 8,
    ensures
        has_magic(packed(data, mode, payload)),
        packed(data, mode, payload)[4] == if payload.len() < data.len() {
            mode_byte(mode)
        } else {
            mode_byte(Mode::Raw)
        },
        packed(data, mode, payload)[5 + i as int] as nat == data.len() / pow256(i) % 256,
{
    law_le_digit(data.len(), 8, i);
    assert(packed(data, mode, payload)[5 + i as int] == le_bytes(data.len(), 8)[i as int]);
}

/// Law: the mode bytes are 0, 1 and 2.
pub proof fn law_mode_bytes()
    ensures
        mode_byte(Mode::Raw) == 0,
        mode_byte(Mode::Lz) == 1,
        mode_byte(Mode::Ai) == 2,
{
}

/// Law: the length in a header is the number that its eight bytes spell, as far as
/// the machine can hold it.
pub proof fn law_stored_len(b: Seq<u8>)
    requires
        b.len() >= 13,
    ensures
        ({
            let len = b[5] + 0x100 * b[6] + 0x1_0000 * b[7] + 0x100_0000 * b[8] + 0x1_0000_0000
                * b[9] + 0x100_0000_0000 * b[10] + 0x1_0000_0000_0000 * b[11]
                + 0x100_0000_0000_0000 * b[12];
            len <= usize::MAX ==> stored_len(b) == len
        }),
{
    law_le_eight(b.subrange(5, 13));
}

/// Law: a container of the AI engine is never one of the LZ engine, and the other
/// way round: the mode byte is that of the engine asked for, or of raw storage
/// where its payload is not shorter than the data.
pub proof fn law_the_engine_asked_for<N: Network>(data: Seq<u8>, net: N)
    ensures
        ({
            let c = compressed(data, true, net);
            let payload = model::compressed(data, net);
            &&& c.len() >= 13
            &&& payload.len() < data.len() ==> c[4] == 2 && c.skip(13) == payload
            &&& payload.len() >= data.len() ==> c[4] == 0 && c.skip(13) == data
        }),
        ({
            let c = compressed(data, false, net);
            let payload = lz::compressed(data);
            &&& c.len() >= 13
            &&& payload.len() < data.len() ==> c[4] == 1 && c.skip(13) == payload
            &&& payload.len() >= data.len() ==> c[4] == 0 && c.skip(13) == data
        }),
{
    lemma_le_bytes_len(data.len(), 8);
    let ai = model::compressed(data, net);
    let plain = lz::compressed(data);
    if ai.len() < data.len() {
        law_keeps_a_shorter_payload(data, Mode::Ai, ai);
    } else {
        assert(compressed(data, true, net).skip(13) == data);
    }
    if plain.len() < data.len() {
        law_keeps_a_shorter_payload(data, Mode::Lz, plain);
    } else {
        assert(compressed(data, false, net).skip(13) == data);
    }
}

/// Law: what bytes decompress to is read from their header: too few bytes, other
/// magic bytes or an unknown mode byte are refused, each with its own error; a raw
/// container holds its data behind the header, all of them and nothing more; and
/// the other two are read by the engine that the mode byte names.
pub proof fn law_read_by_the_header<N: Network>(b: Seq<u8>, net: N)
    ensures
        b.len() < 13 ==> restored(b, net) == Err::<Seq<u8>, Error>(Error::TooShort),
        b.len() >= 13 && !has_magic(b) ==> restored(b, net) == Err::<Seq<u8>, Error>(
            Error::BadMagic,
        ),
        b.len() >= 13 && has_magic(b) && b[4] >= 3 ==> restored(b, net) == Err::<Seq<u8>, Error>(
            Error::UnknownMode(b[4]),
        ),
        b.len() >= 13 && has_magic(b) && b[4] == 0 && stored_len(b) != b.len() - 13 ==> restored(
            b,
            net,
        ) == Err::<Seq<u8>, Error>(Error::RawLength),
        b.len() >= 13 && has_magic(b) && b[4] == 0 && stored_len(b) == b.len() - 13 ==> restored(
            b,
            net,
        ) == Ok::<Seq<u8>, Error>(b.skip(13)),
        b.len() >= 13 && has_magic(b) && b[4] == 1 ==> restored(b, net) == lz::decompressed(
            b.skip(13),
            stored_len(b),
        ),
        b.len() >= 13 && has_magic(b) && b[4] == 2 ==> restored(b, net) == Ok::<Seq<u8>, Error>(
            model::decompressed(b.skip(13), stored_len(b) as nat, net),
        ),
        is_ai(b) <==> b.len() >= 13 && has_magic(b) && b[4] == 2,
{
    if b.len() >= 13 {
        let m = b.take(4);
        if has_magic(b) {
            assert(m == MAGIC@);
        } else {
            assert(m[0] != MAGIC@[0] || m[1] != MAGIC@[1] || m[2] != MAGIC@[2] || m[3]
                != MAGIC@[3]);
        }
    }
}

/// Law: whenever a raw container decompresses, the result is exactly the bytes
/// behind its header, and there are as many as the header says.
pub proof fn law_raw_is_what_is_there<N: Network>(b: Seq<u8>, net: N)
    requires
        b.len() > 4,
        b[4] == 0,
        restored(b, net) is Ok,
    ensures
        b.len() >= 13,
        restored(b, net) == Ok::<Seq<u8>, Error>(b.skip(13)),
        b.len() - 13 == stored_len(b),
{
    law_read_by_the_header(b, net);
}

/// The same length stands in a container that is cut short, or has bytes behind it.
proof fn lemma_same_len(b: Seq<u8>, j: int, tail: Seq<u8>)
    requires
        b.len() >= 13,
    ensures
        13 <= j <= b.len() ==> stored_len(b.take(j)) == stored_len(b),
        stored_len(b + tail) == stored_len(b),
{
    if 13 <= j <= b.len() {
        assert(b.take(j).subrange(5, 13) == b.subrange(5, 13));
    }
    assert((b + tail).subrange(5, 13) == b.subrange(5, 13));
}

/// The length in the header of a container is that of the data.
proof fn lemma_stored_len(data: Seq<u8>, mode: Mode, payload: Seq<u8>)
    requires
        data.len() <= usize::MAX,
    ensures
        stored_len(container(mode, data.len(), payload)) == data.len(),
        container(mode, data.len(), payload).len() == 13 + payload.len(),
        container(mode, data.len(), payload).skip(13) == payload,
        has_magic(container(mode, data.len(), payload)),
{
    let c = container(mode, data.len(), payload);
    lemma_le_bytes_len(data.len(), 8);
    crate::le::lemma_u64_fits(data.len() as u64);
    crate::le::law_le_round_trip(data.len(), 8);
    assert(c.subrange(5, 13) == le_bytes(data.len(), 8));
    assert(c.skip(13) == payload);
}

/// Law: a raw container is read only as a whole: cut short, or with bytes behind
/// it, it is refused.
pub proof fn law_only_the_whole_raw_container<N: Network>(
    data: Seq<u8>,
    j: int,
    tail: Seq<u8>,
    net: N,
)
    requires
        data.len() <= usize::MAX,
        0 <= j < 13 + data.len(),
        tail.len() > 0,
    ensures
        ({
            let c = container(Mode::Raw, data.len(), data);
            &&& restored(c, net) == Ok::<Seq<u8>, Error>(data)
            &&& restored(c.take(j), net) is Err
            &&& restored(c + tail, net) is Err
        }),
{
    let c = container(Mode::Raw, data.len(), data);
    lemma_stored_len(data, Mode::Raw, data);
    lemma_same_len(c, j, tail);
    law_read_by_the_header(c, net);
    law_read_by_the_header(c.take(j), net);
    law_read_by_the_header(c + tail, net);
}

/// Law: what the LZ engine made, or stored, is read only as a whole: cut short, or
/// with bytes behind it, it is refused. (No slice is longer than `isize::MAX`.)
pub proof fn law_only_the_whole_lz_container<N: Network>(
    data: Seq<u8>,
    j: int,
    tail: Seq<u8>,
    net: N,
)
    requires
        data.len() <= isize::MAX,
        0 <= j < compressed(data, false, net).len(),
        tail.len() > 0,
    ensures
        restored(compressed(data, false, net), net) == Ok::<Seq<u8>, Error>(data),
        restored(compressed(data, false, net).take(j), net) is Err,
        restored(compressed(data, false, net) + tail, net) is Err,
{
    let payload = lz::compressed(data);
    let c = compressed(data, false, net);
    let len = data.len() as int;
    if payload.len() < data.len() {
        lemma_stored_len(data, Mode::Lz, payload);
        lemma_same_len(c, j, tail);
        law_read_by_the_header(c, net);
        law_read_by_the_header(c.take(j), net);
        law_read_by_the_header(c + tail, net);
        lz::law_round_trip(data);
        lz::law_longer_payload(payload, len, tail);
        assert((c + tail).skip(13) == payload + tail);
        if j >= 13 {
            lz::law_cut_payload(payload, len, j - 13);
            assert(c.take(j).skip(13) == payload.take(j - 13));
        }
    } else {
        lemma_stored_len(data, Mode::Raw, data);
        law_only_the_whole_raw_container(data, j, tail, net);
    }
}

/// Law: a container of the AI engine always decompresses, to as many bytes as its
/// header says.
pub proof fn law_ai_always_decompresses<N: Network>(b: Seq<u8>, net: N)
    requires
        b.len() >= 13,
        has_magic(b),
        b[4] == 2,
    ensures
        restored(b, net) is Ok,
        restored(b, net)->Ok_0.len() == stored_len(b),
{
    law_read_by_the_header(b, net);
    model::law_prefix(b.skip(13), stored_len(b) as nat, stored_len(b) as nat, net);
}

} // verus!
