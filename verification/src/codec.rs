//! Container format: "MOUT" | mode u8 | original_len u64 LE | payload.
//! Modes: 0 = stored raw, 1 = middle-out LZ, 2 = AI context mixer.

use crate::error::{outcome, Error};
use crate::le;
use crate::lz;
use crate::model;
use crate::model::network::{deterministic, Network};
use vstd::prelude::*;

verus! {

/// "MOUT", in bytes.
pub const MAGIC: [u8; 4] = [77, 79, 85, 84];

/// The bytes before the payload.
pub const HEADER: usize = 13;

/// How a payload stands for the data.
#[derive(Clone, Copy, PartialEq, Eq, Structural, Debug)]
pub enum Mode {
    Raw,
    Lz,
    Ai,
}

/// The byte that a mode has in the header.
pub open spec fn mode_byte(mode: Mode) -> u8 {
    match mode {
        Mode::Raw => 0,
        Mode::Lz => 1,
        Mode::Ai => 2,
    }
}

/// The mode that has this byte in the header.
pub open spec fn mode_of(byte: u8) -> Option<Mode> {
    if byte == 0 {
        Some(Mode::Raw)
    } else if byte == 1 {
        Some(Mode::Lz)
    } else if byte == 2 {
        Some(Mode::Ai)
    } else {
        None
    }
}

/// A header and the payload behind it.
pub open spec fn container(mode: Mode, len: nat, payload: Seq<u8>) -> Seq<u8> {
    MAGIC@.push(mode_byte(mode)) + le::le_bytes(len, 8) + payload
}

/// The container of the data: with the payload that an engine made of them, or
/// with the data themselves where the payload is not shorter.
pub open spec fn packed(data: Seq<u8>, mode: Mode, payload: Seq<u8>) -> Seq<u8> {
    if payload.len() < data.len() {
        container(mode, data.len(), payload)
    } else {
        container(Mode::Raw, data.len(), data)
    }
}

/// What a header and the bytes behind it say.
pub struct Opened {
    pub mode: Mode,
    pub len: int,
    pub payload: Seq<u8>,
}

/// The length that the header gives for the data.
pub open spec fn stored_len(bytes: Seq<u8>) -> int {
    le::le_value(bytes.subrange(5, 13)) as u64 as usize as int
}

/// What a container says, or why it is none.
pub open spec fn opened(bytes: Seq<u8>) -> Result<Opened, Error> {
    if bytes.len() < HEADER {
        Err(Error::TooShort)
    } else if bytes.take(4) != MAGIC@ {
        Err(Error::BadMagic)
    } else {
        let len = stored_len(bytes);
        let payload = bytes.skip(HEADER as int);
        match mode_of(bytes[4]) {
            None => Err(Error::UnknownMode(bytes[4])),
            Some(mode) => if mode == Mode::Raw && payload.len() != len {
                Err(Error::RawLength)
            } else {
                Ok(Opened { mode, len, payload })
            },
        }
    }
}

/// The container that the engine asked for makes of the data. Only the AI engine
/// asks the network, which is a deterministic one.
pub open spec fn compressed<N: Network>(data: Seq<u8>, ai: bool, net: N) -> Seq<u8> {
    if ai {
        packed(data, Mode::Ai, model::compressed(data, net))
    } else {
        packed(data, Mode::Lz, lz::compressed(data))
    }
}

/// What the bytes decompress to, or why they do not. Only the AI engine asks the
/// network, which is a deterministic one.
pub open spec fn restored<N: Network>(bytes: Seq<u8>, net: N) -> Result<Seq<u8>, Error> {
    match opened(bytes) {
        Err(e) => Err(e),
        Ok(o) => match o.mode {
            Mode::Raw => Ok(o.payload),
            Mode::Lz => lz::decompressed(o.payload, o.len),
            Mode::Ai => Ok(model::decompressed(o.payload, o.len as nat, net)),
        },
    }
}

/// The bytes are a container of the AI engine.
pub open spec fn is_ai(bytes: Seq<u8>) -> bool {
    opened(bytes) matches Ok(o) && o.mode == Mode::Ai
}

impl Mode {
    /// The byte that the mode has in the header.
    pub fn byte(self) -> (b: u8)
        ensures
            b == mode_byte(self),
    {
        match self {
            Mode::Raw => 0,
            Mode::Lz => 1,
            Mode::Ai => 2,
        }
    }

    /// The mode that has this byte in the header.
    pub fn from_byte(byte: u8) -> (mode: Option<Mode>)
        ensures
            mode == mode_of(byte),
    {
        match byte {
            0 => Some(Mode::Raw),
            1 => Some(Mode::Lz),
            2 => Some(Mode::Ai),
            _ => None,
        }
    }
}

/// Puts the payload that an engine made of the data into a container, or the
/// data themselves where the payload is not shorter.
pub fn pack(data: &[u8], mode: Mode, payload: &[u8]) -> (out: Vec<u8>)
    ensures
        out@ == packed(data@, mode, payload@),
{
    let (mode, payload): (Mode, &[u8]) = if payload.len() >= data.len() {
        (Mode::Raw, data)
    } else {
        (mode, payload)
    };
    let mut out: Vec<u8> = Vec::new();
    out.extend_from_slice(&MAGIC);
    out.push(mode.byte());
    le::push_u64(&mut out, data.len() as u64);
    out.extend_from_slice(payload);
    out
}

/// Compresses the data with the engine asked for, or stores them as they are
/// where that does not make them shorter. Only the AI engine asks the network.
pub fn compress<N: Network>(data: &[u8], ai: bool, net: N) -> (out: Vec<u8>)
    ensures
        !ai || deterministic::<N>() ==> out@ == compressed(data@, ai, net),
        ai ==> exists|payload: Seq<u8>| #[trigger]
            model::codes(payload, data@) && out@ == packed(data@, Mode::Ai, payload),
{
    if ai {
        let payload: Vec<u8> = model::compress(data, net);
        pack(data, Mode::Ai, &payload)
    } else {
        let payload: Vec<u8> = lz::compress(data);
        pack(data, Mode::Lz, &payload)
    }
}

/// Restores the data that a container stands for, with the engine that its
/// header names.
pub fn decompress<N: Network>(container: &[u8], net: N) -> (r: Result<Vec<u8>, Error>)
    ensures
        !is_ai(container@) || deterministic::<N>() ==> outcome(r) == restored(container@, net),
        is_ai(container@) ==> r is Ok && model::reads(
            container@.skip(HEADER as int),
            r->Ok_0@,
        ),
        r matches Ok(out) ==> out@.len() == stored_len(container@),
{
    let len: usize = container.len();
    if len < HEADER {
        return Err(Error::TooShort);
    }
    if container[0] != MAGIC[0] || container[1] != MAGIC[1] || container[2] != MAGIC[2]
        || container[3] != MAGIC[3] {
        assert(container@.take(4) != MAGIC@) by {
            assert(container@.take(4)[0] == container@[0]);
            assert(container@.take(4)[1] == container@[1]);
            assert(container@.take(4)[2] == container@[2]);
            assert(container@.take(4)[3] == container@[3]);
        }
        return Err(Error::BadMagic);
    }
    assert(container@.take(4) == MAGIC@);
    let orig_len: usize = le::read_u64(container, 5) as usize;
    let payload: &[u8] = &container[HEADER..len];
    assert(payload@ == container@.skip(HEADER as int));
    match Mode::from_byte(container[4]) {
        None => Err(Error::UnknownMode(container[4])),
        Some(Mode::Raw) => {
            if payload.len() != orig_len {
                return Err(Error::RawLength);
            }
            let mut out: Vec<u8> = Vec::new();
            out.extend_from_slice(payload);
            assert(out@ == payload@);
            Ok(out)
        },
        Some(Mode::Lz) => lz::decompress(payload, orig_len),
        Some(Mode::Ai) => Ok(model::decompress(payload, orig_len, net)),
    }
}

/// Law: a mode is read back from its byte, and no two modes share one.
pub proof fn law_mode_byte(mode: Mode, byte: u8)
    ensures
        mode_of(byte) == Some(mode) <==> byte == mode_byte(mode),
{
}

/// What is in a container is read back from it.
proof fn lemma_opened(mode: Mode, len: nat, payload: Seq<u8>)
    requires
        len <= usize::MAX,
        mode == Mode::Raw ==> payload.len() == len,
    ensures
        container(mode, len, payload).len() == HEADER + payload.len(),
        opened(container(mode, len, payload)) == Ok::<Opened, Error>(
            Opened { mode, len: len as int, payload },
        ),
{
    let bytes = container(mode, len, payload);
    le::lemma_le_bytes_len(len, 8);
    le::lemma_u64_fits(len as u64);
    le::law_le_round_trip(len, 8);
    assert(bytes.take(4) == MAGIC@);
    assert(bytes[4] == mode_byte(mode));
    assert(bytes.subrange(5, 13) == le::le_bytes(len, 8));
    assert(bytes.skip(HEADER as int) == payload);
}

/// Law: a container is at most 13 bytes longer than the data.
pub proof fn law_never_much_larger(data: Seq<u8>, mode: Mode, payload: Seq<u8>)
    ensures
        packed(data, mode, payload).len() <= data.len() + HEADER,
{
    le::lemma_le_bytes_len(data.len(), 8);
}

/// Law: data that an engine does not make shorter are stored as they are, and
/// the header says so.
pub proof fn law_falls_back_to_raw(data: Seq<u8>, mode: Mode, payload: Seq<u8>)
    requires
        payload.len() >= data.len(),
    ensures
        packed(data, mode, payload).len() == data.len() + HEADER,
        packed(data, mode, payload)[4] == mode_byte(Mode::Raw),
        packed(data, mode, payload).skip(HEADER as int) == data,
{
    le::lemma_le_bytes_len(data.len(), 8);
    assert(packed(data, mode, payload).skip(HEADER as int) == data);
}

/// Law: bytes that are too short for a header, or that do not start with the
/// magic bytes, are refused.
pub proof fn law_rejects_garbage<N: Network>(bytes: Seq<u8>, net: N)
    requires
        bytes.len() < HEADER || bytes.take(4) != MAGIC@,
    ensures
        restored(bytes, net) is Err,
{
}

/// Law: the LZ engine is lossless, whatever networks are at hand on either side.
/// (No slice is longer than `isize::MAX`.)
pub proof fn law_lz_round_trip<N: Network, M: Network>(data: Seq<u8>, net: N, other: M)
    requires
        data.len() <= isize::MAX,
    ensures
        restored(compressed(data, false, net), other) == Ok::<Seq<u8>, Error>(data),
{
    let payload = lz::compressed(data);
    if payload.len() < data.len() {
        lemma_opened(Mode::Lz, data.len(), payload);
        lz::law_round_trip(data);
    } else {
        lemma_opened(Mode::Raw, data.len(), data);
    }
}

/// Law: the AI engine is lossless, where the networks on both sides are equal.
/// (No slice is longer than `isize::MAX`.)
pub proof fn law_ai_round_trip<N: Network>(data: Seq<u8>, net: N)
    requires
        data.len() <= isize::MAX,
    ensures
        restored(compressed(data, true, net), net) == Ok::<Seq<u8>, Error>(data),
{
    let payload = model::compressed(data, net);
    if payload.len() < data.len() {
        lemma_opened(Mode::Ai, data.len(), payload);
        model::law_round_trip(data, net);
    } else {
        lemma_opened(Mode::Raw, data.len(), data);
    }
}

/// Law: whichever engine made a container, it decompresses to the data, without
/// being told the engine, where the networks on both sides are equal. (No slice
/// is longer than `isize::MAX`.)
pub proof fn law_round_trip<N: Network>(data: Seq<u8>, ai: bool, net: N)
    requires
        data.len() <= isize::MAX,
    ensures
        restored(compressed(data, ai, net), net) == Ok::<Seq<u8>, Error>(data),
{
    if ai {
        law_ai_round_trip(data, net);
    } else {
        law_lz_round_trip(data, net, net);
    }
}

} // verus!
