//! Laws of the benchmark's codecs.

use crate::bench::{contenders, encodes_to, outside, own, Codec, Failure};
use crate::codec::compressed;
use crate::error::Error;
use crate::laws::codec::law_the_engine_asked_for;
use crate::lz;
use crate::model;
use crate::model::network::Network;
use vstd::prelude::*;

verus! {

/// Law: what the AI codec makes is what the AI engine is asked for, and never a
/// container of the LZ engine: its mode byte is 2, or 0 where the payload is not
/// shorter than the data. For the LZ codec it is 1, or 0.
pub proof fn law_each_row_is_its_own_engine<N: Network>(data: Seq<u8>, net: N, bytes: Seq<u8>)
    ensures
        encodes_to(Codec::MiddleoutAi, data, net, Some(bytes)) ==> {
            &&& bytes == compressed(data, true, net)
            &&& bytes.len() >= 13
            &&& model::compressed(data, net).len() < data.len() ==> bytes[4] == 2
            &&& model::compressed(data, net).len() >= data.len() ==> bytes[4] == 0
        },
        encodes_to(Codec::MiddleoutLz, data, net, Some(bytes)) ==> {
            &&& bytes == compressed(data, false, net)
            &&& bytes.len() >= 13
            &&& lz::compressed(data).len() < data.len() ==> bytes[4] == 1
            &&& lz::compressed(data).len() >= data.len() ==> bytes[4] == 0
        },
{
    law_the_engine_asked_for(data, net);
}

/// Law: every codec is measured once, and the first is gzip, the reference.
pub proof fn law_every_codec_once(c: Codec)
    ensures
        contenders()[0] == Codec::Gzip6,
        contenders().contains(c),
        contenders().no_duplicates(),
{
    let s = contenders();
    assert(s[0] == Codec::Gzip6 && s[1] == Codec::Zstd3 && s[2] == Codec::Zstd19 && s[3]
        == Codec::MiddleoutLz && s[4] == Codec::MiddleoutAi);
    assert(s.contains(c)) by {
        match c {
            Codec::Gzip6 => assert(s[0] == c),
            Codec::Zstd3 => assert(s[1] == c),
            Codec::Zstd19 => assert(s[2] == c),
            Codec::MiddleoutLz => assert(s[3] == c),
            Codec::MiddleoutAi => assert(s[4] == c),
        }
    }
}

/// Law: what was read is handed on as it is; a refusal keeps its error where it is one
/// of this library.
pub proof fn law_results_are_handed_on(out: Seq<u8>, e: Error)
    ensures
        outside(Some(out)) == Ok::<Seq<u8>, Failure>(out),
        outside(None) == Err::<Seq<u8>, Failure>(Failure::Outside),
        own(Ok(out)) == Ok::<Seq<u8>, Failure>(out),
        own(Err(e)) == Err::<Seq<u8>, Failure>(Failure::Container(e)),
{
}

} // verus!
