//! The codecs that a benchmark puts side by side: gzip and zstd, and both
//! engines of this library. A codec scores only if it gives the data back.

use crate::codec;
use crate::error::Error;
use crate::model::network::{deterministic, Network};
use flate2::write::{GzDecoder, GzEncoder};
use flate2::Compression;
use std::io::Write;
use vstd::prelude::*;

verus! {

/// What gzip makes of the data at this level.
pub uninterp spec fn gzipped(data: Seq<u8>, level: u32) -> Option<Seq<u8>>;

/// What gzip reads out of the bytes.
pub uninterp spec fn gunzipped(bytes: Seq<u8>) -> Option<Seq<u8>>;

/// What zstd makes of the data at this level, unless it fails.
pub uninterp spec fn zstd_encoded(data: Seq<u8>, level: i32) -> Seq<u8>;

/// What zstd reads out of the bytes, unless it fails.
pub uninterp spec fn zstd_decoded(bytes: Seq<u8>) -> Seq<u8>;

/// The bytes, where there are any, in place of the vector that holds them.
pub open spec fn bytes_of(v: Option<Vec<u8>>) -> Option<Seq<u8>> {
    match v {
        Some(v) => Some(v@),
        None => None,
    }
}

/// `flate2::write::GzEncoder`, writing to a vector: the data are written to a
/// new encoder of this level, which is then finished. Nothing is claimed but
/// that what comes out, or that nothing does, rests on the data and the level
/// alone: the header has no time, no name and a fixed system byte.
#[verifier::external_body]
fn gzip_encode(data: &[u8], level: u32) -> (r: Option<Vec<u8>>)
    requires
        level <= 9,
    ensures
        bytes_of(r) == gzipped(data@, level),
{
    let mut enc = GzEncoder::new(Vec::new(), Compression::new(level));
    match enc.write_all(data) {
        Ok(()) => enc.finish().ok(),
        Err(_) => None,
    }
}

/// `flate2::write::GzDecoder`, writing to a vector: the bytes are written to a
/// new decoder, which is then finished. Nothing is claimed but that what comes
/// out, or that nothing does, rests on the bytes alone.
#[verifier::external_body]
fn gzip_decode(bytes: &[u8]) -> (r: Option<Vec<u8>>)
    ensures
        bytes_of(r) == gunzipped(bytes@),
{
    let mut dec = GzDecoder::new(Vec::new());
    match dec.write_all(bytes) {
        Ok(()) => dec.finish().ok(),
        Err(_) => None,
    }
}

/// `zstd::encode_all`, reading from a slice. What comes out rests on the data
/// and the level alone. When it fails is not said: it does where memory runs
/// out, which rests on the machine.
#[verifier::external_body]
fn zstd_encode(data: &[u8], level: i32) -> (r: Option<Vec<u8>>)
    requires
        1 <= level <= 22,
    ensures
        r matches Some(out) ==> out@ == zstd_encoded(data@, level),
{
    zstd::encode_all(data, level).ok()
}

/// `zstd::decode_all`, reading from a slice. What comes out rests on the bytes
/// alone. When it fails is not said: it does on bytes that are no zstd frames,
/// but also where memory runs out, which rests on the machine.
#[verifier::external_body]
fn zstd_decode(bytes: &[u8]) -> (r: Option<Vec<u8>>)
    ensures
        r matches Some(out) ==> out@ == zstd_decoded(bytes@),
{
    zstd::decode_all(bytes).ok()
}

/// A codec at the settings that it is measured with.
#[derive(Clone, Copy, PartialEq, Eq, Structural, Debug)]
pub enum Codec {
    Gzip6,
    Zstd3,
    Zstd19,
    MiddleoutLz,
    MiddleoutAi,
}

/// The codecs in the order in which they are measured. The others are scored
/// against the first.
pub open spec fn contenders() -> Seq<Codec> {
    seq![
        Codec::Gzip6,
        Codec::Zstd3,
        Codec::Zstd19,
        Codec::MiddleoutLz,
        Codec::MiddleoutAi,
    ]
}

/// The codec is one of this library.
pub open spec fn is_own(c: Codec) -> bool {
    c == Codec::MiddleoutLz || c == Codec::MiddleoutAi
}

/// The codec may make this of the data, with a deterministic network. Only zstd
/// leaves open whether it fails; the codecs of this library never do.
pub open spec fn encodes_to<N: Network>(
    c: Codec,
    data: Seq<u8>,
    net: N,
    r: Option<Seq<u8>>,
) -> bool {
    match c {
        Codec::Gzip6 => r == gzipped(data, 6),
        Codec::Zstd3 => r is None || r == Some(zstd_encoded(data, 3)),
        Codec::Zstd19 => r is None || r == Some(zstd_encoded(data, 19)),
        Codec::MiddleoutLz => r == Some(codec::compressed(data, false, net)),
        Codec::MiddleoutAi => r == Some(codec::compressed(data, true, net)),
    }
}

/// Why a codec reads nothing out of its bytes.
#[derive(Clone, Copy, PartialEq, Eq, Structural, Debug)]
pub enum Failure {
    /// An outside codec failed.
    Outside,
    /// The bytes are no container of this library, or a broken one.
    Container(Error),
}

/// What an outside codec read, as a result.
pub open spec fn outside(r: Option<Seq<u8>>) -> Result<Seq<u8>, Failure> {
    match r {
        Some(out) => Ok(out),
        None => Err(Failure::Outside),
    }
}

/// A result, with the bytes in place of the vector that holds them.
pub open spec fn reading(r: Result<Vec<u8>, Failure>) -> Result<Seq<u8>, Failure> {
    match r {
        Ok(v) => Ok(v@),
        Err(e) => Err(e),
    }
}

/// What this library read, as the result of a codec.
pub open spec fn own(r: Result<Seq<u8>, Error>) -> Result<Seq<u8>, Failure> {
    match r {
        Ok(out) => Ok(out),
        Err(e) => Err(Failure::Container(e)),
    }
}

/// The codec may read this out of the bytes, with a deterministic network. Only
/// zstd leaves open whether it fails.
pub open spec fn decodes_to<N: Network>(
    c: Codec,
    bytes: Seq<u8>,
    net: N,
    r: Result<Seq<u8>, Failure>,
) -> bool {
    match c {
        Codec::Gzip6 => r == outside(gunzipped(bytes)),
        Codec::Zstd3 | Codec::Zstd19 => r == outside(None) || r == outside(
            Some(zstd_decoded(bytes)),
        ),
        Codec::MiddleoutLz | Codec::MiddleoutAi => r == own(codec::restored(bytes, net)),
    }
}

impl Codec {
    /// The codecs in the order in which they are measured.
    pub fn all() -> (v: Vec<Codec>)
        ensures
            v@ == contenders(),
    {
        let v: Vec<Codec> = vec![
            Codec::Gzip6,
            Codec::Zstd3,
            Codec::Zstd19,
            Codec::MiddleoutLz,
            Codec::MiddleoutAi,
        ];
        assert(v@ == contenders());
        v
    }

    /// The name under which the codec is listed.
    pub fn name(self) -> (s: &'static str)
        ensures
            s@ == (match self {
                Codec::Gzip6 => "gzip -6 (ref)"@,
                Codec::Zstd3 => "zstd -3"@,
                Codec::Zstd19 => "zstd -19"@,
                Codec::MiddleoutLz => "middleout-lz"@,
                Codec::MiddleoutAi => "middleout-ai"@,
            }),
    {
        match self {
            Codec::Gzip6 => "gzip -6 (ref)",
            Codec::Zstd3 => "zstd -3",
            Codec::Zstd19 => "zstd -19",
            Codec::MiddleoutLz => "middleout-lz",
            Codec::MiddleoutAi => "middleout-ai",
        }
    }

    /// Compresses the data; `None` where an outside codec fails.
    pub fn compress<N: Network>(self, data: &[u8], net: N) -> (r: Option<Vec<u8>>)
        ensures
            self != Codec::MiddleoutAi || deterministic::<N>() ==> encodes_to(
                self,
                data@,
                net,
                bytes_of(r),
            ),
            self == Codec::Gzip6 ==> bytes_of(r) == gzipped(data@, 6),
            self == Codec::Zstd3 && r is Some ==> bytes_of(r) == Some(zstd_encoded(data@, 3)),
            self == Codec::Zstd19 && r is Some ==> bytes_of(r) == Some(zstd_encoded(data@, 19)),
            self == Codec::MiddleoutLz ==> bytes_of(r) == Some(
                codec::compressed(data@, false, net),
            ),
            self == Codec::MiddleoutAi ==> r is Some,
            self == Codec::MiddleoutAi && deterministic::<N>() ==> bytes_of(r) == Some(
                codec::compressed(data@, true, net),
            ),
    {
        match self {
            Codec::Gzip6 => gzip_encode(data, 6),
            Codec::Zstd3 => zstd_encode(data, 3),
            Codec::Zstd19 => zstd_encode(data, 19),
            Codec::MiddleoutLz => Some(codec::compress(data, false, net)),
            Codec::MiddleoutAi => Some(codec::compress(data, true, net)),
        }
    }

    /// Decompresses the bytes.
    pub fn decompress<N: Network>(self, bytes: &[u8], net: N) -> (r: Result<Vec<u8>, Failure>)
        ensures
            !(is_own(self) && codec::is_ai(bytes@)) || deterministic::<N>() ==> decodes_to(
                self,
                bytes@,
                net,
                reading(r),
            ),
            is_own(self) && codec::is_ai(bytes@) ==> r is Ok,
            self == Codec::Gzip6 ==> reading(r) == outside(gunzipped(bytes@)),
            (self == Codec::Zstd3 || self == Codec::Zstd19) && r is Ok ==> reading(r) == outside(
                Some(zstd_decoded(bytes@)),
            ),
            self == Codec::MiddleoutLz || self == Codec::MiddleoutAi ==> {
                deterministic::<N>() ==> reading(r) == own(codec::restored(bytes@, net))
            },
    {
        let read: Option<Vec<u8>> = match self {
            Codec::Gzip6 => gzip_decode(bytes),
            Codec::Zstd3 | Codec::Zstd19 => zstd_decode(bytes),
            Codec::MiddleoutLz | Codec::MiddleoutAi => {
                return match codec::decompress(bytes, net) {
                    Ok(out) => Ok(out),
                    Err(e) => Err(Failure::Container(e)),
                };
            },
        };
        match read {
            Some(out) => Ok(out),
            None => Err(Failure::Outside),
        }
    }
}

/// The size to score a codec by: that of the compressed data, if what was
/// restored from them is the data.
pub fn verified_size(data: &[u8], compressed: &[u8], restored: &[u8]) -> (size: Option<usize>)
    ensures
        size == (if restored@ == data@ {
            Some(compressed@.len() as usize)
        } else {
            None
        }),
{
    if restored.len() != data.len() {
        return None;
    }
    let mut i: usize = 0;
    while i < data.len()
        invariant
            i <= data.len(),
            restored.len() == data.len(),
            restored@.take(i as int) == data@.take(i as int),
        decreases data.len() - i,
    {
        if restored[i] != data[i] {
            assert(restored@[i as int] != data@[i as int]);
            return None;
        }
        i = i + 1;
        assert(restored@.take(i as int) == data@.take(i as int)) by {
            assert(restored@.take(i as int) == restored@.take(i - 1).push(restored@[i - 1]));
            assert(data@.take(i as int) == data@.take(i - 1).push(data@[i - 1]));
        }
    }
    assert(restored@ == restored@.take(i as int));
    assert(data@ == data@.take(i as int));
    Some(compressed.len())
}

/// Law: the codecs of this library give the data back where the networks on both
/// sides are equal, so that neither can fail the check before it is scored. (No
/// slice is longer than `isize::MAX`.)
pub proof fn law_own_codecs_round_trip<N: Network>(
    c: Codec,
    data: Seq<u8>,
    net: N,
    bytes: Seq<u8>,
    r: Result<Seq<u8>, Failure>,
)
    requires
        data.len() <= isize::MAX,
        is_own(c),
        encodes_to(c, data, net, Some(bytes)),
        decodes_to(c, bytes, net, r),
    ensures
        r == Ok::<Seq<u8>, Failure>(data),
{
    codec::law_round_trip(data, c == Codec::MiddleoutAi, net);
}

} // verus!
