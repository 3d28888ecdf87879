//! The codecs of the benchmark.

use middleout::bench::{verified_size, Codec, Failure};
use middleout::error::Error;
use middleout::model::network::{Mixed, Network, NBANKS, NINPUTS};

/// Answers the sum of what it is asked.
struct Adder;

impl Network for Adder {
    fn bit_p(&self, c0: usize) -> i32 {
        c0 as i32
    }

    fn mix(self, inputs: &[i32; NINPUTS], _ctx: &[usize; NBANKS]) -> (Mixed, Self) {
        let sum: i32 = inputs.iter().sum::<i32>() / 4;
        (Mixed { banks: [sum; NBANKS], out: sum }, self)
    }

    fn learn(self, _bank_err: &[i32; NBANKS], _err: i32) -> Self {
        self
    }

    fn on_byte(self, _byte: u8) -> Self {
        self
    }
}

fn text() -> Vec<u8> {
    b"optimal tip-to-tip efficiency, ".repeat(40)
}

#[test]
fn every_codec_gives_the_data_back() {
    let data = text();
    for codec in Codec::all() {
        let c = codec.compress(&data, Adder).unwrap();
        assert!(c.len() < data.len(), "{}", codec.name());
        let back = codec.decompress(&c, Adder).unwrap();
        assert_eq!(verified_size(&data, &c, &back), Some(c.len()), "{}", codec.name());
    }
}

#[test]
fn formats_of_the_outside_codecs() {
    let data = text();
    let gz = Codec::Gzip6.compress(&data, Adder).unwrap();
    assert_eq!(gz[..10], [0x1F, 0x8B, 8, 0, 0, 0, 0, 0, 0, 255]);
    for codec in [Codec::Zstd3, Codec::Zstd19] {
        let z = codec.compress(&data, Adder).unwrap();
        assert_eq!(z[..4], [0x28, 0xB5, 0x2F, 0xFD]);
    }
}

#[test]
fn levels_are_handed_on() {
    let data: Vec<u8> = (0..60_000u32).map(|i| (i * i / 1000 % 50) as u8).collect();
    let z3 = Codec::Zstd3.compress(&data, Adder).unwrap();
    let z19 = Codec::Zstd19.compress(&data, Adder).unwrap();
    assert!(z19.len() < z3.len());
    assert_eq!(Codec::Zstd3.decompress(&z19, Adder), Ok(data.clone()));
    let direct = zstd::encode_all(&data[..], 19).unwrap();
    assert_eq!(z19, direct);
}

#[test]
fn broken_bytes_are_no_data() {
    assert_eq!(Codec::Gzip6.decompress(b"no gzip", Adder), Err(Failure::Outside));
    assert_eq!(Codec::Zstd3.decompress(b"no zstd", Adder), Err(Failure::Outside));
    assert_eq!(Codec::Zstd19.decompress(b"no zstd", Adder), Err(Failure::Outside));
    for codec in [Codec::MiddleoutLz, Codec::MiddleoutAi] {
        assert_eq!(
            codec.decompress(b"no container", Adder),
            Err(Failure::Container(Error::TooShort))
        );
    }
}

#[test]
fn an_empty_file_can_be_measured() {
    for codec in Codec::all() {
        let c = codec.compress(b"", Adder).unwrap();
        assert_eq!(codec.decompress(&c, Adder), Ok(vec![]));
    }
}

#[test]
fn order_and_names() {
    let names: Vec<&str> = Codec::all().iter().map(|c| c.name()).collect();
    assert_eq!(names, ["gzip -6 (ref)", "zstd -3", "zstd -19", "middleout-lz", "middleout-ai"]);
}

#[test]
fn only_the_same_data_are_scored() {
    assert_eq!(verified_size(b"data", b"xy", b"data"), Some(2));
    assert_eq!(verified_size(b"data", b"xy", b"dat"), None);
    assert_eq!(verified_size(b"data", b"xy", b"dota"), None);
    assert_eq!(verified_size(b"data", b"xy", b"data!"), None);
    assert_eq!(verified_size(b"", b"", b""), Some(0));
}
