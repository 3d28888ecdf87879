//! The container format.

use middleout::codec::{compress, decompress, pack, Mode, MAGIC};
use middleout::error::Error;
use middleout::model::network::Blank;
use middleout::naming::{container_suffix, engine, restored_suffix};

fn restored(container: &[u8]) -> Result<Vec<u8>, Error> {
    decompress(container, Blank)
}

fn header(mode: u8, len: u64) -> Vec<u8> {
    let mut c = b"MOUT".to_vec();
    c.push(mode);
    c.extend_from_slice(&len.to_le_bytes());
    c
}

#[test]
fn modes_and_their_bytes() {
    assert_eq!(&MAGIC, b"MOUT");
    for (mode, byte) in [(Mode::Raw, 0), (Mode::Lz, 1), (Mode::Ai, 2)] {
        assert_eq!(mode.byte(), byte);
        assert_eq!(mode as u8, byte);
        assert_eq!(Mode::from_byte(byte), Some(mode));
    }
    assert_eq!(Mode::from_byte(3), None);
}

#[test]
fn an_empty_container_is_its_header() {
    assert_eq!(compress(b"", false, Blank), header(0, 0));
    assert_eq!(compress(b"", true, Blank), header(0, 0));
    assert_eq!(restored(&header(0, 0)), Ok(vec![]));
}

#[test]
fn lz_container_in_bytes() {
    let data = [7u8; 64];
    let mut expected = header(1, 64);
    expected.extend_from_slice(&[5, 0, 0, 0, 0, 0, 0, 0, 2, 7, 1, 0, 27, 2, 7, 1, 0, 27]);
    let c = compress(&data, false, Blank);
    assert_eq!(c, expected);
    assert_eq!(restored(&c), Ok(data.to_vec()));
}

#[test]
fn a_payload_as_long_as_the_data_is_not_kept() {
    let mut raw = header(0, 3);
    raw.extend_from_slice(b"abc");
    assert_eq!(pack(b"abc", Mode::Lz, b"xyz"), raw);
    let mut short = header(2, 3);
    short.extend_from_slice(b"xy");
    assert_eq!(pack(b"abc", Mode::Ai, b"xy"), short);
}

#[test]
fn never_more_than_thirteen_bytes_larger() {
    for n in (0..200usize).step_by(9) {
        let data: Vec<u8> = (0..n).map(|i| (i * 97 % 251) as u8).collect();
        for ai in [false, true] {
            let c = compress(&data, ai, Blank);
            assert!(c.len() <= data.len() + 13);
            assert_eq!(restored(&c), Ok(data.clone()));
        }
    }
}

#[test]
fn too_short_for_a_header() {
    assert_eq!(restored(&[]), Err(Error::TooShort));
    assert_eq!(restored(&header(0, 0)[..12]), Err(Error::TooShort));
}

#[test]
fn magic_bytes_are_checked() {
    for i in 0..4 {
        let mut c = header(0, 0);
        c[i] ^= 1;
        assert_eq!(restored(&c), Err(Error::BadMagic));
    }
}

#[test]
fn unknown_modes_are_refused() {
    for mode in 3..=255 {
        assert_eq!(restored(&header(mode, 0)), Err(Error::UnknownMode(mode)));
    }
}

#[test]
fn raw_length_is_checked() {
    let mut c = header(0, 2);
    c.extend_from_slice(b"abc");
    assert_eq!(restored(&c), Err(Error::RawLength));
}

#[test]
fn errors_of_the_lz_engine_come_through() {
    assert_eq!(restored(&header(1, 4)), Err(Error::TruncatedPayload));
    let mut c = header(1, 1);
    c.extend_from_slice(&[0; 8]);
    assert_eq!(restored(&c), Err(Error::TruncatedStream));
}

#[test]
fn messages() {
    let expected = [
        (Error::TooShort, "file too short to be a .mo container"),
        (Error::BadMagic, "bad magic: not a middleout file"),
        (Error::UnknownMode(3), "unknown mode byte 3"),
        (Error::UnknownMode(40), "unknown mode byte 40"),
        (Error::UnknownMode(255), "unknown mode byte 255"),
        (Error::RawLength, "raw payload length mismatch"),
        (Error::TruncatedPayload, "truncated LZ payload"),
        (Error::TruncatedStream, "truncated LZ stream"),
        (Error::TruncatedMatch, "truncated match token"),
        (Error::TruncatedLiteral, "truncated literal"),
        (Error::BadDistance, "bad match distance"),
        (Error::MatchOverrun, "match overruns output"),
        (Error::TrailingGarbage, "trailing garbage in LZ stream"),
    ];
    for (e, text) in expected {
        assert_eq!(e.message(), text);
    }
}

#[test]
fn names() {
    assert_eq!(container_suffix(), ".mo");
    assert_eq!(restored_suffix(Some("mo")), None);
    for other in [Some("txt"), Some("mo2"), Some("Mo"), Some("m"), Some(""), None] {
        assert_eq!(restored_suffix(other), Some(".out"));
    }
    assert_eq!(engine(true), "ai context-mixer");
    assert_eq!(engine(false), "middle-out lz");
}
