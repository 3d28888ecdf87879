//! The middle-out LZ engine on its own.

use middleout::error::Error;
use middleout::lz::{compress, decompress, lzss, unlzss};

#[test]
fn literals_and_matches_in_bytes() {
    assert_eq!(
        lzss(b"abcdbcdefabcdefabcdefgh"),
        [0, 97, 98, 99, 100, 98, 99, 100, 101, 4, 102, 97, 6, 0, 7, 103, 104]
    );
}

#[test]
fn the_longest_match_is_259() {
    assert_eq!(lzss(&[97; 300]), [6, 97, 1, 0, 255, 1, 0, 36]);
}

#[test]
fn halves_go_outward_from_the_middle() {
    assert_eq!(
        compress(b"abcabcabcabcabcabc"),
        [7, 0, 0, 0, 0, 0, 0, 0, 8, 99, 98, 97, 3, 0, 2, 8, 97, 98, 99, 3, 0, 2]
    );
}

#[test]
fn the_shortest_inputs() {
    assert_eq!(compress(b""), [0; 8]);
    assert_eq!(compress(b"x"), [0, 0, 0, 0, 0, 0, 0, 0, 0, 120]);
    assert_eq!(decompress(&[0; 8], 0), Ok(vec![]));
    assert_eq!(decompress(&[0, 0, 0, 0, 0, 0, 0, 0, 0, 120], 1), Ok(vec![120]));
}

#[test]
fn streams_are_read_back() {
    let mut data = Vec::new();
    for i in 0..3_000u32 {
        data.push((i * i / 7 % 11) as u8 + 60);
    }
    let packed = lzss(&data);
    assert!(packed.len() < data.len());
    assert_eq!(unlzss(&packed, data.len()), Ok(data.clone()));
    assert_eq!(decompress(&compress(&data), data.len()), Ok(data));
}

#[test]
fn a_stream_grows_by_an_eighth_at_most() {
    let data: Vec<u8> = (0..=255).collect();
    assert_eq!(lzss(&data).len(), data.len() + data.len() / 8);
}

#[test]
fn a_match_may_overlap_its_output() {
    assert_eq!(unlzss(&[2, 5, 1, 0, 0], 5), Ok(vec![5; 5]));
}

#[test]
fn far_matches_reach_the_window_and_no_farther() {
    let sparse = |gap: usize| {
        let mut data = b"needle!".to_vec();
        let mut state = 1u32;
        for _ in 0..gap - 7 {
            state = state.wrapping_mul(1_664_525).wrapping_add(1_013_904_223);
            data.push((state >> 24) as u8 | 0x80);
        }
        data.extend_from_slice(b"needle!");
        data
    };
    let near = lzss(&sparse(65_535));
    assert_eq!(&near[near.len() - 3..], [255, 255, 3]);
    let far = lzss(&sparse(65_536));
    assert_eq!(far[far.len() - 1], b'!');
}

#[test]
fn only_the_whole_payload_decompresses() {
    for data in [&b""[..], b"x", b"abcabcabcabcabcabc", b"tip to tip to tip to tip"] {
        let payload = compress(data);
        for j in 0..payload.len() {
            assert!(decompress(&payload[..j], data.len()).is_err());
        }
        let longer = [&payload[..], &[0]].concat();
        assert_eq!(decompress(&longer, data.len()), Err(Error::TrailingGarbage));
    }
}

#[test]
fn truncated_payload() {
    assert_eq!(decompress(&[0; 7], 0), Err(Error::TruncatedPayload));
    assert_eq!(decompress(&[1, 0, 0, 0, 0, 0, 0, 0], 0), Err(Error::TruncatedPayload));
    assert_eq!(decompress(&[255; 8], 0), Err(Error::TruncatedPayload));
}

#[test]
fn truncated_stream() {
    assert_eq!(unlzss(&[], 1), Err(Error::TruncatedStream));
    assert_eq!(unlzss(&[0, 1, 2, 3, 4, 5, 6, 7, 8], 9), Err(Error::TruncatedStream));
}

#[test]
fn truncated_match() {
    assert_eq!(unlzss(&[2, 5, 1, 0], 5), Err(Error::TruncatedMatch));
}

#[test]
fn truncated_literal() {
    assert_eq!(unlzss(&[0, 5], 2), Err(Error::TruncatedLiteral));
}

#[test]
fn bad_distance() {
    assert_eq!(unlzss(&[2, 5, 0, 0, 0], 5), Err(Error::BadDistance));
    assert_eq!(unlzss(&[2, 5, 2, 0, 0], 5), Err(Error::BadDistance));
}

#[test]
fn match_overrun() {
    assert_eq!(unlzss(&[2, 5, 1, 0, 0], 4), Err(Error::MatchOverrun));
}

#[test]
fn trailing_garbage() {
    assert_eq!(unlzss(&[0, 5, 6], 1), Err(Error::TrailingGarbage));
    assert_eq!(unlzss(&[0], 0), Err(Error::TrailingGarbage));
}
