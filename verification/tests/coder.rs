//! The arithmetic coder on its own.

use middleout::arith::{Decoder, Encoder};

const CODED: [(u32, u16); 8] = [
    (1, 2048),
    (0, 2048),
    (1, 4000),
    (1, 4094),
    (0, 1),
    (0, 100),
    (1, 3),
    (0, 4095),
];

fn encoded(bits: &[(u32, u16)]) -> Vec<u8> {
    let mut enc = Encoder::new();
    for &(bit, p) in bits {
        enc.encode(bit, p);
    }
    enc.finish()
}

#[test]
fn no_bits_are_four_bytes() {
    assert_eq!(encoded(&[]), [0, 0, 0, 0]);
}

#[test]
fn exact_code_bytes() {
    assert_eq!(encoded(&CODED), [65, 149, 161, 138, 56, 0]);
}

#[test]
fn any_nonzero_bit_is_a_one() {
    let mut enc = Encoder::new();
    enc.encode(7, 2048);
    assert_eq!(enc.finish(), encoded(&[(1, 2048)]));
}

#[test]
fn bits_are_read_back() {
    let code = encoded(&CODED);
    let mut dec = Decoder::new(&code);
    for (bit, p) in CODED {
        assert_eq!(dec.decode(p), bit);
    }
}

#[test]
fn trailing_bytes_do_not_matter() {
    let mut code = encoded(&CODED);
    code.extend_from_slice(&[255, 0, 17, 4]);
    let mut dec = Decoder::new(&code);
    for (bit, p) in CODED {
        assert_eq!(dec.decode(p), bit);
    }
}

#[test]
fn an_exhausted_decoder_reads_zeros() {
    let mut from_nothing = Decoder::new(&[]);
    let mut from_zeros = Decoder::new(&[0; 64]);
    for p in [2048, 1, 4095, 4000, 17, 2048, 2048, 3] {
        assert_eq!(from_nothing.decode(p), from_zeros.decode(p));
    }
}

#[test]
fn a_zero_behind_any_input_changes_nothing() {
    let mut shorter = Decoder::new(&[9, 200, 33, 4, 5]);
    let mut longer = Decoder::new(&[9, 200, 33, 4, 5, 0]);
    for i in 0..200u16 {
        let p = i * 19 % 4095 + 1;
        assert_eq!(shorter.decode(p), longer.decode(p));
    }
}

#[test]
fn many_bits_at_every_probability() {
    let mut state = 12345u32;
    let mut bits = Vec::new();
    for i in 0..20_000u32 {
        state = state.wrapping_mul(1_103_515_245).wrapping_add(12345);
        bits.push(((state >> 16) & 1, (i % 4095 + 1) as u16));
    }
    let code = encoded(&bits);
    let mut dec = Decoder::new(&code);
    for (bit, p) in bits {
        assert_eq!(dec.decode(p), bit);
    }
}
