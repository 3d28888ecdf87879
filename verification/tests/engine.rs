//! The AI engine, with a network of integers in place of a neural one.

use middleout::codec;
use middleout::model::mixer::Mixer;
use middleout::model::network::{Mixed, Network, NBANKS, NINPUTS};
use middleout::model::{compress, decompress};
use std::cell::RefCell;
use std::rc::Rc;

/// Averages its inputs around a bias that follows the errors.
struct Averager {
    bias: i32,
    hist: i32,
}

fn fresh() -> Averager {
    Averager { bias: 0, hist: 0 }
}

impl Network for Averager {
    fn bit_p(&self, c0: usize) -> i32 {
        ((c0 as i32 * 37 + self.hist * 11) % 4096).clamp(1, 4095)
    }

    fn mix(self, inputs: &[i32; NINPUTS], ctx: &[usize; NBANKS]) -> (Mixed, Self) {
        let total: i32 = inputs.iter().sum();
        let mut banks = [0; NBANKS];
        for k in 0..NBANKS {
            banks[k] = (total / (2 + k as i32) + self.bias + ctx[k] as i32).clamp(-2047, 2047);
        }
        (Mixed { banks, out: (banks.iter().sum::<i32>() / 3).clamp(-2047, 2047) }, self)
    }

    fn learn(mut self, bank_err: &[i32; NBANKS], err: i32) -> Self {
        let all: i32 = bank_err.iter().sum();
        self.bias = (self.bias + err / 512 + all / 2048).clamp(-300, 300);
        self
    }

    fn on_byte(mut self, byte: u8) -> Self {
        self.hist = (self.hist * 31 + byte as i32) % 65536;
        self
    }
}

const TEXT: &[u8] = b"the cat sat on the mat; the cat sat on the mat";

const CODED: [u8; 24] = [
    43, 4, 14, 240, 87, 158, 244, 81, 123, 163, 152, 16, 101, 222, 117, 58, 51, 39, 136, 255, 176,
    69, 160, 214,
];

#[test]
fn exact_payload() {
    assert_eq!(compress(TEXT, fresh()), CODED);
}

/// The first five bytes hold two contexts with one place in the match table, and
/// the words have underscores between them.
#[test]
fn only_equal_contexts_match_and_underscores_end_words() {
    let data = [&[0x0E, 0x8B, 0x2F, 0x51, 0x00, 0x41][..], b"my_word my_word an_other"].concat();
    let payload = compress(&data, fresh());
    assert_eq!(
        payload,
        [
            164, 16, 144, 1, 69, 127, 203, 85, 220, 96, 33, 35, 36, 22, 91, 181, 49, 46, 228, 109,
            42, 158, 206, 179, 12, 18, 131
        ]
    );
    assert_eq!(decompress(&payload, data.len(), fresh()), data);
}

#[test]
fn a_match_starts_at_the_most_recent_occurrence() {
    let lines = transcript(b"abcdXabcdYabcdX", 0);
    // What the match model says before bit `k` of a byte.
    let opinion = |byte: usize, k: usize| {
        let line = &lines[25 * byte + 3 * k + 1];
        let inputs = &line[line.find('[').unwrap() + 1..line.find(']').unwrap()];
        inputs.split(", ").nth(9).unwrap().parse::<i32>().unwrap()
    };
    assert_eq!(opinion(8, 0), 0);
    // The first 'X' is expected, down to its lowest bit, a 0.
    assert_eq!(opinion(9, 0), -512);
    assert_eq!(opinion(9, 7), -512);
    // The 'Y' is expected, not the 'X' before it.
    assert_eq!(opinion(14, 0), -512);
    assert_eq!(opinion(14, 7), 512);
}

#[test]
fn predicting_twice_changes_nothing() {
    let mut once = Mixer::new();
    let mut twice = Mixer::new();
    let (mut a, mut b) = (fresh(), fresh());
    for bit in [1, 0, 0, 1, 1, 0, 1, 0, 1, 1, 1, 0] {
        let (p, asked) = once.predict(a);
        a = once.update(bit, asked);
        let (q, asked) = twice.predict(b);
        let (r, asked) = twice.predict(asked);
        b = twice.update(bit, asked);
        assert_eq!(p, q);
        assert_eq!(q, r);
    }
}

#[test]
fn exact_probabilities() {
    let mut net = fresh();
    let mut mixer = Mixer::new();
    let mut ps = Vec::new();
    for &byte in TEXT {
        for k in (0..8).rev() {
            let (p, asked) = mixer.predict(net);
            ps.push(p);
            net = mixer.update(((byte >> k) & 1) as u32, asked);
        }
    }
    assert_eq!(
        ps[..24],
        [
            647, 781, 1071, 1393, 1749, 2086, 2858, 2627, 1208, 2754, 2824, 2930, 2286, 2656, 1635,
            3247, 2583, 3479, 3680, 1018, 1893, 1860, 2551, 2305
        ]
    );
    assert_eq!(ps[ps.len() - 8..], [1, 4052, 4084, 4050, 1, 4051, 1, 5]);
    assert!(ps.iter().all(|p| (1..=4094).contains(p)));
}

#[test]
fn payload_is_read_back() {
    assert_eq!(decompress(&CODED, TEXT.len(), fresh()), TEXT);
}

#[test]
fn no_data_is_four_bytes() {
    assert_eq!(compress(b"", fresh()), [0; 4]);
    assert_eq!(decompress(&[0; 4], 0, fresh()), b"");
}

#[test]
fn a_short_payload_still_gives_all_bytes() {
    assert_eq!(decompress(&[], 9, fresh()).len(), 9);
}

#[test]
fn container_is_read_back_by_the_same_network() {
    let c = codec::compress(TEXT, true, fresh());
    assert_eq!(c[4], 2);
    assert_eq!(c[13..], CODED);
    assert_eq!(codec::decompress(&c, fresh()), Ok(TEXT.to_vec()));
}

#[test]
fn bytes_behind_a_payload_change_nothing() {
    for junk in [&[][..], &[0], &[255, 1, 2], &[7; 100]] {
        let longer = [&CODED[..], junk].concat();
        assert_eq!(decompress(&longer, TEXT.len(), fresh()), TEXT);
    }
}

#[test]
fn the_first_bytes_do_not_depend_on_the_later_ones() {
    let payload = [200, 17, 3, 99, 255, 0, 42];
    let all = decompress(&payload, 40, fresh());
    assert_eq!(all.len(), 40);
    for n in 0..40 {
        assert_eq!(decompress(&payload, n, fresh()), all[..n]);
    }
}

#[test]
fn missing_payload_bytes_are_zeros() {
    for payload in [&[][..], &[1], &[200, 17, 3, 99, 255], &CODED] {
        let longer = [payload, &[0]].concat();
        assert_eq!(
            decompress(&longer, 60, fresh()),
            decompress(payload, 60, fresh())
        );
    }
}

#[test]
fn another_network_reads_something_else() {
    let other = Averager { bias: 100, hist: 5 };
    let out = decompress(&CODED, TEXT.len(), other);
    assert_eq!(out.len(), TEXT.len());
    assert_ne!(out, TEXT);
}

/// Writes down all that it is asked and told, and answers whatever it likes.
struct Scribe {
    lines: Rc<RefCell<Vec<String>>>,
    answer: i32,
}

impl Network for Scribe {
    fn bit_p(&self, c0: usize) -> i32 {
        self.lines.borrow_mut().push(format!("bit {c0}"));
        self.answer
    }

    fn mix(self, inputs: &[i32; NINPUTS], ctx: &[usize; NBANKS]) -> (Mixed, Self) {
        self.lines.borrow_mut().push(format!("mix {inputs:?} {ctx:?}"));
        (Mixed { banks: [self.answer; NBANKS], out: self.answer }, self)
    }

    fn learn(self, bank_err: &[i32; NBANKS], err: i32) -> Self {
        self.lines.borrow_mut().push(format!("learn {bank_err:?} {err}"));
        self
    }

    fn on_byte(self, byte: u8) -> Self {
        self.lines.borrow_mut().push(format!("byte {byte}"));
        self
    }
}

fn transcript(data: &[u8], answer: i32) -> Vec<String> {
    let lines = Rc::new(RefCell::new(Vec::new()));
    let net = Scribe { lines: lines.clone(), answer };
    compress(data, net);
    let seen = lines.borrow().clone();
    seen
}

#[test]
fn what_the_network_is_asked_and_told() {
    let lines = transcript(&[0x80], 0);
    assert_eq!(lines.len(), 25);
    assert_eq!(lines[0], "bit 1");
    assert_eq!(lines[1], "mix [1, 1, 1, 1, 1, 1, 1, 1, 1, 0, -2046] [1, 0, 0]");
    assert_eq!(lines[2], "learn [2049, 2049, 2049] 2049");
    assert_eq!(lines[3], "bit 3");
    assert_eq!(lines[4], "mix [1, 1, 1, 1, 1, 1, 1, 1, 1, 0, -2046] [3, 0, 1]");
    assert_eq!(lines[5], "learn [-2047, -2047, -2047] -2047");
    assert_eq!(lines[21], "bit 192");
    assert_eq!(lines[24], "byte 128");
}

#[test]
fn both_sides_ask_the_same() {
    let written = Rc::new(RefCell::new(Vec::new()));
    let writer = Scribe { lines: written.clone(), answer: 200 };
    let payload = compress(TEXT, writer);
    let read = Rc::new(RefCell::new(Vec::new()));
    let reader = Scribe { lines: read.clone(), answer: 200 };
    assert_eq!(decompress(&payload, TEXT.len(), reader), TEXT);
    assert_eq!(written, read);
    assert_eq!(read.borrow().len(), TEXT.len() * 25);
}

#[test]
fn wild_answers_do_no_harm() {
    for answer in [i32::MIN, -5000, -1, 4096, 1_000_000, i32::MAX] {
        let lines = Rc::new(RefCell::new(Vec::new()));
        let data = b"whatever it says";
        let writer = Scribe { lines: lines.clone(), answer };
        let payload = compress(data, writer);
        let reader = Scribe { lines, answer };
        assert_eq!(decompress(&payload, data.len(), reader), data);
    }
}

#[test]
fn the_lz_engine_asks_nothing() {
    let lines = Rc::new(RefCell::new(Vec::new()));
    let c = codec::compress(TEXT, false, Scribe { lines: lines.clone(), answer: 0 });
    let reader = Scribe { lines: lines.clone(), answer: 0 };
    assert_eq!(codec::decompress(&c, reader), Ok(TEXT.to_vec()));
    assert!(lines.borrow().is_empty());
}
