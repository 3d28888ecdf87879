//! Exact values of the formulas that the model is made of.

use middleout::le::{push_u16, push_u64, read_u16, read_u32, read_u64};
use middleout::lz::hash4;
use middleout::model::logistic::{build_stretch, squash};
use middleout::model::tables::{hash, hash64, Apm, CtxTable, TABLE_SIZE};

#[test]
fn squash_values() {
    let expected = [
        (-3000, 0),
        (-2047, 0),
        (-2046, 1),
        (-1000, 82),
        (-128, 1546),
        (-1, 2043),
        (0, 2047),
        (1, 2051),
        (64, 2298),
        (127, 2545),
        (500, 3583),
        (1500, 4051),
        (2046, 4054),
        (2047, 4095),
        (i32::MAX, 4095),
        (i32::MIN, 0),
    ];
    for (d, p) in expected {
        assert_eq!(squash(d), p, "squash({d})");
    }
}

#[test]
fn squash_rises() {
    for d in -2100..2100 {
        assert!(squash(d) <= squash(d + 1));
    }
}

#[test]
fn stretch_values() {
    let t = build_stretch();
    assert_eq!(t.len(), 4096);
    let expected = [
        (0, -2047),
        (1, -2046),
        (2, -1984),
        (100, -951),
        (1000, -292),
        (2047, 0),
        (2048, 1),
        (3000, 258),
        (4000, 992),
        (4054, 1728),
        (4055, 2047),
        (4095, 2047),
    ];
    for (p, d) in expected {
        assert_eq!(t[p], d, "stretch({p})");
    }
}

#[test]
fn stretch_inverts_squash() {
    let t = build_stretch();
    for p in 0..4096usize {
        let d = t[p] as i32;
        assert!(squash(d) as usize >= p);
        assert!(d == -2047 || (squash(d - 1) as usize) < p);
    }
}

#[test]
fn context_hashes() {
    assert_eq!(hash(0, 1), 2802080);
    assert_eq!(hash(0x61, 1), 3029947);
    assert_eq!(hash(0xDEAD_BEEF, 4), 1492428);
    assert_eq!(hash64(0, 5), 1766471);
    assert_eq!(hash64(0x01_0203_0405, 5), 3643492);
    assert_eq!(hash64(u64::MAX, 6), 3608332);
}

#[test]
fn tables_have_four_million_entries() {
    assert_eq!(TABLE_SIZE, 1 << 22);
    assert_eq!(CtxTable::new(TABLE_SIZE).prob(TABLE_SIZE - 1), 2048);
}

#[test]
fn match_hashes() {
    assert_eq!(hash4(b"abcd", 0), 25357);
    assert_eq!(hash4(b"xabcd", 1), 25357);
    assert_eq!(hash4(&[0; 4], 0), 0);
    assert_eq!(hash4(&[255; 4], 0), 25032);
}

#[test]
fn table_learns() {
    let mut t = CtxTable::new(3);
    assert_eq!(t.prob(1), 2048);
    let mut seen = Vec::new();
    for bit in [1, 1, 0, 1, 1, 1] {
        t.update(1, bit);
        seen.push(t.prob(1));
    }
    assert_eq!(seen, [3072, 3413, 2559, 2866, 3070, 3216]);
    assert_eq!(t.prob(0), 2048);
    assert_eq!(t.prob(2), 2048);
}

#[test]
fn table_saturates() {
    let mut t = CtxTable::new(1);
    for _ in 0..100 {
        t.update(0, 1);
    }
    assert_eq!(t.prob(0), 4079);
}

#[test]
fn apm_starts_near_identity() {
    let t = build_stretch();
    let mut a = Apm::new(2);
    let refined: Vec<i32> = [1, 100, 2048, 4000, 4094].iter().map(|&p| a.refine(p, 1, &t)).collect();
    assert_eq!(refined, [0, 99, 2050, 3999, 4094]);
}

#[test]
fn apm_drifts_to_the_bits() {
    let t = build_stretch();
    let mut a = Apm::new(2);
    a.refine(2048, 1, &t);
    let mut seen = Vec::new();
    for bit in [1, 1, 0] {
        a.update(bit);
        seen.push(a.refine(2048, 1, &t));
    }
    assert_eq!(seen, [2114, 2175, 2108]);
    assert_eq!(a.refine(2048, 0, &t), 2050);
}

#[test]
fn little_endian_integers() {
    let mut out = vec![9];
    push_u64(&mut out, 0x0102_0304_0506_0708);
    push_u16(&mut out, 0xABCD);
    assert_eq!(out, [9, 8, 7, 6, 5, 4, 3, 2, 1, 0xCD, 0xAB]);
    assert_eq!(read_u64(&out, 1), 0x0102_0304_0506_0708);
    assert_eq!(read_u16(&out, 9), 0xABCD);
    assert_eq!(read_u32(&out, 1), 0x0506_0708);
    assert_eq!(read_u64(&[255; 8], 0), u64::MAX);
}
