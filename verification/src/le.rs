//! Little-endian integers in byte strings.

use vstd::prelude::*;

verus! {

/// The low `n` bytes of `x`, the lowest first.
pub open spec fn le_bytes(x: nat, n: nat) -> Seq<u8>
    decreases n,
{
    if n == 0 {
        Seq::empty()
    } else {
        seq![(x % 256) as u8] + le_bytes(x / 256, (n - 1) as nat)
    }
}

/// The number whose bytes these are, the lowest first.
pub open spec fn le_value(s: Seq<u8>) -> nat
    decreases s.len(),
{
    if s.len() == 0 {
        0
    } else {
        s[0] as nat + 256 * le_value(s.skip(1))
    }
}

/// The number needs at most `n` bytes.
pub open spec fn fits(x: nat, n: nat) -> bool
    decreases n,
{
    if n == 0 {
        x == 0
    } else {
        fits(x / 256, (n - 1) as nat)
    }
}

pub proof fn lemma_le_bytes_len(x: nat, n: nat)
    ensures
        le_bytes(x, n).len() == n,
    decreases n,
{
    if n > 0 {
        lemma_le_bytes_len(x / 256, (n - 1) as nat);
    }
}

/// Law: a number is read back from the bytes that it was written in.
pub proof fn law_le_round_trip(x: nat, n: nat)
    requires
        fits(x, n),
    ensures
        le_value(le_bytes(x, n)) == x,
    decreases n,
{
    if n > 0 {
        law_le_round_trip(x / 256, (n - 1) as nat);
        assert(le_bytes(x, n).skip(1) == le_bytes(x / 256, (n - 1) as nat));
    }
}

/// Law: bytes are written back from the number that they were read as.
pub proof fn law_le_round_trip_bytes(s: Seq<u8>)
    ensures
        fits(le_value(s), s.len()),
        le_bytes(le_value(s), s.len()) == s,
    decreases s.len(),
{
    if s.len() > 0 {
        let tail = s.skip(1);
        law_le_round_trip_bytes(tail);
        let v = le_value(s);
        assert(v % 256 == s[0] && v / 256 == le_value(tail));
        assert(seq![s[0]] + tail == s);
    } else {
        assert(le_bytes(le_value(s), s.len()) == s);
    }
}

pub proof fn lemma_u64_fits(x: u64)
    ensures
        fits(x as nat, 8),
{
    reveal_with_fuel(fits, 9);
}

pub proof fn lemma_u16_fits(x: u16)
    ensures
        fits(x as nat, 2),
{
    reveal_with_fuel(fits, 3);
}

/// Appends the eight bytes of `x`.
pub fn push_u64(out: &mut Vec<u8>, x: u64)
    ensures
        final(out)@ == old(out)@ + le_bytes(x as nat, 8),
{
    let mut rest: u64 = x;
    let mut n: usize = 0;
    assert(out@ + le_bytes(rest as nat, 8) == old(out)@ + le_bytes(x as nat, 8));
    while n < 8
        invariant
            n <= 8,
            out@ + le_bytes(rest as nat, (8 - n) as nat) == old(out)@ + le_bytes(x as nat, 8),
        decreases 8 - n,
    {
        let ghost before = out@;
        let ghost left = rest;
        out.push((rest % 256) as u8);
        rest = rest / 256;
        n = n + 1;
        assert(out@ + le_bytes(rest as nat, (8 - n) as nat) == before + le_bytes(
            left as nat,
            (8 - n + 1) as nat,
        ));
    }
    assert(out@ + le_bytes(rest as nat, 0) == out@);
}

/// Appends the two bytes of `x`.
pub fn push_u16(out: &mut Vec<u8>, x: u16)
    ensures
        final(out)@ == old(out)@ + le_bytes(x as nat, 2),
{
    out.push((x % 256) as u8);
    out.push((x / 256) as u8);
    proof {
        reveal_with_fuel(le_bytes, 3);
        assert(out@ == old(out)@ + le_bytes(x as nat, 2));
    }
}

/// Reads the eight bytes from `at` on.
pub fn read_u64(s: &[u8], at: usize) -> (x: u64)
    requires
        at + 8 <= s@.len(),
    ensures
        x == le_value(s@.subrange(at as int, at + 8)),
{
    let mut x: u64 = 0;
    let mut n: usize = 8;
    assert(s@.subrange(at + 8, at + 8).len() == 0);
    while n > 0
        invariant
            n <= 8,
            at + 8 <= s.len(),
            x == le_value(s@.subrange(at + n, at + 8)),
            fits(x as nat, (8 - n) as nat),
        decreases n,
    {
        n = n - 1;
        let ghost tail = s@.subrange(at + n + 1, at + 8);
        let ghost all = s@.subrange(at + n, at + 8);
        proof {
            assert(all.skip(1) == tail);
            assert(x <= 0xFF_FFFF_FFFF_FFFF) by {
                reveal_with_fuel(fits, 8);
            }
            assert((s@[at + n] as nat + 256 * x as nat) / 256 == x);
        }
        x = s[at + n] as u64 + 256 * x;
        assert(x == le_value(all));
    }
    x
}

/// Reads the two bytes from `at` on.
pub fn read_u16(s: &[u8], at: usize) -> (x: u16)
    requires
        at + 2 <= s@.len(),
    ensures
        x == le_value(s@.subrange(at as int, at + 2)),
{
    proof {
        let two = s@.subrange(at as int, at + 2);
        assert(two.skip(1)[0] == s@[at + 1]);
        reveal_with_fuel(le_value, 3);
    }
    s[at] as u16 + 256 * s[at + 1] as u16
}

/// Reads the four bytes from `at` on.
pub fn read_u32(s: &[u8], at: usize) -> (x: u32)
    requires
        at + 4 <= s@.len(),
    ensures
        x == le_value(s@.subrange(at as int, at + 4)),
{
    proof {
        let four = s@.subrange(at as int, at + 4);
        assert(four.skip(1)[0] == s@[at + 1]);
        assert(four.skip(1).skip(1)[0] == s@[at + 2]);
        assert(four.skip(1).skip(1).skip(1)[0] == s@[at + 3]);
        reveal_with_fuel(le_value, 5);
    }
    s[at] as u32 + 256 * (s[at + 1] as u32 + 256 * (s[at + 2] as u32 + 256 * s[at + 3] as u32))
}

} // verus!
