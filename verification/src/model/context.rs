//! What the context models look at: the bytes so far and the bits of the
//! current one.

use crate::model::tables::{hash64_of, hash_of};
use vstd::prelude::*;

verus! {

/// The number that the last `n` bytes spell, the newest one lowest. Before the
/// first byte all are zero.
pub open spec fn recent(bytes: Seq<u8>, n: nat) -> nat
    decreases n,
{
    if n == 0 || bytes.len() == 0 {
        0
    } else {
        256 * recent(bytes.drop_last(), (n - 1) as nat) + bytes.last() as nat
    }
}

/// Letters and digits make up words.
pub open spec fn is_word_byte(b: u8) -> bool {
    ||| 48 <= b <= 57
    ||| 65 <= b <= 90
    ||| 97 <= b <= 122
}

/// The hash of the word that the bytes end with; 0 where they end with none.
pub open spec fn word_of(bytes: Seq<u8>) -> u32
    decreases bytes.len(),
{
    if bytes.len() == 0 || !is_word_byte(bytes.last()) {
        0
    } else {
        word_of(bytes.drop_last()).wrapping_mul(0x0100_0193) ^ bytes.last() as u32
    }
}

/// Law: the word is forgotten at the first byte outside of it, and a new one is
/// hashed from its own bytes alone.
pub proof fn law_word_ends(bytes: Seq<u8>, b: u8)
    ensures
        !is_word_byte(b) ==> word_of(bytes.push(b)) == 0,
        is_word_byte(b) ==> word_of(bytes.push(b)) == word_of(bytes).wrapping_mul(0x0100_0193)
            ^ b as u32,
{
    assert(bytes.push(b).drop_last() == bytes);
}

/// The place of each context in its table, before the bits of the current byte
/// come in: orders 1 to 6, the word, and a gap that skips the newest byte.
pub open spec fn context_place(bytes: Seq<u8>, i: int) -> int {
    if 1 <= i <= 4 {
        hash_of(recent(bytes, i as nat) as u32, i as u32)
    } else if 5 <= i <= 6 {
        hash64_of(recent(bytes, i as nat) as u64, i as u32)
    } else if i == 7 {
        hash_of(word_of(bytes), 7)
    } else if i == 8 {
        hash_of(
            if bytes.len() == 0 {
                0
            } else {
                recent(bytes.drop_last(), 2) as u32
            },
            8,
        )
    } else {
        0
    }
}

/// The bits as a number with a leading 1.
pub open spec fn sentinel(bits: Seq<bool>) -> int
    decreases bits.len(),
{
    if bits.len() == 0 {
        1
    } else {
        2 * sentinel(bits.drop_last()) + if bits.last() {
            1int
        } else {
            0int
        }
    }
}

/// Bit `n` of a byte, the highest being bit 0.
pub open spec fn byte_bit(b: u8, n: int) -> bool {
    (b >> (7 - n) as u8) & 1 == 1
}

spec fn pow2(n: nat) -> int
    decreases n,
{
    if n == 0 {
        1
    } else {
        2 * pow2((n - 1) as nat)
    }
}

proof fn lemma_sentinel_pow(bits: Seq<bool>)
    ensures
        pow2(bits.len()) <= sentinel(bits) < 2 * pow2(bits.len()),
    decreases bits.len(),
{
    if bits.len() > 0 {
        lemma_sentinel_pow(bits.drop_last());
    }
}

/// The leading 1 tells how many bits there are.
pub proof fn lemma_sentinel(bits: Seq<bool>)
    requires
        bits.len() <= 8,
    ensures
        1 <= sentinel(bits),
        bits.len() < 8 ==> sentinel(bits) < 256,
        bits.len() == 8 ==> 256 <= sentinel(bits) < 512,
{
    lemma_sentinel_pow(bits);
    assert(pow2(0) == 1 && pow2(1) == 2 && pow2(2) == 4 && pow2(3) == 8 && pow2(4) == 16 && pow2(5)
        == 32 && pow2(6) == 64 && pow2(7) == 128 && pow2(8) == 256) by {
        reveal_with_fuel(pow2, 9);
    }
    let n = bits.len();
    assert(n == 0 || n == 1 || n == 2 || n == 3 || n == 4 || n == 5 || n == 6 || n == 7 || n == 8);
}

spec fn pow256(n: nat) -> nat
    decreases n,
{
    if n == 0 {
        1
    } else {
        256 * pow256((n - 1) as nat)
    }
}

proof fn lemma_pow256_values()
    ensures
        pow256(1) == 0x100,
        pow256(2) == 0x1_0000,
        pow256(3) == 0x100_0000,
        pow256(4) == 0x1_0000_0000,
        pow256(5) == 0x100_0000_0000,
        pow256(6) == 0x1_0000_0000_0000,
        pow256(7) == 0x100_0000_0000_0000,
        pow256(8) == 0x1_0000_0000_0000_0000,
{
    reveal_with_fuel(pow256, 9);
}

proof fn lemma_recent_bound(bytes: Seq<u8>, n: nat)
    ensures
        recent(bytes, n) < pow256(n),
        pow256(n) > 0,
    decreases n,
{
    if n > 0 {
        lemma_recent_bound(bytes.drop_last(), (n - 1) as nat);
    }
}

/// Fewer recent bytes are the low ones of more recent bytes.
proof fn lemma_recent_low(bytes: Seq<u8>, n: nat, k: nat)
    requires
        k <= n,
    ensures
        recent(bytes, n) % pow256(k) == recent(bytes, k),
        pow256(k) > 0,
    decreases k,
{
    lemma_recent_bound(bytes, k);
    if k == 0 {
        assert(recent(bytes, n) as int % 1 == 0);
    } else if bytes.len() > 0 {
        lemma_recent_low(bytes.drop_last(), (n - 1) as nat, (k - 1) as nat);
        let x = recent(bytes.drop_last(), (n - 1) as nat) as int;
        let m = pow256((k - 1) as nat) as int;
        let b = bytes.last() as int;
        assert((256 * x + b) % (256 * m) == 256 * (x % m) + b) by (nonlinear_arith)
            requires
                m > 0,
                0 <= b < 256,
                0 <= x,
        {
            let q = x / m;
            let r = x % m;
            assert(x == m * q + r && 0 <= r < m);
            assert(256 * x + b == (256 * m) * q + (256 * r + b));
            assert(0 <= 256 * r + b < 256 * m);
            vstd::arithmetic::div_mod::lemma_fundamental_div_mod_converse(
                256 * x + b,
                256 * m,
                q,
                256 * r + b,
            );
        }
    } else {
        assert(0int % (pow256(k) as int) == 0) by (nonlinear_arith)
            requires
                pow256(k) > 0,
        ;
    }
}

/// How a number of four recent bytes takes in a new one, and what its low bytes are.
pub proof fn lemma_recent4(bytes: Seq<u8>, b: u8)
    ensures
        recent(bytes, 1) <= 0xFF,
        recent(bytes, 2) <= 0xFFFF,
        recent(bytes, 4) <= 0xFFFF_FFFF,
        recent(bytes, 4) % 0x100 == recent(bytes, 1),
        recent(bytes, 4) % 0x1_0000 == recent(bytes, 2),
        recent(bytes, 4) % 0x100_0000 == recent(bytes, 3),
        recent(bytes.push(b), 4) == recent(bytes, 4) % 0x100_0000 * 256 + b,
{
    lemma_pow256_values();
    lemma_recent_bound(bytes, 1);
    lemma_recent_bound(bytes, 2);
    lemma_recent_bound(bytes, 4);
    lemma_recent_low(bytes, 4, 1);
    lemma_recent_low(bytes, 4, 2);
    lemma_recent_low(bytes, 4, 3);
    assert(bytes.push(b).drop_last() == bytes);
}

/// How a number of eight recent bytes takes in a new one, and what parts of it are.
pub proof fn lemma_recent8(bytes: Seq<u8>, b: u8)
    ensures
        recent(bytes, 8) <= 0xFFFF_FFFF_FFFF_FFFF,
        recent(bytes, 8) % 0x100_0000_0000 == recent(bytes, 5),
        recent(bytes, 8) % 0x1_0000_0000_0000 == recent(bytes, 6),
        bytes.len() > 0 ==> recent(bytes, 8) / 256 % 0x1_0000 == recent(bytes.drop_last(), 2),
        bytes.len() == 0 ==> recent(bytes, 8) == 0,
        recent(bytes.push(b), 8) == recent(bytes, 8) % 0x100_0000_0000_0000 * 256 + b,
{
    lemma_pow256_values();
    lemma_recent_bound(bytes, 8);
    lemma_recent_low(bytes, 8, 5);
    lemma_recent_low(bytes, 8, 6);
    lemma_recent_low(bytes, 8, 7);
    if bytes.len() > 0 {
        lemma_recent_low(bytes.drop_last(), 7, 2);
    }
    assert(bytes.push(b).drop_last() == bytes);
}

} // verus!
