//! Laws of integers in byte strings and in decimal digits.

use crate::error::{decimal, text, Error};
use crate::le::{le_bytes, le_value};
use vstd::prelude::*;

verus! {

/// 256 to the power of `n`.
pub open spec fn pow256(n: nat) -> nat
    decreases n,
{
    if n == 0 {
        1
    } else {
        256 * pow256((n - 1) as nat)
    }
}

/// Law: byte `i` of a number is its digit to the base 256, the lowest first.
pub proof fn law_le_digit(x: nat, n: nat, i: nat)
    requires
        i < n,
    ensures
        le_bytes(x, n).len() == n,
        pow256(i) > 0,
        le_bytes(x, n)[i as int] as nat == x / pow256(i) % 256,
    decreases i,
{
    crate::le::lemma_le_bytes_len(x, n);
    if i == 0 {
        assert(x / 1 == x);
    } else {
        let m = (i - 1) as nat;
        law_le_digit(x / 256, (n - 1) as nat, m);
        assert(le_bytes(x, n)[i as int] == le_bytes(x / 256, (n - 1) as nat)[m as int]);
        vstd::arithmetic::div_mod::lemma_div_denominator(x as int, 256, pow256(m) as int);
        assert(pow256(i) == 256 * pow256(m));
    }
}

/// Law: the number of eight bytes, each at its own power of 256.
pub proof fn law_le_eight(s: Seq<u8>)
    requires
        s.len() == 8,
    ensures
        le_value(s) == s[0] + 0x100 * s[1] + 0x1_0000 * s[2] + 0x100_0000 * s[3] + 0x1_0000_0000
            * s[4] + 0x100_0000_0000 * s[5] + 0x1_0000_0000_0000 * s[6] + 0x100_0000_0000_0000
            * s[7],
{
    let s1 = s.skip(1);
    let s2 = s1.skip(1);
    let s3 = s2.skip(1);
    let s4 = s3.skip(1);
    let s5 = s4.skip(1);
    let s6 = s5.skip(1);
    let s7 = s6.skip(1);
    assert(s7.skip(1).len() == 0);
    assert(le_value(s7.skip(1)) == 0);
    assert(le_value(s7) == s[7]);
    assert(le_value(s6) == s[6] + 256 * le_value(s7));
    assert(le_value(s5) == s[5] + 256 * le_value(s6));
    assert(le_value(s4) == s[4] + 256 * le_value(s5));
    assert(le_value(s3) == s[3] + 256 * le_value(s4));
    assert(le_value(s2) == s[2] + 256 * le_value(s3));
    assert(le_value(s1) == s[1] + 256 * le_value(s2));
    assert(le_value(s) == s[0] + 256 * le_value(s1));
}

/// Law: the number of two bytes, the lower first.
pub proof fn law_le_two(s: Seq<u8>)
    requires
        s.len() == 2,
    ensures
        le_value(s) == s[0] + 256 * s[1],
{
    let s1 = s.skip(1);
    assert(s1.skip(1).len() == 0);
    assert(le_value(s1.skip(1)) == 0);
    assert(le_value(s1) == s[1]);
}

/// The number that decimal digits spell.
pub open spec fn spelled(s: Seq<char>) -> int
    decreases s.len(),
{
    if s.len() == 0 {
        0
    } else {
        10 * spelled(s.drop_last()) + (s.last() as int - '0' as int)
    }
}

/// Law: a number in decimal digits spells the number, in digits alone, and starts
/// with no zero but that of 0 itself.
pub proof fn law_decimal(n: nat)
    ensures
        decimal(n).len() > 0,
        spelled(decimal(n)) == n,
        forall|i: int| 0 <= i < decimal(n).len() ==> '0' <= #[trigger] decimal(n)[i] <= '9',
        n > 0 ==> decimal(n)[0] != '0',
    decreases n,
{
    let s = decimal(n);
    if n < 10 {
        assert(s.drop_last() == Seq::<char>::empty());
        assert(spelled(s.drop_last()) == 0);
    } else {
        law_decimal(n / 10);
        assert(s.drop_last() == decimal(n / 10));
        assert(s[0] == decimal(n / 10)[0]);
        assert forall|i: int| 0 <= i < s.len() implies '0' <= #[trigger] s[i] <= '9' by {
            if i < s.len() - 1 {
                assert(s[i] == decimal(n / 10)[i]);
            }
        }
    }
}

/// Law: the message of an unknown mode ends with its byte in decimal digits.
pub proof fn law_unknown_mode_text(m: u8)
    ensures
        text(Error::UnknownMode(m)).len() > 18,
        spelled(text(Error::UnknownMode(m)).skip(18)) == m,
{
    law_decimal(m as nat);
    reveal_strlit("unknown mode byte ");
    assert(text(Error::UnknownMode(m)).skip(18) == decimal(m as nat));
}

} // verus!
