//! Laws of the LZ engine: what the search finds, what the stream looks like, and
//! which streams are read.

use crate::error::Error;
use crate::laws::bytes::{law_le_eight, law_le_two};
use crate::le;
use crate::lz::{
    best_match, bodies, common_len, compressed, decompressed, flag, found, group_flags, has_hash,
    hash_at, last_with_hash, law_found_is_match, max_len, packed, repeated, squeezed, tokens,
    unpacked, unsqueezed, Token, MAX_CHAIN, WINDOW,
};
use vstd::prelude::*;

verus! {

/// Law: the hash is that of the four bytes alone, wherever they stand.
pub proof fn law_hash_of_four_bytes(data: Seq<u8>, i: int)
    requires
        0 <= i,
        i + 4 <= data.len(),
    ensures
        hash_at(data, i) == (data[i] + 0x100 * data[i + 1] + 0x1_0000 * data[i + 2] + 0x100_0000
            * data[i + 3]) * 0x9E37_79B1 % 0x1_0000_0000 / 0x1_0000,
{
    reveal(hash_at);
    let s = data.subrange(i, i + 4);
    let s1 = s.skip(1);
    let s2 = s1.skip(1);
    let s3 = s2.skip(1);
    assert(s3.skip(1).len() == 0);
    assert(le::le_value(s3.skip(1)) == 0);
    assert(le::le_value(s3) == s[3]);
    assert(le::le_value(s2) == s[2] + 256 * le::le_value(s3));
    assert(le::le_value(s1) == s[1] + 256 * le::le_value(s2));
    assert(le::le_value(s) == s[0] + 256 * le::le_value(s1));
}

/// How many positions behind `j` and before `i` have the hash `h`.
pub open spec fn hashes_between(data: Seq<u8>, j: int, i: int, h: nat) -> nat
    decreases i - j,
{
    if i <= j + 1 {
        0
    } else {
        hashes_between(data, j, i - 1, h) + if has_hash(data, i - 1, h) {
            1nat
        } else {
            0nat
        }
    }
}

/// The bytes from `j` on and from `i` on agree in the first `n`.
pub open spec fn agree(data: Seq<u8>, j: int, i: int, n: int) -> bool {
    forall|t: int| 0 <= t < n ==> data[j + t] == #[trigger] data[i + t]
}

proof fn lemma_common_len_at_least(data: Seq<u8>, j: int, i: int, max: int, n: int)
    requires
        0 <= j <= i,
        0 <= n <= max,
        i + max <= data.len(),
        agree(data, j, i, n),
    ensures
        n <= common_len(data, j, i, max) <= max,
    decreases max,
{
    if max > 0 {
        if n > 0 {
            assert(data[j + 0] == data[i + 0]);
            assert forall|t: int| 0 <= t < n - 1 implies data[j + 1 + t] == #[trigger] data[i + 1
                + t] by {
                assert(data[j + (t + 1)] == data[i + (t + 1)]);
            }
            lemma_common_len_at_least(data, j + 1, i + 1, max - 1, n - 1);
        } else if data[j] == data[i] {
            lemma_common_len_at_least(data, j + 1, i + 1, max - 1, 0);
        }
    }
}

/// Skipping to the last position of the hash passes over one position of it.
proof fn lemma_count_to_last(data: Seq<u8>, j: int, i: int, h: nat)
    requires
        0 <= j < i,
        has_hash(data, j, h),
    ensures
        j <= last_with_hash(data, i, h) < i,
        has_hash(data, last_with_hash(data, i, h), h),
        last_with_hash(data, i, h) > j ==> hashes_between(data, j, i, h) == hashes_between(
            data,
            j,
            last_with_hash(data, i, h),
            h,
        ) + 1,
    decreases i,
{
    if !has_hash(data, i - 1, h) {
        lemma_count_to_last(data, j, i - 1, h);
    }
}

/// The search from `at` back goes on at least to `j`, and keeps what is best.
proof fn lemma_best_is_at_least(data: Seq<u8>, i: int, at: int, j: int, chain: nat, n: int)
    requires
        0 <= j <= at < i,
        i <= data.len(),
        i - j <= WINDOW,
        has_hash(data, at, hash_at(data, j)),
        has_hash(data, j, hash_at(data, j)),
        at > j ==> hashes_between(data, j, at, hash_at(data, j)) + 1 < chain,
        chain > 0,
        0 < n <= max_len(data, i),
        agree(data, j, i, n),
    ensures
        best_match(data, i, at, chain).0 >= n,
        best_match(data, i, at, chain).0 == n ==> best_match(data, i, at, chain).1 <= i - j,
    decreases chain,
{
    let h = hash_at(data, j);
    if at == j {
        lemma_common_len_at_least(data, j, i, max_len(data, i), n);
    } else {
        lemma_count_to_last(data, j, at, h);
        let next = last_with_hash(data, at, h);
        lemma_best_is_at_least(data, i, next, j, (chain - 1) as nat, n);
    }
}

/// Law: the search is complete at every position. If `j` is one of the 64 latest
/// positions with the hash of the four bytes at `i`, at most 65535 back, and `n`
/// bytes agree from there on, then the match found is at least that long; and if it
/// is no longer, it is no farther.
pub proof fn law_search_is_complete(data: Seq<u8>, i: int, j: int, n: int)
    requires
        0 <= j < i,
        i + 4 <= data.len(),
        i - j <= 65535,
        hash_at(data, j) == hash_at(data, i),
        hashes_between(data, j, i, hash_at(data, i)) < 64,
        0 < n <= 259,
        i + n <= data.len(),
        agree(data, j, i, n),
    ensures
        found(data, i).0 >= n,
        found(data, i).0 == n ==> found(data, i).1 <= i - j,
{
    let h = hash_at(data, i);
    lemma_count_to_last(data, j, i, h);
    lemma_best_is_at_least(data, i, last_with_hash(data, i, h), j, MAX_CHAIN as nat, n);
}

/// What the search returns lies on the chain, no farther down than it goes.
proof fn lemma_best_is_on_the_chain(data: Seq<u8>, i: int, at: int, chain: nat, h: nat)
    requires
        -1 <= at < i <= data.len(),
        at >= 0 ==> has_hash(data, at, h),
    ensures
        ({
            let (n, dist) = best_match(data, i, at, chain);
            n > 0 ==> {
                &&& 0 <= i - dist <= at
                &&& has_hash(data, i - dist, h)
                &&& i - dist < at ==> hashes_between(data, i - dist, at, h) + 1 < chain
            }
        }),
    decreases chain,
{
    if 0 <= at && 0 < chain && i - at <= WINDOW {
        let next = last_with_hash(data, at, h);
        lemma_last(data, at, h);
        lemma_best_is_on_the_chain(data, i, next, (chain - 1) as nat, h);
        let (n, dist) = best_match(data, i, next, (chain - 1) as nat);
        if n > 0 {
            lemma_count_to_last(data, i - dist, at, h);
            if i - dist == next {
                lemma_none_between(data, at, h);
            }
        }
    }
}

proof fn lemma_last(data: Seq<u8>, n: int, h: nat)
    ensures
        -1 <= last_with_hash(data, n, h),
        last_with_hash(data, n, h) >= 0 ==> last_with_hash(data, n, h) < n && has_hash(
            data,
            last_with_hash(data, n, h),
            h,
        ),
    decreases n,
{
    if n > 0 && !has_hash(data, n - 1, h) {
        lemma_last(data, n - 1, h);
    }
}

proof fn lemma_none_between(data: Seq<u8>, i: int, h: nat)
    requires
        last_with_hash(data, i, h) >= 0,
    ensures
        hashes_between(data, last_with_hash(data, i, h), i, h) == 0,
    decreases i,
{
    if i > 0 && !has_hash(data, i - 1, h) {
        lemma_none_between(data, i - 1, h);
        lemma_last(data, i - 1, h);
    }
}

/// Law: what is found starts at one of the 64 latest positions with the hash of the
/// four bytes at `i`; none farther down is looked at.
pub proof fn law_found_is_among_the_latest(data: Seq<u8>, i: int)
    requires
        0 <= i <= data.len(),
        found(data, i).0 > 0,
    ensures
        ({
            let j = i - found(data, i).1;
            &&& 0 <= j < i
            &&& i + 4 <= data.len()
            &&& hash_at(data, j) == hash_at(data, i)
            &&& hashes_between(data, j, i, hash_at(data, i)) < 64
        }),
{
    let h = hash_at(data, i);
    let at = last_with_hash(data, i, h);
    let j = i - found(data, i).1;
    lemma_last(data, i, h);
    lemma_best_is_on_the_chain(data, i, at, MAX_CHAIN as nat, h);
    lemma_count_to_last(data, j, i, h);
    if j == at {
        lemma_none_between(data, i, h);
    }
}

proof fn lemma_few_hashes(data: Seq<u8>, j: int, i: int, h: nat)
    requires
        j < i,
    ensures
        hashes_between(data, j, i, h) < i - j,
    decreases i - j,
{
    if i > j + 1 {
        lemma_few_hashes(data, j, i - 1, h);
    }
}

/// Law: every repeat of at least four bytes that starts at most 64 bytes back is
/// found, or a longer one.
pub proof fn law_near_repeats_are_found(data: Seq<u8>, i: int, j: int, n: int)
    requires
        0 <= j < i,
        i - j <= 64,
        4 <= n <= 259,
        i + n <= data.len(),
        agree(data, j, i, n),
    ensures
        found(data, i).0 >= n,
{
    assert(data[j + 0] == data[i + 0] && data[j + 1] == data[i + 1] && data[j + 2] == data[i + 2]
        && data[j + 3] == data[i + 3]);
    law_hash_of_four_bytes(data, i);
    law_hash_of_four_bytes(data, j);
    lemma_few_hashes(data, j, i, hash_at(data, i));
    law_search_is_complete(data, i, j, n);
}

/// Law: the next token is a match exactly where one of at least four bytes is found
/// and the next position has no longer one, or none can be longer. It is then the
/// match found, and the tokens go on behind it. Otherwise it is the byte itself.
pub proof fn law_next_token(data: Seq<u8>, i: int)
    requires
        0 <= i <= data.len(),
    ensures
        i == data.len() ==> tokens(data, i).len() == 0,
        i < data.len() ==> tokens(data, i).len() > 0,
        ({
            let (n, dist) = found(data, i);
            let longer = found(data, i + 1).0;
            if n >= 4 && (n == 259 || longer <= n) {
                &&& tokens(data, i)[0] == Token::Match { dist: dist as u16, len: (n - 4) as u8 }
                &&& dist as u16 == dist
                &&& (n - 4) as u8 == n - 4
                &&& tokens(data, i).skip(1) == tokens(data, i + n)
            } else {
                i < data.len() ==> {
                    &&& tokens(data, i)[0] == Token::Literal(data[i])
                    &&& tokens(data, i).skip(1) == tokens(data, i + 1)
                }
            }
        }),
{
    law_found_is_match(data, i);
    if i < data.len() {
        let n = found(data, i).0;
        let rest = if n >= 4 && (n == 259 || found(data, i + 1).0 <= n) {
            tokens(data, i + n)
        } else {
            tokens(data, i + 1)
        };
        assert(tokens(data, i).skip(1) == rest);
    }
}

/// Law: a literal is its byte; a match is its distance, the lower byte first, and
/// its length less four; and tokens stand one behind the other.
pub proof fn law_token_bytes(ts: Seq<Token>, b: u8, dist: u16, len: u8)
    ensures
        bodies(Seq::<Token>::empty()) == Seq::<u8>::empty(),
        bodies(seq![Token::Literal(b)] + ts) == seq![b] + bodies(ts),
        bodies(seq![Token::Match { dist, len }] + ts) == seq![
            (dist % 256) as u8,
            (dist / 256) as u8,
            len,
        ] + bodies(ts),
{
    let lit = seq![Token::Literal(b)] + ts;
    let mat = seq![Token::Match { dist, len }] + ts;
    assert(lit.skip(1) == ts);
    assert(mat.skip(1) == ts);
    reveal_with_fuel(le::le_bytes, 3);
    assert(le::le_bytes(dist as nat, 2) == seq![(dist % 256) as u8, (dist / 256) as u8]);
    assert(bodies(mat) == seq![(dist % 256) as u8, (dist / 256) as u8, len] + bodies(ts));
}

proof fn lemma_group_flags(group: Seq<Token>, k: int)
    requires
        group.len() <= 8,
        0 <= k < 8,
    ensures
        (group_flags(group) >> k as u8) & 1 == 1 <==> k < group.len() && group[k] is Match,
    decreases group.len(),
{
    let n = group.len() as u8;
    let b = k as u8;
    if n == 0 {
        assert((0u8 >> b) & 1 == 0) by (bit_vector);
    } else {
        lemma_group_flags(group.drop_last(), k);
        let f = group_flags(group.drop_last());
        let m = (n - 1) as u8;
        assert(((f | (1u8 << m)) >> b) & 1 == 1 <==> (f >> b) & 1 == 1 || b == m) by (bit_vector)
            requires
                b < 8,
                m < 8,
        ;
    }
}

/// Law: the stream is made of groups of up to eight tokens. Each starts with a byte
/// whose bit `k`, the lowest being bit 0, tells whether token `k` is a match; the
/// bytes of its tokens follow.
pub proof fn law_groups(ts: Seq<Token>, k: int)
    requires
        0 <= k < 8,
    ensures
        packed(Seq::<Token>::empty()) == Seq::<u8>::empty(),
        ts.len() > 8 ==> packed(ts) == packed(ts.take(8)) + packed(ts.skip(8)),
        0 < ts.len() <= 8 ==> {
            &&& packed(ts).len() > 0
            &&& packed(ts).skip(1) == bodies(ts)
            &&& (packed(ts)[0] >> k as u8) & 1 == 1 <==> k < ts.len() && ts[k] is Match
        },
{
    if ts.len() > 8 {
        assert(packed(ts.take(8)) == crate::lz::group_bytes(ts.take(8)));
    } else if ts.len() > 0 {
        lemma_group_flags(ts, k);
        assert(packed(ts).skip(1) == bodies(ts));
    }
}

/// Law: a payload is the length of the stream of the first half, in eight bytes, that
/// stream, made from the middle outward, and that of the second half.
pub proof fn law_two_streams(data: Seq<u8>)
    requires
        data.len() <= isize::MAX,
    ensures
        ({
            let mid = data.len() as int / 2;
            let a = squeezed(data.take(mid).reverse());
            let b = squeezed(data.skip(mid));
            let p = compressed(data);
            &&& p.len() == 8 + a.len() + b.len()
            &&& a.len() == p[0] + 0x100 * p[1] + 0x1_0000 * p[2] + 0x100_0000 * p[3] + 0x1_0000_0000
                * p[4] + 0x100_0000_0000 * p[5] + 0x1_0000_0000_0000 * p[6] + 0x100_0000_0000_0000
                * p[7]
            &&& p.subrange(8, 8 + a.len() as int) == a
            &&& p.skip(8 + a.len() as int) == b
        }),
{
    let mid = data.len() as int / 2;
    let a = squeezed(data.take(mid).reverse());
    let b = squeezed(data.skip(mid));
    let p = compressed(data);
    crate::lz::law_squeezed_len(data.take(mid).reverse());
    le::lemma_le_bytes_len(a.len(), 8);
    le::lemma_u64_fits(a.len() as u64);
    le::law_le_round_trip(a.len(), 8);
    assert(p.take(8) == le::le_bytes(a.len(), 8));
    law_le_eight(p.take(8));
    assert(p.subrange(8, 8 + a.len() as int) == a);
    assert(p.skip(8 + a.len() as int) == b);
}

/// The output after one more byte that repeats the one `dist` back, `n` times.
pub open spec fn copied(out: Seq<u8>, dist: int, n: nat) -> Seq<u8>
    decreases n,
{
    if n == 0 {
        out
    } else {
        let o = copied(out, dist, (n - 1) as nat);
        o.push(o[o.len() - dist])
    }
}

/// The output after one more token.
pub open spec fn extended(out: Seq<u8>, t: Token) -> Seq<u8> {
    match t {
        Token::Literal(b) => out.push(b),
        Token::Match { dist, len } => copied(out, dist as int, len as nat + 4),
    }
}

/// The output after the tokens.
pub open spec fn extended_by(out: Seq<u8>, ts: Seq<Token>) -> Seq<u8>
    decreases ts.len(),
{
    if ts.len() == 0 {
        out
    } else {
        extended_by(extended(out, ts[0]), ts.skip(1))
    }
}

/// Every match points back into the output before it.
pub open spec fn points_back(out: Seq<u8>, ts: Seq<Token>) -> bool
    decreases ts.len(),
{
    ts.len() > 0 ==> {
        &&& ts[0] matches Token::Match { dist, .. } ==> 1 <= dist <= out.len()
        &&& points_back(extended(out, ts[0]), ts.skip(1))
    }
}

/// The token stands at `pos`, and the next one at `next`.
pub open spec fn stands_at(input: Seq<u8>, pos: int, t: Token, next: int) -> bool {
    match t {
        Token::Literal(b) => next == pos + 1 && next <= input.len() && input[pos] == b,
        Token::Match { dist, len } => {
            &&& next == pos + 3
            &&& next <= input.len()
            &&& dist == input[pos] + 256 * input[pos + 1]
            &&& len == input[pos + 2]
        },
    }
}

/// A new group is due behind the eighth token.
pub open spec fn groups_due(k: int) -> int {
    if k >= 8 {
        1
    } else {
        0
    }
}

/// From `pos` on, where `k` tokens of a group with these flags are behind, the input
/// spells the tokens and nothing more.
pub open spec fn spells(input: Seq<u8>, pos: int, flags: u8, k: int, ts: Seq<Token>) -> bool
    decreases ts.len(), groups_due(k),
{
    if ts.len() == 0 {
        pos == input.len()
    } else if k >= 8 {
        pos < input.len() && spells(input, pos + 1, input[pos], 0, ts)
    } else {
        let next = pos + if ts[0] is Match {
            3int
        } else {
            1int
        };
        &&& ts[0] is Match <==> (flags >> k as u8) & 1 == 1
        &&& stands_at(input, pos, ts[0], next)
        &&& spells(input, next, flags, k + 1, ts.skip(1))
    }
}

proof fn lemma_copied(out: Seq<u8>, dist: int, n: nat)
    requires
        1 <= dist <= out.len(),
    ensures
        copied(out, dist, n) == out + repeated(out, dist, n),
    decreases n,
{
    if n > 0 {
        let m = (n - 1) as nat;
        lemma_copied(out, dist, m);
        let o = out + repeated(out, dist, m);
        let t = m as int;
        assert(o[o.len() - dist] == out[out.len() - dist + t % dist]) by {
            if t < dist {
                assert(t % dist == t) by (nonlinear_arith)
                    requires
                        0 <= t < dist,
                ;
            } else {
                assert((t - dist) % dist == t % dist) by (nonlinear_arith)
                    requires
                        0 < dist <= t,
                ;
                assert(o[o.len() - dist] == repeated(out, dist, m)[t - dist]);
            }
        }
        assert(copied(out, dist, n) == out + repeated(out, dist, n));
    } else {
        assert(out + repeated(out, dist, 0) == out);
    }
}

proof fn lemma_flag(flags: u8, k: int)
    requires
        0 <= k < 8,
    ensures
        flag(flags, k) <==> (flags >> k as u8) & 1 == 1,
{
    let b = k as u8;
    assert(flags & (1u8 << b) != 0 <==> (flags >> b) & 1 == 1) by (bit_vector)
        requires
            b < 8,
    ;
}

/// The tokens that a stream which is read spells.
proof fn lemma_read_is_spelled(
    input: Seq<u8>,
    pos: int,
    flags: u8,
    k: int,
    out: Seq<u8>,
    n: int,
) -> (ts: Seq<Token>)
    requires
        0 <= pos <= input.len(),
        0 <= k,
        out.len() <= n,
        unpacked(input, pos, flags, k, out, n) is Ok,
    ensures
        spells(input, pos, flags, k, ts),
        points_back(out, ts),
        unpacked(input, pos, flags, k, out, n) == Ok::<Seq<u8>, Error>(extended_by(out, ts)),
        extended_by(out, ts).len() == n,
    decreases input.len() - pos,
{
    if out.len() >= n {
        Seq::empty()
    } else if k >= 8 {
        lemma_read_is_spelled(input, pos + 1, input[pos], 0, out, n)
    } else {
        lemma_flag(flags, k);
        if flag(flags, k) {
            let two = input.subrange(pos, pos + 2);
            law_le_two(two);
            let t = Token::Match { dist: (two[0] + 256 * two[1]) as u16, len: input[pos + 2] };
            lemma_copied(out, t->dist as int, t->Match_len as nat + 4);
            let rest = lemma_read_is_spelled(input, pos + 3, flags, k + 1, extended(out, t), n);
            let ts = seq![t] + rest;
            assert(ts.skip(1) == rest);
            ts
        } else {
            let t = Token::Literal(input[pos]);
            let rest = lemma_read_is_spelled(input, pos + 1, flags, k + 1, extended(out, t), n);
            let ts = seq![t] + rest;
            assert(ts.skip(1) == rest);
            ts
        }
    }
}

proof fn lemma_copied_len(out: Seq<u8>, dist: int, n: nat)
    ensures
        copied(out, dist, n).len() == out.len() + n,
    decreases n,
{
    if n > 0 {
        lemma_copied_len(out, dist, (n - 1) as nat);
    }
}

proof fn lemma_grows(out: Seq<u8>, ts: Seq<Token>)
    ensures
        extended_by(out, ts).len() >= out.len() + ts.len(),
    decreases ts.len(),
{
    if ts.len() > 0 {
        if let Token::Match { dist, len } = ts[0] {
            lemma_copied_len(out, dist as int, len as nat + 4);
        }
        lemma_grows(extended(out, ts[0]), ts.skip(1));
    }
}

/// A stream that spells such tokens is read.
proof fn lemma_spelled_is_read(
    input: Seq<u8>,
    pos: int,
    flags: u8,
    k: int,
    out: Seq<u8>,
    ts: Seq<Token>,
)
    requires
        0 <= pos <= input.len(),
        0 <= k,
        spells(input, pos, flags, k, ts),
        points_back(out, ts),
    ensures
        unpacked(input, pos, flags, k, out, extended_by(out, ts).len() as int) == Ok::<
            Seq<u8>,
            Error,
        >(extended_by(out, ts)),
    decreases ts.len(), groups_due(k),
{
    if ts.len() > 0 {
        lemma_grows(out, ts);
        if k >= 8 {
            lemma_spelled_is_read(input, pos + 1, input[pos], 0, out, ts);
        } else {
            lemma_flag(flags, k);
            let more = extended(out, ts[0]);
            let rest = ts.skip(1);
            match ts[0] {
                Token::Literal(b) => {
                    lemma_spelled_is_read(input, pos + 1, flags, k + 1, more, rest);
                },
                Token::Match { dist, len } => {
                    law_le_two(input.subrange(pos, pos + 2));
                    lemma_copied(out, dist as int, len as nat + 4);
                    lemma_copied_len(out, dist as int, len as nat + 4);
                    lemma_grows(more, rest);
                    lemma_spelled_is_read(input, pos + 3, flags, k + 1, more, rest);
                },
            }
        }
    }
}

/// Law: a stream decompresses to an output exactly where it spells tokens, to its
/// last byte, whose matches all point back into the output and which make up that
/// output, byte by byte.
pub proof fn law_what_is_read(input: Seq<u8>, out: Seq<u8>)
    ensures
        unsqueezed(input, out.len() as int) == Ok::<Seq<u8>, Error>(out) <==> exists|ts: Seq<Token>|
            {
                &&& #[trigger] spells(input, 0, 0, 8, ts)
                &&& points_back(Seq::empty(), ts)
                &&& extended_by(Seq::empty(), ts) == out
            },
{
    let none = Seq::<u8>::empty();
    if unsqueezed(input, out.len() as int) == Ok::<Seq<u8>, Error>(out) {
        let ts = lemma_read_is_spelled(input, 0, 0, 8, none, out.len() as int);
        assert(spells(input, 0, 0, 8, ts));
    }
    if exists|ts: Seq<Token>|
        {
            &&& #[trigger] spells(input, 0, 0, 8, ts)
            &&& points_back(none, ts)
            &&& extended_by(none, ts) == out
        } {
        let ts = choose|ts: Seq<Token>|
            {
                &&& #[trigger] spells(input, 0, 0, 8, ts)
                &&& points_back(none, ts)
                &&& extended_by(none, ts) == out
            };
        lemma_spelled_is_read(input, 0, 0, 8, none, ts);
    }
}

/// Law: whatever is read, it is as long as was asked.
pub proof fn law_length_asked(input: Seq<u8>, n: int)
    requires
        0 <= n,
        unsqueezed(input, n) is Ok,
    ensures
        unsqueezed(input, n)->Ok_0.len() == n,
{
    let ts = lemma_read_is_spelled(input, 0, 0, 8, Seq::empty(), n);
}

/// Law: why a stream is refused where the next token is due: it ends before a group
/// or inside a token, or a match points before the output, or goes on behind its end.
pub proof fn law_why_refused(input: Seq<u8>, pos: int, flags: u8, k: int, out: Seq<u8>, n: int)
    requires
        0 <= pos <= input.len(),
        out.len() < n,
    ensures
        k >= 8 && pos == input.len() ==> unpacked(input, pos, flags, k, out, n) == Err::<
            Seq<u8>,
            Error,
        >(Error::TruncatedStream),
        0 <= k < 8 && (flags >> k as u8) & 1 == 0 && pos == input.len() ==> unpacked(
            input,
            pos,
            flags,
            k,
            out,
            n,
        ) == Err::<Seq<u8>, Error>(Error::TruncatedLiteral),
        0 <= k < 8 && (flags >> k as u8) & 1 == 1 ==> {
            let r = unpacked(input, pos, flags, k, out, n);
            if pos + 3 > input.len() {
                r == Err::<Seq<u8>, Error>(Error::TruncatedMatch)
            } else {
                let dist = input[pos] + 256 * input[pos + 1];
                if dist == 0 || dist > out.len() {
                    r == Err::<Seq<u8>, Error>(Error::BadDistance)
                } else if out.len() + input[pos + 2] + 4 > n {
                    r == Err::<Seq<u8>, Error>(Error::MatchOverrun)
                } else {
                    true
                }
            }
        },
{
    if 0 <= k < 8 {
        lemma_flag(flags, k);
        let b = k as u8;
        assert((flags >> b) & 1 == 0 || (flags >> b) & 1 == 1) by (bit_vector);
        if pos + 3 <= input.len() {
            law_le_two(input.subrange(pos, pos + 2));
        }
    }
}

/// Law: a payload decompresses to an output exactly where its first stream, as long
/// as its first eight bytes say, gives the first half from the middle outward, and
/// the rest gives the second half.
pub proof fn law_halves(p: Seq<u8>, out: Seq<u8>)
    requires
        p.len() >= 8,
        out.len() <= isize::MAX,
    ensures
        ({
            let n = out.len() as int;
            let mid = n / 2;
            let alen = p[0] + 0x100 * p[1] + 0x1_0000 * p[2] + 0x100_0000 * p[3] + 0x1_0000_0000
                * p[4] + 0x100_0000_0000 * p[5] + 0x1_0000_0000_0000 * p[6] + 0x100_0000_0000_0000
                * p[7];
            alen <= usize::MAX ==> (decompressed(p, n) == Ok::<Seq<u8>, Error>(out) <==> {
                &&& 8 + alen <= p.len()
                &&& unsqueezed(p.subrange(8, 8 + alen), mid) == Ok::<Seq<u8>, Error>(
                    out.take(mid).reverse(),
                )
                &&& unsqueezed(p.skip(8 + alen), n - mid) == Ok::<Seq<u8>, Error>(out.skip(mid))
            })
        }),
{
    law_le_eight(p.take(8));
    let n = out.len() as int;
    let mid = n / 2;
    let alen = le::le_value(p.take(8)) as int;
    if alen <= usize::MAX && 8 + alen <= p.len() {
        let a = unsqueezed(p.subrange(8, 8 + alen), mid);
        let b = unsqueezed(p.skip(8 + alen), n - mid);
        if a is Ok && b is Ok {
            law_length_asked(p.subrange(8, 8 + alen), mid);
            law_length_asked(p.skip(8 + alen), n - mid);
            let whole = a->Ok_0.reverse() + b->Ok_0;
            if whole == out {
                assert(out.take(mid) == a->Ok_0.reverse());
                assert(out.take(mid).reverse() == a->Ok_0);
                assert(out.skip(mid) == b->Ok_0);
            }
            if a->Ok_0 == out.take(mid).reverse() && b->Ok_0 == out.skip(mid) {
                assert(whole == out);
            }
        }
    }
}

/// Law: why a payload is refused: it ends before its first stream does, or else the
/// first stream is refused, or else the second.
pub proof fn law_why_a_payload_is_refused(p: Seq<u8>, n: int)
    ensures
        p.len() < 8 ==> decompressed(p, n) == Err::<Seq<u8>, Error>(Error::TruncatedPayload),
        p.len() >= 8 ==> {
            let alen = p[0] + 0x100 * p[1] + 0x1_0000 * p[2] + 0x100_0000 * p[3] + 0x1_0000_0000
                * p[4] + 0x100_0000_0000 * p[5] + 0x1_0000_0000_0000 * p[6] + 0x100_0000_0000_0000
                * p[7];
            alen <= usize::MAX ==> {
                let a = unsqueezed(p.subrange(8, 8 + alen), n / 2);
                let b = unsqueezed(p.skip(8 + alen), n - n / 2);
                &&& p.len() < 8 + alen ==> decompressed(p, n) == Err::<Seq<u8>, Error>(
                    Error::TruncatedPayload,
                )
                &&& p.len() >= 8 + alen && a is Err ==> decompressed(p, n) == a
                &&& p.len() >= 8 + alen && a is Ok && b is Err ==> decompressed(p, n) == b
            }
        },
{
    if p.len() >= 8 {
        law_le_eight(p.take(8));
    }
}

} // verus!
