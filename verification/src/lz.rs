//! Middle-out LZ: split the input at the midpoint and compress both halves
//! working outward from the middle (the first half is processed reversed).
//! Each half is LZSS with a 64K window, hash-chain matching, and
//! flag-byte token groups.

use crate::error::{outcome, Error};
use crate::le;
use vstd::prelude::*;

verus! {

/// The shortest match.
pub const MIN_MATCH: usize = 4;

/// The longest match.
pub const MAX_MATCH: usize = MIN_MATCH + 255;

/// How far back a match may lie.
pub const WINDOW: usize = 65_535;

/// The hashes of four bytes.
pub const HASH_SIZE: usize = 65_536;

/// How many earlier positions are tried for a match.
pub const MAX_CHAIN: usize = 64;

/// One step of a stream: a byte as it is, or a copy of earlier output.
#[derive(Clone, Copy, PartialEq, Eq, Structural, Debug)]
pub enum Token {
    Literal(u8),
    /// The real length is `len + MIN_MATCH`.
    Match { dist: u16, len: u8 },
}

/// The hash of the four bytes from `i` on.
#[verifier::opaque]
pub open spec fn hash_at(data: Seq<u8>, i: int) -> nat {
    le::le_value(data.subrange(i, i + 4)) * 0x9E37_79B1 % 0x1_0000_0000 / 0x1_0000
}

/// Four bytes start at `i`, and their hash is `h`.
pub open spec fn has_hash(data: Seq<u8>, i: int, h: nat) -> bool {
    0 <= i && i + 4 <= data.len() && hash_at(data, i) == h
}

/// The last position before `n` with the hash `h`, or -1 where there is none.
pub open spec fn last_with_hash(data: Seq<u8>, n: int, h: nat) -> int
    decreases n,
{
    if n <= 0 {
        -1
    } else if has_hash(data, n - 1, h) {
        n - 1
    } else {
        last_with_hash(data, n - 1, h)
    }
}

/// How many bytes agree from `j` and from `i` on, `max` at most.
pub open spec fn common_len(data: Seq<u8>, j: int, i: int, max: int) -> int
    decreases max,
{
    if max <= 0 || data[j] != data[i] {
        0
    } else {
        1 + common_len(data, j + 1, i + 1, max - 1)
    }
}

/// The longest match that can start at `i`.
pub open spec fn max_len(data: Seq<u8>, i: int) -> int {
    if data.len() - i < MAX_MATCH {
        data.len() - i
    } else {
        MAX_MATCH as int
    }
}

/// The length and the distance of the longest match for `i` among the first
/// `chain` positions of equal hash, counted from `j` back, that lie inside the
/// window. Of equally long ones the nearest counts. Without any, both are 0.
pub open spec fn best_match(data: Seq<u8>, i: int, j: int, chain: nat) -> (int, int)
    decreases chain,
{
    if j < 0 || chain == 0 || i - j > WINDOW {
        (0, 0)
    } else {
        let rest = best_match(
            data,
            i,
            last_with_hash(data, j, hash_at(data, j)),
            (chain - 1) as nat,
        );
        let len = common_len(data, j, i, max_len(data, i));
        if len > 0 && len >= rest.0 {
            (len, i - j)
        } else {
            rest
        }
    }
}

/// The length and the distance of the match that is found for `i`.
pub open spec fn found(data: Seq<u8>, i: int) -> (int, int) {
    if i + MIN_MATCH > data.len() {
        (0, 0)
    } else {
        best_match(data, i, last_with_hash(data, i, hash_at(data, i)), MAX_CHAIN as nat)
    }
}

/// Lazy matching: a match is taken unless the next position has a longer one.
pub open spec fn takes_match(data: Seq<u8>, i: int) -> bool {
    let len = found(data, i).0;
    &&& len >= MIN_MATCH
    &&& !(len < MAX_MATCH && found(data, i + 1).0 > len)
}

/// The tokens that stand for the data from `i` on.
pub open spec fn tokens(data: Seq<u8>, i: int) -> Seq<Token>
    decreases data.len() - i,
{
    if i < 0 || i >= data.len() {
        Seq::empty()
    } else if takes_match(data, i) {
        let (len, dist) = found(data, i);
        proof {
            law_found_is_match(data, i);
        }
        seq![Token::Match { dist: dist as u16, len: (len - MIN_MATCH) as u8 }] + tokens(
            data,
            i + len,
        )
    } else {
        seq![Token::Literal(data[i])] + tokens(data, i + 1)
    }
}

/// The bytes of one token.
pub open spec fn token_bytes(t: Token) -> Seq<u8> {
    match t {
        Token::Literal(b) => seq![b],
        Token::Match { dist, len } => le::le_bytes(dist as nat, 2).push(len),
    }
}

/// The bytes of the tokens, one after the other.
pub open spec fn bodies(ts: Seq<Token>) -> Seq<u8>
    decreases ts.len(),
{
    if ts.len() == 0 {
        Seq::empty()
    } else {
        token_bytes(ts[0]) + bodies(ts.skip(1))
    }
}

/// Whether bit `k` is set, the lowest being bit 0.
pub open spec fn flag(flags: u8, k: int) -> bool {
    flags & (1u8 << k as u8) != 0
}

/// The flag byte of a group: bit `k` is set where token `k` is a match.
pub open spec fn group_flags(group: Seq<Token>) -> u8
    decreases group.len(),
{
    if group.len() == 0 {
        0
    } else {
        let flags = group_flags(group.drop_last());
        if group.last() is Match {
            flags | (1u8 << (group.len() - 1) as u8)
        } else {
            flags
        }
    }
}

/// The bytes of a group: its flags, then its tokens.
pub open spec fn group_bytes(group: Seq<Token>) -> Seq<u8> {
    seq![group_flags(group)] + bodies(group)
}

/// The stream of the tokens, in groups of eight; the last one may be shorter.
pub open spec fn packed(ts: Seq<Token>) -> Seq<u8>
    decreases ts.len(),
{
    if ts.len() == 0 {
        Seq::empty()
    } else if ts.len() <= 8 {
        group_bytes(ts)
    } else {
        group_bytes(ts.take(8)) + packed(ts.skip(8))
    }
}

/// The stream that stands for the data.
pub open spec fn squeezed(data: Seq<u8>) -> Seq<u8> {
    packed(tokens(data, 0))
}

proof fn lemma_common_len(data: Seq<u8>, j: int, i: int, max: int)
    requires
        0 <= j <= i,
        0 <= max,
        i + max <= data.len(),
    ensures
        0 <= common_len(data, j, i, max) <= max,
        forall|t: int|
            0 <= t < common_len(data, j, i, max) ==> data[j + t] == #[trigger] data[i + t],
        common_len(data, j, i, max) < max ==> data[j + common_len(data, j, i, max)] != data[i
            + common_len(data, j, i, max)],
    decreases max,
{
    if max > 0 && data[j] == data[i] {
        lemma_common_len(data, j + 1, i + 1, max - 1);
        let n = common_len(data, j, i, max);
        assert forall|t: int| 0 <= t < n implies data[j + t] == #[trigger] data[i + t] by {
            if t > 0 {
                assert(data[j + 1 + (t - 1)] == data[i + 1 + (t - 1)]);
            }
        }
    }
}

/// The number of agreeing bytes is known from where they stop to agree.
proof fn lemma_common_len_is(data: Seq<u8>, j: int, i: int, max: int, n: int)
    requires
        0 <= j <= i,
        0 <= n <= max,
        i + max <= data.len(),
        forall|t: int| 0 <= t < n ==> data[j + t] == #[trigger] data[i + t],
        n < max ==> data[j + n] != data[i + n],
    ensures
        common_len(data, j, i, max) == n,
{
    lemma_common_len(data, j, i, max);
    let m = common_len(data, j, i, max);
    if m < n {
        assert(data[j + m] == data[i + m]);
    }
    if n < m {
        assert(data[j + n] == data[i + n]);
    }
}

proof fn lemma_last_with_hash(data: Seq<u8>, n: int, h: nat)
    ensures
        -1 <= last_with_hash(data, n, h),
        last_with_hash(data, n, h) == -1 || (last_with_hash(data, n, h) < n && has_hash(
            data,
            last_with_hash(data, n, h),
            h,
        )),
    decreases n,
{
    if n > 0 && !has_hash(data, n - 1, h) {
        lemma_last_with_hash(data, n - 1, h);
    }
}

/// What is known of a match: it fits, and it repeats bytes inside the window.
pub open spec fn is_match(data: Seq<u8>, i: int, len: int, dist: int) -> bool {
    &&& 0 <= len <= max_len(data, i)
    &&& if len > 0 {
        1 <= dist <= i && dist <= WINDOW
    } else {
        dist == 0
    }
    &&& forall|t: int| 0 <= t < len ==> data[i - dist + t] == #[trigger] data[i + t]
}

proof fn lemma_best_match(data: Seq<u8>, i: int, j: int, chain: nat)
    requires
        -1 <= j < i <= data.len(),
    ensures
        is_match(data, i, best_match(data, i, j, chain).0, best_match(data, i, j, chain).1),
    decreases chain,
{
    if !(j < 0 || chain == 0 || i - j > WINDOW) {
        let h = hash_at(data, j);
        lemma_last_with_hash(data, j, h);
        lemma_best_match(data, i, last_with_hash(data, j, h), (chain - 1) as nat);
        lemma_common_len(data, j, i, max_len(data, i));
    }
}

/// Law: a match is found only where it repeats earlier data, at a distance of
/// at most the window and with a length of at most the longest one.
pub proof fn law_found_is_match(data: Seq<u8>, i: int)
    requires
        0 <= i <= data.len(),
    ensures
        is_match(data, i, found(data, i).0, found(data, i).1),
{
    if i + MIN_MATCH <= data.len() {
        let h = hash_at(data, i);
        lemma_last_with_hash(data, i, h);
        lemma_best_match(data, i, last_with_hash(data, i, h), MAX_CHAIN as nat);
    }
}

/// Law: every match in the stream is 4 to 259 bytes long, and its distance is
/// from 1 to 65535.
pub proof fn law_match_tokens(data: Seq<u8>, i: int, k: int)
    requires
        0 <= k < tokens(data, i).len(),
    ensures
        tokens(data, i)[k] matches Token::Match { dist, len } ==> 1 <= dist <= WINDOW && MIN_MATCH
            <= len + MIN_MATCH <= MAX_MATCH,
    decreases data.len() - i,
{
    law_found_is_match(data, i);
    if k > 0 {
        if takes_match(data, i) {
            law_match_tokens(data, i + found(data, i).0, k - 1);
        } else {
            law_match_tokens(data, i + 1, k - 1);
        }
    }
}

/// The hash of the four bytes from `at` on.
pub fn hash4(data: &[u8], at: usize) -> (h: usize)
    requires
        at + 4 <= data@.len(),
    ensures
        h == hash_at(data@, at as int),
        h < HASH_SIZE,
{
    proof {
        reveal(hash_at);
    }
    let v: u32 = le::read_u32(data, at);
    let m: u32 = v.wrapping_mul(0x9E37_79B1);
    assert(m >> 16 == m / 0x1_0000) by (bit_vector);
    (m >> 16) as usize
}

/// A position as the hash chains hold it; -1 ends a chain.
pub open spec fn link(p: int) -> usize {
    if p < 0 {
        usize::MAX
    } else {
        p as usize
    }
}

/// The hash chains hold all positions before `n`: `head` the last one of each
/// hash, `prev` for each position the one before it of the same hash.
pub open spec fn linked(data: Seq<u8>, head: Seq<usize>, prev: Seq<usize>, n: int) -> bool {
    &&& head.len() == HASH_SIZE
    &&& prev.len() == data.len()
    &&& forall|h: int|
        0 <= h < HASH_SIZE ==> #[trigger] head[h] == link(last_with_hash(data, n, h as nat))
    &&& forall|p: int|
        0 <= p < n && p + 4 <= data.len() ==> #[trigger] prev[p] == link(
            last_with_hash(data, p, hash_at(data, p)),
        )
}

/// The better of two matches; the first one where they are equally long.
spec fn better(a: (int, int), b: (int, int)) -> (int, int) {
    if b.0 > a.0 {
        b
    } else {
        a
    }
}

/// The length and the distance of the match for `i`, or two zeros.
fn find_match(data: &[u8], head: &Vec<usize>, prev: &Vec<usize>, i: usize) -> (m: (usize, usize))
    requires
        i <= data@.len(),
        linked(data@, head@, prev@, i as int),
    ensures
        m.0 == found(data@, i as int).0,
        m.1 == found(data@, i as int).1,
{
    let len: usize = data.len();
    if len - i < MIN_MATCH {
        return (0, 0);
    }
    let mut best_len: usize = 0;
    let mut best_dist: usize = 0;
    let max_len: usize = if len - i < MAX_MATCH { len - i } else { MAX_MATCH };
    let mut j: usize = head[hash4(data, i)];
    let mut chain: usize = 0;
    let ghost mut at = last_with_hash(data@, i as int, hash_at(data@, i as int));
    proof {
        lemma_last_with_hash(data@, i as int, hash_at(data@, i as int));
        lemma_best_match(data@, i as int, at, MAX_CHAIN as nat);
    }
    while j != usize::MAX && chain < MAX_CHAIN
        invariant_except_break
            j == link(at),
            -1 <= at < i,
            at >= 0 ==> at + 4 <= data@.len(),
            chain <= MAX_CHAIN,
            better(
                (best_len as int, best_dist as int),
                best_match(data@, i as int, at, (MAX_CHAIN - chain) as nat),
            ) == found(data@, i as int),
        invariant
            len == data@.len(),
            i + 4 <= len,
            max_len == self::max_len(data@, i as int),
            linked(data@, head@, prev@, i as int),
        ensures
            best_len == found(data@, i as int).0,
            best_dist == found(data@, i as int).1,
        decreases MAX_CHAIN - chain,
    {
        let dist: usize = i - j;
        if dist > WINDOW {
            break;
        }
        let mut n: usize = 0;
        while n < max_len && data[j + n] == data[i + n]
            invariant
                len == data@.len(),
                j < i,
                n <= max_len,
                i + max_len <= len,
                forall|t: int| 0 <= t < n ==> data@[j + t] == #[trigger] data@[i + t],
            decreases max_len - n,
        {
            n = n + 1;
        }
        let ghost next = last_with_hash(data@, at, hash_at(data@, at));
        proof {
            lemma_common_len_is(data@, j as int, i as int, max_len as int, n as int);
            lemma_last_with_hash(data@, at, hash_at(data@, at));
            lemma_best_match(data@, i as int, next, (MAX_CHAIN - chain - 1) as nat);
        }
        if n > best_len {
            best_len = n;
            best_dist = dist;
            if n == max_len {
                break;
            }
        }
        j = prev[j];
        proof {
            at = next;
        }
        chain = chain + 1;
    }
    (best_len, best_dist)
}

/// Adds the position `pos` to the hash chains, which hold all before it.
fn insert(data: &[u8], head: &mut Vec<usize>, prev: &mut Vec<usize>, pos: usize)
    requires
        pos + 4 <= data@.len(),
        linked(data@, old(head)@, old(prev)@, pos as int),
    ensures
        linked(data@, final(head)@, final(prev)@, pos + 1),
{
    let h: usize = hash4(data, pos);
    prev[pos] = head[h];
    head[h] = pos;
}

/// Positions where no four bytes are left are in no chain.
proof fn lemma_linked_past(data: Seq<u8>, head: Seq<usize>, prev: Seq<usize>, n: int, m: int)
    requires
        0 <= n <= m,
        n == m || n + 4 > data.len(),
        linked(data, head, prev, n),
    ensures
        linked(data, head, prev, m),
    decreases m - n,
{
    if n < m {
        assert forall|h: nat| last_with_hash(data, n + 1, h) == #[trigger] last_with_hash(
            data,
            n,
            h,
        ) by {}
        lemma_linked_past(data, head, prev, n + 1, m);
    }
}

/// A full group leaves the rest of the stream as it would be alone.
proof fn lemma_packed_group(group: Seq<Token>, rest: Seq<Token>)
    requires
        group.len() == 8,
    ensures
        packed(group + rest) == group_bytes(group) + packed(rest),
{
    let all = group + rest;
    if rest.len() == 0 {
        assert(all == group);
        assert(group_bytes(group) + packed(rest) == group_bytes(group));
    } else {
        assert(all.take(8) == group);
        assert(all.skip(8) == rest);
    }
}

/// Appends a group of tokens to the stream.
fn flush_group(out: &mut Vec<u8>, group: &Vec<Token>)
    requires
        group@.len() <= 8,
    ensures
        final(out)@ == old(out)@ + group_bytes(group@),
{
    let mut flags: u8 = 0;
    let mut k: usize = 0;
    assert(group@.take(0).len() == 0);
    while k < group.len()
        invariant
            k <= group@.len() <= 8,
            flags == group_flags(group@.take(k as int)),
        decreases group@.len() - k,
    {
        assert(group@.take(k + 1).drop_last() == group@.take(k as int));
        if let Token::Match { .. } = group[k] {
            flags = flags | (1u8 << k as u8);
        }
        k = k + 1;
    }
    assert(group@.take(k as int) == group@);
    out.push(flags);
    k = 0;
    assert(group@.skip(0) == group@);
    assert(out@ + bodies(group@.skip(0)) == old(out)@ + group_bytes(group@));
    while k < group.len()
        invariant
            k <= group@.len(),
            out@ + bodies(group@.skip(k as int)) == old(out)@ + group_bytes(group@),
        decreases group@.len() - k,
    {
        let ghost before = out@;
        let ghost token = group@[k as int];
        match group[k] {
            Token::Literal(b) => {
                out.push(b);
            },
            Token::Match { dist, len } => {
                le::push_u16(out, dist);
                out.push(len);
            },
        }
        assert(out@ == before + token_bytes(token));
        assert(group@.skip(k as int).skip(1) == group@.skip(k + 1));
        assert(out@ + bodies(group@.skip(k + 1)) == before + bodies(group@.skip(k as int)));
        k = k + 1;
    }
    assert(out@ + bodies(group@.skip(k as int)) == out@);
}

/// Compresses one half of the data.
pub fn lzss(data: &[u8]) -> (out: Vec<u8>)
    ensures
        out@ == squeezed(data@),
{
    let len: usize = data.len();
    let mut out: Vec<u8> = Vec::new();
    let mut head: Vec<usize> = vec![usize::MAX; HASH_SIZE];
    let mut prev: Vec<usize> = vec![usize::MAX; len];
    let mut group: Vec<Token> = Vec::with_capacity(8);
    let mut i: usize = 0;
    assert(group@ + tokens(data@, 0) == tokens(data@, 0));
    assert(out@ + squeezed(data@) == squeezed(data@));
    while i < len
        invariant
            len == data@.len(),
            i <= len,
            group@.len() < 8,
            linked(data@, head@, prev@, i as int),
            out@ + packed(group@ + tokens(data@, i as int)) == squeezed(data@),
        decreases len - i,
    {
        let ghost start = i as int;
        let ghost waiting = group@;
        let (n, dist): (usize, usize) = find_match(data, &head, &prev, i);
        proof {
            law_found_is_match(data@, start);
        }
        if len - i >= MIN_MATCH {
            insert(data, &mut head, &mut prev, i);
        } else {
            proof {
                lemma_linked_past(data@, head@, prev@, start, start + 1);
            }
        }

        // Lazy matching: if the next position holds a strictly longer match,
        // emit a literal here and take the longer match next iteration.
        let mut take_match: bool = n >= MIN_MATCH;
        if take_match && n < MAX_MATCH {
            let (longer, _): (usize, usize) = find_match(data, &head, &prev, i + 1);
            take_match = !(longer > n);
        }
        assert(take_match == takes_match(data@, start));

        if take_match {
            group.push(Token::Match { dist: dist as u16, len: (n - MIN_MATCH) as u8 });
            let end: usize = if n < len - i { i + n } else { len };
            let mut pos: usize = i + 1;
            while pos < end && len - pos >= MIN_MATCH
                invariant
                    len == data@.len(),
                    pos <= end <= len,
                    linked(data@, head@, prev@, pos as int),
                decreases end - pos,
            {
                insert(data, &mut head, &mut prev, pos);
                pos = pos + 1;
            }
            i = i + n;
            proof {
                lemma_linked_past(data@, head@, prev@, pos as int, i as int);
            }
        } else {
            group.push(Token::Literal(data[i]));
            i = i + 1;
        }
        assert(group@ + tokens(data@, i as int) == waiting + tokens(data@, start));

        if group.len() == 8 {
            proof {
                lemma_packed_group(group@, tokens(data@, i as int));
            }
            let ghost before = out@;
            flush_group(&mut out, &group);
            group.clear();
            assert(group@ + tokens(data@, i as int) == tokens(data@, i as int));
            assert(out@ + packed(tokens(data@, i as int)) == before + packed(
                waiting + tokens(data@, start),
            ));
        }
    }
    assert(group@ + tokens(data@, i as int) == group@);
    if group.len() > 0 {
        flush_group(&mut out, &group);
    } else {
        assert(out@ + packed(group@) == out@);
    }
    out
}

/// The `n` bytes that follow when the last `dist` bytes go on repeating.
pub open spec fn repeated(out: Seq<u8>, dist: int, n: nat) -> Seq<u8> {
    Seq::new(n, |t: int| out[out.len() - dist + t % dist])
}

/// What becomes of a stream from `pos` on, where `out` is the output so far and
/// token `k` of the group with these flags is due; after the eighth token a new
/// group is due.
pub open spec fn unpacked(
    input: Seq<u8>,
    pos: int,
    flags: u8,
    k: int,
    out: Seq<u8>,
    out_len: int,
) -> Result<Seq<u8>, Error>
    decreases input.len() - pos,
{
    if out.len() >= out_len {
        if pos < input.len() {
            Err(Error::TrailingGarbage)
        } else {
            Ok(out)
        }
    } else if k >= 8 {
        if pos >= input.len() {
            Err(Error::TruncatedStream)
        } else {
            unpacked(input, pos + 1, input[pos], 0, out, out_len)
        }
    } else if flag(flags, k) {
        if input.len() - pos < 3 {
            Err(Error::TruncatedMatch)
        } else {
            let dist = le::le_value(input.subrange(pos, pos + 2)) as int;
            let n = input[pos + 2] as nat + MIN_MATCH as nat;
            if dist == 0 || dist > out.len() {
                Err(Error::BadDistance)
            } else if out.len() + n > out_len {
                Err(Error::MatchOverrun)
            } else {
                unpacked(input, pos + 3, flags, k + 1, out + repeated(out, dist, n), out_len)
            }
        }
    } else {
        if pos >= input.len() {
            Err(Error::TruncatedLiteral)
        } else {
            unpacked(input, pos + 1, flags, k + 1, out.push(input[pos]), out_len)
        }
    }
}

/// What the stream decompresses to, or why it does not.
pub open spec fn unsqueezed(input: Seq<u8>, out_len: int) -> Result<Seq<u8>, Error> {
    unpacked(input, 0, 0, 8, Seq::empty(), out_len)
}

/// Decompresses one stream to exactly `out_len` bytes.
pub fn unlzss(input: &[u8], out_len: usize) -> (r: Result<Vec<u8>, Error>)
    ensures
        outcome(r) == unsqueezed(input@, out_len as int),
        r matches Ok(v) ==> v@.len() == out_len,
{
    let len: usize = input.len();
    let mut out: Vec<u8> = Vec::new();
    let mut pos: usize = 0;
    let mut flags: u8 = 0;
    let mut k: u8 = 8;
    while out.len() < out_len
        invariant
            len == input@.len(),
            pos <= len,
            k <= 8,
            out@.len() <= out_len,
            unpacked(input@, pos as int, flags, k as int, out@, out_len as int) == unsqueezed(
                input@,
                out_len as int,
            ),
        decreases len - pos,
    {
        if k == 8 {
            if pos >= len {
                return Err(Error::TruncatedStream);
            }
            flags = input[pos];
            pos = pos + 1;
            k = 0;
        } else if flags & (1u8 << k) != 0 {
            if len - pos < 3 {
                return Err(Error::TruncatedMatch);
            }
            let dist: usize = le::read_u16(input, pos) as usize;
            let n: usize = input[pos + 2] as usize + MIN_MATCH;
            if dist == 0 || dist > out.len() {
                return Err(Error::BadDistance);
            }
            if n > out_len - out.len() {
                return Err(Error::MatchOverrun);
            }
            pos = pos + 3;
            let start: usize = out.len() - dist;
            let ghost before = out@;
            let mut idx: usize = 0;
            assert(before + repeated(before, dist as int, 0) == before);
            while idx < n
                invariant
                    idx <= n,
                    1 <= dist <= before.len(),
                    start == before.len() - dist,
                    before.len() + n <= out_len,
                    out@ == before + repeated(before, dist as int, idx as nat),
                decreases n - idx,
            {
                let b: u8 = out[start + idx];
                proof {
                    let same = repeated(before, dist as int, idx as nat);
                    if idx >= dist {
                        assert(b == same[idx - dist]);
                        assert((idx - dist) % (dist as int) == idx as int % dist as int)
                            by (nonlinear_arith)
                            requires
                                dist > 0,
                                idx >= dist,
                        ;
                    } else {
                        assert(idx as int % dist as int == idx) by (nonlinear_arith)
                            requires
                                0 <= idx < dist,
                        ;
                    }
                    assert(same.push(b) == repeated(before, dist as int, (idx + 1) as nat));
                }
                out.push(b);
                idx = idx + 1;
            }
            k = k + 1;
        } else {
            if pos >= len {
                return Err(Error::TruncatedLiteral);
            }
            out.push(input[pos]);
            pos = pos + 1;
            k = k + 1;
        }
    }
    if pos < len {
        return Err(Error::TrailingGarbage);
    }
    Ok(out)
}

/// The bytes in reverse order.
fn reversed(data: &[u8]) -> (out: Vec<u8>)
    ensures
        out@ == data@.reverse(),
{
    let mut out: Vec<u8> = Vec::with_capacity(data.len());
    let mut i: usize = data.len();
    while i > 0
        invariant
            i <= data@.len(),
            out@ == data@.reverse().take(data@.len() - i),
        decreases i,
    {
        i = i - 1;
        out.push(data[i]);
    }
    out
}

/// The payload that stands for the data: how long the stream of the first half
/// is, that stream, and the stream of the second half.
pub open spec fn compressed(data: Seq<u8>) -> Seq<u8> {
    let mid = data.len() as int / 2;
    let a = squeezed(data.take(mid).reverse());
    let b = squeezed(data.skip(mid));
    le::le_bytes(a.len(), 8) + a + b
}

/// What the payload decompresses to, or why it does not.
pub open spec fn decompressed(payload: Seq<u8>, orig_len: int) -> Result<Seq<u8>, Error> {
    if payload.len() < 8 {
        Err(Error::TruncatedPayload)
    } else {
        let alen = le::le_value(payload.take(8)) as u64 as usize as int;
        let mid = orig_len / 2;
        if payload.len() < 8 + alen {
            Err(Error::TruncatedPayload)
        } else {
            match unsqueezed(payload.subrange(8, 8 + alen), mid) {
                Err(e) => Err(e),
                Ok(a) => match unsqueezed(payload.skip(8 + alen), orig_len - mid) {
                    Err(e) => Err(e),
                    Ok(b) => Ok(a.reverse() + b),
                },
            }
        }
    }
}

/// Compresses the data, both halves outward from the middle.
pub fn compress(data: &[u8]) -> (out: Vec<u8>)
    ensures
        out@ == compressed(data@),
{
    let mid: usize = data.len() / 2;
    let (first, second): (&[u8], &[u8]) = data.split_at(mid);
    assert(first@ == data@.take(mid as int));
    assert(second@ == data@.skip(mid as int));
    let first_rev: Vec<u8> = reversed(first);
    let a: Vec<u8> = lzss(&first_rev);
    let b: Vec<u8> = lzss(second);
    let mut out: Vec<u8> = Vec::new();
    le::push_u64(&mut out, a.len() as u64);
    out.extend_from_slice(&a);
    out.extend_from_slice(&b);
    assert(out@ == compressed(data@));
    out
}

/// Restores `orig_len` bytes of data from their payload.
pub fn decompress(payload: &[u8], orig_len: usize) -> (r: Result<Vec<u8>, Error>)
    ensures
        outcome(r) == decompressed(payload@, orig_len as int),
        r matches Ok(v) ==> v@.len() == orig_len,
{
    let len: usize = payload.len();
    if len < 8 {
        return Err(Error::TruncatedPayload);
    }
    let alen: usize = le::read_u64(payload, 0) as usize;
    assert(payload@.subrange(0, 8) == payload@.take(8));
    if alen > len - 8 {
        return Err(Error::TruncatedPayload);
    }
    let mid: usize = orig_len / 2;
    let first: &[u8] = &payload[8..8 + alen];
    let second: &[u8] = &payload[8 + alen..len];
    assert(second@ == payload@.skip(8 + alen));
    match unlzss(first, mid) {
        Err(e) => Err(e),
        Ok(a) => match unlzss(second, orig_len - mid) {
            Err(e) => Err(e),
            Ok(b) => {
                let mut out: Vec<u8> = reversed(&a);
                out.extend_from_slice(&b);
                assert(out@ == a@.reverse() + b@);
                Ok(out)
            },
        },
    }
}

/// Bit `k` of a group's flags tells whether token `k` is a match.
proof fn lemma_group_flags(group: Seq<Token>, k: int)
    requires
        group.len() <= 8,
        0 <= k < 8,
    ensures
        flag(group_flags(group), k) == (k < group.len() && group[k] is Match),
    decreases group.len(),
{
    let bit = k as u8;
    assert(0u8 & (1u8 << bit) == 0) by (bit_vector);
    if group.len() > 0 {
        lemma_group_flags(group.drop_last(), k);
        let flags = group_flags(group.drop_last());
        let last = (group.len() - 1) as u8;
        assert((flags | (1u8 << last)) & (1u8 << bit) != 0 <==> bit == last || flags & (1u8 << bit)
            != 0) by (bit_vector)
            requires
                last < 8,
                bit < 8,
        ;
    }
}

/// A match is undone by repeating the bytes at its distance.
proof fn lemma_repeated(data: Seq<u8>, i: int, len: int, dist: int)
    requires
        0 < len,
        0 <= i <= data.len(),
        is_match(data, i, len, dist),
    ensures
        data.take(i) + repeated(data.take(i), dist, len as nat) == data.take(i + len),
{
    let out = data.take(i);
    let copy = repeated(out, dist, len as nat);
    assert forall|t: int| 0 <= t < len implies copy[t] == data[i + t] by {
        lemma_repeats(data, i, len, dist, t);
    }
    assert(out + copy == data.take(i + len));
}

proof fn lemma_repeats(data: Seq<u8>, i: int, len: int, dist: int, t: int)
    requires
        0 <= i <= data.len(),
        is_match(data, i, len, dist),
        0 <= t < len,
    ensures
        0 <= t % dist < dist,
        data[i - dist + t % dist] == data[i + t],
    decreases t,
{
    assert(data[i - dist + t] == data[i + t]);
    if t < dist {
        assert(t % dist == t) by (nonlinear_arith)
            requires
                0 <= t < dist,
        ;
    } else {
        lemma_repeats(data, i, len, dist, t - dist);
        assert((t - dist) % dist == t % dist) by (nonlinear_arith)
            requires
                dist > 0,
        ;
        assert(data[i + (t - dist)] == data[i - dist + t]);
    }
}

/// Unpacking undoes packing, from any token of any group on.
proof fn lemma_unpacked(
    data: Seq<u8>,
    i: int,
    group: Seq<Token>,
    k: int,
    rest: Seq<Token>,
    input: Seq<u8>,
    pos: int,
)
    requires
        0 <= i <= data.len(),
        0 <= k <= group.len() <= 8,
        rest.len() > 0 ==> group.len() == 8,
        tokens(data, i) == group.skip(k) + rest,
        0 <= pos <= input.len(),
        input.skip(pos) == bodies(group.skip(k)) + packed(rest),
    ensures
        unpacked(input, pos, group_flags(group), k, data.take(i), data.len() as int) == Ok::<
            Seq<u8>,
            Error,
        >(data),
    decreases data.len() - i, (if k == group.len() { 1int } else { 0int }),
{
    let flags = group_flags(group);
    let left = input.skip(pos);
    if i == data.len() {
        assert(group.skip(k).len() == 0 && rest.len() == 0);
        assert(left.len() == 0);
        assert(data.take(i) == data);
    } else if k == group.len() {
        assert(group.skip(k).len() == 0);
        assert(rest == tokens(data, i)) by {
            assert(group.skip(k) + rest == rest);
        }
        assert(rest.len() > 0);
        assert(left == packed(rest));
        let next = if rest.len() <= 8 {
            rest
        } else {
            rest.take(8)
        };
        let later = if rest.len() <= 8 {
            Seq::<Token>::empty()
        } else {
            rest.skip(8)
        };
        assert(next + later == rest);
        assert(next.skip(0) == next);
        assert(packed(rest) == group_bytes(next) + packed(later));
        assert(left[0] == group_flags(next));
        assert(input[pos] == left[0]);
        assert(input.skip(pos + 1) == left.skip(1));
        assert(left.skip(1) == bodies(next) + packed(later));
        lemma_unpacked(data, i, next, 0, later, input, pos + 1);
    } else {
        let token = group[k];
        let tail = group.skip(k + 1);
        assert(group.skip(k).skip(1) == tail);
        assert(group.skip(k)[0] == token);
        assert((group.skip(k) + rest)[0] == token);
        assert(tokens(data, i).skip(1) == tail + rest);
        assert(bodies(group.skip(k)) == token_bytes(token) + bodies(tail));
        lemma_group_flags(group, k);
        law_found_is_match(data, i);
        if takes_match(data, i) {
            let (len, dist) = found(data, i);
            assert(token == Token::Match { dist: dist as u16, len: (len - MIN_MATCH) as u8 });
            assert(tokens(data, i).skip(1) == tokens(data, i + len));
            le::lemma_le_bytes_len(dist as nat, 2);
            le::lemma_u16_fits(dist as u16);
            le::law_le_round_trip(dist as nat, 2);
            assert(input.subrange(pos, pos + 2) == left.take(2));
            assert(left.take(2) == le::le_bytes(dist as nat, 2));
            assert(input[pos + 2] == left[2]);
            assert(input.skip(pos + 3) == left.skip(3));
            assert(left.skip(3) == bodies(tail) + packed(rest));
            lemma_repeated(data, i, len, dist);
            lemma_unpacked(data, i + len, group, k + 1, rest, input, pos + 3);
        } else {
            assert(token == Token::Literal(data[i]));
            assert(tokens(data, i).skip(1) == tokens(data, i + 1));
            assert(input[pos] == left[0]);
            assert(input.skip(pos + 1) == left.skip(1));
            assert(left.skip(1) == bodies(tail) + packed(rest));
            assert(data.take(i).push(data[i]) == data.take(i + 1));
            lemma_unpacked(data, i + 1, group, k + 1, rest, input, pos + 1);
        }
    }
}

/// Law: a stream decompresses to the data that it stands for.
pub proof fn law_squeezed_round_trip(data: Seq<u8>)
    ensures
        unsqueezed(squeezed(data), data.len() as int) == Ok::<Seq<u8>, Error>(data),
{
    let ts = tokens(data, 0);
    let input = squeezed(data);
    if data.len() == 0 {
        assert(data == Seq::<u8>::empty());
    } else {
        let group = if ts.len() <= 8 {
            ts
        } else {
            ts.take(8)
        };
        let rest = if ts.len() <= 8 {
            Seq::<Token>::empty()
        } else {
            ts.skip(8)
        };
        assert(ts.len() > 0);
        assert(group + rest == ts);
        assert(group.skip(0) == group);
        assert(input == group_bytes(group) + packed(rest));
        assert(input.skip(1) == bodies(group) + packed(rest));
        assert(data.take(0) == Seq::<u8>::empty());
        lemma_unpacked(data, 0, group, 0, rest, input, 1);
    }
}

/// The tokens from `i` on take no more bytes than the data they stand for.
proof fn lemma_bodies_len(data: Seq<u8>, i: int)
    requires
        0 <= i <= data.len(),
    ensures
        tokens(data, i).len() <= data.len() - i,
        bodies(tokens(data, i)).len() <= data.len() - i,
    decreases data.len() - i,
{
    if i < data.len() {
        law_found_is_match(data, i);
        let ts = tokens(data, i);
        if takes_match(data, i) {
            let (len, dist) = found(data, i);
            le::lemma_le_bytes_len(dist as u16 as nat, 2);
            assert(ts.skip(1) == tokens(data, i + len));
            lemma_bodies_len(data, i + len);
        } else {
            assert(ts.skip(1) == tokens(data, i + 1));
            lemma_bodies_len(data, i + 1);
        }
    }
}

/// A stream holds the tokens and one byte for each eight of them.
proof fn lemma_packed_len(ts: Seq<Token>)
    ensures
        packed(ts).len() == bodies(ts).len() + (ts.len() + 7) / 8,
    decreases ts.len(),
{
    if ts.len() > 8 {
        lemma_packed_len(ts.skip(8));
        lemma_bodies_split(ts, 8);
    }
}

proof fn lemma_bodies_split(ts: Seq<Token>, n: int)
    requires
        0 <= n <= ts.len(),
    ensures
        bodies(ts) == bodies(ts.take(n)) + bodies(ts.skip(n)),
    decreases n,
{
    if n == 0 {
        assert(ts.skip(0) == ts);
        assert(bodies(ts.take(0)) + bodies(ts) == bodies(ts));
    } else {
        lemma_bodies_split(ts.skip(1), n - 1);
        assert(ts.skip(1).take(n - 1) == ts.take(n).skip(1));
        assert(ts.skip(1).skip(n - 1) == ts.skip(n));
        assert(bodies(ts) == bodies(ts.take(n)) + bodies(ts.skip(n)));
    }
}

/// Law: a stream is longer than its data by one byte in eight at most.
pub proof fn law_squeezed_len(data: Seq<u8>)
    ensures
        squeezed(data).len() <= data.len() + (data.len() + 7) / 8,
{
    lemma_bodies_len(data, 0);
    lemma_packed_len(tokens(data, 0));
}

/// Law: a payload decompresses to the data that it stands for. (No slice is
/// longer than `isize::MAX`.)
pub proof fn law_round_trip(data: Seq<u8>)
    requires
        data.len() <= isize::MAX,
    ensures
        decompressed(compressed(data), data.len() as int) == Ok::<Seq<u8>, Error>(data),
{
    let mid = data.len() as int / 2;
    let first = data.take(mid).reverse();
    let second = data.skip(mid);
    let a = squeezed(first);
    let b = squeezed(second);
    let payload = compressed(data);
    law_squeezed_len(first);
    le::lemma_le_bytes_len(a.len(), 8);
    le::lemma_u64_fits(a.len() as u64);
    le::law_le_round_trip(a.len(), 8);
    assert(payload.take(8) == le::le_bytes(a.len(), 8));
    assert(payload.subrange(8, 8 + a.len() as int) == a);
    assert(payload.skip(8 + a.len() as int) == b);
    law_squeezed_round_trip(first);
    law_squeezed_round_trip(second);
    assert(first.reverse() + second == data);
}

/// A stream that is read to its end cannot be read when it is cut short.
proof fn lemma_cut_stream(
    input: Seq<u8>,
    pos: int,
    flags: u8,
    k: int,
    out: Seq<u8>,
    out_len: int,
    j: int,
)
    requires
        unpacked(input, pos, flags, k, out, out_len) is Ok,
        0 <= pos <= j < input.len(),
    ensures
        unpacked(input.take(j), pos, flags, k, out, out_len) is Err,
    decreases input.len() - pos,
{
    let cut = input.take(j);
    if k >= 8 {
        if pos < j {
            lemma_cut_stream(input, pos + 1, input[pos], 0, out, out_len, j);
        }
    } else if flag(flags, k) {
        if j - pos >= 3 {
            let dist = le::le_value(input.subrange(pos, pos + 2)) as int;
            let n = input[pos + 2] as nat + MIN_MATCH as nat;
            assert(cut.subrange(pos, pos + 2) == input.subrange(pos, pos + 2));
            lemma_cut_stream(
                input,
                pos + 3,
                flags,
                k + 1,
                out + repeated(out, dist, n),
                out_len,
                j,
            );
        }
    } else if pos < j {
        lemma_cut_stream(input, pos + 1, flags, k + 1, out.push(input[pos]), out_len, j);
    }
}

/// A stream that is read to its end cannot be read with bytes behind it.
proof fn lemma_longer_stream(
    input: Seq<u8>,
    pos: int,
    flags: u8,
    k: int,
    out: Seq<u8>,
    out_len: int,
    tail: Seq<u8>,
)
    requires
        unpacked(input, pos, flags, k, out, out_len) is Ok,
        0 <= pos <= input.len(),
        tail.len() > 0,
    ensures
        unpacked(input + tail, pos, flags, k, out, out_len) == Err::<Seq<u8>, Error>(
            Error::TrailingGarbage,
        ),
    decreases input.len() - pos,
{
    let longer = input + tail;
    if out.len() >= out_len {
    } else if k >= 8 {
        lemma_longer_stream(input, pos + 1, input[pos], 0, out, out_len, tail);
    } else if flag(flags, k) {
        let dist = le::le_value(input.subrange(pos, pos + 2)) as int;
        let n = input[pos + 2] as nat + MIN_MATCH as nat;
        assert(longer.subrange(pos, pos + 2) == input.subrange(pos, pos + 2));
        lemma_longer_stream(
            input,
            pos + 3,
            flags,
            k + 1,
            out + repeated(out, dist, n),
            out_len,
            tail,
        );
    } else {
        lemma_longer_stream(input, pos + 1, flags, k + 1, out.push(input[pos]), out_len, tail);
    }
}

/// Law: a stream that decompresses does not when it is cut short.
pub proof fn law_cut_stream(input: Seq<u8>, out_len: int, j: int)
    requires
        unsqueezed(input, out_len) is Ok,
        0 <= j < input.len(),
    ensures
        unsqueezed(input.take(j), out_len) is Err,
{
    lemma_cut_stream(input, 0, 0, 8, Seq::empty(), out_len, j);
}

/// Law: a stream that decompresses does not with bytes behind it.
pub proof fn law_longer_stream(input: Seq<u8>, out_len: int, tail: Seq<u8>)
    requires
        unsqueezed(input, out_len) is Ok,
        tail.len() > 0,
    ensures
        unsqueezed(input + tail, out_len) == Err::<Seq<u8>, Error>(Error::TrailingGarbage),
{
    lemma_longer_stream(input, 0, 0, 8, Seq::empty(), out_len, tail);
}

/// Law: a payload that decompresses does not when it is cut short.
pub proof fn law_cut_payload(payload: Seq<u8>, orig_len: int, j: int)
    requires
        decompressed(payload, orig_len) is Ok,
        0 <= j < payload.len(),
    ensures
        decompressed(payload.take(j), orig_len) is Err,
{
    let cut = payload.take(j);
    if j >= 8 {
        let alen = le::le_value(payload.take(8)) as u64 as usize as int;
        let mid = orig_len / 2;
        assert(cut.take(8) == payload.take(8));
        if j >= 8 + alen {
            let b = payload.skip(8 + alen);
            assert(cut.subrange(8, 8 + alen) == payload.subrange(8, 8 + alen));
            assert(cut.skip(8 + alen) == b.take(j - 8 - alen));
            law_cut_stream(b, orig_len - mid, j - 8 - alen);
        }
    }
}

/// Law: a payload that decompresses does not with bytes behind it.
pub proof fn law_longer_payload(payload: Seq<u8>, orig_len: int, tail: Seq<u8>)
    requires
        decompressed(payload, orig_len) is Ok,
        tail.len() > 0,
    ensures
        decompressed(payload + tail, orig_len) == Err::<Seq<u8>, Error>(Error::TrailingGarbage),
{
    let longer = payload + tail;
    let alen = le::le_value(payload.take(8)) as u64 as usize as int;
    let b = payload.skip(8 + alen);
    assert(longer.take(8) == payload.take(8));
    assert(longer.subrange(8, 8 + alen) == payload.subrange(8, 8 + alen));
    assert(longer.skip(8 + alen) == b + tail);
    law_longer_stream(b, orig_len - orig_len / 2, tail);
}

/// Law: what the data were compressed to decompresses to them, and neither a part
/// of it nor it with bytes behind it decompresses at all. (No slice is longer than
/// `isize::MAX`.)
pub proof fn law_only_the_whole_payload(data: Seq<u8>, j: int, tail: Seq<u8>)
    requires
        data.len() <= isize::MAX,
        0 <= j < compressed(data).len(),
        tail.len() > 0,
    ensures
        decompressed(compressed(data), data.len() as int) == Ok::<Seq<u8>, Error>(data),
        decompressed(compressed(data).take(j), data.len() as int) is Err,
        decompressed(compressed(data) + tail, data.len() as int) is Err,
{
    law_round_trip(data);
    law_cut_payload(compressed(data), data.len() as int, j);
    law_longer_payload(compressed(data), data.len() as int, tail);
}

} // verus!
