//! Variable-length integers: seven bits per byte, the least significant group
//! first, the top bit of each byte but the last set.

use crate::bytes;
use crate::error::Error;
use vstd::prelude::*;

verus! {

/// The encoding of `v`.
pub open spec fn leb(v: nat) -> Seq<u8>
    decreases v,
{
    if v < 128 {
        seq![v as u8]
    } else {
        seq![(v % 128 + 128) as u8] + leb(v / 128)
    }
}

/// How many continuation bytes stand in `s` from `pos` on.
pub open spec fn run(s: Seq<u8>, pos: int) -> nat
    decreases s.len() - pos,
{
    if 0 <= pos < s.len() && s[pos] >= 128 {
        1 + run(s, pos + 1)
    } else {
        0
    }
}

/// The number that the `n` groups from `pos` on spell.
pub open spec fn groups(s: Seq<u8>, pos: int, n: nat) -> nat
    decreases n,
{
    if n == 0 {
        0
    } else {
        (s[pos] % 128) as nat + 128 * groups(s, pos + 1, (n - 1) as nat)
    }
}

/// `128^n`.
pub open spec fn weight(n: nat) -> nat
    decreases n,
{
    if n == 0 {
        1
    } else {
        128 * weight((n - 1) as nat)
    }
}

/// What decoding at `pos` gives when at most `max` bytes are allowed: the number
/// before it is cut to its width.
pub open spec fn parse(s: Seq<u8>, pos: int, max: nat) -> Result<nat, Error> {
    let k = run(s, pos);
    if k >= max {
        Err(Error::VarintOverflow)
    } else if pos + k >= s.len() {
        Err(Error::VarintEof)
    } else {
        Ok(groups(s, pos, k + 1))
    }
}

/// Where decoding at `pos` stops.
pub open spec fn parse_end(s: Seq<u8>, pos: int, max: nat) -> int {
    let k = run(s, pos);
    if k >= max {
        pos + max
    } else if pos + k >= s.len() {
        pos + k
    } else {
        pos + k + 1
    }
}

/// The 32-bit number at `pos`; bits above the 32nd are dropped.
pub open spec fn parse_u32(s: Seq<u8>, pos: int) -> Result<u32, Error> {
    match parse(s, pos, 5) {
        Ok(v) => Ok((v % 0x1_0000_0000) as u32),
        Err(e) => Err(e),
    }
}

/// The 64-bit number at `pos`; bits above the 64th are dropped.
pub open spec fn parse_u64(s: Seq<u8>, pos: int) -> Result<u64, Error> {
    match parse(s, pos, 10) {
        Ok(v) => Ok((v % 0x1_0000_0000_0000_0000) as u64),
        Err(e) => Err(e),
    }
}

/// The zigzag code: small magnitudes get small codes, whatever their sign.
pub open spec fn zigzag(v: int) -> nat {
    if v >= 0 {
        (2 * v) as nat
    } else {
        (-2 * v - 1) as nat
    }
}

/// Inverse of [`zigzag`].
pub open spec fn unzigzag(n: nat) -> int {
    if n % 2 == 0 {
        (n / 2) as int
    } else {
        -((n / 2) as int) - 1
    }
}

pub proof fn lemma_weights()
    ensures
        weight(0) == 1,
        weight(1) == 0x80,
        weight(4) == 0x1000_0000,
        weight(5) == 0x8_0000_0000,
        weight(9) == 0x8000_0000_0000_0000,
        weight(10) == 0x40_0000_0000_0000_0000,
{
    reveal_with_fuel(weight, 12);
}

proof fn lemma_weight_monotone(m: nat, n: nat)
    requires
        m <= n,
    ensures
        1 <= weight(m) <= weight(n),
    decreases n,
{
    if m < n {
        lemma_weight_monotone(m, (n - 1) as nat);
    } else if n > 0 {
        lemma_weight_monotone((m - 1) as nat, (n - 1) as nat);
    }
}

/// Appending one group adds it with the weight of its place.
proof fn lemma_groups_last(s: Seq<u8>, pos: int, n: nat)
    ensures
        groups(s, pos, n + 1) == groups(s, pos, n) + weight(n) * (s[pos + n] % 128),
    decreases n,
{
    if n == 0 {
        reveal_with_fuel(groups, 2);
        let w = weight(0) as int;
        let b = (s[pos] % 128) as int;
        assert(w * b == b) by (nonlinear_arith)
            requires
                w == 1,
        ;
        assert(s[pos + n] == s[pos]);
    } else {
        lemma_groups_last(s, pos + 1, (n - 1) as nat);
        let w = weight((n - 1) as nat) as int;
        let b = (s[pos + n] % 128) as int;
        assert(pos + 1 + (n - 1) as nat == pos + n);
        assert(128 * (w * b) == (128 * w) * b) by (nonlinear_arith);
        assert(weight(n) * (s[pos + n] % 128) == (128 * w) * b);
        assert(groups(s, pos, n) == (s[pos] % 128) as nat + 128 * groups(
            s,
            pos + 1,
            (n - 1) as nat,
        ));
        assert(groups(s, pos, n + 1) == (s[pos] % 128) as nat + 128 * groups(s, pos + 1, n));
    }
}

proof fn lemma_groups_bound(s: Seq<u8>, pos: int, n: nat)
    ensures
        groups(s, pos, n) < weight(n),
    decreases n,
{
    if n > 0 {
        lemma_groups_bound(s, pos + 1, (n - 1) as nat);
    }
}

/// Bounds on the length of an encoding.
pub proof fn lemma_leb_len(v: nat, n: nat)
    requires
        v < weight(n),
        n >= 1,
    ensures
        1 <= leb(v).len() <= n,
    decreases n,
{
    if v >= 128 {
        if n == 1 {
            lemma_weights();
        } else {
            assert(v / 128 < weight((n - 1) as nat));
            lemma_leb_len(v / 128, (n - 1) as nat);
        }
    }
}

/// An encoding is never empty.
pub proof fn lemma_leb_nonempty(v: nat)
    ensures
        leb(v).len() >= 1,
{
}

/// Where the encoding of `v` stands, its groups spell `v` and its continuation
/// bytes are all of its bytes but the last.
pub proof fn lemma_leb_at(s: Seq<u8>, pos: int, v: nat)
    requires
        bytes::has_at(s, pos, leb(v)),
    ensures
        run(s, pos) == leb(v).len() - 1,
        groups(s, pos, leb(v).len()) == v,
    decreases v,
{
    let w = leb(v);
    let u = s.subrange(pos, pos + w.len());
    assert(s[pos] == u[0]);
    if v < 128 {
        reveal_with_fuel(groups, 2);
    } else {
        let rest = leb(v / 128);
        assert(w =~= seq![(v % 128 + 128) as u8] + rest);
        assert(s.subrange(pos + 1, pos + 1 + rest.len()) =~= u.subrange(1, w.len() as int));
        assert(u.subrange(1, w.len() as int) =~= rest);
        lemma_leb_at(s, pos + 1, v / 128);
    }
}

/// Decoding where the encoding of a 32-bit number stands gives that number and
/// stops right behind it.
pub proof fn lemma_u32_round_trip(s: Seq<u8>, pos: int, v: u32)
    requires
        bytes::has_at(s, pos, leb(v as nat)),
    ensures
        parse_u32(s, pos) == Ok::<u32, Error>(v),
        parse_end(s, pos, 5) == pos + leb(v as nat).len(),
{
    lemma_weights();
    lemma_leb_len(v as nat, 5);
    lemma_leb_at(s, pos, v as nat);
}

/// Decoding where the encoding of a 64-bit number stands gives that number and
/// stops right behind it.
pub proof fn lemma_u64_round_trip(s: Seq<u8>, pos: int, v: u64)
    requires
        bytes::has_at(s, pos, leb(v as nat)),
    ensures
        parse_u64(s, pos) == Ok::<u64, Error>(v),
        parse_end(s, pos, 10) == pos + leb(v as nat).len(),
{
    lemma_weights();
    lemma_leb_len(v as nat, 10);
    lemma_leb_at(s, pos, v as nat);
}

/// The zigzag code of a 64-bit number fits in 64 bits and leads back to it.
pub proof fn lemma_zigzag_round_trip(v: i64)
    ensures
        zigzag(v as int) <= u64::MAX,
        unzigzag(zigzag(v as int)) == v,
{
}

/// Where decoding stops is at or behind where it started, and inside the data
/// when it succeeds.
pub proof fn lemma_parse_end(s: Seq<u8>, pos: int, max: nat)
    requires
        0 <= pos,
    ensures
        pos <= parse_end(s, pos, max),
        parse(s, pos, max) is Ok ==> pos < parse_end(s, pos, max) <= s.len(),
        pos <= s.len() ==> parse_end(s, pos, max) <= s.len(),
{
    lemma_run_bound(s, pos);
}

proof fn lemma_run_bound(s: Seq<u8>, pos: int)
    requires
        0 <= pos,
    ensures
        pos <= s.len() ==> pos + run(s, pos) <= s.len(),
        pos > s.len() ==> run(s, pos) == 0,
    decreases s.len() - pos,
{
    if pos < s.len() && s[pos] >= 128 {
        lemma_run_bound(s, pos + 1);
    }
}

/// Appends the encoding of `value`.
pub fn encode(buf: &mut Vec<u8>, value: u32)
    ensures
        final(buf)@ == old(buf)@ + leb(value as nat),
{
    encode_u64(buf, value as u64);
}

/// Writes the encoding of `value` at `pos` and returns the position behind it.
pub fn encode_to_slice(buf: &mut [u8], pos: usize, value: u32) -> (end: usize)
    requires
        pos + leb(value as nat).len() <= old(buf)@.len(),
    ensures
        end == pos + leb(value as nat).len(),
        final(buf)@ == old(buf)@.subrange(0, pos as int) + leb(value as nat) + old(buf)@.subrange(
            end as int,
            old(buf)@.len() as int,
        ),
{
    let ghost start = buf@;
    let mut v: u32 = value;
    let mut p: usize = pos;
    let ghost mut done = Seq::<u8>::empty();
    while v >= 128
        invariant
            done + leb(v as nat) == leb(value as nat),
            pos + leb(value as nat).len() <= start.len(),
            p == pos + done.len(),
            buf@ == start.subrange(0, pos as int) + done + start.subrange(
                p as int,
                start.len() as int,
            ),
        decreases v,
    {
        let b: u8 = (v % 128 + 128) as u8;
        buf[p] = b;
        proof {
            assert(leb(v as nat) =~= seq![b] + leb((v / 128) as nat));
            assert(done + leb(v as nat) =~= done.push(b) + leb((v / 128) as nat));
            done = done.push(b);
            assert(buf@ =~= start.subrange(0, pos as int) + done + start.subrange(
                p + 1,
                start.len() as int,
            ));
        }
        p = p + 1;
        v = v / 128;
    }
    buf[p] = v as u8;
    proof {
        assert(leb(value as nat) =~= done.push(v as u8));
        assert(buf@ =~= start.subrange(0, pos as int) + leb(value as nat) + start.subrange(
            p + 1,
            start.len() as int,
        ));
    }
    p + 1
}

/// The length of the encoding of `value`.
pub fn encoded_size(value: u32) -> (size: usize)
    ensures
        size == leb(value as nat).len(),
{
    let mut size: usize = 1;
    let mut v: u32 = value;
    proof {
        lemma_weights();
        lemma_leb_len(value as nat, 5);
    }
    while v >= 128
        invariant
            1 <= size,
            leb(value as nat).len() <= 5,
            size + leb(v as nat).len() == leb(value as nat).len() + 1,
        decreases v,
    {
        proof {
            lemma_leb_nonempty((v / 128) as nat);
        }
        size = size + 1;
        v = v / 128;
    }
    size
}

/// Decodes a 32-bit number at `*pos` and moves `*pos` behind what was read.
pub fn decode(buf: &[u8], pos: &mut usize) -> (r: Result<u32, Error>)
    ensures
        r == parse_u32(buf@, *old(pos) as int),
        *final(pos) == parse_end(buf@, *old(pos) as int, 5),
{
    let ghost start = *pos as int;
    let mut value: u64 = 0;
    let mut scale: u64 = 1;
    let mut i: u32 = 0;
    proof {
        lemma_weights();
    }
    loop
        invariant
            i <= 4,
            *pos == start + i,
            start == *old(pos),
            start <= buf@.len() || i == 0,
            run(buf@, start) == i + run(buf@, *pos as int),
            value == groups(buf@, start, i as nat),
            scale == weight(i as nat),
        decreases 5 - i,
    {
        proof {
            lemma_weights();
            lemma_weight_monotone(i as nat, 4);
            lemma_groups_bound(buf@, start, i as nat);
            lemma_groups_last(buf@, start, i as nat);
            lemma_groups_bound(buf@, start, (i + 1) as nat);
            lemma_weight_monotone((i + 1) as nat, 5);
        }
        if *pos >= buf.len() {
            return Err(Error::VarintEof);
        }
        let b: u8 = buf[*pos];
        *pos = *pos + 1;
        let group: u64 = (b % 128) as u64;
        assert(scale * group <= 0x1000_0000 * 127) by (nonlinear_arith)
            requires
                scale <= 0x1000_0000,
                group <= 127,
        ;
        value = value + scale * group;
        if b < 128 {
            return Ok((value % 0x1_0000_0000) as u32);
        }
        i = i + 1;
        if i >= 5 {
            return Err(Error::VarintOverflow);
        }
        scale = scale * 128;
    }
}

/// Appends the encoding of `value`.
pub fn encode_u64(buf: &mut Vec<u8>, value: u64)
    ensures
        final(buf)@ == old(buf)@ + leb(value as nat),
{
    let mut v: u64 = value;
    while v >= 128
        invariant
            buf@ + leb(v as nat) == old(buf)@ + leb(value as nat),
        decreases v,
    {
        let ghost before = buf@;
        let b: u8 = (v % 128 + 128) as u8;
        buf.push(b);
        proof {
            assert(leb(v as nat) =~= seq![b] + leb((v / 128) as nat));
            assert(before + leb(v as nat) =~= buf@ + leb((v / 128) as nat));
        }
        v = v / 128;
    }
    let ghost before = buf@;
    buf.push(v as u8);
    assert(buf@ =~= before + leb(v as nat));
}

/// Decodes a 64-bit number at `*pos` and moves `*pos` behind what was read.
pub fn decode_u64(buf: &[u8], pos: &mut usize) -> (r: Result<u64, Error>)
    ensures
        r == parse_u64(buf@, *old(pos) as int),
        *final(pos) == parse_end(buf@, *old(pos) as int, 10),
{
    let ghost start = *pos as int;
    let mut value: u128 = 0;
    let mut scale: u128 = 1;
    let mut i: u32 = 0;
    proof {
        lemma_weights();
    }
    loop
        invariant
            i <= 9,
            *pos == start + i,
            start == *old(pos),
            start <= buf@.len() || i == 0,
            run(buf@, start) == i + run(buf@, *pos as int),
            value == groups(buf@, start, i as nat),
            scale == weight(i as nat),
        decreases 10 - i,
    {
        proof {
            lemma_weights();
            lemma_weight_monotone(i as nat, 9);
            lemma_groups_bound(buf@, start, i as nat);
            lemma_groups_last(buf@, start, i as nat);
            lemma_groups_bound(buf@, start, (i + 1) as nat);
            lemma_weight_monotone((i + 1) as nat, 10);
        }
        if *pos >= buf.len() {
            return Err(Error::VarintEof);
        }
        let b: u8 = buf[*pos];
        *pos = *pos + 1;
        let group: u128 = (b % 128) as u128;
        assert(scale * group <= 0x8000_0000_0000_0000 * 127) by (nonlinear_arith)
            requires
                scale <= 0x8000_0000_0000_0000,
                group <= 127,
        ;
        value = value + scale * group;
        if b < 128 {
            return Ok((value % 0x1_0000_0000_0000_0000) as u64);
        }
        i = i + 1;
        if i >= 10 {
            return Err(Error::VarintOverflow);
        }
        scale = scale * 128;
    }
}

/// Appends the zigzag encoding of `value`.
pub fn encode_zigzag(buf: &mut Vec<u8>, value: i64)
    ensures
        final(buf)@ == old(buf)@ + leb(zigzag(value as int)),
{
    let code: u64 = if value >= 0 {
        (value as u64) * 2
    } else {
        ((-(value + 1)) as u64) * 2 + 1
    };
    encode_u64(buf, code);
}

/// Decodes a zigzag-encoded number at `*pos` and moves `*pos` behind what was read.
pub fn decode_zigzag(buf: &[u8], pos: &mut usize) -> (r: Result<i64, Error>)
    ensures
        r == (match parse_u64(buf@, *old(pos) as int) {
            Ok(n) => Ok::<i64, Error>(unzigzag(n as nat) as i64),
            Err(e) => Err(e),
        }),
        *final(pos) == parse_end(buf@, *old(pos) as int, 10),
{
    match decode_u64(buf, pos) {
        Ok(n) => {
            if n % 2 == 0 {
                Ok((n / 2) as i64)
            } else {
                Ok(-((n / 2) as i64) - 1)
            }
        },
        Err(e) => Err(e),
    }
}

} // verus!
