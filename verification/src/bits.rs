//! Bit sequences packed into bytes, the first bit in the lowest place.

use vstd::arithmetic::power2;
use vstd::prelude::*;

verus! {

/// How many bytes `n` bits take.
pub open spec fn byte_count(n: int) -> int {
    (n + 7) / 8
}

/// One bit of a sequence as a number; bits behind the end are zero.
pub open spec fn digit(bits: Seq<bool>, i: int) -> int {
    if 0 <= i < bits.len() && bits[i] {
        1
    } else {
        0
    }
}

/// The byte that holds the bits from `8 * j` on.
#[verifier::opaque]
pub open spec fn packed_byte(bits: Seq<bool>, j: int) -> u8 {
    (digit(bits, 8 * j) + 2 * digit(bits, 8 * j + 1) + 4 * digit(bits, 8 * j + 2) + 8 * digit(
        bits,
        8 * j + 3,
    ) + 16 * digit(bits, 8 * j + 4) + 32 * digit(bits, 8 * j + 5) + 64 * digit(bits, 8 * j + 6)
        + 128 * digit(bits, 8 * j + 7)) as u8
}

/// The bytes that hold `bits`.
pub open spec fn packed(bits: Seq<bool>) -> Seq<u8> {
    Seq::new(byte_count(bits.len() as int) as nat, |j: int| packed_byte(bits, j))
}

/// The weight of place `k` in a byte.
pub open spec fn place(k: int) -> int {
    if k == 0 {
        1
    } else if k == 1 {
        2
    } else if k == 2 {
        4
    } else if k == 3 {
        8
    } else if k == 4 {
        16
    } else if k == 5 {
        32
    } else if k == 6 {
        64
    } else {
        128
    }
}

/// The bit of `s` at bit position `i`.
#[verifier::opaque]
pub open spec fn bit_at(s: Seq<u8>, i: int) -> bool {
    (s[i / 8] as int / place(i % 8)) % 2 == 1
}

/// The `n` bits of `s` from bit position `from` on.
pub open spec fn bits_at(s: Seq<u8>, from: int, n: nat) -> Seq<bool> {
    Seq::new(n, |i: int| bit_at(s, from + i))
}

/// The `w` low bits of `v`, the lowest first.
pub open spec fn low_bits(v: nat, w: nat) -> Seq<bool>
    decreases w,
{
    if w == 0 {
        Seq::empty()
    } else {
        seq![v % 2 == 1] + low_bits(v / 2, (w - 1) as nat)
    }
}

/// The number that `bits` spell, the lowest bit first.
pub open spec fn bits_value(bits: Seq<bool>) -> nat
    decreases bits.len(),
{
    if bits.len() == 0 {
        0
    } else {
        (if bits[0] {
            1nat
        } else {
            0nat
        }) + 2 * bits_value(bits.drop_first())
    }
}

/// The number of bits that tell `n` things apart.
pub open spec fn width_for(n: nat) -> nat
    decreases n,
{
    if n <= 1 {
        0
    } else {
        1 + width_for((n + 1) / 2)
    }
}

/// The binary digits of a byte.
proof fn lemma_digits(
    d0: int,
    d1: int,
    d2: int,
    d3: int,
    d4: int,
    d5: int,
    d6: int,
    d7: int,
    b: int,
)
    requires
        0 <= d0 <= 1,
        0 <= d1 <= 1,
        0 <= d2 <= 1,
        0 <= d3 <= 1,
        0 <= d4 <= 1,
        0 <= d5 <= 1,
        0 <= d6 <= 1,
        0 <= d7 <= 1,
        b == d0 + 2 * d1 + 4 * d2 + 8 * d3 + 16 * d4 + 32 * d5 + 64 * d6 + 128 * d7,
    ensures
        0 <= b < 256,
        (b / 1) % 2 == d0,
        (b / 2) % 2 == d1,
        (b / 4) % 2 == d2,
        (b / 8) % 2 == d3,
        (b / 16) % 2 == d4,
        (b / 32) % 2 == d5,
        (b / 64) % 2 == d6,
        (b / 128) % 2 == d7,
{
    let c7 = d7;
    let c6 = d6 + 2 * c7;
    let c5 = d5 + 2 * c6;
    let c4 = d4 + 2 * c5;
    let c3 = d3 + 2 * c4;
    let c2 = d2 + 2 * c3;
    let c1 = d1 + 2 * c2;
    let r2 = d0 + 2 * d1;
    let r3 = r2 + 4 * d2;
    let r4 = r3 + 8 * d3;
    let r5 = r4 + 16 * d4;
    let r6 = r5 + 32 * d5;
    let r7 = r6 + 64 * d6;
    assert(b / 2 == c1 && c1 % 2 == d1) by {
        assert(b == d0 + 2 * c1);
    }
    assert(b / 4 == c2 && c2 % 2 == d2) by {
        assert(b == r2 + 4 * c2 && 0 <= r2 < 4);
    }
    assert(b / 8 == c3 && c3 % 2 == d3) by {
        assert(b == r3 + 8 * c3 && 0 <= r3 < 8);
    }
    assert(b / 16 == c4 && c4 % 2 == d4) by {
        assert(b == r4 + 16 * c4 && 0 <= r4 < 16);
    }
    assert(b / 32 == c5 && c5 % 2 == d5) by {
        assert(b == r5 + 32 * c5 && 0 <= r5 < 32);
    }
    assert(b / 64 == c6 && c6 % 2 == d6) by {
        assert(b == r6 + 64 * c6 && 0 <= r6 < 64);
    }
    assert(b / 128 == c7) by {
        assert(b == r7 + 128 * c7 && 0 <= r7 < 128);
    }
}

/// Every packed bit can be read back.
pub proof fn lemma_packed_bit(bits: Seq<bool>, i: int)
    requires
        0 <= i < bits.len(),
    ensures
        i / 8 < packed(bits).len(),
        bit_at(packed(bits), i) == bits[i],
{
    let j = i / 8;
    let k = i % 8;
    let d0 = digit(bits, 8 * j);
    let d1 = digit(bits, 8 * j + 1);
    let d2 = digit(bits, 8 * j + 2);
    let d3 = digit(bits, 8 * j + 3);
    let d4 = digit(bits, 8 * j + 4);
    let d5 = digit(bits, 8 * j + 5);
    let d6 = digit(bits, 8 * j + 6);
    let d7 = digit(bits, 8 * j + 7);
    let b = d0 + 2 * d1 + 4 * d2 + 8 * d3 + 16 * d4 + 32 * d5 + 64 * d6 + 128 * d7;
    lemma_digits(d0, d1, d2, d3, d4, d5, d6, d7, b);
    assert(packed(bits)[j] == b as u8) by {
        reveal(packed_byte);
    }
    assert(i == 8 * j + k);
    assert(bit_at(packed(bits), i) == ((b / place(k)) % 2 == 1)) by {
        reveal(bit_at);
    }
    assert(digit(bits, i) == 1 <==> bits[i]);
    if k == 0 {
        assert(place(k) == 1);
    } else if k == 1 {
        assert(place(k) == 2);
    } else if k == 2 {
        assert(place(k) == 4);
    } else if k == 3 {
        assert(place(k) == 8);
    } else if k == 4 {
        assert(place(k) == 16);
    } else if k == 5 {
        assert(place(k) == 32);
    } else if k == 6 {
        assert(place(k) == 64);
    } else {
        assert(place(k) == 128);
    }
}

/// All packed bits read back give the sequence.
pub proof fn lemma_packed_bits(bits: Seq<bool>)
    ensures
        bits_at(packed(bits), 0, bits.len()) == bits,
        packed(bits).len() == byte_count(bits.len() as int),
{
    assert forall|i: int| 0 <= i < bits.len() implies bits_at(packed(bits), 0, bits.len())[i]
        == bits[i] by {
        lemma_packed_bit(bits, i);
    }
    assert(bits_at(packed(bits), 0, bits.len()) =~= bits);
}

/// A number that fits in `w` bits is what its `w` low bits spell.
pub proof fn lemma_low_bits_round_trip(v: nat, w: nat)
    requires
        v < power2::pow2(w),
    ensures
        low_bits(v, w).len() == w,
        bits_value(low_bits(v, w)) == v,
    decreases w,
{
    power2::lemma_pow2(w);
    if w == 0 {
        power2::lemma2_to64();
    } else {
        power2::lemma_pow2_unfold(w);
        lemma_low_bits_round_trip(v / 2, (w - 1) as nat);
        assert(low_bits(v, w).drop_first() =~= low_bits(v / 2, (w - 1) as nat));
    }
}

pub proof fn lemma_low_bits_len(v: nat, w: nat)
    ensures
        low_bits(v, w).len() == w,
    decreases w,
{
    if w > 0 {
        lemma_low_bits_len(v / 2, (w - 1) as nat);
    }
}

/// `width_for(n)` bits are enough for the indices of `n` things.
pub proof fn lemma_width_for(n: nat)
    ensures
        n <= power2::pow2(width_for(n)),
    decreases n,
{
    power2::lemma2_to64();
    if n > 1 {
        lemma_width_for((n + 1) / 2);
        power2::lemma_pow2_unfold(width_for(n));
    }
}

/// `width_for(n)` bits are also needed: one less is not enough.
pub proof fn lemma_width_for_least(n: nat)
    requires
        n >= 2,
    ensures
        width_for(n) >= 1,
        power2::pow2((width_for(n) - 1) as nat) < n,
    decreases n,
{
    power2::lemma2_to64();
    if n > 2 {
        lemma_width_for_least((n + 1) / 2);
        power2::lemma_pow2_unfold((width_for(n) - 1) as nat);
    } else {
        reveal_with_fuel(width_for, 3);
    }
}

/// A number that fits in a machine word needs at most as many bits as the word has.
pub proof fn lemma_width_for_bound(n: nat, w: nat)
    requires
        n <= power2::pow2(w),
    ensures
        width_for(n) <= w,
    decreases w,
{
    power2::lemma2_to64();
    if n > 1 {
        if w == 0 {
        } else {
            power2::lemma_pow2_unfold(w);
            lemma_width_for_bound((n + 1) / 2, (w - 1) as nat);
        }
    }
}

/// How many bytes `n` bits take, without overflow.
pub fn bytes_for_bits(n: usize) -> (r: usize)
    ensures
        r == byte_count(n as int),
{
    let whole: usize = n / 8;
    if n % 8 == 0 {
        whole
    } else {
        whole + 1
    }
}

/// The bit at `i` as a number; bits behind the end are zero.
fn digit_at(bits: &Vec<bool>, base: usize, k: usize) -> (d: u8)
    requires
        base <= bits@.len(),
    ensures
        d == digit(bits@, base + k),
{
    if k < bits.len() - base && bits[base + k] {
        1
    } else {
        0
    }
}

/// Packs `bits` into bytes.
pub fn pack_bits(bits: &Vec<bool>) -> (out: Vec<u8>)
    ensures
        out@ == packed(bits@),
{
    let n: usize = bits.len();
    let count: usize = bytes_for_bits(n);
    let mut out: Vec<u8> = Vec::with_capacity(count);
    let mut j: usize = 0;
    while j < count
        invariant
            n == bits@.len(),
            j <= count == byte_count(n as int),
            out@ == Seq::new(j as nat, |k: int| packed_byte(bits@, k)),
        decreases count - j,
    {
        let i: usize = j * 8;
        let low: u8 = digit_at(bits, i, 0) + 2 * digit_at(bits, i, 1) + 4 * digit_at(bits, i, 2) + 8
            * digit_at(bits, i, 3);
        let high: u8 = digit_at(bits, i, 4) + 2 * digit_at(bits, i, 5) + 4 * digit_at(bits, i, 6)
            + 8 * digit_at(bits, i, 7);
        out.push(low + 16 * high);
        assert(low + 16 * high == packed_byte(bits@, j as int)) by {
            reveal(packed_byte);
        }
        j = j + 1;
        assert(out@ =~= Seq::new(j as nat, |k: int| packed_byte(bits@, k)));
    }
    assert(out@ =~= packed(bits@));
    out
}

/// Reads the bit at bit position `i` behind byte `start`.
pub fn read_bit(buf: &[u8], start: usize, i: usize) -> (r: bool)
    requires
        start + i / 8 < buf@.len(),
    ensures
        r == bit_at(buf@, 8 * start + i),
{
    assert(start + i / 8 < buf.len());
    let b: u8 = buf[start + i / 8];
    let k: usize = i % 8;
    proof {
        reveal(bit_at);
        assert((8 * start + i) / 8 == start + i as int / 8);
        assert((8 * start + i) % 8 == i as int % 8);
    }
    let shifted: u8 = if k == 0 {
        b
    } else if k == 1 {
        b / 2
    } else if k == 2 {
        b / 4
    } else if k == 3 {
        b / 8
    } else if k == 4 {
        b / 16
    } else if k == 5 {
        b / 32
    } else if k == 6 {
        b / 64
    } else {
        b / 128
    };
    shifted % 2 == 1
}

/// The number of bits that tell `n` things apart.
pub fn bit_width(n: usize) -> (w: usize)
    ensures
        w == width_for(n as nat),
        w <= 64,
{
    proof {
        power2::lemma2_to64();
        power2::lemma2_to64_rest();
        lemma_width_for_bound(n as nat, 64);
    }
    let mut w: usize = 0;
    let mut m: usize = n;
    while m > 1
        invariant
            w + width_for(m as nat) == width_for(n as nat),
            width_for(n as nat) <= 64,
        decreases m,
    {
        m = m / 2 + m % 2;
        w = w + 1;
    }
    w
}

/// Appends the `w` low bits of `v`, the lowest first.
pub fn push_low_bits(bits: &mut Vec<bool>, v: usize, w: usize)
    ensures
        final(bits)@ == old(bits)@ + low_bits(v as nat, w as nat),
{
    let mut rest: usize = v;
    let mut left: usize = w;
    while left > 0
        invariant
            bits@ + low_bits(rest as nat, left as nat) == old(bits)@ + low_bits(
                v as nat,
                w as nat,
            ),
        decreases left,
    {
        let ghost before = bits@;
        bits.push(rest % 2 == 1);
        assert(before + low_bits(rest as nat, left as nat) =~= bits@ + low_bits(
            (rest / 2) as nat,
            (left - 1) as nat,
        ));
        rest = rest / 2;
        left = left - 1;
    }
    assert(bits@ =~= bits@ + low_bits(rest as nat, 0));
}

} // verus!
