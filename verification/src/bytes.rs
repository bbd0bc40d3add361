//! Big-endian integers as byte sequences, and small helpers on byte buffers.

use vstd::prelude::*;

verus! {

/// `256^n`: how many values `n` bytes can hold.
pub open spec fn base(n: nat) -> nat
    decreases n,
{
    if n == 0 {
        1
    } else {
        256 * base((n - 1) as nat)
    }
}

/// The `n` low bytes of `v`, the most significant first.
pub open spec fn be(v: nat, n: nat) -> Seq<u8>
    decreases n,
{
    if n == 0 {
        Seq::empty()
    } else {
        be(v / 256, (n - 1) as nat).push((v % 256) as u8)
    }
}

/// The number that `s` spells, the most significant byte first.
pub open spec fn be_value(s: Seq<u8>) -> nat
    decreases s.len(),
{
    if s.len() == 0 {
        0
    } else {
        256 * be_value(s.drop_last()) + s.last() as nat
    }
}

/// Two's complement: the residue of `v` modulo `256^n`.
pub open spec fn residue(v: int, n: nat) -> nat {
    if v < 0 {
        (v + base(n)) as nat
    } else {
        v as nat
    }
}

/// Inverse of [`residue`]: the signed number whose residue modulo `256^n` is `u`.
pub open spec fn signed(u: nat, n: nat) -> int {
    if 2 * u >= base(n) {
        u - base(n)
    } else {
        u as int
    }
}

/// The four bytes of `v`, the least significant first.
pub open spec fn le4(v: nat) -> Seq<u8> {
    be(v, 4).reverse()
}

/// The number that four bytes spell, the least significant first.
pub open spec fn le4_value(s: Seq<u8>) -> nat {
    be_value(s.reverse())
}

/// Whether `t` stands in `s` at position `p`.
pub open spec fn has_at(s: Seq<u8>, p: int, t: Seq<u8>) -> bool {
    &&& 0 <= p
    &&& p + t.len() <= s.len()
    &&& s.subrange(p, p + t.len()) == t
}

/// The values of `base` that the format uses.
pub proof fn lemma_bases()
    ensures
        base(0) == 1,
        base(1) == 0x100,
        base(2) == 0x1_0000,
        base(4) == 0x1_0000_0000,
        base(8) == 0x1_0000_0000_0000_0000,
        base(16) == 0x1_0000_0000_0000_0000_0000_0000_0000_0000,
{
    reveal_with_fuel(base, 18);
}

pub proof fn lemma_base_positive(n: nat)
    ensures
        base(n) >= 1,
    decreases n,
{
    if n > 0 {
        lemma_base_positive((n - 1) as nat);
    }
}

/// Reading back what was spelled gives the number.
pub proof fn lemma_be_round_trip(v: nat, n: nat)
    requires
        v < base(n),
    ensures
        be(v, n).len() == n,
        be_value(be(v, n)) == v,
    decreases n,
{
    if n > 0 {
        let m = (n - 1) as nat;
        assert(v / 256 < base(m));
        lemma_be_round_trip(v / 256, m);
        assert(be(v, n).drop_last() =~= be(v / 256, m));
    }
}

/// A spelling has the length that was asked for.
pub proof fn lemma_be_len(v: nat, n: nat)
    ensures
        be(v, n).len() == n,
    decreases n,
{
    if n > 0 {
        lemma_be_len(v / 256, (n - 1) as nat);
    }
}

/// Spelling the number that was read gives the bytes back.
pub proof fn lemma_be_value_round_trip(s: Seq<u8>)
    ensures
        be_value(s) < base(s.len()),
        be(be_value(s), s.len()) == s,
    decreases s.len(),
{
    if s.len() > 0 {
        let t = s.drop_last();
        lemma_be_value_round_trip(t);
        assert(be_value(s) / 256 == be_value(t));
        assert(be_value(s) % 256 == s.last() as nat);
        assert(be(be_value(s), s.len()) =~= s);
    } else {
        assert(be(be_value(s), s.len()) =~= s);
    }
}

/// The sign survives the way through the residue.
pub proof fn lemma_signed_round_trip(v: int, n: nat)
    requires
        n >= 1,
        -(base(n) as int) <= 2 * v,
        2 * v < base(n),
    ensures
        residue(v, n) < base(n),
        signed(residue(v, n), n) == v,
{
}

/// Two spellings of the same length with the same number are the same.
pub proof fn lemma_be_value_injective(s: Seq<u8>, t: Seq<u8>)
    requires
        s.len() == t.len(),
        be_value(s) == be_value(t),
    ensures
        s == t,
{
    lemma_be_value_round_trip(s);
    lemma_be_value_round_trip(t);
}

/// Parts of what stands somewhere stand at their own positions.
pub proof fn lemma_has_at_split(s: Seq<u8>, p: int, a: Seq<u8>, b: Seq<u8>)
    requires
        has_at(s, p, a + b),
    ensures
        has_at(s, p, a),
        has_at(s, p + a.len(), b),
{
    let w = s.subrange(p, p + (a + b).len());
    assert(s.subrange(p, p + a.len()) =~= w.subrange(0, a.len() as int));
    assert(w.subrange(0, a.len() as int) =~= a);
    assert(s.subrange(p + a.len(), p + a.len() + b.len()) =~= w.subrange(
        a.len() as int,
        (a + b).len() as int,
    ));
    assert(w.subrange(a.len() as int, (a + b).len() as int) =~= b);
}

/// Reads `n` bytes at `pos` as a big-endian number.
pub fn read_be(buf: &[u8], pos: usize, n: usize) -> (v: u64)
    requires
        n <= 8,
        pos + n <= buf@.len(),
    ensures
        v as nat == be_value(buf@.subrange(pos as int, pos + n)),
{
    let mut v: u64 = 0;
    let mut i: usize = 0;
    proof {
        lemma_bases();
    }
    while i < n
        invariant
            i <= n <= 8,
            pos + n <= buf@.len(),
            v as nat == be_value(buf@.subrange(pos as int, pos + i)),
        decreases n - i,
    {
        let ghost t = buf@.subrange(pos as int, pos + i + 1);
        proof {
            assert(t.drop_last() =~= buf@.subrange(pos as int, pos + i));
            lemma_be_value_round_trip(t);
            lemma_base_monotone((i + 1) as nat, 8);
            lemma_bases();
        }
        assert(pos + i < buf.len());
        v = 256 * v + buf[pos + i] as u64;
        i = i + 1;
    }
    v
}

pub proof fn lemma_base_monotone(m: nat, n: nat)
    requires
        m <= n,
    ensures
        base(m) <= base(n),
    decreases n,
{
    if m < n {
        lemma_base_monotone(m, (n - 1) as nat);
        lemma_base_positive((n - 1) as nat);
    }
}

/// The last `n` bytes of more are those of `n`.
proof fn lemma_be_suffix(v: nat, n: nat, m: nat)
    requires
        n <= m,
    ensures
        be(v, m).len() == m,
        be(v, m).subrange(m - n, m as int) == be(v, n),
    decreases m,
{
    lemma_be_len(v, m);
    lemma_be_len(v, n);
    if n > 0 {
        lemma_be_suffix(v / 256, (n - 1) as nat, (m - 1) as nat);
        let shorter = be(v / 256, (m - 1) as nat);
        assert(be(v, m).subrange(m - n, m as int) =~= shorter.subrange(m - n, m - 1).push(
            (v % 256) as u8,
        ));
    } else {
        assert(be(v, m).subrange(m as int, m as int) =~= be(v, 0));
    }
}

/// Appends the `n` low bytes of `v`, the most significant first.
pub fn write_be(buf: &mut Vec<u8>, v: u64, n: usize)
    requires
        n <= 8,
    ensures
        final(buf)@ == old(buf)@ + be(v as nat, n as nat),
{
    let v1: u64 = v / 256;
    let v2: u64 = v1 / 256;
    let v3: u64 = v2 / 256;
    let v4: u64 = v3 / 256;
    let v5: u64 = v4 / 256;
    let v6: u64 = v5 / 256;
    let v7: u64 = v6 / 256;
    let all: [u8; 8] = [
        (v7 % 256) as u8,
        (v6 % 256) as u8,
        (v5 % 256) as u8,
        (v4 % 256) as u8,
        (v3 % 256) as u8,
        (v2 % 256) as u8,
        (v1 % 256) as u8,
        (v % 256) as u8,
    ];
    proof {
        reveal_with_fuel(be, 9);
        assert(all@ =~= be(v as nat, 8));
        lemma_be_suffix(v as nat, n as nat, 8);
    }
    append_bytes(buf, vstd::slice::slice_subrange(&all, 8 - n, 8));
}

/// Copies the bytes from `start` to `end`.
pub fn copy_range(buf: &[u8], start: usize, end: usize) -> (out: Vec<u8>)
    requires
        start <= end <= buf@.len(),
    ensures
        out@ == buf@.subrange(start as int, end as int),
{
    vstd::slice::slice_to_vec(vstd::slice::slice_subrange(buf, start, end))
}

/// Appends all of `src`.
pub fn append_bytes(buf: &mut Vec<u8>, src: &[u8])
    ensures
        final(buf)@ == old(buf)@ + src@,
{
    buf.extend_from_slice(src);
    assert(buf@ =~= old(buf)@ + src@);
}

/// Whether the two buffers hold the same bytes.
pub fn same_bytes(a: &[u8], b: &[u8]) -> (r: bool)
    ensures
        r == (a@ == b@),
{
    if a.len() != b.len() {
        return false;
    }
    let mut i: usize = 0;
    while i < a.len()
        invariant
            i <= a@.len() == b@.len(),
            forall|j: int| 0 <= j < i ==> a@[j] == b@[j],
        decreases a@.len() - i,
    {
        if a[i] != b[i] {
            return false;
        }
        i = i + 1;
    }
    assert(a@ =~= b@);
    true
}

/// Reading four bytes gives back the number that they were written from.
pub proof fn lemma_le4_round_trip(v: nat)
    requires
        v <= u32::MAX,
    ensures
        le4(v).len() == 4,
        le4_value(le4(v)) == v,
{
    lemma_bases();
    lemma_be_len(v, 4);
    lemma_be_round_trip(v, 4);
    assert(be(v, 4).reverse().reverse() =~= be(v, 4));
}

/// Appends a number in four bytes, the least significant first.
pub fn write_le4(buf: &mut Vec<u8>, v: u32)
    ensures
        final(buf)@ == old(buf)@ + le4(v as nat),
{
    let ghost start = buf@;
    proof {
        reveal_with_fuel(be, 5);
    }
    buf.push((v % 256) as u8);
    buf.push((v / 256 % 256) as u8);
    buf.push((v / 65_536 % 256) as u8);
    buf.push((v / 16_777_216) as u8);
    proof {
        let t = be(v as nat, 4);
        assert(t.len() == 4);
        assert(v as nat / 256 / 256 == v as nat / 65_536);
        assert(v as nat / 65_536 / 256 == v as nat / 16_777_216);
        assert(t[3] == (v % 256) as u8);
        assert(t[2] == (v / 256 % 256) as u8);
        assert(t[1] == (v / 65_536 % 256) as u8);
        assert(t[0] == (v / 16_777_216) as u8);
        assert(buf@ =~= start + t.reverse());
    }
}

/// Reads a number from four bytes at `pos`, the least significant first.
pub fn read_le4(buf: &[u8], pos: usize) -> (v: u32)
    requires
        pos + 4 <= buf@.len(),
    ensures
        v == le4_value(buf@.subrange(pos as int, pos + 4)),
{
    proof {
        let t = buf@.subrange(pos as int, pos + 4).reverse();
        reveal_with_fuel(be_value, 5);
        assert(t.drop_last() =~= seq![t[0], t[1], t[2]]);
        assert(t.drop_last().drop_last() =~= seq![t[0], t[1]]);
        assert(t.drop_last().drop_last().drop_last() =~= seq![t[0]]);
        assert(t.drop_last().drop_last().drop_last().drop_last() =~= Seq::<u8>::empty());
    }
    buf[pos] as u32 + 256 * (buf[pos + 1] as u32) + 65_536 * (buf[pos + 2] as u32) + 16_777_216 * (
    buf[pos + 3] as u32)
}

} // verus!
