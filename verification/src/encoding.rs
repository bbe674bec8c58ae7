//! Big-endian integer encodings shared by every binary format of the engine.
use vstd::prelude::*;

verus! {

/// `256` raised to the power `k`.
pub open spec fn pow256(k: nat) -> nat
    decreases k,
{
    if k == 0 {
        1
    } else {
        256 * pow256((k - 1) as nat)
    }
}

/// The unsigned integer that the bytes `s` encode, most significant byte first.
pub open spec fn be_value(s: Seq<u8>) -> nat
    decreases s.len(),
{
    if s.len() == 0 {
        0
    } else {
        be_value(s.drop_last()) * 256 + s.last() as nat
    }
}

/// The `width` low-order bytes of `n`, most significant byte first.
pub open spec fn be_bytes(n: nat, width: nat) -> Seq<u8>
    decreases width,
{
    if width == 0 {
        Seq::empty()
    } else {
        be_bytes(n / 256, (width - 1) as nat).push((n % 256) as u8)
    }
}

pub proof fn lemma_be_bytes_len(n: nat, width: nat)
    ensures
        be_bytes(n, width).len() == width,
    decreases width,
{
    if width > 0 {
        lemma_be_bytes_len(n / 256, (width - 1) as nat);
    }
}

pub proof fn lemma_be_value_bound(s: Seq<u8>)
    ensures
        be_value(s) < pow256(s.len()),
    decreases s.len(),
{
    if s.len() > 0 {
        lemma_be_value_bound(s.drop_last());
    }
}

/// Decoding the encoding of a number that fits gives the number back.
pub proof fn lemma_be_value_of_bytes(n: nat, width: nat)
    requires
        n < pow256(width),
    ensures
        be_value(be_bytes(n, width)) == n,
    decreases width,
{
    if width > 0 {
        let w1 = (width - 1) as nat;
        assert(n / 256 < pow256(w1)) by (nonlinear_arith)
            requires
                n < 256 * pow256(w1),
        ;
        lemma_be_value_of_bytes(n / 256, w1);
        lemma_be_bytes_len(n / 256, w1);
        assert(be_bytes(n, width).drop_last() =~= be_bytes(n / 256, w1));
        assert(n == (n / 256) * 256 + n % 256) by (nonlinear_arith);
    }
}

/// Encoding the value of some bytes gives the same bytes back.
pub proof fn lemma_be_bytes_of_value(s: Seq<u8>)
    ensures
        be_bytes(be_value(s), s.len()) =~= s,
    decreases s.len(),
{
    if s.len() > 0 {
        let p = s.drop_last();
        lemma_be_bytes_of_value(p);
        let v = be_value(s);
        assert(v / 256 == be_value(p) && v % 256 == s.last()) by (nonlinear_arith)
            requires
                v == be_value(p) * 256 + s.last(),
                s.last() < 256,
        ;
        assert(s =~= p.push(s.last()));
    }
}

/// Encodings of equal width of different numbers that fit differ.
pub proof fn lemma_be_bytes_injective(a: nat, b: nat, width: nat)
    requires
        a < pow256(width),
        b < pow256(width),
        be_bytes(a, width) == be_bytes(b, width),
    ensures
        a == b,
{
    lemma_be_value_of_bytes(a, width);
    lemma_be_value_of_bytes(b, width);
}

/// The `width`-byte big-endian encodings of the numbers, one after another.
pub open spec fn be_concat(xs: Seq<nat>, width: nat) -> Seq<u8>
    decreases xs.len(),
{
    if xs.len() == 0 {
        Seq::empty()
    } else {
        be_concat(xs.drop_last(), width) + be_bytes(xs.last(), width)
    }
}

pub proof fn lemma_be_concat_len(xs: Seq<nat>, width: nat)
    ensures
        be_concat(xs, width).len() == xs.len() * width,
    decreases xs.len(),
{
    if xs.len() > 0 {
        lemma_be_concat_len(xs.drop_last(), width);
        lemma_be_bytes_len(xs.last(), width);
        assert((xs.len() - 1) * width + width == xs.len() * width) by (nonlinear_arith);
    }
}

/// The `i`-th encoding stands at `i * width`.
pub proof fn lemma_be_concat_at(xs: Seq<nat>, width: nat, i: int)
    requires
        0 <= i < xs.len(),
    ensures
        be_concat(xs, width).subrange(i * width, (i + 1) * width) == be_bytes(xs[i], width),
    decreases xs.len(),
{
    let p = xs.drop_last();
    lemma_be_concat_len(p, width);
    lemma_be_bytes_len(xs.last(), width);
    let c = be_concat(xs, width);
    if i == xs.len() - 1 {
        assert(i * width == p.len() * width);
        assert((i + 1) * width == p.len() * width + width) by (nonlinear_arith)
            requires
                i == p.len(),
        ;
        assert(c.subrange(i * width, (i + 1) * width) =~= be_bytes(xs[i], width));
    } else {
        lemma_be_concat_at(p, width, i);
        assert((i + 1) * width <= p.len() * width) by (nonlinear_arith)
            requires
                i + 1 <= p.len(),
        ;
        assert(0 <= i * width <= (i + 1) * width) by (nonlinear_arith)
            requires
                0 <= i,
                0 <= width,
        ;
        assert(c.subrange(i * width, (i + 1) * width) =~= be_concat(p, width).subrange(
            i * width,
            (i + 1) * width,
        ));
    }
}

pub proof fn lemma_pow256_values()
    ensures
        pow256(1) == 0x100,
        pow256(4) == 0x1_0000_0000,
        pow256(8) == 0x1_0000_0000_0000_0000,
{
    reveal_with_fuel(pow256, 9);
}

/// The value of four bytes, in the form that executable code computes.
pub proof fn lemma_be_value_4(s: Seq<u8>)
    requires
        s.len() == 4,
    ensures
        be_value(s) == s[0] * 0x100_0000 + s[1] * 0x1_0000 + s[2] * 0x100 + s[3],
{
    assert(s.drop_last().drop_last().drop_last().drop_last() =~= Seq::<u8>::empty());
    reveal_with_fuel(be_value, 5);
}

/// The value of eight bytes, in the form that executable code computes.
pub proof fn lemma_be_value_8(s: Seq<u8>)
    requires
        s.len() == 8,
    ensures
        be_value(s) == s[0] * 0x100_0000_0000_0000 + s[1] * 0x1_0000_0000_0000 + s[2]
            * 0x100_0000_0000 + s[3] * 0x1_0000_0000 + s[4] * 0x100_0000 + s[5] * 0x1_0000 + s[6]
            * 0x100 + s[7],
{
    let s4 = s.subrange(0, 4);
    assert(s.drop_last().drop_last().drop_last().drop_last() =~= s4);
    lemma_be_value_4(s4);
    reveal_with_fuel(be_value, 5);
}

/// Reads a 32-bit unsigned integer from four big-endian bytes.
pub fn be_u32_from(bytes: &[u8]) -> (r: u32)
    requires
        bytes@.len() == 4,
    ensures
        r == be_value(bytes@),
{
    proof {
        lemma_be_value_4(bytes@);
    }
    (bytes[0] as u32) * 0x100_0000 + (bytes[1] as u32) * 0x1_0000 + (bytes[2] as u32) * 0x100
        + (bytes[3] as u32)
}

/// Reads a 64-bit unsigned integer from eight big-endian bytes.
pub fn be_u64_from(bytes: &[u8]) -> (r: u64)
    requires
        bytes@.len() == 8,
    ensures
        r == be_value(bytes@),
{
    proof {
        lemma_be_value_8(bytes@);
    }
    (bytes[0] as u64) * 0x100_0000_0000_0000 + (bytes[1] as u64) * 0x1_0000_0000_0000
        + (bytes[2] as u64) * 0x100_0000_0000 + (bytes[3] as u64) * 0x1_0000_0000 + (bytes[4] as u64)
        * 0x100_0000 + (bytes[5] as u64) * 0x1_0000 + (bytes[6] as u64) * 0x100 + (bytes[7] as u64)
}

/// Appends the four big-endian bytes of `n` to `out`.
pub fn push_be_u32(out: &mut Vec<u8>, n: u32)
    ensures
        final(out)@ == old(out)@ + be_bytes(n as nat, 4),
{
    let b3 = (n % 256) as u8;
    let n1 = n / 256;
    let b2 = (n1 % 256) as u8;
    let n2 = n1 / 256;
    let b1 = (n2 % 256) as u8;
    let n3 = n2 / 256;
    let b0 = (n3 % 256) as u8;
    out.push(b0);
    out.push(b1);
    out.push(b2);
    out.push(b3);
    proof {
        reveal_with_fuel(be_bytes, 5);
        assert(be_bytes(n as nat, 4) =~= seq![b0, b1, b2, b3]);
    }
}

/// Appends the eight big-endian bytes of `n` to `out`.
pub fn push_be_u64(out: &mut Vec<u8>, n: u64)
    ensures
        final(out)@ == old(out)@ + be_bytes(n as nat, 8),
{
    let b7 = (n % 256) as u8;
    let n1 = n / 256;
    let b6 = (n1 % 256) as u8;
    let n2 = n1 / 256;
    let b5 = (n2 % 256) as u8;
    let n3 = n2 / 256;
    let b4 = (n3 % 256) as u8;
    let n4 = n3 / 256;
    let b3 = (n4 % 256) as u8;
    let n5 = n4 / 256;
    let b2 = (n5 % 256) as u8;
    let n6 = n5 / 256;
    let b1 = (n6 % 256) as u8;
    let n7 = n6 / 256;
    let b0 = (n7 % 256) as u8;
    out.push(b0);
    out.push(b1);
    out.push(b2);
    out.push(b3);
    out.push(b4);
    out.push(b5);
    out.push(b6);
    out.push(b7);
    proof {
        reveal_with_fuel(be_bytes, 9);
        assert(be_bytes(n as nat, 8) =~= seq![b0, b1, b2, b3, b4, b5, b6, b7]);
    }
}

} // verus!
