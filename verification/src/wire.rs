//! Big-endian integers as they appear on the wire.

use vstd::prelude::*;

verus! {

/// 256 to the power `n`.
pub open spec fn pow256(n: nat) -> nat
    decreases n,
{
    if n == 0 {
        1
    } else {
        256 * pow256((n - 1) as nat)
    }
}

/// The number that the bytes `s` spell, most significant byte first.
pub open spec fn be_value(s: Seq<u8>) -> nat
    decreases s.len(),
{
    if s.len() == 0 {
        0
    } else {
        be_value(s.drop_last()) * 256 + s.last() as nat
    }
}

/// The `width` low-order bytes of `v`, most significant byte first.
pub open spec fn be_bytes(v: nat, width: nat) -> Seq<u8>
    decreases width,
{
    if width == 0 {
        Seq::empty()
    } else {
        be_bytes(v / 256, (width - 1) as nat).push((v % 256) as u8)
    }
}

/// The powers of 256 for the widths in use.
pub proof fn lemma_pow256_values()
    ensures
        pow256(0) == 1,
        pow256(1) == 0x100,
        pow256(2) == 0x1_0000,
        pow256(4) == 0x1_0000_0000,
        pow256(8) == 0x1_0000_0000_0000_0000,
        pow256(16) == 0x1_0000_0000_0000_0000_0000_0000_0000_0000,
{
    reveal_with_fuel(pow256, 17);
}

/// A number written in `width` bytes takes `width` bytes.
pub proof fn lemma_be_bytes_len(v: nat, width: nat)
    ensures
        be_bytes(v, width).len() == width,
    decreases width,
{
    if width > 0 {
        lemma_be_bytes_len(v / 256, (width - 1) as nat);
    }
}

/// A number spelled by `s.len()` bytes is below 256 to that power.
pub proof fn lemma_be_value_bound(s: Seq<u8>)
    ensures
        be_value(s) < pow256(s.len()),
    decreases s.len(),
{
    if s.len() > 0 {
        lemma_be_value_bound(s.drop_last());
        let hi = be_value(s.drop_last());
        let p = pow256((s.len() - 1) as nat);
        assert(hi * 256 + 255 < 256 * p) by (nonlinear_arith)
            requires
                hi < p,
        ;
    }
}

/// Reading back what was written gives the number, if it fits the width.
pub proof fn lemma_be_value_of_bytes(v: nat, width: nat)
    requires
        v < pow256(width),
    ensures
        be_value(be_bytes(v, width)) == v,
    decreases width,
{
    if width > 0 {
        let rest = be_bytes(v / 256, (width - 1) as nat);
        let p = pow256((width - 1) as nat);
        assert(v / 256 < p) by (nonlinear_arith)
            requires
                v < 256 * p,
        ;
        lemma_be_value_of_bytes(v / 256, (width - 1) as nat);
        assert(be_bytes(v, width).drop_last() =~= rest);
        assert(be_bytes(v, width).last() == (v % 256) as u8);
    }
}

/// Reads `width` bytes at `pos` as one number, most significant byte first.
pub fn read_be(bytes: &[u8], pos: usize, width: usize) -> (value: u128)
    requires
        width <= 16,
        pos + width <= bytes@.len(),
    ensures
        value == be_value(bytes@.subrange(pos as int, pos + width)),
{
    let total = bytes.len();
    let mut value: u128 = 0;
    let mut i: usize = 0;
    while i < width
        invariant
            i <= width <= 16,
            pos + width <= total == bytes@.len(),
            value == be_value(bytes@.subrange(pos as int, pos + i)),
        decreases width - i,
    {
        let ghost before = bytes@.subrange(pos as int, pos + i);
        let ghost after = bytes@.subrange(pos as int, pos + i + 1);
        proof {
            lemma_be_value_bound(before);
            lemma_pow256_values();
            lemma_pow256_monotonic(i as nat, 15);
            reveal_with_fuel(pow256, 16);
            assert(after.drop_last() =~= before);
            assert(after.last() == bytes@[pos + i]);
        }
        value = value * 256 + bytes[pos + i] as u128;
        i = i + 1;
    }
    value
}

/// The powers of 256 grow with the exponent, from 1 on.
pub proof fn lemma_pow256_monotonic(a: nat, b: nat)
    requires
        a <= b,
    ensures
        pow256(a) <= pow256(b),
        pow256(a) >= 1,
    decreases b,
{
    if a < b {
        lemma_pow256_monotonic(a, (b - 1) as nat);
    } else if a > 0 {
        lemma_pow256_monotonic((a - 1) as nat, (a - 1) as nat);
    }
}

/// Appends the `width` low-order bytes of `value` to `out`, most significant
/// byte first.
pub fn write_be(out: &mut Vec<u8>, value: u128, width: usize)
    requires
        width <= 16,
    ensures
        final(out)@ == old(out)@ + be_bytes(value as nat, width as nat),
{
    let mut i: usize = 0;
    let ghost start = out@;
    while i < width
        invariant
            i <= width <= 16,
            out@ == start + be_bytes_high(value as nat, width as nat, i as nat),
        decreases width - i,
    {
        let byte = shifted_byte(value, width - 1 - i);
        proof {
            lemma_be_bytes_high_step(value as nat, width as nat, i as nat);
        }
        out.push(byte);
        i = i + 1;
        assert(out@ =~= start + be_bytes_high(value as nat, width as nat, i as nat));
    }
    proof {
        lemma_be_bytes_high_all(value as nat, width as nat);
    }
}

/// The first `count` of the bytes `be_bytes(v, width)`.
pub open spec fn be_bytes_high(v: nat, width: nat, count: nat) -> Seq<u8> {
    be_bytes(v, width).take(count as int)
}

/// The byte of `v` that stands `index` bytes above the lowest.
pub open spec fn byte_at(v: nat, index: nat) -> u8 {
    ((v / pow256(index)) % 256) as u8
}

/// The byte at place `k` of a number written in `width` bytes is the byte
/// of the number that stands `width - 1 - k` bytes above the lowest.
pub proof fn lemma_be_bytes_index(v: nat, width: nat, k: int)
    requires
        0 <= k < width,
    ensures
        be_bytes(v, width).len() == width,
        be_bytes(v, width)[k] == byte_at(v, (width - 1 - k) as nat),
    decreases width,
{
    lemma_be_bytes_len(v, width);
    lemma_be_bytes_len(v / 256, (width - 1) as nat);
    if k == width - 1 {
        assert(pow256(0) == 1);
        assert(v / 1 == v);
    } else {
        lemma_be_bytes_index(v / 256, (width - 1) as nat, k);
        let e = (width - 2 - k) as nat;
        let p = pow256(e);
        lemma_pow256_monotonic(e, e);
        assert(pow256(e + 1) == 256 * p);
        assert((v / 256) / p == v / (256 * p)) by (nonlinear_arith)
            requires
                p >= 1,
        ;
    }
}

proof fn lemma_be_bytes_high_step(v: nat, width: nat, i: nat)
    requires
        i < width,
    ensures
        be_bytes_high(v, width, i + 1) == be_bytes_high(v, width, i).push(
            byte_at(v, (width - 1 - i) as nat),
        ),
{
    lemma_be_bytes_index(v, width, i as int);
    assert(be_bytes_high(v, width, i + 1) =~= be_bytes_high(v, width, i).push(
        byte_at(v, (width - 1 - i) as nat),
    ));
}

proof fn lemma_be_bytes_high_all(v: nat, width: nat)
    ensures
        be_bytes_high(v, width, 0) == Seq::<u8>::empty(),
        be_bytes_high(v, width, width) == be_bytes(v, width),
{
    lemma_be_bytes_len(v, width);
    assert(be_bytes_high(v, width, 0) =~= Seq::<u8>::empty());
    assert(be_bytes_high(v, width, width) =~= be_bytes(v, width));
}

/// The byte of `value` that stands `index` bytes above the lowest.
fn shifted_byte(value: u128, index: usize) -> (byte: u8)
    requires
        index < 16,
    ensures
        byte == byte_at(value as nat, index as nat),
{
    let mut rest: u128 = value;
    let mut i: usize = 0;
    assert(pow256(0) == 1);
    while i < index
        invariant
            i <= index < 16,
            rest == (value as nat) / pow256(i as nat),
        decreases index - i,
    {
        proof {
            let p = pow256(i as nat);
            lemma_pow256_monotonic(i as nat, i as nat);
            assert(pow256((i + 1) as nat) == 256 * p);
            assert(((value as nat) / p) / 256 == (value as nat) / (256 * p)) by (nonlinear_arith)
                requires
                    p >= 1,
            ;
        }
        rest = rest / 256;
        i = i + 1;
    }
    (rest % 256) as u8
}

/// The 16-bit number at `pos`.
pub open spec fn u16_at(bytes: Seq<u8>, pos: int) -> u16 {
    be_value(bytes.subrange(pos, pos + 2)) as u16
}

/// The 32-bit number at `pos`.
pub open spec fn u32_at(bytes: Seq<u8>, pos: int) -> u32 {
    be_value(bytes.subrange(pos, pos + 4)) as u32
}

/// The 128-bit number at `pos`.
pub open spec fn u128_at(bytes: Seq<u8>, pos: int) -> u128 {
    be_value(bytes.subrange(pos, pos + 16)) as u128
}

/// The two bytes of a 16-bit number.
pub open spec fn u16_bytes(value: u16) -> Seq<u8> {
    be_bytes(value as nat, 2)
}

/// The four bytes of a 32-bit number.
pub open spec fn u32_bytes(value: u32) -> Seq<u8> {
    be_bytes(value as nat, 4)
}

/// The sixteen bytes of a 128-bit number.
pub open spec fn u128_bytes(value: u128) -> Seq<u8> {
    be_bytes(value as nat, 16)
}

/// Where a message holds `left + right` at `pos`, it holds `left` at `pos`
/// and `right` behind it.
pub proof fn lemma_split_at(bytes: Seq<u8>, pos: int, left: Seq<u8>, right: Seq<u8>)
    requires
        0 <= pos,
        pos + left.len() + right.len() <= bytes.len(),
        bytes.subrange(pos, pos + left.len() + right.len()) == left + right,
    ensures
        bytes.subrange(pos, pos + left.len()) == left,
        bytes.subrange(pos + left.len(), pos + left.len() + right.len()) == right,
{
    let whole = bytes.subrange(pos, pos + left.len() + right.len());
    assert(bytes.subrange(pos, pos + left.len()) =~= left) by {
        assert forall|i: int| 0 <= i < left.len() implies bytes[pos + i] == left[i] by {
            assert(whole[i] == bytes[pos + i]);
            assert((left + right)[i] == left[i]);
        }
    }
    assert(bytes.subrange(pos + left.len(), pos + left.len() + right.len()) =~= right) by {
        assert forall|i: int| 0 <= i < right.len() implies bytes[pos + left.len() + i]
            == right[i] by {
            assert(whole[left.len() + i] == bytes[pos + left.len() + i]);
            assert((left + right)[left.len() + i] == right[i]);
        }
    }
}

/// The 16-bit number read where its bytes stand is the number written.
pub proof fn lemma_u16_at(bytes: Seq<u8>, pos: int, value: u16)
    requires
        0 <= pos,
        pos + 2 <= bytes.len(),
        bytes.subrange(pos, pos + 2) == u16_bytes(value),
    ensures
        u16_at(bytes, pos) == value,
        u16_bytes(value).len() == 2,
{
    lemma_pow256_values();
    lemma_be_value_of_bytes(value as nat, 2);
    lemma_be_bytes_len(value as nat, 2);
}

/// The 32-bit number read where its bytes stand is the number written.
pub proof fn lemma_u32_at(bytes: Seq<u8>, pos: int, value: u32)
    requires
        0 <= pos,
        pos + 4 <= bytes.len(),
        bytes.subrange(pos, pos + 4) == u32_bytes(value),
    ensures
        u32_at(bytes, pos) == value,
        u32_bytes(value).len() == 4,
{
    lemma_pow256_values();
    lemma_be_value_of_bytes(value as nat, 4);
    lemma_be_bytes_len(value as nat, 4);
}

/// The 128-bit number read where its bytes stand is the number written.
pub proof fn lemma_u128_at(bytes: Seq<u8>, pos: int, value: u128)
    requires
        0 <= pos,
        pos + 16 <= bytes.len(),
        bytes.subrange(pos, pos + 16) == u128_bytes(value),
    ensures
        u128_at(bytes, pos) == value,
        u128_bytes(value).len() == 16,
{
    lemma_pow256_values();
    lemma_be_value_of_bytes(value as nat, 16);
    lemma_be_bytes_len(value as nat, 16);
}

/// Reads the 16-bit number at `pos`.
pub fn read_u16(bytes: &[u8], pos: usize) -> (value: u16)
    requires
        pos + 2 <= bytes@.len(),
    ensures
        value == u16_at(bytes@, pos as int),
{
    proof {
        lemma_be_value_bound(bytes@.subrange(pos as int, pos + 2));
        lemma_pow256_values();
    }
    read_be(bytes, pos, 2) as u16
}

/// Reads the 32-bit number at `pos`.
pub fn read_u32(bytes: &[u8], pos: usize) -> (value: u32)
    requires
        pos + 4 <= bytes@.len(),
    ensures
        value == u32_at(bytes@, pos as int),
{
    proof {
        lemma_be_value_bound(bytes@.subrange(pos as int, pos + 4));
        lemma_pow256_values();
    }
    read_be(bytes, pos, 4) as u32
}

/// Reads the 128-bit number at `pos`.
pub fn read_u128(bytes: &[u8], pos: usize) -> (value: u128)
    requires
        pos + 16 <= bytes@.len(),
    ensures
        value == u128_at(bytes@, pos as int),
{
    proof {
        lemma_be_value_bound(bytes@.subrange(pos as int, pos + 16));
        lemma_pow256_values();
    }
    read_be(bytes, pos, 16)
}

/// Appends the two bytes of `value`.
pub fn write_u16(out: &mut Vec<u8>, value: u16)
    ensures
        final(out)@ == old(out)@ + u16_bytes(value),
{
    write_be(out, value as u128, 2);
}

/// Appends the four bytes of `value`.
pub fn write_u32(out: &mut Vec<u8>, value: u32)
    ensures
        final(out)@ == old(out)@ + u32_bytes(value),
{
    write_be(out, value as u128, 4);
}

/// Appends the sixteen bytes of `value`.
pub fn write_u128(out: &mut Vec<u8>, value: u128)
    ensures
        final(out)@ == old(out)@ + u128_bytes(value),
{
    write_be(out, value, 16);
}

} // verus!
