//! Little-endian integers inside byte sequences.
//!
//! [`le_bytes`] writes a natural number in base 256, least significant digit
//! first; [`le_value`] reads it back. The fixed-width forms used by the on-disk
//! formats (`u16`, `u32`, `u64`) are instances of the two.
use vstd::prelude::*;

verus! {

/// The number of values that `n` bytes can hold.
pub open spec fn pow256(n: nat) -> nat
    decreases n,
{
    if n == 0 {
        1
    } else {
        256 * pow256((n - 1) as nat)
    }
}

/// The `n` least significant base-256 digits of `x`, lowest first.
pub open spec fn le_bytes(x: nat, n: nat) -> Seq<u8>
    decreases n,
{
    if n == 0 {
        Seq::empty()
    } else {
        seq![(x % 256) as u8] + le_bytes(x / 256, (n - 1) as nat)
    }
}

/// The number whose base-256 digits, lowest first, are `s`.
pub open spec fn le_value(s: Seq<u8>) -> nat
    decreases s.len(),
{
    if s.len() == 0 {
        0
    } else {
        s[0] as nat + 256 * le_value(s.subrange(1, s.len() as int))
    }
}

pub open spec fn u16_bytes(x: u16) -> Seq<u8> {
    le_bytes(x as nat, 2)
}

pub open spec fn u32_bytes(x: u32) -> Seq<u8> {
    le_bytes(x as nat, 4)
}

pub open spec fn u64_bytes(x: u64) -> Seq<u8> {
    le_bytes(x as nat, 8)
}

/// The `u16` stored at `offset`.
pub open spec fn u16_at(s: Seq<u8>, offset: int) -> u16 {
    le_value(s.subrange(offset, offset + 2)) as u16
}

/// The `u32` stored at `offset`.
pub open spec fn u32_at(s: Seq<u8>, offset: int) -> u32 {
    le_value(s.subrange(offset, offset + 4)) as u32
}

/// The `u64` stored at `offset`.
pub open spec fn u64_at(s: Seq<u8>, offset: int) -> u64 {
    le_value(s.subrange(offset, offset + 8)) as u64
}

pub broadcast proof fn lemma_le_bytes_len(x: nat, n: nat)
    ensures
        #[trigger] le_bytes(x, n).len() == n,
    decreases n,
{
    if n > 0 {
        lemma_le_bytes_len(x / 256, (n - 1) as nat);
    }
}

pub proof fn lemma_le_value_bound(s: Seq<u8>)
    ensures
        le_value(s) < pow256(s.len()),
    decreases s.len(),
{
    if s.len() > 0 {
        lemma_le_value_bound(s.subrange(1, s.len() as int));
    }
}

pub proof fn lemma_pow256_widths()
    ensures
        pow256(1) == 0x100,
        pow256(2) == 0x1_0000,
        pow256(4) == 0x1_0000_0000,
        pow256(8) == 0x1_0000_0000_0000_0000,
{
    reveal_with_fuel(pow256, 9);
}

pub proof fn lemma_pow256_monotone(a: nat, b: nat)
    requires
        a <= b,
    ensures
        1 <= pow256(a) <= pow256(b),
    decreases b,
{
    if b > 0 {
        if a == b {
            lemma_pow256_monotone((a - 1) as nat, (b - 1) as nat);
        } else {
            lemma_pow256_monotone(a, (b - 1) as nat);
        }
    }
}

/// Reading back the digits of a number that fits gives the number.
pub proof fn lemma_le_round_trip(x: nat, n: nat)
    requires
        x < pow256(n),
    ensures
        le_value(le_bytes(x, n)) == x,
    decreases n,
{
    if n > 0 {
        let rest = le_bytes(x / 256, (n - 1) as nat);
        lemma_le_round_trip(x / 256, (n - 1) as nat);
        lemma_le_bytes_len(x / 256, (n - 1) as nat);
        let whole = le_bytes(x, n);
        assert(whole.subrange(1, whole.len() as int) =~= rest);
        assert(whole[0] == (x % 256) as u8);
    }
}

/// Writing the value of a digit sequence at its own width gives the sequence.
pub proof fn lemma_le_value_digits(s: Seq<u8>)
    ensures
        le_bytes(le_value(s), s.len()) == s,
    decreases s.len(),
{
    if s.len() > 0 {
        let rest = s.subrange(1, s.len() as int);
        lemma_le_value_digits(rest);
        assert(le_value(s) % 256 == s[0] as nat);
        assert(le_value(s) / 256 == le_value(rest));
        assert(le_bytes(le_value(s), s.len()) =~= seq![s[0]] + rest);
        assert(seq![s[0]] + rest =~= s);
    } else {
        assert(le_bytes(le_value(s), s.len()) =~= s);
    }
}

pub broadcast proof fn lemma_u16_bytes(x: u16)
    ensures
        (#[trigger] u16_bytes(x)).len() == 2,
        le_value(u16_bytes(x)) == x,
{
    lemma_pow256_widths();
    lemma_le_bytes_len(x as nat, 2);
    lemma_le_round_trip(x as nat, 2);
}

pub broadcast proof fn lemma_u32_bytes(x: u32)
    ensures
        (#[trigger] u32_bytes(x)).len() == 4,
        le_value(u32_bytes(x)) == x,
{
    lemma_pow256_widths();
    lemma_le_bytes_len(x as nat, 4);
    lemma_le_round_trip(x as nat, 4);
}

pub broadcast proof fn lemma_u64_bytes(x: u64)
    ensures
        (#[trigger] u64_bytes(x)).len() == 8,
        le_value(u64_bytes(x)) == x,
{
    lemma_pow256_widths();
    lemma_le_bytes_len(x as nat, 8);
    lemma_le_round_trip(x as nat, 8);
}

/// The bytes at `offset` are those of the number read there.
pub proof fn lemma_u32_read(s: Seq<u8>, offset: int)
    requires
        0 <= offset,
        offset + 4 <= s.len(),
    ensures
        u32_bytes(u32_at(s, offset)) == s.subrange(offset, offset + 4),
{
    let part = s.subrange(offset, offset + 4);
    lemma_pow256_widths();
    lemma_le_value_bound(part);
    lemma_le_value_digits(part);
}

/// The bytes at `offset` are those of the number read there.
pub proof fn lemma_u64_read(s: Seq<u8>, offset: int)
    requires
        0 <= offset,
        offset + 8 <= s.len(),
    ensures
        u64_bytes(u64_at(s, offset)) == s.subrange(offset, offset + 8),
{
    let part = s.subrange(offset, offset + 8);
    lemma_pow256_widths();
    lemma_le_value_bound(part);
    lemma_le_value_digits(part);
}

/// Changing one byte of a stored number changes the number.
pub proof fn lemma_u32_changed(s: Seq<u8>, offset: int, i: int, byte: u8)
    requires
        0 <= offset <= i < offset + 4 <= s.len(),
        byte != s[i],
    ensures
        u32_at(s.update(i, byte), offset) != u32_at(s, offset),
{
    let t = s.update(i, byte);
    lemma_u32_read(s, offset);
    lemma_u32_read(t, offset);
    assert(s.subrange(offset, offset + 4)[i - offset] == s[i]);
    assert(t.subrange(offset, offset + 4)[i - offset] == byte);
}

pub broadcast group group_le_widths {
    lemma_u16_bytes,
    lemma_u32_bytes,
    lemma_u64_bytes,
}

fn put_le(buf: &mut Vec<u8>, x: u64, n: usize)
    ensures
        final(buf)@ == old(buf)@ + le_bytes(x as nat, n as nat),
{
    let mut rest: u64 = x;
    let mut i: usize = 0;
    assert(buf@ + le_bytes(x as nat, n as nat) == old(buf)@ + le_bytes(x as nat, n as nat));
    while i < n
        invariant
            i <= n,
            buf@ + le_bytes(rest as nat, (n - i) as nat) == old(buf)@ + le_bytes(
                x as nat,
                n as nat,
            ),
        decreases n - i,
    {
        let ghost before = buf@;
        let ghost tail = le_bytes((rest / 256) as nat, (n - i - 1) as nat);
        buf.push((rest % 256) as u8);
        assert(buf@ + tail =~= before + (seq![(rest % 256) as u8] + tail));
        rest = rest / 256;
        i = i + 1;
    }
    assert(buf@ + le_bytes(rest as nat, 0) =~= buf@);
}

fn get_le(buf: &[u8], offset: usize, n: usize) -> (x: u64)
    requires
        n <= 8,
        offset + n <= buf@.len(),
    ensures
        x == le_value(buf@.subrange(offset as int, offset + n)),
{
    let mut acc: u64 = 0;
    let mut i: usize = 0;
    let ghost end: int = offset + n;
    while i < n
        invariant
            i <= n <= 8,
            end == offset + n,
            end <= buf@.len(),
            acc == le_value(buf@.subrange(end - i, end)),
        decreases n - i,
    {
        assert(end <= buf.len());
        let at: usize = offset + (n - i - 1);
        let ghost cur = buf@.subrange(end - i, end);
        let ghost next = buf@.subrange(end - i - 1, end);
        proof {
            assert(next.subrange(1, next.len() as int) =~= cur);
            assert(next[0] == buf@[at as int]);
            lemma_le_value_bound(next);
            lemma_pow256_widths();
            lemma_pow256_monotone(next.len(), 8);
            assert(le_value(next) == buf@[at as int] as nat + 256 * le_value(cur));
        }
        acc = acc * 256 + buf[at] as u64;
        i = i + 1;
    }
    acc
}

/// Append `x` in two bytes.
pub fn put_u16(buf: &mut Vec<u8>, x: u16)
    ensures
        final(buf)@ == old(buf)@ + u16_bytes(x),
{
    put_le(buf, x as u64, 2);
}

/// Append `x` in four bytes.
pub fn put_u32(buf: &mut Vec<u8>, x: u32)
    ensures
        final(buf)@ == old(buf)@ + u32_bytes(x),
{
    put_le(buf, x as u64, 4);
}

/// Append `x` in eight bytes.
pub fn put_u64(buf: &mut Vec<u8>, x: u64)
    ensures
        final(buf)@ == old(buf)@ + u64_bytes(x),
{
    put_le(buf, x, 8);
}

/// Append all of `data`.
pub fn put_slice(buf: &mut Vec<u8>, data: &[u8])
    ensures
        final(buf)@ == old(buf)@ + data@,
{
    buf.extend_from_slice(data);
    assert(buf@ =~= old(buf)@ + data@);
}

/// Read the `u16` at `offset`.
pub fn get_u16(buf: &[u8], offset: usize) -> (x: u16)
    requires
        offset + 2 <= buf@.len(),
    ensures
        x == u16_at(buf@, offset as int),
{
    proof {
        lemma_pow256_widths();
        lemma_le_value_bound(buf@.subrange(offset as int, offset + 2));
    }
    get_le(buf, offset, 2) as u16
}

/// Read the `u32` at `offset`.
pub fn get_u32(buf: &[u8], offset: usize) -> (x: u32)
    requires
        offset + 4 <= buf@.len(),
    ensures
        x == u32_at(buf@, offset as int),
{
    proof {
        lemma_pow256_widths();
        lemma_le_value_bound(buf@.subrange(offset as int, offset + 4));
    }
    get_le(buf, offset, 4) as u32
}

/// Read the `u64` at `offset`.
pub fn get_u64(buf: &[u8], offset: usize) -> (x: u64)
    requires
        offset + 8 <= buf@.len(),
    ensures
        x == u64_at(buf@, offset as int),
{
    get_le(buf, offset, 8)
}

/// Copy the bytes of `data` from `from` up to (not including) `to`.
pub fn copy_range(data: &[u8], from: usize, to: usize) -> (out: Vec<u8>)
    requires
        from <= to <= data@.len(),
    ensures
        out@ == data@.subrange(from as int, to as int),
{
    vstd::slice::slice_to_vec(vstd::slice::slice_subrange(data, from, to))
}

} // verus!
