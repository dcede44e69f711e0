//! CRC32C (Castagnoli): the checksum of every durable record and file.
//!
//! The checksum is defined bit by bit over the reflected polynomial; the
//! executable form takes a byte at a time through a 256-entry table.
use vstd::prelude::*;

verus! {

/// The reflected CRC32C (Castagnoli) polynomial.
pub const POLY: u32 = 0x82F6_3B78;

/// One step of the reflected shift register.
pub open spec fn crc_bit(crc: u32) -> u32 {
    if crc & 1 == 1 {
        (crc >> 1) ^ 0x82F6_3B78u32
    } else {
        crc >> 1
    }
}

/// Eight steps of the reflected shift register.
pub open spec fn crc_bits8(crc: u32) -> u32 {
    crc_bit(crc_bit(crc_bit(crc_bit(crc_bit(crc_bit(crc_bit(crc_bit(crc))))))))
}

/// `n` steps of the reflected shift register.
spec fn crc_bits(crc: u32, n: nat) -> u32
    decreases n,
{
    if n == 0 {
        crc
    } else {
        crc_bit(crc_bits(crc, (n - 1) as nat))
    }
}

/// The register after it has taken in all of `s`, starting from `crc`.
pub open spec fn crc_fold(crc: u32, s: Seq<u8>) -> u32
    decreases s.len(),
{
    if s.len() == 0 {
        crc
    } else {
        crc_bits8(crc_fold(crc, s.drop_last()) ^ (s.last() as u32))
    }
}

/// The CRC32C of `s`: the register starts at all ones and is inverted at the end.
pub open spec fn crc32c_of(s: Seq<u8>) -> u32 {
    crc_fold(0xFFFF_FFFFu32, s) ^ 0xFFFF_FFFFu32
}

proof fn lemma_table_step(crc: u32, byte: u8)
    ensures
        crc_bits8(crc ^ (byte as u32)) == (crc >> 8) ^ crc_bits8((crc ^ (byte as u32)) & 0xFF),
        (crc ^ (byte as u32)) & 0xFF < 256,
{
    let x: u32 = crc ^ (byte as u32);
    assert(crc_bits8(x) == (x >> 8) ^ crc_bits8(x & 0xFF)) by (bit_vector);
    let b: u32 = byte as u32;
    assert((crc ^ b) >> 8 == crc >> 8) by (bit_vector)
        requires
            b < 256,
    ;
    assert(x & 0xFF < 256) by (bit_vector);
}

/// Taking in two pieces one after the other is taking in their concatenation.
pub proof fn lemma_crc_fold_concat(crc: u32, a: Seq<u8>, b: Seq<u8>)
    ensures
        crc_fold(crc, a + b) == crc_fold(crc_fold(crc, a), b),
    decreases b.len(),
{
    if b.len() == 0 {
        assert(a + b =~= a);
    } else {
        assert((a + b).drop_last() =~= a + b.drop_last());
        assert((a + b).last() == b.last());
        lemma_crc_fold_concat(crc, a, b.drop_last());
    }
}

proof fn lemma_crc_bits8_injective(x: u32, y: u32)
    requires
        x != y,
    ensures
        crc_bits8(x) != crc_bits8(y),
{
    assert(x != y ==> crc_bits8(x) != crc_bits8(y)) by (bit_vector);
}

proof fn lemma_crc_fold_injective(x: u32, y: u32, s: Seq<u8>)
    requires
        x != y,
    ensures
        crc_fold(x, s) != crc_fold(y, s),
    decreases s.len(),
{
    if s.len() > 0 {
        lemma_crc_fold_injective(x, y, s.drop_last());
        let a: u32 = crc_fold(x, s.drop_last());
        let b: u32 = crc_fold(y, s.drop_last());
        let c: u32 = s.last() as u32;
        assert(a != b ==> a ^ c != b ^ c) by (bit_vector);
        lemma_crc_bits8_injective(a ^ c, b ^ c);
    }
}

/// Corruption confined to one byte always changes the checksum.
pub proof fn law_one_byte_corruption_changes_checksum(s: Seq<u8>, i: int, byte: u8)
    requires
        0 <= i < s.len(),
        byte != s[i],
    ensures
        crc32c_of(s.update(i, byte)) != crc32c_of(s),
{
    let head = s.subrange(0, i);
    let tail = s.subrange(i + 1, s.len() as int);
    let t = s.update(i, byte);
    assert(s =~= head.push(s[i]) + tail);
    assert(t =~= head.push(byte) + tail);
    lemma_crc_fold_concat(0xFFFF_FFFF, head.push(s[i]), tail);
    lemma_crc_fold_concat(0xFFFF_FFFF, head.push(byte), tail);
    assert(head.push(s[i]).drop_last() =~= head);
    assert(head.push(byte).drop_last() =~= head);
    let r: u32 = crc_fold(0xFFFF_FFFF, head);
    let a: u32 = s[i] as u32;
    let b: u32 = byte as u32;
    assert(a != b ==> r ^ a != r ^ b) by (bit_vector);
    lemma_crc_bits8_injective(r ^ a, r ^ b);
    lemma_crc_fold_injective(crc_bits8(r ^ a), crc_bits8(r ^ b), tail);
    let x: u32 = crc_fold(0xFFFF_FFFF, s);
    let y: u32 = crc_fold(0xFFFF_FFFF, t);
    assert(x != y ==> x ^ 0xFFFF_FFFFu32 != y ^ 0xFFFF_FFFFu32) by (bit_vector);
}

/// The table: entry `i` is the register after eight steps from `i`.
fn make_table() -> (table: Vec<u32>)
    ensures
        table@.len() == 256,
        forall|i: int| 0 <= i < 256 ==> #[trigger] table@[i] == crc_bits8(i as u32),
{
    let mut table: Vec<u32> = Vec::with_capacity(256);
    let mut i: u32 = 0;
    while i < 256
        invariant
            i <= 256,
            table@.len() == i,
            forall|k: int| 0 <= k < i ==> #[trigger] table@[k] == crc_bits8(k as u32),
        decreases 256 - i,
    {
        let mut crc: u32 = i;
        let mut j: u32 = 0;
        while j < 8
            invariant
                j <= 8,
                crc == crc_bits(i, j as nat),
            decreases 8 - j,
        {
            proof {
                let c: u32 = crc;
                assert((c & 1 != 0) == (c & 1 == 1)) by (bit_vector);
            }
            if crc & 1 != 0 {
                crc = (crc >> 1) ^ POLY;
            } else {
                crc = crc >> 1;
            }
            j = j + 1;
        }
        proof {
            reveal_with_fuel(crc_bits, 9);
        }
        table.push(crc);
        i = i + 1;
    }
    table
}

/// Compute the CRC32C checksum of `data`.
pub fn crc32c(data: &[u8]) -> (sum: u32)
    ensures
        sum == crc32c_of(data@),
{
    let table = make_table();
    let mut crc: u32 = 0xFFFF_FFFF;
    let mut i: usize = 0;
    while i < data.len()
        invariant
            i <= data@.len(),
            table@.len() == 256,
            forall|k: int| 0 <= k < 256 ==> #[trigger] table@[k] == crc_bits8(k as u32),
            crc == crc_fold(0xFFFF_FFFF, data@.subrange(0, i as int)),
        decreases data@.len() - i,
    {
        let byte: u8 = data[i];
        let ghost next = data@.subrange(0, i + 1);
        proof {
            assert(next.drop_last() =~= data@.subrange(0, i as int));
            assert(next.last() == byte);
            lemma_table_step(crc, byte);
        }
        let index: usize = ((crc ^ byte as u32) & 0xFF) as usize;
        crc = (crc >> 8) ^ table[index];
        i = i + 1;
    }
    assert(data@.subrange(0, data@.len() as int) =~= data@);
    crc ^ 0xFFFF_FFFF
}

} // verus!
