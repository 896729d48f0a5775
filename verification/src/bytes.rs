//! Little-endian fields, patches and checksums of byte sequences.

use vstd::bytes::*;
use vstd::prelude::*;
use vstd::slice::*;

verus! {

/// `n` zero bytes.
pub open spec fn zeros(n: nat) -> Seq<u8> {
    Seq::new(n, |i: int| 0u8)
}

/// `s` with the bytes from `at` on replaced by `part`.
pub closed spec fn patch(s: Seq<u8>, at: int, part: Seq<u8>) -> Seq<u8> {
    Seq::new(
        s.len(),
        |i: int|
            if at <= i < at + part.len() {
                part[i - at]
            } else {
                s[i]
            },
    )
}

pub open spec fn le16(x: u16) -> Seq<u8> {
    spec_u16_to_le_bytes(x)
}

pub open spec fn le32(x: u32) -> Seq<u8> {
    spec_u32_to_le_bytes(x)
}

pub open spec fn le64(x: u64) -> Seq<u8> {
    spec_u64_to_le_bytes(x)
}

/// The little-endian 16-bit field of `s` at `at`.
pub closed spec fn at16(s: Seq<u8>, at: int) -> u16 {
    spec_u16_from_le_bytes(s.subrange(at, at + 2))
}

/// The little-endian 32-bit field of `s` at `at`.
pub closed spec fn at32(s: Seq<u8>, at: int) -> u32 {
    spec_u32_from_le_bytes(s.subrange(at, at + 4))
}

/// The little-endian 64-bit field of `s` at `at`.
pub closed spec fn at64(s: Seq<u8>, at: int) -> u64 {
    spec_u64_from_le_bytes(s.subrange(at, at + 8))
}

/// Every byte of `s` from `from` up to `to` is zero.
pub open spec fn zero_run(s: Seq<u8>, from: int, to: int) -> bool {
    forall|i: int| from <= i < to ==> #[trigger] s[i] == 0
}

pub broadcast proof fn lemma_patch_len(s: Seq<u8>, at: int, part: Seq<u8>)
    ensures
        (#[trigger] patch(s, at, part)).len() == s.len(),
{
}

pub broadcast proof fn lemma_patch_index(s: Seq<u8>, at: int, part: Seq<u8>, i: int)
    requires
        0 <= i < s.len(),
    ensures
        (#[trigger] patch(s, at, part)[i]) == if at <= i < at + part.len() {
            part[i - at]
        } else {
            s[i]
        },
{
}

pub broadcast proof fn lemma_patch_within(s: Seq<u8>, at: int, part: Seq<u8>, from: int, to: int)
    requires
        0 <= at,
        from == at,
        to == at + part.len(),
        to <= s.len(),
    ensures
        (#[trigger] patch(s, at, part).subrange(from, to)) == part,
{
    assert(patch(s, at, part).subrange(from, to) =~= part);
}

pub broadcast proof fn lemma_patch_beside(s: Seq<u8>, at: int, part: Seq<u8>, from: int, to: int)
    requires
        0 <= from <= to <= s.len(),
        to <= at || at + part.len() <= from,
    ensures
        (#[trigger] patch(s, at, part).subrange(from, to)) == s.subrange(from, to),
{
    assert(patch(s, at, part).subrange(from, to) =~= s.subrange(from, to));
}

pub broadcast proof fn lemma_le_len16(x: u16)
    ensures
        (#[trigger] le16(x)).len() == 2,
{
    lemma_auto_spec_u16_to_from_le_bytes();
}

pub broadcast proof fn lemma_le_len32(x: u32)
    ensures
        (#[trigger] le32(x)).len() == 4,
{
    lemma_auto_spec_u32_to_from_le_bytes();
}

pub broadcast proof fn lemma_le_len64(x: u64)
    ensures
        (#[trigger] le64(x)).len() == 8,
{
    lemma_auto_spec_u64_to_from_le_bytes();
}

pub broadcast proof fn lemma_at16_patch(s: Seq<u8>, at: int, part: Seq<u8>, from: int)
    requires
        0 <= from,
        from + 2 <= s.len(),
        from + 2 <= at || at + part.len() <= from,
    ensures
        (#[trigger] at16(patch(s, at, part), from)) == at16(s, from),
{
    broadcast use lemma_patch_beside;

}

pub broadcast proof fn lemma_at32_patch(s: Seq<u8>, at: int, part: Seq<u8>, from: int)
    requires
        0 <= from,
        from + 4 <= s.len(),
        from + 4 <= at || at + part.len() <= from,
    ensures
        (#[trigger] at32(patch(s, at, part), from)) == at32(s, from),
{
    broadcast use lemma_patch_beside;

}

pub broadcast proof fn lemma_at64_patch(s: Seq<u8>, at: int, part: Seq<u8>, from: int)
    requires
        0 <= from,
        from + 8 <= s.len(),
        from + 8 <= at || at + part.len() <= from,
    ensures
        (#[trigger] at64(patch(s, at, part), from)) == at64(s, from),
{
    broadcast use lemma_patch_beside;

}

pub broadcast proof fn lemma_at16_put(s: Seq<u8>, at: int, x: u16)
    requires
        0 <= at,
        at + 2 <= s.len(),
    ensures
        (#[trigger] at16(patch(s, at, le16(x)), at)) == x,
{
    broadcast use lemma_patch_within;

    lemma_auto_spec_u16_to_from_le_bytes();
    lemma_patch_within(s, at, le16(x), at, at + 2);
}

pub broadcast proof fn lemma_at32_put(s: Seq<u8>, at: int, x: u32)
    requires
        0 <= at,
        at + 4 <= s.len(),
    ensures
        (#[trigger] at32(patch(s, at, le32(x)), at)) == x,
{
    lemma_auto_spec_u32_to_from_le_bytes();
    lemma_patch_within(s, at, le32(x), at, at + 4);
}

pub broadcast proof fn lemma_at64_put(s: Seq<u8>, at: int, x: u64)
    requires
        0 <= at,
        at + 8 <= s.len(),
    ensures
        (#[trigger] at64(patch(s, at, le64(x)), at)) == x,
{
    lemma_auto_spec_u64_to_from_le_bytes();
    lemma_patch_within(s, at, le64(x), at, at + 8);
}

pub broadcast group group_bytes {
    lemma_patch_len,
    lemma_patch_index,
    lemma_patch_within,
    lemma_patch_beside,
    lemma_le_len16,
    lemma_le_len32,
    lemma_le_len64,
    lemma_at16_patch,
    lemma_at32_patch,
    lemma_at64_patch,
    lemma_at16_put,
    lemma_at32_put,
    lemma_at64_put,
}

/// A field of a longer sequence is the field of any window that holds it.
pub proof fn lemma_fields_of_window(s: Seq<u8>, from: int, to: int, at: int)
    requires
        0 <= from <= to <= s.len(),
        0 <= at,
    ensures
        from + at + 2 <= to ==> at16(s.subrange(from, to), at) == at16(s, from + at),
        from + at + 4 <= to ==> at32(s.subrange(from, to), at) == at32(s, from + at),
        from + at + 8 <= to ==> at64(s.subrange(from, to), at) == at64(s, from + at),
{
    let w = s.subrange(from, to);
    if from + at + 2 <= to {
        assert(w.subrange(at, at + 2) =~= s.subrange(from + at, from + at + 2));
    }
    if from + at + 4 <= to {
        assert(w.subrange(at, at + 4) =~= s.subrange(from + at, from + at + 4));
    }
    if from + at + 8 <= to {
        assert(w.subrange(at, at + 8) =~= s.subrange(from + at, from + at + 8));
    }
}

/// The bytes of a field are those of the number that it holds.
pub proof fn lemma_field_bytes(s: Seq<u8>, at: int)
    requires
        0 <= at,
    ensures
        at + 2 <= s.len() ==> le16(at16(s, at)) == s.subrange(at, at + 2),
        at + 4 <= s.len() ==> le32(at32(s, at)) == s.subrange(at, at + 4),
        at + 8 <= s.len() ==> le64(at64(s, at)) == s.subrange(at, at + 8),
{
    lemma_auto_spec_u16_to_from_le_bytes();
    lemma_auto_spec_u32_to_from_le_bytes();
    lemma_auto_spec_u64_to_from_le_bytes();
}

/// Reads the 16-bit field at `at`.
pub fn read_u16(bytes: &[u8], at: usize) -> (x: u16)
    requires
        at + 2 <= bytes@.len(),
    ensures
        x == at16(bytes@, at as int),
{
    assert(bytes.len() == bytes@.len());
    u16_from_le_bytes(slice_subrange(bytes, at, at + 2))
}

/// Reads the 32-bit field at `at`.
pub fn read_u32(bytes: &[u8], at: usize) -> (x: u32)
    requires
        at + 4 <= bytes@.len(),
    ensures
        x == at32(bytes@, at as int),
{
    assert(bytes.len() == bytes@.len());
    u32_from_le_bytes(slice_subrange(bytes, at, at + 4))
}

/// Reads the 64-bit field at `at`.
pub fn read_u64(bytes: &[u8], at: usize) -> (x: u64)
    requires
        at + 8 <= bytes@.len(),
    ensures
        x == at64(bytes@, at as int),
{
    assert(bytes.len() == bytes@.len());
    u64_from_le_bytes(slice_subrange(bytes, at, at + 8))
}

/// Copies `part` into `bytes` from `at` on.
pub fn put(bytes: &mut Vec<u8>, at: usize, part: &[u8])
    requires
        at + part@.len() <= old(bytes)@.len(),
    ensures
        final(bytes)@ == patch(old(bytes)@, at as int, part@),
{
    let ghost before = bytes@;
    let mut i: usize = 0;
    while i < part.len()
        invariant
            at + part@.len() <= before.len(),
            i <= part@.len(),
            bytes@.len() == before.len(),
            forall|k: int|
                0 <= k < before.len() ==> #[trigger] bytes@[k] == if at <= k < at + i {
                    part@[k - at]
                } else {
                    before[k]
                },
        decreases part@.len() - i,
    {
        assert(bytes.len() == bytes@.len());
        bytes[at + i] = part[i];
        i += 1;
    }
    assert(bytes@ =~= patch(before, at as int, part@));
}

/// Writes the 16-bit field at `at`.
pub fn put_u16(bytes: &mut Vec<u8>, at: usize, x: u16)
    requires
        at + 2 <= old(bytes)@.len(),
    ensures
        final(bytes)@ == patch(old(bytes)@, at as int, le16(x)),
{
    let part = u16_to_le_bytes(x);
    put(bytes, at, part.as_slice());
}

/// Writes the 32-bit field at `at`.
pub fn put_u32(bytes: &mut Vec<u8>, at: usize, x: u32)
    requires
        at + 4 <= old(bytes)@.len(),
    ensures
        final(bytes)@ == patch(old(bytes)@, at as int, le32(x)),
{
    let part = u32_to_le_bytes(x);
    put(bytes, at, part.as_slice());
}

/// Writes the 64-bit field at `at`.
pub fn put_u64(bytes: &mut Vec<u8>, at: usize, x: u64)
    requires
        at + 8 <= old(bytes)@.len(),
    ensures
        final(bytes)@ == patch(old(bytes)@, at as int, le64(x)),
{
    let part = u64_to_le_bytes(x);
    put(bytes, at, part.as_slice());
}

/// A vector of `n` zero bytes.
pub fn zero_vec(n: usize) -> (v: Vec<u8>)
    ensures
        v@ == zeros(n as nat),
{
    let v: Vec<u8> = vec![0u8; n];
    assert(v@ =~= zeros(n as nat));
    v
}

/// Whether every byte from `from` up to `to` is zero.
pub fn is_zero_run(bytes: &[u8], from: usize, to: usize) -> (b: bool)
    requires
        from <= to <= bytes@.len(),
    ensures
        b == zero_run(bytes@, from as int, to as int),
{
    let mut i: usize = from;
    while i < to
        invariant
            from <= i <= to <= bytes@.len(),
            zero_run(bytes@, from as int, i as int),
        decreases to - i,
    {
        if bytes[i] != 0 {
            return false;
        }
        i += 1;
    }
    true
}

/// Whether the bytes from `at` on are those of `part`.
pub fn holds_at(bytes: &[u8], at: usize, part: &[u8]) -> (b: bool)
    requires
        at + part@.len() <= bytes@.len(),
    ensures
        b == (bytes@.subrange(at as int, at + part@.len()) == part@),
{
    let ghost window = bytes@.subrange(at as int, at + part@.len());
    let mut i: usize = 0;
    while i < part.len()
        invariant
            at + part@.len() <= bytes@.len(),
            i <= part@.len(),
            window == bytes@.subrange(at as int, at + part@.len()),
            forall|k: int| 0 <= k < i ==> #[trigger] window[k] == part@[k],
        decreases part@.len() - i,
    {
        assert(bytes.len() == bytes@.len());
        if bytes[at + i] != part[i] {
            assert(window[i as int] != part@[i as int]);
            return false;
        }
        assert(window[i as int] == part@[i as int]);
        i += 1;
    }
    assert(window =~= part@);
    true
}

/// Whether two byte slices hold the same bytes.
pub fn same_bytes(a: &[u8], b: &[u8]) -> (r: bool)
    ensures
        r == (a@ == b@),
{
    if a.len() != b.len() {
        return false;
    }
    assert(a@.subrange(0, a@.len() as int) =~= a@);
    holds_at(a, 0, b)
}

/// One step of the reflected CRC-32 register.
pub open spec fn crc_bit(c: u32) -> u32 {
    if c & 1 == 1 {
        (c >> 1) ^ 0xEDB8_8320
    } else {
        c >> 1
    }
}

/// The CRC-32 register after one more byte.
pub open spec fn crc_byte(c: u32, byte: u8) -> u32 {
    crc_bit(crc_bit(crc_bit(crc_bit(crc_bit(crc_bit(crc_bit(crc_bit(c ^ (byte as u32)))))))))
}

/// The CRC-32 register after the bytes of `s`.
pub open spec fn crc_register(s: Seq<u8>) -> u32
    decreases s.len(),
{
    if s.len() == 0 {
        0xFFFF_FFFF
    } else {
        crc_byte(crc_register(s.drop_last()), s.last())
    }
}

/// The IEEE CRC-32 of `s`.
pub open spec fn crc32_of(s: Seq<u8>) -> u32 {
    !crc_register(s)
}

fn crc_step(c: u32) -> (r: u32)
    ensures
        r == crc_bit(c),
{
    if c & 1 == 1 {
        (c >> 1) ^ 0xEDB8_8320
    } else {
        c >> 1
    }
}

/// Computes the IEEE CRC-32 of `bytes`.
pub fn crc32(bytes: &[u8]) -> (r: u32)
    ensures
        r == crc32_of(bytes@),
{
    let mut c: u32 = 0xFFFF_FFFF;
    let mut i: usize = 0;
    while i < bytes.len()
        invariant
            i <= bytes@.len(),
            c == crc_register(bytes@.subrange(0, i as int)),
        decreases bytes@.len() - i,
    {
        proof {
            let next = bytes@.subrange(0, i + 1);
            assert(next.drop_last() =~= bytes@.subrange(0, i as int));
            assert(next.last() == bytes@[i as int]);
        }
        let x: u32 = c ^ (bytes[i] as u32);
        c = crc_step(crc_step(crc_step(crc_step(crc_step(crc_step(crc_step(crc_step(x))))))));
        i += 1;
    }
    assert(bytes@.subrange(0, bytes@.len() as int) =~= bytes@);
    !c
}

} // verus!
