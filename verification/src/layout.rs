//! Little-endian fields at fixed offsets inside a byte buffer.
//!
//! Positions are mathematical integers in specifications and `u64` in
//! executable code, so that sums of 32-bit offsets never wrap. Every accessor
//! checks the buffer's length before it touches a byte.

use byteorder::{ByteOrder, LittleEndian};
use vstd::prelude::*;
use vstd::slice::slice_subrange;

verus! {

/// The number that the first four bytes of `b` spell in little-endian order.
pub open spec fn le_u32(b: Seq<u8>) -> int
    recommends
        b.len() >= 4,
{
    b[0] as int + 0x100 * (b[1] as int) + 0x1_0000 * (b[2] as int) + 0x100_0000 * (b[3] as int)
}

/// The four bytes that spell `n` in little-endian order.
pub open spec fn le_bytes(n: u32) -> Seq<u8> {
    seq![
        (n as int % 0x100) as u8,
        (n as int / 0x100 % 0x100) as u8,
        (n as int / 0x1_0000 % 0x100) as u8,
        (n as int / 0x100_0000 % 0x100) as u8,
    ]
}

/// A four-byte field fits into `data` at position `at`.
pub open spec fn has_field(data: Seq<u8>, at: int) -> bool {
    0 <= at && at + 4 <= data.len()
}

/// The value of the four-byte field of `data` at position `at`.
pub open spec fn field(data: Seq<u8>, at: int) -> int
    recommends
        has_field(data, at),
{
    le_u32(data.subrange(at, at + 4))
}

/// `data` with the four-byte field at position `at` set to `n`.
pub open spec fn with_field(data: Seq<u8>, at: int, n: u32) -> Seq<u8>
    recommends
        has_field(data, at),
{
    data.subrange(0, at) + le_bytes(n) + data.subrange(at + 4, data.len() as int)
}

/// Bit 0 of the byte of `data` at position `at` is set.
pub open spec fn flag_set(data: Seq<u8>, at: int) -> bool
    recommends
        0 <= at < data.len(),
{
    data[at] as int % 2 == 1
}

/// The byte `b` with bit 0 cleared and every other bit as it was.
pub open spec fn without_flag(b: u8) -> u8 {
    if b as int % 2 == 1 {
        (b - 1) as u8
    } else {
        b
    }
}

/// The `len` bytes of `pool` from position `at` on, where they exist.
pub open spec fn window(pool: Seq<u8>, at: int, len: int) -> Option<Seq<u8>> {
    if 0 <= at && 0 <= len && at + len <= pool.len() {
        Some(pool.subrange(at, at + len))
    } else {
        None
    }
}

/// Decoding the encoding of `n` gives `n` back.
pub proof fn lemma_le_round_trip(n: u32)
    ensures
        le_bytes(n).len() == 4,
        le_u32(le_bytes(n)) == n,
{
}

/// A field that was just written reads back as the value written, the
/// buffer keeps its length, and every byte outside the field is untouched.
pub proof fn lemma_with_field(data: Seq<u8>, at: int, n: u32)
    requires
        has_field(data, at),
    ensures
        with_field(data, at, n).len() == data.len(),
        field(with_field(data, at, n), at) == n,
        forall|i: int|
            0 <= i < data.len() && !(at <= i < at + 4) ==> #[trigger] with_field(data, at, n)[i]
                == data[i],
{
    lemma_le_round_trip(n);
    assert(with_field(data, at, n).subrange(at, at + 4) =~= le_bytes(n));
}

/// A field depends only on its own four bytes.
pub proof fn lemma_field_depends_on_its_bytes(a: Seq<u8>, b: Seq<u8>, at: int)
    requires
        has_field(a, at),
        has_field(b, at),
        forall|i: int| at <= i < at + 4 ==> a[i] == b[i],
    ensures
        field(a, at) == field(b, at),
{
    assert(a.subrange(at, at + 4) =~= b.subrange(at, at + 4));
}

/// A field of a copy of a part of a buffer is the field of the buffer at the
/// corresponding position.
pub proof fn lemma_field_of_part(data: Seq<u8>, from: int, to: int, at: int)
    requires
        0 <= from <= to <= data.len(),
        has_field(data.subrange(from, to), at),
    ensures
        has_field(data, from + at),
        field(data.subrange(from, to), at) == field(data, from + at),
{
    assert(data.subrange(from, to).subrange(at, at + 4) =~= data.subrange(from + at, from + at + 4));
}

/// `byteorder::LittleEndian::read_u32`: decodes the first four bytes of `buf`,
/// least significant byte first. The call panics on a shorter buffer, which
/// the precondition rules out.
#[verifier::external_body]
fn read_u32_le(buf: &[u8]) -> (r: u32)
    requires
        buf@.len() >= 4,
    ensures
        r as int == le_u32(buf@),
{
    LittleEndian::read_u32(buf)
}

/// `byteorder::LittleEndian::write_u32`: overwrites the first four bytes of
/// `buf` with `n`, least significant byte first, and leaves the rest of the
/// buffer as it was. The call panics on a shorter buffer, which the
/// precondition rules out.
#[verifier::external_body]
fn write_u32_le(buf: &mut [u8], n: u32)
    requires
        old(buf)@.len() >= 4,
    ensures
        final(buf)@ == le_bytes(n) + old(buf)@.subrange(4, old(buf)@.len() as int),
{
    LittleEndian::write_u32(buf, n)
}

/// Reads the four-byte field of `data` at position `at`, or reports that it
/// does not fit.
pub fn read_field(data: &[u8], at: u64) -> (r: Option<u32>)
    ensures
        r.is_some() == has_field(data@, at as int),
        r matches Some(n) ==> n as int == field(data@, at as int),
{
    let len: usize = data.len();
    if at > u64::MAX - 4 || at + 4 > len as u64 {
        return None;
    }
    let start: usize = at as usize;
    let bytes = slice_subrange(data, start, start + 4);
    Some(read_u32_le(bytes))
}

/// Sets the four-byte field of `data` at position `at` to `n`.
pub(crate) fn write_field(data: &mut Vec<u8>, at: usize, n: u32)
    requires
        has_field(old(data)@, at as int),
    ensures
        final(data)@ == with_field(old(data)@, at as int, n),
{
    let (_, tail) = data.as_mut_slice().split_at_mut(at);
    write_u32_le(tail, n);
}

/// Tells whether bit 0 of the byte of `data` at position `at` is set.
pub(crate) fn read_flag(data: &[u8], at: usize) -> (r: bool)
    requires
        at < data@.len(),
    ensures
        r == flag_set(data@, at as int),
{
    let b: u8 = data[at];
    assert(b & 1 == b % 2) by (bit_vector);
    b & 1 == 1
}

/// Clears bit 0 of the byte of `data` at position `at` and leaves its other
/// bits alone.
pub(crate) fn clear_flag(data: &mut Vec<u8>, at: usize)
    requires
        at < old(data)@.len(),
    ensures
        final(data)@ == old(data)@.update(at as int, without_flag(old(data)@[at as int])),
{
    let b: u8 = data[at];
    assert(b & 0xFE == if b % 2 == 1 { (b - 1) as u8 } else { b }) by (bit_vector);
    data[at] = b & 0xFE;
}

/// Tells whether `len` bytes from position `at` on lie inside a buffer of
/// `pool_len` bytes.
pub fn window_fits(pool_len: usize, at: u32, len: u32) -> (r: bool)
    ensures
        r == (at + len <= pool_len),
{
    at as u64 + len as u64 <= pool_len as u64
}

/// Compares `len` bytes of `a` from `a_at` on with `len` bytes of `b` from
/// `b_at` on.
pub(crate) fn windows_equal(a: &[u8], a_at: usize, b: &[u8], b_at: usize, len: usize) -> (r: bool)
    requires
        a_at + len <= a@.len(),
        b_at + len <= b@.len(),
    ensures
        r == (a@.subrange(a_at as int, a_at + len) == b@.subrange(b_at as int, b_at + len)),
{
    let a_len: usize = a.len();
    let b_len: usize = b.len();
    let mut i: usize = 0;
    while i < len
        invariant
            i <= len,
            a_at + len <= a@.len() == a_len,
            b_at + len <= b@.len() == b_len,
            a@.subrange(a_at as int, a_at + i) == b@.subrange(b_at as int, b_at + i),
        decreases len - i,
    {
        if a[a_at + i] != b[b_at + i] {
            proof {
                let x = a@.subrange(a_at as int, a_at + len);
                let y = b@.subrange(b_at as int, b_at + len);
                assert(x[i as int] != y[i as int]);
            }
            return false;
        }
        proof {
            let x = a@.subrange(a_at as int, a_at + i);
            let y = b@.subrange(b_at as int, b_at + i);
            assert(a@.subrange(a_at as int, a_at + i + 1) =~= x.push(a@[a_at + i]));
            assert(b@.subrange(b_at as int, b_at + i + 1) =~= y.push(b@[b_at + i]));
        }
        i += 1;
    }
    true
}

} // verus!
