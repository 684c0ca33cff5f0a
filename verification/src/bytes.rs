//! Big-endian and little-endian numbers in byte sequences.

use crate::error::MergeError;
use byteorder::{BigEndian, ByteOrder, LittleEndian};
use vstd::prelude::*;

verus! {

/// The unsigned 32-bit number stored most significant byte first in
/// `s[at..at + 4]`.
pub open spec fn be_u32(s: Seq<u8>, at: int) -> int {
    s[at] * 0x100_0000 + s[at + 1] * 0x1_0000 + s[at + 2] * 0x100 + s[at + 3]
}

/// The unsigned 64-bit number stored most significant byte first in
/// `s[at..at + 8]`.
pub open spec fn be_u64(s: Seq<u8>, at: int) -> int {
    be_u32(s, at) * 0x1_0000_0000 + be_u32(s, at + 4)
}

/// The two's complement 32-bit number stored most significant byte first in
/// `s[at..at + 4]`.
pub open spec fn be_i32(s: Seq<u8>, at: int) -> int {
    if be_u32(s, at) >= 0x8000_0000 {
        be_u32(s, at) - 0x1_0000_0000
    } else {
        be_u32(s, at)
    }
}

/// The two's complement 64-bit number stored most significant byte first in
/// `s[at..at + 8]`.
pub open spec fn be_i64(s: Seq<u8>, at: int) -> int {
    if be_u64(s, at) >= 0x8000_0000_0000_0000 {
        be_u64(s, at) - 0x1_0000_0000_0000_0000
    } else {
        be_u64(s, at)
    }
}

/// The unsigned 32-bit number stored least significant byte first in
/// `s[at..at + 4]`.
pub open spec fn le_u32(s: Seq<u8>, at: int) -> int {
    s[at] + s[at + 1] * 0x100 + s[at + 2] * 0x1_0000 + s[at + 3] * 0x100_0000
}

/// The four bytes that store `n` most significant byte first.
pub open spec fn be_bytes_u32(n: u32) -> Seq<u8> {
    seq![
        (n / 0x100_0000) as u8,
        (n / 0x1_0000 % 0x100) as u8,
        (n / 0x100 % 0x100) as u8,
        (n % 0x100) as u8,
    ]
}

/// The eight bytes that store `n` most significant byte first.
pub open spec fn be_bytes_u64(n: u64) -> Seq<u8> {
    be_bytes_u32((n / 0x1_0000_0000) as u32) + be_bytes_u32((n % 0x1_0000_0000) as u32)
}

/// The eight bytes that store `n` in two's complement, most significant byte
/// first.
pub open spec fn be_bytes_i64(n: i64) -> Seq<u8> {
    if n < 0 {
        be_bytes_u64((n + 0x1_0000_0000_0000_0000) as u64)
    } else {
        be_bytes_u64(n as u64)
    }
}

/// Whether `n` bytes can be read from `s` at position `pos`.
pub open spec fn readable(s: Seq<u8>, pos: int, n: int) -> bool {
    0 <= pos && pos + n <= s.len()
}

/// `byteorder::BigEndian::read_u32` on the bytes of `buf` from `at` on: the
/// first four of them, read as one big-endian number.
#[verifier::external_body]
pub(crate) fn read_be_u32(buf: &[u8], at: usize) -> (r: u32)
    requires
        at + 4 <= buf@.len(),
    ensures
        r as int == be_u32(buf@, at as int),
{
    BigEndian::read_u32(&buf[at..])
}

/// `byteorder::BigEndian::read_u64` on the bytes of `buf` from `at` on: the
/// first eight of them, read as one big-endian number.
#[verifier::external_body]
pub(crate) fn read_be_u64(buf: &[u8], at: usize) -> (r: u64)
    requires
        at + 8 <= buf@.len(),
    ensures
        r as int == be_u64(buf@, at as int),
{
    BigEndian::read_u64(&buf[at..])
}

/// `byteorder::BigEndian::read_i32` on the bytes of `buf` from `at` on: the
/// first four of them, read as a big-endian number in two's complement.
#[verifier::external_body]
pub(crate) fn read_be_i32(buf: &[u8], at: usize) -> (r: i32)
    requires
        at + 4 <= buf@.len(),
    ensures
        r as int == be_i32(buf@, at as int),
{
    BigEndian::read_i32(&buf[at..])
}

/// `byteorder::BigEndian::read_i64` on the bytes of `buf` from `at` on: the
/// first eight of them, read as a big-endian number in two's complement.
#[verifier::external_body]
pub(crate) fn read_be_i64(buf: &[u8], at: usize) -> (r: i64)
    requires
        at + 8 <= buf@.len(),
    ensures
        r as int == be_i64(buf@, at as int),
{
    BigEndian::read_i64(&buf[at..])
}

/// `byteorder::LittleEndian::read_u32` on the bytes of `buf` from `at` on: the
/// first four of them, read as one little-endian number.
#[verifier::external_body]
pub(crate) fn read_le_u32(buf: &[u8], at: usize) -> (r: u32)
    requires
        at + 4 <= buf@.len(),
    ensures
        r as int == le_u32(buf@, at as int),
{
    LittleEndian::read_u32(&buf[at..])
}

/// `byteorder::BigEndian::write_u32` into a fresh array: the four bytes of `n`,
/// most significant first.
#[verifier::external_body]
pub(crate) fn be_array_u32(n: u32) -> (b: [u8; 4])
    ensures
        b@ == be_bytes_u32(n),
{
    let mut b = [0u8; 4];
    BigEndian::write_u32(&mut b, n);
    b
}

/// `byteorder::BigEndian::write_u64` into a fresh array: the eight bytes of
/// `n`, most significant first.
#[verifier::external_body]
pub(crate) fn be_array_u64(n: u64) -> (b: [u8; 8])
    ensures
        b@ == be_bytes_u64(n),
{
    let mut b = [0u8; 8];
    BigEndian::write_u64(&mut b, n);
    b
}

/// `byteorder::BigEndian::write_i64` into a fresh array: the eight bytes of
/// `n` in two's complement, most significant first.
#[verifier::external_body]
pub(crate) fn be_array_i64(n: i64) -> (b: [u8; 8])
    ensures
        b@ == be_bytes_i64(n),
{
    let mut b = [0u8; 8];
    BigEndian::write_i64(&mut b, n);
    b
}

/// The number of bytes of `d`.
pub fn input_len(d: &[u8]) -> (n: u64)
    ensures
        n == d@.len(),
        d@.len() <= usize::MAX,
{
    d.len() as u64
}

/// Whether `n` bytes can be read from `d` at `pos`.
pub fn can_read(d: &[u8], pos: u64, n: u64) -> (r: bool)
    ensures
        r == readable(d@, pos as int, n as int),
        r ==> pos + n <= usize::MAX,
{
    let len = d.len() as u64;
    pos <= len && len - pos >= n
}

/// The big-endian `u32` at `pos`, or `UnexpectedEof` where `d` ends before its
/// last byte.
pub fn get_be_u32(d: &[u8], pos: u64) -> (r: Result<u32, MergeError>)
    ensures
        readable(d@, pos as int, 4) ==> (r matches Ok(v) && v == be_u32(d@, pos as int)),
        !readable(d@, pos as int, 4) ==> r == Err::<u32, MergeError>(MergeError::UnexpectedEof),
{
    if !can_read(d, pos, 4) {
        return Err(MergeError::UnexpectedEof);
    }
    let v = read_be_u32(d, pos as usize);
    Ok(v)
}

/// The big-endian `u64` at `pos`, or `UnexpectedEof` where `d` ends before its
/// last byte.
pub fn get_be_u64(d: &[u8], pos: u64) -> (r: Result<u64, MergeError>)
    ensures
        readable(d@, pos as int, 8) ==> (r matches Ok(v) && v == be_u64(d@, pos as int)),
        !readable(d@, pos as int, 8) ==> r == Err::<u64, MergeError>(MergeError::UnexpectedEof),
{
    if !can_read(d, pos, 8) {
        return Err(MergeError::UnexpectedEof);
    }
    let v = read_be_u64(d, pos as usize);
    Ok(v)
}

/// Appends the four big-endian bytes of `n`.
pub fn push_be_u32(out: &mut Vec<u8>, n: u32)
    ensures
        final(out)@ == old(out)@ + be_bytes_u32(n),
{
    let b = be_array_u32(n);
    out.extend_from_slice(&b);
}

/// Appends the eight big-endian bytes of `n`.
pub fn push_be_u64(out: &mut Vec<u8>, n: u64)
    ensures
        final(out)@ == old(out)@ + be_bytes_u64(n),
{
    let b = be_array_u64(n);
    out.extend_from_slice(&b);
}

/// Appends the eight big-endian bytes of `n` in two's complement.
pub fn push_be_i64(out: &mut Vec<u8>, n: i64)
    ensures
        final(out)@ == old(out)@ + be_bytes_i64(n),
{
    let b = be_array_i64(n);
    out.extend_from_slice(&b);
}

/// A big-endian `u32` stays below 2^32, and what was written is read back.
pub proof fn lemma_be_u32(s: Seq<u8>, at: int, n: u32)
    ensures
        0 <= be_u32(s, at) <= u32::MAX,
        be_bytes_u32(n).len() == 4,
        be_u32(be_bytes_u32(n), 0) == n,
{
}

/// A big-endian `u64` stays below 2^64, and what was written is read back.
pub proof fn lemma_be_u64(s: Seq<u8>, at: int, n: u64)
    ensures
        0 <= be_u64(s, at) <= u64::MAX,
        be_bytes_u64(n).len() == 8,
        be_u64(be_bytes_u64(n), 0) == n,
{
    let hi = (n / 0x1_0000_0000) as u32;
    let lo = (n % 0x1_0000_0000) as u32;
    lemma_be_u32(s, at, hi);
    lemma_be_u32(s, at + 4, lo);
    let b = be_bytes_u64(n);
    assert(be_u32(b, 0) == be_u32(be_bytes_u32(hi), 0));
    assert(be_u32(b, 4) == be_u32(be_bytes_u32(lo), 0));
}

/// A signed big-endian number written as eight bytes is read back.
pub proof fn lemma_be_i64(s: Seq<u8>, at: int, n: i64)
    ensures
        i64::MIN <= be_i64(s, at) <= i64::MAX,
        i32::MIN <= be_i32(s, at) <= i32::MAX,
        be_bytes_i64(n).len() == 8,
        be_i64(be_bytes_i64(n), 0) == n,
{
    lemma_be_u64(s, at, 0);
    lemma_be_u32(s, at, 0);
    if n < 0 {
        lemma_be_u64(s, at, (n + 0x1_0000_0000_0000_0000) as u64);
    } else {
        lemma_be_u64(s, at, n as u64);
    }
}

} // verus!
