//! Box types and box headers.

use crate::bytes::{be_bytes_u32, be_u32, be_u64, get_be_u32, get_be_u64, push_be_u32, read_be_u32, readable};
use crate::error::MergeError;
use vstd::prelude::*;
use vstd::string::StringSliceAdditionalSpecFns;
use vstd::utf8::{decode_utf8, valid_utf8};

verus! {

pub const MOOV: u32 = 0x6d6f_6f76;

pub const TRAK: u32 = 0x7472_616b;

pub const EDTS: u32 = 0x6564_7473;

pub const MDIA: u32 = 0x6d64_6961;

pub const MINF: u32 = 0x6d69_6e66;

pub const STBL: u32 = 0x7374_626c;

pub const STSD: u32 = 0x7374_7364;

pub const MDAT: u32 = 0x6d64_6174;

pub const MVHD: u32 = 0x6d76_6864;

pub const TKHD: u32 = 0x746b_6864;

pub const MDHD: u32 = 0x6d64_6864;

pub const ELST: u32 = 0x656c_7374;

pub const STTS: u32 = 0x7374_7473;

pub const STSZ: u32 = 0x7374_737a;

pub const STSS: u32 = 0x7374_7373;

pub const STCO: u32 = 0x7374_636f;

pub const CO64: u32 = 0x636f_3634;

pub const SDTP: u32 = 0x7364_7470;

pub const STSC: u32 = 0x7374_7363;

pub const TMCD: u32 = 0x746d_6364;

pub const HDLR: u32 = 0x6864_6c72;

/// The four-character code of `s`: its first four bytes as one big-endian
/// number.
pub fn fourcc(s: &str) -> (r: u32)
    requires
        s.spec_bytes().len() >= 4,
    ensures
        r == be_u32(s.spec_bytes(), 0),
{
    read_be_u32(s.as_bytes(), 0)
}

/// The box types whose body is a sequence of boxes. `stsd` counts as one only
/// while reading, so that the sample descriptions in it are seen.
pub open spec fn is_container(typ: u32, is_read: bool) -> bool {
    typ == MOOV || typ == TRAK || typ == EDTS || typ == MDIA || typ == MINF || typ == STBL || (typ
        == STSD && is_read)
}

/// The header box types, whose duration field is patched on writing.
pub open spec fn is_header_box(typ: u32) -> bool {
    typ == MVHD || typ == TKHD || typ == MDHD
}

/// The sample-table and edit-list box types, which are written afresh from the
/// descriptor.
pub open spec fn is_table_box(typ: u32) -> bool {
    typ == ELST || typ == STTS || typ == STSZ || typ == STSS || typ == STCO || typ == CO64 || typ
        == SDTP || typ == STSC
}

pub fn has_children(typ: u32, is_read: bool) -> (r: bool)
    ensures
        r == is_container(typ, is_read),
{
    typ == MOOV || typ == TRAK || typ == EDTS || typ == MDIA || typ == MINF || typ == STBL || (typ
        == STSD && is_read)
}

pub fn is_header_type(typ: u32) -> (r: bool)
    ensures
        r == is_header_box(typ),
{
    typ == MVHD || typ == TKHD || typ == MDHD
}

pub fn is_table_type(typ: u32) -> (r: bool)
    ensures
        r == is_table_box(typ),
{
    typ == ELST || typ == STTS || typ == STSZ || typ == STSS || typ == STCO || typ == CO64 || typ
        == SDTP || typ == STSC
}

/// The upper-case hexadecimal digit of `n`, for `0 <= n < 16`.
pub open spec fn hex_digit(n: int) -> char {
    if n < 10 {
        (0x30 + n) as char
    } else {
        (0x41 + n - 10) as char
    }
}

/// `typ` as eight upper-case hexadecimal digits.
pub open spec fn hex8(typ: u32) -> Seq<char> {
    seq![
        hex_digit(typ as int / 0x1000_0000 % 16),
        hex_digit(typ as int / 0x100_0000 % 16),
        hex_digit(typ as int / 0x10_0000 % 16),
        hex_digit(typ as int / 0x1_0000 % 16),
        hex_digit(typ as int / 0x1000 % 16),
        hex_digit(typ as int / 0x100 % 16),
        hex_digit(typ as int / 0x10 % 16),
        hex_digit(typ as int % 16),
    ]
}

/// The text of a box type: its four bytes as characters where they are UTF-8,
/// else its value in hexadecimal.
pub open spec fn typ_text(typ: u32) -> Seq<char> {
    if valid_utf8(be_bytes_u32(typ)) {
        decode_utf8(be_bytes_u32(typ))
    } else {
        hex8(typ)
    }
}

/// `String::from_utf8`: the text that `bytes` encode, or nothing where they
/// are not UTF-8.
#[verifier::external_body]
fn utf8_to_string(bytes: Vec<u8>) -> (r: Option<String>)
    ensures
        r is Some <==> valid_utf8(bytes@),
        r matches Some(s) ==> s@ == decode_utf8(bytes@),
{
    match String::from_utf8(bytes) {
        Ok(s) => Some(s),
        Err(_) => None,
    }
}

/// `format!` with `{:08X}`: the number in upper-case hexadecimal, padded with
/// zeros to eight digits.
#[verifier::external_body]
fn format_hex8(typ: u32) -> (r: String)
    ensures
        r@ == hex8(typ),
{
    format!("{:08X}", typ)
}

pub fn typ_to_str(typ: u32) -> (r: String)
    ensures
        r@ == typ_text(typ),
{
    let mut bytes: Vec<u8> = Vec::new();
    push_be_u32(&mut bytes, typ);
    assert(bytes@ =~= be_bytes_u32(typ));
    match utf8_to_string(bytes) {
        Some(s) => s,
        None => format_hex8(typ),
    }
}

/// The header of the box that starts at `pos`: its type, `pos` itself, its
/// total size and the size of the header. A 32-bit size of 1 announces a
/// 64-bit size in the eight bytes after the type. `None` where the bytes end
/// before the header does.
pub open spec fn box_header(d: Seq<u8>, pos: int) -> Option<(u32, u64, u64, i64)> {
    if !readable(d, pos, 8) {
        None
    } else if be_u32(d, pos) == 1 {
        if readable(d, pos, 16) {
            Some((be_u32(d, pos + 4) as u32, pos as u64, be_u64(d, pos + 8) as u64, 16i64))
        } else {
            None
        }
    } else {
        Some((be_u32(d, pos + 4) as u32, pos as u64, be_u32(d, pos) as u64, 8i64))
    }
}

/// Reads the header of the box at `pos`, without its body.
pub fn read_box(d: &[u8], pos: u64) -> (r: Result<(u32, u64, u64, i64), MergeError>)
    ensures
        r == match box_header(d@, pos as int) {
            Some(h) => Ok::<(u32, u64, u64, i64), MergeError>(h),
            None => Err(MergeError::UnexpectedEof),
        },
{
    let size = get_be_u32(d, pos)?;
    if !crate::bytes::can_read(d, pos, 8) {
        return Err(MergeError::UnexpectedEof);
    }
    let typ = get_be_u32(d, pos + 4)?;
    if size == 1 {
        if !crate::bytes::can_read(d, pos, 16) {
            return Err(MergeError::UnexpectedEof);
        }
        let largesize = get_be_u64(d, pos + 8)?;
        Ok((typ, pos, largesize, 16))
    } else {
        Ok((typ, pos, size as u64, 8))
    }
}

} // verus!
