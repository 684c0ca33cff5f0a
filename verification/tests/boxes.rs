use mp4_merge::boxes::{
    CO64, EDTS, ELST, HDLR, MDAT, MDHD, MDIA, MINF, MOOV, MVHD, SDTP, STBL, STCO, STSC, STSD,
    STSS, STSZ, STTS, TKHD, TMCD, TRAK,
};
use mp4_merge::gpmf::{GPMD, META};
use mp4_merge::{fourcc, has_children, read_box, typ_to_str, MergeError};

#[test]
fn fourcc_reads_four_bytes_big_endian() {
    assert_eq!(fourcc("moov"), 0x6d6f6f76);
    assert_eq!(fourcc("\u{1}\u{2}\u{3}\u{4}rest"), 0x01020304);
    let named = [
        ("moov", MOOV),
        ("trak", TRAK),
        ("edts", EDTS),
        ("mdia", MDIA),
        ("minf", MINF),
        ("stbl", STBL),
        ("stsd", STSD),
        ("mdat", MDAT),
        ("mvhd", MVHD),
        ("tkhd", TKHD),
        ("mdhd", MDHD),
        ("elst", ELST),
        ("stts", STTS),
        ("stsz", STSZ),
        ("stss", STSS),
        ("stco", STCO),
        ("co64", CO64),
        ("sdtp", SDTP),
        ("stsc", STSC),
        ("tmcd", TMCD),
        ("hdlr", HDLR),
        ("meta", META),
        ("gpmd", GPMD),
    ];
    for (name, code) in named {
        assert_eq!(fourcc(name), code, "{}", name);
        assert_eq!(typ_to_str(code), name);
    }
}

#[test]
fn containers_are_a_closed_set() {
    for typ in [MOOV, TRAK, EDTS, MDIA, MINF, STBL] {
        assert!(has_children(typ, true));
        assert!(has_children(typ, false));
    }
    assert!(has_children(STSD, true));
    assert!(!has_children(STSD, false));
    for typ in [MDAT, MVHD, TKHD, MDHD, ELST, STTS, STCO, HDLR, TMCD, 0, fourcc("free")] {
        assert!(!has_children(typ, true));
        assert!(!has_children(typ, false));
    }
}

#[test]
fn type_text_falls_back_to_hexadecimal() {
    assert_eq!(typ_to_str(fourcc("free")), "free");
    assert_eq!(typ_to_str(0), "\0\0\0\0");
    assert_eq!(typ_to_str(0xffff_ffff), "FFFFFFFF");
    assert_eq!(typ_to_str(0x00ab_cdef), "00ABCDEF");
    assert_eq!(typ_to_str(0x80_00_00_0a), "8000000A");
    assert_eq!(typ_to_str(0xc3a9_6162), "\u{e9}ab");
}

#[test]
fn box_header_has_eight_or_sixteen_bytes() {
    let mut data = vec![0, 0, 0, 24];
    data.extend_from_slice(b"ftyp");
    data.extend_from_slice(&[9u8; 16]);
    data.extend_from_slice(&[0, 0, 0, 1]);
    data.extend_from_slice(b"mdat");
    data.extend_from_slice(&0x0000_0001_0000_0020u64.to_be_bytes());
    assert_eq!(read_box(&data, 0), Ok((fourcc("ftyp"), 0, 24, 8)));
    assert_eq!(read_box(&data, 24), Ok((MDAT, 24, 0x1_0000_0020, 16)));
    assert_eq!(read_box(&data, 4), Ok((0x09090909, 4, 0x66747970, 8)));
}

#[test]
fn truncated_header_is_unexpected_end() {
    let mut data = vec![0, 0, 0, 1];
    data.extend_from_slice(b"mdat");
    data.extend_from_slice(&[0u8; 7]);
    assert_eq!(read_box(&data, 0), Err(MergeError::UnexpectedEof));
    assert_eq!(read_box(&data[..7], 0), Err(MergeError::UnexpectedEof));
    assert_eq!(read_box(&data[..8], 1), Err(MergeError::UnexpectedEof));
    assert_eq!(read_box(&data, u64::MAX), Err(MergeError::UnexpectedEof));
    assert_eq!(read_box(&[], 0), Err(MergeError::UnexpectedEof));
}
