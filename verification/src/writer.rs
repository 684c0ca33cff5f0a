//! The rewriter: following the boxes of the first input file and writing the
//! merged file.

use crate::boxes::{
    box_header, has_children, is_container, is_header_box, is_header_type, is_table_box,
    is_table_type, read_box, CO64, MDAT, MVHD, STCO, TKHD, TRAK,
};
use crate::bytes::{
    be_array_u32, be_array_u64, be_bytes_u32, be_bytes_u64, can_read, input_len, push_be_u32,
    push_be_u64, readable,
};
use crate::desc::{Desc, DescView, TrackDescView};
use crate::desc_reader::remaining;
use crate::emit::{build_table_box, table_box};
use crate::error::MergeError;
use vstd::prelude::*;
use vstd::slice::slice_subrange;

verus! {

/// `s` with the bytes from `at` on replaced by `bytes`.
pub open spec fn splice(s: Seq<u8>, at: int, bytes: Seq<u8>) -> Seq<u8> {
    s.subrange(0, at) + bytes + s.subrange(at + bytes.len(), s.len() as int)
}

/// The bytes of each input file.
pub open spec fn files_view(files: Seq<Vec<u8>>) -> Seq<Seq<u8>> {
    files.map_values(|f: Vec<u8>| f@)
}

/// Whether a payload region names an input file that is there.
pub open spec fn region_is_copied(files: Seq<Seq<u8>>, region: (Option<usize>, u64, u64)) -> bool {
    region.0 is Some && region.0->0 < files.len()
}

/// Whether every payload region lies within its file.
pub open spec fn regions_readable(
    files: Seq<Seq<u8>>,
    regions: Seq<(Option<usize>, u64, u64)>,
) -> bool {
    forall|i: int|
        0 <= i < regions.len() && region_is_copied(files, #[trigger] regions[i]) ==> readable(
            files[regions[i].0->0 as int],
            regions[i].1 as int,
            regions[i].2 as int,
        )
}

/// The summed lengths of the payload regions that are copied.
pub open spec fn regions_total(
    files: Seq<Seq<u8>>,
    regions: Seq<(Option<usize>, u64, u64)>,
) -> int
    decreases regions.len(),
{
    if regions.len() == 0 {
        0
    } else {
        regions_total(files, regions.drop_last()) + if region_is_copied(files, regions.last()) {
            regions.last().2 as int
        } else {
            0
        }
    }
}

/// The merged payload: the payload regions of the input files, one after the
/// other.
pub open spec fn merged_payload(
    files: Seq<Seq<u8>>,
    regions: Seq<(Option<usize>, u64, u64)>,
) -> Seq<u8>
    decreases regions.len(),
{
    if regions.len() == 0 {
        Seq::empty()
    } else {
        merged_payload(files, regions.drop_last()) + if region_is_copied(files, regions.last()) {
            files[regions.last().0->0 as int].subrange(
                regions.last().1 as int,
                regions.last().1 + regions.last().2,
            )
        } else {
            Seq::empty()
        }
    }
}

/// Where a rewrite has come to: the output, the descriptor, the position in
/// the first input file, the bytes written for the boxes of this level, and the
/// error that ended it, if one did.
#[verifier::ext_equal]
pub struct Rewrite {
    pub out: Seq<u8>,
    pub desc: DescView,
    pub pos: int,
    pub new_size: int,
    pub err: Option<MergeError>,
}

/// The rewrite that failed with `e`.
pub open spec fn failed(out: Seq<u8>, st: DescView, pos: int, e: MergeError) -> Rewrite {
    Rewrite { out, desc: st, pos, new_size: 0, err: Some(e) }
}

/// Where in a header box the duration stands, counted from the start of the
/// box.
pub open spec fn duration_offset(typ: u32, hs: int, v: u8) -> int {
    hs + 4 + if typ == TKHD {
        if v == 1 {
            24int
        } else {
            16int
        }
    } else {
        if v == 1 {
            20int
        } else {
            12int
        }
    }
}

/// The duration to write into a header box of type `typ`: that of the movie,
/// or that of track `tl`. `None` for a track that the descriptor does not
/// hold.
pub open spec fn merged_duration(typ: u32, st: DescView, tl: int) -> Option<u64> {
    if typ == MVHD {
        Some(st.moov_mvhd_duration)
    } else if !(0 <= tl < st.moov_tracks.len()) {
        None
    } else if typ == TKHD {
        Some(st.moov_tracks[tl].tkhd_duration)
    } else {
        Some(st.moov_tracks[tl].mdhd_duration)
    }
}

/// A movie, track or media header: the box as it is in the input, with the
/// merged duration in place of its own. The field is 64 bits wide in a box of
/// version 1 and 32 bits in any other.
pub open spec fn rewrite_header(
    first: Seq<u8>,
    typ: u32,
    offs: int,
    size: int,
    hs: int,
    out: Seq<u8>,
    st: DescView,
    tl: int,
) -> Rewrite {
    if !readable(first, offs + hs, 4) || !readable(first, offs, size) {
        failed(out, st, offs, MergeError::UnexpectedEof)
    } else {
        let v = first[offs + hs];
        let original = first.subrange(offs, offs + size);
        let at = duration_offset(typ, hs, v);
        match merged_duration(typ, st, tl) {
            None => Rewrite { out: out + original, desc: st, pos: offs + size, new_size: size, err: None },
            Some(duration) => if at + (if v == 1 { 8int } else { 4int }) > size {
                failed(out, st, offs, MergeError::MalformedBox)
            } else if v != 1 && duration > u32::MAX {
                failed(out, st, offs, MergeError::Overflow)
            } else {
                Rewrite {
                    out: out + splice(
                        original,
                        at,
                        if v == 1 {
                            be_bytes_u64(duration)
                        } else {
                            be_bytes_u32(duration as u32)
                        },
                    ),
                    desc: st,
                    pos: offs + size,
                    new_size: size,
                    err: None,
                }
            },
        }
    }
}

/// The payload box of the output: a header with a 64-bit size, then the
/// payloads of all input files. The descriptor notes where the payload begins
/// in the output.
pub open spec fn rewrite_mdat(
    files: Seq<Seq<u8>>,
    offs: int,
    size: int,
    out: Seq<u8>,
    st: DescView,
) -> Rewrite {
    if !regions_readable(files, st.mdat_position) {
        failed(out, st, offs, MergeError::UnexpectedEof)
    } else if 16 + regions_total(files, st.mdat_position) > u64::MAX {
        failed(out, st, offs, MergeError::Overflow)
    } else {
        Rewrite {
            out: out + be_bytes_u32(1) + be_bytes_u32(MDAT) + be_bytes_u64(
                (16 + regions_total(files, st.mdat_position)) as u64,
            ) + merged_payload(files, st.mdat_position),
            desc: DescView { mdat_final_position: (out.len() + 16) as u64, ..st },
            pos: offs + size,
            new_size: 16 + regions_total(files, st.mdat_position),
            err: None,
        }
    }
}

/// An edit list or a sample table: the box built from track `tl` of the
/// descriptor, whatever the input holds. For a table of chunk offsets the
/// descriptor notes where its entries begin in the output.
pub open spec fn rewrite_table(
    typ: u32,
    offs: int,
    size: int,
    out: Seq<u8>,
    st: DescView,
    tl: int,
) -> Rewrite {
    if !(0 <= tl < st.moov_tracks.len()) {
        failed(out, st, offs, MergeError::InvariantViolation)
    } else {
        match table_box(typ, st.moov_tracks[tl], st.mdat_final_position) {
            None => failed(out, st, offs, MergeError::Overflow),
            Some(b) => Rewrite {
                out: out + b,
                desc: if typ == STCO || typ == CO64 {
                    st.with_track(
                        tl,
                        TrackDescView {
                            co64_final_position: (out.len() + 16) as u64,
                            ..st.moov_tracks[tl]
                        },
                    )
                } else {
                    st
                },
                pos: offs + size,
                new_size: b.len() as int,
                err: None,
            },
        }
    }
}

/// What is written for a box without children of type `typ` that takes `size`
/// bytes from `offs` on in the first input file, `hs` of them its header.
#[verifier::opaque]
pub open spec fn rewrite_leaf(
    files: Seq<Seq<u8>>,
    typ: u32,
    offs: int,
    size: int,
    hs: int,
    out: Seq<u8>,
    st: DescView,
    tl: int,
) -> Rewrite {
    if typ == MDAT {
        rewrite_mdat(files, offs, size, out, st)
    } else if is_header_box(typ) {
        rewrite_header(files[0], typ, offs, size, hs, out, st, tl)
    } else if is_table_box(typ) {
        rewrite_table(typ, offs, size, out, st, tl)
    } else if !readable(files[0], offs, size) {
        failed(out, st, offs, MergeError::UnexpectedEof)
    } else {
        Rewrite {
            out: out + files[0].subrange(offs, offs + size),
            desc: st,
            pos: offs + size,
            new_size: size,
            err: None,
        }
    }
}

/// A box with children, once its children are written: the size in its
/// header, which was copied before them, is set to what was written.
pub open spec fn close_container(inner: Rewrite, out_pos: int, size: int, hs: int) -> Rewrite {
    if inner.err is Some {
        inner
    } else if inner.new_size + hs > u64::MAX {
        Rewrite { err: Some(MergeError::Overflow), ..inner }
    } else if inner.new_size + hs == size {
        Rewrite { new_size: size, ..inner }
    } else if inner.new_size + hs > u32::MAX {
        Rewrite { err: Some(MergeError::Overflow), ..inner }
    } else {
        Rewrite {
            out: splice(inner.out, out_pos, be_bytes_u32((inner.new_size + hs) as u32)),
            new_size: inner.new_size + hs,
            ..inner
        }
    }
}

/// What is written for the box at `pos` in the first input file. Of a box
/// with children the header is copied, the children are rewritten, and the
/// size in the header is set to what was written. Any other box is written as
/// `rewrite_leaf` says.
pub open spec fn rewrite_box(
    files: Seq<Seq<u8>>,
    pos: int,
    out: Seq<u8>,
    st: DescView,
    tl: int,
) -> Rewrite
    decreases
            if files.len() > 0 {
                remaining(files[0], pos)
            } else {
                0
            },
            0int,
{
    if files.len() == 0 {
        failed(out, st, pos, MergeError::InvariantViolation)
    } else {
        match box_header(files[0], pos) {
            None => failed(out, st, pos, MergeError::UnexpectedEof),
            Some(h) => if is_container(h.0, false) {
                close_container(
                    rewrite(
                        files,
                        pos + h.3,
                        out + files[0].subrange(pos, pos + h.3),
                        st,
                        tl,
                        (h.2 - h.3) as u64,
                        0,
                        0,
                    ),
                    out.len() as int,
                    h.2 as int,
                    h.3 as int,
                )
            } else {
                rewrite_leaf(files, h.0, pos, h.2 as int, h.3 as int, out, st, tl)
            },
        }
    }
}

/// The output for the boxes of the first input file from `pos` on.
///
/// Each box is taken in turn and written as `rewrite_box` says; leaving a
/// `trak` box raises the track number. The level ends where no header can be
/// read, at a box of size 0 or type 0, or once the boxes read at this level
/// take `max_read` bytes or more. A box smaller than its header, or one that
/// would end past 2^64, is malformed. `total_read` and `total_new` are the
/// bytes read and written for the boxes of this level so far.
pub open spec fn rewrite(
    files: Seq<Seq<u8>>,
    pos: int,
    out: Seq<u8>,
    st: DescView,
    tl: int,
    max_read: u64,
    total_read: int,
    total_new: int,
) -> Rewrite
    decreases
            if files.len() > 0 {
                remaining(files[0], pos)
            } else {
                0
            },
            1int,
{
    if files.len() == 0 {
        failed(out, st, pos, MergeError::InvariantViolation)
    } else {
        match box_header(files[0], pos) {
            None => Rewrite { out, desc: st, pos, new_size: total_new, err: None },
            Some(h) => {
                let typ = h.0;
                let size = h.2;
                let hs = h.3;
                if size == 0 || typ == 0 {
                    Rewrite { out, desc: st, pos: pos + hs, new_size: total_new, err: None }
                } else if size < hs || pos + size > u64::MAX {
                    failed(out, st, pos, MergeError::MalformedBox)
                } else if total_read + size > u64::MAX {
                    failed(out, st, pos, MergeError::Overflow)
                } else {
                    let step = rewrite_box(files, pos, out, st, tl);
                    if step.err is Some {
                        step
                    } else if total_new + step.new_size > u64::MAX || (typ == TRAK && tl + 1
                        > usize::MAX) {
                        Rewrite { err: Some(MergeError::Overflow), ..step }
                    } else if step.pos <= pos || total_read + size >= max_read {
                        Rewrite { new_size: total_new + step.new_size, ..step }
                    } else {
                        rewrite(
                            files,
                            step.pos,
                            step.out,
                            step.desc,
                            if typ == TRAK {
                                tl + 1
                            } else {
                                tl
                            },
                            max_read,
                            total_read + size,
                            total_new + step.new_size,
                        )
                    }
                }
            },
        }
    }
}

/// What a box that is neither empty nor malformed leaves behind: a
/// position after the box began, and an output that has not shrunk.
pub proof fn lemma_rewrite_box_advances(
    files: Seq<Seq<u8>>,
    pos: int,
    out: Seq<u8>,
    st: DescView,
    tl: int,
)
    requires
        0 <= pos <= u64::MAX,
        files.len() > 0,
        files[0].len() <= u64::MAX,
        box_header(files[0], pos) matches Some(h) && h.3 <= h.2 && pos + h.2 <= u64::MAX,
    ensures
        ({
            let w = rewrite_box(files, pos, out, st, tl);
            w.err is None ==> pos < w.pos <= u64::MAX && out.len() + 8 <= w.out.len() && 0
                <= w.new_size
        }),
    decreases remaining(files[0], pos), 0int,
{
    reveal(rewrite_leaf);
    let h = box_header(files[0], pos)->0;
    if is_container(h.0, false) {
        lemma_rewrite_advances(
            files,
            pos + h.3,
            out + files[0].subrange(pos, pos + h.3),
            st,
            tl,
            (h.2 - h.3) as u64,
            0,
            0,
        );
    } else {
        crate::emit::lemma_table_box_size(h.0, st.moov_tracks[tl], st.mdat_final_position);
        lemma_regions_total_bounds(files, st.mdat_position);
    }
}

/// The summed lengths of payload regions are not negative.
pub proof fn lemma_regions_total_bounds(
    files: Seq<Seq<u8>>,
    regions: Seq<(Option<usize>, u64, u64)>,
)
    ensures
        0 <= regions_total(files, regions),
    decreases regions.len(),
{
    if regions.len() > 0 {
        lemma_regions_total_bounds(files, regions.drop_last());
    }
}

/// A rewrite that ends without an error ends at or after the position where
/// it began, and has only added to the output.
pub proof fn lemma_rewrite_advances(
    files: Seq<Seq<u8>>,
    pos: int,
    out: Seq<u8>,
    st: DescView,
    tl: int,
    max_read: u64,
    total_read: int,
    total_new: int,
)
    requires
        0 <= pos <= u64::MAX,
        files.len() > 0,
        files[0].len() <= u64::MAX,
        0 <= total_new,
    ensures
        ({
            let w = rewrite(files, pos, out, st, tl, max_read, total_read, total_new);
            w.err is None ==> pos <= w.pos <= u64::MAX && out.len() <= w.out.len() && 0
                <= w.new_size
        }),
    decreases remaining(files[0], pos), 1int,
{
    match box_header(files[0], pos) {
        None => {},
        Some(h) => {
            let typ = h.0;
            let size = h.2;
            let hs = h.3;
            if size == 0 || typ == 0 {
            } else if size < hs || pos + size > u64::MAX {
            } else if total_read + size > u64::MAX {
            } else {
                lemma_rewrite_box_advances(files, pos, out, st, tl);
                let step = rewrite_box(files, pos, out, st, tl);
                if step.err is Some {
                } else if total_new + step.new_size > u64::MAX || (typ == TRAK && tl + 1
                    > usize::MAX) {
                } else if step.pos <= pos || total_read + size >= max_read {
                } else {
                    lemma_rewrite_advances(
                        files,
                        step.pos,
                        step.out,
                        step.desc,
                        if typ == TRAK {
                            tl + 1
                        } else {
                            tl
                        },
                        max_read,
                        total_read + size,
                        total_new + step.new_size,
                    );
                }
            }
        },
    }
}

/// The first input file, which the output follows box by box.
pub fn get_first(files: &[Vec<u8>]) -> (r: &Vec<u8>)
    requires
        files@.len() > 0,
    ensures
        r@ == files@[0]@,
{
    &files[0]
}

/// Overwrites the bytes of `writer` from `position` on with `bytes`. What is
/// patched must have been written: else nothing changes, and the result is
/// `InvariantViolation`.
pub fn patch_bytes(writer: &mut Vec<u8>, position: u64, bytes: &[u8]) -> (r: Result<
    (),
    MergeError,
>)
    ensures
        position + bytes@.len() <= old(writer)@.len() ==> r is Ok && final(writer)@ == splice(
            old(writer)@,
            position as int,
            bytes@,
        ),
        position + bytes@.len() > old(writer)@.len() ==> r == Err::<(), MergeError>(
            MergeError::InvariantViolation,
        ) && final(writer)@ == old(writer)@,
{
    let n = bytes.len();
    let len = writer.len();
    if position > len as u64 || n > len - position as usize {
        return Err(MergeError::InvariantViolation);
    }
    let at = position as usize;
    let mut i: usize = 0;
    while i < n
        invariant
            i <= n,
            n == bytes@.len(),
            at + n <= writer@.len(),
            len == writer@.len(),
            writer@.len() == old(writer)@.len(),
            writer@ == splice(old(writer)@, at as int, bytes@.take(i as int)),
        decreases n - i,
    {
        writer[at + i] = bytes[i];
        i = i + 1;
        assert(writer@ =~= splice(old(writer)@, at as int, bytes@.take(i as int)));
    }
    assert(bytes@.take(n as int) =~= bytes@);
    Ok(())
}

/// Whether `r`, the output and the descriptor are what the rewrite `w` says.
/// `r` holds the bytes written and the position reached in the first input
/// file.
pub open spec fn rewrite_lands(
    r: Result<(u64, u64), MergeError>,
    out: Seq<u8>,
    desc: DescView,
    w: Rewrite,
) -> bool {
    &&& out =~= w.out
    &&& desc =~= w.desc
    &&& match w.err {
        None => r is Ok && r->Ok_0.0 == w.new_size && r->Ok_0.1 == w.pos,
        Some(e) => r == Err::<(u64, u64), MergeError>(e),
    }
}

/// Whether `r`, the output and the descriptor are what `w` says of one box.
/// `r` holds the bytes written.
pub open spec fn leaf_lands(r: Result<u64, MergeError>, out: Seq<u8>, desc: DescView, w: Rewrite) -> bool {
    &&& out =~= w.out
    &&& desc =~= w.desc
    &&& match w.err {
        None => r is Ok && r->Ok_0 == w.new_size,
        Some(e) => r == Err::<u64, MergeError>(e),
    }
}

/// Overwrites, in the box that was copied to the end of `out` and began at
/// `out_pos`, the bytes from `at` on.
fn patch_copied(out: &mut Vec<u8>, out_pos: usize, at: usize, bytes: &[u8])
    requires
        out_pos + at + bytes@.len() <= old(out)@.len(),
    ensures
        final(out)@ == old(out)@.subrange(0, out_pos as int) + splice(
            old(out)@.subrange(out_pos as int, old(out)@.len() as int),
            at as int,
            bytes@,
        ),
{
    let len = out.len();
    let patched = patch_bytes(out, (out_pos + at) as u64, bytes);
    assert(patched is Ok);
    assert(out@ =~= old(out)@.subrange(0, out_pos as int) + splice(
        old(out)@.subrange(out_pos as int, old(out)@.len() as int),
        at as int,
        bytes@,
    ));
}

fn write_header(
    first: &[u8],
    typ: u32,
    offs: u64,
    size: u64,
    hs: u64,
    out: &mut Vec<u8>,
    desc: &Desc,
    tl: usize,
) -> (r: Result<u64, MergeError>)
    requires
        is_header_box(typ),
        hs == 8 || hs == 16,
        hs <= size,
        offs + size <= u64::MAX,
    ensures
        leaf_lands(
            r,
            final(out)@,
            desc@,
            rewrite_header(
                first@,
                typ,
                offs as int,
                size as int,
                hs as int,
                old(out)@,
                desc@,
                tl as int,
            ),
        ),
{
    if !can_read(first, offs + hs, 4) || !can_read(first, offs, size) {
        return Err(MergeError::UnexpectedEof);
    }
    let v = first[(offs + hs) as usize];
    let at: u64 = hs + 4 + if typ == TKHD {
        if v == 1 {
            24
        } else {
            16
        }
    } else {
        if v == 1 {
            20
        } else {
            12
        }
    };
    let duration: Option<u64> = if typ == MVHD {
        Some(desc.moov_mvhd_duration)
    } else if tl >= desc.moov_tracks.len() {
        None
    } else if typ == TKHD {
        Some(desc.moov_tracks[tl].tkhd_duration)
    } else {
        Some(desc.moov_tracks[tl].mdhd_duration)
    };
    let original = slice_subrange(first, offs as usize, (offs + size) as usize);
    let out_pos = out.len();
    match duration {
        None => {
            out.extend_from_slice(original);
        },
        Some(d) => {
            let width: u64 = if v == 1 {
                8
            } else {
                4
            };
            if at + width > size {
                return Err(MergeError::MalformedBox);
            }
            if v != 1 && d > u32::MAX as u64 {
                return Err(MergeError::Overflow);
            }
            out.extend_from_slice(original);
            let copied = out.len();
            assert(out@.subrange(0, out_pos as int) =~= old(out)@);
            assert(out@.subrange(out_pos as int, copied as int) =~= original@);
            if v == 1 {
                let b = be_array_u64(d);
                patch_copied(out, out_pos, at as usize, &b);
            } else {
                let b = be_array_u32(d as u32);
                patch_copied(out, out_pos, at as usize, &b);
            }
        },
    }
    Ok(size)
}

fn write_mdat(files: &[Vec<u8>], offs: u64, size: u64, out: &mut Vec<u8>, desc: &mut Desc) -> (r:
    Result<u64, MergeError>)
    ensures
        leaf_lands(
            r,
            final(out)@,
            final(desc)@,
            rewrite_mdat(files_view(files@), offs as int, size as int, old(out)@, old(desc)@),
        ),
{
    let ghost fv = files_view(files@);
    let ghost regions = desc@.mdat_position;
    let n = desc.mdat_position.len();
    let mut total: u128 = 0;
    let mut i: usize = 0;
    while i < n
        invariant
            i <= n,
            n == regions.len(),
            fv == files_view(files@),
            regions == desc@.mdat_position,
            desc@ == old(desc)@,
            out@ == old(out)@,
            regions_readable(fv, regions.take(i as int)),
            total == regions_total(fv, regions.take(i as int)),
            total <= i * 0xffff_ffff_ffff_ffff,
        decreases n - i,
    {
        let region = desc.mdat_position[i];
        assert(regions.take(i + 1).drop_last() =~= regions.take(i as int));
        match region.0 {
            Some(f) => {
                if f < files.len() {
                    if !can_read(files[f].as_slice(), region.1, region.2) {
                        assert(!regions_readable(fv, regions)) by {
                            assert(region_is_copied(fv, regions[i as int]));
                        }
                        return Err(MergeError::UnexpectedEof);
                    }
                    total = total + region.2 as u128;
                }
            },
            None => {},
        }
        assert(regions_readable(fv, regions.take(i + 1))) by {
            assert forall|j: int|
                0 <= j < i + 1 && region_is_copied(
                    fv,
                    #[trigger] regions.take(i + 1)[j],
                ) implies readable(
                fv[regions.take(i + 1)[j].0->0 as int],
                regions.take(i + 1)[j].1 as int,
                regions.take(i + 1)[j].2 as int,
            ) by {
                if j < i {
                    assert(regions.take(i as int)[j] == regions.take(i + 1)[j]);
                }
            }
        }
        i = i + 1;
    }
    assert(regions.take(n as int) =~= regions);
    if total > (u64::MAX - 16) as u128 {
        return Err(MergeError::Overflow);
    }
    let new_size = 16 + total as u64;
    push_be_u32(out, 1);
    push_be_u32(out, MDAT);
    push_be_u64(out, new_size);
    desc.mdat_final_position = out.len() as u64;
    let ghost head = out@;
    assert(head =~= old(out)@ + be_bytes_u32(1) + be_bytes_u32(MDAT) + be_bytes_u64(new_size));
    let mut i: usize = 0;
    while i < n
        invariant
            i <= n,
            n == regions.len(),
            fv == files_view(files@),
            regions == desc@.mdat_position,
            regions_readable(fv, regions),
            out@ == head + merged_payload(fv, regions.take(i as int)),
        decreases n - i,
    {
        let region = desc.mdat_position[i];
        assert(regions.take(i + 1).drop_last() =~= regions.take(i as int));
        match region.0 {
            Some(f) => {
                if f < files.len() {
                    assert(region_is_copied(fv, regions[i as int]));
                    let file = files[f].as_slice();
                    let len = input_len(file);
                    out.extend_from_slice(
                        slice_subrange(file, region.1 as usize, (region.1 + region.2) as usize),
                    );
                }
            },
            None => {},
        }
        i = i + 1;
        assert(out@ =~= head + merged_payload(fv, regions.take(i as int)));
    }
    assert(regions.take(n as int) =~= regions);
    Ok(new_size)
}

fn write_table(typ: u32, offs: u64, size: u64, out: &mut Vec<u8>, desc: &mut Desc, tl: usize) -> (r:
    Result<u64, MergeError>)
    requires
        is_table_box(typ),
    ensures
        leaf_lands(
            r,
            final(out)@,
            final(desc)@,
            rewrite_table(typ, offs as int, size as int, old(out)@, old(desc)@, tl as int),
        ),
{
    if tl >= desc.moov_tracks.len() {
        return Err(MergeError::InvariantViolation);
    }
    let table = match build_table_box(typ, &desc.moov_tracks[tl], desc.mdat_final_position) {
        None => {
            return Err(MergeError::Overflow);
        },
        Some(b) => b,
    };
    proof {
        reveal(crate::emit::table_payload);
    }
    let written = table.len() as u64;
    out.extend_from_slice(table.as_slice());
    if typ == STCO || typ == CO64 {
        desc.moov_tracks[tl].co64_final_position = out.len() as u64 - (written - 16);
    }
    Ok(written)
}

/// Writes what stands in the output for the box without children of type
/// `typ` that takes `size` bytes from `offs` on in the first input file.
/// Returns the number of bytes written.
fn write_leaf(
    files: &[Vec<u8>],
    typ: u32,
    offs: u64,
    size: u64,
    hs: u64,
    out: &mut Vec<u8>,
    desc: &mut Desc,
    tl: usize,
) -> (r: Result<u64, MergeError>)
    requires
        files@.len() > 0,
        hs == 8 || hs == 16,
        hs <= size,
        offs + size <= u64::MAX,
    ensures
        leaf_lands(
            r,
            final(out)@,
            final(desc)@,
            rewrite_leaf(
                files_view(files@),
                typ,
                offs as int,
                size as int,
                hs as int,
                old(out)@,
                old(desc)@,
                tl as int,
            ),
        ),
{
    reveal(rewrite_leaf);
    if typ == MDAT {
        write_mdat(files, offs, size, out, desc)
    } else if is_header_type(typ) {
        write_header(get_first(files).as_slice(), typ, offs, size, hs, out, desc, tl)
    } else if is_table_type(typ) {
        write_table(typ, offs, size, out, desc, tl)
    } else {
        let first = get_first(files).as_slice();
        if !can_read(first, offs, size) {
            return Err(MergeError::UnexpectedEof);
        }
        out.extend_from_slice(slice_subrange(first, offs as usize, (offs + size) as usize));
        Ok(size)
    }
}

/// Writes what stands in the output for the box at `pos` in the first input
/// file, whose header says `typ`, `size` and `hs`. Returns the number of bytes
/// written and the position reached in the first input file.
fn rewrite_one(
    files: &[Vec<u8>],
    pos: u64,
    typ: u32,
    size: u64,
    hs: u64,
    output_file: &mut Vec<u8>,
    desc: &mut Desc,
    tl: usize,
) -> (r: Result<(u64, u64), MergeError>)
    requires
        files@.len() > 0,
        hs == 8 || hs == 16,
        box_header(files@[0]@, pos as int) matches Some(h) && h.0 == typ && h.2 == size && h.3
            == hs,
        hs <= size,
        pos + size <= u64::MAX,
    ensures
        rewrite_lands(
            r,
            final(output_file)@,
            final(desc)@,
            rewrite_box(files_view(files@), pos as int, old(output_file)@, old(desc)@, tl as int),
        ),
    decreases remaining(files@[0]@, pos as int), 0int,
{
    let ghost fv = files_view(files@);
    if has_children(typ, false) {
        let first = get_first(files).as_slice();
        let len = input_len(first);
        let out_pos = output_file.len();
        output_file.extend_from_slice(slice_subrange(first, pos as usize, (pos + hs) as usize));
        let ghost copied = output_file@;
        assert(copied =~= old(output_file)@ + fv[0].subrange(pos as int, pos + hs));
        proof {
            lemma_rewrite_advances(
                fv,
                pos + hs,
                copied,
                old(desc)@,
                tl as int,
                (size - hs) as u64,
                0,
                0,
            );
        }
        let inner = rewrite_from_desc(files, pos + hs, output_file, desc, tl, size - hs)?;
        let new_size = match inner.0.checked_add(hs) {
            Some(n) => n,
            None => {
                return Err(MergeError::Overflow);
            },
        };
        if new_size != size {
            if new_size > u32::MAX as u64 {
                return Err(MergeError::Overflow);
            }
            let b = be_array_u32(new_size as u32);
            let patched = patch_bytes(output_file, out_pos as u64, &b);
            assert(patched is Ok);
        }
        Ok((new_size, inner.1))
    } else {
        let new_size = write_leaf(files, typ, pos, size, hs, output_file, desc, tl)?;
        proof {
            reveal(rewrite_leaf);
        }
        Ok((new_size, pos + size))
    }
}

/// Writes the output for the boxes of the first input file from `pos` on:
/// boxes with children are gone through, edit lists, sample tables and the
/// duration fields of headers are written from the descriptor, the payload box
/// takes the payloads of all files, and any other box is copied. `track` is
/// the number of the first track that the boxes meet, and `max_read` the
/// number of bytes of boxes to go through.
///
/// Returns the number of bytes written for the boxes of this level, and the
/// position reached in the first input file. After an error the output holds
/// what was written for the boxes before the failing one.
pub fn rewrite_from_desc(
    files: &[Vec<u8>],
    pos: u64,
    output_file: &mut Vec<u8>,
    desc: &mut Desc,
    track: usize,
    max_read: u64,
) -> (r: Result<(u64, u64), MergeError>)
    ensures
        rewrite_lands(
            r,
            final(output_file)@,
            final(desc)@,
            rewrite(
                files_view(files@),
                pos as int,
                old(output_file)@,
                old(desc)@,
                track as int,
                max_read,
                0,
                0,
            ),
        ),
    decreases
            if files@.len() > 0 {
                remaining(files@[0]@, pos as int)
            } else {
                0
            },
            1int,
{
    if files.len() == 0 {
        return Err(MergeError::InvariantViolation);
    }
    let ghost fv = files_view(files@);
    let first = get_first(files).as_slice();
    let len = input_len(first);
    let mut cur = pos;
    let mut tl = track;
    let mut total_read: u64 = 0;
    let mut total_new: u64 = 0;
    loop
        invariant
            pos <= cur,
            files@.len() > 0,
            fv == files_view(files@),
            first@ == fv[0],
            first@ == files@[0]@,
            len == first@.len(),
            rewrite(fv, pos as int, old(output_file)@, old(desc)@, track as int, max_read, 0, 0)
                == rewrite(
                fv,
                cur as int,
                output_file@,
                desc@,
                tl as int,
                max_read,
                total_read as int,
                total_new as int,
            ),
        decreases remaining(first@, cur as int),
    {
        let h = match read_box(first, cur) {
            Ok(h) => h,
            Err(_) => {
                return Ok((total_new, cur));
            },
        };
        let typ = h.0;
        let size = h.2;
        let hs = h.3 as u64;
        if size == 0 || typ == 0 {
            return Ok((total_new, cur + hs));
        }
        if size < hs {
            return Err(MergeError::MalformedBox);
        }
        if cur.checked_add(size).is_none() {
            return Err(MergeError::MalformedBox);
        }
        let read = match total_read.checked_add(size) {
            Some(t) => t,
            None => {
                return Err(MergeError::Overflow);
            },
        };
        proof {
            lemma_rewrite_box_advances(fv, cur as int, output_file@, desc@, tl as int);
        }
        let step = rewrite_one(files, cur, typ, size, hs, output_file, desc, tl)?;
        let written = match total_new.checked_add(step.0) {
            Some(t) => t,
            None => {
                return Err(MergeError::Overflow);
            },
        };
        if typ == TRAK {
            if tl == usize::MAX {
                return Err(MergeError::Overflow);
            }
            tl = tl + 1;
        }
        if read >= max_read {
            return Ok((written, step.1));
        }
        total_read = read;
        total_new = written;
        cur = step.1;
    }
}

/// The summed lengths of all payload regions.
pub open spec fn payload_lengths(regions: Seq<(Option<usize>, u64, u64)>) -> int
    decreases regions.len(),
{
    if regions.len() == 0 {
        0
    } else {
        payload_lengths(regions.drop_last()) + regions.last().2
    }
}

/// The merged payload is as long as the regions that are copied into it.
pub proof fn lemma_merged_payload_length(
    files: Seq<Seq<u8>>,
    regions: Seq<(Option<usize>, u64, u64)>,
)
    requires
        regions_readable(files, regions),
    ensures
        merged_payload(files, regions).len() == regions_total(files, regions),
    decreases regions.len(),
{
    if regions.len() > 0 {
        assert(regions_readable(files, regions.drop_last())) by {
            assert forall|i: int|
                0 <= i < regions.drop_last().len() && region_is_copied(
                    files,
                    #[trigger] regions.drop_last()[i],
                ) implies readable(
                files[regions.drop_last()[i].0->0 as int],
                regions.drop_last()[i].1 as int,
                regions.drop_last()[i].2 as int,
            ) by {
                assert(regions.drop_last()[i] == regions[i]);
            }
        }
        lemma_merged_payload_length(files, regions.drop_last());
        assert(regions.last() == regions[regions.len() - 1]);
    }
}

/// Where every payload region names an input file that is there, the regions
/// that are copied are all of them.
pub proof fn lemma_all_regions_copied(
    files: Seq<Seq<u8>>,
    regions: Seq<(Option<usize>, u64, u64)>,
)
    requires
        forall|i: int| 0 <= i < regions.len() ==> region_is_copied(files, #[trigger] regions[i]),
    ensures
        regions_total(files, regions) == payload_lengths(regions),
    decreases regions.len(),
{
    if regions.len() > 0 {
        assert forall|i: int| 0 <= i < regions.drop_last().len() implies region_is_copied(
            files,
            #[trigger] regions.drop_last()[i],
        ) by {
            assert(regions.drop_last()[i] == regions[i]);
        }
        lemma_all_regions_copied(files, regions.drop_last());
        assert(regions.last() == regions[regions.len() - 1]);
    }
}

/// The body of the payload box that is written is as long as the payload
/// regions of the input files taken together, and the size in its header says
/// so.
pub proof fn lemma_mdat_body_length(
    files: Seq<Seq<u8>>,
    offs: int,
    size: int,
    out: Seq<u8>,
    st: DescView,
)
    requires
        rewrite_mdat(files, offs, size, out, st).err is None,
        forall|i: int|
            0 <= i < st.mdat_position.len() ==> region_is_copied(
                files,
                #[trigger] st.mdat_position[i],
            ),
    ensures
        rewrite_mdat(files, offs, size, out, st).out.len() == out.len() + 16 + payload_lengths(
            st.mdat_position,
        ),
        rewrite_mdat(files, offs, size, out, st).new_size == 16 + payload_lengths(st.mdat_position),
        rewrite_mdat(files, offs, size, out, st).out.subrange(
            out.len() as int + 16,
            out.len() + 16 + payload_lengths(st.mdat_position),
        ) == merged_payload(files, st.mdat_position),
{
    lemma_merged_payload_length(files, st.mdat_position);
    lemma_all_regions_copied(files, st.mdat_position);
    crate::bytes::lemma_be_u32(Seq::empty(), 0, 0);
    crate::bytes::lemma_be_u64(Seq::empty(), 0, 0);
    let w = rewrite_mdat(files, offs, size, out, st);
    assert(w.out.subrange(
        out.len() as int + 16,
        out.len() + 16 + payload_lengths(st.mdat_position),
    ) =~= merged_payload(files, st.mdat_position));
}

} // verus!
