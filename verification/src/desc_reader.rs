//! The structural pass: going through the boxes of an input file and taking
//! what they hold into the descriptor.

use crate::boxes::{
    box_header, has_children, is_container, is_table_box, is_table_type, read_box, typ_text,
    typ_to_str, CO64, ELST, HDLR, MDHD, MVHD, SDTP, STCO, STSS, STSZ, STTS, TKHD, TMCD,
    TRAK,
};
use crate::bytes::{be_u32, be_u64, can_read, input_len, read_be_u32, read_be_u64, readable};
use crate::desc::{desc_lands, track_lands, Desc, DescView, Seconds, TrackDesc, TrackDescView};
use crate::error::MergeError;
use crate::tables::{
    elst_total, lemma_rebased_entries_in_region, offset_entry, read_bytes, read_chunk_offsets,
    read_elst_total, read_stsc_entries, read_stts_entries, read_u32_entries, rebased_entries,
    shifted_u32_entries, stsc_entries, stts_entries,
};
use crate::units::{add_u32, add_u64, rescale_up, scale_duration};
use vstd::prelude::*;

verus! {

/// How far into its body a movie or media header has been read once its
/// duration is known. Version 1 holds 64-bit times, any other 32-bit ones.
pub open spec fn timed_header_len(v: u8) -> int {
    if v == 1 {
        32
    } else {
        20
    }
}

/// The timescale of the movie or media header whose body starts at `body`.
pub open spec fn header_timescale(d: Seq<u8>, body: int, v: u8) -> u32 {
    if v == 1 {
        be_u32(d, body + 20) as u32
    } else {
        be_u32(d, body + 12) as u32
    }
}

/// The duration of the movie or media header whose body starts at `body`.
pub open spec fn header_duration(d: Seq<u8>, body: int, v: u8) -> u64 {
    if v == 1 {
        be_u64(d, body + 24) as u64
    } else {
        be_u32(d, body + 16) as u64
    }
}

/// How far into its body a track header has been read once its duration is
/// known.
pub open spec fn tkhd_len(v: u8) -> int {
    if v == 1 {
        36
    } else {
        24
    }
}

/// The duration of the track header whose body starts at `body`.
pub open spec fn tkhd_duration_at(d: Seq<u8>, body: int, v: u8) -> u64 {
    if v == 1 {
        be_u64(d, body + 28) as u64
    } else {
        be_u32(d, body + 20) as u64
    }
}

/// A row of `n` durations of no length.
pub open spec fn zero_row(n: nat) -> Seq<Seconds> {
    Seq::new(n, |j: int| Seconds { num: 0, den: 1 })
}

/// The table of durations by track and file, grown by rows of `files`
/// zeros until it has a row for track `tl`.
pub open spec fn grown(rows: Seq<Seq<Seconds>>, tl: int, files: nat) -> Seq<Seq<Seconds>> {
    if tl < rows.len() {
        rows
    } else {
        rows + Seq::new((tl + 1 - rows.len()) as nat, |i: int| zero_row(files))
    }
}

/// The timescales by file, grown by zeros until there is one for file `fi`.
pub open spec fn padded(timescales: Seq<u32>, fi: int) -> Seq<u32> {
    if fi < timescales.len() {
        timescales
    } else {
        timescales + Seq::new((fi + 1 - timescales.len()) as nat, |i: int| 0u32)
    }
}

/// What a movie header adds to the descriptor. The first timescale that is
/// not 0 becomes that of the output; the duration is added in that timescale.
pub open spec fn apply_mvhd(d: Seq<u8>, body: int, st: DescView, fi: int) -> Result<
    DescView,
    MergeError,
> {
    if !readable(d, body, 4) || !readable(d, body, timed_header_len(d[body])) {
        Err(MergeError::UnexpectedEof)
    } else {
        let ts = header_timescale(d, body, d[body]);
        let out_ts = if st.moov_mvhd_timescale == 0 {
            ts
        } else {
            st.moov_mvhd_timescale
        };
        let sum = st.moov_mvhd_duration + rescale_up(header_duration(d, body, d[body]), ts, out_ts);
        if !(0 <= fi < st.mvhd_timescale_per_file.len()) || ts == 0 {
            Err(MergeError::InvariantViolation)
        } else if sum > u64::MAX {
            Err(MergeError::Overflow)
        } else {
            Ok(
                DescView {
                    moov_mvhd_timescale: out_ts,
                    mvhd_timescale_per_file: st.mvhd_timescale_per_file.update(fi, ts),
                    moov_mvhd_duration: sum as u64,
                    ..st
                },
            )
        }
    }
}

/// What a track header adds to the descriptor: its duration, converted from
/// the movie timescale of file `fi` to that of the output. A header of a track
/// that the descriptor has no place for is passed over.
pub open spec fn apply_tkhd(d: Seq<u8>, body: int, st: DescView, tl: int, fi: int) -> Result<
    DescView,
    MergeError,
> {
    if !readable(d, body, 4) {
        Err(MergeError::UnexpectedEof)
    } else if !(0 <= tl < st.moov_tracks.len()) {
        Ok(st)
    } else if !readable(d, body, tkhd_len(d[body])) {
        Err(MergeError::UnexpectedEof)
    } else if !(0 <= fi < st.mvhd_timescale_per_file.len()) || st.mvhd_timescale_per_file[fi]
        == 0 {
        Err(MergeError::InvariantViolation)
    } else {
        let t = st.moov_tracks[tl];
        let sum = t.tkhd_duration + rescale_up(
            tkhd_duration_at(d, body, d[body]),
            st.mvhd_timescale_per_file[fi],
            st.moov_mvhd_timescale,
        );
        if sum > u64::MAX {
            Err(MergeError::Overflow)
        } else {
            Ok(st.with_track(tl, TrackDescView { tkhd_duration: sum as u64, ..t }))
        }
    }
}

/// What a media header adds to the descriptor. The first media timescale of
/// the track that is not 0 stays; the duration is added in that timescale, and
/// noted for file `fi` as a fraction of a second.
pub open spec fn apply_mdhd(d: Seq<u8>, body: int, st: DescView, tl: int, fi: int) -> Result<
    DescView,
    MergeError,
> {
    if !readable(d, body, 4) {
        Err(MergeError::UnexpectedEof)
    } else if !(0 <= tl < st.moov_tracks.len()) {
        Ok(st)
    } else if !readable(d, body, timed_header_len(d[body])) {
        Err(MergeError::UnexpectedEof)
    } else {
        let t = st.moov_tracks[tl];
        let ts = header_timescale(d, body, d[body]);
        let duration = header_duration(d, body, d[body]);
        let track_ts = if t.mdhd_timescale == 0 {
            ts
        } else {
            t.mdhd_timescale
        };
        let sum = t.mdhd_duration + rescale_up(duration, ts, track_ts);
        let rows = grown(st.track_file_durations, tl, st.file_creation_times.len());
        if ts == 0 {
            Err(MergeError::InvariantViolation)
        } else if sum > u64::MAX {
            Err(MergeError::Overflow)
        } else {
            Ok(
                DescView {
                    track_file_durations: if 0 <= fi < rows[tl].len() {
                        rows.update(tl, rows[tl].update(fi, Seconds { num: duration, den: ts }))
                    } else {
                        rows
                    },
                    ..st.with_track(
                        tl,
                        TrackDescView { mdhd_timescale: track_ts, mdhd_duration: sum as u64, ..t },
                    )
                },
            )
        }
    }
}

/// What an edit list adds to a track: the durations of its segments that are
/// not empty.
pub open spec fn apply_elst(d: Seq<u8>, body: int, t: TrackDescView) -> Result<
    TrackDescView,
    MergeError,
> {
    if !readable(d, body, 8) {
        Err(MergeError::UnexpectedEof)
    } else {
        match elst_total(
            d,
            body + 8,
            d[body] == 1,
            be_u32(d, body + 4) as u32,
            t.elst_segment_duration,
        ) {
            Ok(total) => Ok(TrackDescView { elst_segment_duration: total, ..t }),
            Err(e) => Err(e),
        }
    }
}

/// What a sample-size box adds to a track: the common sample size, the sizes
/// one by one where there is no common size, and the number of samples.
pub open spec fn apply_stsz(d: Seq<u8>, body: int, t: TrackDescView) -> Result<
    TrackDescView,
    MergeError,
> {
    if !readable(d, body, 12) {
        Err(MergeError::UnexpectedEof)
    } else {
        let sample_size = be_u32(d, body + 4) as u32;
        let count = be_u32(d, body + 8) as u32;
        let sizes = if sample_size == 0 {
            shifted_u32_entries(d, body + 12, count, 0)
        } else {
            Ok(Seq::empty())
        };
        match sizes {
            Err(e) => Err(e),
            Ok(s) => if t.stsz_count + count > u32::MAX {
                Err(MergeError::Overflow)
            } else {
                Ok(
                    TrackDescView {
                        stsz_sample_size: sample_size,
                        stsz: t.stsz + s,
                        stsz_count: (t.stsz_count + count) as u32,
                        ..t
                    },
                )
            },
        }
    }
}

/// What a sample-dependency box adds to a track: its bytes after version and
/// flags.
pub open spec fn apply_sdtp(d: Seq<u8>, body: int, body_len: int, t: TrackDescView) -> Result<
    TrackDescView,
    MergeError,
> {
    if !readable(d, body, 4) {
        Err(MergeError::UnexpectedEof)
    } else if body_len < 4 {
        Err(MergeError::MalformedBox)
    } else if !readable(d, body + 4, body_len - 4) {
        Err(MergeError::UnexpectedEof)
    } else {
        Ok(TrackDescView { sdtp: t.sdtp + d.subrange(body + 4, body + body_len), ..t })
    }
}

/// What one of the counted tables adds to a track. Sync samples and first
/// chunks are renumbered to follow those of the files before; chunk offsets are
/// counted from the start of the merged payload, which needs `mdat`, the
/// position of the payload in the current file.
pub open spec fn apply_counted(
    d: Seq<u8>,
    typ: u32,
    body: int,
    t: TrackDescView,
    mdat: Option<u64>,
    mdat_offset: u64,
) -> Result<TrackDescView, MergeError> {
    if !readable(d, body, 8) {
        Err(MergeError::UnexpectedEof)
    } else if mdat is None {
        Err(MergeError::InvariantViolation)
    } else {
        let count = be_u32(d, body + 4) as u32;
        if typ == STSS {
            match shifted_u32_entries(d, body + 8, count, t.sample_offset) {
                Ok(s) => Ok(TrackDescView { stss: t.stss + s, ..t }),
                Err(e) => Err(e),
            }
        } else if typ == STCO || typ == CO64 {
            match rebased_entries(d, body + 8, count, typ == CO64, mdat_offset, mdat->0) {
                Ok(s) => Ok(TrackDescView { stco: t.stco + s, ..t }),
                Err(e) => Err(e),
            }
        } else if typ == STTS {
            match stts_entries(d, body + 8, count) {
                Ok(s) => Ok(TrackDescView { stts: t.stts + s, ..t }),
                Err(e) => Err(e),
            }
        } else {
            match stsc_entries(d, body + 8, count, t.chunk_offset) {
                Ok(s) => Ok(TrackDescView { stsc: t.stsc + s, ..t }),
                Err(e) => Err(e),
            }
        }
    }
}

/// What an edit list or a sample table adds to a track.
pub open spec fn apply_table(
    d: Seq<u8>,
    typ: u32,
    body: int,
    body_len: int,
    t: TrackDescView,
    mdat: Option<u64>,
    mdat_offset: u64,
) -> Result<TrackDescView, MergeError> {
    if typ == ELST {
        apply_elst(d, body, t)
    } else if typ == STSZ {
        apply_stsz(d, body, t)
    } else if typ == SDTP {
        apply_sdtp(d, body, body_len, t)
    } else {
        apply_counted(d, typ, body, t, mdat, mdat_offset)
    }
}

/// The position of the payload in the file that is being read: that of the
/// region noted last.
pub open spec fn current_mdat(st: DescView) -> Option<u64> {
    if st.mdat_position.len() == 0 {
        None
    } else {
        Some(st.mdat_position.last().1)
    }
}

/// What a box without children adds to the descriptor. `body` is where its
/// body starts and `body_len` how long that is; `tl` is the track it belongs
/// to and `fi` the file it comes from. A track marked `skip` takes tables
/// from the first file only.
#[verifier::opaque]
pub open spec fn leaf(
    d: Seq<u8>,
    typ: u32,
    body: int,
    body_len: int,
    st: DescView,
    tl: int,
    fi: int,
) -> Result<DescView, MergeError> {
    if typ == MVHD {
        apply_mvhd(d, body, st, fi)
    } else if typ == TKHD {
        apply_tkhd(d, body, st, tl, fi)
    } else if typ == MDHD {
        apply_mdhd(d, body, st, tl, fi)
    } else if is_table_box(typ) || typ == TMCD || typ == HDLR {
        if !(0 <= tl < st.moov_tracks.len()) {
            Err(MergeError::InvariantViolation)
        } else {
            let t = st.moov_tracks[tl];
            if typ == TMCD {
                Ok(st.with_track(tl, TrackDescView { skip: true, ..t }))
            } else if typ == HDLR {
                if !readable(d, body, 12) {
                    Err(MergeError::UnexpectedEof)
                } else {
                    Ok(
                        st.with_track(
                            tl,
                            TrackDescView {
                                handler_type: typ_text(be_u32(d, body + 8) as u32),
                                ..t
                            },
                        ),
                    )
                }
            } else if t.skip && fi > 0 {
                Ok(st)
            } else if !readable(d, body, 4) {
                Err(MergeError::UnexpectedEof)
            } else {
                match apply_table(d, typ, body, body_len, t, current_mdat(st), st.mdat_offset) {
                    Ok(t2) => Ok(st.with_track(tl, t2)),
                    Err(e) => Err(e),
                }
            }
        }
    } else {
        Ok(st)
    }
}

/// How many bytes of `d` lie at and after `pos`.
pub open spec fn remaining(d: Seq<u8>, pos: int) -> nat {
    if pos < d.len() {
        (d.len() - pos) as nat
    } else {
        0
    }
}

/// Where a walk over boxes has come to: the descriptor, the position in the
/// input, and the error that ended the walk, if one did.
#[verifier::ext_equal]
pub struct Walk {
    pub desc: DescView,
    pub pos: int,
    pub err: Option<MergeError>,
}

/// The walk over the boxes of `d` from `pos` on, for a level of boxes that
/// began at `start` and has `max_read` bytes to go through.
///
/// Each box is taken in turn. A box with children is walked in the same way,
/// with its body length as the bytes to go through, and the walk goes on where
/// that of the children ended; leaving a `trak` box raises the track number.
/// Any other box adds what `leaf` says and is stepped over. The level ends
/// where no header can be read, at a box of size 0 or type 0, or once
/// `max_read` bytes or more lie between `start` and the position reached. A
/// box smaller than its header, or one that would end past 2^64, is
/// malformed.
pub open spec fn walk(
    d: Seq<u8>,
    pos: int,
    start: int,
    st: DescView,
    tl: int,
    max_read: u64,
    fi: int,
) -> Walk
    decreases remaining(d, pos),
{
    match box_header(d, pos) {
        None => Walk { desc: st, pos, err: None },
        Some(h) => {
            let typ = h.0;
            let size = h.2;
            let hs = h.3;
            if size == 0 || typ == 0 {
                Walk { desc: st, pos: pos + hs, err: None }
            } else if size < hs || pos + size > u64::MAX {
                Walk { desc: st, pos, err: Some(MergeError::MalformedBox) }
            } else {
                let inner = if is_container(typ, true) {
                    walk(d, pos + hs, pos + hs, st, tl, (size - hs) as u64, fi)
                } else {
                    match leaf(d, typ, pos + hs, size - hs, st, tl, fi) {
                        Ok(st2) => Walk { desc: st2, pos: pos + size, err: None },
                        Err(e) => Walk { desc: st, pos, err: Some(e) },
                    }
                };
                if inner.err is Some {
                    inner
                } else if typ == TRAK && tl + 1 > usize::MAX {
                    Walk { err: Some(MergeError::Overflow), ..inner }
                } else if inner.pos <= pos || inner.pos - start >= max_read {
                    inner
                } else {
                    walk(
                        d,
                        inner.pos,
                        start,
                        inner.desc,
                        if typ == TRAK {
                            tl + 1
                        } else {
                            tl
                        },
                        max_read,
                        fi,
                    )
                }
            }
        },
    }
}

/// A walk that ends without an error ends at or after the position where it
/// began, and within 64 bits where it began there.
pub proof fn lemma_walk_advances(
    d: Seq<u8>,
    pos: int,
    start: int,
    st: DescView,
    tl: int,
    max_read: u64,
    fi: int,
)
    requires
        0 <= pos <= u64::MAX,
        d.len() <= u64::MAX,
    ensures
        walk(d, pos, start, st, tl, max_read, fi).err is None ==> pos <= walk(
            d,
            pos,
            start,
            st,
            tl,
            max_read,
            fi,
        ).pos <= u64::MAX,
    decreases remaining(d, pos),
{
    match box_header(d, pos) {
        None => {},
        Some(h) => {
            let typ = h.0;
            let size = h.2;
            let hs = h.3;
            if size == 0 || typ == 0 {
            } else if size < hs || pos + size > u64::MAX {
            } else {
                if is_container(typ, true) {
                    lemma_walk_advances(d, pos + hs, pos + hs, st, tl, (size - hs) as u64, fi);
                }
                let inner = if is_container(typ, true) {
                    walk(d, pos + hs, pos + hs, st, tl, (size - hs) as u64, fi)
                } else {
                    match leaf(d, typ, pos + hs, size - hs, st, tl, fi) {
                        Ok(st2) => Walk { desc: st2, pos: pos + size, err: None },
                        Err(e) => Walk { desc: st, pos, err: Some(e) },
                    }
                };
                if inner.err is Some {
                } else if typ == TRAK && tl + 1 > usize::MAX {
                } else if inner.pos <= pos || inner.pos - start >= max_read {
                } else {
                    lemma_walk_advances(
                        d,
                        inner.pos,
                        start,
                        inner.desc,
                        if typ == TRAK {
                            tl + 1
                        } else {
                            tl
                        },
                        max_read,
                        fi,
                    );
                }
            }
        },
    }
}

fn read_mvhd(d: &[u8], body: u64, desc: &mut Desc, fi: usize) -> (r: Result<(), MergeError>)
    ensures
        desc_lands(r, old(desc)@, final(desc)@, apply_mvhd(d@, body as int, old(desc)@, fi as int)),
{
    if !can_read(d, body, 4) {
        return Err(MergeError::UnexpectedEof);
    }
    let v = d[body as usize];
    let need: u64 = if v == 1 {
        32
    } else {
        20
    };
    if !can_read(d, body, need) {
        return Err(MergeError::UnexpectedEof);
    }
    let ts = if v == 1 {
        read_be_u32(d, (body + 20) as usize)
    } else {
        read_be_u32(d, (body + 12) as usize)
    };
    let duration = if v == 1 {
        read_be_u64(d, (body + 24) as usize)
    } else {
        read_be_u32(d, (body + 16) as usize) as u64
    };
    let out_ts = if desc.moov_mvhd_timescale == 0 {
        ts
    } else {
        desc.moov_mvhd_timescale
    };
    if fi >= desc.mvhd_timescale_per_file.len() || ts == 0 {
        return Err(MergeError::InvariantViolation);
    }
    let add = scale_duration(duration, ts, out_ts)?;
    let sum = add_u64(desc.moov_mvhd_duration, add)?;
    desc.moov_mvhd_timescale = out_ts;
    desc.mvhd_timescale_per_file[fi] = ts;
    desc.moov_mvhd_duration = sum;
    Ok(())
}

fn read_tkhd(d: &[u8], body: u64, desc: &mut Desc, tl: usize, fi: usize) -> (r: Result<
    (),
    MergeError,
>)
    ensures
        desc_lands(
            r,
            old(desc)@,
            final(desc)@,
            apply_tkhd(d@, body as int, old(desc)@, tl as int, fi as int),
        ),
{
    if !can_read(d, body, 4) {
        return Err(MergeError::UnexpectedEof);
    }
    if tl >= desc.moov_tracks.len() {
        return Ok(());
    }
    let v = d[body as usize];
    let need: u64 = if v == 1 {
        36
    } else {
        24
    };
    if !can_read(d, body, need) {
        return Err(MergeError::UnexpectedEof);
    }
    if fi >= desc.mvhd_timescale_per_file.len() || desc.mvhd_timescale_per_file[fi] == 0 {
        return Err(MergeError::InvariantViolation);
    }
    let duration = if v == 1 {
        read_be_u64(d, (body + 28) as usize)
    } else {
        read_be_u32(d, (body + 20) as usize) as u64
    };
    let add = scale_duration(duration, desc.mvhd_timescale_per_file[fi], desc.moov_mvhd_timescale)?;
    let sum = add_u64(desc.moov_tracks[tl].tkhd_duration, add)?;
    desc.moov_tracks[tl].tkhd_duration = sum;
    Ok(())
}

/// A row of `n` durations of no length.
fn zeros(n: usize) -> (r: Vec<Seconds>)
    ensures
        r@ == zero_row(n as nat),
{
    let mut r: Vec<Seconds> = Vec::new();
    let mut i: usize = 0;
    while i < n
        invariant
            i <= n,
            r@ == zero_row(i as nat),
        decreases n - i,
    {
        r.push(Seconds::zero());
        i = i + 1;
        assert(r@ =~= zero_row(i as nat));
    }
    r
}

/// Grows the table of durations until it has a row for track `tl`.
fn grow_rows(rows: &mut Vec<Vec<Seconds>>, tl: usize, files: usize)
    ensures
        tl < final(rows)@.len(),
        final(rows)@.map_values(|v: Vec<Seconds>| v@) == grown(
            old(rows)@.map_values(|v: Vec<Seconds>| v@),
            tl as int,
            files as nat,
        ),
{
    let ghost before = rows@.map_values(|v: Vec<Seconds>| v@);
    if tl < rows.len() {
        return ;
    }
    while rows.len() <= tl
        invariant
            before.len() <= rows.len() <= tl + 1,
            rows@.map_values(|v: Vec<Seconds>| v@) == before + Seq::new(
                (rows.len() - before.len()) as nat,
                |i: int| zero_row(files as nat),
            ),
        decreases tl + 1 - rows.len(),
    {
        let ghost was = rows@.map_values(|v: Vec<Seconds>| v@);
        rows.push(zeros(files));
        assert(rows@.map_values(|v: Vec<Seconds>| v@) =~= was.push(zero_row(files as nat)));
        assert(rows@.map_values(|v: Vec<Seconds>| v@) =~= before + Seq::new(
            (rows.len() - before.len()) as nat,
            |i: int| zero_row(files as nat),
        ));
    }
}

fn read_mdhd(d: &[u8], body: u64, desc: &mut Desc, tl: usize, fi: usize) -> (r: Result<
    (),
    MergeError,
>)
    ensures
        desc_lands(
            r,
            old(desc)@,
            final(desc)@,
            apply_mdhd(d@, body as int, old(desc)@, tl as int, fi as int),
        ),
{
    if !can_read(d, body, 4) {
        return Err(MergeError::UnexpectedEof);
    }
    if tl >= desc.moov_tracks.len() {
        return Ok(());
    }
    let v = d[body as usize];
    let need: u64 = if v == 1 {
        32
    } else {
        20
    };
    if !can_read(d, body, need) {
        return Err(MergeError::UnexpectedEof);
    }
    let ts = if v == 1 {
        read_be_u32(d, (body + 20) as usize)
    } else {
        read_be_u32(d, (body + 12) as usize)
    };
    let duration = if v == 1 {
        read_be_u64(d, (body + 24) as usize)
    } else {
        read_be_u32(d, (body + 16) as usize) as u64
    };
    let track_ts = if desc.moov_tracks[tl].mdhd_timescale == 0 {
        ts
    } else {
        desc.moov_tracks[tl].mdhd_timescale
    };
    if ts == 0 {
        return Err(MergeError::InvariantViolation);
    }
    let add = scale_duration(duration, ts, track_ts)?;
    let sum = add_u64(desc.moov_tracks[tl].mdhd_duration, add)?;
    desc.moov_tracks[tl].mdhd_timescale = track_ts;
    desc.moov_tracks[tl].mdhd_duration = sum;
    let files = desc.file_creation_times.len();
    grow_rows(&mut desc.track_file_durations, tl, files);
    if fi < desc.track_file_durations[tl].len() {
        desc.track_file_durations[tl][fi] = Seconds::new(duration, ts);
    }
    Ok(())
}

fn read_table(
    d: &[u8],
    typ: u32,
    body: u64,
    body_len: u64,
    t: &mut TrackDesc,
    mdat: Option<u64>,
    mdat_offset: u64,
) -> (r: Result<(), MergeError>)
    requires
        is_table_box(typ),
        readable(d@, body as int, 4),
    ensures
        track_lands(
            r,
            old(t)@,
            final(t)@,
            apply_table(d@, typ, body as int, body_len as int, old(t)@, mdat, mdat_offset),
        ),
{
    if typ == ELST {
        if !can_read(d, body, 8) {
            return Err(MergeError::UnexpectedEof);
        }
        let v = d[body as usize];
        let count = read_be_u32(d, (body + 4) as usize);
        let total = read_elst_total(d, body + 8, v == 1, count, t.elst_segment_duration)?;
        t.elst_segment_duration = total;
        Ok(())
    } else if typ == STSZ {
        if !can_read(d, body, 12) {
            return Err(MergeError::UnexpectedEof);
        }
        let sample_size = read_be_u32(d, (body + 4) as usize);
        let count = read_be_u32(d, (body + 8) as usize);
        let mut sizes: Vec<u32> = if sample_size == 0 {
            read_u32_entries(d, body + 12, count, 0)?
        } else {
            Vec::new()
        };
        let total = add_u32(t.stsz_count, count)?;
        t.stsz_sample_size = sample_size;
        t.stsz.append(&mut sizes);
        t.stsz_count = total;
        Ok(())
    } else if typ == SDTP {
        if !can_read(d, body, 4) {
            return Err(MergeError::UnexpectedEof);
        }
        if body_len < 4 {
            return Err(MergeError::MalformedBox);
        }
        let mut bytes = read_bytes(d, body + 4, body_len - 4)?;
        t.sdtp.append(&mut bytes);
        Ok(())
    } else {
        if !can_read(d, body, 8) {
            return Err(MergeError::UnexpectedEof);
        }
        let mdat_pos = match mdat {
            Some(p) => p,
            None => {
                return Err(MergeError::InvariantViolation);
            },
        };
        let count = read_be_u32(d, (body + 4) as usize);
        if typ == STSS {
            let mut entries = read_u32_entries(d, body + 8, count, t.sample_offset)?;
            t.stss.append(&mut entries);
        } else if typ == STCO || typ == CO64 {
            let mut entries = read_chunk_offsets(
                d,
                body + 8,
                count,
                typ == CO64,
                mdat_offset,
                mdat_pos,
            )?;
            t.stco.append(&mut entries);
        } else if typ == STTS {
            let mut entries = read_stts_entries(d, body + 8, count)?;
            t.stts.append(&mut entries);
        } else {
            let mut entries = read_stsc_entries(d, body + 8, count, t.chunk_offset)?;
            t.stsc.append(&mut entries);
        }
        Ok(())
    }
}

/// Takes into the descriptor what the box of type `typ` holds whose body
/// starts at `body` and is `body_len` bytes long.
pub fn read_leaf(
    d: &[u8],
    typ: u32,
    body: u64,
    body_len: u64,
    desc: &mut Desc,
    tl: usize,
    fi: usize,
) -> (r: Result<(), MergeError>)
    ensures
        desc_lands(
            r,
            old(desc)@,
            final(desc)@,
            leaf(d@, typ, body as int, body_len as int, old(desc)@, tl as int, fi as int),
        ),
{
    reveal(leaf);
    if typ == MVHD {
        read_mvhd(d, body, desc, fi)
    } else if typ == TKHD {
        read_tkhd(d, body, desc, tl, fi)
    } else if typ == MDHD {
        read_mdhd(d, body, desc, tl, fi)
    } else if is_table_type(typ) || typ == TMCD || typ == HDLR {
        if tl >= desc.moov_tracks.len() {
            return Err(MergeError::InvariantViolation);
        }
        if typ == TMCD {
            desc.moov_tracks[tl].skip = true;
            Ok(())
        } else if typ == HDLR {
            if !can_read(d, body, 12) {
                return Err(MergeError::UnexpectedEof);
            }
            let handler = read_be_u32(d, (body + 8) as usize);
            desc.moov_tracks[tl].handler_type = typ_to_str(handler);
            Ok(())
        } else if desc.moov_tracks[tl].skip && fi > 0 {
            Ok(())
        } else {
            if !can_read(d, body, 4) {
                return Err(MergeError::UnexpectedEof);
            }
            let mdat: Option<u64> = if desc.mdat_position.len() == 0 {
                None
            } else {
                Some(desc.mdat_position[desc.mdat_position.len() - 1].1)
            };
            let mdat_offset = desc.mdat_offset;
            read_table(d, typ, body, body_len, &mut desc.moov_tracks[tl], mdat, mdat_offset)
        }
    } else {
        Ok(())
    }
}

/// What a successful walk returns: the position it reached.
pub open spec fn walk_result(w: Walk) -> Result<u64, MergeError> {
    match w.err {
        None => Ok(w.pos as u64),
        Some(e) => Err(e),
    }
}

/// Walks the boxes of `d` from `pos` on and takes what they hold into the
/// descriptor. Returns the position at which the walk ended. After an error the
/// descriptor holds what the boxes before the failing one gave.
pub fn walk_boxes(
    d: &[u8],
    pos: u64,
    desc: &mut Desc,
    track: usize,
    max_read: u64,
    file_index: usize,
) -> (r: Result<u64, MergeError>)
    ensures
        final(desc)@ == walk(
            d@,
            pos as int,
            pos as int,
            old(desc)@,
            track as int,
            max_read,
            file_index as int,
        ).desc,
        r == walk_result(
            walk(d@, pos as int, pos as int, old(desc)@, track as int, max_read, file_index as int),
        ),
    decreases remaining(d@, pos as int),
{
    let len = input_len(d);
    let mut cur = pos;
    let mut tl = track;
    loop
        invariant
            pos <= cur,
            len == d@.len(),
            walk(d@, pos as int, pos as int, old(desc)@, track as int, max_read, file_index as int)
                == walk(d@, cur as int, pos as int, desc@, tl as int, max_read, file_index as int),
        decreases remaining(d@, cur as int),
    {
        let h = match read_box(d, cur) {
            Ok(h) => h,
            Err(_) => {
                return Ok(cur);
            },
        };
        let typ = h.0;
        let size = h.2;
        let hs = h.3 as u64;
        if size == 0 || typ == 0 {
            return Ok(cur + hs);
        }
        if size < hs {
            return Err(MergeError::MalformedBox);
        }
        let end = match cur.checked_add(size) {
            Some(e) => e,
            None => {
                return Err(MergeError::MalformedBox);
            },
        };
        let body = cur + hs;
        let ghost before = desc@;
        let next = if has_children(typ, true) {
            proof {
                lemma_walk_advances(
                    d@,
                    body as int,
                    body as int,
                    before,
                    tl as int,
                    (size - hs) as u64,
                    file_index as int,
                );
            }
            walk_boxes(d, body, desc, tl, size - hs, file_index)?
        } else {
            read_leaf(d, typ, body, size - hs, desc, tl, file_index)?;
            end
        };
        if typ == TRAK {
            if tl == usize::MAX {
                return Err(MergeError::Overflow);
            }
            tl = tl + 1;
        }
        if next - pos >= max_read {
            return Ok(next);
        }
        cur = next;
    }
}

/// What reading one file does to the descriptor: after making room for the
/// movie timescale of file `fi`, the walk over its boxes.
pub open spec fn read_desc_spec(
    d: Seq<u8>,
    pos: int,
    st: DescView,
    tl: int,
    max_read: u64,
    fi: int,
) -> Walk {
    walk(
        d,
        pos,
        pos,
        DescView { mvhd_timescale_per_file: padded(st.mvhd_timescale_per_file, fi), ..st },
        tl,
        max_read,
        fi,
    )
}

/// Builds up the descriptor from the boxes of input file `file_index`, whose
/// bytes are `d`, from `pos` on. `track` is the number of the first track that
/// the boxes meet, and `max_read` the number of bytes to go through. Returns
/// the position at which the walk ended.
pub fn read_desc(
    d: &[u8],
    pos: u64,
    desc: &mut Desc,
    track: usize,
    max_read: u64,
    file_index: usize,
) -> (r: Result<u64, MergeError>)
    ensures
        final(desc)@ == read_desc_spec(
            d@,
            pos as int,
            old(desc)@,
            track as int,
            max_read,
            file_index as int,
        ).desc,
        r == walk_result(
            read_desc_spec(d@, pos as int, old(desc)@, track as int, max_read, file_index as int),
        ),
{
    let ghost before = desc.mvhd_timescale_per_file@;
    while desc.mvhd_timescale_per_file.len() <= file_index
        invariant
            before.len() <= file_index ==> before.len() <= desc.mvhd_timescale_per_file.len()
                <= file_index + 1,
            before.len() > file_index ==> desc.mvhd_timescale_per_file@ == before,
            before.len() <= file_index ==> desc.mvhd_timescale_per_file@ == before + Seq::new(
                (desc.mvhd_timescale_per_file.len() - before.len()) as nat,
                |i: int| 0u32,
            ),
            desc@ == (DescView {
                mvhd_timescale_per_file: desc.mvhd_timescale_per_file@,
                ..old(desc)@
            }),
        decreases file_index + 1 - desc.mvhd_timescale_per_file.len(),
    {
        desc.mvhd_timescale_per_file.push(0);
        assert(desc.mvhd_timescale_per_file@ =~= before + Seq::new(
            (desc.mvhd_timescale_per_file.len() - before.len()) as nat,
            |i: int| 0u32,
        ));
    }
    assert(desc.mvhd_timescale_per_file@ =~= padded(before, file_index as int));
    walk_boxes(d, pos, desc, track, max_read, file_index)
}

/// Whether two descriptors agree on what reading boxes never touches: the
/// payload regions and their sum, the creation times and durations of the
/// files, and the number of tracks.
pub open spec fn same_frame(a: DescView, b: DescView) -> bool {
    &&& a.mdat_position == b.mdat_position
    &&& a.mdat_offset == b.mdat_offset
    &&& a.mdat_final_position == b.mdat_final_position
    &&& a.file_creation_times == b.file_creation_times
    &&& a.file_durations == b.file_durations
    &&& a.moov_tracks.len() == b.moov_tracks.len()
}

/// What a box adds to the descriptor leaves the payload regions, the times of
/// the files and the number of tracks as they are.
pub proof fn lemma_leaf_frame(
    d: Seq<u8>,
    typ: u32,
    body: int,
    body_len: int,
    st: DescView,
    tl: int,
    fi: int,
)
    ensures
        leaf(d, typ, body, body_len, st, tl, fi) matches Ok(after) ==> same_frame(st, after),
{
    reveal(leaf);
}

/// Reading boxes leaves the payload regions, the times of the files and the
/// number of tracks as they are.
pub proof fn lemma_walk_frame(
    d: Seq<u8>,
    pos: int,
    start: int,
    st: DescView,
    tl: int,
    max_read: u64,
    fi: int,
)
    ensures
        same_frame(st, walk(d, pos, start, st, tl, max_read, fi).desc),
    decreases remaining(d, pos),
{
    match box_header(d, pos) {
        None => {},
        Some(h) => {
            let typ = h.0;
            let size = h.2;
            let hs = h.3;
            if size == 0 || typ == 0 {
            } else if size < hs || pos + size > u64::MAX {
            } else {
                if is_container(typ, true) {
                    lemma_walk_frame(d, pos + hs, pos + hs, st, tl, (size - hs) as u64, fi);
                } else {
                    lemma_leaf_frame(d, typ, pos + hs, size - hs, st, tl, fi);
                }
                let inner = if is_container(typ, true) {
                    walk(d, pos + hs, pos + hs, st, tl, (size - hs) as u64, fi)
                } else {
                    match leaf(d, typ, pos + hs, size - hs, st, tl, fi) {
                        Ok(st2) => Walk { desc: st2, pos: pos + size, err: None },
                        Err(e) => Walk { desc: st, pos, err: Some(e) },
                    }
                };
                if inner.err is Some {
                } else if typ == TRAK && tl + 1 > usize::MAX {
                } else if inner.pos <= pos || inner.pos - start >= max_read {
                } else {
                    lemma_walk_frame(
                        d,
                        inner.pos,
                        start,
                        inner.desc,
                        if typ == TRAK {
                            tl + 1
                        } else {
                            tl
                        },
                        max_read,
                        fi,
                    );
                }
            }
        },
    }
}

/// Whether every chunk of every track lies before `bound` in the merged
/// payload.
pub open spec fn offsets_below(st: DescView, bound: int) -> bool {
    forall|t: int, j: int|
        #![trigger st.moov_tracks[t].stco[j]]
        0 <= t < st.moov_tracks.len() && 0 <= j < st.moov_tracks[t].stco.len()
            ==> st.moov_tracks[t].stco[j] < bound
}

/// Whether a box is a table of chunk offsets all of whose entries lie within
/// the payload of the file that is being read, which is `len` bytes long, or
/// is no such table.
pub open spec fn leaf_chunks_within(d: Seq<u8>, typ: u32, body: int, st: DescView, len: u64) -> bool {
    let wide = typ == CO64;
    let base = body + 8;
    let count = be_u32(d, body + 4);
    let width = if wide {
        8int
    } else {
        4int
    };
    (typ == STCO || typ == CO64) && readable(d, body, 8) && current_mdat(st) is Some && readable(
        d,
        base,
        width * count,
    ) ==> forall|i: int|
        0 <= i < count ==> current_mdat(st)->0 <= #[trigger] offset_entry(d, base, wide, i)
            < current_mdat(st)->0 + len
}

/// Whether every table of chunk offsets that the walk over the boxes of `d`
/// meets lists chunks that lie within the payload of the file, which is `len`
/// bytes long.
pub open spec fn chunks_within(
    d: Seq<u8>,
    pos: int,
    start: int,
    st: DescView,
    tl: int,
    max_read: u64,
    fi: int,
    len: u64,
) -> bool
    decreases remaining(d, pos),
{
    match box_header(d, pos) {
        None => true,
        Some(h) => {
            let typ = h.0;
            let size = h.2;
            let hs = h.3;
            if size == 0 || typ == 0 || size < hs || pos + size > u64::MAX {
                true
            } else {
                let inner = if is_container(typ, true) {
                    walk(d, pos + hs, pos + hs, st, tl, (size - hs) as u64, fi)
                } else {
                    match leaf(d, typ, pos + hs, size - hs, st, tl, fi) {
                        Ok(st2) => Walk { desc: st2, pos: pos + size, err: None },
                        Err(e) => Walk { desc: st, pos, err: Some(e) },
                    }
                };
                let here = if is_container(typ, true) {
                    chunks_within(d, pos + hs, pos + hs, st, tl, (size - hs) as u64, fi, len)
                } else {
                    leaf_chunks_within(d, typ, pos + hs, st, len)
                };
                here && (inner.err is Some || (typ == TRAK && tl + 1 > usize::MAX) || inner.pos
                    <= pos || inner.pos - start >= max_read || chunks_within(
                    d,
                    inner.pos,
                    start,
                    inner.desc,
                    if typ == TRAK {
                        tl + 1
                    } else {
                        tl
                    },
                    max_read,
                    fi,
                    len,
                ))
            }
        },
    }
}

/// A box whose chunks lie within the payload of its file leaves every chunk
/// of the descriptor before the end of the share of that file in the merged
/// payload.
pub proof fn lemma_leaf_keeps_offsets_below(
    d: Seq<u8>,
    typ: u32,
    body: int,
    body_len: int,
    st: DescView,
    tl: int,
    fi: int,
    len: u64,
)
    requires
        leaf_chunks_within(d, typ, body, st, len),
        offsets_below(st, st.mdat_offset + len),
        st.mdat_offset + len <= u64::MAX,
    ensures
        leaf(d, typ, body, body_len, st, tl, fi) matches Ok(after) ==> offsets_below(
            after,
            st.mdat_offset + len,
        ),
{
    reveal(leaf);
    match leaf(d, typ, body, body_len, st, tl, fi) {
        Err(_) => {},
        Ok(after) => {
            if (typ == STCO || typ == CO64) && 0 <= tl < st.moov_tracks.len() && !(
            st.moov_tracks[tl].skip && fi > 0) {
                let count = be_u32(d, body + 4) as u32;
                crate::bytes::lemma_be_u32(d, body + 4, 0);
                lemma_rebased_entries_in_region(
                    d,
                    body + 8,
                    count,
                    typ == CO64,
                    st.mdat_offset,
                    current_mdat(st)->0,
                    len,
                );
                let added = rebased_entries(
                    d,
                    body + 8,
                    count,
                    typ == CO64,
                    st.mdat_offset,
                    current_mdat(st)->0,
                )->Ok_0;
                assert(after.moov_tracks[tl].stco == st.moov_tracks[tl].stco + added);
                assert forall|t: int, j: int|
                    #![trigger after.moov_tracks[t].stco[j]]
                    0 <= t < after.moov_tracks.len() && 0 <= j
                        < after.moov_tracks[t].stco.len() implies after.moov_tracks[t].stco[j]
                    < st.mdat_offset + len by {
                    if t == tl {
                        if j < st.moov_tracks[tl].stco.len() {
                            assert(after.moov_tracks[t].stco[j] == st.moov_tracks[t].stco[j]);
                        } else {
                            assert(after.moov_tracks[t].stco[j] == added[j
                                - st.moov_tracks[tl].stco.len()]);
                        }
                    } else {
                        assert(after.moov_tracks[t].stco[j] == st.moov_tracks[t].stco[j]);
                    }
                }
            } else {
                assert forall|t: int, j: int|
                    #![trigger after.moov_tracks[t].stco[j]]
                    0 <= t < after.moov_tracks.len() && 0 <= j
                        < after.moov_tracks[t].stco.len() implies after.moov_tracks[t].stco[j]
                    < st.mdat_offset + len by {
                    assert(after.moov_tracks[t].stco == st.moov_tracks[t].stco);
                    assert(after.moov_tracks[t].stco[j] == st.moov_tracks[t].stco[j]);
                }
            }
        },
    }
}

/// A walk over boxes whose chunks lie within the payload of their file
/// leaves every chunk of the descriptor before the end of the share of that
/// file in the merged payload.
pub proof fn lemma_walk_keeps_offsets_below(
    d: Seq<u8>,
    pos: int,
    start: int,
    st: DescView,
    tl: int,
    max_read: u64,
    fi: int,
    len: u64,
)
    requires
        chunks_within(d, pos, start, st, tl, max_read, fi, len),
        offsets_below(st, st.mdat_offset + len),
        st.mdat_offset + len <= u64::MAX,
    ensures
        offsets_below(walk(d, pos, start, st, tl, max_read, fi).desc, st.mdat_offset + len),
    decreases remaining(d, pos),
{
    match box_header(d, pos) {
        None => {},
        Some(h) => {
            let typ = h.0;
            let size = h.2;
            let hs = h.3;
            if size == 0 || typ == 0 || size < hs || pos + size > u64::MAX {
            } else {
                if is_container(typ, true) {
                    lemma_walk_keeps_offsets_below(
                        d,
                        pos + hs,
                        pos + hs,
                        st,
                        tl,
                        (size - hs) as u64,
                        fi,
                        len,
                    );
                    lemma_walk_frame(d, pos + hs, pos + hs, st, tl, (size - hs) as u64, fi);
                } else {
                    lemma_leaf_keeps_offsets_below(d, typ, pos + hs, size - hs, st, tl, fi, len);
                    lemma_leaf_frame(d, typ, pos + hs, size - hs, st, tl, fi);
                }
                let inner = if is_container(typ, true) {
                    walk(d, pos + hs, pos + hs, st, tl, (size - hs) as u64, fi)
                } else {
                    match leaf(d, typ, pos + hs, size - hs, st, tl, fi) {
                        Ok(st2) => Walk { desc: st2, pos: pos + size, err: None },
                        Err(e) => Walk { desc: st, pos, err: Some(e) },
                    }
                };
                if inner.err is Some {
                } else if typ == TRAK && tl + 1 > usize::MAX {
                } else if inner.pos <= pos || inner.pos - start >= max_read {
                } else {
                    lemma_walk_keeps_offsets_below(
                        d,
                        inner.pos,
                        start,
                        inner.desc,
                        if typ == TRAK {
                            tl + 1
                        } else {
                            tl
                        },
                        max_read,
                        fi,
                        len,
                    );
                }
            }
        },
    }
}

} // verus!
