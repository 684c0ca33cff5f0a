//! The merge from end to end.

use crate::boxes::{box_header, read_box, MDAT};
use crate::bytes::{be_u64, input_len, le_u32, read_be_u64, read_le_u32};
use crate::desc::{Desc, DescView, Seconds, TrackDesc, TrackDescView};
use crate::desc_reader::{
    chunks_within, walk, lemma_walk_frame, lemma_walk_keeps_offsets_below, offsets_below, padded,
    read_desc, read_desc_spec, remaining, zero_row,
};
use crate::emit::{concat_offsets, emit_offsets, lemma_written_offsets_in_payload, offsets_fit};
use crate::error::MergeError;
use crate::timeline::{
    compute_gaps_and_edit_lists, has_any_gap, has_any_time, retimed_track, timeline,
};
use crate::writer::{
    files_view, lemma_mdat_body_length, patch_bytes, payload_lengths, region_is_copied, rewrite,
    rewrite_from_desc, rewrite_mdat, splice,
};
use vstd::prelude::*;
use vstd::slice::slice_to_vec;

verus! {

/// How many tracks the descriptor of a merge has room for.
pub const TRACK_SLOTS: usize = 10;

/// The length of the trailer signature that Insta360 cameras put at the very
/// end of a file, and of the fields before it.
pub const TRAILER_TAIL: u64 = 40;

/// Whether the 32 bytes from `at` on are the signature of an Insta360
/// trailer: the text `8db42d694ccc418790edff439fe026bf`.
pub open spec fn is_trailer_magic(d: Seq<u8>, at: int) -> bool {
    &&& be_u64(d, at) == 0x3864_6234_3264_3639
    &&& be_u64(d, at + 8) == 0x3463_6363_3431_3837
    &&& be_u64(d, at + 16) == 0x3930_6564_6666_3433
    &&& be_u64(d, at + 24) == 0x3966_6530_3236_6266
}

/// Where the boxes of a file end and a vendor trailer begins: the file has
/// the trailer signature in its last 32 bytes, and the little-endian number 40
/// bytes before its end gives the length of the trailer. `None` for a file
/// without such a trailer.
pub open spec fn trailer_start(d: Seq<u8>) -> Option<u64> {
    if d.len() >= TRAILER_TAIL && is_trailer_magic(d, d.len() - 32) && le_u32(d, d.len() - 40)
        <= d.len() {
        Some((d.len() - le_u32(d, d.len() - 40)) as u64)
    } else {
        None
    }
}

/// The number of bytes of boxes to go through in a file: all of them, or
/// those before a vendor trailer.
pub open spec fn read_limit(d: Seq<u8>) -> u64 {
    match trailer_start(d) {
        Some(n) => n,
        None => u64::MAX,
    }
}

/// The payload of a file: where the body of the first top-level `mdat` box at
/// or after `pos` begins, and its length.
pub open spec fn find_mdat(d: Seq<u8>, pos: int) -> Result<(u64, u64), MergeError>
    decreases remaining(d, pos),
{
    match box_header(d, pos) {
        None => Err(MergeError::InvariantViolation),
        Some(h) => if h.2 < h.3 || pos + h.2 > u64::MAX {
            Err(MergeError::MalformedBox)
        } else if h.0 == MDAT {
            Ok(((pos + h.3) as u64, (h.2 - h.3) as u64))
        } else {
            find_mdat(d, pos + h.2)
        },
    }
}

/// The descriptor with which a merge of `files` files begins: room for ten
/// tracks, the creation times as given, and no durations yet.
pub open spec fn initial_desc(files: nat, creation_times: Seq<Option<u64>>) -> DescView {
    DescView {
        moov_tracks: Seq::new(TRACK_SLOTS as nat, |i: int| TrackDescView::empty()),
        file_creation_times: creation_times,
        file_durations: zero_row(files),
        track_file_durations: Seq::new(TRACK_SLOTS as nat, |i: int| zero_row(files)),
        ..DescView::empty()
    }
}

/// The durations of the files once that of file `i` is noted: what the first
/// track has gathered so far, in seconds, where the movie timescales and that
/// duration are known.
pub open spec fn noted_duration(st: DescView, i: int) -> Seq<Seconds> {
    if st.moov_mvhd_timescale > 0 && (0 <= i < st.mvhd_timescale_per_file.len()
        ==> st.mvhd_timescale_per_file[i] > 0) && st.moov_tracks.len() > 0
        && st.moov_tracks[0].mdhd_timescale > 0 && st.moov_tracks[0].mdhd_duration > 0 && 0 <= i
        < st.file_durations.len() {
        st.file_durations.update(
            i,
            Seconds {
                num: st.moov_tracks[0].mdhd_duration,
                den: st.moov_tracks[0].mdhd_timescale,
            },
        )
    } else {
        st.file_durations
    }
}

/// Whether the number of chunks of every track fits 32 bits.
pub open spec fn chunk_counts_fit(st: DescView) -> bool {
    forall|t: int| 0 <= t < st.moov_tracks.len() ==> (#[trigger] st.moov_tracks[t]).stco.len()
        <= u32::MAX
}

/// The descriptor once file `i`, with a payload of `payload_len` bytes, has
/// been read: the duration of the file is noted, the payloads so far are
/// summed, and the samples and chunks of the next file are numbered after
/// those of this one.
pub open spec fn finish_file(st: DescView, i: int, payload_len: u64) -> Result<
    DescView,
    MergeError,
> {
    if st.mdat_offset + payload_len > u64::MAX || !chunk_counts_fit(st) {
        Err(MergeError::Overflow)
    } else {
        Ok(
            DescView {
                file_durations: noted_duration(st, i),
                mdat_offset: (st.mdat_offset + payload_len) as u64,
                moov_tracks: Seq::new(
                    st.moov_tracks.len(),
                    |t: int|
                        TrackDescView {
                            sample_offset: st.moov_tracks[t].stsz_count,
                            chunk_offset: st.moov_tracks[t].stco.len() as u32,
                            ..st.moov_tracks[t]
                        },
                ),
                ..st
            },
        )
    }
}

/// The descriptor once file `i`, whose bytes are `d`, has been taken in: its
/// payload is found and noted, its boxes are read up to a vendor trailer, and
/// the file is finished.
pub open spec fn scan_file(d: Seq<u8>, i: int, st: DescView) -> Result<DescView, MergeError> {
    match find_mdat(d, 0) {
        Err(e) => Err(e),
        Ok(region) => {
            let w = read_desc_spec(
                d,
                0,
                DescView {
                    mdat_position: st.mdat_position.push((Some(i as usize), region.0, region.1)),
                    mdat_final_position: region.0,
                    ..st
                },
                0,
                read_limit(d),
                i,
            );
            match w.err {
                Some(e) => Err(e),
                None => finish_file(w.desc, i, region.1),
            }
        },
    }
}

/// The descriptor once the first `n` files have been taken in, one after the
/// other.
pub open spec fn scan_files(files: Seq<Seq<u8>>, creation_times: Seq<Option<u64>>, n: nat) -> Result<
    DescView,
    MergeError,
>
    decreases n,
{
    if n == 0 {
        Ok(initial_desc(files.len(), creation_times))
    } else {
        match scan_files(files, creation_times, (n - 1) as nat) {
            Err(e) => Err(e),
            Ok(st) => scan_file(files[n - 1], n - 1, st),
        }
    }
}

/// The output with the chunk offsets of the first `n` tracks written once
/// more, counted from where the merged payload has come to lie. A track whose
/// table was never written has nothing to patch.
pub open spec fn patch_offsets(out: Seq<u8>, st: DescView, n: nat) -> Result<Seq<u8>, MergeError>
    decreases n,
{
    if n == 0 {
        Ok(out)
    } else {
        match patch_offsets(out, st, (n - 1) as nat) {
            Err(e) => Err(e),
            Ok(o) => {
                let t = st.moov_tracks[n - 1];
                if t.co64_final_position == 0 || t.stco.len() == 0 {
                    Ok(o)
                } else if !offsets_fit(t.stco, st.mdat_final_position) {
                    Err(MergeError::Overflow)
                } else if t.co64_final_position + concat_offsets(
                    t.stco,
                    st.mdat_final_position,
                ).len() > o.len() {
                    Err(MergeError::InvariantViolation)
                } else {
                    Ok(
                        splice(
                            o,
                            t.co64_final_position as int,
                            concat_offsets(t.stco, st.mdat_final_position),
                        ),
                    )
                }
            },
        }
    }
}

/// The merged file: the descriptor is built from all files, the timeline pass
/// adds the pauses, the first file is rewritten from the descriptor, and the
/// chunk offsets are patched.
pub open spec fn merged(files: Seq<Seq<u8>>, creation_times: Seq<Option<u64>>) -> Result<
    Seq<u8>,
    MergeError,
> {
    match scan_files(files, creation_times, files.len()) {
        Err(e) => Err(e),
        Ok(st) => match timeline(st) {
            Err(e) => Err(e),
            Ok(timed) => {
                let w = rewrite(
                    files,
                    0,
                    Seq::empty(),
                    timed,
                    0,
                    if files.len() > 0 {
                        read_limit(files[0])
                    } else {
                        u64::MAX
                    },
                    0,
                    0,
                );
                match w.err {
                    Some(e) => Err(e),
                    None => patch_offsets(w.out, w.desc, w.desc.moov_tracks.len()),
                }
            },
        },
    }
}

/// Once a file has failed, the descriptor of more files is the same failure.
pub proof fn lemma_scan_stays_failed(
    files: Seq<Seq<u8>>,
    creation_times: Seq<Option<u64>>,
    k: nat,
    n: nat,
)
    requires
        k <= n,
        scan_files(files, creation_times, k) is Err,
    ensures
        scan_files(files, creation_times, n) == scan_files(files, creation_times, k),
    decreases n,
{
    if k < n {
        lemma_scan_stays_failed(files, creation_times, k, (n - 1) as nat);
    }
}

/// Once a track has failed, patching more tracks is the same failure.
pub proof fn lemma_patch_stays_failed(out: Seq<u8>, st: DescView, k: nat, n: nat)
    requires
        k <= n,
        patch_offsets(out, st, k) is Err,
    ensures
        patch_offsets(out, st, n) == patch_offsets(out, st, k),
    decreases n,
{
    if k < n {
        lemma_patch_stays_failed(out, st, k, (n - 1) as nat);
    }
}

/// Looks for the trailer that Insta360 cameras append to a file, and returns
/// where it begins.
pub fn vendor_trailer_start(d: &[u8]) -> (r: Option<u64>)
    ensures
        r == trailer_start(d@),
{
    let len = input_len(d);
    if len < TRAILER_TAIL {
        return None;
    }
    let at = (len - 32) as usize;
    if read_be_u64(d, at) != 0x3864_6234_3264_3639 || read_be_u64(d, at + 8)
        != 0x3463_6363_3431_3837 || read_be_u64(d, at + 16) != 0x3930_6564_6666_3433
        || read_be_u64(d, at + 24) != 0x3966_6530_3236_6266 {
        return None;
    }
    let trailer = read_le_u32(d, (len - 40) as usize) as u64;
    if trailer > len {
        return None;
    }
    Some(len - trailer)
}

/// Finds the payload of a file: where the body of its first top-level `mdat`
/// box begins, and its length.
pub fn locate_mdat(d: &[u8]) -> (r: Result<(u64, u64), MergeError>)
    ensures
        r == find_mdat(d@, 0),
{
    let len = input_len(d);
    let mut pos: u64 = 0;
    loop
        invariant
            len == d@.len(),
            find_mdat(d@, 0) == find_mdat(d@, pos as int),
        decreases remaining(d@, pos as int),
    {
        let h = match read_box(d, pos) {
            Ok(h) => h,
            Err(_) => {
                return Err(MergeError::InvariantViolation);
            },
        };
        let hs = h.3 as u64;
        if h.2 < hs {
            return Err(MergeError::MalformedBox);
        }
        let end = match pos.checked_add(h.2) {
            Some(e) => e,
            None => {
                return Err(MergeError::MalformedBox);
            },
        };
        if h.0 == MDAT {
            return Ok((pos + hs, h.2 - hs));
        }
        pos = end;
    }
}

/// A row of `n` durations of no length.
fn zeros(n: usize) -> (r: Vec<Seconds>)
    ensures
        r@ == zero_row(n as nat),
{
    let mut r: Vec<Seconds> = Vec::new();
    let mut i: usize = 0;
    while i < n
        invariant
            i <= n,
            r@ == zero_row(i as nat),
        decreases n - i,
    {
        r.push(Seconds::zero());
        i = i + 1;
        assert(r@ =~= zero_row(i as nat));
    }
    r
}

/// The descriptor with which a merge of `files` files begins.
pub fn new_desc(files: usize, creation_times: &[Option<u64>]) -> (r: Desc)
    ensures
        r@ == initial_desc(files as nat, creation_times@),
{
    let mut desc = Desc {
        mdat_position: Vec::new(),
        mvhd_timescale_per_file: Vec::new(),
        moov_mvhd_timescale: 0,
        moov_mvhd_duration: 0,
        moov_tracks: Vec::new(),
        mdat_offset: 0,
        mdat_final_position: 0,
        file_creation_times: slice_to_vec(creation_times),
        file_durations: zeros(files),
        track_file_durations: Vec::new(),
    };
    let mut i: usize = 0;
    while i < TRACK_SLOTS
        invariant
            i <= TRACK_SLOTS,
            desc.moov_tracks@.len() == i,
            desc.track_file_durations@.len() == i,
            forall|j: int| 0 <= j < i ==> (#[trigger] desc.moov_tracks@[j])@ == TrackDescView::empty(),
            forall|j: int|
                0 <= j < i ==> (#[trigger] desc.track_file_durations@[j])@ == zero_row(files as nat),
            desc@ == (DescView {
                moov_tracks: desc@.moov_tracks,
                track_file_durations: desc@.track_file_durations,
                file_creation_times: creation_times@,
                file_durations: zero_row(files as nat),
                ..DescView::empty()
            }),
        decreases TRACK_SLOTS - i,
    {
        desc.moov_tracks.push(TrackDesc::default());
        desc.track_file_durations.push(zeros(files));
        i = i + 1;
    }
    assert(desc@.moov_tracks =~= Seq::new(TRACK_SLOTS as nat, |i: int| TrackDescView::empty()));
    assert(desc@.track_file_durations =~= Seq::new(
        TRACK_SLOTS as nat,
        |i: int| zero_row(files as nat),
    ));
    desc
}

/// Notes how long file `i` plays, sums the payloads, and numbers the samples
/// and chunks of the next file after those of this one. After an error
/// nothing is said of the descriptor.
fn finish_scanned_file(desc: &mut Desc, i: usize, payload_len: u64) -> (r: Result<(), MergeError>)
    ensures
        match finish_file(old(desc)@, i as int, payload_len) {
            Ok(st) => r is Ok && final(desc)@ == st,
            Err(e) => r == Err::<(), MergeError>(e),
        },
{
    let ghost st = desc@;
    let offset = match desc.mdat_offset.checked_add(payload_len) {
        Some(o) => o,
        None => {
            return Err(MergeError::Overflow);
        },
    };
    if desc.moov_mvhd_timescale > 0 && (i >= desc.mvhd_timescale_per_file.len()
        || desc.mvhd_timescale_per_file[i] > 0) && desc.moov_tracks.len() > 0
        && desc.moov_tracks[0].mdhd_timescale > 0 && desc.moov_tracks[0].mdhd_duration > 0 && i
        < desc.file_durations.len() {
        desc.file_durations[i] = Seconds::new(
            desc.moov_tracks[0].mdhd_duration,
            desc.moov_tracks[0].mdhd_timescale,
        );
    }
    desc.mdat_offset = offset;
    assert(desc@.file_durations =~= noted_duration(st, i as int));
    assert(desc@.moov_tracks =~= st.moov_tracks);
    let count = desc.moov_tracks.len();
    let mut t: usize = 0;
    while t < count
        invariant
            t <= count,
            count == st.moov_tracks.len(),
            count == desc.moov_tracks@.len(),
            st == old(desc)@,
            offset == st.mdat_offset + payload_len,
            desc@ == (DescView {
                file_durations: noted_duration(st, i as int),
                mdat_offset: offset,
                moov_tracks: desc@.moov_tracks,
                ..st
            }),
            desc@.moov_tracks.len() == count,
            forall|j: int| 0 <= j < t ==> (#[trigger] st.moov_tracks[j]).stco.len() <= u32::MAX,
            forall|j: int|
                0 <= j < t ==> #[trigger] desc@.moov_tracks[j] == (TrackDescView {
                    sample_offset: st.moov_tracks[j].stsz_count,
                    chunk_offset: st.moov_tracks[j].stco.len() as u32,
                    ..st.moov_tracks[j]
                }),
            forall|j: int| t <= j < count ==> #[trigger] desc@.moov_tracks[j] == st.moov_tracks[j],
        decreases count - t,
    {
        let ghost was = desc@.moov_tracks;
        assert(was[t as int] == st.moov_tracks[t as int]);
        assert(was[t as int] == desc.moov_tracks@[t as int]@);
        let chunks = desc.moov_tracks[t].stco.len();
        if chunks > u32::MAX as usize {
            assert(!chunk_counts_fit(st)) by {
                assert(st.moov_tracks[t as int].stco.len() > u32::MAX);
            }
            return Err(MergeError::Overflow);
        }
        desc.moov_tracks[t].sample_offset = desc.moov_tracks[t].stsz_count;
        desc.moov_tracks[t].chunk_offset = chunks as u32;
        assert(desc@.moov_tracks[t as int] =~= (TrackDescView {
            sample_offset: st.moov_tracks[t as int].stsz_count,
            chunk_offset: st.moov_tracks[t as int].stco.len() as u32,
            ..st.moov_tracks[t as int]
        }));
        assert forall|j: int| 0 <= j < count && j != t implies #[trigger] desc@.moov_tracks[j]
            == was[j] by {}
        assert forall|j: int| 0 <= j < t + 1 implies #[trigger] desc@.moov_tracks[j] == (
        TrackDescView {
            sample_offset: st.moov_tracks[j].stsz_count,
            chunk_offset: st.moov_tracks[j].stco.len() as u32,
            ..st.moov_tracks[j]
        }) by {
            if j < t {
                assert(desc@.moov_tracks[j] == was[j]);
            }
        }
        t = t + 1;
    }
    assert(desc@.moov_tracks =~= finish_file(st, i as int, payload_len)->Ok_0.moov_tracks);
    Ok(())
}

/// Takes input file `i` into the descriptor. After an error nothing is said
/// of the descriptor.
fn scan_one_file(d: &[u8], i: usize, desc: &mut Desc) -> (r: Result<(), MergeError>)
    ensures
        match scan_file(d@, i as int, old(desc)@) {
            Ok(st) => r is Ok && final(desc)@ == st,
            Err(e) => r == Err::<(), MergeError>(e),
        },
{
    let region = locate_mdat(d)?;
    desc.mdat_position.push((Some(i), region.0, region.1));
    desc.mdat_final_position = region.0;
    let limit = match vendor_trailer_start(d) {
        Some(n) => n,
        None => u64::MAX,
    };
    read_desc(d, 0, desc, 0, limit, i)?;
    finish_scanned_file(desc, i, region.1)
}

/// Writes the chunk offsets of every track once more, counted from where the
/// merged payload has come to lie in the output.
pub fn patch_chunk_offsets(out: &mut Vec<u8>, desc: &Desc) -> (r: Result<(), MergeError>)
    ensures
        match patch_offsets(old(out)@, desc@, desc@.moov_tracks.len()) {
            Ok(o) => r is Ok && final(out)@ == o,
            Err(e) => r == Err::<(), MergeError>(e),
        },
{
    let count = desc.moov_tracks.len();
    let base = desc.mdat_final_position;
    let mut t: usize = 0;
    while t < count
        invariant
            t <= count,
            count == desc.moov_tracks.len(),
            count == desc@.moov_tracks.len(),
            base == desc@.mdat_final_position,
            patch_offsets(old(out)@, desc@, t as nat) == Ok::<Seq<u8>, MergeError>(out@),
        decreases count - t,
    {
        let track = &desc.moov_tracks[t];
        assert(track@ == desc@.moov_tracks[t as int]);
        if track.co64_final_position != 0 && track.stco.len() != 0 {
            let mut bytes: Vec<u8> = Vec::new();
            if !emit_offsets(&mut bytes, &track.stco, base) {
                proof {
                    lemma_patch_stays_failed(old(out)@, desc@, (t + 1) as nat, count as nat);
                }
                return Err(MergeError::Overflow);
            }
            assert(bytes@ =~= concat_offsets(track.stco@, base));
            match patch_bytes(out, track.co64_final_position, bytes.as_slice()) {
                Ok(()) => {},
                Err(_) => {
                    proof {
                        lemma_patch_stays_failed(old(out)@, desc@, (t + 1) as nat, count as nat);
                    }
                    return Err(MergeError::InvariantViolation);
                },
            }
        }
        t = t + 1;
    }
    Ok(())
}

/// Merges the input files, whose bytes are `files`, into one file that plays
/// them one after the other, and returns its bytes. `file_metadata` gives,
/// for each input file, when it was created, in nanoseconds since the Unix
/// epoch, where that is known: the pauses between the recordings become empty
/// segments of the edit lists.
pub fn join_file_streams_with_metadata(files: &[Vec<u8>], file_metadata: &[Option<u64>]) -> (r:
    Result<Vec<u8>, MergeError>)
    ensures
        match merged(files_view(files@), file_metadata@) {
            Ok(out) => r is Ok && r->Ok_0@ == out,
            Err(e) => r == Err::<Vec<u8>, MergeError>(e),
        },
{
    let ghost fv = files_view(files@);
    let mut desc = new_desc(files.len(), file_metadata);
    let mut i: usize = 0;
    while i < files.len()
        invariant
            i <= files.len(),
            fv == files_view(files@),
            scan_files(fv, file_metadata@, i as nat) == Ok::<DescView, MergeError>(desc@),
        decreases files.len() - i,
    {
        match scan_one_file(files[i].as_slice(), i, &mut desc) {
            Ok(()) => {},
            Err(e) => {
                proof {
                    lemma_scan_stays_failed(fv, file_metadata@, (i + 1) as nat, files@.len());
                }
                return Err(e);
            },
        }
        i = i + 1;
    }
    compute_gaps_and_edit_lists(&mut desc)?;
    let limit = if files.len() > 0 {
        match vendor_trailer_start(files[0].as_slice()) {
            Some(n) => n,
            None => u64::MAX,
        }
    } else {
        u64::MAX
    };
    let mut out: Vec<u8> = Vec::new();
    rewrite_from_desc(files, 0, &mut out, &mut desc, 0, limit)?;
    patch_chunk_offsets(&mut out, &desc)?;
    Ok(out)
}

/// Merges the input files without regard to when they were created: the
/// output plays them one after the other without a pause.
pub fn join_file_streams(files: &[Vec<u8>]) -> (r: Result<Vec<u8>, MergeError>)
    ensures
        match merged(files_view(files@), Seq::new(files@.len(), |i: int| None::<u64>)) {
            Ok(out) => r is Ok && r->Ok_0@ == out,
            Err(e) => r == Err::<Vec<u8>, MergeError>(e),
        },
{
    let mut empty_metadata: Vec<Option<u64>> = Vec::new();
    let mut i: usize = 0;
    while i < files.len()
        invariant
            i <= files.len(),
            empty_metadata@ == Seq::new(i as nat, |i: int| None::<u64>),
        decreases files.len() - i,
    {
        empty_metadata.push(None);
        i = i + 1;
        assert(empty_metadata@ =~= Seq::new(i as nat, |i: int| None::<u64>));
    }
    join_file_streams_with_metadata(files, empty_metadata.as_slice())
}

/// Once `n` files have been taken in, the descriptor holds their payload
/// regions in the order of the files, each under the number of its file, the
/// creation times as they were given, and room for ten tracks.
pub proof fn lemma_scan_notes_every_payload(
    files: Seq<Seq<u8>>,
    creation_times: Seq<Option<u64>>,
    n: nat,
)
    requires
        n <= files.len(),
        files.len() <= usize::MAX,
    ensures
        scan_files(files, creation_times, n) matches Ok(st) ==> {
            &&& st.mdat_position.len() == n
            &&& forall|i: int| 0 <= i < n ==> (#[trigger] st.mdat_position[i]).0 == Some(i as usize)
            &&& forall|i: int| 0 <= i < n ==> region_is_copied(files, #[trigger] st.mdat_position[i])
            &&& st.file_creation_times == creation_times
            &&& st.moov_tracks.len() == TRACK_SLOTS
        },
    decreases n,
{
    if n > 0 {
        lemma_scan_notes_every_payload(files, creation_times, (n - 1) as nat);
        match scan_files(files, creation_times, (n - 1) as nat) {
            Err(_) => {},
            Ok(st) => {
                let d = files[n - 1];
                match find_mdat(d, 0) {
                    Err(_) => {},
                    Ok(region) => {
                        let noted = DescView {
                            mdat_position: st.mdat_position.push(
                                (Some((n - 1) as usize), region.0, region.1),
                            ),
                            mdat_final_position: region.0,
                            ..st
                        };
                        lemma_walk_frame(
                            d,
                            0,
                            0,
                            DescView {
                                mvhd_timescale_per_file: padded(
                                    noted.mvhd_timescale_per_file,
                                    n - 1,
                                ),
                                ..noted
                            },
                            0,
                            read_limit(d),
                            n - 1,
                        );
                    },
                }
            },
        }
    }
}

/// In a merge, the body of the payload box that is written is as long as the
/// payloads of all input files taken together: wherever the payload box is
/// written from a descriptor that holds the payload regions that taking in the
/// files has noted, it takes sixteen bytes of header and then as many bytes as
/// those regions are long.
pub proof fn lemma_merge_writes_whole_payload(
    files: Seq<Seq<u8>>,
    creation_times: Seq<Option<u64>>,
    st: DescView,
    offs: int,
    size: int,
    out: Seq<u8>,
)
    requires
        files.len() <= usize::MAX,
        scan_files(files, creation_times, files.len()) matches Ok(scanned)
            && scanned.mdat_position == st.mdat_position,
        rewrite_mdat(files, offs, size, out, st).err is None,
    ensures
        rewrite_mdat(files, offs, size, out, st).out.len() == out.len() + 16 + payload_lengths(
            st.mdat_position,
        ),
        st.mdat_position.len() == files.len(),
{
    lemma_scan_notes_every_payload(files, creation_times, files.len());
    lemma_mdat_body_length(files, offs, size, out, st);
}

/// The descriptor with which the boxes of file `i` are read: that of the
/// files before, with the payload region of file `i` noted and room made for
/// its movie timescale.
pub open spec fn before_reading(st: DescView, i: int, region: (u64, u64)) -> DescView {
    DescView {
        mdat_position: st.mdat_position.push((Some(i as usize), region.0, region.1)),
        mdat_final_position: region.0,
        mvhd_timescale_per_file: padded(st.mvhd_timescale_per_file, i),
        ..st
    }
}

/// Whether every table of chunk offsets that the merge reads from file `i`
/// lists chunks that lie within the payload of that file.
pub open spec fn reads_valid_chunks(
    files: Seq<Seq<u8>>,
    creation_times: Seq<Option<u64>>,
    i: int,
) -> bool {
    match scan_files(files, creation_times, i as nat) {
        Err(_) => true,
        Ok(st) => match find_mdat(files[i], 0) {
            Err(_) => true,
            Ok(region) => chunks_within(
                files[i],
                0,
                0,
                before_reading(st, i, region),
                0,
                read_limit(files[i]),
                i,
                region.1,
            ),
        },
    }
}

/// Where every chunk that the input files list lies within the payload of
/// its file, every chunk of the descriptor lies within the merged payload,
/// whose length is the sum of the payload regions.
pub proof fn lemma_scan_keeps_chunks_in_payload(
    files: Seq<Seq<u8>>,
    creation_times: Seq<Option<u64>>,
    n: nat,
)
    requires
        n <= files.len(),
        forall|i: int| 0 <= i < n ==> #[trigger] reads_valid_chunks(files, creation_times, i),
    ensures
        scan_files(files, creation_times, n) matches Ok(st) ==> offsets_below(
            st,
            st.mdat_offset as int,
        ) && st.mdat_offset == payload_lengths(st.mdat_position),
    decreases n,
{
    if n > 0 {
        lemma_scan_keeps_chunks_in_payload(files, creation_times, (n - 1) as nat);
        match scan_files(files, creation_times, (n - 1) as nat) {
            Err(_) => {},
            Ok(st) => {
                let d = files[n - 1];
                match find_mdat(d, 0) {
                    Err(_) => {},
                    Ok(region) => {
                        let ready = before_reading(st, n - 1, region);
                        let w = walk(d, 0, 0, ready, 0, read_limit(d), n - 1);
                        assert(w == read_desc_spec(
                            d,
                            0,
                            DescView {
                                mdat_position: st.mdat_position.push(
                                    (Some((n - 1) as usize), region.0, region.1),
                                ),
                                mdat_final_position: region.0,
                                ..st
                            },
                            0,
                            read_limit(d),
                            n - 1,
                        ));
                        lemma_walk_frame(d, 0, 0, ready, 0, read_limit(d), n - 1);
                        if w.err is None && finish_file(w.desc, n - 1, region.1) is Ok {
                            assert(reads_valid_chunks(files, creation_times, n - 1));
                            assert(offsets_below(ready, st.mdat_offset + region.1)) by {
                                assert forall|t: int, j: int|
                                    #![trigger ready.moov_tracks[t].stco[j]]
                                    0 <= t < ready.moov_tracks.len() && 0 <= j
                                        < ready.moov_tracks[t].stco.len() implies ready.moov_tracks[t].stco[j]
                                    < st.mdat_offset + region.1 by {
                                    assert(st.moov_tracks[t].stco[j] < st.mdat_offset);
                                }
                            }
                            lemma_walk_keeps_offsets_below(
                                d,
                                0,
                                0,
                                ready,
                                0,
                                read_limit(d),
                                n - 1,
                                region.1,
                            );
                            let after = finish_file(w.desc, n - 1, region.1)->Ok_0;
                            assert forall|t: int, j: int|
                                #![trigger after.moov_tracks[t].stco[j]]
                                0 <= t < after.moov_tracks.len() && 0 <= j
                                    < after.moov_tracks[t].stco.len() implies after.moov_tracks[t].stco[j]
                                < after.mdat_offset by {
                                assert(w.desc.moov_tracks[t].stco[j] < st.mdat_offset + region.1);
                            }
                            assert(after.mdat_position.drop_last() =~= st.mdat_position);
                        }
                    },
                }
            },
        }
    }
}

/// The descriptor has room for ten tracks however many files are taken in.
pub proof fn lemma_scan_tracks(files: Seq<Seq<u8>>, creation_times: Seq<Option<u64>>, n: nat)
    ensures
        scan_files(files, creation_times, n) matches Ok(st) ==> st.moov_tracks.len() == TRACK_SLOTS,
    decreases n,
{
    if n > 0 {
        lemma_scan_tracks(files, creation_times, (n - 1) as nat);
        match scan_files(files, creation_times, (n - 1) as nat) {
            Err(_) => {},
            Ok(st) => {
                let d = files[n - 1];
                match find_mdat(d, 0) {
                    Err(_) => {},
                    Ok(region) => {
                        lemma_walk_frame(
                            d,
                            0,
                            0,
                            before_reading(st, n - 1, region),
                            0,
                            read_limit(d),
                            n - 1,
                        );
                    },
                }
            },
        }
    }
}

/// In a merge of files whose chunks lie within their payloads, every chunk
/// offset that is written points into the merged payload: counted from `base`,
/// where the merged payload begins in the output, entry `i` of the table of
/// any track lies at or after `base` and before the end of the payload, which
/// is as long as the payloads of all files together.
pub proof fn lemma_merged_offsets_in_payload(
    files: Seq<Seq<u8>>,
    creation_times: Seq<Option<u64>>,
    t: int,
    i: int,
    base: u64,
)
    requires
        forall|k: int|
            0 <= k < files.len() ==> #[trigger] reads_valid_chunks(files, creation_times, k),
        scan_files(files, creation_times, files.len()) matches Ok(st) && timeline(st) is Ok,
        0 <= t < TRACK_SLOTS,
        0 <= i < timeline(
            scan_files(files, creation_times, files.len())->Ok_0,
        )->Ok_0.moov_tracks[t].stco.len(),
        offsets_fit(
            timeline(scan_files(files, creation_times, files.len())->Ok_0)->Ok_0.moov_tracks[t].stco,
            base,
        ),
    ensures
        ({
            let timed = timeline(scan_files(files, creation_times, files.len())->Ok_0)->Ok_0;
            base <= be_u64(concat_offsets(timed.moov_tracks[t].stco, base), 8 * i) < base
                + payload_lengths(timed.mdat_position)
        }),
{
    let st = scan_files(files, creation_times, files.len())->Ok_0;
    let timed = timeline(st)->Ok_0;
    lemma_scan_keeps_chunks_in_payload(files, creation_times, files.len());
    lemma_scan_tracks(files, creation_times, files.len());
    assert(timed.mdat_position == st.mdat_position);
    assert(timed.moov_tracks[t].stco == st.moov_tracks[t].stco) by {
        if has_any_time(st) && has_any_gap(st) && !st.moov_tracks[t].skip {
            assert(retimed_track(st, t) is Some);
        }
    }
    assert forall|j: int| 0 <= j < st.moov_tracks[t].stco.len() implies st.moov_tracks[t].stco[j]
        < st.mdat_offset by {}
    lemma_written_offsets_in_payload(st.moov_tracks[t].stco, base, st.mdat_offset as int, i);
}

/// Taking in one file, such as the output of a merge, notes exactly one
/// payload region, under the number 0.
pub proof fn lemma_one_file_one_payload(file: Seq<u8>, creation_times: Seq<Option<u64>>)
    ensures
        scan_files(seq![file], creation_times, 1) matches Ok(st) ==> st.mdat_position.len() == 1
            && st.mdat_position[0].0 == Some(0usize),
{
    lemma_scan_notes_every_payload(seq![file], creation_times, 1);
}

} // verus!
