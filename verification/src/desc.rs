//! The descriptor of a merge: what is known of the movie and of each track.

use crate::error::MergeError;
use vstd::prelude::*;

verus! {

/// The media rate 1.0 as a 16.16 fixed-point number.
pub const NORMAL_RATE: u32 = 0x0001_0000;

/// One entry of an edit list. `media_time == -1` marks an empty segment: a gap
/// on the movie timeline during which nothing plays.
#[derive(Clone, Copy, Debug, PartialEq, Eq, Structural)]
pub struct EditListEntry {
    /// Length of the segment, in units of the movie timescale.
    pub segment_duration: u64,
    /// Start of the segment within the media, in units of the media
    /// timescale, or -1.
    pub media_time: i64,
    pub media_rate: u32,
}

impl Default for EditListEntry {
    fn default() -> (r: Self)
        ensures
            r == (EditListEntry { segment_duration: 0, media_time: 0, media_rate: NORMAL_RATE }),
    {
        EditListEntry { segment_duration: 0, media_time: 0, media_rate: NORMAL_RATE }
    }
}

/// A span of time as the exact fraction `num / den` of a second. A value with
/// `den == 0` stands for no time at all. Fractions are not reduced, so two
/// values that name the same span can differ.
#[derive(Clone, Copy, Debug, PartialEq, Eq, Structural)]
pub struct Seconds {
    pub num: u64,
    pub den: u32,
}

impl Seconds {
    /// Whether the span is longer than nothing.
    pub open spec fn positive(self) -> bool {
        self.num > 0 && self.den > 0
    }

    pub fn new(num: u64, den: u32) -> (r: Self)
        ensures
            r == (Seconds { num, den }),
    {
        Seconds { num, den }
    }

    pub fn zero() -> (r: Self)
        ensures
            r == (Seconds { num: 0, den: 1 }),
    {
        Seconds { num: 0, den: 1 }
    }

    pub fn is_positive(&self) -> (r: bool)
        ensures
            r == self.positive(),
    {
        self.num > 0 && self.den > 0
    }
}

impl Default for Seconds {
    fn default() -> (r: Self)
        ensures
            r == (Seconds { num: 0, den: 1 }),
    {
        Seconds { num: 0, den: 1 }
    }
}

/// What the merge knows of one track, over all the input files read so far.
#[derive(Clone, Debug)]
pub struct TrackDesc {
    pub tkhd_duration: u64,
    pub elst_segment_duration: u64,
    pub mdhd_timescale: u32,
    pub mdhd_duration: u64,
    /// Time-to-sample runs: (sample count, sample delta).
    pub stts: Vec<(u32, u32)>,
    pub stsz: Vec<u32>,
    /// Chunk offsets, counted from the start of the merged payload.
    pub stco: Vec<u64>,
    pub stss: Vec<u32>,
    pub sdtp: Vec<u8>,
    pub sample_offset: u32,
    pub chunk_offset: u32,
    pub stsz_sample_size: u32,
    pub stsz_count: u32,
    /// Sample-to-chunk runs: (first chunk, samples per chunk, sample
    /// description index).
    pub stsc: Vec<(u32, u32, u32)>,
    /// Where in the output the chunk-offset entries of this track begin.
    pub co64_final_position: u64,
    /// Set for a track that is not continued by later files, such as a
    /// timecode track.
    pub skip: bool,
    pub elst_entries: Vec<EditListEntry>,
    pub handler_type: String,
}

#[verifier::ext_equal]
pub struct TrackDescView {
    pub tkhd_duration: u64,
    pub elst_segment_duration: u64,
    pub mdhd_timescale: u32,
    pub mdhd_duration: u64,
    pub stts: Seq<(u32, u32)>,
    pub stsz: Seq<u32>,
    pub stco: Seq<u64>,
    pub stss: Seq<u32>,
    pub sdtp: Seq<u8>,
    pub sample_offset: u32,
    pub chunk_offset: u32,
    pub stsz_sample_size: u32,
    pub stsz_count: u32,
    pub stsc: Seq<(u32, u32, u32)>,
    pub co64_final_position: u64,
    pub skip: bool,
    pub elst_entries: Seq<EditListEntry>,
    pub handler_type: Seq<char>,
}

impl View for TrackDesc {
    type V = TrackDescView;

    open spec fn view(&self) -> TrackDescView {
        TrackDescView {
            tkhd_duration: self.tkhd_duration,
            elst_segment_duration: self.elst_segment_duration,
            mdhd_timescale: self.mdhd_timescale,
            mdhd_duration: self.mdhd_duration,
            stts: self.stts@,
            stsz: self.stsz@,
            stco: self.stco@,
            stss: self.stss@,
            sdtp: self.sdtp@,
            sample_offset: self.sample_offset,
            chunk_offset: self.chunk_offset,
            stsz_sample_size: self.stsz_sample_size,
            stsz_count: self.stsz_count,
            stsc: self.stsc@,
            co64_final_position: self.co64_final_position,
            skip: self.skip,
            elst_entries: self.elst_entries@,
            handler_type: self.handler_type@,
        }
    }
}

impl TrackDescView {
    /// The track of which nothing is known yet.
    pub open spec fn empty() -> TrackDescView {
        TrackDescView {
            tkhd_duration: 0,
            elst_segment_duration: 0,
            mdhd_timescale: 0,
            mdhd_duration: 0,
            stts: Seq::empty(),
            stsz: Seq::empty(),
            stco: Seq::empty(),
            stss: Seq::empty(),
            sdtp: Seq::empty(),
            sample_offset: 0,
            chunk_offset: 0,
            stsz_sample_size: 0,
            stsz_count: 0,
            stsc: Seq::empty(),
            co64_final_position: 0,
            skip: false,
            elst_entries: Seq::empty(),
            handler_type: Seq::empty(),
        }
    }
}

impl Default for TrackDesc {
    fn default() -> (r: Self)
        ensures
            r@ == TrackDescView::empty(),
    {
        TrackDesc {
            tkhd_duration: 0,
            elst_segment_duration: 0,
            mdhd_timescale: 0,
            mdhd_duration: 0,
            stts: Vec::new(),
            stsz: Vec::new(),
            stco: Vec::new(),
            stss: Vec::new(),
            sdtp: Vec::new(),
            sample_offset: 0,
            chunk_offset: 0,
            stsz_sample_size: 0,
            stsz_count: 0,
            stsc: Vec::new(),
            co64_final_position: 0,
            skip: false,
            elst_entries: Vec::new(),
            handler_type: String::new(),
        }
    }
}

/// The state of one merge: what the input files hold, and what the output is
/// to hold.
#[derive(Clone, Debug)]
pub struct Desc {
    /// The payload of each input file: the index of the file, the position
    /// of the payload in it, and its length.
    pub mdat_position: Vec<(Option<usize>, u64, u64)>,
    /// The movie timescale of each input file.
    pub mvhd_timescale_per_file: Vec<u32>,
    /// The movie timescale of the output: the first one seen that is not 0.
    pub moov_mvhd_timescale: u32,
    pub moov_mvhd_duration: u64,
    pub moov_tracks: Vec<TrackDesc>,
    /// The summed length of the payloads of the files before the current one.
    pub mdat_offset: u64,
    /// Where in the output the merged payload begins.
    pub mdat_final_position: u64,
    /// When each input file was created, in nanoseconds since the Unix
    /// epoch, where that is known.
    pub file_creation_times: Vec<Option<u64>>,
    /// How long each input file plays, taken from the first track.
    pub file_durations: Vec<Seconds>,
    /// How long each track plays in each file: `[track][file]`.
    pub track_file_durations: Vec<Vec<Seconds>>,
}

#[verifier::ext_equal]
pub struct DescView {
    pub mdat_position: Seq<(Option<usize>, u64, u64)>,
    pub mvhd_timescale_per_file: Seq<u32>,
    pub moov_mvhd_timescale: u32,
    pub moov_mvhd_duration: u64,
    pub moov_tracks: Seq<TrackDescView>,
    pub mdat_offset: u64,
    pub mdat_final_position: u64,
    pub file_creation_times: Seq<Option<u64>>,
    pub file_durations: Seq<Seconds>,
    pub track_file_durations: Seq<Seq<Seconds>>,
}

impl View for Desc {
    type V = DescView;

    open spec fn view(&self) -> DescView {
        DescView {
            mdat_position: self.mdat_position@,
            mvhd_timescale_per_file: self.mvhd_timescale_per_file@,
            moov_mvhd_timescale: self.moov_mvhd_timescale,
            moov_mvhd_duration: self.moov_mvhd_duration,
            moov_tracks: self.moov_tracks@.map_values(|t: TrackDesc| t@),
            mdat_offset: self.mdat_offset,
            mdat_final_position: self.mdat_final_position,
            file_creation_times: self.file_creation_times@,
            file_durations: self.file_durations@,
            track_file_durations: self.track_file_durations@.map_values(|v: Vec<Seconds>| v@),
        }
    }
}

impl DescView {
    /// The descriptor of a merge that has read nothing.
    pub open spec fn empty() -> DescView {
        DescView {
            mdat_position: Seq::empty(),
            mvhd_timescale_per_file: Seq::empty(),
            moov_mvhd_timescale: 0,
            moov_mvhd_duration: 0,
            moov_tracks: Seq::empty(),
            mdat_offset: 0,
            mdat_final_position: 0,
            file_creation_times: Seq::empty(),
            file_durations: Seq::empty(),
            track_file_durations: Seq::empty(),
        }
    }

    /// This descriptor with `t` in place of track `i`.
    pub open spec fn with_track(self, i: int, t: TrackDescView) -> DescView {
        DescView { moov_tracks: self.moov_tracks.update(i, t), ..self }
    }
}

impl Default for Desc {
    fn default() -> (r: Self)
        ensures
            r@ == DescView::empty(),
    {
        Desc {
            mdat_position: Vec::new(),
            mvhd_timescale_per_file: Vec::new(),
            moov_mvhd_timescale: 0,
            moov_mvhd_duration: 0,
            moov_tracks: Vec::new(),
            mdat_offset: 0,
            mdat_final_position: 0,
            file_creation_times: Vec::new(),
            file_durations: Vec::new(),
            track_file_durations: Vec::new(),
        }
    }
}

/// The result and the descriptor after a step that was to do `expected`: on
/// success the descriptor is the expected one, on failure it is as before.
pub open spec fn desc_lands(
    r: Result<(), MergeError>,
    before: DescView,
    after: DescView,
    expected: Result<DescView, MergeError>,
) -> bool {
    match expected {
        Ok(st) => r is Ok && after =~= st,
        Err(e) => r == Err::<(), MergeError>(e) && after =~= before,
    }
}

/// The result and the track after a step that was to do `expected`: on
/// success the track is the expected one, on failure it is as before.
pub open spec fn track_lands(
    r: Result<(), MergeError>,
    before: TrackDescView,
    after: TrackDescView,
    expected: Result<TrackDescView, MergeError>,
) -> bool {
    match expected {
        Ok(t) => r is Ok && after =~= t,
        Err(e) => r == Err::<(), MergeError>(e) && after =~= before,
    }
}

} // verus!
