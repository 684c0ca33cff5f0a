//! The metadata track of GoPro cameras: finding it, and putting its position
//! fixes on one timeline.

use crate::boxes::{box_header, has_children, is_container, read_box, HDLR, MOOV, STSD, TRAK};
use crate::bytes::{be_u32, can_read, input_len, read_be_u32, readable};
use crate::desc_reader::remaining;
use crate::error::MergeError;
use vstd::prelude::*;

verus! {

/// The handler type of a metadata track: `meta`.
pub const META: u32 = 0x6d65_7461;

/// The sample description of GoPro metadata: `gpmd`.
pub const GPMD: u32 = 0x6770_6d64;

/// Where a scan for metadata has come to: what it found, the position in the
/// input, and the error that ended it, if one did.
pub struct Scan {
    pub found: bool,
    pub pos: int,
    pub err: Option<MergeError>,
}

/// The scan that ended at `pos` with the answer `found`.
pub open spec fn scanned(found: bool, pos: int) -> Scan {
    Scan { found, pos, err: None }
}

/// The scan that failed with `e`.
pub open spec fn scan_failed(pos: int, e: MergeError) -> Scan {
    Scan { found: false, pos, err: Some(e) }
}

/// Whether a box header says a size that the scan can step over.
pub open spec fn steppable(h: (u32, u64, u64, i64), pos: int) -> bool {
    h.2 >= h.3 && pos + h.2 <= u64::MAX
}

/// Goes through up to `left` sample descriptions from `pos` on, within the
/// `max_size` bytes that began at `start`, and finds whether one of them is of
/// type `gpmd`.
pub open spec fn stsd_entries(d: Seq<u8>, pos: int, start: int, max_size: u64, left: nat) -> Scan
    decreases left,
{
    if left == 0 || pos - start >= max_size {
        scanned(false, pos)
    } else {
        match box_header(d, pos) {
            None => scanned(false, pos),
            Some(h) => if h.0 == GPMD {
                scanned(true, pos + h.3)
            } else if !steppable(h, pos) {
                scan_failed(pos, MergeError::MalformedBox)
            } else {
                stsd_entries(d, pos + h.2, start, max_size, (left - 1) as nat)
            },
        }
    }
}

/// Whether the sample-description box whose body starts at `body` and is
/// `max_size` bytes long describes GoPro metadata.
pub open spec fn check_stsd(d: Seq<u8>, body: int, max_size: u64) -> Scan {
    if !readable(d, body, 8) {
        scan_failed(body, MergeError::UnexpectedEof)
    } else {
        stsd_entries(d, body + 8, body, max_size, be_u32(d, body + 4) as nat)
    }
}

/// Goes through the boxes of a track from `pos` on, within the `max_size`
/// bytes that began at `start`, and finds whether the track holds GoPro
/// metadata: whether, among the boxes of one level, a handler box says `meta`
/// and a later sample-description box describes `gpmd`. `is_meta` and
/// `has_samples` say what the level has shown so far. Boxes with children are
/// gone through as levels of their own.
pub open spec fn track_scan(
    d: Seq<u8>,
    pos: int,
    start: int,
    max_size: u64,
    is_meta: bool,
    has_samples: bool,
) -> Scan
    decreases remaining(d, pos),
{
    if pos - start >= max_size {
        scanned(is_meta && has_samples, pos)
    } else {
        match box_header(d, pos) {
            None => scanned(is_meta && has_samples, pos),
            Some(h) => {
                let typ = h.0;
                let size = h.2;
                let hs = h.3;
                if size == 0 || typ == 0 {
                    scanned(is_meta && has_samples, pos + hs)
                } else if !steppable(h, pos) {
                    scan_failed(pos, MergeError::MalformedBox)
                } else if typ == HDLR {
                    if !readable(d, pos + hs, 12) {
                        scan_failed(pos, MergeError::UnexpectedEof)
                    } else {
                        track_scan(
                            d,
                            pos + size,
                            start,
                            max_size,
                            is_meta || be_u32(d, pos + hs + 8) == META,
                            has_samples,
                        )
                    }
                } else if typ == STSD && is_meta {
                    let s = check_stsd(d, pos + hs, (size - hs) as u64);
                    if s.err is Some || s.pos <= pos {
                        s
                    } else {
                        track_scan(d, s.pos, start, max_size, is_meta, s.found)
                    }
                } else if is_container(typ, true) {
                    let inner = track_scan(d, pos + hs, pos + hs, (size - hs) as u64, false, false);
                    if inner.err is Some || inner.found || inner.pos <= pos {
                        inner
                    } else {
                        track_scan(d, inner.pos, start, max_size, is_meta, has_samples)
                    }
                } else {
                    track_scan(d, pos + size, start, max_size, is_meta, has_samples)
                }
            },
        }
    }
}

/// Goes through the boxes of a movie box from `pos` on, within the `max_size`
/// bytes that began at `start`, and finds whether any track holds GoPro
/// metadata. `found` says whether one before `pos` did.
pub open spec fn moov_scan(d: Seq<u8>, pos: int, start: int, max_size: u64, found: bool) -> Scan
    decreases remaining(d, pos),
{
    if pos - start >= max_size {
        scanned(found, pos)
    } else {
        match box_header(d, pos) {
            None => scanned(found, pos),
            Some(h) => {
                let size = h.2;
                let hs = h.3;
                if size == 0 || h.0 == 0 {
                    scanned(found, pos + hs)
                } else if !steppable(h, pos) {
                    scan_failed(pos, MergeError::MalformedBox)
                } else if h.0 == TRAK {
                    let t = track_scan(d, pos + hs, pos + hs, (size - hs) as u64, false, false);
                    if t.err is Some || t.pos <= pos {
                        t
                    } else {
                        moov_scan(d, t.pos, start, max_size, found || t.found)
                    }
                } else {
                    moov_scan(d, pos + size, start, max_size, found)
                }
            },
        }
    }
}

/// Goes through the top-level boxes of a file from `pos` on and, in the first
/// movie box, finds whether any track holds GoPro metadata.
pub open spec fn file_scan(d: Seq<u8>, pos: int) -> Scan
    decreases remaining(d, pos),
{
    match box_header(d, pos) {
        None => scanned(false, pos),
        Some(h) => if h.2 == 0 || h.0 == 0 {
            scanned(false, pos + h.3)
        } else if !steppable(h, pos) {
            scan_failed(pos, MergeError::MalformedBox)
        } else if h.0 == MOOV {
            moov_scan(d, pos + h.3, pos + h.3, (h.2 - h.3) as u64, false)
        } else {
            file_scan(d, pos + h.2)
        },
    }
}

/// What a scan answers.
pub open spec fn scan_result(s: Scan) -> Result<bool, MergeError> {
    match s.err {
        None => Ok(s.found),
        Some(e) => Err(e),
    }
}

/// A scan of sample descriptions that ends without an error ends at or after
/// the position where it began.
pub proof fn lemma_stsd_entries_advance(d: Seq<u8>, pos: int, start: int, max_size: u64, left: nat)
    requires
        0 <= pos <= u64::MAX,
        d.len() <= u64::MAX,
    ensures
        stsd_entries(d, pos, start, max_size, left).err is None ==> pos <= stsd_entries(
            d,
            pos,
            start,
            max_size,
            left,
        ).pos <= u64::MAX,
    decreases left,
{
    if left == 0 || pos - start >= max_size {
    } else {
        match box_header(d, pos) {
            None => {},
            Some(h) => if h.0 == GPMD {
            } else if !steppable(h, pos) {
            } else {
                lemma_stsd_entries_advance(d, pos + h.2, start, max_size, (left - 1) as nat);
            },
        }
    }
}

/// A scan of a track that ends without an error ends at or after the position
/// where it began.
pub proof fn lemma_track_scan_advances(
    d: Seq<u8>,
    pos: int,
    start: int,
    max_size: u64,
    is_meta: bool,
    has_samples: bool,
)
    requires
        0 <= pos <= u64::MAX,
        d.len() <= u64::MAX,
    ensures
        track_scan(d, pos, start, max_size, is_meta, has_samples).err is None ==> pos
            <= track_scan(d, pos, start, max_size, is_meta, has_samples).pos <= u64::MAX,
    decreases remaining(d, pos),
{
    if pos - start >= max_size {
    } else {
        match box_header(d, pos) {
            None => {},
            Some(h) => {
                let typ = h.0;
                let size = h.2;
                let hs = h.3;
                if size == 0 || typ == 0 {
                } else if !steppable(h, pos) {
                } else if typ == HDLR {
                    if readable(d, pos + hs, 12) {
                        lemma_track_scan_advances(
                            d,
                            pos + size,
                            start,
                            max_size,
                            is_meta || be_u32(d, pos + hs + 8) == META,
                            has_samples,
                        );
                    }
                } else if typ == STSD && is_meta {
                    let s = check_stsd(d, pos + hs, (size - hs) as u64);
                    if readable(d, pos + hs, 8) {
                        lemma_stsd_entries_advance(
                            d,
                            pos + hs + 8,
                            pos + hs,
                            (size - hs) as u64,
                            be_u32(d, pos + hs + 4) as nat,
                        );
                    }
                    if s.err is Some || s.pos <= pos {
                    } else {
                        lemma_track_scan_advances(d, s.pos, start, max_size, is_meta, s.found);
                    }
                } else if is_container(typ, true) {
                    lemma_track_scan_advances(
                        d,
                        pos + hs,
                        pos + hs,
                        (size - hs) as u64,
                        false,
                        false,
                    );
                    let inner = track_scan(d, pos + hs, pos + hs, (size - hs) as u64, false, false);
                    if inner.err is Some || inner.found || inner.pos <= pos {
                    } else {
                        lemma_track_scan_advances(
                            d,
                            inner.pos,
                            start,
                            max_size,
                            is_meta,
                            has_samples,
                        );
                    }
                } else {
                    lemma_track_scan_advances(
                        d,
                        pos + size,
                        start,
                        max_size,
                        is_meta,
                        has_samples,
                    );
                }
            },
        }
    }
}

/// Whether the sample-description box whose body starts at `body` describes
/// GoPro metadata, and where the scan ended.
fn check_stsd_for_gpmf(d: &[u8], body: u64, max_size: u64) -> (r: Result<(bool, u64), MergeError>)
    ensures
        ({
            let s = check_stsd(d@, body as int, max_size);
            match s.err {
                None => r is Ok && r->Ok_0 == (s.found, s.pos as u64) && s.pos == r->Ok_0.1,
                Some(e) => r == Err::<(bool, u64), MergeError>(e),
            }
        }),
{
    if !can_read(d, body, 8) {
        return Err(MergeError::UnexpectedEof);
    }
    let len = input_len(d);
    let entry_count = read_be_u32(d, (body + 4) as usize);
    let mut pos = body + 8;
    let mut left = entry_count;
    while left > 0
        invariant
            body <= pos,
            len == d@.len(),
            check_stsd(d@, body as int, max_size) == stsd_entries(
                d@,
                pos as int,
                body as int,
                max_size,
                left as nat,
            ),
        decreases left,
    {
        if pos - body >= max_size {
            return Ok((false, pos));
        }
        let h = match read_box(d, pos) {
            Ok(h) => h,
            Err(_) => {
                return Ok((false, pos));
            },
        };
        let hs = h.3 as u64;
        if h.0 == GPMD {
            return Ok((true, pos + hs));
        }
        if h.2 < hs {
            return Err(MergeError::MalformedBox);
        }
        pos = match pos.checked_add(h.2) {
            Some(p) => p,
            None => {
                return Err(MergeError::MalformedBox);
            },
        };
        left = left - 1;
    }
    Ok((false, pos))
}

/// Whether the boxes of a track from `pos` on show GoPro metadata, and where
/// the scan ended.
fn is_gpmf_metadata_track(d: &[u8], pos: u64, max_size: u64) -> (r: Result<(bool, u64), MergeError>)
    ensures
        ({
            let s = track_scan(d@, pos as int, pos as int, max_size, false, false);
            match s.err {
                None => r is Ok && r->Ok_0 == (s.found, s.pos as u64) && s.pos == r->Ok_0.1,
                Some(e) => r == Err::<(bool, u64), MergeError>(e),
            }
        }),
    decreases remaining(d@, pos as int),
{
    let len = input_len(d);
    let mut cur = pos;
    let mut is_metadata_track = false;
    let mut has_gpmf_samples = false;
    loop
        invariant
            pos <= cur,
            len == d@.len(),
            track_scan(d@, pos as int, pos as int, max_size, false, false) == track_scan(
                d@,
                cur as int,
                pos as int,
                max_size,
                is_metadata_track,
                has_gpmf_samples,
            ),
        decreases remaining(d@, cur as int),
    {
        if cur - pos >= max_size {
            return Ok((is_metadata_track && has_gpmf_samples, cur));
        }
        let h = match read_box(d, cur) {
            Ok(h) => h,
            Err(_) => {
                return Ok((is_metadata_track && has_gpmf_samples, cur));
            },
        };
        let typ = h.0;
        let size = h.2;
        let hs = h.3 as u64;
        if size == 0 || typ == 0 {
            return Ok((is_metadata_track && has_gpmf_samples, cur + hs));
        }
        if size < hs {
            return Err(MergeError::MalformedBox);
        }
        let end = match cur.checked_add(size) {
            Some(e) => e,
            None => {
                return Err(MergeError::MalformedBox);
            },
        };
        let body = cur + hs;
        if typ == HDLR {
            if !can_read(d, body, 12) {
                return Err(MergeError::UnexpectedEof);
            }
            if read_be_u32(d, (body + 8) as usize) == META {
                is_metadata_track = true;
            }
            cur = end;
        } else if typ == STSD && is_metadata_track {
            proof {
                if readable(d@, body as int, 8) {
                    lemma_stsd_entries_advance(
                        d@,
                        body + 8,
                        body as int,
                        (size - hs) as u64,
                        be_u32(d@, body + 4) as nat,
                    );
                }
            }
            let s = check_stsd_for_gpmf(d, body, size - hs)?;
            has_gpmf_samples = s.0;
            cur = s.1;
        } else if has_children(typ, true) {
            proof {
                lemma_track_scan_advances(
                    d@,
                    body as int,
                    body as int,
                    (size - hs) as u64,
                    false,
                    false,
                );
            }
            let inner = is_gpmf_metadata_track(d, body, size - hs)?;
            if inner.0 {
                return Ok((true, inner.1));
            }
            cur = inner.1;
        } else {
            cur = end;
        }
    }
}

/// Whether any track of the movie box whose body starts at `pos` holds GoPro
/// metadata.
fn scan_moov_for_gpmf_tracks(d: &[u8], pos: u64, max_size: u64) -> (r: Result<bool, MergeError>)
    ensures
        r == scan_result(moov_scan(d@, pos as int, pos as int, max_size, false)),
{
    let len = input_len(d);
    let mut cur = pos;
    let mut found_gpmf = false;
    loop
        invariant
            pos <= cur,
            len == d@.len(),
            moov_scan(d@, pos as int, pos as int, max_size, false) == moov_scan(
                d@,
                cur as int,
                pos as int,
                max_size,
                found_gpmf,
            ),
        decreases remaining(d@, cur as int),
    {
        if cur - pos >= max_size {
            return Ok(found_gpmf);
        }
        let h = match read_box(d, cur) {
            Ok(h) => h,
            Err(_) => {
                return Ok(found_gpmf);
            },
        };
        let size = h.2;
        let hs = h.3 as u64;
        if size == 0 || h.0 == 0 {
            return Ok(found_gpmf);
        }
        if size < hs {
            return Err(MergeError::MalformedBox);
        }
        let end = match cur.checked_add(size) {
            Some(e) => e,
            None => {
                return Err(MergeError::MalformedBox);
            },
        };
        if h.0 == TRAK {
            proof {
                lemma_track_scan_advances(
                    d@,
                    cur + hs,
                    cur + hs,
                    (size - hs) as u64,
                    false,
                    false,
                );
            }
            let t = is_gpmf_metadata_track(d, cur + hs, size - hs)?;
            if t.0 {
                found_gpmf = true;
            }
            cur = t.1;
        } else {
            cur = end;
        }
    }
}

/// Whether any track of the first movie box of the file holds GoPro metadata.
fn scan_for_gpmf_tracks(d: &[u8]) -> (r: Result<bool, MergeError>)
    ensures
        r == scan_result(file_scan(d@, 0)),
{
    let len = input_len(d);
    let mut cur: u64 = 0;
    loop
        invariant
            len == d@.len(),
            file_scan(d@, 0) == file_scan(d@, cur as int),
        decreases remaining(d@, cur as int),
    {
        let h = match read_box(d, cur) {
            Ok(h) => h,
            Err(_) => {
                return Ok(false);
            },
        };
        let size = h.2;
        let hs = h.3 as u64;
        if size == 0 || h.0 == 0 {
            return Ok(false);
        }
        if size < hs {
            return Err(MergeError::MalformedBox);
        }
        let end = match cur.checked_add(size) {
            Some(e) => e,
            None => {
                return Err(MergeError::MalformedBox);
            },
        };
        if h.0 == MOOV {
            return scan_moov_for_gpmf_tracks(d, cur + hs, size - hs);
        }
        cur = end;
    }
}

/// The answers for the first `n` files, or the error of the first file whose
/// scan failed.
pub open spec fn detected(files: Seq<Seq<u8>>, n: nat) -> Result<Seq<bool>, MergeError>
    decreases n,
{
    if n == 0 {
        Ok(Seq::empty())
    } else {
        match detected(files, (n - 1) as nat) {
            Err(e) => Err(e),
            Ok(flags) => match scan_result(file_scan(files[n - 1], 0)) {
                Err(e) => Err(e),
                Ok(flag) => Ok(flags.push(flag)),
            },
        }
    }
}

/// The scan over more files fails where that over fewer did.
pub proof fn lemma_detected_stays_failed(files: Seq<Seq<u8>>, k: nat, n: nat)
    requires
        k <= n,
        detected(files, k) is Err,
    ensures
        detected(files, n) == detected(files, k),
    decreases n,
{
    if k < n {
        lemma_detected_stays_failed(files, k, (n - 1) as nat);
    }
}

/// One position fix of the GPS stream of a GoPro camera, in the units of that
/// stream.
#[derive(Clone, Copy, Debug, PartialEq, Eq, Structural)]
pub struct GpmfGpsSample {
    /// Time of the fix in microseconds, counted from the start of its file
    /// or, once merged, of the first file.
    pub timestamp_us: u64,
    /// Latitude in units of 1e-7 degrees.
    pub latitude: i32,
    /// Longitude in units of 1e-7 degrees.
    pub longitude: i32,
    /// Altitude in millimetres.
    pub altitude: i32,
    /// Speed over ground in millimetres per second.
    pub speed_2d: i32,
    /// Speed in space in centimetres per second.
    pub speed_3d: i32,
}

/// The position fixes of one input file.
#[derive(Clone, Debug)]
pub struct GpmfTrackData {
    pub samples: Vec<GpmfGpsSample>,
    /// How long the file plays, in microseconds.
    pub duration_us: u64,
    /// Fixes per thousand seconds.
    pub sample_rate_mhz: u32,
}

/// Gathers the position fixes of the input files and puts them on one
/// timeline.
pub struct GpmfProcessor {
    pub tracks: Vec<GpmfTrackData>,
    /// How long the files gathered so far play together, in microseconds.
    pub total_duration_us: u64,
}

/// What one file contributes to the processor: its fixes and its length.
#[verifier::ext_equal]
pub struct GpmfTrackView {
    pub samples: Seq<GpmfGpsSample>,
    pub duration_us: u64,
    pub sample_rate_mhz: u32,
}

impl View for GpmfTrackData {
    type V = GpmfTrackView;

    open spec fn view(&self) -> GpmfTrackView {
        GpmfTrackView {
            samples: self.samples@,
            duration_us: self.duration_us,
            sample_rate_mhz: self.sample_rate_mhz,
        }
    }
}

/// The fixes of a file, each moved later by `offset` microseconds.
pub open spec fn shifted(samples: Seq<GpmfGpsSample>, offset: int) -> Seq<GpmfGpsSample> {
    Seq::new(
        samples.len(),
        |i: int|
            GpmfGpsSample { timestamp_us: (samples[i].timestamp_us + offset) as u64, ..samples[i] },
    )
}

/// How long the first `n` files play together.
pub open spec fn played_before(tracks: Seq<GpmfTrackView>, n: int) -> int
    decreases n,
{
    if n <= 0 {
        0
    } else {
        played_before(tracks, n - 1) + tracks[n - 1].duration_us
    }
}

/// The fixes of the first `n` files on one timeline: those of each file moved
/// later by the time that the files before it play.
pub open spec fn merged_samples(tracks: Seq<GpmfTrackView>, n: int) -> Seq<GpmfGpsSample>
    decreases n,
{
    if n <= 0 {
        Seq::empty()
    } else {
        merged_samples(tracks, n - 1) + shifted(tracks[n - 1].samples, played_before(tracks, n - 1))
    }
}

/// Whether every fix of the first `n` files still has a time of 64 bits once
/// moved, and the files before each play for a time of 64 bits.
pub open spec fn samples_fit(tracks: Seq<GpmfTrackView>, n: int) -> bool {
    forall|k: int, i: int|
        #![trigger tracks[k].samples[i]]
        0 <= k < n && 0 <= i < tracks[k].samples.len() ==> tracks[k].samples[i].timestamp_us
            + played_before(tracks, k) <= u64::MAX
}

/// The time that files play grows with their number.
pub proof fn lemma_played_before_grows(tracks: Seq<GpmfTrackView>, m: int, n: int)
    requires
        m <= n,
    ensures
        0 <= played_before(tracks, m) <= played_before(tracks, n),
    decreases n,
{
    if n > 0 && m < n {
        lemma_played_before_grows(tracks, m, n - 1);
    } else if m > 0 {
        lemma_played_before_grows(tracks, m - 1, m - 1);
    }
}

impl GpmfProcessor {
    /// The tracks of the processor as ghost values.
    pub open spec fn track_views(&self) -> Seq<GpmfTrackView> {
        self.tracks@.map_values(|t: GpmfTrackData| t@)
    }

    pub fn new() -> (r: Self)
        ensures
            r.tracks@.len() == 0,
            r.total_duration_us == 0,
    {
        GpmfProcessor { tracks: Vec::new(), total_duration_us: 0 }
    }

    /// Whether the file holds a track of GoPro metadata: a track in which,
    /// among the boxes of one level, a handler box says `meta` and a later
    /// sample-description box describes `gpmd`.
    pub fn detect_gpmf_in_file(reader: &[u8]) -> (r: Result<bool, MergeError>)
        ensures
            r == scan_result(file_scan(reader@, 0)),
    {
        scan_for_gpmf_tracks(reader)
    }

    /// The position fixes that the payload of a file holds. None are taken
    /// out of the payload yet.
    fn extract_gps_samples_from_mdat(&self, reader: &[u8]) -> (r: Vec<GpmfGpsSample>)
        ensures
            r@ == Seq::<GpmfGpsSample>::empty(),
    {
        Vec::new()
    }

    /// Adds a file that plays for `file_duration` microseconds to the
    /// processor. Fails with `Overflow`, and changes nothing, where the
    /// files together would play longer than 64 bits can say.
    pub fn extract_gpmf_from_file(&mut self, reader: &[u8], file_duration: u64) -> (r: Result<
        (),
        MergeError,
    >)
        ensures
            old(self).total_duration_us + file_duration <= u64::MAX ==> {
                &&& r is Ok
                &&& final(self).total_duration_us == old(self).total_duration_us + file_duration
                &&& final(self).track_views() =~= old(self).track_views().push(
                    GpmfTrackView {
                        samples: Seq::empty(),
                        duration_us: file_duration,
                        sample_rate_mhz: 1000,
                    },
                )
            },
            old(self).total_duration_us + file_duration > u64::MAX ==> {
                &&& r == Err::<(), MergeError>(MergeError::Overflow)
                &&& final(self).track_views() == old(self).track_views()
                &&& final(self).total_duration_us == old(self).total_duration_us
            },
    {
        let total = match self.total_duration_us.checked_add(file_duration) {
            Some(t) => t,
            None => {
                return Err(MergeError::Overflow);
            },
        };
        let gps_samples = self.extract_gps_samples_from_mdat(reader);
        self.tracks.push(
            GpmfTrackData { samples: gps_samples, duration_us: file_duration, sample_rate_mhz: 1000 },
        );
        self.total_duration_us = total;
        Ok(())
    }

    /// Puts the fixes of all files on one timeline: those of each file are
    /// moved later by the time that the files before it play. Fails with
    /// `Overflow` where a time does not fit 64 bits.
    pub fn merge_gpmf_tracks(&self, _file_durations: &[u64]) -> (r: Result<
        Vec<GpmfGpsSample>,
        MergeError,
    >)
        ensures
            samples_fit(self.track_views(), self.tracks@.len() as int) ==> r is Ok && r->Ok_0@
                == merged_samples(self.track_views(), self.tracks@.len() as int),
            !samples_fit(self.track_views(), self.tracks@.len() as int) ==> r == Err::<
                Vec<GpmfGpsSample>,
                MergeError,
            >(MergeError::Overflow),
    {
        let ghost tracks = self.track_views();
        let count = self.tracks.len();
        let mut merged: Vec<GpmfGpsSample> = Vec::new();
        let mut offset: u64 = 0;
        let mut over = false;
        let mut k: usize = 0;
        while k < count
            invariant
                k <= count,
                count == self.tracks@.len(),
                tracks == self.track_views(),
                samples_fit(tracks, k as int),
                merged@ == merged_samples(tracks, k as int),
                !over ==> offset == played_before(tracks, k as int),
                over ==> played_before(tracks, k as int) > u64::MAX,
            decreases count - k,
        {
            let track = &self.tracks[k];
            assert(track@ == tracks[k as int]);
            let ghost start = merged@;
            let n = track.samples.len();
            let mut i: usize = 0;
            while i < n
                invariant
                    i <= n,
                    k < count,
                    count == self.tracks@.len(),
                    tracks == self.track_views(),
                    n == track.samples@.len(),
                    track@ == tracks[k as int],
                    samples_fit(tracks, k as int),
                    !over ==> offset == played_before(tracks, k as int),
                    over ==> played_before(tracks, k as int) > u64::MAX,
                    forall|j: int|
                        0 <= j < i ==> (#[trigger] track.samples@[j]).timestamp_us + played_before(
                            tracks,
                            k as int,
                        ) <= u64::MAX,
                    merged@ == start + shifted(track.samples@, played_before(tracks, k as int)).take(
                        i as int,
                    ),
                decreases n - i,
            {
                let sample = track.samples[i];
                let moved = if over {
                    None
                } else {
                    sample.timestamp_us.checked_add(offset)
                };
                let timestamp_us = match moved {
                    Some(t) => t,
                    None => {
                        assert(!samples_fit(tracks, count as int)) by {
                            assert(tracks[k as int].samples[i as int].timestamp_us + played_before(
                                tracks,
                                k as int,
                            ) > u64::MAX);
                        }
                        return Err(MergeError::Overflow);
                    },
                };
                let mut adjusted_sample = sample;
                adjusted_sample.timestamp_us = timestamp_us;
                merged.push(adjusted_sample);
                i = i + 1;
                assert(merged@ =~= start + shifted(
                    track.samples@,
                    played_before(tracks, k as int),
                ).take(i as int));
            }
            assert(shifted(track.samples@, played_before(tracks, k as int)).take(n as int)
                =~= shifted(track.samples@, played_before(tracks, k as int)));
            assert(samples_fit(tracks, k + 1)) by {
                assert forall|a: int, b: int|
                    #![trigger tracks[a].samples[b]]
                    0 <= a < k + 1 && 0 <= b < tracks[a].samples.len() implies tracks[a].samples[b].timestamp_us
                        + played_before(tracks, a) <= u64::MAX by {
                    if a == k {
                        assert(track.samples@[b].timestamp_us + played_before(tracks, k as int)
                            <= u64::MAX);
                    }
                }
            }
            if !over {
                match offset.checked_add(track.duration_us) {
                    Some(o) => {
                        offset = o;
                    },
                    None => {
                        over = true;
                    },
                }
            } else {
                proof {
                    lemma_played_before_grows(tracks, k as int, k + 1);
                }
            }
            k = k + 1;
        }
        Ok(merged)
    }

    /// The payload that holds the merged fixes. Nothing is written into it
    /// yet: it is empty.
    pub fn create_merged_gpmf_payload(&self, _merged_samples: &[GpmfGpsSample]) -> (r: Result<
        Vec<u8>,
        MergeError,
    >)
        ensures
            r is Ok,
            r->Ok_0@.len() == 0,
    {
        Ok(Vec::new())
    }

    /// Writes the merged fixes to the output. Nothing is written yet: the
    /// output stays as it is.
    pub fn write_merged_metadata(&self, _output: &mut Vec<u8>, _merged_samples: &[GpmfGpsSample]) -> (r:
        Result<(), MergeError>)
        ensures
            r is Ok,
            final(_output)@ == old(_output)@,
    {
        Ok(())
    }
}

/// For each input file, whether it holds a track of GoPro metadata.
pub fn detect_gpmf_files(files: &[Vec<u8>]) -> (r: Result<Vec<bool>, MergeError>)
    ensures
        match detected(crate::writer::files_view(files@), files@.len()) {
            Ok(flags) => r is Ok && r->Ok_0@ == flags,
            Err(e) => r == Err::<Vec<bool>, MergeError>(e),
        },
{
    let ghost fv = crate::writer::files_view(files@);
    let mut gpmf_flags: Vec<bool> = Vec::new();
    let mut i: usize = 0;
    while i < files.len()
        invariant
            i <= files.len(),
            fv == crate::writer::files_view(files@),
            detected(fv, i as nat) == Ok::<Seq<bool>, MergeError>(gpmf_flags@),
        decreases files.len() - i,
    {
        let has_gpmf = match GpmfProcessor::detect_gpmf_in_file(files[i].as_slice()) {
            Ok(b) => b,
            Err(e) => {
                proof {
                    lemma_detected_stays_failed(fv, (i + 1) as nat, files@.len());
                }
                return Err(e);
            },
        };
        gpmf_flags.push(has_gpmf);
        i = i + 1;
    }
    Ok(gpmf_flags)
}

/// How long the first `n` files play together, in microseconds; a file
/// without a duration plays for no time.
pub open spec fn durations_total(file_durations: Seq<u64>, n: int) -> int
    decreases n,
{
    if n <= 0 {
        0
    } else {
        durations_total(file_durations, n - 1) + if n - 1 < file_durations.len() {
            file_durations[n - 1] as int
        } else {
            0
        }
    }
}

/// The summed durations grow with the number of files.
pub proof fn lemma_durations_total_grows(file_durations: Seq<u64>, m: int, n: int)
    requires
        m <= n,
    ensures
        0 <= durations_total(file_durations, m) <= durations_total(file_durations, n),
    decreases n,
{
    if n > 0 && m < n {
        lemma_durations_total_grows(file_durations, m, n - 1);
    } else if m > 0 {
        lemma_durations_total_grows(file_durations, m - 1, m - 1);
    }
}

/// Gathers the GoPro position fixes of all input files, each file playing for
/// as many microseconds as `file_durations` says, and puts them on one
/// timeline. Nothing is taken out of the payloads yet, and nothing written:
/// the output stays as it is. Fails with `Overflow` where the files together
/// play longer than 64 bits can say.
pub fn merge_gpmf_metadata(files: &[Vec<u8>], file_durations: &[u64], _output: &mut Vec<u8>) -> (r:
    Result<(), MergeError>)
    ensures
        final(_output)@ == old(_output)@,
        durations_total(file_durations@, files@.len() as int) <= u64::MAX ==> r is Ok,
        durations_total(file_durations@, files@.len() as int) > u64::MAX ==> r == Err::<
            (),
            MergeError,
        >(MergeError::Overflow),
{
    let mut processor = GpmfProcessor::new();
    let mut file_index: usize = 0;
    while file_index < files.len()
        invariant
            file_index <= files.len(),
            processor.tracks@.len() == file_index,
            processor.total_duration_us == durations_total(file_durations@, file_index as int),
            forall|k: int|
                0 <= k < file_index ==> (#[trigger] processor.track_views()[k]).samples.len() == 0,
        decreases files.len() - file_index,
    {
        let file_duration = if file_index < file_durations.len() {
            file_durations[file_index]
        } else {
            0
        };
        let ghost before = processor.track_views();
        match processor.extract_gpmf_from_file(files[file_index].as_slice(), file_duration) {
            Ok(()) => {},
            Err(e) => {
                proof {
                    lemma_durations_total_grows(
                        file_durations@,
                        file_index + 1,
                        files@.len() as int,
                    );
                }
                return Err(e);
            },
        }
        assert(processor.track_views().len() == processor.tracks@.len());
        assert forall|k: int| 0 <= k < file_index + 1 implies (
        #[trigger] processor.track_views()[k]).samples.len() == 0 by {
            if k < file_index {
                assert(processor.track_views()[k] == before[k]);
            }
        }
        file_index = file_index + 1;
    }
    assert(samples_fit(processor.track_views(), processor.tracks@.len() as int));
    let _merged_samples = processor.merge_gpmf_tracks(file_durations)?;
    Ok(())
}

} // verus!
