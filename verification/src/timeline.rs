//! The timeline pass: from when the files were created and how long they
//! play to edit lists with an empty segment for every pause.

use crate::desc::{
    desc_lands, Desc, DescView, EditListEntry, Seconds, TrackDescView, NORMAL_RATE,
};
use crate::error::MergeError;
use crate::units::{div_round, lemma_round_div, round_div, wide_mul};
use vstd::prelude::*;

verus! {

pub const NANOS_PER_SECOND: u32 = 1_000_000_000;

/// How long file `i` plays, going by the first track. A file of which nothing
/// is known plays for no time.
pub open spec fn file_duration(v: DescView, i: int) -> Seconds {
    if 0 <= i < v.file_durations.len() && v.file_durations[i].den > 0 {
        v.file_durations[i]
    } else {
        Seconds { num: 0, den: 1 }
    }
}

/// The nanoseconds from the creation of file `i - 1` to that of file `i`,
/// where both are known and in order.
pub open spec fn creation_delta(v: DescView, i: int) -> Option<int> {
    if 1 <= i < v.file_creation_times.len() {
        match (v.file_creation_times[i - 1], v.file_creation_times[i]) {
            (Some(a), Some(b)) => if b >= a {
                Some(b - a)
            } else {
                None
            },
            _ => None,
        }
    } else {
        None
    }
}

/// The gap before file `i` is `gap_num / gap_den` seconds long: the time
/// between the two creations, less the time that file `i - 1` plays.
pub open spec fn gap_num(v: DescView, i: int) -> int {
    creation_delta(v, i)->0 * file_duration(v, i - 1).den - file_duration(v, i - 1).num
        * NANOS_PER_SECOND
}

pub open spec fn gap_den(v: DescView, i: int) -> int {
    NANOS_PER_SECOND * file_duration(v, i - 1).den
}

/// Whether the recording paused before file `i`. A gap of one second or less
/// counts as none.
pub open spec fn has_gap(v: DescView, i: int) -> bool {
    creation_delta(v, i) is Some && gap_num(v, i) > gap_den(v, i)
}

/// The gap before file `i` in units of the movie timescale, rounded.
pub open spec fn gap_units(v: DescView, i: int) -> int {
    round_div(gap_num(v, i) * v.moov_mvhd_timescale, gap_den(v, i))
}

/// Whether the creation time of any file is known.
pub open spec fn has_any_time(v: DescView) -> bool {
    exists|i: int| 0 <= i < v.file_creation_times.len() && v.file_creation_times[i] is Some
}

/// Whether the recording paused before any file.
pub open spec fn has_any_gap(v: DescView) -> bool {
    exists|i: int| 0 <= i < v.file_creation_times.len() && has_gap(v, i)
}

/// How long track `t` plays in file `i`: what was noted for the track, or else
/// for the file.
pub open spec fn track_duration(v: DescView, t: int, i: int) -> Seconds {
    if 0 <= t < v.track_file_durations.len() && 0 <= i < v.track_file_durations[t].len() {
        v.track_file_durations[t][i]
    } else if 0 <= i < v.file_durations.len() {
        v.file_durations[i]
    } else {
        Seconds { num: 0, den: 1 }
    }
}

/// A span of time in units of which `timescale` make a second, rounded.
pub open spec fn to_units(d: Seconds, timescale: u32) -> int {
    round_div(d.num * timescale, d.den as int)
}

/// An edit list under construction: its entries, their summed durations, and
/// the media time at which the next segment starts.
pub struct Plan {
    pub entries: Seq<EditListEntry>,
    pub total: int,
    pub media: int,
}

/// The plan with the empty segment for the gap before file `i`, if there is
/// one. `None` where a number does not fit its field.
pub open spec fn with_gap(v: DescView, i: int, p: Plan) -> Option<Plan> {
    if has_gap(v, i) {
        if p.total + gap_units(v, i) > u64::MAX {
            None
        } else {
            Some(
                Plan {
                    entries: p.entries.push(
                        EditListEntry {
                            segment_duration: gap_units(v, i) as u64,
                            media_time: -1i64,
                            media_rate: NORMAL_RATE,
                        },
                    ),
                    total: p.total + gap_units(v, i),
                    ..p
                },
            )
        }
    } else {
        Some(p)
    }
}

/// The plan with the segment that plays what file `i` holds of track `t`, if
/// it holds anything. `None` where a number does not fit its field.
pub open spec fn with_media(v: DescView, t: int, i: int, p: Plan) -> Option<Plan> {
    let d = track_duration(v, t, i);
    let advance = if v.moov_tracks[t].mdhd_timescale > 0 {
        to_units(d, v.moov_tracks[t].mdhd_timescale)
    } else {
        0
    };
    if d.positive() {
        if p.total + to_units(d, v.moov_mvhd_timescale) > u64::MAX || p.media + advance
            > i64::MAX {
            None
        } else {
            Some(
                Plan {
                    entries: p.entries.push(
                        EditListEntry {
                            segment_duration: to_units(d, v.moov_mvhd_timescale) as u64,
                            media_time: p.media as i64,
                            media_rate: NORMAL_RATE,
                        },
                    ),
                    total: p.total + to_units(d, v.moov_mvhd_timescale),
                    media: p.media + advance,
                },
            )
        }
    } else {
        Some(p)
    }
}

/// The edit list of track `t` over the first `k` files: for each file in
/// turn the gap before it, then what it plays.
pub open spec fn plan_upto(v: DescView, t: int, k: nat) -> Option<Plan>
    decreases k,
{
    if k == 0 {
        Some(Plan { entries: Seq::empty(), total: 0, media: 0 })
    } else {
        match plan_upto(v, t, (k - 1) as nat) {
            None => None,
            Some(p) => match with_gap(v, k - 1, p) {
                None => None,
                Some(p1) => with_media(v, t, k - 1, p1),
            },
        }
    }
}

/// The duration of a track whose edit list takes `total` units of the movie
/// timescale, in units of the media timescale of the track. Where either
/// timescale is 0, `total` itself.
pub open spec fn track_length(total: int, movie_timescale: u32, media_timescale: u32) -> int {
    if movie_timescale > 0 && media_timescale > 0 {
        round_div(total * media_timescale, movie_timescale as int)
    } else {
        total
    }
}

/// Track `t` with its edit list over all files, and the durations that
/// follow from it. `None` where a number does not fit its field.
pub open spec fn retimed_track(v: DescView, t: int) -> Option<TrackDescView> {
    match plan_upto(v, t, v.file_creation_times.len()) {
        None => None,
        Some(p) => {
            let length = track_length(
                p.total,
                v.moov_mvhd_timescale,
                v.moov_tracks[t].mdhd_timescale,
            );
            if length > u64::MAX {
                None
            } else {
                Some(
                    TrackDescView {
                        elst_entries: p.entries,
                        elst_segment_duration: p.total as u64,
                        tkhd_duration: length as u64,
                        ..v.moov_tracks[t]
                    },
                )
            }
        },
    }
}

/// Whether the edit list of every track that is merged can be built.
pub open spec fn timeline_fits(v: DescView) -> bool {
    forall|t: int|
        0 <= t < v.moov_tracks.len() && !v.moov_tracks[t].skip ==> (#[trigger] retimed_track(
            v,
            t,
        )) is Some
}

/// The tracks after the timeline pass: those that are merged with their new
/// edit lists, the others as they were.
pub open spec fn retimed_tracks(v: DescView) -> Seq<TrackDescView> {
    Seq::new(
        v.moov_tracks.len(),
        |t: int|
            if v.moov_tracks[t].skip {
                v.moov_tracks[t]
            } else {
                retimed_track(v, t)->0
            },
    )
}

/// The descriptor after the timeline pass.
///
/// Where no creation time is known, or the recording never paused for more
/// than a second, nothing changes. Else every track that is merged gets an
/// edit list with an empty segment for each pause, and the movie lasts as long
/// as the edit list of the first track, if that track is merged and its list
/// is not empty.
pub open spec fn timeline(v: DescView) -> Result<DescView, MergeError> {
    if !has_any_time(v) || !has_any_gap(v) {
        Ok(v)
    } else if !timeline_fits(v) {
        Err(MergeError::Overflow)
    } else {
        let tracks = retimed_tracks(v);
        Ok(
            DescView {
                moov_tracks: tracks,
                moov_mvhd_duration: if tracks.len() > 0 && !tracks[0].skip
                    && tracks[0].elst_entries.len() > 0 {
                    tracks[0].elst_segment_duration
                } else {
                    v.moov_mvhd_duration
                },
                ..v
            },
        )
    }
}

/// Once a number has failed to fit, the plan over more files fails too.
pub proof fn lemma_plan_stays_none(v: DescView, t: int, k: nat, n: nat)
    requires
        k <= n,
        plan_upto(v, t, k) is None,
    ensures
        plan_upto(v, t, n) is None,
    decreases n,
{
    if k < n {
        lemma_plan_stays_none(v, t, k, (n - 1) as nat);
    }
}

/// `d` in units of which `timescale` make a second.
fn span_units(d: Seconds, timescale: u32) -> (r: u128)
    requires
        d.den > 0,
    ensures
        r == to_units(d, timescale),
{
    div_round(wide_mul(d.num, timescale), d.den as u128)
}

/// Whether the creation time of any file is known.
fn any_creation_time(desc: &Desc) -> (r: bool)
    ensures
        r == has_any_time(desc@),
{
    let mut i: usize = 0;
    while i < desc.file_creation_times.len()
        invariant
            i <= desc.file_creation_times.len(),
            forall|j: int| 0 <= j < i ==> desc.file_creation_times@[j] is None,
        decreases desc.file_creation_times.len() - i,
    {
        if desc.file_creation_times[i].is_some() {
            return true;
        }
        i = i + 1;
    }
    false
}

/// How long the recording paused before file `current_file_index`, in units
/// of the movie timescale; `None` where it did not pause for more than a
/// second.
fn compute_gap_duration(desc: &Desc, prev_file_index: usize, current_file_index: usize) -> (r:
    Option<u128>)
    requires
        prev_file_index + 1 == current_file_index,
    ensures
        has_gap(desc@, current_file_index as int) ==> r is Some && r->0 == gap_units(
            desc@,
            current_file_index as int,
        ),
        !has_gap(desc@, current_file_index as int) ==> r is None,
{
    if current_file_index >= desc.file_creation_times.len() {
        return None;
    }
    let delta: u64 = match (
        desc.file_creation_times[prev_file_index],
        desc.file_creation_times[current_file_index],
    ) {
        (Some(a), Some(b)) => {
            if b < a {
                return None;
            }
            b - a
        },
        _ => {
            return None;
        },
    };
    let played = if prev_file_index < desc.file_durations.len()
        && desc.file_durations[prev_file_index].den > 0 {
        desc.file_durations[prev_file_index]
    } else {
        Seconds::zero()
    };
    assert(played == file_duration(desc@, prev_file_index as int));
    let apart = wide_mul(delta, played.den);
    let filled = wide_mul(played.num, NANOS_PER_SECOND);
    let den = wide_mul(NANOS_PER_SECOND as u64, played.den);
    if apart <= filled || apart - filled <= den {
        return None;
    }
    let num = apart - filled;
    let timescale = desc.moov_mvhd_timescale;
    assert(num * timescale <= u128::MAX) by (nonlinear_arith)
        requires
            0 <= num < 0x1_0000_0000_0000_0000_0000_0000,
            0 <= timescale < 0x1_0000_0000,
    ;
    assert(den > 0) by (nonlinear_arith)
        requires
            den == NANOS_PER_SECOND as u64 * played.den,
            played.den > 0,
            NANOS_PER_SECOND == 1_000_000_000,
    ;
    Some(div_round(num * (timescale as u128), den))
}

/// The edit list of a track and the durations that follow from it.
pub struct TrackPlan {
    pub entries: Vec<EditListEntry>,
    pub total: u64,
    pub length: u64,
}

/// Whether `gaps` holds, for each file, the pause before it.
pub open spec fn gaps_of(v: DescView, gaps: Seq<Option<u128>>) -> bool {
    &&& gaps.len() == v.file_creation_times.len()
    &&& forall|i: int|
        0 <= i < gaps.len() ==> if has_gap(v, i) {
            (#[trigger] gaps[i]) is Some && gaps[i]->0 == gap_units(v, i)
        } else {
            gaps[i] is None
        }
}

/// Builds the edit list of track `t` from the pauses between the files and
/// from what each file plays of the track.
fn plan_track(desc: &Desc, t: usize, gaps: &Vec<Option<u128>>) -> (r: Option<TrackPlan>)
    requires
        t < desc.moov_tracks.len(),
        gaps_of(desc@, gaps@),
    ensures
        match retimed_track(desc@, t as int) {
            None => r is None,
            Some(track) => r matches Some(p) && p.entries@ == track.elst_entries && p.total
                == track.elst_segment_duration && p.length == track.tkhd_duration,
        },
{
    let n = desc.file_creation_times.len();
    let movie_timescale = desc.moov_mvhd_timescale;
    let media_timescale = desc.moov_tracks[t].mdhd_timescale;
    let mut entries: Vec<EditListEntry> = Vec::new();
    let mut total: u64 = 0;
    let mut media: i64 = 0;
    let mut i: usize = 0;
    while i < n
        invariant
            i <= n,
            n == desc.file_creation_times.len(),
            t < desc.moov_tracks.len(),
            gaps_of(desc@, gaps@),
            movie_timescale == desc@.moov_mvhd_timescale,
            media_timescale == desc@.moov_tracks[t as int].mdhd_timescale,
            0 <= media,
            plan_upto(desc@, t as int, i as nat) == Some(
                Plan { entries: entries@, total: total as int, media: media as int },
            ),
        decreases n - i,
    {
        let ghost before = Plan { entries: entries@, total: total as int, media: media as int };
        match gaps[i] {
            Some(g) => {
                if g > (u64::MAX - total) as u128 {
                    proof {
                        assert(with_gap(desc@, i as int, before) is None);
                        assert(plan_upto(desc@, t as int, (i + 1) as nat) is None);
                        lemma_plan_stays_none(desc@, t as int, (i + 1) as nat, n as nat);
                    }
                    return None;
                }
                entries.push(
                    EditListEntry {
                        segment_duration: g as u64,
                        media_time: -1,
                        media_rate: NORMAL_RATE,
                    },
                );
                total = total + g as u64;
            },
            None => {},
        }
        let ghost gapped = Plan { entries: entries@, total: total as int, media: media as int };
        assert(with_gap(desc@, i as int, before) == Some(gapped));
        let d = if t < desc.track_file_durations.len() && i < desc.track_file_durations[t].len() {
            desc.track_file_durations[t][i]
        } else if i < desc.file_durations.len() {
            desc.file_durations[i]
        } else {
            Seconds::zero()
        };
        assert(d == track_duration(desc@, t as int, i as int));
        if d.is_positive() {
            let s = span_units(d, movie_timescale);
            let advance: u128 = if media_timescale > 0 {
                span_units(d, media_timescale)
            } else {
                0
            };
            if s > (u64::MAX - total) as u128 || advance > (i64::MAX - media) as u128 {
                proof {
                    assert(with_media(desc@, t as int, i as int, gapped) is None);
                    assert(plan_upto(desc@, t as int, (i + 1) as nat) is None);
                    lemma_plan_stays_none(desc@, t as int, (i + 1) as nat, n as nat);
                }
                return None;
            }
            entries.push(
                EditListEntry { segment_duration: s as u64, media_time: media, media_rate: NORMAL_RATE },
            );
            total = total + s as u64;
            media = media + advance as i64;
        }
        assert(with_media(desc@, t as int, i as int, gapped) == Some(
            Plan { entries: entries@, total: total as int, media: media as int },
        ));
        i = i + 1;
    }
    let length: u128 = if movie_timescale > 0 && media_timescale > 0 {
        div_round(wide_mul(total, media_timescale), movie_timescale as u128)
    } else {
        total as u128
    };
    if length > u64::MAX as u128 {
        return None;
    }
    Some(TrackPlan { entries, total, length: length as u64 })
}

/// The pause before each file, and whether there is any.
fn all_gaps(desc: &Desc) -> (r: (Vec<Option<u128>>, bool))
    ensures
        gaps_of(desc@, r.0@),
        r.1 == has_any_gap(desc@),
{
    let n = desc.file_creation_times.len();
    let mut gaps: Vec<Option<u128>> = Vec::new();
    let mut any = false;
    let mut i: usize = 0;
    while i < n
        invariant
            i <= n,
            n == desc.file_creation_times.len(),
            gaps@.len() == i,
            forall|j: int|
                0 <= j < i ==> if has_gap(desc@, j) {
                    (#[trigger] gaps@[j]) is Some && gaps@[j]->0 == gap_units(desc@, j)
                } else {
                    gaps@[j] is None
                },
            any == exists|j: int| 0 <= j < i && has_gap(desc@, j),
        decreases n - i,
    {
        let g = if i == 0 {
            None
        } else {
            compute_gap_duration(desc, i - 1, i)
        };
        if g.is_some() {
            any = true;
        }
        gaps.push(g);
        i = i + 1;
    }
    (gaps, any)
}

/// The plan of each track that is merged, and nothing for the others.
pub open spec fn plans_of(v: DescView, plans: Seq<Option<TrackPlan>>, upto: int) -> bool {
    &&& plans.len() == upto
    &&& forall|t: int|
        0 <= t < upto ==> if v.moov_tracks[t].skip {
            (#[trigger] plans[t]) is None
        } else {
            &&& plans[t] is Some
            &&& retimed_track(v, t) is Some
            &&& plans[t]->0.entries@ == retimed_track(v, t)->0.elst_entries
            &&& plans[t]->0.total == retimed_track(v, t)->0.elst_segment_duration
            &&& plans[t]->0.length == retimed_track(v, t)->0.tkhd_duration
        }
}

/// Works out the pauses between the input files from when each was created
/// and how long it plays, and gives every track that is merged an edit list
/// with an empty segment for each pause. The durations of those tracks and of
/// the movie follow the new edit lists. Fails with `Overflow`, and changes
/// nothing, where a number does not fit its field.
pub fn compute_gaps_and_edit_lists(desc: &mut Desc) -> (r: Result<(), MergeError>)
    ensures
        desc_lands(r, old(desc)@, final(desc)@, timeline(old(desc)@)),
{
    let ghost v = desc@;
    if !any_creation_time(desc) {
        return Ok(());
    }
    let (gaps, any) = all_gaps(desc);
    if !any {
        return Ok(());
    }
    let count = desc.moov_tracks.len();
    let mut plans: Vec<Option<TrackPlan>> = Vec::new();
    let mut t: usize = 0;
    while t < count
        invariant
            t <= count,
            count == desc.moov_tracks.len(),
            desc@ == v,
            has_any_time(v),
            has_any_gap(v),
            gaps_of(v, gaps@),
            plans_of(v, plans@, t as int),
        decreases count - t,
    {
        if desc.moov_tracks[t].skip {
            plans.push(None);
        } else {
            match plan_track(desc, t, &gaps) {
                None => {
                    assert(!timeline_fits(v)) by {
                        assert(retimed_track(v, t as int) is None);
                    }
                    return Err(MergeError::Overflow);
                },
                Some(p) => {
                    plans.push(Some(p));
                },
            }
        }
        t = t + 1;
    }
    let ghost all = plans@;
    assert forall|j: int| 0 <= j < v.moov_tracks.len() && !v.moov_tracks[j].skip implies (
    #[trigger] retimed_track(v, j)) is Some by {
        assert(all[j] is Some);
    }
    while t > 0
        invariant
            t <= count,
            count == desc.moov_tracks.len(),
            count == v.moov_tracks.len(),
            plans_of(v, all, count as int),
            plans@ == all.take(t as int),
            desc@ == (DescView { moov_tracks: desc@.moov_tracks, ..v }),
            forall|j: int| 0 <= j < t ==> #[trigger] desc@.moov_tracks[j] == v.moov_tracks[j],
            forall|j: int|
                t <= j < count ==> #[trigger] desc@.moov_tracks[j] == retimed_tracks(v)[j],
        decreases t,
    {
        let ghost was = desc@.moov_tracks;
        t = t - 1;
        let plan = plans.pop();
        assert(plan == Some(all[t as int]));
        assert(plans@ =~= all.take(t as int));
        assert(was[t as int] == v.moov_tracks[t as int]);
        match plan {
            Some(Some(p)) => {
                desc.moov_tracks[t].elst_entries = p.entries;
                desc.moov_tracks[t].elst_segment_duration = p.total;
                desc.moov_tracks[t].tkhd_duration = p.length;
                assert(desc@.moov_tracks[t as int] =~= retimed_track(v, t as int)->0);
            },
            _ => {},
        }
        assert(desc@.moov_tracks[t as int] == retimed_tracks(v)[t as int]);
        assert forall|j: int| 0 <= j < count && j != t implies #[trigger] desc@.moov_tracks[j]
            == was[j] by {}
    }
    assert(desc@.moov_tracks =~= retimed_tracks(v));
    if count > 0 && !desc.moov_tracks[0].skip && desc.moov_tracks[0].elst_entries.len() > 0 {
        desc.moov_mvhd_duration = desc.moov_tracks[0].elst_segment_duration;
    }
    Ok(())
}

/// The summed segment durations of an edit list.
pub open spec fn summed_durations(s: Seq<EditListEntry>) -> int
    decreases s.len(),
{
    if s.len() == 0 {
        0
    } else {
        summed_durations(s.drop_last()) + s.last().segment_duration
    }
}

/// The total of a plan is the sum of the durations of its entries, and fits
/// 64 bits.
pub proof fn lemma_plan_total(v: DescView, t: int, k: nat)
    ensures
        plan_upto(v, t, k) matches Some(p) ==> p.total == summed_durations(p.entries) && 0
            <= p.total <= u64::MAX,
    decreases k,
{
    if k > 0 {
        lemma_plan_total(v, t, (k - 1) as nat);
        match plan_upto(v, t, (k - 1) as nat) {
            None => {},
            Some(p) => {
                match with_gap(v, k - 1, p) {
                    None => {},
                    Some(p1) => {
                        if has_gap(v, k - 1) {
                            let units = gap_num(v, k - 1) * v.moov_mvhd_timescale;
                            assert(units >= 0) by (nonlinear_arith)
                                requires
                                    units == gap_num(v, k - 1) * v.moov_mvhd_timescale,
                                    gap_num(v, k - 1) >= 0,
                                    v.moov_mvhd_timescale >= 0,
                            ;
                            lemma_round_div(units, gap_den(v, k - 1));
                            assert(p1.entries.drop_last() =~= p.entries);
                        }
                        assert(p1.total == summed_durations(p1.entries) && 0 <= p1.total
                            <= u64::MAX);
                        let d = track_duration(v, t, k - 1);
                        match with_media(v, t, k - 1, p1) {
                            None => {},
                            Some(p2) => {
                                if d.positive() {
                                    let units = d.num * v.moov_mvhd_timescale;
                                    assert(units >= 0) by (nonlinear_arith)
                                        requires
                                            units == d.num * v.moov_mvhd_timescale,
                                            d.num >= 0,
                                            v.moov_mvhd_timescale >= 0,
                                    ;
                                    lemma_round_div(units, d.den as int);
                                    assert(p2.entries.drop_last() =~= p1.entries);
                                }
                            },
                        }
                    },
                }
            },
        }
    }
}

/// After the timeline pass has built the edit lists, the segment duration of
/// every track that is merged is the sum of the segment durations of its
/// entries.
pub proof fn lemma_edit_list_sums(v: DescView, t: int)
    requires
        has_any_time(v),
        has_any_gap(v),
        timeline(v) is Ok,
        0 <= t < v.moov_tracks.len(),
        !v.moov_tracks[t].skip,
    ensures
        timeline(v)->Ok_0.moov_tracks[t].elst_segment_duration == summed_durations(
            timeline(v)->Ok_0.moov_tracks[t].elst_entries,
        ),
{
    assert(retimed_track(v, t) is Some);
    lemma_plan_total(v, t, v.file_creation_times.len());
}

/// After the timeline pass has built the edit lists, the duration of every
/// track that is merged and has both timescales is its segment duration in
/// units of the media timescale, to within half a unit:
/// `tkhd_duration * movie_timescale` and `elst_segment_duration *
/// media_timescale` differ by half a movie timescale at most.
pub proof fn lemma_track_length_matches(v: DescView, t: int)
    requires
        has_any_time(v),
        has_any_gap(v),
        timeline(v) is Ok,
        0 <= t < v.moov_tracks.len(),
        !v.moov_tracks[t].skip,
        v.moov_mvhd_timescale > 0,
        v.moov_tracks[t].mdhd_timescale > 0,
    ensures
        ({
            let track = timeline(v)->Ok_0.moov_tracks[t];
            let in_movie_units = track.tkhd_duration * v.moov_mvhd_timescale;
            let in_media_units = track.elst_segment_duration * track.mdhd_timescale;
            &&& 2 * (in_movie_units - in_media_units) <= v.moov_mvhd_timescale
            &&& 2 * (in_media_units - in_movie_units) < v.moov_mvhd_timescale
        }),
{
    assert(retimed_track(v, t) is Some);
    lemma_plan_total(v, t, v.file_creation_times.len());
    let p = plan_upto(v, t, v.file_creation_times.len())->0;
    let media = v.moov_tracks[t].mdhd_timescale;
    assert(p.total * media >= 0) by (nonlinear_arith)
        requires
            p.total >= 0,
            media >= 0,
    ;
    lemma_round_div(p.total * media, v.moov_mvhd_timescale as int);
}

/// Where the creation time of no file is known, the timeline pass changes
/// nothing.
pub proof fn lemma_no_times_no_change(v: DescView)
    requires
        forall|i: int| 0 <= i < v.file_creation_times.len() ==> v.file_creation_times[i] is None,
    ensures
        timeline(v) == Ok::<DescView, MergeError>(v),
{
}

/// Where every file was created a second at most after the one before had
/// played to its end, the timeline pass changes nothing.
pub proof fn lemma_no_gaps_no_change(v: DescView)
    requires
        forall|i: int| 0 <= i < v.file_creation_times.len() ==> !has_gap(v, i),
    ensures
        timeline(v) == Ok::<DescView, MergeError>(v),
{
}

/// Whether two descriptors agree on all that the edit lists are built from:
/// the times and durations of the files, the timescales, and which tracks are
/// merged.
pub open spec fn same_timing(a: DescView, b: DescView) -> bool {
    &&& a.file_creation_times == b.file_creation_times
    &&& a.file_durations == b.file_durations
    &&& a.track_file_durations == b.track_file_durations
    &&& a.moov_mvhd_timescale == b.moov_mvhd_timescale
    &&& a.moov_tracks.len() == b.moov_tracks.len()
    &&& forall|t: int|
        0 <= t < a.moov_tracks.len() ==> (#[trigger] a.moov_tracks[t]).mdhd_timescale
            == b.moov_tracks[t].mdhd_timescale && a.moov_tracks[t].skip == b.moov_tracks[t].skip
}

/// Descriptors that agree on the timing give the same edit lists.
pub proof fn lemma_plan_depends_on_timing(a: DescView, b: DescView, t: int, k: nat)
    requires
        same_timing(a, b),
        0 <= t < a.moov_tracks.len(),
    ensures
        plan_upto(a, t, k) == plan_upto(b, t, k),
    decreases k,
{
    if k > 0 {
        lemma_plan_depends_on_timing(a, b, t, (k - 1) as nat);
        assert(a.moov_tracks[t].mdhd_timescale == b.moov_tracks[t].mdhd_timescale);
        assert(has_gap(a, k - 1) == has_gap(b, k - 1));
        assert(gap_units(a, k - 1) == gap_units(b, k - 1));
        assert(track_duration(a, t, k - 1) == track_duration(b, t, k - 1));
    }
}

/// The timeline pass changes nothing when it runs a second time: the edit
/// lists and durations that it has built are those that it builds again.
pub proof fn lemma_timeline_twice(v: DescView)
    requires
        timeline(v) is Ok,
    ensures
        timeline(timeline(v)->Ok_0) == timeline(v),
{
    let w = timeline(v)->Ok_0;
    if has_any_time(v) && has_any_gap(v) {
        assert(same_timing(v, w)) by {
            assert forall|t: int| 0 <= t < v.moov_tracks.len() implies (
            #[trigger] v.moov_tracks[t]).mdhd_timescale == w.moov_tracks[t].mdhd_timescale
                && v.moov_tracks[t].skip == w.moov_tracks[t].skip by {
                if !v.moov_tracks[t].skip {
                    assert(retimed_track(v, t) is Some);
                }
            }
        }
        let i = choose|i: int| 0 <= i < v.file_creation_times.len() && has_gap(v, i);
        assert(has_gap(w, i));
        let j = choose|j: int|
            0 <= j < v.file_creation_times.len() && v.file_creation_times[j] is Some;
        assert(w.file_creation_times[j] is Some);
        assert forall|t: int| 0 <= t < w.moov_tracks.len() && !w.moov_tracks[t].skip implies (
        #[trigger] retimed_track(w, t)) == Some(w.moov_tracks[t]) by {
            assert(!v.moov_tracks[t].skip);
            assert(retimed_track(v, t) is Some);
            lemma_plan_depends_on_timing(v, w, t, v.file_creation_times.len());
            assert(retimed_track(w, t)->0 =~= w.moov_tracks[t]);
        }
        assert(timeline_fits(w));
        assert(retimed_tracks(w) =~= w.moov_tracks);
        assert(timeline(w)->Ok_0 =~= w);
    }
}

} // verus!
