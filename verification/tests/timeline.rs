use mp4_merge::{
    compute_gaps_and_edit_lists, Desc, EditListEntry, MergeError, Seconds, TrackDesc,
};

const SECOND: u64 = 1_000_000_000;

#[test]
fn test_tkhd_duration_timescale_conversion_with_gaps() {
    let mut desc = Desc {
        moov_mvhd_timescale: 1000,
        file_creation_times: vec![Some(0), Some(5 * SECOND)],
        file_durations: vec![Seconds::new(2, 1), Seconds::new(3, 1)],
        ..Default::default()
    };

    let track = TrackDesc { mdhd_timescale: 48000, ..Default::default() };

    desc.moov_tracks.push(track);

    compute_gaps_and_edit_lists(&mut desc).unwrap();

    let fixed_track = &desc.moov_tracks[0];

    assert!(!fixed_track.elst_entries.is_empty());
    assert_eq!(fixed_track.elst_segment_duration, 8000);
    assert_eq!(fixed_track.tkhd_duration, 384000);
}

#[test]
fn test_tkhd_duration_conversion_edge_cases() {
    let mut desc = Desc {
        moov_mvhd_timescale: 1000,
        file_creation_times: vec![Some(0), Some(4 * SECOND)],
        file_durations: vec![Seconds::new(1, 1), Seconds::new(1, 1)],
        ..Default::default()
    };

    let track = TrackDesc { mdhd_timescale: 30000, ..Default::default() };

    desc.moov_tracks.push(track);

    compute_gaps_and_edit_lists(&mut desc).unwrap();

    let fixed_track = &desc.moov_tracks[0];

    assert_eq!(fixed_track.elst_segment_duration, 5000);
    assert_eq!(fixed_track.tkhd_duration, 150000);
}

#[test]
fn test_tkhd_duration_no_gaps_no_change() {
    let mut desc = Desc {
        moov_mvhd_timescale: 1000,
        file_creation_times: vec![None, None],
        file_durations: vec![Seconds::new(2, 1), Seconds::new(3, 1)],
        ..Default::default()
    };

    let track = TrackDesc { mdhd_timescale: 48000, tkhd_duration: 12345, ..Default::default() };

    desc.moov_tracks.push(track);

    compute_gaps_and_edit_lists(&mut desc).unwrap();

    let fixed_track = &desc.moov_tracks[0];

    assert_eq!(fixed_track.tkhd_duration, 12345);
    assert!(fixed_track.elst_entries.is_empty());
}

#[test]
fn test_per_track_duration_calculation() {
    let mut desc = Desc {
        moov_mvhd_timescale: 1000,
        file_creation_times: vec![Some(0), Some(6 * SECOND)],
        file_durations: vec![Seconds::new(2, 1), Seconds::new(3, 1)],
        track_file_durations: vec![
            vec![Seconds::new(2, 1), Seconds::new(3, 1)],
            vec![Seconds::new(3, 2), Seconds::new(5, 2)],
        ],
        ..Default::default()
    };

    let video_track =
        TrackDesc { mdhd_timescale: 30000, handler_type: "vide".to_string(), ..Default::default() };
    let gps_track =
        TrackDesc { mdhd_timescale: 1000, handler_type: "meta".to_string(), ..Default::default() };

    desc.moov_tracks.push(video_track);
    desc.moov_tracks.push(gps_track);

    compute_gaps_and_edit_lists(&mut desc).unwrap();

    let video_track = &desc.moov_tracks[0];
    let gps_track = &desc.moov_tracks[1];

    assert!(!video_track.elst_entries.is_empty(), "Video track should have ELST entries");
    assert!(!gps_track.elst_entries.is_empty(), "GPS metadata track should have ELST entries");

    assert_eq!(video_track.elst_entries[0].segment_duration, 2000);
    assert_eq!(video_track.elst_entries[2].segment_duration, 3000);

    assert_eq!(gps_track.elst_entries[0].segment_duration, 1500);
    assert_eq!(gps_track.elst_entries[2].segment_duration, 2500);

    assert_eq!(gps_track.elst_entries[0].media_time, 0);
    assert_eq!(gps_track.elst_entries[2].media_time, 1500);

    assert_eq!(video_track.elst_entries[0].media_time, 0);
    assert_eq!(video_track.elst_entries[2].media_time, 60000);
}

#[test]
fn test_gps_metadata_track_elst_generation() {
    let mut desc = Desc {
        moov_mvhd_timescale: 1000,
        file_creation_times: vec![Some(0), Some(4 * SECOND)],
        file_durations: vec![Seconds::new(1, 1), Seconds::new(2, 1)],
        ..Default::default()
    };

    let video_track =
        TrackDesc { mdhd_timescale: 30000, handler_type: "vide".to_string(), ..Default::default() };
    let gps_track =
        TrackDesc { mdhd_timescale: 1000, handler_type: "meta".to_string(), ..Default::default() };

    desc.moov_tracks.push(video_track);
    desc.moov_tracks.push(gps_track);

    compute_gaps_and_edit_lists(&mut desc).unwrap();

    let video_track = &desc.moov_tracks[0];
    let gps_track = &desc.moov_tracks[1];

    assert!(!video_track.elst_entries.is_empty(), "Video track should have ELST entries");
    assert!(!gps_track.elst_entries.is_empty(), "GPS metadata track should have ELST entries");

    assert_eq!(video_track.elst_segment_duration, 6000);
    assert_eq!(gps_track.elst_segment_duration, 6000);

    assert_eq!(video_track.elst_entries.len(), 3);
    assert_eq!(gps_track.elst_entries.len(), 3);

    assert_eq!(gps_track.elst_entries[0].segment_duration, 1000);
    assert_eq!(gps_track.elst_entries[0].media_time, 0);

    assert_eq!(gps_track.elst_entries[1].segment_duration, 3000);
    assert_eq!(gps_track.elst_entries[1].media_time, -1);

    assert_eq!(gps_track.elst_entries[2].segment_duration, 2000);
    assert_eq!(gps_track.elst_entries[2].media_time, 1000);

    assert_eq!(gps_track.tkhd_duration, 6000);
}

#[test]
fn test_gpmf_metadata_track_handling() {
    let mut desc = Desc {
        moov_mvhd_timescale: 1000,
        file_creation_times: vec![Some(0), Some(5 * SECOND)],
        file_durations: vec![Seconds::new(2, 1), Seconds::new(3, 1)],
        ..Default::default()
    };

    let video_track =
        TrackDesc { mdhd_timescale: 30000, handler_type: "vide".to_string(), ..Default::default() };
    let gpmf_track =
        TrackDesc { mdhd_timescale: 1000, handler_type: "meta".to_string(), ..Default::default() };

    desc.moov_tracks.push(video_track);
    desc.moov_tracks.push(gpmf_track);

    compute_gaps_and_edit_lists(&mut desc).unwrap();

    let video_track = &desc.moov_tracks[0];
    let gpmf_track = &desc.moov_tracks[1];

    assert!(!video_track.elst_entries.is_empty(), "Video track should have ELST entries");
    assert!(!gpmf_track.elst_entries.is_empty(), "GPMF metadata track should have ELST entries");

    assert_eq!(video_track.elst_segment_duration, 8000);
    assert_eq!(gpmf_track.elst_segment_duration, 8000);

    assert_eq!(gpmf_track.elst_entries[0].segment_duration, 2000);
    assert_eq!(gpmf_track.elst_entries[0].media_time, 0);

    assert_eq!(gpmf_track.elst_entries[1].segment_duration, 3000);
    assert_eq!(gpmf_track.elst_entries[1].media_time, -1);

    assert_eq!(gpmf_track.elst_entries[2].segment_duration, 3000);
    assert_eq!(gpmf_track.elst_entries[2].media_time, 2000);

    assert_eq!(video_track.handler_type, "vide");
    assert_eq!(gpmf_track.handler_type, "meta");

    assert_eq!(gpmf_track.tkhd_duration, 8000);
}

#[test]
fn two_files_with_three_second_gap() {
    let mut desc = Desc {
        moov_mvhd_timescale: 1000,
        moov_mvhd_duration: 5000,
        file_creation_times: vec![Some(0), Some(5 * SECOND)],
        file_durations: vec![Seconds::new(96000, 48000), Seconds::new(144000, 48000)],
        track_file_durations: vec![vec![Seconds::new(96000, 48000), Seconds::new(144000, 48000)]],
        ..Default::default()
    };
    desc.moov_tracks.push(TrackDesc { mdhd_timescale: 48000, ..Default::default() });

    assert_eq!(compute_gaps_and_edit_lists(&mut desc), Ok(()));

    let rate = 0x10000;
    assert_eq!(
        desc.moov_tracks[0].elst_entries,
        vec![
            EditListEntry { segment_duration: 2000, media_time: 0, media_rate: rate },
            EditListEntry { segment_duration: 3000, media_time: -1, media_rate: rate },
            EditListEntry { segment_duration: 3000, media_time: 96000, media_rate: rate },
        ]
    );
    assert_eq!(desc.moov_tracks[0].elst_segment_duration, 8000);
    assert_eq!(desc.moov_tracks[0].tkhd_duration, 384000);
    assert_eq!(desc.moov_mvhd_duration, 8000);
}

#[test]
fn track_length_is_rounded_to_the_nearest_unit() {
    let mut desc = Desc {
        moov_mvhd_timescale: 3,
        file_creation_times: vec![Some(0), Some(10 * SECOND)],
        file_durations: vec![Seconds::new(1, 1), Seconds::new(2, 3)],
        ..Default::default()
    };
    desc.moov_tracks.push(TrackDesc { mdhd_timescale: 2, ..Default::default() });
    desc.moov_tracks.push(TrackDesc { mdhd_timescale: 0, ..Default::default() });

    assert_eq!(compute_gaps_and_edit_lists(&mut desc), Ok(()));

    let rate = 0x10000;
    let track = &desc.moov_tracks[0];
    assert_eq!(
        track.elst_entries,
        vec![
            EditListEntry { segment_duration: 3, media_time: 0, media_rate: rate },
            EditListEntry { segment_duration: 27, media_time: -1, media_rate: rate },
            EditListEntry { segment_duration: 2, media_time: 2, media_rate: rate },
        ]
    );
    let sum: u64 = track.elst_entries.iter().map(|e| e.segment_duration).sum();
    assert_eq!(track.elst_segment_duration, sum);
    assert_eq!(track.elst_segment_duration, 32);
    assert_eq!(track.tkhd_duration, 21);
    let in_movie_units = track.tkhd_duration as i64 * 3;
    let in_media_units = track.elst_segment_duration as i64 * 2;
    assert!(2 * (in_movie_units - in_media_units).abs() <= 3);

    let untimed = &desc.moov_tracks[1];
    assert_eq!(untimed.elst_entries[2].media_time, 0);
    assert_eq!(untimed.tkhd_duration, 32);
    assert_eq!(desc.moov_mvhd_duration, 32);
}

#[test]
fn halves_round_up() {
    let mut desc = Desc {
        moov_mvhd_timescale: 1,
        file_creation_times: vec![Some(0), Some(4 * SECOND)],
        file_durations: vec![Seconds::new(3, 2), Seconds::new(1, 2)],
        ..Default::default()
    };
    desc.moov_tracks.push(TrackDesc { mdhd_timescale: 1000, ..Default::default() });
    assert_eq!(compute_gaps_and_edit_lists(&mut desc), Ok(()));
    let durations: Vec<u64> =
        desc.moov_tracks[0].elst_entries.iter().map(|e| e.segment_duration).collect();
    assert_eq!(durations, vec![2, 3, 1]);
    assert_eq!(desc.moov_tracks[0].elst_entries[2].media_time, 1500);
}

#[test]
fn without_creation_times_nothing_changes() {
    let mut desc = Desc {
        moov_mvhd_timescale: 1000,
        moov_mvhd_duration: 77,
        file_creation_times: vec![None, None, None],
        file_durations: vec![Seconds::new(2, 1), Seconds::new(3, 1), Seconds::new(4, 1)],
        ..Default::default()
    };
    desc.moov_tracks.push(TrackDesc {
        mdhd_timescale: 48000,
        tkhd_duration: 12345,
        elst_segment_duration: 9,
        elst_entries: vec![EditListEntry::default()],
        ..Default::default()
    });
    let before = format!("{:?}", desc);
    assert_eq!(compute_gaps_and_edit_lists(&mut desc), Ok(()));
    assert_eq!(format!("{:?}", desc), before);

    desc.file_creation_times = vec![Some(10 * SECOND), None, Some(SECOND)];
    let before = format!("{:?}", desc);
    assert_eq!(compute_gaps_and_edit_lists(&mut desc), Ok(()));
    assert_eq!(format!("{:?}", desc), before);

    desc.file_creation_times = vec![Some(0), Some(3 * SECOND), Some(6 * SECOND)];
    let before = format!("{:?}", desc);
    assert_eq!(compute_gaps_and_edit_lists(&mut desc), Ok(()));
    assert_eq!(format!("{:?}", desc), before);
}

#[test]
fn tracks_that_are_not_merged_keep_their_edit_list() {
    let mut desc = Desc {
        moov_mvhd_timescale: 1000,
        moov_mvhd_duration: 77,
        file_creation_times: vec![Some(0), Some(5 * SECOND)],
        file_durations: vec![Seconds::new(2, 1), Seconds::new(3, 1)],
        ..Default::default()
    };
    desc.moov_tracks.push(TrackDesc { skip: true, tkhd_duration: 5, ..Default::default() });
    desc.moov_tracks.push(TrackDesc { mdhd_timescale: 48000, ..Default::default() });
    assert_eq!(compute_gaps_and_edit_lists(&mut desc), Ok(()));
    assert!(desc.moov_tracks[0].elst_entries.is_empty());
    assert_eq!(desc.moov_tracks[0].tkhd_duration, 5);
    assert_eq!(desc.moov_tracks[1].elst_entries.len(), 3);
    assert_eq!(desc.moov_mvhd_duration, 77);
}

#[test]
fn numbers_that_do_not_fit_leave_the_descriptor_alone() {
    let mut desc = Desc {
        moov_mvhd_timescale: u32::MAX,
        file_creation_times: vec![Some(0), Some(5 * SECOND)],
        file_durations: vec![Seconds::new(2, 1), Seconds::new(u64::MAX, 1)],
        ..Default::default()
    };
    desc.moov_tracks.push(TrackDesc { mdhd_timescale: 48000, ..Default::default() });
    desc.moov_tracks.push(TrackDesc { mdhd_timescale: 1, ..Default::default() });
    let before = format!("{:?}", desc);
    assert_eq!(compute_gaps_and_edit_lists(&mut desc), Err(MergeError::Overflow));
    assert_eq!(format!("{:?}", desc), before);
}

#[test]
fn exact_fractions_agree_with_floating_point_on_ordinary_values() {
    let mut seed: u64 = 0x2545_f491_4f6c_dd1d;
    let mut next = |bound: u64| {
        seed = seed.wrapping_mul(6364136223846793005).wrapping_add(1442695040888963407);
        (seed >> 33) % bound
    };
    for movie_timescale in [600u32, 1000, 30000, 90000] {
        for media_timescale in [0u32, 1000, 29970, 48000] {
            let den = [1u32, 1000, 30000, 48000, 90000][next(5) as usize];
            let first = Seconds::new(next(600) * den as u64 / 7 + 1, den);
            let second = Seconds::new(next(600) * den as u64 / 11 + 1, den);
            let apart = next(900 * SECOND);
            let mut desc = Desc {
                moov_mvhd_timescale: movie_timescale,
                file_creation_times: vec![Some(SECOND), Some(SECOND + apart)],
                file_durations: vec![first, second],
                ..Default::default()
            };
            desc.moov_tracks.push(TrackDesc { mdhd_timescale: media_timescale, ..Default::default() });
            assert_eq!(compute_gaps_and_edit_lists(&mut desc), Ok(()));

            let seconds = |s: Seconds| s.num as f64 / s.den as f64;
            let gap = apart as f64 / 1e9 - seconds(first);
            let track = &desc.moov_tracks[0];
            if gap > 1.0 {
                let units = |s: f64, timescale: u32| (s * timescale as f64).round() as u64;
                let expected = vec![
                    EditListEntry {
                        segment_duration: units(seconds(first), movie_timescale),
                        media_time: 0,
                        media_rate: 0x10000,
                    },
                    EditListEntry {
                        segment_duration: units(gap, movie_timescale),
                        media_time: -1,
                        media_rate: 0x10000,
                    },
                    EditListEntry {
                        segment_duration: units(seconds(second), movie_timescale),
                        media_time: units(seconds(first), media_timescale) as i64,
                        media_rate: 0x10000,
                    },
                ];
                let close = |a: u64, b: u64| a.abs_diff(b) <= 1;
                assert_eq!(track.elst_entries.len(), 3);
                for (got, want) in track.elst_entries.iter().zip(&expected) {
                    assert!(close(got.segment_duration, want.segment_duration), "{got:?} {want:?}");
                    assert!(close(got.media_time as u64, want.media_time as u64), "{got:?} {want:?}");
                }
                let total: u64 = track.elst_entries.iter().map(|e| e.segment_duration).sum();
                assert_eq!(track.elst_segment_duration, total);
                let length = if media_timescale > 0 {
                    (total as f64 / movie_timescale as f64 * media_timescale as f64).round() as u64
                } else {
                    total
                };
                assert!(close(track.tkhd_duration, length));
            } else {
                assert!(track.elst_entries.is_empty());
            }
        }
    }
}
