use mp4_merge::boxes::{CO64, ELST, HDLR, MDHD, MVHD, SDTP, STCO, STSC, STSS, STSZ, STTS, TKHD, TMCD};
use mp4_merge::desc_reader::{read_leaf, walk_boxes};
use mp4_merge::units::scale_duration;
use mp4_merge::{read_desc, Desc, MergeError, Seconds};

fn words(values: &[u32]) -> Vec<u8> {
    let mut out = Vec::new();
    for v in values {
        out.extend_from_slice(&v.to_be_bytes());
    }
    out
}

fn boxed(typ: &str, body: &[u8]) -> Vec<u8> {
    let mut out = Vec::new();
    out.extend_from_slice(&((body.len() + 8) as u32).to_be_bytes());
    out.extend_from_slice(typ.as_bytes());
    out.extend_from_slice(body);
    out
}

fn desc_with_tracks(n: usize) -> Desc {
    let mut desc = Desc::default();
    desc.moov_tracks.resize(n, Default::default());
    desc.mvhd_timescale_per_file = vec![0];
    desc.mdat_position.push((Some(0), 100, 1000));
    desc
}

#[test]
fn test_dynamic_track_array_resizing() {
    let mut desc = Desc {
        track_file_durations: vec![vec![Seconds::zero(); 2]],
        file_creation_times: vec![None, None],
        ..Default::default()
    };

    desc.moov_tracks.resize(3, Default::default());

    let fake_mdhd_data = vec![
        0, 0, 0, 0, // Version and flags
        0, 0, 0, 0, // Creation time (v0)
        0, 0, 0, 0, // Modification time (v0)
        0x00, 0x00, 0x03, 0xE8, // Timescale: 1000 (big endian)
        0x00, 0x00, 0x07, 0xD0, // Duration: 2000 (big endian)
    ];

    let tl_track = 2;
    let file_index = 0;

    // The timescale stands behind version, flags, creation and modification time.
    assert_eq!(u32::from_be_bytes(fake_mdhd_data[12..16].try_into().unwrap()), 1000);

    read_leaf(&fake_mdhd_data, MDHD, 0, 20, &mut desc, tl_track, file_index).unwrap();

    assert_eq!(desc.track_file_durations.len(), 3);
    assert_eq!(desc.track_file_durations[2][0], Seconds::new(2000, 1000));
    assert_eq!(desc.track_file_durations[2].len(), 2);
    assert_eq!(desc.track_file_durations[1], vec![Seconds::zero(); 2]);
    assert_eq!(desc.moov_tracks[2].mdhd_timescale, 1000);
    assert_eq!(desc.moov_tracks[2].mdhd_duration, 2000);
}

#[test]
fn durations_are_scaled_rounding_up() {
    assert_eq!(scale_duration(2000, 1000, 1000), Ok(2000));
    assert_eq!(scale_duration(1000, 600, 1000), Ok(1667));
    assert_eq!(scale_duration(1, 3, 1), Ok(1));
    assert_eq!(scale_duration(0, 3, 1000), Ok(0));
    assert_eq!(scale_duration(3, 3, 1), Ok(1));
    assert_eq!(scale_duration(4, 3, 1), Ok(2));
    assert_eq!(scale_duration(u64::MAX, u32::MAX, u32::MAX), Ok(u64::MAX));
    assert_eq!(scale_duration(7, 5, 0), Ok(0));
    assert_eq!(scale_duration(7, 0, 5), Err(MergeError::InvariantViolation));
    assert_eq!(scale_duration(u64::MAX, 1, 2), Err(MergeError::Overflow));
}

#[test]
fn movie_header_sets_timescale_and_duration() {
    let mut desc = desc_with_tracks(1);
    let v0 = words(&[0, 0, 0, 600, 1200]);
    assert_eq!(read_leaf(&v0, MVHD, 0, 20, &mut desc, 0, 0), Ok(()));
    assert_eq!(desc.moov_mvhd_timescale, 600);
    assert_eq!(desc.mvhd_timescale_per_file, vec![600]);
    assert_eq!(desc.moov_mvhd_duration, 1200);

    let mut v1 = vec![1, 0, 0, 0];
    v1.extend_from_slice(&[0xaa; 16]);
    v1.extend_from_slice(&words(&[1000]));
    v1.extend_from_slice(&0x1_0000_0000u64.to_be_bytes());
    assert_eq!(read_leaf(&v1, MVHD, 0, 32, &mut desc, 0, 0), Ok(()));
    assert_eq!(desc.moov_mvhd_timescale, 600);
    assert_eq!(desc.mvhd_timescale_per_file, vec![1000]);
    assert_eq!(desc.moov_mvhd_duration, 1200 + 2_576_980_378);

    assert_eq!(read_leaf(&v1[..31], MVHD, 0, 32, &mut desc, 0, 0), Err(MergeError::UnexpectedEof));
    assert_eq!(read_leaf(&v0, MVHD, 0, 20, &mut desc, 0, 1), Err(MergeError::InvariantViolation));
    assert_eq!(desc.moov_mvhd_duration, 1200 + 2_576_980_378);
}

#[test]
fn track_header_is_converted_to_the_output_timescale() {
    let mut desc = desc_with_tracks(1);
    desc.moov_mvhd_timescale = 1000;
    desc.mvhd_timescale_per_file = vec![500];
    let v0 = words(&[0, 0, 0, 1, 0, 250]);
    assert_eq!(read_leaf(&v0, TKHD, 0, 24, &mut desc, 0, 0), Ok(()));
    assert_eq!(desc.moov_tracks[0].tkhd_duration, 500);

    let mut v1 = vec![1, 0, 0, 0];
    v1.extend_from_slice(&[0xbb; 24]);
    v1.extend_from_slice(&7u64.to_be_bytes());
    assert_eq!(read_leaf(&v1, TKHD, 0, 36, &mut desc, 0, 0), Ok(()));
    assert_eq!(desc.moov_tracks[0].tkhd_duration, 514);

    assert_eq!(read_leaf(&v0, TKHD, 0, 24, &mut desc, 5, 0), Ok(()));
    assert_eq!(read_leaf(&v0[..3], TKHD, 0, 24, &mut desc, 5, 0), Err(MergeError::UnexpectedEof));
    desc.mvhd_timescale_per_file = vec![0];
    assert_eq!(read_leaf(&v0, TKHD, 0, 24, &mut desc, 0, 0), Err(MergeError::InvariantViolation));
}

#[test]
fn edit_list_adds_segments_that_are_not_empty() {
    let mut desc = desc_with_tracks(1);
    let v0 = words(&[0, 3, 100, 0, 0x10000, 50, 0xffff_ffff, 0x10000, 7, 5]);
    assert_eq!(read_leaf(&v0, ELST, 0, v0.len() as u64, &mut desc, 0, 0), Ok(()));
    assert_eq!(desc.moov_tracks[0].elst_segment_duration, 107);

    let mut v1 = vec![1, 0, 0, 0];
    v1.extend_from_slice(&words(&[2]));
    v1.extend_from_slice(&1000u64.to_be_bytes());
    v1.extend_from_slice(&(-1i64).to_be_bytes());
    v1.extend_from_slice(&words(&[0x10000]));
    v1.extend_from_slice(&0x2_0000_0000u64.to_be_bytes());
    v1.extend_from_slice(&(-2i64).to_be_bytes());
    assert_eq!(read_leaf(&v1, ELST, 0, v1.len() as u64, &mut desc, 0, 0), Ok(()));
    assert_eq!(desc.moov_tracks[0].elst_segment_duration, 107 + 0x2_0000_0000);

    let cut = &v1[..v1.len() - 1];
    assert_eq!(read_leaf(cut, ELST, 0, 48, &mut desc, 0, 0), Err(MergeError::UnexpectedEof));
    desc.moov_tracks[0].elst_segment_duration = u64::MAX - 106;
    assert_eq!(read_leaf(&v0, ELST, 0, 40, &mut desc, 0, 0), Err(MergeError::Overflow));
    assert_eq!(desc.moov_tracks[0].elst_segment_duration, u64::MAX - 106);
}

#[test]
fn tables_are_appended_and_renumbered() {
    let mut desc = desc_with_tracks(2);
    desc.mdat_offset = 5000;
    {
        let t = &mut desc.moov_tracks[1];
        t.sample_offset = 10;
        t.chunk_offset = 3;
        t.stss = vec![1];
        t.stco = vec![7];
    }
    let stss = words(&[0, 2, 1, 6]);
    assert_eq!(read_leaf(&stss, STSS, 0, 16, &mut desc, 1, 1), Ok(()));
    assert_eq!(desc.moov_tracks[1].stss, vec![1, 11, 16]);

    let stco = words(&[0, 2, 100, 1099]);
    assert_eq!(read_leaf(&stco, STCO, 0, 16, &mut desc, 1, 1), Ok(()));
    assert_eq!(desc.moov_tracks[1].stco, vec![7, 5000, 5999]);

    let mut co64 = words(&[0, 1]);
    co64.extend_from_slice(&0x1_0000_0064u64.to_be_bytes());
    assert_eq!(read_leaf(&co64, CO64, 0, 16, &mut desc, 1, 1), Ok(()));
    assert_eq!(desc.moov_tracks[1].stco, vec![7, 5000, 5999, 0x1_0000_0000 + 5000]);

    let stts = words(&[0, 2, 30, 1001, 1, 500]);
    assert_eq!(read_leaf(&stts, STTS, 0, 24, &mut desc, 1, 1), Ok(()));
    assert_eq!(desc.moov_tracks[1].stts, vec![(30, 1001), (1, 500)]);

    let stsc = words(&[0, 2, 1, 4, 1, 2, 3, 1]);
    assert_eq!(read_leaf(&stsc, STSC, 0, 32, &mut desc, 1, 1), Ok(()));
    assert_eq!(desc.moov_tracks[1].stsc, vec![(4, 4, 1), (5, 3, 1)]);

    let stsz = words(&[0, 0, 3, 9, 8, 7]);
    assert_eq!(read_leaf(&stsz, STSZ, 0, 24, &mut desc, 1, 1), Ok(()));
    assert_eq!(desc.moov_tracks[1].stsz, vec![9, 8, 7]);
    assert_eq!(desc.moov_tracks[1].stsz_count, 3);
    let fixed = words(&[0, 512, 4]);
    assert_eq!(read_leaf(&fixed, STSZ, 0, 12, &mut desc, 1, 1), Ok(()));
    assert_eq!(desc.moov_tracks[1].stsz, vec![9, 8, 7]);
    assert_eq!(desc.moov_tracks[1].stsz_sample_size, 512);
    assert_eq!(desc.moov_tracks[1].stsz_count, 7);

    let sdtp = vec![0, 0, 0, 0, 1, 2, 3, 99];
    assert_eq!(read_leaf(&sdtp, SDTP, 0, 7, &mut desc, 1, 1), Ok(()));
    assert_eq!(desc.moov_tracks[1].sdtp, vec![1, 2, 3]);

    assert!(desc.moov_tracks[0].stss.is_empty());
}

#[test]
fn tables_that_cannot_be_taken_are_errors() {
    let mut desc = desc_with_tracks(1);
    let stss = words(&[0, 2, 1, 6]);
    assert_eq!(read_leaf(&stss, STSS, 0, 16, &mut desc, 1, 0), Err(MergeError::InvariantViolation));
    assert_eq!(read_leaf(&stss[..15], STSS, 0, 16, &mut desc, 0, 0), Err(MergeError::UnexpectedEof));
    assert_eq!(read_leaf(&stss[..3], STSS, 0, 16, &mut desc, 0, 0), Err(MergeError::UnexpectedEof));
    desc.moov_tracks[0].sample_offset = u32::MAX - 5;
    assert_eq!(read_leaf(&stss, STSS, 0, 16, &mut desc, 0, 0), Err(MergeError::Overflow));
    assert!(desc.moov_tracks[0].stss.is_empty());

    let stco = words(&[0, 1, 99]);
    assert_eq!(read_leaf(&stco, STCO, 0, 12, &mut desc, 0, 0), Err(MergeError::Overflow));
    desc.mdat_position.clear();
    assert_eq!(read_leaf(&stco, STCO, 0, 12, &mut desc, 0, 0), Err(MergeError::InvariantViolation));

    let sdtp = vec![0, 0, 0, 0, 1];
    assert_eq!(read_leaf(&sdtp, SDTP, 0, 3, &mut desc, 0, 0), Err(MergeError::MalformedBox));
    assert_eq!(read_leaf(&sdtp, SDTP, 0, 6, &mut desc, 0, 0), Err(MergeError::UnexpectedEof));

    desc.moov_tracks[0].stsz_count = u32::MAX;
    let stsz = words(&[0, 4, 1]);
    assert_eq!(read_leaf(&stsz, STSZ, 0, 12, &mut desc, 0, 0), Err(MergeError::Overflow));
    assert_eq!(desc.moov_tracks[0].stsz_sample_size, 0);
}

#[test]
fn handler_and_timecode_mark_the_track() {
    let mut desc = desc_with_tracks(1);
    let mut hdlr = words(&[0, 0]);
    hdlr.extend_from_slice(b"soun");
    assert_eq!(read_leaf(&hdlr, HDLR, 0, 12, &mut desc, 0, 0), Ok(()));
    assert_eq!(desc.moov_tracks[0].handler_type, "soun");
    assert_eq!(read_leaf(&hdlr[..11], HDLR, 0, 12, &mut desc, 0, 0), Err(MergeError::UnexpectedEof));
    assert_eq!(read_leaf(&hdlr, HDLR, 0, 12, &mut desc, 1, 0), Err(MergeError::InvariantViolation));

    assert!(!desc.moov_tracks[0].skip);
    assert_eq!(read_leaf(&[], TMCD, 0, 0, &mut desc, 0, 0), Ok(()));
    assert!(desc.moov_tracks[0].skip);
    assert_eq!(read_leaf(&[], TMCD, 0, 0, &mut desc, 3, 0), Err(MergeError::InvariantViolation));

    let stss = words(&[0, 1, 1]);
    assert_eq!(read_leaf(&stss, STSS, 0, 12, &mut desc, 0, 1), Ok(()));
    assert!(desc.moov_tracks[0].stss.is_empty());
    assert_eq!(read_leaf(&stss, STSS, 0, 12, &mut desc, 0, 0), Ok(()));
    assert_eq!(desc.moov_tracks[0].stss, vec![1]);
}

#[test]
fn walk_counts_tracks_and_stops_at_its_limit() {
    let hdlr = |name: &str| {
        let mut body = words(&[0, 0]);
        body.extend_from_slice(name.as_bytes());
        boxed("hdlr", &body)
    };
    let first = boxed("trak", &boxed("mdia", &hdlr("vide")));
    let second = boxed("trak", &boxed("mdia", &hdlr("soun")));
    let third = boxed("trak", &boxed("mdia", &hdlr("meta")));
    let moov_body = [first.clone(), second.clone(), third].concat();
    let data = [boxed("ftyp", b"isom"), boxed("moov", &moov_body), boxed("free", &[])].concat();

    let mut desc = desc_with_tracks(3);
    assert_eq!(read_desc(&data, 0, &mut desc, 0, u64::MAX, 0), Ok(data.len() as u64));
    let names: Vec<&str> = desc.moov_tracks.iter().map(|t| t.handler_type.as_str()).collect();
    assert_eq!(names, vec!["vide", "soun", "meta"]);

    let mut desc = desc_with_tracks(3);
    let limit = (12 + 8 + first.len() + second.len()) as u64;
    assert_eq!(walk_boxes(&data, 12, &mut desc, 0, 1, 0), Ok(12 + 8 + moov_body.len() as u64));
    let mut desc = desc_with_tracks(3);
    assert_eq!(read_desc(&data, 20, &mut desc, 1, limit - 20, 0), Ok(limit));
    let names: Vec<&str> = desc.moov_tracks.iter().map(|t| t.handler_type.as_str()).collect();
    assert_eq!(names, vec!["", "vide", "soun"]);

    let mut desc = desc_with_tracks(2);
    assert_eq!(read_desc(&data, 0, &mut desc, 0, u64::MAX, 0), Err(MergeError::InvariantViolation));
    assert_eq!(desc.moov_tracks[1].handler_type, "soun");
    assert_eq!(desc.mvhd_timescale_per_file, vec![0]);
    let mut desc = Desc::default();
    assert_eq!(read_desc(&[], 5, &mut desc, 0, 0, 2), Ok(5));
    assert_eq!(desc.mvhd_timescale_per_file, vec![0, 0, 0]);
}

#[test]
fn walk_stops_at_an_empty_box_and_rejects_a_broken_one() {
    let mut hdlr = words(&[0, 0]);
    hdlr.extend_from_slice(b"vide");
    let data = [boxed("free", &[1, 2]), vec![0u8; 8], boxed("hdlr", &hdlr)].concat();
    let mut desc = desc_with_tracks(1);
    assert_eq!(read_desc(&data, 0, &mut desc, 0, u64::MAX, 0), Ok(18));
    assert_eq!(desc.moov_tracks[0].handler_type, "");

    let broken = [words(&[7]), b"free".to_vec(), boxed("hdlr", &hdlr)].concat();
    assert_eq!(read_desc(&broken, 0, &mut desc, 0, u64::MAX, 0), Err(MergeError::MalformedBox));
    let mut huge = words(&[1]);
    huge.extend_from_slice(b"free");
    huge.extend_from_slice(&u64::MAX.to_be_bytes());
    huge.extend_from_slice(&huge.clone());
    assert_eq!(read_desc(&huge, 16, &mut desc, 0, u64::MAX, 0), Err(MergeError::MalformedBox));

    let inner = boxed("free", &[]);
    let many = [boxed("trak", &inner), boxed("trak", &inner)].concat();
    assert_eq!(walk_boxes(&many, 0, &mut desc, usize::MAX - 2, u64::MAX, 0), Ok(32));
    assert_eq!(
        walk_boxes(&many, 0, &mut desc, usize::MAX - 1, u64::MAX, 0),
        Err(MergeError::Overflow)
    );
}
