use mp4_merge::boxes::{CO64, ELST, SDTP, STCO, STSC, STSS, STSZ, STTS};
use mp4_merge::emit::{build_table_box, coalesce_stts};
use mp4_merge::{
    get_first, patch_bytes, rewrite_from_desc, Desc, EditListEntry, MergeError, TrackDesc,
};

fn words(values: &[u32]) -> Vec<u8> {
    let mut out = Vec::new();
    for v in values {
        out.extend_from_slice(&v.to_be_bytes());
    }
    out
}

fn boxed(typ: &str, body: &[u8]) -> Vec<u8> {
    let mut out = Vec::new();
    out.extend_from_slice(&((body.len() + 8) as u32).to_be_bytes());
    out.extend_from_slice(typ.as_bytes());
    out.extend_from_slice(body);
    out
}

fn desc_with_tracks(n: usize) -> Desc {
    let mut desc = Desc::default();
    desc.moov_tracks.resize(n, Default::default());
    desc
}

#[test]
fn patch_overwrites_written_bytes_only() {
    let mut out = vec![1u8, 2, 3, 4, 5, 6];
    assert_eq!(patch_bytes(&mut out, 2, &[9, 8, 7]), Ok(()));
    assert_eq!(out, vec![1, 2, 9, 8, 7, 6]);
    assert_eq!(patch_bytes(&mut out, 3, &[0, 0, 0]), Ok(()));
    assert_eq!(out, vec![1, 2, 9, 0, 0, 0]);
    assert_eq!(patch_bytes(&mut out, 6, &[]), Ok(()));
    assert_eq!(patch_bytes(&mut out, 4, &[5, 5, 5]), Err(MergeError::InvariantViolation));
    assert_eq!(patch_bytes(&mut out, 7, &[]), Err(MergeError::InvariantViolation));
    assert_eq!(patch_bytes(&mut out, u64::MAX, &[1]), Err(MergeError::InvariantViolation));
    assert_eq!(out, vec![1, 2, 9, 0, 0, 0]);
}

#[test]
fn first_file_drives_the_rewrite() {
    let files = vec![vec![1u8, 2], vec![3u8]];
    assert_eq!(get_first(&files), &vec![1u8, 2]);
}

#[test]
fn runs_of_one_delta_become_one_entry() {
    let merged = coalesce_stts(&vec![(2, 10), (3, 10), (1, 20), (4, 10), (5, 10), (6, 10)]);
    assert_eq!(merged, Some(vec![(5, 10), (1, 20), (15, 10)]));
    assert_eq!(coalesce_stts(&vec![]), Some(vec![]));
    assert_eq!(coalesce_stts(&vec![(u32::MAX, 1), (0, 1)]), Some(vec![(u32::MAX, 1)]));
    assert_eq!(coalesce_stts(&vec![(u32::MAX, 1), (1, 1)]), None);
    assert_eq!(coalesce_stts(&vec![(u32::MAX, 1), (1, 2)]), Some(vec![(u32::MAX, 1), (1, 2)]));
}

#[test]
fn tables_are_written_from_the_track() {
    let track = TrackDesc {
        stts: vec![(1, 100), (2, 100), (3, 50)],
        stsz: vec![7, 8],
        stsz_count: 2,
        stss: vec![1, 5],
        stco: vec![0, 0x1_0000_0000],
        stsc: vec![(1, 2, 3)],
        sdtp: vec![0xab],
        mdhd_duration: 900,
        elst_segment_duration: 1000,
        ..Default::default()
    };
    let stts = [words(&[12 + 4 + 16]), b"stts".to_vec(), words(&[0, 2, 3, 100, 3, 50])].concat();
    assert_eq!(build_table_box(STTS, &track, 0), Some(stts));
    let stsz = [words(&[28]), b"stsz".to_vec(), words(&[0, 0, 2, 7, 8])].concat();
    assert_eq!(build_table_box(STSZ, &track, 0), Some(stsz));
    let stss = [words(&[24]), b"stss".to_vec(), words(&[0, 2, 1, 5])].concat();
    assert_eq!(build_table_box(STSS, &track, 0), Some(stss));
    let stsc = [words(&[28]), b"stsc".to_vec(), words(&[0, 1, 1, 2, 3])].concat();
    assert_eq!(build_table_box(STSC, &track, 0), Some(stsc));
    let sdtp = [words(&[13]), b"sdtp".to_vec(), words(&[0]), vec![0xab]].concat();
    assert_eq!(build_table_box(SDTP, &track, 0), Some(sdtp));
    let co64 = [words(&[32]), b"co64".to_vec(), words(&[0, 2, 0, 0x30, 1, 0x30])].concat();
    assert_eq!(build_table_box(STCO, &track, 0x30), Some(co64.clone()));
    assert_eq!(build_table_box(CO64, &track, 0x30), Some(co64));
    assert_eq!(build_table_box(CO64, &track, u64::MAX - 0xffff_ffff), None);

    let elst = [
        words(&[36]),
        b"elst".to_vec(),
        vec![1, 0, 0, 0],
        words(&[1, 0, 1000, 0, 0, 0x10000]),
    ]
    .concat();
    assert_eq!(build_table_box(ELST, &track, 0), Some(elst));
}

#[test]
fn edit_list_is_written_with_64_bit_entries() {
    let mut track = TrackDesc { mdhd_duration: 900, elst_segment_duration: 0, ..Default::default() };
    let fallback = build_table_box(ELST, &track, 0).unwrap();
    assert_eq!(&fallback[16..24], &900u64.to_be_bytes());

    track.elst_entries = vec![
        EditListEntry { segment_duration: 0x1_0000_0002, media_time: -1, media_rate: 0x10000 },
        EditListEntry { segment_duration: 5, media_time: 0x7fff_ffff_ffff_fff0, media_rate: 3 },
    ];
    let written = build_table_box(ELST, &track, 0).unwrap();
    let expected = [
        words(&[16 + 40]),
        b"elst".to_vec(),
        vec![1, 0, 0, 0],
        words(&[2, 1, 2, 0xffff_ffff, 0xffff_ffff, 0x10000]),
        words(&[0, 5, 0x7fff_ffff, 0xffff_fff0, 3]),
    ]
    .concat();
    assert_eq!(written, expected);
    assert_eq!(EditListEntry::default().media_rate, 0x10000);
    assert_eq!(EditListEntry::default().segment_duration, 0);
    assert_eq!(EditListEntry::default().media_time, 0);
}

#[test]
fn sizes_are_written_only_where_there_is_no_common_size() {
    let track = TrackDesc {
        stsz: vec![7, 8],
        stsz_sample_size: 512,
        stsz_count: 9,
        ..Default::default()
    };
    let stsz = [words(&[20]), b"stsz".to_vec(), words(&[0, 512, 9])].concat();
    assert_eq!(build_table_box(STSZ, &track, 0), Some(stsz));
}

#[test]
fn headers_get_the_merged_durations() {
    let mvhd = boxed("mvhd", &words(&[0, 1, 2, 1000, 77, 0xdead_beef]));
    let mut tkhd_body = vec![1, 0, 0, 1];
    tkhd_body.extend_from_slice(&[0x11; 24]);
    tkhd_body.extend_from_slice(&[0x22; 8]);
    tkhd_body.extend_from_slice(&[0x33; 4]);
    let tkhd = boxed("tkhd", &tkhd_body);
    let mut mdhd_body = vec![1, 0, 0, 0];
    mdhd_body.extend_from_slice(&[0x44; 20]);
    mdhd_body.extend_from_slice(&[0x55; 8]);
    let mdhd = boxed("mdhd", &mdhd_body);
    let trak = boxed("trak", &[tkhd.clone(), boxed("mdia", &mdhd)].concat());
    let file = boxed("moov", &[mvhd, boxed("udta", b"hello"), trak].concat());

    let mut desc = desc_with_tracks(1);
    desc.moov_mvhd_duration = 4000;
    desc.moov_tracks[0].tkhd_duration = 0x1_0000_0007;
    desc.moov_tracks[0].mdhd_duration = 192000;
    let mut out = vec![0xee, 0xee];
    let files = vec![file.clone()];
    let done = rewrite_from_desc(&files, 0, &mut out, &mut desc, 0, u64::MAX);
    assert_eq!(done, Ok((file.len() as u64, file.len() as u64)));

    let mut expected = file.clone();
    expected[8 + 8 + 16..8 + 8 + 20].copy_from_slice(&4000u32.to_be_bytes());
    let tkhd_at = 8 + 32 + 13 + 8;
    expected[tkhd_at + 8 + 28..tkhd_at + 8 + 36].copy_from_slice(&0x1_0000_0007u64.to_be_bytes());
    let mdhd_at = tkhd_at + tkhd.len() + 8;
    expected[mdhd_at + 8 + 24..mdhd_at + 8 + 32].copy_from_slice(&192000u64.to_be_bytes());
    assert_eq!(&out[..2], &[0xee, 0xee]);
    assert_eq!(&out[2..], &expected[..]);

    desc.moov_mvhd_duration = 0x1_0000_0000;
    let mut out = Vec::new();
    assert_eq!(
        rewrite_from_desc(&files, 0, &mut out, &mut desc, 0, u64::MAX),
        Err(MergeError::Overflow)
    );
    assert_eq!(out, file[..8].to_vec());
}

#[test]
fn container_sizes_follow_what_was_written() {
    let stts = boxed("stts", &words(&[0, 3, 1, 10, 1, 10, 1, 10]));
    let stco = boxed("stco", &words(&[0, 1, 48]));
    let stbl = boxed("stbl", &[stts, stco].concat());
    let file = [boxed("trak", &boxed("mdia", &stbl)), boxed("free", &[1, 2, 3])].concat();

    let mut desc = desc_with_tracks(1);
    desc.mdat_final_position = 1000;
    desc.moov_tracks[0].stts = vec![(1, 10), (1, 10), (1, 10)];
    desc.moov_tracks[0].stco = vec![5, 6];
    let mut out = Vec::new();
    let files = vec![file.clone()];
    let new_stbl = boxed(
        "stbl",
        &[
            boxed("stts", &words(&[0, 1, 3, 10])),
            boxed("co64", &words(&[0, 2, 0, 1005, 0, 1006])),
        ]
        .concat(),
    );
    let expected = [boxed("trak", &boxed("mdia", &new_stbl)), boxed("free", &[1, 2, 3])].concat();
    assert_eq!(
        rewrite_from_desc(&files, 0, &mut out, &mut desc, 0, u64::MAX),
        Ok((expected.len() as u64, file.len() as u64))
    );
    assert_eq!(out, expected);
    assert_eq!(desc.moov_tracks[0].co64_final_position, (8 + 8 + 8 + 24 + 16) as u64);

    let mut out = Vec::new();
    let trak_len = file.len() as u64 - 11;
    assert_eq!(
        rewrite_from_desc(&files, 0, &mut out, &mut desc, 0, trak_len),
        Ok((expected.len() as u64 - 11, trak_len))
    );
    assert_eq!(out, expected[..expected.len() - 11].to_vec());
}

#[test]
fn rewrite_fails_where_the_descriptor_or_the_input_falls_short() {
    let mut desc = desc_with_tracks(1);
    let mut out = Vec::new();
    assert_eq!(
        rewrite_from_desc(&[], 0, &mut out, &mut desc, 0, u64::MAX),
        Err(MergeError::InvariantViolation)
    );

    let stts = vec![boxed("stts", &words(&[0, 0]))];
    assert_eq!(
        rewrite_from_desc(&stts, 0, &mut out, &mut desc, 1, u64::MAX),
        Err(MergeError::InvariantViolation)
    );

    let short = vec![boxed("mvhd", &words(&[0, 1, 2, 1000]))];
    assert_eq!(
        rewrite_from_desc(&short, 0, &mut out, &mut desc, 0, u64::MAX),
        Err(MergeError::MalformedBox)
    );

    let mut cut = boxed("free", &[0u8; 8]);
    cut.truncate(12);
    assert_eq!(
        rewrite_from_desc(&[cut], 0, &mut out, &mut desc, 0, u64::MAX),
        Err(MergeError::UnexpectedEof)
    );
    assert!(out.is_empty());

    desc.mdat_position = vec![(Some(0), 8, 4), (None, 0, 99), (Some(7), 0, 99)];
    let mdat = vec![boxed("mdat", b"abcdefgh")];
    assert_eq!(rewrite_from_desc(&mdat, 0, &mut out, &mut desc, 0, u64::MAX), Ok((20, 16)));
    assert_eq!(out, [words(&[1]), b"mdat".to_vec(), words(&[0, 20]), b"abcd".to_vec()].concat());
    assert_eq!(desc.mdat_final_position, 16);

    desc.mdat_position = vec![(Some(0), 8, 9)];
    let mut out = Vec::new();
    assert_eq!(
        rewrite_from_desc(&mdat, 0, &mut out, &mut desc, 0, u64::MAX),
        Err(MergeError::UnexpectedEof)
    );
    assert!(out.is_empty());
}
