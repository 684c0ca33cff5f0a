use mp4_merge::{
    detect_gpmf_files, merge_gpmf_metadata, GpmfGpsSample, GpmfProcessor, GpmfTrackData,
    MergeError,
};

/// Degrees in the unit of the GPS stream.
fn degrees(d: f64) -> i32 {
    (d * 1e7).round() as i32
}

/// Metres, or metres per second, in thousandths.
fn milli(m: f64) -> i32 {
    (m * 1e3).round() as i32
}

/// Metres per second in hundredths.
fn centi(m: f64) -> i32 {
    (m * 1e2).round() as i32
}

/// Seconds in microseconds.
fn micros(s: f64) -> u64 {
    (s * 1e6).round() as u64
}

fn boxed(typ: &str, body: &[u8]) -> Vec<u8> {
    let mut out = Vec::new();
    out.extend_from_slice(&((body.len() + 8) as u32).to_be_bytes());
    out.extend_from_slice(typ.as_bytes());
    out.extend_from_slice(body);
    out
}

fn concat(parts: &[Vec<u8>]) -> Vec<u8> {
    let mut out = Vec::new();
    for p in parts {
        out.extend_from_slice(p);
    }
    out
}

fn hdlr(handler: &str) -> Vec<u8> {
    let mut body = vec![0u8; 8];
    body.extend_from_slice(handler.as_bytes());
    body.extend_from_slice(&[0u8; 13]);
    boxed("hdlr", &body)
}

fn stsd(entry: &str) -> Vec<u8> {
    boxed("stsd", &concat(&[vec![0, 0, 0, 0, 0, 0, 0, 1], boxed(entry, &[0u8; 8])]))
}

#[test]
fn test_gpmf_processor_creation() {
    let processor = GpmfProcessor::new();
    assert_eq!(processor.tracks.len(), 0);
    assert_eq!(processor.total_duration_us, micros(0.0));
}

#[test]
fn test_gpmf_sample_creation() {
    let sample = GpmfGpsSample {
        timestamp_us: 1000000,
        latitude: degrees(37.7749),
        longitude: degrees(-122.4194),
        altitude: milli(100.0),
        speed_2d: milli(5.0),
        speed_3d: centi(5.1),
    };

    assert_eq!(sample.timestamp_us, 1000000);
    assert_eq!(sample.latitude, degrees(37.7749));
    assert_eq!(sample.longitude, degrees(-122.4194));
    assert_eq!(sample.latitude, 377_749_000);
    assert_eq!(sample.longitude, -1_224_194_000);
}

#[test]
fn test_empty_gpmf_merge() {
    let processor = GpmfProcessor::new();
    let file_durations = vec![micros(1.0), micros(2.0)];

    let merged_samples = processor.merge_gpmf_tracks(&file_durations).unwrap();
    assert_eq!(merged_samples.len(), 0);
}

#[test]
fn test_gpmf_detection_with_empty_file() {
    let empty: Vec<u8> = Vec::new();
    let result = GpmfProcessor::detect_gpmf_in_file(&empty).unwrap();
    assert_eq!(result, false);
}

#[test]
fn test_gpmf_track_merging_with_timestamps() {
    let mut processor = GpmfProcessor::new();

    let track1 = GpmfTrackData {
        samples: vec![
            GpmfGpsSample {
                timestamp_us: 1000000,
                latitude: degrees(37.7749),
                longitude: degrees(-122.4194),
                altitude: milli(100.0),
                speed_2d: milli(5.0),
                speed_3d: centi(5.1),
            },
            GpmfGpsSample {
                timestamp_us: 2000000,
                latitude: degrees(37.7750),
                longitude: degrees(-122.4195),
                altitude: milli(101.0),
                speed_2d: milli(5.1),
                speed_3d: centi(5.2),
            },
        ],
        duration_us: micros(2.0),
        sample_rate_mhz: 1000,
    };

    let track2 = GpmfTrackData {
        samples: vec![GpmfGpsSample {
            timestamp_us: 1000000,
            latitude: degrees(37.7751),
            longitude: degrees(-122.4196),
            altitude: milli(102.0),
            speed_2d: milli(4.8),
            speed_3d: centi(4.9),
        }],
        duration_us: micros(1.0),
        sample_rate_mhz: 1000,
    };

    processor.tracks.push(track1);
    processor.tracks.push(track2);
    processor.total_duration_us = micros(3.0);

    let file_durations = vec![micros(2.0), micros(1.0)];
    let merged_samples = processor.merge_gpmf_tracks(&file_durations).unwrap();

    assert_eq!(merged_samples.len(), 3);

    assert_eq!(merged_samples[0].timestamp_us, 1000000);
    assert_eq!(merged_samples[1].timestamp_us, 2000000);

    assert_eq!(merged_samples[2].timestamp_us, 3000000);

    assert_eq!(merged_samples[0].latitude, degrees(37.7749));
    assert_eq!(merged_samples[2].latitude, degrees(37.7751));
}

#[test]
fn test_detect_gpmf_files_integration() {
    let empty_data: Vec<u8> = vec![];
    let files = vec![empty_data];

    let result = detect_gpmf_files(&files).unwrap();
    assert_eq!(result.len(), 1);
    assert_eq!(result[0], false);
}

#[test]
fn test_merge_gpmf_metadata_integration() {
    let empty_data: Vec<u8> = vec![];
    let files = vec![empty_data.clone(), empty_data];
    let file_durations = vec![micros(1.0), micros(2.0)];
    let mut output = Vec::new();

    let result = merge_gpmf_metadata(&files, &file_durations, &mut output);
    assert!(result.is_ok());
    assert!(output.is_empty());
}

#[test]
fn merged_timestamps_that_do_not_fit_are_an_error() {
    let sample = GpmfGpsSample {
        timestamp_us: 1,
        latitude: 0,
        longitude: 0,
        altitude: 0,
        speed_2d: 0,
        speed_3d: 0,
    };
    let mut processor = GpmfProcessor::new();
    processor.tracks.push(GpmfTrackData {
        samples: vec![],
        duration_us: u64::MAX,
        sample_rate_mhz: 1000,
    });
    processor.tracks.push(GpmfTrackData {
        samples: vec![sample],
        duration_us: 5,
        sample_rate_mhz: 1000,
    });
    assert_eq!(processor.merge_gpmf_tracks(&[]), Err(MergeError::Overflow));
    processor.tracks[0].duration_us = u64::MAX - 1;
    assert_eq!(processor.merge_gpmf_tracks(&[]).unwrap()[0].timestamp_us, u64::MAX);
}

#[test]
fn durations_that_do_not_fit_are_an_error() {
    let files = vec![vec![], vec![]];
    let mut output = vec![7u8];
    assert_eq!(merge_gpmf_metadata(&files, &[u64::MAX, 1], &mut output), Err(MergeError::Overflow));
    assert_eq!(merge_gpmf_metadata(&files, &[u64::MAX], &mut output), Ok(()));
    assert_eq!(output, vec![7u8]);

    let mut processor = GpmfProcessor::new();
    assert_eq!(processor.extract_gpmf_from_file(&[], u64::MAX), Ok(()));
    assert_eq!(processor.extract_gpmf_from_file(&[], 1), Err(MergeError::Overflow));
    assert_eq!(processor.tracks.len(), 1);
    assert_eq!(processor.total_duration_us, u64::MAX);
    assert_eq!(processor.create_merged_gpmf_payload(&[]), Ok(vec![]));
    assert_eq!(processor.write_merged_metadata(&mut output, &[]), Ok(()));
    assert_eq!(output, vec![7u8]);
}

#[test]
fn metadata_is_detected_where_handler_and_description_share_a_level() {
    let track = boxed("trak", &concat(&[hdlr("meta"), stsd("gpmd")]));
    let file = concat(&[boxed("ftyp", b"isom"), boxed("moov", &track)]);
    assert_eq!(GpmfProcessor::detect_gpmf_in_file(&file), Ok(true));

    let other = boxed("trak", &concat(&[hdlr("meta"), stsd("avc1")]));
    let file = concat(&[boxed("ftyp", b"isom"), boxed("moov", &other)]);
    assert_eq!(GpmfProcessor::detect_gpmf_in_file(&file), Ok(false));

    let video = boxed("trak", &concat(&[hdlr("vide"), stsd("gpmd")]));
    let file = concat(&[boxed("ftyp", b"isom"), boxed("moov", &video)]);
    assert_eq!(GpmfProcessor::detect_gpmf_in_file(&file), Ok(false));

    let late = boxed("trak", &concat(&[stsd("gpmd"), hdlr("meta")]));
    let file = concat(&[boxed("ftyp", b"isom"), boxed("moov", &late)]);
    assert_eq!(GpmfProcessor::detect_gpmf_in_file(&file), Ok(false));
}

#[test]
fn metadata_is_detected_in_a_nested_level() {
    let media = boxed("mdia", &concat(&[hdlr("meta"), stsd("gpmd")]));
    let second = boxed("trak", &media);
    let first = boxed("trak", &boxed("mdia", &concat(&[hdlr("vide"), stsd("avc1")])));
    let file = concat(&[boxed("ftyp", b"isom"), boxed("moov", &concat(&[first, second]))]);
    assert_eq!(detect_gpmf_files(&[file.clone(), boxed("ftyp", b"isom")]), Ok(vec![true, false]));

    let apart = boxed(
        "trak",
        &boxed("mdia", &concat(&[hdlr("meta"), boxed("minf", &boxed("stbl", &stsd("gpmd")))])),
    );
    let file = concat(&[boxed("ftyp", b"isom"), boxed("moov", &apart)]);
    assert_eq!(GpmfProcessor::detect_gpmf_in_file(&file), Ok(false));
}

#[test]
fn detection_fails_on_broken_boxes() {
    let mut short_handler = boxed("hdlr", &[0u8; 4]);
    short_handler.truncate(12);
    let mut moov = Vec::new();
    moov.extend_from_slice(&100u32.to_be_bytes());
    moov.extend_from_slice(b"moov");
    moov.extend_from_slice(&100u32.to_be_bytes());
    moov.extend_from_slice(b"trak");
    moov.extend_from_slice(&short_handler);
    assert_eq!(GpmfProcessor::detect_gpmf_in_file(&moov), Err(MergeError::UnexpectedEof));

    let mut tiny = Vec::new();
    tiny.extend_from_slice(&4u32.to_be_bytes());
    tiny.extend_from_slice(b"free");
    assert_eq!(GpmfProcessor::detect_gpmf_in_file(&tiny), Err(MergeError::MalformedBox));
    assert_eq!(
        detect_gpmf_files(&[vec![], tiny, moov]),
        Err(MergeError::MalformedBox)
    );
}
