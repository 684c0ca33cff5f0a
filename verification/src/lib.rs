//! Joins ISO Base Media (MP4, MOV) files that hold one recording split over
//! several files into one file, without touching the media itself: the payload
//! bytes are copied as they are, and only the boxes that index them are built
//! anew.
//!
//! The work has three passes. `desc_reader` goes through the boxes of every
//! input file and gathers, track by track, the sample tables, chunk offsets and
//! durations into one descriptor (`desc`). `timeline` turns the pauses between
//! the recordings into empty segments of the edit lists. `writer` follows the
//! boxes of the first file and writes the output: sample tables and edit lists
//! from the descriptor, headers with the merged durations, one payload box with
//! the payloads of all files. `merge` runs the passes one after the other.
//!
//! Every function works on bytes in memory and is verified against a
//! specification over sequences of bytes. Times are exact fractions, not
//! floating-point numbers.

pub mod boxes;
pub mod bytes;
pub mod desc;
pub mod desc_reader;
pub mod emit;
pub mod error;
pub mod gpmf;
pub mod merge;
pub mod roundtrip;
pub mod tables;
pub mod timeline;
pub mod units;
pub mod writer;

pub use boxes::{fourcc, has_children, read_box, typ_to_str};
pub use desc::{Desc, EditListEntry, Seconds, TrackDesc};
pub use desc_reader::read_desc;
pub use error::MergeError;
pub use gpmf::{
    detect_gpmf_files, merge_gpmf_metadata, GpmfGpsSample, GpmfProcessor, GpmfTrackData,
};
pub use merge::{join_file_streams, join_file_streams_with_metadata};
pub use timeline::compute_gaps_and_edit_lists;
pub use writer::{get_first, patch_bytes, rewrite_from_desc};
