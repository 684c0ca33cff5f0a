//! What is written is read back: the tables that the writer builds from a
//! track are the tables that the reader takes from them.

use crate::boxes::{box_header, CO64, SDTP, STCO, STSC, STSS, STSZ, STTS};
use crate::bytes::{
    be_bytes_i64, be_bytes_u32, be_bytes_u64, be_i64, be_u32, be_u64, lemma_be_i64, lemma_be_u32,
    lemma_be_u64,
};
use crate::boxes::ELST;
use crate::desc::{EditListEntry, TrackDescView};
use crate::desc_reader::apply_table;
use crate::emit::{
    coalesce, concat_entries, concat_offsets, concat_pairs, concat_triples, concat_u32,
    entry_bytes, fallback_entry, lemma_offset_entry, offsets_fit, table_box, table_payload,
    version_and_flags, written_type,
};
use crate::error::MergeError;
use crate::tables::{
    elst_duration, elst_media_time, elst_sum, elst_total, offset_entry, rebased, rebased_entries,
    shifted_u32_entries, stsc_entries, stsc_entry, stsc_first, stts_entries, stts_entry,
    u32_entry,
};
use vstd::prelude::*;

verus! {

/// A 32-bit number in the second of two joined sequences reads as it does in
/// that sequence alone.
proof fn lemma_be_u32_after(a: Seq<u8>, b: Seq<u8>, i: int)
    requires
        0 <= i,
        i + 4 <= b.len(),
    ensures
        be_u32(a + b, a.len() + i) == be_u32(b, i),
{
}

/// A 32-bit number in the first of two joined sequences reads as it does in
/// that sequence alone.
proof fn lemma_be_u32_before(a: Seq<u8>, b: Seq<u8>, i: int)
    requires
        0 <= i,
        i + 4 <= a.len(),
    ensures
        be_u32(a + b, i) == be_u32(a, i),
{
}

/// In the bytes of a table of 32-bit numbers, entry `i` reads as number `i`.
proof fn lemma_u32_entry(s: Seq<u32>, i: int)
    requires
        0 <= i < s.len(),
    ensures
        concat_u32(s).len() == 4 * s.len(),
        be_u32(concat_u32(s), 4 * i) == s[i],
    decreases s.len(),
{
    let front = concat_u32(s.drop_last());
    let last = be_bytes_u32(s.last());
    lemma_be_u32(last, 0, s.last());
    lemma_u32_length(s.drop_last());
    if i < s.len() - 1 {
        lemma_u32_entry(s.drop_last(), i);
        lemma_be_u32_before(front, last, 4 * i);
    } else {
        lemma_be_u32_after(front, last, 0);
    }
}

/// A table of 32-bit numbers takes four bytes for each.
proof fn lemma_u32_length(s: Seq<u32>)
    ensures
        concat_u32(s).len() == 4 * s.len(),
    decreases s.len(),
{
    if s.len() > 0 {
        lemma_u32_length(s.drop_last());
    }
}

/// A time-to-sample table takes eight bytes for each run.
proof fn lemma_pairs_length(s: Seq<(u32, u32)>)
    ensures
        concat_pairs(s).len() == 8 * s.len(),
    decreases s.len(),
{
    if s.len() > 0 {
        lemma_pairs_length(s.drop_last());
    }
}

/// In the bytes of a time-to-sample table, entry `i` reads as run `i`.
proof fn lemma_pair_entry(s: Seq<(u32, u32)>, i: int)
    requires
        0 <= i < s.len(),
    ensures
        concat_pairs(s).len() == 8 * s.len(),
        be_u32(concat_pairs(s), 8 * i) == s[i].0,
        be_u32(concat_pairs(s), 8 * i + 4) == s[i].1,
    decreases s.len(),
{
    let front = concat_pairs(s.drop_last());
    let a = be_bytes_u32(s.last().0);
    let b = be_bytes_u32(s.last().1);
    lemma_be_u32(a, 0, s.last().0);
    lemma_be_u32(b, 0, s.last().1);
    lemma_pairs_length(s.drop_last());
    assert(concat_pairs(s) =~= front + (a + b));
    if i < s.len() - 1 {
        lemma_pair_entry(s.drop_last(), i);
        lemma_be_u32_before(front, a + b, 8 * i);
        lemma_be_u32_before(front, a + b, 8 * i + 4);
    } else {
        lemma_be_u32_after(front, a + b, 0);
        lemma_be_u32_after(front, a + b, 4);
        lemma_be_u32_before(a, b, 0);
        lemma_be_u32_after(a, b, 0);
    }
}

/// A sample-to-chunk table takes twelve bytes for each run.
proof fn lemma_triples_length(s: Seq<(u32, u32, u32)>)
    ensures
        concat_triples(s).len() == 12 * s.len(),
    decreases s.len(),
{
    if s.len() > 0 {
        lemma_triples_length(s.drop_last());
    }
}

/// In the bytes of a sample-to-chunk table, entry `i` reads as run `i`.
proof fn lemma_triple_entry(s: Seq<(u32, u32, u32)>, i: int)
    requires
        0 <= i < s.len(),
    ensures
        concat_triples(s).len() == 12 * s.len(),
        be_u32(concat_triples(s), 12 * i) == s[i].0,
        be_u32(concat_triples(s), 12 * i + 4) == s[i].1,
        be_u32(concat_triples(s), 12 * i + 8) == s[i].2,
    decreases s.len(),
{
    let front = concat_triples(s.drop_last());
    let a = be_bytes_u32(s.last().0);
    let b = be_bytes_u32(s.last().1);
    let c = be_bytes_u32(s.last().2);
    lemma_be_u32(a, 0, s.last().0);
    lemma_be_u32(b, 0, s.last().1);
    lemma_be_u32(c, 0, s.last().2);
    lemma_triples_length(s.drop_last());
    assert(concat_triples(s) =~= front + (a + b + c));
    if i < s.len() - 1 {
        lemma_triple_entry(s.drop_last(), i);
        lemma_be_u32_before(front, a + b + c, 12 * i);
        lemma_be_u32_before(front, a + b + c, 12 * i + 4);
        lemma_be_u32_before(front, a + b + c, 12 * i + 8);
    } else {
        lemma_be_u32_after(front, a + b + c, 0);
        lemma_be_u32_after(front, a + b + c, 4);
        lemma_be_u32_after(front, a + b + c, 8);
        assert(be_u32(a + b + c, 0) == be_u32(a, 0));
        assert(be_u32(a + b + c, 4) == be_u32(b, 0));
        assert(be_u32(a + b + c, 8) == be_u32(c, 0));
    }
}

/// The sixteen bytes with which a counted table begins: size, type, version
/// and flags, and the number of entries.
pub open spec fn counted_head(typ: u32, size: u32, count: u32) -> Seq<u8> {
    be_bytes_u32(size) + be_bytes_u32(written_type(typ)) + version_and_flags(typ) + be_bytes_u32(
        count,
    )
}

/// The head of a counted table holds its count at byte 12.
proof fn lemma_counted_head(typ: u32, size: u32, count: u32, rest: Seq<u8>)
    ensures
        counted_head(typ, size, count).len() == 16,
        be_u32(counted_head(typ, size, count) + rest, 12) == count,
        (counted_head(typ, size, count) + rest)[8] == version_and_flags(typ)[0],
{
    let front = be_bytes_u32(size) + be_bytes_u32(written_type(typ)) + version_and_flags(typ);
    lemma_be_u32(Seq::empty(), 0, count);
    lemma_be_u32_after(front, be_bytes_u32(count), 0);
    lemma_be_u32_before(counted_head(typ, size, count), rest, 12);
}

/// Numbers that were written behind `head` read back as they were.
proof fn lemma_u32s_read_back(head: Seq<u8>, s: Seq<u32>)
    requires
        s.len() <= u32::MAX,
    ensures
        shifted_u32_entries(head + concat_u32(s), head.len() as int, s.len() as u32, 0) == Ok::<
            Seq<u32>,
            MergeError,
        >(s),
{
    let body = concat_u32(s);
    let b = head + body;
    let at = head.len() as int;
    lemma_u32_length(s);
    assert forall|i: int| 0 <= i < s.len() implies #[trigger] u32_entry(b, at, i) == s[i] by {
        lemma_u32_entry(s, i);
        lemma_be_u32_after(head, body, 4 * i);
    }
    let got = Seq::new(s.len(), |i: int| (u32_entry(b, at, i) + 0u32) as u32);
    assert(got =~= s);
}

/// The table of sync samples that is written for a track: sixteen bytes of
/// head, then the numbers of its sync samples.
proof fn lemma_stss_box(t: TrackDescView, base: u64)
    requires
        table_box(STSS, t, base) is Some,
    ensures
        t.stss.len() <= u32::MAX,
        table_box(STSS, t, base)->0 == counted_head(
            STSS,
            (16 + 4 * t.stss.len()) as u32,
            t.stss.len() as u32,
        ) + concat_u32(t.stss),
{
    reveal(table_payload);
    lemma_u32_length(t.stss);
    assert(table_box(STSS, t, base)->0 =~= counted_head(
        STSS,
        (16 + 4 * t.stss.len()) as u32,
        t.stss.len() as u32,
    ) + concat_u32(t.stss));
}

/// A table of sync samples that holds the numbers `s` adds them to a track
/// that holds nothing.
proof fn lemma_stss_applies(b: Seq<u8>, s: Seq<u32>, base: u64)
    requires
        b.len() >= 16,
        s.len() <= u32::MAX,
        be_u32(b, 12) == s.len(),
        shifted_u32_entries(b, 16, s.len() as u32, 0) == Ok::<Seq<u32>, MergeError>(s),
    ensures
        ({
            let read = apply_table(b, STSS, 8, b.len() - 8, TrackDescView::empty(), Some(base), 0);
            read is Ok && read->Ok_0 =~= (TrackDescView { stss: s, ..TrackDescView::empty() })
        }),
{
}

/// The table of sync samples that is written for a track reads back, into a
/// track that holds nothing, as the sync samples of the track.
pub proof fn lemma_stss_reads_back(t: TrackDescView, base: u64)
    requires
        table_box(STSS, t, base) is Some,
    ensures
        ({
            let b = table_box(STSS, t, base)->0;
            let read = apply_table(b, STSS, 8, b.len() - 8, TrackDescView::empty(), Some(base), 0);
            read is Ok && read->Ok_0 =~= (TrackDescView { stss: t.stss, ..TrackDescView::empty() })
        }),
{
    let b = table_box(STSS, t, base)->0;
    let n = t.stss.len() as u32;
    let size = (16 + 4 * t.stss.len()) as u32;
    let head = counted_head(STSS, size, n);
    lemma_stss_box(t, base);
    assert(b == head + concat_u32(t.stss));
    lemma_counted_head(STSS, size, n, concat_u32(t.stss));
    assert(b.len() >= 16 && be_u32(b, 12) == n);
    lemma_u32s_read_back(head, t.stss);
    lemma_stss_applies(b, t.stss, base);
}

/// The twenty bytes with which a table of sample sizes begins: size, type,
/// version and flags, the common sample size and the number of samples.
pub open spec fn stsz_head(size: u32, sample_size: u32, count: u32) -> Seq<u8> {
    be_bytes_u32(size) + be_bytes_u32(STSZ) + version_and_flags(STSZ) + be_bytes_u32(sample_size)
        + be_bytes_u32(count)
}

/// The head of a table of sample sizes holds the common size at byte 12 and
/// the number of samples at byte 16.
proof fn lemma_stsz_head(size: u32, sample_size: u32, count: u32, rest: Seq<u8>)
    ensures
        stsz_head(size, sample_size, count).len() == 20,
        be_u32(stsz_head(size, sample_size, count) + rest, 12) == sample_size,
        be_u32(stsz_head(size, sample_size, count) + rest, 16) == count,
{
    let front = be_bytes_u32(size) + be_bytes_u32(STSZ) + version_and_flags(STSZ);
    let head = stsz_head(size, sample_size, count);
    lemma_be_u32(Seq::empty(), 0, sample_size);
    lemma_be_u32(Seq::empty(), 0, count);
    assert(head =~= (front + be_bytes_u32(sample_size)) + be_bytes_u32(count));
    lemma_be_u32_after(front, be_bytes_u32(sample_size), 0);
    lemma_be_u32_before(front + be_bytes_u32(sample_size), be_bytes_u32(count), 12);
    lemma_be_u32_after(front + be_bytes_u32(sample_size), be_bytes_u32(count), 0);
    lemma_be_u32_before(head, rest, 12);
    lemma_be_u32_before(head, rest, 16);
}

/// The sizes that the table written for a track holds one by one.
pub open spec fn written_sizes(t: TrackDescView) -> Seq<u32> {
    if t.stsz_sample_size == 0 {
        t.stsz
    } else {
        Seq::empty()
    }
}

/// The table of sample sizes that is written for a track: twenty bytes of
/// head, then the sizes one by one where there is no common size.
proof fn lemma_stsz_box(t: TrackDescView, base: u64)
    requires
        table_box(STSZ, t, base) is Some,
    ensures
        written_sizes(t).len() <= u32::MAX,
        table_box(STSZ, t, base)->0 == stsz_head(
            (20 + 4 * written_sizes(t).len()) as u32,
            t.stsz_sample_size,
            t.stsz_count,
        ) + concat_u32(written_sizes(t)),
{
    reveal(table_payload);
    lemma_u32_length(written_sizes(t));
    assert(table_box(STSZ, t, base)->0 =~= stsz_head(
        (20 + 4 * written_sizes(t).len()) as u32,
        t.stsz_sample_size,
        t.stsz_count,
    ) + concat_u32(written_sizes(t)));
}

/// A table of sample sizes adds to a track that holds nothing its common
/// size, its number of samples, and the sizes `s` that it holds one by one.
proof fn lemma_stsz_applies(b: Seq<u8>, sample_size: u32, count: u32, s: Seq<u32>, base: u64)
    requires
        b.len() >= 20,
        be_u32(b, 12) == sample_size,
        be_u32(b, 16) == count,
        sample_size == 0 ==> shifted_u32_entries(b, 20, count, 0) == Ok::<Seq<u32>, MergeError>(s),
        sample_size != 0 ==> s == Seq::<u32>::empty(),
    ensures
        ({
            let read = apply_table(b, STSZ, 8, b.len() - 8, TrackDescView::empty(), Some(base), 0);
            read is Ok && read->Ok_0 =~= (TrackDescView {
                stsz_sample_size: sample_size,
                stsz_count: count,
                stsz: s,
                ..TrackDescView::empty()
            })
        }),
{
}

/// The table of sample sizes that is written for a track reads back, into a
/// track that holds nothing, as the sizes and the number of samples of the
/// track, where the track holds one size for each sample or one size for all.
pub proof fn lemma_stsz_reads_back(t: TrackDescView, base: u64)
    requires
        table_box(STSZ, t, base) is Some,
        t.stsz_sample_size == 0 ==> t.stsz.len() == t.stsz_count,
    ensures
        ({
            let b = table_box(STSZ, t, base)->0;
            let read = apply_table(b, STSZ, 8, b.len() - 8, TrackDescView::empty(), Some(base), 0);
            read is Ok && read->Ok_0 =~= (TrackDescView {
                stsz_sample_size: t.stsz_sample_size,
                stsz_count: t.stsz_count,
                stsz: written_sizes(t),
                ..TrackDescView::empty()
            })
        }),
{
    let b = table_box(STSZ, t, base)->0;
    let sizes = written_sizes(t);
    let size = (20 + 4 * sizes.len()) as u32;
    let head = stsz_head(size, t.stsz_sample_size, t.stsz_count);
    lemma_stsz_box(t, base);
    assert(b == head + concat_u32(sizes));
    lemma_stsz_head(size, t.stsz_sample_size, t.stsz_count, concat_u32(sizes));
    assert(b.len() >= 20 && be_u32(b, 12) == t.stsz_sample_size && be_u32(b, 16) == t.stsz_count);
    if t.stsz_sample_size == 0 {
        lemma_u32s_read_back(head, sizes);
    }
    lemma_stsz_applies(b, t.stsz_sample_size, t.stsz_count, sizes, base);
}

/// Time-to-sample runs that were written behind sixteen other bytes read
/// back as they were.
proof fn lemma_pairs_read_back(head: Seq<u8>, s: Seq<(u32, u32)>)
    requires
        head.len() == 16,
        s.len() <= u32::MAX,
    ensures
        stts_entries(head + concat_pairs(s), 16, s.len() as u32) == Ok::<
            Seq<(u32, u32)>,
            MergeError,
        >(s),
{
    let body = concat_pairs(s);
    let b = head + body;
    lemma_pairs_length(s);
    assert forall|i: int| 0 <= i < s.len() implies #[trigger] stts_entry(b, 16, i) == s[i] by {
        lemma_pair_entry(s, i);
        lemma_be_u32_after(head, body, 8 * i);
        lemma_be_u32_after(head, body, 8 * i + 4);
    }
    let got = Seq::new(s.len(), |i: int| stts_entry(b, 16, i));
    assert(got =~= s);
}

/// The time-to-sample table that is written for a track: sixteen bytes of
/// head, then its runs, each run of one delta made into one entry.
proof fn lemma_stts_box(t: TrackDescView, base: u64)
    requires
        table_box(STTS, t, base) is Some,
    ensures
        coalesce(t.stts) is Some,
        coalesce(t.stts)->0.len() <= u32::MAX,
        table_box(STTS, t, base)->0 == counted_head(
            STTS,
            (16 + 8 * coalesce(t.stts)->0.len()) as u32,
            coalesce(t.stts)->0.len() as u32,
        ) + concat_pairs(coalesce(t.stts)->0),
{
    reveal(table_payload);
    let runs = coalesce(t.stts)->0;
    lemma_pairs_length(runs);
    assert(table_box(STTS, t, base)->0 =~= counted_head(
        STTS,
        (16 + 8 * runs.len()) as u32,
        runs.len() as u32,
    ) + concat_pairs(runs));
}

/// A time-to-sample table that holds the runs `runs` adds them to a track
/// that holds nothing.
proof fn lemma_stts_applies(b: Seq<u8>, runs: Seq<(u32, u32)>, base: u64)
    requires
        b.len() >= 16,
        runs.len() <= u32::MAX,
        be_u32(b, 12) == runs.len(),
        stts_entries(b, 16, runs.len() as u32) == Ok::<Seq<(u32, u32)>, MergeError>(runs),
    ensures
        ({
            let read = apply_table(b, STTS, 8, b.len() - 8, TrackDescView::empty(), Some(base), 0);
            read is Ok && read->Ok_0 =~= (TrackDescView { stts: runs, ..TrackDescView::empty() })
        }),
{
}

/// The time-to-sample table that is written for a track reads back, into a
/// track that holds nothing, as the runs of the track, each run of one delta
/// made into one entry.
pub proof fn lemma_stts_reads_back(t: TrackDescView, base: u64)
    requires
        table_box(STTS, t, base) is Some,
    ensures
        ({
            let b = table_box(STTS, t, base)->0;
            let read = apply_table(b, STTS, 8, b.len() - 8, TrackDescView::empty(), Some(base), 0);
            read is Ok && read->Ok_0 =~= (TrackDescView {
                stts: coalesce(t.stts)->0,
                ..TrackDescView::empty()
            })
        }),
{
    let b = table_box(STTS, t, base)->0;
    let runs = coalesce(t.stts)->0;
    let n = runs.len() as u32;
    let size = (16 + 8 * runs.len()) as u32;
    let head = counted_head(STTS, size, n);
    lemma_stts_box(t, base);
    assert(b == head + concat_pairs(runs));
    lemma_counted_head(STTS, size, n, concat_pairs(runs));
    assert(b.len() >= 16 && be_u32(b, 12) == n);
    lemma_pairs_read_back(head, runs);
    lemma_stts_applies(b, runs, base);
}

/// Sample-to-chunk runs that were written behind sixteen other bytes read
/// back as they were.
proof fn lemma_triples_read_back(head: Seq<u8>, s: Seq<(u32, u32, u32)>)
    requires
        head.len() == 16,
        s.len() <= u32::MAX,
    ensures
        stsc_entries(head + concat_triples(s), 16, s.len() as u32, 0) == Ok::<
            Seq<(u32, u32, u32)>,
            MergeError,
        >(s),
{
    let body = concat_triples(s);
    let b = head + body;
    lemma_triples_length(s);
    assert forall|i: int| 0 <= i < s.len() implies #[trigger] stsc_first(b, 16, i) == s[i].0
        && stsc_entry(b, 16, 0, i) == s[i] by {
        lemma_triple_entry(s, i);
        lemma_be_u32_after(head, body, 12 * i);
        lemma_be_u32_after(head, body, 12 * i + 4);
        lemma_be_u32_after(head, body, 12 * i + 8);
    }
    let got = Seq::new(s.len(), |i: int| stsc_entry(b, 16, 0, i));
    assert(got =~= s);
}

/// The sample-to-chunk table that is written for a track: sixteen bytes of
/// head, then its runs.
proof fn lemma_stsc_box(t: TrackDescView, base: u64)
    requires
        table_box(STSC, t, base) is Some,
    ensures
        t.stsc.len() <= u32::MAX,
        table_box(STSC, t, base)->0 == counted_head(
            STSC,
            (16 + 12 * t.stsc.len()) as u32,
            t.stsc.len() as u32,
        ) + concat_triples(t.stsc),
{
    reveal(table_payload);
    lemma_triples_length(t.stsc);
    assert(table_box(STSC, t, base)->0 =~= counted_head(
        STSC,
        (16 + 12 * t.stsc.len()) as u32,
        t.stsc.len() as u32,
    ) + concat_triples(t.stsc));
}

/// A sample-to-chunk table that holds the runs `s` adds them to a track that
/// holds nothing.
proof fn lemma_stsc_applies(b: Seq<u8>, s: Seq<(u32, u32, u32)>, base: u64)
    requires
        b.len() >= 16,
        s.len() <= u32::MAX,
        be_u32(b, 12) == s.len(),
        stsc_entries(b, 16, s.len() as u32, 0) == Ok::<Seq<(u32, u32, u32)>, MergeError>(s),
    ensures
        ({
            let read = apply_table(b, STSC, 8, b.len() - 8, TrackDescView::empty(), Some(base), 0);
            read is Ok && read->Ok_0 =~= (TrackDescView { stsc: s, ..TrackDescView::empty() })
        }),
{
}

/// The sample-to-chunk table that is written for a track reads back, into a
/// track that holds nothing, as the runs of the track.
pub proof fn lemma_stsc_reads_back(t: TrackDescView, base: u64)
    requires
        table_box(STSC, t, base) is Some,
    ensures
        ({
            let b = table_box(STSC, t, base)->0;
            let read = apply_table(b, STSC, 8, b.len() - 8, TrackDescView::empty(), Some(base), 0);
            read is Ok && read->Ok_0 =~= (TrackDescView { stsc: t.stsc, ..TrackDescView::empty() })
        }),
{
    let b = table_box(STSC, t, base)->0;
    let n = t.stsc.len() as u32;
    let size = (16 + 12 * t.stsc.len()) as u32;
    let head = counted_head(STSC, size, n);
    lemma_stsc_box(t, base);
    assert(b == head + concat_triples(t.stsc));
    lemma_counted_head(STSC, size, n, concat_triples(t.stsc));
    assert(b.len() >= 16 && be_u32(b, 12) == n);
    lemma_triples_read_back(head, t.stsc);
    lemma_stsc_applies(b, t.stsc, base);
}

/// Chunk offsets that were written behind sixteen other bytes read back, for
/// a file whose payload begins at `base`, as they were before `base` was added.
proof fn lemma_offsets_read_back(head: Seq<u8>, s: Seq<u64>, base: u64)
    requires
        head.len() == 16,
        s.len() <= u32::MAX,
        offsets_fit(s, base),
    ensures
        rebased_entries(head + concat_offsets(s, base), 16, s.len() as u32, true, 0, base)
            == Ok::<Seq<u64>, MergeError>(s),
{
    let body = concat_offsets(s, base);
    let b = head + body;
    crate::emit::lemma_offsets_length(s, base);
    assert forall|i: int| 0 <= i < s.len() implies #[trigger] offset_entry(b, 16, true, i) == s[i]
        + base by {
        lemma_offset_entry(s, base, i);
        lemma_be_u32_after(head, body, 8 * i);
        lemma_be_u32_after(head, body, 8 * i + 4);
    }
    let got = Seq::new(s.len(), |i: int| rebased(offset_entry(b, 16, true, i), 0, base) as u64);
    assert(got =~= s);
}

/// The table of chunk offsets that is written for a track: sixteen bytes of
/// head, then the offsets, each raised by `base`.
proof fn lemma_co64_box(typ: u32, t: TrackDescView, base: u64)
    requires
        typ == STCO || typ == CO64,
        table_box(typ, t, base) is Some,
    ensures
        t.stco.len() <= u32::MAX,
        offsets_fit(t.stco, base),
        table_box(typ, t, base)->0 == counted_head(
            typ,
            (16 + 8 * t.stco.len()) as u32,
            t.stco.len() as u32,
        ) + concat_offsets(t.stco, base),
{
    reveal(table_payload);
    crate::emit::lemma_offsets_length(t.stco, base);
    assert(table_box(typ, t, base)->0 =~= counted_head(
        typ,
        (16 + 8 * t.stco.len()) as u32,
        t.stco.len() as u32,
    ) + concat_offsets(t.stco, base));
}

/// A table of 64-bit chunk offsets that holds, counted from `base`, the
/// offsets `s` adds them to a track that holds nothing, for a file whose
/// payload begins at `base`.
proof fn lemma_co64_applies(b: Seq<u8>, s: Seq<u64>, base: u64)
    requires
        b.len() >= 16,
        s.len() <= u32::MAX,
        be_u32(b, 12) == s.len(),
        rebased_entries(b, 16, s.len() as u32, true, 0, base) == Ok::<Seq<u64>, MergeError>(s),
    ensures
        ({
            let read = apply_table(b, CO64, 8, b.len() - 8, TrackDescView::empty(), Some(base), 0);
            read is Ok && read->Ok_0 =~= (TrackDescView { stco: s, ..TrackDescView::empty() })
        }),
{
}

/// The table of chunk offsets that is written for a track, as `co64` in any
/// case, reads back as the chunk offsets of the track, into a track that holds
/// nothing and for a file whose payload begins at `base`.
pub proof fn lemma_co64_reads_back(typ: u32, t: TrackDescView, base: u64)
    requires
        typ == STCO || typ == CO64,
        table_box(typ, t, base) is Some,
    ensures
        ({
            let b = table_box(typ, t, base)->0;
            let read = apply_table(b, CO64, 8, b.len() - 8, TrackDescView::empty(), Some(base), 0);
            read is Ok && read->Ok_0 =~= (TrackDescView { stco: t.stco, ..TrackDescView::empty() })
        }),
{
    let b = table_box(typ, t, base)->0;
    let n = t.stco.len() as u32;
    let size = (16 + 8 * t.stco.len()) as u32;
    let head = counted_head(typ, size, n);
    lemma_co64_box(typ, t, base);
    assert(b == head + concat_offsets(t.stco, base));
    lemma_counted_head(typ, size, n, concat_offsets(t.stco, base));
    assert(b.len() >= 16 && be_u32(b, 12) == n);
    lemma_offsets_read_back(head, t.stco, base);
    lemma_co64_applies(b, t.stco, base);
}

/// The sample-dependency table that is written for a track reads back, into a
/// track that holds nothing, as the bytes of the track.
pub proof fn lemma_sdtp_reads_back(t: TrackDescView, base: u64)
    requires
        table_box(SDTP, t, base) is Some,
    ensures
        ({
            let b = table_box(SDTP, t, base)->0;
            let read = apply_table(b, SDTP, 8, b.len() - 8, TrackDescView::empty(), Some(base), 0);
            read is Ok && read->Ok_0 =~= (TrackDescView { sdtp: t.sdtp, ..TrackDescView::empty() })
        }),
{
    reveal(table_payload);
    let b = table_box(SDTP, t, base)->0;
    let head = be_bytes_u32((12 + t.sdtp.len()) as u32) + be_bytes_u32(SDTP) + version_and_flags(
        SDTP,
    );
    assert(b =~= head + t.sdtp);
    assert(b.subrange(12, b.len() as int) =~= t.sdtp);
}

/// The summed segment durations of an edit list, empty segments left out.
pub open spec fn played_durations(s: Seq<EditListEntry>) -> int
    decreases s.len(),
{
    if s.len() == 0 {
        0
    } else {
        played_durations(s.drop_last()) + if s.last().media_time != -1 {
            s.last().segment_duration as int
        } else {
            0
        }
    }
}

/// The entries of an edit list take twenty bytes each.
proof fn lemma_entries_length(s: Seq<EditListEntry>)
    ensures
        concat_entries(s).len() == 20 * s.len(),
    decreases s.len(),
{
    if s.len() > 0 {
        lemma_entries_length(s.drop_last());
        lemma_entry_bytes(s.last());
    }
}

/// The twenty bytes of an entry read as its duration and its media time.
proof fn lemma_entry_bytes(e: EditListEntry)
    ensures
        entry_bytes(e).len() == 20,
        be_u64(entry_bytes(e), 0) == e.segment_duration,
        be_i64(entry_bytes(e), 8) == e.media_time,
{
    let a = be_bytes_u64(e.segment_duration);
    let b = be_bytes_i64(e.media_time);
    let c = be_bytes_u32(e.media_rate);
    lemma_be_u64(a, 0, e.segment_duration);
    lemma_be_i64(b, 0, e.media_time);
    lemma_be_u32(c, 0, e.media_rate);
    assert(entry_bytes(e) =~= a + (b + c));
    lemma_be_u32_before(a, b + c, 0);
    lemma_be_u32_before(a, b + c, 4);
    lemma_be_u32_after(a, b + c, 0);
    lemma_be_u32_after(a, b + c, 4);
    lemma_be_u32_before(b, c, 0);
    lemma_be_u32_before(b, c, 4);
}

/// In the bytes of the entries of an edit list, entry `i` reads as entry `i`.
proof fn lemma_elst_entry(s: Seq<EditListEntry>, i: int)
    requires
        0 <= i < s.len(),
    ensures
        concat_entries(s).len() == 20 * s.len(),
        be_u64(concat_entries(s), 20 * i) == s[i].segment_duration,
        be_i64(concat_entries(s), 20 * i + 8) == s[i].media_time,
    decreases s.len(),
{
    let front = concat_entries(s.drop_last());
    let last = entry_bytes(s.last());
    lemma_entries_length(s.drop_last());
    lemma_entry_bytes(s.last());
    if i < s.len() - 1 {
        lemma_elst_entry(s.drop_last(), i);
        lemma_be_u32_before(front, last, 20 * i);
        lemma_be_u32_before(front, last, 20 * i + 4);
        lemma_be_u32_before(front, last, 20 * i + 8);
        lemma_be_u32_before(front, last, 20 * i + 12);
    } else {
        lemma_be_u32_after(front, last, 0);
        lemma_be_u32_after(front, last, 4);
        lemma_be_u32_after(front, last, 8);
        lemma_be_u32_after(front, last, 12);
    }
}

/// Entries that were written behind sixteen other bytes sum, as they are
/// read, to the durations of those that are not empty.
proof fn lemma_entries_sum_back(head: Seq<u8>, s: Seq<EditListEntry>, n: nat)
    requires
        head.len() == 16,
        n <= s.len(),
    ensures
        elst_sum(head + concat_entries(s), 16, true, n) == played_durations(s.take(n as int)),
    decreases n,
{
    if n > 0 {
        let body = concat_entries(s);
        lemma_entries_sum_back(head, s, (n - 1) as nat);
        lemma_elst_entry(s, n - 1);
        lemma_be_u32_after(head, body, 20 * (n - 1));
        lemma_be_u32_after(head, body, 20 * (n - 1) + 4);
        lemma_be_u32_after(head, body, 20 * (n - 1) + 8);
        lemma_be_u32_after(head, body, 20 * (n - 1) + 12);
        assert(elst_duration(head + body, 16, true, n - 1) == s[n - 1].segment_duration);
        assert(elst_media_time(head + body, 16, true, n - 1) == s[n - 1].media_time);
        assert(s.take(n as int).drop_last() =~= s.take(n - 1));
        assert(s.take(n as int).last() == s[n - 1]);
    }
}

/// The entries that the edit list written for a track holds: those of the
/// track, or the one that stands for a track without any.
pub open spec fn written_entries(t: TrackDescView) -> Seq<EditListEntry> {
    if t.elst_entries.len() == 0 {
        seq![fallback_entry(t)]
    } else {
        t.elst_entries
    }
}

/// Entries that were written behind sixteen other bytes read back as the
/// summed durations of those that are not empty.
proof fn lemma_elst_total_back(head: Seq<u8>, s: Seq<EditListEntry>)
    requires
        head.len() == 16,
        s.len() <= u32::MAX,
        played_durations(s) <= u64::MAX,
    ensures
        elst_total(head + concat_entries(s), 16, true, s.len() as u32, 0) == Ok::<
            u64,
            MergeError,
        >(played_durations(s) as u64),
{
    lemma_entries_length(s);
    lemma_entries_sum_back(head, s, s.len());
    assert(s.take(s.len() as int) =~= s);
}

/// The edit list that is written for a track: sixteen bytes of head, then
/// its entries.
proof fn lemma_elst_box(t: TrackDescView, base: u64)
    requires
        table_box(ELST, t, base) is Some,
    ensures
        written_entries(t).len() <= u32::MAX,
        table_box(ELST, t, base)->0 == counted_head(
            ELST,
            (16 + 20 * written_entries(t).len()) as u32,
            written_entries(t).len() as u32,
        ) + concat_entries(written_entries(t)),
{
    reveal(table_payload);
    let entries = written_entries(t);
    lemma_entries_length(entries);
    if t.elst_entries.len() == 0 {
        assert(entries.drop_last() =~= Seq::<EditListEntry>::empty());
        assert(concat_entries(entries) =~= entry_bytes(fallback_entry(t)));
    }
    assert(table_box(ELST, t, base)->0 =~= counted_head(
        ELST,
        (16 + 20 * entries.len()) as u32,
        entries.len() as u32,
    ) + concat_entries(entries));
}

/// An edit list of version 1 whose entries sum to `total` adds `total` to a
/// track that holds nothing.
proof fn lemma_elst_applies(b: Seq<u8>, count: u32, total: u64, base: u64)
    requires
        b.len() >= 16,
        b[8] == 1,
        be_u32(b, 12) == count,
        elst_total(b, 16, true, count, 0) == Ok::<u64, MergeError>(total),
    ensures
        ({
            let read = apply_table(b, ELST, 8, b.len() - 8, TrackDescView::empty(), Some(base), 0);
            read is Ok && read->Ok_0 =~= (TrackDescView {
                elst_segment_duration: total,
                ..TrackDescView::empty()
            })
        }),
{
}

/// The edit list that is written for a track reads back, into a track that
/// holds nothing, as the summed durations of its segments that are not empty,
/// where that sum fits 64 bits.
pub proof fn lemma_elst_reads_back(t: TrackDescView, base: u64)
    requires
        table_box(ELST, t, base) is Some,
        played_durations(written_entries(t)) <= u64::MAX,
    ensures
        ({
            let b = table_box(ELST, t, base)->0;
            let read = apply_table(b, ELST, 8, b.len() - 8, TrackDescView::empty(), Some(base), 0);
            read is Ok && read->Ok_0 =~= (TrackDescView {
                elst_segment_duration: played_durations(written_entries(t)) as u64,
                ..TrackDescView::empty()
            })
        }),
{
    let b = table_box(ELST, t, base)->0;
    let entries = written_entries(t);
    let n = entries.len() as u32;
    let size = (16 + 20 * entries.len()) as u32;
    let head = counted_head(ELST, size, n);
    lemma_elst_box(t, base);
    assert(b == head + concat_entries(entries));
    lemma_counted_head(ELST, size, n, concat_entries(entries));
    assert(b.len() >= 16 && b[8] == 1 && be_u32(b, 12) == n);
    lemma_elst_total_back(head, entries);
    assert(elst_total(b, 16, true, n, 0) == Ok::<u64, MergeError>(
        played_durations(entries) as u64,
    ));
    lemma_elst_applies(b, n, played_durations(entries) as u64, base);
}

/// Every edit list and sample table that is written is a box of its own: its
/// first eight bytes are a header that gives the length of what was written
/// and the type under which it was written, whatever follows it.
pub proof fn lemma_table_box_header(typ: u32, t: TrackDescView, base: u64, rest: Seq<u8>)
    requires
        table_box(typ, t, base) is Some,
    ensures
        box_header(table_box(typ, t, base)->0 + rest, 0) == Some(
            (written_type(typ), 0u64, table_box(typ, t, base)->0.len() as u64, 8i64),
        ),
{
    let b = table_box(typ, t, base)->0;
    let payload = table_payload(typ, t, base)->0;
    let size = (12 + payload.len()) as u32;
    let front = be_bytes_u32(size) + be_bytes_u32(written_type(typ));
    lemma_be_u32(Seq::empty(), 0, size);
    lemma_be_u32(Seq::empty(), 0, written_type(typ));
    assert(b + rest =~= front + (version_and_flags(typ) + payload + rest));
    lemma_be_u32_before(front, version_and_flags(typ) + payload + rest, 0);
    lemma_be_u32_before(front, version_and_flags(typ) + payload + rest, 4);
    lemma_be_u32_before(be_bytes_u32(size), be_bytes_u32(written_type(typ)), 0);
    lemma_be_u32_after(be_bytes_u32(size), be_bytes_u32(written_type(typ)), 0);
}

} // verus!
