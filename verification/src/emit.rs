//! The bytes of the edit lists and sample tables that are written from the
//! descriptor.

use crate::boxes::{CO64, ELST, SDTP, STCO, STSS, STSZ, STTS};
use crate::bytes::{
    be_bytes_i64, be_bytes_u32, be_bytes_u64, be_u64, lemma_be_u64, push_be_i64, push_be_u32,
    push_be_u64,
};
use crate::desc::{EditListEntry, TrackDesc, TrackDescView, NORMAL_RATE};
use vstd::prelude::*;

verus! {

/// The bytes of a table of 32-bit numbers.
pub open spec fn concat_u32(s: Seq<u32>) -> Seq<u8>
    decreases s.len(),
{
    if s.len() == 0 {
        Seq::empty()
    } else {
        concat_u32(s.drop_last()) + be_bytes_u32(s.last())
    }
}

/// Whether every chunk offset, counted from `base`, fits 64 bits.
pub open spec fn offsets_fit(s: Seq<u64>, base: u64) -> bool {
    forall|i: int| 0 <= i < s.len() ==> #[trigger] s[i] + base <= u64::MAX
}

/// The bytes of a table of chunk offsets, each raised by `base`, the position
/// of the merged payload in the output.
pub open spec fn concat_offsets(s: Seq<u64>, base: u64) -> Seq<u8>
    decreases s.len(),
{
    if s.len() == 0 {
        Seq::empty()
    } else {
        concat_offsets(s.drop_last(), base) + be_bytes_u64((s.last() + base) as u64)
    }
}

/// The bytes of a time-to-sample table.
pub open spec fn concat_pairs(s: Seq<(u32, u32)>) -> Seq<u8>
    decreases s.len(),
{
    if s.len() == 0 {
        Seq::empty()
    } else {
        concat_pairs(s.drop_last()) + be_bytes_u32(s.last().0) + be_bytes_u32(s.last().1)
    }
}

/// The bytes of a sample-to-chunk table.
pub open spec fn concat_triples(s: Seq<(u32, u32, u32)>) -> Seq<u8>
    decreases s.len(),
{
    if s.len() == 0 {
        Seq::empty()
    } else {
        concat_triples(s.drop_last()) + be_bytes_u32(s.last().0) + be_bytes_u32(s.last().1)
            + be_bytes_u32(s.last().2)
    }
}

/// The twenty bytes of an edit-list entry of version 1.
pub open spec fn entry_bytes(e: EditListEntry) -> Seq<u8> {
    be_bytes_u64(e.segment_duration) + be_bytes_i64(e.media_time) + be_bytes_u32(e.media_rate)
}

/// The bytes of the entries of an edit list of version 1.
pub open spec fn concat_entries(s: Seq<EditListEntry>) -> Seq<u8>
    decreases s.len(),
{
    if s.len() == 0 {
        Seq::empty()
    } else {
        concat_entries(s.drop_last()) + entry_bytes(s.last())
    }
}

/// A time-to-sample table with every run of entries of one delta made into
/// one entry. `None` where a summed count does not fit 32 bits.
pub open spec fn coalesce(s: Seq<(u32, u32)>) -> Option<Seq<(u32, u32)>>
    decreases s.len(),
{
    if s.len() == 0 {
        Some(Seq::empty())
    } else {
        match coalesce(s.drop_last()) {
            None => None,
            Some(p) => if p.len() > 0 && p.last().1 == s.last().1 {
                if p.last().0 + s.last().0 > u32::MAX {
                    None
                } else {
                    Some(p.drop_last().push(((p.last().0 + s.last().0) as u32, s.last().1)))
                }
            } else {
                Some(p.push(s.last()))
            },
        }
    }
}

/// The one entry of the edit list of a track that has none of its own: the
/// whole track, played from its start.
pub open spec fn fallback_entry(t: TrackDescView) -> EditListEntry {
    EditListEntry {
        segment_duration: if t.mdhd_duration > t.elst_segment_duration {
            t.mdhd_duration
        } else {
            t.elst_segment_duration
        },
        media_time: 0,
        media_rate: NORMAL_RATE,
    }
}

/// What follows version and flags in the box of type `typ` written for track
/// `t`, with the merged payload at `base` in the output. `None` where a number
/// does not fit its field.
#[verifier::opaque]
pub open spec fn table_payload(typ: u32, t: TrackDescView, base: u64) -> Option<Seq<u8>> {
    if typ == ELST {
        if t.elst_entries.len() == 0 {
            Some(be_bytes_u32(1) + entry_bytes(fallback_entry(t)))
        } else if t.elst_entries.len() > u32::MAX {
            None
        } else {
            Some(be_bytes_u32(t.elst_entries.len() as u32) + concat_entries(t.elst_entries))
        }
    } else if typ == STTS {
        match coalesce(t.stts) {
            None => None,
            Some(c) => if c.len() > u32::MAX {
                None
            } else {
                Some(be_bytes_u32(c.len() as u32) + concat_pairs(c))
            },
        }
    } else if typ == STSZ {
        Some(
            be_bytes_u32(t.stsz_sample_size) + be_bytes_u32(t.stsz_count) + if t.stsz_sample_size
                == 0 {
                concat_u32(t.stsz)
            } else {
                Seq::empty()
            },
        )
    } else if typ == STSS {
        if t.stss.len() > u32::MAX {
            None
        } else {
            Some(be_bytes_u32(t.stss.len() as u32) + concat_u32(t.stss))
        }
    } else if typ == STCO || typ == CO64 {
        if t.stco.len() > u32::MAX || !offsets_fit(t.stco, base) {
            None
        } else {
            Some(be_bytes_u32(t.stco.len() as u32) + concat_offsets(t.stco, base))
        }
    } else if typ == SDTP {
        Some(t.sdtp)
    } else {
        if t.stsc.len() > u32::MAX {
            None
        } else {
            Some(be_bytes_u32(t.stsc.len() as u32) + concat_triples(t.stsc))
        }
    }
}

/// Version and flags of a box that is written afresh: an edit list is of
/// version 1, every other box of version 0.
pub open spec fn version_and_flags(typ: u32) -> Seq<u8> {
    if typ == ELST {
        seq![1u8, 0u8, 0u8, 0u8]
    } else {
        seq![0u8, 0u8, 0u8, 0u8]
    }
}

/// The type under which a box is written: chunk offsets always as `co64`.
pub open spec fn written_type(typ: u32) -> u32 {
    if typ == STCO {
        CO64
    } else {
        typ
    }
}

/// The whole box written for track `t` in place of a box of type `typ`.
/// `None` where a number does not fit its field.
pub open spec fn table_box(typ: u32, t: TrackDescView, base: u64) -> Option<Seq<u8>> {
    match table_payload(typ, t, base) {
        None => None,
        Some(p) => if 12 + p.len() > u32::MAX {
            None
        } else {
            Some(
                be_bytes_u32((12 + p.len()) as u32) + be_bytes_u32(written_type(typ))
                    + version_and_flags(typ) + p,
            )
        },
    }
}

fn emit_u32s(out: &mut Vec<u8>, s: &Vec<u32>)
    ensures
        final(out)@ == old(out)@ + concat_u32(s@),
{
    let mut i: usize = 0;
    while i < s.len()
        invariant
            i <= s.len(),
            out@ == old(out)@ + concat_u32(s@.take(i as int)),
        decreases s.len() - i,
    {
        push_be_u32(out, s[i]);
        i = i + 1;
        assert(s@.take(i as int).drop_last() =~= s@.take(i - 1));
        assert(out@ =~= old(out)@ + concat_u32(s@.take(i as int)));
    }
    assert(s@.take(s.len() as int) =~= s@);
}

/// Appends the chunk offsets raised by `base`; `false`, with nothing said of
/// what was appended, where one of them does not fit.
pub fn emit_offsets(out: &mut Vec<u8>, s: &Vec<u64>, base: u64) -> (ok: bool)
    ensures
        ok == offsets_fit(s@, base),
        ok ==> final(out)@ == old(out)@ + concat_offsets(s@, base),
{
    let mut i: usize = 0;
    while i < s.len()
        invariant
            i <= s.len(),
            forall|j: int| 0 <= j < i ==> #[trigger] s@[j] + base <= u64::MAX,
            out@ == old(out)@ + concat_offsets(s@.take(i as int), base),
        decreases s.len() - i,
    {
        let x = match s[i].checked_add(base) {
            Some(x) => x,
            None => {
                return false;
            },
        };
        push_be_u64(out, x);
        i = i + 1;
        assert(s@.take(i as int).drop_last() =~= s@.take(i - 1));
        assert(out@ =~= old(out)@ + concat_offsets(s@.take(i as int), base));
    }
    assert(s@.take(s.len() as int) =~= s@);
    true
}

fn emit_pairs(out: &mut Vec<u8>, s: &Vec<(u32, u32)>)
    ensures
        final(out)@ == old(out)@ + concat_pairs(s@),
{
    let mut i: usize = 0;
    while i < s.len()
        invariant
            i <= s.len(),
            out@ == old(out)@ + concat_pairs(s@.take(i as int)),
        decreases s.len() - i,
    {
        push_be_u32(out, s[i].0);
        push_be_u32(out, s[i].1);
        i = i + 1;
        assert(s@.take(i as int).drop_last() =~= s@.take(i - 1));
        assert(out@ =~= old(out)@ + concat_pairs(s@.take(i as int)));
    }
    assert(s@.take(s.len() as int) =~= s@);
}

fn emit_triples(out: &mut Vec<u8>, s: &Vec<(u32, u32, u32)>)
    ensures
        final(out)@ == old(out)@ + concat_triples(s@),
{
    let mut i: usize = 0;
    while i < s.len()
        invariant
            i <= s.len(),
            out@ == old(out)@ + concat_triples(s@.take(i as int)),
        decreases s.len() - i,
    {
        push_be_u32(out, s[i].0);
        push_be_u32(out, s[i].1);
        push_be_u32(out, s[i].2);
        i = i + 1;
        assert(s@.take(i as int).drop_last() =~= s@.take(i - 1));
        assert(out@ =~= old(out)@ + concat_triples(s@.take(i as int)));
    }
    assert(s@.take(s.len() as int) =~= s@);
}

fn emit_entry(out: &mut Vec<u8>, e: EditListEntry)
    ensures
        final(out)@ == old(out)@ + entry_bytes(e),
{
    push_be_u64(out, e.segment_duration);
    push_be_i64(out, e.media_time);
    push_be_u32(out, e.media_rate);
    assert(out@ =~= old(out)@ + entry_bytes(e));
}

fn emit_entries(out: &mut Vec<u8>, s: &Vec<EditListEntry>)
    ensures
        final(out)@ == old(out)@ + concat_entries(s@),
{
    let mut i: usize = 0;
    while i < s.len()
        invariant
            i <= s.len(),
            out@ == old(out)@ + concat_entries(s@.take(i as int)),
        decreases s.len() - i,
    {
        emit_entry(out, s[i]);
        i = i + 1;
        assert(s@.take(i as int).drop_last() =~= s@.take(i - 1));
        assert(out@ =~= old(out)@ + concat_entries(s@.take(i as int)));
    }
    assert(s@.take(s.len() as int) =~= s@);
}

/// Makes one entry of every run of entries that share a delta.
pub fn coalesce_stts(s: &Vec<(u32, u32)>) -> (r: Option<Vec<(u32, u32)>>)
    ensures
        match coalesce(s@) {
            None => r is None,
            Some(c) => r matches Some(v) && v@ == c,
        },
{
    let mut merged: Vec<(u32, u32)> = Vec::new();
    let mut i: usize = 0;
    while i < s.len()
        invariant
            i <= s.len(),
            coalesce(s@.take(i as int)) == Some(merged@),
        decreases s.len() - i,
    {
        let x = s[i];
        let n = merged.len();
        assert(s@.take(i + 1).drop_last() =~= s@.take(i as int));
        if n > 0 && merged[n - 1].1 == x.1 {
            match merged[n - 1].0.checked_add(x.0) {
                None => {
                    proof {
                        lemma_coalesce_stays_none(s@, i + 1);
                    }
                    return None;
                },
                Some(sum) => {
                    let ghost was = merged@;
                    merged[n - 1] = (sum, x.1);
                    assert(merged@ =~= was.drop_last().push((sum, x.1)));
                },
            }
        } else {
            merged.push(x);
        }
        i = i + 1;
    }
    assert(s@.take(s.len() as int) =~= s@);
    Some(merged)
}

/// Once a count has failed to fit, the table with more entries fails too.
pub proof fn lemma_coalesce_stays_none(s: Seq<(u32, u32)>, k: int)
    requires
        0 <= k <= s.len(),
        coalesce(s.take(k)) is None,
    ensures
        coalesce(s) is None,
    decreases s.len() - k,
{
    if k < s.len() {
        assert(s.take(k + 1).drop_last() =~= s.take(k));
        lemma_coalesce_stays_none(s, k + 1);
    } else {
        assert(s.take(k) =~= s);
    }
}

/// The bytes that follow version and flags in the box written for `t` in
/// place of one of type `typ`.
pub fn build_table_payload(typ: u32, t: &TrackDesc, base: u64) -> (r: Option<Vec<u8>>)
    ensures
        match table_payload(typ, t@, base) {
            None => r is None,
            Some(p) => r matches Some(v) && v@ == p,
        },
{
    reveal(table_payload);
    let mut out: Vec<u8> = Vec::new();
    if typ == ELST {
        if t.elst_entries.len() == 0 {
            push_be_u32(&mut out, 1);
            let duration = if t.mdhd_duration > t.elst_segment_duration {
                t.mdhd_duration
            } else {
                t.elst_segment_duration
            };
            emit_entry(
                &mut out,
                EditListEntry { segment_duration: duration, media_time: 0, media_rate: NORMAL_RATE },
            );
        } else {
            if t.elst_entries.len() > u32::MAX as usize {
                return None;
            }
            push_be_u32(&mut out, t.elst_entries.len() as u32);
            emit_entries(&mut out, &t.elst_entries);
        }
    } else if typ == STTS {
        let merged = match coalesce_stts(&t.stts) {
            None => {
                return None;
            },
            Some(m) => m,
        };
        if merged.len() > u32::MAX as usize {
            return None;
        }
        push_be_u32(&mut out, merged.len() as u32);
        emit_pairs(&mut out, &merged);
    } else if typ == STSZ {
        push_be_u32(&mut out, t.stsz_sample_size);
        push_be_u32(&mut out, t.stsz_count);
        if t.stsz_sample_size == 0 {
            emit_u32s(&mut out, &t.stsz);
        }
    } else if typ == STSS {
        if t.stss.len() > u32::MAX as usize {
            return None;
        }
        push_be_u32(&mut out, t.stss.len() as u32);
        emit_u32s(&mut out, &t.stss);
    } else if typ == STCO || typ == CO64 {
        if t.stco.len() > u32::MAX as usize {
            return None;
        }
        push_be_u32(&mut out, t.stco.len() as u32);
        if !emit_offsets(&mut out, &t.stco, base) {
            return None;
        }
    } else if typ == SDTP {
        out.extend_from_slice(t.sdtp.as_slice());
    } else {
        if t.stsc.len() > u32::MAX as usize {
            return None;
        }
        push_be_u32(&mut out, t.stsc.len() as u32);
        emit_triples(&mut out, &t.stsc);
    }
    assert(out@ =~= table_payload(typ, t@, base)->0);
    Some(out)
}

/// The box written for `t` in place of one of type `typ`.
pub fn build_table_box(typ: u32, t: &TrackDesc, base: u64) -> (r: Option<Vec<u8>>)
    ensures
        match table_box(typ, t@, base) {
            None => r is None,
            Some(b) => r matches Some(v) && v@ == b,
        },
        r matches Some(v) ==> 12 <= v@.len() <= u32::MAX,
{
    let payload = match build_table_payload(typ, t, base) {
        None => {
            return None;
        },
        Some(p) => p,
    };
    if payload.len() > (u32::MAX - 12) as usize {
        return None;
    }
    let mut out: Vec<u8> = Vec::new();
    push_be_u32(&mut out, 12 + payload.len() as u32);
    push_be_u32(
        &mut out,
        if typ == STCO {
            CO64
        } else {
            typ
        },
    );
    out.push(
        if typ == ELST {
            1
        } else {
            0
        },
    );
    out.push(0);
    out.push(0);
    out.push(0);
    out.extend_from_slice(payload.as_slice());
    assert(out@ =~= table_box(typ, t@, base)->0);
    Some(out)
}

/// A box that is written afresh takes twelve bytes at least.
pub proof fn lemma_table_box_size(typ: u32, t: TrackDescView, base: u64)
    ensures
        table_box(typ, t, base) matches Some(b) ==> 12 <= b.len() <= u32::MAX,
{
}

/// A time-to-sample table that is written has no two neighbours with the same
/// delta.
pub proof fn lemma_coalesce_minimal(s: Seq<(u32, u32)>)
    ensures
        coalesce(s) matches Some(c) ==> forall|i: int|
            0 <= i < c.len() - 1 ==> (#[trigger] c[i]).1 != c[i + 1].1,
    decreases s.len(),
{
    if s.len() > 0 {
        lemma_coalesce_minimal(s.drop_last());
    }
}

/// A time-to-sample table that is written counts as many samples as the
/// table it was made from.
pub proof fn lemma_coalesce_keeps_samples(s: Seq<(u32, u32)>)
    ensures
        coalesce(s) matches Some(c) ==> sample_count(c) == sample_count(s),
    decreases s.len(),
{
    if s.len() > 0 {
        lemma_coalesce_keeps_samples(s.drop_last());
        match coalesce(s.drop_last()) {
            None => {},
            Some(p) => if p.len() > 0 && p.last().1 == s.last().1 {
                if p.last().0 + s.last().0 <= u32::MAX {
                    let c = p.drop_last().push(((p.last().0 + s.last().0) as u32, s.last().1));
                    assert(c.drop_last() =~= p.drop_last());
                }
            } else {
                assert(p.push(s.last()).drop_last() =~= p);
            },
        }
    }
}

/// The number of samples that a time-to-sample table counts.
pub open spec fn sample_count(s: Seq<(u32, u32)>) -> int
    decreases s.len(),
{
    if s.len() == 0 {
        0
    } else {
        sample_count(s.drop_last()) + s.last().0
    }
}

/// In the bytes of a table of chunk offsets, entry `i` reads as chunk offset
/// `i` raised by `base`.
pub proof fn lemma_offset_entry(s: Seq<u64>, base: u64, i: int)
    requires
        0 <= i < s.len(),
        offsets_fit(s, base),
    ensures
        concat_offsets(s, base).len() == 8 * s.len(),
        be_u64(concat_offsets(s, base), 8 * i) == s[i] + base,
    decreases s.len(),
{
    let front = concat_offsets(s.drop_last(), base);
    let last = be_bytes_u64((s.last() + base) as u64);
    lemma_be_u64(last, 0, (s.last() + base) as u64);
    assert(offsets_fit(s.drop_last(), base)) by {
        assert forall|j: int| 0 <= j < s.drop_last().len() implies #[trigger] s.drop_last()[j]
            + base <= u64::MAX by {
            assert(s[j] + base <= u64::MAX);
        }
    }
    lemma_offsets_length(s.drop_last(), base);
    if i < s.len() - 1 {
        lemma_offset_entry(s.drop_last(), base, i);
        assert(be_u64(front + last, 8 * i) == be_u64(front, 8 * i));
    } else {
        assert(s[i] + base <= u64::MAX);
        assert(be_u64(front + last, 8 * i) == be_u64(last, 0));
    }
}

/// A table of chunk offsets takes eight bytes for each.
pub proof fn lemma_offsets_length(s: Seq<u64>, base: u64)
    ensures
        concat_offsets(s, base).len() == 8 * s.len(),
    decreases s.len(),
{
    if s.len() > 0 {
        lemma_offsets_length(s.drop_last(), base);
        lemma_be_u64(Seq::empty(), 0, (s.last() + base) as u64);
    }
}

/// Every chunk offset that is written points into the merged payload, which
/// begins at `base` and is `total` bytes long, where the chunk itself lies
/// within the payload.
pub proof fn lemma_written_offsets_in_payload(s: Seq<u64>, base: u64, total: int, i: int)
    requires
        0 <= i < s.len(),
        offsets_fit(s, base),
        forall|j: int| 0 <= j < s.len() ==> s[j] < total,
    ensures
        base <= be_u64(concat_offsets(s, base), 8 * i) < base + total,
{
    lemma_offset_entry(s, base, i);
}

} // verus!
