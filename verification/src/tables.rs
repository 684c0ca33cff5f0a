//! Reading the entries of sample tables and edit lists.

use crate::bytes::{
    be_i32, be_i64, be_u32, be_u64, can_read, lemma_be_u32, lemma_be_u64,
    read_be_i32, read_be_i64, read_be_u32, read_be_u64, readable,
};
use crate::error::MergeError;
use vstd::prelude::*;
use vstd::slice::{slice_subrange, slice_to_vec};

verus! {

/// Entry `i` of a table of 32-bit numbers that starts at `base`.
pub open spec fn u32_entry(d: Seq<u8>, base: int, i: int) -> int {
    be_u32(d, base + 4 * i)
}

/// Entry `i` of a table of chunk offsets that starts at `base`: 64 bits wide
/// in a `co64` box, 32 bits in an `stco` box.
pub open spec fn offset_entry(d: Seq<u8>, base: int, wide: bool, i: int) -> int {
    if wide {
        be_u64(d, base + 8 * i)
    } else {
        be_u32(d, base + 4 * i)
    }
}

/// Entry `i` of a time-to-sample table that starts at `base`: a sample count
/// and a sample delta.
pub open spec fn stts_entry(d: Seq<u8>, base: int, i: int) -> (u32, u32) {
    (be_u32(d, base + 8 * i) as u32, be_u32(d, base + 8 * i + 4) as u32)
}

/// The first-chunk number of entry `i` of a sample-to-chunk table that starts
/// at `base`.
pub open spec fn stsc_first(d: Seq<u8>, base: int, i: int) -> int {
    be_u32(d, base + 12 * i)
}

/// Entry `i` of a sample-to-chunk table that starts at `base`, its first-chunk
/// number raised by `add`.
pub open spec fn stsc_entry(d: Seq<u8>, base: int, add: u32, i: int) -> (u32, u32, u32) {
    (
        (stsc_first(d, base, i) + add) as u32,
        be_u32(d, base + 12 * i + 4) as u32,
        be_u32(d, base + 12 * i + 8) as u32,
    )
}

/// `count` 32-bit numbers from `base` on, each raised by `add`.
pub open spec fn shifted_u32_entries(d: Seq<u8>, base: int, count: u32, add: u32) -> Result<
    Seq<u32>,
    MergeError,
> {
    if !readable(d, base, 4 * count) {
        Err(MergeError::UnexpectedEof)
    } else if exists|i: int| 0 <= i < count && #[trigger] u32_entry(d, base, i) + add > u32::MAX {
        Err(MergeError::Overflow)
    } else {
        Ok(Seq::new(count as nat, |i: int| (u32_entry(d, base, i) + add) as u32))
    }
}

/// A chunk offset of an input file, counted from the start of the merged
/// payload: `acc` is the length of the payloads before that of this file, and
/// `mdat_pos` the position of the payload in this file.
pub open spec fn rebased(raw: int, acc: u64, mdat_pos: u64) -> int {
    raw + acc - mdat_pos
}

/// `count` chunk offsets from `base` on, each counted from the start of the
/// merged payload.
pub open spec fn rebased_entries(
    d: Seq<u8>,
    base: int,
    count: u32,
    wide: bool,
    acc: u64,
    mdat_pos: u64,
) -> Result<Seq<u64>, MergeError> {
    if !readable(d, base, (if wide { 8int } else { 4int }) * count) {
        Err(MergeError::UnexpectedEof)
    } else if exists|i: int|
        0 <= i < count && !(0 <= rebased(#[trigger] offset_entry(d, base, wide, i), acc, mdat_pos)
            <= u64::MAX) {
        Err(MergeError::Overflow)
    } else {
        Ok(
            Seq::new(
                count as nat,
                |i: int| rebased(offset_entry(d, base, wide, i), acc, mdat_pos) as u64,
            ),
        )
    }
}

/// `count` time-to-sample runs from `base` on.
pub open spec fn stts_entries(d: Seq<u8>, base: int, count: u32) -> Result<
    Seq<(u32, u32)>,
    MergeError,
> {
    if !readable(d, base, 8 * count) {
        Err(MergeError::UnexpectedEof)
    } else {
        Ok(Seq::new(count as nat, |i: int| stts_entry(d, base, i)))
    }
}

/// `count` sample-to-chunk runs from `base` on, their first-chunk numbers
/// raised by `add`.
pub open spec fn stsc_entries(d: Seq<u8>, base: int, count: u32, add: u32) -> Result<
    Seq<(u32, u32, u32)>,
    MergeError,
> {
    if !readable(d, base, 12 * count) {
        Err(MergeError::UnexpectedEof)
    } else if exists|i: int| 0 <= i < count && #[trigger] stsc_first(d, base, i) + add > u32::MAX {
        Err(MergeError::Overflow)
    } else {
        Ok(Seq::new(count as nat, |i: int| stsc_entry(d, base, add, i)))
    }
}

/// The size of one edit-list entry: 64-bit fields in version 1, else 32-bit.
pub open spec fn elst_entry_size(v1: bool) -> int {
    if v1 {
        20
    } else {
        12
    }
}

/// The segment duration of entry `i` of an edit list that starts at `base`.
pub open spec fn elst_duration(d: Seq<u8>, base: int, v1: bool, i: int) -> int {
    if v1 {
        be_u64(d, base + 20 * i)
    } else {
        be_u32(d, base + 12 * i)
    }
}

/// The media time of entry `i` of an edit list that starts at `base`.
pub open spec fn elst_media_time(d: Seq<u8>, base: int, v1: bool, i: int) -> int {
    if v1 {
        be_i64(d, base + 20 * i + 8)
    } else {
        be_i32(d, base + 12 * i + 4)
    }
}

/// The bytes that the first `count` entries of an edit list take, less the
/// media rate of the last, which nothing reads.
pub open spec fn elst_needed(v1: bool, count: u32) -> int {
    if count == 0 {
        0
    } else {
        elst_entry_size(v1) * count - 4
    }
}

/// The summed segment durations of the first `n` entries of an edit list,
/// empty segments left out.
pub open spec fn elst_sum(d: Seq<u8>, base: int, v1: bool, n: nat) -> int
    decreases n,
{
    if n == 0 {
        0
    } else {
        elst_sum(d, base, v1, (n - 1) as nat) + if elst_media_time(d, base, v1, n - 1) != -1 {
            elst_duration(d, base, v1, n - 1)
        } else {
            0
        }
    }
}

/// `start` raised by the segment durations of an edit list of `count` entries
/// at `base`.
pub open spec fn elst_total(d: Seq<u8>, base: int, v1: bool, count: u32, start: u64) -> Result<
    u64,
    MergeError,
> {
    if !readable(d, base, elst_needed(v1, count)) {
        Err(MergeError::UnexpectedEof)
    } else if start + elst_sum(d, base, v1, count as nat) > u64::MAX {
        Err(MergeError::Overflow)
    } else {
        Ok((start + elst_sum(d, base, v1, count as nat)) as u64)
    }
}

/// The sum over an edit list grows with the number of entries.
pub proof fn lemma_elst_sum_grows(d: Seq<u8>, base: int, v1: bool, m: nat, n: nat)
    requires
        m <= n,
    ensures
        0 <= elst_sum(d, base, v1, m) <= elst_sum(d, base, v1, n),
    decreases n,
{
    if n > 0 {
        lemma_be_u64(d, base + 20 * (n - 1), 0);
        lemma_be_u32(d, base + 12 * (n - 1), 0);
        if m < n {
            lemma_elst_sum_grows(d, base, v1, m, (n - 1) as nat);
        } else {
            lemma_elst_sum_grows(d, base, v1, (n - 1) as nat, (n - 1) as nat);
        }
    }
}

pub fn read_u32_entries(d: &[u8], base: u64, count: u32, add: u32) -> (r: Result<
    Vec<u32>,
    MergeError,
>)
    ensures
        match shifted_u32_entries(d@, base as int, count, add) {
            Ok(s) => r matches Ok(v) && v@ == s,
            Err(e) => r == Err::<Vec<u32>, MergeError>(e),
        },
{
    if !can_read(d, base, 4 * (count as u64)) {
        return Err(MergeError::UnexpectedEof);
    }
    let mut v: Vec<u32> = Vec::new();
    let mut i: u32 = 0;
    while i < count
        invariant
            i <= count,
            readable(d@, base as int, 4 * count),
            base + 4 * count <= usize::MAX,
            v@ == Seq::new(i as nat, |j: int| (u32_entry(d@, base as int, j) + add) as u32),
            forall|j: int| 0 <= j < i ==> #[trigger] u32_entry(d@, base as int, j) + add <= u32::MAX,
        decreases count - i,
    {
        let raw = read_be_u32(d, (base + 4 * (i as u64)) as usize);
        assert(raw == u32_entry(d@, base as int, i as int));
        let e = match raw.checked_add(add) {
            Some(e) => e,
            None => {
                return Err(MergeError::Overflow);
            },
        };
        v.push(e);
        i = i + 1;
        assert(v@ =~= Seq::new(i as nat, |j: int| (u32_entry(d@, base as int, j) + add) as u32));
    }
    Ok(v)
}

pub fn read_chunk_offsets(
    d: &[u8],
    base: u64,
    count: u32,
    wide: bool,
    acc: u64,
    mdat_pos: u64,
) -> (r: Result<Vec<u64>, MergeError>)
    ensures
        match rebased_entries(d@, base as int, count, wide, acc, mdat_pos) {
            Ok(s) => r matches Ok(v) && v@ == s,
            Err(e) => r == Err::<Vec<u64>, MergeError>(e),
        },
{
    let width: u64 = if wide {
        8
    } else {
        4
    };
    if !can_read(d, base, width * (count as u64)) {
        return Err(MergeError::UnexpectedEof);
    }
    let mut v: Vec<u64> = Vec::new();
    let mut i: u32 = 0;
    while i < count
        invariant
            i <= count,
            width == (if wide { 8int } else { 4int }),
            readable(d@, base as int, width * count),
            base + width * count <= usize::MAX,
            v@ == Seq::new(
                i as nat,
                |j: int| rebased(offset_entry(d@, base as int, wide, j), acc, mdat_pos) as u64,
            ),
            forall|j: int|
                0 <= j < i ==> 0 <= rebased(
                    #[trigger] offset_entry(d@, base as int, wide, j),
                    acc,
                    mdat_pos,
                ) <= u64::MAX,
        decreases count - i,
    {
        let at = (base + width * (i as u64)) as usize;
        let raw: u64 = if wide {
            read_be_u64(d, at)
        } else {
            read_be_u32(d, at) as u64
        };
        assert(raw == offset_entry(d@, base as int, wide, i as int));
        let sum = raw as u128 + acc as u128;
        if sum < mdat_pos as u128 || sum - mdat_pos as u128 > u64::MAX as u128 {
            return Err(MergeError::Overflow);
        }
        v.push((sum - mdat_pos as u128) as u64);
        i = i + 1;
        assert(v@ =~= Seq::new(
            i as nat,
            |j: int| rebased(offset_entry(d@, base as int, wide, j), acc, mdat_pos) as u64,
        ));
    }
    Ok(v)
}

pub fn read_stts_entries(d: &[u8], base: u64, count: u32) -> (r: Result<
    Vec<(u32, u32)>,
    MergeError,
>)
    ensures
        match stts_entries(d@, base as int, count) {
            Ok(s) => r matches Ok(v) && v@ == s,
            Err(e) => r == Err::<Vec<(u32, u32)>, MergeError>(e),
        },
{
    if !can_read(d, base, 8 * (count as u64)) {
        return Err(MergeError::UnexpectedEof);
    }
    let mut v: Vec<(u32, u32)> = Vec::new();
    let mut i: u32 = 0;
    while i < count
        invariant
            i <= count,
            readable(d@, base as int, 8 * count),
            base + 8 * count <= usize::MAX,
            v@ == Seq::new(i as nat, |j: int| stts_entry(d@, base as int, j)),
        decreases count - i,
    {
        let at = (base + 8 * (i as u64)) as usize;
        let n = read_be_u32(d, at);
        let delta = read_be_u32(d, at + 4);
        v.push((n, delta));
        i = i + 1;
        assert(v@ =~= Seq::new(i as nat, |j: int| stts_entry(d@, base as int, j)));
    }
    Ok(v)
}

pub fn read_stsc_entries(d: &[u8], base: u64, count: u32, add: u32) -> (r: Result<
    Vec<(u32, u32, u32)>,
    MergeError,
>)
    ensures
        match stsc_entries(d@, base as int, count, add) {
            Ok(s) => r matches Ok(v) && v@ == s,
            Err(e) => r == Err::<Vec<(u32, u32, u32)>, MergeError>(e),
        },
{
    if !can_read(d, base, 12 * (count as u64)) {
        return Err(MergeError::UnexpectedEof);
    }
    let mut v: Vec<(u32, u32, u32)> = Vec::new();
    let mut i: u32 = 0;
    while i < count
        invariant
            i <= count,
            readable(d@, base as int, 12 * count),
            base + 12 * count <= usize::MAX,
            v@ == Seq::new(i as nat, |j: int| stsc_entry(d@, base as int, add, j)),
            forall|j: int| 0 <= j < i ==> #[trigger] stsc_first(d@, base as int, j) + add <= u32::MAX,
        decreases count - i,
    {
        let at = (base + 12 * (i as u64)) as usize;
        let raw = read_be_u32(d, at);
        assert(raw == stsc_first(d@, base as int, i as int));
        let first = match raw.checked_add(add) {
            Some(e) => e,
            None => {
                return Err(MergeError::Overflow);
            },
        };
        let per_chunk = read_be_u32(d, at + 4);
        let description = read_be_u32(d, at + 8);
        v.push((first, per_chunk, description));
        i = i + 1;
        assert(v@ =~= Seq::new(i as nat, |j: int| stsc_entry(d@, base as int, add, j)));
    }
    Ok(v)
}

/// The `count` bytes from `base` on.
pub fn read_bytes(d: &[u8], base: u64, count: u64) -> (r: Result<Vec<u8>, MergeError>)
    ensures
        readable(d@, base as int, count as int) ==> (r matches Ok(v) && v@ == d@.subrange(
            base as int,
            base + count,
        )),
        !readable(d@, base as int, count as int) ==> r == Err::<Vec<u8>, MergeError>(
            MergeError::UnexpectedEof,
        ),
{
    if !can_read(d, base, count) {
        return Err(MergeError::UnexpectedEof);
    }
    Ok(slice_to_vec(slice_subrange(d, base as usize, (base + count) as usize)))
}

pub fn read_elst_total(d: &[u8], base: u64, v1: bool, count: u32, start: u64) -> (r: Result<
    u64,
    MergeError,
>)
    ensures
        r == elst_total(d@, base as int, v1, count, start),
{
    let esz: u64 = if v1 {
        20
    } else {
        12
    };
    let needed: u64 = if count == 0 {
        0
    } else {
        esz * (count as u64) - 4
    };
    if !can_read(d, base, needed) {
        return Err(MergeError::UnexpectedEof);
    }
    let mut total: u64 = start;
    let mut i: u32 = 0;
    while i < count
        invariant
            i <= count,
            esz == elst_entry_size(v1),
            needed == elst_needed(v1, count),
            readable(d@, base as int, needed as int),
            base + needed <= usize::MAX,
            total == start + elst_sum(d@, base as int, v1, i as nat),
        decreases count - i,
    {
        let at = (base + esz * (i as u64)) as usize;
        let duration: u64 = if v1 {
            read_be_u64(d, at)
        } else {
            read_be_u32(d, at) as u64
        };
        let media_time: i64 = if v1 {
            read_be_i64(d, at + 8)
        } else {
            read_be_i32(d, at + 4) as i64
        };
        assert(duration == elst_duration(d@, base as int, v1, i as int));
        assert(media_time == elst_media_time(d@, base as int, v1, i as int));
        if media_time != -1 {
            total = match total.checked_add(duration) {
                Some(t) => t,
                None => {
                    proof {
                        lemma_elst_sum_grows(d@, base as int, v1, (i + 1) as nat, count as nat);
                    }
                    return Err(MergeError::Overflow);
                },
            };
        }
        i = i + 1;
    }
    Ok(total)
}

/// A chunk that lies within the payload of its file, which is at `mdat_pos`
/// and `len` bytes long, lies after rebasing within the share of that file in
/// the merged payload, which begins at `acc`.
pub proof fn lemma_rebased_in_region(raw: int, acc: u64, mdat_pos: u64, len: u64)
    requires
        mdat_pos <= raw < mdat_pos + len,
    ensures
        acc <= rebased(raw, acc, mdat_pos) < acc + len,
{
}

/// Where every chunk of a table lies within the payload of its file, which is
/// at `mdat_pos` and `len` bytes long, and the share of that file in the merged
/// payload, which begins at `acc`, ends within 64 bits, the table is taken,
/// and every chunk lies within that share.
pub proof fn lemma_rebased_entries_in_region(
    d: Seq<u8>,
    base: int,
    count: u32,
    wide: bool,
    acc: u64,
    mdat_pos: u64,
    len: u64,
)
    requires
        readable(d, base, (if wide { 8int } else { 4int }) * count),
        acc + len <= u64::MAX,
        forall|i: int|
            0 <= i < count ==> mdat_pos <= #[trigger] offset_entry(d, base, wide, i) < mdat_pos
                + len,
    ensures
        rebased_entries(d, base, count, wide, acc, mdat_pos) is Ok,
        forall|i: int|
            0 <= i < count ==> acc <= #[trigger] rebased_entries(
                d,
                base,
                count,
                wide,
                acc,
                mdat_pos,
            )->Ok_0[i] < acc + len,
{
    assert forall|i: int| 0 <= i < count implies 0 <= rebased(
        #[trigger] offset_entry(d, base, wide, i),
        acc,
        mdat_pos,
    ) <= u64::MAX by {
        lemma_rebased_in_region(offset_entry(d, base, wide, i), acc, mdat_pos, len);
    }
    assert forall|i: int| 0 <= i < count implies acc <= #[trigger] rebased_entries(
        d,
        base,
        count,
        wide,
        acc,
        mdat_pos,
    )->Ok_0[i] < acc + len by {
        lemma_rebased_in_region(offset_entry(d, base, wide, i), acc, mdat_pos, len);
    }
}

} // verus!
