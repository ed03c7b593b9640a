//! Helpers that are not part of the MP4 format itself: access to the samples and chunks that a
//! sample table describes.
use crate::basic_types::{BaseBox, BoxType, Either, NonZeroU32};
use crate::boxes::{
    SampleEntry, StblBox, StscBox, StscEntry, StszBox, SttsEntry,
};
use vstd::prelude::*;

verus! {

// ---------------------------------------------------------------------------
// Time-to-sample model
// ---------------------------------------------------------------------------

/// The number of samples that the first `n` time-to-sample entries describe.
pub open spec fn stts_count_prefix(es: Seq<SttsEntry>, n: int) -> int
    decreases n,
{
    if n <= 0 {
        0
    } else {
        stts_count_prefix(es, n - 1) + es[n - 1].sample_count
    }
}

/// The total duration of the samples that the first `n` time-to-sample entries describe.
pub open spec fn stts_time_prefix(es: Seq<SttsEntry>, n: int) -> int
    decreases n,
{
    if n <= 0 {
        0
    } else {
        stts_time_prefix(es, n - 1) + es[n - 1].sample_count * es[n - 1].sample_delta
    }
}

/// Whether entry `k` describes sample `j` (counted from zero).
pub open spec fn stts_entry_has(es: Seq<SttsEntry>, k: int, j: int) -> bool {
    0 <= k < es.len() && stts_count_prefix(es, k) <= j < stts_count_prefix(es, k + 1)
}

/// The entry that describes sample `j` (counted from zero).
pub open spec fn stts_entry_of(es: Seq<SttsEntry>, j: int) -> int {
    choose|k: int| stts_entry_has(es, k, j)
}

/// The duration of sample `j` (counted from zero).
pub open spec fn sample_duration_of(es: Seq<SttsEntry>, j: int) -> u32 {
    es[stts_entry_of(es, j)].sample_delta
}

/// The timestamp of sample `j` (counted from zero): the total duration of the samples before it.
pub open spec fn sample_timestamp_of(es: Seq<SttsEntry>, j: int) -> int {
    let k = stts_entry_of(es, j);
    stts_time_prefix(es, k) + es[k].sample_delta * (j - stts_count_prefix(es, k))
}

/// Sample counts only grow with the number of entries.
pub proof fn lemma_count_prefix_mono(es: Seq<SttsEntry>, a: int, b: int)
    requires
        0 <= a <= b <= es.len(),
    ensures
        0 <= stts_count_prefix(es, a) <= stts_count_prefix(es, b),
    decreases b - a,
{
    if a < b {
        lemma_count_prefix_mono(es, a, b - 1);
    } else {
        lemma_count_prefix_nonneg(es, a);
    }
}

/// Sample counts are not negative.
pub proof fn lemma_count_prefix_nonneg(es: Seq<SttsEntry>, a: int)
    ensures
        0 <= stts_count_prefix(es, a),
    decreases a,
{
    if a > 0 {
        lemma_count_prefix_nonneg(es, a - 1);
    }
}

/// Durations only grow with the number of entries.
pub proof fn lemma_time_prefix_mono(es: Seq<SttsEntry>, a: int, b: int)
    requires
        0 <= a <= b <= es.len(),
    ensures
        0 <= stts_time_prefix(es, a) <= stts_time_prefix(es, b),
    decreases b - a,
{
    if a < b {
        lemma_time_prefix_mono(es, a, b - 1);
        let e = es[b - 1];
        assert(e.sample_count * e.sample_delta >= 0) by (nonlinear_arith)
            requires
                e.sample_count >= 0,
                e.sample_delta >= 0,
        ;
    } else {
        lemma_time_prefix_nonneg(es, a);
    }
}

/// Durations are not negative.
pub proof fn lemma_time_prefix_nonneg(es: Seq<SttsEntry>, a: int)
    ensures
        0 <= stts_time_prefix(es, a),
    decreases a,
{
    if a > 0 {
        lemma_time_prefix_nonneg(es, a - 1);
        let e = es[a - 1];
        assert(e.sample_count * e.sample_delta >= 0) by (nonlinear_arith)
            requires
                e.sample_count >= 0,
                e.sample_delta >= 0,
        ;
    }
}

/// Each sample of a table belongs to exactly one entry.
pub proof fn lemma_stts_entry_of(es: Seq<SttsEntry>, j: int)
    requires
        0 <= j < stts_count_prefix(es, es.len() as int),
    ensures
        stts_entry_has(es, stts_entry_of(es, j), j),
        forall|k: int| #[trigger] stts_entry_has(es, k, j) ==> k == stts_entry_of(es, j),
{
    lemma_stts_entry_exists(es, j, es.len() as int);
    let k0 = stts_entry_of(es, j);
    assert forall|k: int| #[trigger] stts_entry_has(es, k, j) implies k == k0 by {
        if k < k0 {
            lemma_count_prefix_mono(es, k + 1, k0);
        } else if k > k0 {
            lemma_count_prefix_mono(es, k0 + 1, k);
        }
    }
}

/// A sample before the samples of the first `n` entries belongs to one of them.
proof fn lemma_stts_entry_exists(es: Seq<SttsEntry>, j: int, n: int)
    requires
        0 <= n <= es.len(),
        0 <= j < stts_count_prefix(es, n),
    ensures
        exists|k: int| stts_entry_has(es, k, j),
    decreases n,
{
    if n > 0 {
        if j >= stts_count_prefix(es, n - 1) {
            assert(stts_entry_has(es, n - 1, j));
        } else {
            lemma_stts_entry_exists(es, j, n - 1);
        }
    }
}

/// The timestamp of a sample is at most the total duration, less its own duration.
pub proof fn lemma_timestamp_bound(es: Seq<SttsEntry>, j: int)
    requires
        0 <= j < stts_count_prefix(es, es.len() as int),
    ensures
        0 <= sample_timestamp_of(es, j),
        sample_timestamp_of(es, j) + sample_duration_of(es, j) <= stts_time_prefix(
            es,
            stts_entry_of(es, j) + 1,
        ),
        stts_time_prefix(es, stts_entry_of(es, j) + 1) <= stts_time_prefix(es, es.len() as int),
{
    lemma_stts_entry_of(es, j);
    let k = stts_entry_of(es, j);
    let e = es[k];
    let p = stts_count_prefix(es, k);
    lemma_time_prefix_mono(es, k + 1, es.len() as int);
    lemma_time_prefix_nonneg(es, k);
    assert(e.sample_delta * (j - p) + e.sample_delta <= e.sample_count * e.sample_delta
        && e.sample_delta * (j - p) >= 0) by (nonlinear_arith)
        requires
            0 <= j - p < e.sample_count,
            e.sample_delta >= 0,
    ;
}

/// The samples of entries without samples take no time.
proof fn lemma_empty_entries(es: Seq<SttsEntry>, a: int, b: int)
    requires
        0 <= a <= b <= es.len(),
        stts_count_prefix(es, a) == stts_count_prefix(es, b),
    ensures
        stts_time_prefix(es, a) == stts_time_prefix(es, b),
    decreases b - a,
{
    if a < b {
        lemma_count_prefix_mono(es, a, b - 1);
        assert(es[b - 1].sample_count == 0);
        assert(es[b - 1].sample_count * es[b - 1].sample_delta == 0) by (nonlinear_arith)
            requires
                es[b - 1].sample_count == 0,
        ;
        lemma_empty_entries(es, a, b - 1);
    }
}

/// A sample starts where the previous one ends.
pub proof fn lemma_timestamp_step(es: Seq<SttsEntry>, j: int)
    requires
        0 <= j,
        j + 1 < stts_count_prefix(es, es.len() as int),
    ensures
        sample_timestamp_of(es, j + 1) == sample_timestamp_of(es, j) + sample_duration_of(es, j),
{
    lemma_stts_entry_of(es, j);
    lemma_stts_entry_of(es, j + 1);
    let k = stts_entry_of(es, j);
    let k2 = stts_entry_of(es, j + 1);
    let e = es[k];
    let p = stts_count_prefix(es, k);
    if stts_entry_has(es, k, j + 1) {
        assert(k2 == k);
        assert(e.sample_delta * (j + 1 - p) == e.sample_delta * (j - p) + e.sample_delta)
            by (nonlinear_arith);
    } else {
        assert(j + 1 == stts_count_prefix(es, k + 1));
        if k2 < k + 1 {
            lemma_count_prefix_mono(es, k2 + 1, k + 1);
        }
        assert(k2 >= k + 1);
        lemma_count_prefix_mono(es, k + 1, k2);
        lemma_empty_entries(es, k + 1, k2);
        assert(e.sample_delta * (j + 1 - p) == e.sample_delta * (j - p) + e.sample_delta)
            by (nonlinear_arith);
        assert(e.sample_delta * (j + 1 - p) == e.sample_count * e.sample_delta) by (nonlinear_arith)
            requires
                j + 1 - p == e.sample_count,
        ;
        let e2 = es[k2];
        assert(stts_count_prefix(es, k2) == j + 1);
        assert(e2.sample_delta * (j + 1 - stts_count_prefix(es, k2)) == 0) by (nonlinear_arith)
            requires
                j + 1 - stts_count_prefix(es, k2) == 0,
        ;
        assert(stts_time_prefix(es, k + 1) == stts_time_prefix(es, k) + e.sample_count
            * e.sample_delta);
    }
}

/// Timestamps grow with the sample number: a later sample starts no earlier than an earlier
/// one ends.
pub proof fn lemma_timestamp_mono(es: Seq<SttsEntry>, a: int, b: int)
    requires
        0 <= a < b < stts_count_prefix(es, es.len() as int),
    ensures
        sample_timestamp_of(es, a) + sample_duration_of(es, a) <= sample_timestamp_of(es, b),
    decreases b - a,
{
    lemma_timestamp_step(es, a);
    if a + 1 < b {
        lemma_timestamp_mono(es, a + 1, b);
        lemma_timestamp_bound(es, a + 1);
    }
}


/// The sample durations that the first `n` time-to-sample entries describe, in order: each
/// entry's delta, repeated by its sample count.
pub open spec fn stts_deltas(es: Seq<SttsEntry>, n: int) -> Seq<u32>
    decreases n,
{
    if n <= 0 {
        Seq::empty()
    } else {
        stts_deltas(es, n - 1) + Seq::new(es[n - 1].sample_count as nat, |i: int| es[n - 1].sample_delta)
    }
}

/// The sum of a sequence of durations.
pub open spec fn duration_sum(d: Seq<u32>) -> int
    decreases d.len(),
{
    if d.len() == 0 {
        0
    } else {
        duration_sum(d.drop_last()) + d.last()
    }
}

proof fn lemma_stts_deltas_prefix(es: Seq<SttsEntry>, n: int)
    requires
        0 <= n <= es.len(),
    ensures
        stts_deltas(es, n).len() == stts_count_prefix(es, n),
        forall|j: int|
            0 <= j < stts_count_prefix(es, n) ==> #[trigger] stts_deltas(es, n)[j]
                == sample_duration_of(es, j),
    decreases n,
{
    if n > 0 {
        lemma_stts_deltas_prefix(es, n - 1);
        lemma_count_prefix_nonneg(es, n - 1);
        lemma_count_prefix_mono(es, n, es.len() as int);
        let d = stts_deltas(es, n);
        let p = stts_count_prefix(es, n - 1);
        assert forall|j: int| 0 <= j < stts_count_prefix(es, n) implies #[trigger] d[j]
            == sample_duration_of(es, j) by {
            lemma_stts_entry_of(es, j);
            if j >= p {
                assert(stts_entry_has(es, n - 1, j));
            } else {
                assert(d[j] == stts_deltas(es, n - 1)[j]);
            }
        }
    }
}

/// The durations of the samples are the time-to-sample deltas expanded in order (each entry's
/// delta repeated by its sample count), and the timestamp of a sample is the sum of the
/// durations before it.
pub proof fn lemma_expanded_deltas(es: Seq<SttsEntry>, j: int)
    requires
        0 <= j < stts_count_prefix(es, es.len() as int),
    ensures
        stts_deltas(es, es.len() as int).len() == stts_count_prefix(es, es.len() as int),
        sample_duration_of(es, j) == stts_deltas(es, es.len() as int)[j],
        sample_timestamp_of(es, j) == duration_sum(stts_deltas(es, es.len() as int).take(j)),
    decreases j,
{
    let d = stts_deltas(es, es.len() as int);
    lemma_stts_deltas_prefix(es, es.len() as int);
    if j == 0 {
        lemma_first_timestamp(es);
        assert(d.take(0).len() == 0);
    } else {
        lemma_expanded_deltas(es, j - 1);
        lemma_timestamp_step(es, j - 1);
        assert(d.take(j).drop_last() =~= d.take(j - 1));
        assert(d.take(j).last() == d[j - 1]);
    }
}

// ---------------------------------------------------------------------------
// Sample-to-chunk model
// ---------------------------------------------------------------------------

/// Whether sample-to-chunk entry `j` applies to chunk `c` (counted from one).
pub open spec fn stsc_entry_has(s: Seq<StscEntry>, j: int, c: int) -> bool {
    &&& 0 <= j < s.len()
    &&& s[j].first_chunk.spec_get() <= c
    &&& j + 1 == s.len() || c < s[j + 1].first_chunk.spec_get()
}

/// The sample-to-chunk entry that applies to chunk `c` (counted from one).
pub open spec fn stsc_entry_of(s: Seq<StscEntry>, c: int) -> int {
    choose|j: int| stsc_entry_has(s, j, c)
}

/// Whether the first chunks of the entries strictly increase.
pub open spec fn stsc_increasing(s: Seq<StscEntry>) -> bool {
    forall|i: int|
        0 <= i && i + 1 < s.len() ==> #[trigger] s[i].first_chunk.spec_get() < s[i
            + 1].first_chunk.spec_get()
}

/// Whether the entries are usable: the first one starts at chunk one and the first chunks
/// strictly increase.
pub open spec fn stsc_wellformed(s: Seq<StscEntry>) -> bool {
    &&& s.len() > 0
    &&& s[0].first_chunk.spec_get() == 1
    &&& stsc_increasing(s)
}

/// The number of samples in chunk `c` (counted from one).
pub open spec fn samples_per_chunk(s: Seq<StscEntry>, c: int) -> int {
    s[stsc_entry_of(s, c)].sample_per_chunk as int
}

/// The first sample (counted from one) of chunk `c` (counted from one).
pub open spec fn chunk_first_sample(s: Seq<StscEntry>, c: int) -> int
    decreases c,
{
    if c <= 1 {
        1
    } else {
        chunk_first_sample(s, c - 1) + samples_per_chunk(s, c - 1)
    }
}

/// With increasing first chunks, entry `i` starts before entry `j` for `i < j`.
pub proof fn lemma_stsc_increasing(s: Seq<StscEntry>, i: int, j: int)
    requires
        stsc_increasing(s),
        0 <= i < j < s.len(),
    ensures
        s[i].first_chunk.spec_get() < s[j].first_chunk.spec_get(),
    decreases j - i,
{
    if i + 1 < j {
        lemma_stsc_increasing(s, i + 1, j);
    }
    assert(s[i].first_chunk.spec_get() < s[i + 1].first_chunk.spec_get());
}

/// Each chunk from one on has exactly one entry.
pub proof fn lemma_stsc_entry_of(s: Seq<StscEntry>, c: int)
    requires
        stsc_wellformed(s),
        c >= 1,
    ensures
        stsc_entry_has(s, stsc_entry_of(s, c), c),
        forall|j: int| #[trigger] stsc_entry_has(s, j, c) ==> j == stsc_entry_of(s, c),
{
    lemma_stsc_entry_exists(s, c, s.len() - 1);
    let j0 = stsc_entry_of(s, c);
    assert forall|j: int| #[trigger] stsc_entry_has(s, j, c) implies j == j0 by {
        if j < j0 {
            if j + 1 < j0 {
                lemma_stsc_increasing(s, j + 1, j0);
            }
        } else if j > j0 {
            if j0 + 1 < j {
                lemma_stsc_increasing(s, j0 + 1, j);
            }
        }
    }
}

proof fn lemma_stsc_entry_exists(s: Seq<StscEntry>, c: int, j: int)
    requires
        stsc_wellformed(s),
        0 <= j < s.len(),
        c >= 1,
        j + 1 < s.len() ==> c < s[j + 1].first_chunk.spec_get(),
    ensures
        exists|k: int| stsc_entry_has(s, k, c),
    decreases j,
{
    if s[j].first_chunk.spec_get() <= c {
        assert(stsc_entry_has(s, j, c));
    } else {
        assert(j > 0);
        lemma_stsc_entry_exists(s, c, j - 1);
    }
}

/// First samples of chunks grow with the chunk number.
pub proof fn lemma_chunk_first_mono(s: Seq<StscEntry>, a: int, b: int)
    requires
        1 <= a <= b,
    ensures
        chunk_first_sample(s, a) <= chunk_first_sample(s, b),
    decreases b - a,
{
    if a < b {
        lemma_chunk_first_mono(s, a, b - 1);
    }
}


// ---------------------------------------------------------------------------
// Chunk and sample data model
// ---------------------------------------------------------------------------

/// The number of chunks of a sample table.
pub open spec fn chunk_count_of(stbl: StblBox) -> int {
    match stbl.stco_or_co64_box {
        Either::A(b) => b.chunk_offsets@.len() as int,
        Either::B(b) => b.chunk_offsets@.len() as int,
    }
}

/// The file offset of chunk `c` (counted from one).
pub open spec fn chunk_offset_of(stbl: StblBox, c: int) -> int {
    match stbl.stco_or_co64_box {
        Either::A(b) => b.chunk_offsets@[c - 1] as int,
        Either::B(b) => b.chunk_offsets@[c - 1] as int,
    }
}

/// The number of samples of a sample table, as its time-to-sample entries count them.
pub open spec fn stts_sample_count(stbl: StblBox) -> int {
    stts_count_prefix(stbl.stts_box.entries@, stbl.stts_box.entries@.len() as int)
}

/// The total duration of the samples of a sample table.
pub open spec fn stts_total_duration(stbl: StblBox) -> int {
    stts_time_prefix(stbl.stts_box.entries@, stbl.stts_box.entries@.len() as int)
}

/// The size in bytes of sample `n` (counted from one).
pub open spec fn sample_size_of(stsz: StszBox, n: int) -> int {
    match stsz {
        StszBox::Fixed { sample_size, .. } => sample_size.spec_get() as int,
        StszBox::Variable { entry_sizes } => entry_sizes@[n - 1] as int,
    }
}

/// The number of bytes of the first `i` samples of chunk `c`.
pub open spec fn chunk_bytes_before(stbl: StblBox, c: int, i: int) -> int
    decreases i,
{
    if i <= 0 {
        0
    } else {
        chunk_bytes_before(stbl, c, i - 1) + sample_size_of(
            stbl.stsz_box,
            chunk_first_sample(stbl.stsc_box.entries@, c) + i - 1,
        )
    }
}

/// Whether chunk `c` holds sample `n` (both counted from one).
pub open spec fn chunk_has_sample(stbl: StblBox, c: int, n: int) -> bool {
    let s = stbl.stsc_box.entries@;
    &&& 1 <= c <= chunk_count_of(stbl)
    &&& chunk_first_sample(s, c) <= n < chunk_first_sample(s, c) + samples_per_chunk(s, c)
}

/// The chunk that holds sample `n`.
pub open spec fn chunk_of_sample(stbl: StblBox, n: int) -> int {
    choose|c: int| chunk_has_sample(stbl, c, n)
}

/// The file offset of the data of sample `n`.
pub open spec fn sample_data_offset_of(stbl: StblBox, n: int) -> int {
    let c = chunk_of_sample(stbl, n);
    chunk_offset_of(stbl, c) + chunk_bytes_before(
        stbl,
        c,
        n - chunk_first_sample(stbl.stsc_box.entries@, c),
    )
}

// ---------------------------------------------------------------------------
// Consistency checks
// ---------------------------------------------------------------------------

/// Errors that [`SampleTableAccessor::new()`] reports.
#[derive(Debug, Clone, Copy)]
pub enum SampleTableAccessorError {
    /// The time-to-sample box and another box count different numbers of samples.
    InconsistentSampleCount {
        /// The number of samples that the time-to-sample box counts.
        stts_sample_count: u32,
        /// The type of the other box.
        other_box_type: BoxType,
        /// The number of samples that the other box counts.
        other_sample_count: u32,
    },
    /// The first sample-to-chunk entry does not start at chunk one.
    FirstChunkIndexIsNotOne {
        /// The first chunk of the first entry.
        actual_chunk_index: NonZeroU32,
    },
    /// The last sample-to-chunk entry starts at a chunk that does not exist.
    LastChunkIndexIsTooLarge {
        /// The number of chunks.
        max_chunk_index: NonZeroU32,
        /// The first chunk of the last entry.
        last_chunk_index: NonZeroU32,
    },
    /// A sample-to-chunk entry refers to a sample entry that does not exist.
    MissingSampleEntry {
        /// The position of the sample-to-chunk entry.
        stsc_entry_index: usize,
        /// The sample entry that it refers to.
        sample_description_index: NonZeroU32,
        /// The number of sample entries.
        sample_entry_count: usize,
    },
    /// The first chunks of the sample-to-chunk entries do not strictly increase.
    ChunkIndicesNotMonotonicallyIncreasing,
    /// There are chunks but no sample-to-chunk entry to give their samples.
    ChunksExistButNoSamples {
        /// The number of chunks.
        chunk_count: u32,
    },
}

/// Whether a variable sample size box lists a size for each sample.
pub open spec fn stsz_count_ok(stbl: StblBox) -> bool {
    match stbl.stsz_box {
        StszBox::Variable { entry_sizes } => entry_sizes@.len() == stts_sample_count(stbl),
        StszBox::Fixed { .. } => true,
    }
}

/// Whether the first sample-to-chunk entry starts at chunk one (when there is one).
pub open spec fn stsc_first_ok(stbl: StblBox) -> bool {
    let s = stbl.stsc_box.entries@;
    s.len() > 0 ==> s[0].first_chunk.spec_get() == 1
}

/// Whether sample-to-chunk entry `i` refers to a missing sample entry.
pub open spec fn stsc_entry_missing(stbl: StblBox, i: int) -> bool {
    let s = stbl.stsc_box.entries@;
    0 <= i < s.len() && stbl.stsd_box.entries@.len() < s[i].sample_description_index.spec_get()
}

/// Whether the last sample-to-chunk entry starts at an existing chunk (when there are chunks).
pub open spec fn stsc_last_ok(stbl: StblBox) -> bool {
    let s = stbl.stsc_box.entries@;
    chunk_count_of(stbl) > 0 && s.len() > 0 ==> s.last().first_chunk.spec_get() <= chunk_count_of(
        stbl,
    )
}

/// Whether there are sample-to-chunk entries when there are chunks.
pub open spec fn stsc_present_ok(stbl: StblBox) -> bool {
    stbl.stsc_box.entries@.len() > 0 || chunk_count_of(stbl) == 0
}

/// The number of samples that the sample-to-chunk entries count, as a saturating 32-bit count
/// of the next sample after the last chunk, less one.
pub open spec fn stsc_sample_count(stbl: StblBox) -> int {
    let f = chunk_first_sample(stbl.stsc_box.entries@, chunk_count_of(stbl) + 1);
    (if f <= u32::MAX {
        f
    } else {
        u32::MAX as int
    }) - 1
}

/// Whether the checks before the chunk scan pass.
pub open spec fn table_prechecks_pass(stbl: StblBox) -> bool {
    &&& stsz_count_ok(stbl)
    &&& stsc_first_ok(stbl)
    &&& forall|i: int| !#[trigger] stsc_entry_missing(stbl, i)
    &&& stsc_increasing(stbl.stsc_box.entries@)
    &&& stsc_last_ok(stbl)
    &&& stsc_present_ok(stbl)
}

/// Whether all checks pass.
pub open spec fn table_checks_pass(stbl: StblBox) -> bool {
    table_prechecks_pass(stbl) && stsc_sample_count(stbl) == stts_sample_count(stbl)
}

/// Whether `e` is the error that the checks report first.
pub open spec fn is_table_error(stbl: StblBox, e: SampleTableAccessorError) -> bool {
    let s = stbl.stsc_box.entries@;
    let n = stts_sample_count(stbl);
    if !stsz_count_ok(stbl) {
        e matches SampleTableAccessorError::InconsistentSampleCount {
            stts_sample_count,
            other_box_type,
            other_sample_count,
        } && stts_sample_count == n && other_box_type == StszBox::spec_type() && (
        stbl.stsz_box matches StszBox::Variable { entry_sizes } && other_sample_count
            == entry_sizes@.len() as u32)
    } else if !stsc_first_ok(stbl) {
        e == SampleTableAccessorError::FirstChunkIndexIsNotOne {
            actual_chunk_index: s[0].first_chunk,
        }
    } else if exists|i: int| #[trigger] stsc_entry_missing(stbl, i) {
        e matches SampleTableAccessorError::MissingSampleEntry {
            stsc_entry_index,
            sample_description_index,
            sample_entry_count,
        } && stsc_entry_missing(stbl, stsc_entry_index as int) && (forall|j: int|
            0 <= j < stsc_entry_index ==> !#[trigger] stsc_entry_missing(stbl, j))
            && sample_description_index == s[stsc_entry_index as int].sample_description_index
            && sample_entry_count == stbl.stsd_box.entries@.len()
    } else if !stsc_increasing(s) {
        e == SampleTableAccessorError::ChunkIndicesNotMonotonicallyIncreasing
    } else if !stsc_last_ok(stbl) {
        e matches SampleTableAccessorError::LastChunkIndexIsTooLarge {
            max_chunk_index,
            last_chunk_index,
        } && max_chunk_index.spec_get() == chunk_count_of(stbl) && last_chunk_index
            == s.last().first_chunk
    } else if !stsc_present_ok(stbl) {
        e == SampleTableAccessorError::ChunksExistButNoSamples {
            chunk_count: chunk_count_of(stbl) as u32,
        }
    } else {
        e matches SampleTableAccessorError::InconsistentSampleCount {
            stts_sample_count,
            other_box_type,
            other_sample_count,
        } && stts_sample_count == n && other_box_type == StscBox::spec_type()
            && other_sample_count == stsc_sample_count(stbl)
    }
}

/// Whether reading a sample table stays within the machine's integers: the sample count and
/// total duration fit, and, for a consistent table, the chunk scan and the data offsets do.
pub open spec fn table_fits(stbl: StblBox) -> bool {
    let s = stbl.stsc_box.entries@;
    &&& stts_sample_count(stbl) <= u32::MAX
    &&& stts_total_duration(stbl) <= u64::MAX
    &&& chunk_count_of(stbl) <= u32::MAX
    &&& table_checks_pass(stbl) ==> chunk_first_sample(s, chunk_count_of(stbl) + 1) <= u32::MAX
    &&& table_checks_pass(stbl) ==> forall|c: int|
        1 <= c <= chunk_count_of(stbl) ==> chunk_offset_of(stbl, c) + #[trigger] chunk_bytes_before(
            stbl,
            c,
            samples_per_chunk(s, c),
        ) <= u64::MAX
}


// ---------------------------------------------------------------------------
// Lemmas on chunks
// ---------------------------------------------------------------------------

/// A sample belongs to at most one chunk.
pub proof fn lemma_chunk_of_sample(stbl: StblBox, c: int, n: int)
    requires
        chunk_has_sample(stbl, c, n),
    ensures
        chunk_of_sample(stbl, n) == c,
{
    let s = stbl.stsc_box.entries@;
    let c0 = chunk_of_sample(stbl, n);
    assert(chunk_has_sample(stbl, c0, n));
    if c0 < c {
        lemma_chunk_first_mono(s, c0 + 1, c);
    } else if c0 > c {
        lemma_chunk_first_mono(s, c + 1, c0);
    }
}

/// Every sample of a consistent table belongs to a chunk.
pub proof fn lemma_sample_has_chunk(stbl: StblBox, n: int, m: int)
    requires
        1 <= n < chunk_first_sample(stbl.stsc_box.entries@, m + 1),
        0 <= m <= chunk_count_of(stbl),
    ensures
        exists|c: int| chunk_has_sample(stbl, c, n),
    decreases m,
{
    let s = stbl.stsc_box.entries@;
    if m == 0 {
    } else if n >= chunk_first_sample(s, m) {
        assert(chunk_has_sample(stbl, m, n));
    } else {
        lemma_sample_has_chunk(stbl, n, m - 1);
    }
}

/// Bytes before a sample of a chunk grow with its position.
pub proof fn lemma_chunk_bytes_mono(stbl: StblBox, c: int, a: int, b: int)
    requires
        0 <= a <= b,
    ensures
        0 <= chunk_bytes_before(stbl, c, a) <= chunk_bytes_before(stbl, c, b),
    decreases b - a,
{
    if a < b {
        lemma_chunk_bytes_mono(stbl, c, a, b - 1);
        let n = chunk_first_sample(stbl.stsc_box.entries@, c) + b - 1;
        match stbl.stsz_box {
            StszBox::Fixed { .. } => {},
            StszBox::Variable { entry_sizes } => {},
        }
    } else {
        lemma_chunk_bytes_nonneg(stbl, c, a);
    }
}

proof fn lemma_chunk_bytes_nonneg(stbl: StblBox, c: int, a: int)
    ensures
        0 <= chunk_bytes_before(stbl, c, a),
    decreases a,
{
    if a > 0 {
        lemma_chunk_bytes_nonneg(stbl, c, a - 1);
    }
}

/// The chunk that holds a sample lists it among its samples, at the sample's place in it.
pub proof fn lemma_chunk_lists_sample(stbl: StblBox, c: int, n: int)
    requires
        chunk_has_sample(stbl, c, n),
    ensures
        ({
            let i = n - chunk_first_sample(stbl.stsc_box.entries@, c);
            &&& 0 <= i < samples_per_chunk(stbl.stsc_box.entries@, c)
            &&& chunk_first_sample(stbl.stsc_box.entries@, c) + i == n
        }),
{
}

/// With one sample-to-chunk entry, starting at chunk one, chunk `c` starts at sample
/// `(c - 1) * p + 1`, where `p` is the entry's number of samples per chunk.
proof fn lemma_single_entry_first_sample(s: Seq<StscEntry>, c: int)
    requires
        s.len() == 1,
        s[0].first_chunk.spec_get() == 1,
        c >= 1,
    ensures
        chunk_first_sample(s, c) == (c - 1) * s[0].sample_per_chunk + 1,
    decreases c,
{
    if c > 1 {
        lemma_single_entry_first_sample(s, c - 1);
        lemma_stsc_entry_of(s, c - 1);
        assert(stsc_entry_has(s, 0, c - 1));
        let p = s[0].sample_per_chunk as int;
        assert(samples_per_chunk(s, c - 1) == p);
        assert((c - 2) * p + p == (c - 1) * p) by (nonlinear_arith);
    } else {
        assert(c == 1);
        assert((c - 1) * s[0].sample_per_chunk == 0) by (nonlinear_arith)
            requires
                c == 1,
        ;
    }
}

/// With one sample-to-chunk entry of `p` samples per chunk, starting at chunk one, sample `n`
/// (counted from one) lies in chunk `(n - 1) / p + 1`.
pub proof fn lemma_single_entry_chunk_of_sample(stbl: StblBox, c: int, n: int)
    requires
        stbl.stsc_box.entries@.len() == 1,
        stbl.stsc_box.entries@[0].first_chunk.spec_get() == 1,
        chunk_has_sample(stbl, c, n),
    ensures
        stbl.stsc_box.entries@[0].sample_per_chunk > 0,
        c == (n - 1) / (stbl.stsc_box.entries@[0].sample_per_chunk as int) + 1,
{
    let s = stbl.stsc_box.entries@;
    let p = s[0].sample_per_chunk as int;
    lemma_single_entry_first_sample(s, c);
    lemma_stsc_entry_of(s, c);
    assert(stsc_entry_has(s, 0, c));
    assert(samples_per_chunk(s, c) == p);
    vstd::arithmetic::div_mod::lemma_fundamental_div_mod_converse(
        n - 1,
        p,
        c - 1,
        n - 1 - (c - 1) * p,
    );
}

// ---------------------------------------------------------------------------
// Searches
// ---------------------------------------------------------------------------

/// The sample-to-chunk entry that applies to chunk `c` (counted from one).
fn stsc_lookup(s: &[StscEntry], c: u32) -> (j: usize)
    requires
        stsc_wellformed(s@),
        c >= 1,
    ensures
        stsc_entry_has(s@, j as int, c as int),
        j as int == stsc_entry_of(s@, c as int),
{
    proof {
        lemma_stsc_entry_of(s@, c as int);
    }
    let mut lo: usize = 0;
    let mut hi: usize = s.len();
    while hi - lo > 1
        invariant
            stsc_wellformed(s@),
            0 <= lo < hi <= s@.len(),
            s@[lo as int].first_chunk.spec_get() <= c,
            hi < s@.len() ==> c < s@[hi as int].first_chunk.spec_get(),
        decreases hi - lo,
    {
        let mid = lo + (hi - lo) / 2;
        if s[mid].first_chunk.get() <= c {
            lo = mid;
        } else {
            hi = mid;
        }
    }
    proof {
        lemma_stsc_entry_of(s@, c as int);
        assert(stsc_entry_has(s@, lo as int, c as int));
    }
    lo
}

/// The position of the last time-to-sample entry whose samples start at or before sample `j`
/// (counted from zero).
fn duration_lookup(d: &[(u32, u32, u64)], j: u32, Ghost(es): Ghost<Seq<SttsEntry>>) -> (k: usize)
    requires
        d@.len() == es.len(),
        forall|k: int| 0 <= k < es.len() ==> (#[trigger] d@[k]).0 == stts_count_prefix(es, k),
        j < stts_count_prefix(es, es.len() as int),
    ensures
        k as int == stts_entry_of(es, j as int),
        k < d@.len(),
{
    proof {
        lemma_stts_entry_of(es, j as int);
        lemma_count_prefix_nonneg(es, 0);
    }
    let ghost k0 = stts_entry_of(es, j as int);
    let mut lo: usize = 0;
    let mut hi: usize = d.len();
    proof {
        assert(d@[0].0 == 0) by {
            lemma_count_prefix_mono(es, 0, k0);
        }
    }
    while hi - lo > 1
        invariant
            d@.len() == es.len(),
            forall|k: int| 0 <= k < es.len() ==> (#[trigger] d@[k]).0 == stts_count_prefix(es, k),
            0 <= lo <= k0 < hi <= d@.len(),
            stts_entry_has(es, k0, j as int),
        decreases hi - lo,
    {
        let mid = lo + (hi - lo) / 2;
        if d[mid].0 <= j {
            proof {
                if (mid as int) > k0 {
                    lemma_count_prefix_mono(es, k0 + 1, mid as int);
                }
            }
            lo = mid;
        } else {
            proof {
                if (mid as int) <= k0 {
                    lemma_count_prefix_mono(es, mid as int, k0);
                }
            }
            hi = mid;
        }
    }
    lo
}


// ---------------------------------------------------------------------------
// Building the tables
// ---------------------------------------------------------------------------

/// For each time-to-sample entry: the samples before it, its sample duration and the time
/// before it; and the number of samples.
fn build_durations(es: &[SttsEntry]) -> (r: (Vec<(u32, u32, u64)>, u32))
    requires
        stts_count_prefix(es@, es@.len() as int) <= u32::MAX,
        stts_time_prefix(es@, es@.len() as int) <= u64::MAX,
    ensures
        r.0@.len() == es@.len(),
        forall|k: int|
            0 <= k < es@.len() ==> (#[trigger] r.0@[k]).0 == stts_count_prefix(es@, k) && r.0@[k].1
                == es@[k].sample_delta && r.0@[k].2 == stts_time_prefix(es@, k),
        r.1 == stts_count_prefix(es@, es@.len() as int),
{
    let mut sample_count: u32 = 0;
    let mut acc_duration: u64 = 0;
    let mut durations: Vec<(u32, u32, u64)> = Vec::new();
    let mut i: usize = 0;
    while i < es.len()
        invariant
            i <= es@.len(),
            stts_count_prefix(es@, es@.len() as int) <= u32::MAX,
            stts_time_prefix(es@, es@.len() as int) <= u64::MAX,
            sample_count == stts_count_prefix(es@, i as int),
            acc_duration == stts_time_prefix(es@, i as int),
            durations@.len() == i,
            forall|k: int|
                0 <= k < i ==> (#[trigger] durations@[k]).0 == stts_count_prefix(es@, k)
                    && durations@[k].1 == es@[k].sample_delta && durations@[k].2
                    == stts_time_prefix(es@, k),
        decreases es@.len() - i,
    {
        let e = es[i];
        durations.push((sample_count, e.sample_delta, acc_duration));
        proof {
            lemma_count_prefix_mono(es@, i + 1, es@.len() as int);
            lemma_time_prefix_mono(es@, i + 1, es@.len() as int);
        }
        sample_count = sample_count + e.sample_count;
        assert((e.sample_delta as u64) * (e.sample_count as u64) <= u64::MAX) by (nonlinear_arith)
            requires
                e.sample_delta <= u32::MAX,
                e.sample_count <= u32::MAX,
        ;
        let d: u64 = e.sample_delta as u64 * e.sample_count as u64;
        assert(d == e.sample_count * e.sample_delta) by (nonlinear_arith)
            requires
                d == e.sample_delta as u64 * e.sample_count as u64,
        ;
        acc_duration = acc_duration + d;
        i += 1;
    }
    (durations, sample_count)
}

/// The number of chunks.
fn chunk_count_exec(stbl: &StblBox) -> (r: usize)
    ensures
        r == chunk_count_of(*stbl),
{
    match &stbl.stco_or_co64_box {
        Either::A(b) => b.chunk_offsets.len(),
        Either::B(b) => b.chunk_offsets.len(),
    }
}

/// The file offset of chunk `c` (counted from one).
fn chunk_offset_exec(stbl: &StblBox, c: u32) -> (r: u64)
    requires
        1 <= c <= chunk_count_of(*stbl),
    ensures
        r == chunk_offset_of(*stbl, c as int),
{
    let i = (c - 1) as usize;
    match &stbl.stco_or_co64_box {
        Either::A(b) => b.chunk_offsets[i] as u64,
        Either::B(b) => b.chunk_offsets[i],
    }
}

/// The size of sample `n` (counted from one).
fn sample_size_exec(stsz: &StszBox, n: u32, Ghost(count): Ghost<int>) -> (r: u32)
    requires
        1 <= n <= count,
        stsz matches StszBox::Variable { entry_sizes } ==> entry_sizes@.len() == count,
    ensures
        r == sample_size_of(*stsz, n as int),
{
    match stsz {
        StszBox::Fixed { sample_size, .. } => sample_size.get(),
        StszBox::Variable { entry_sizes } => entry_sizes[(n - 1) as usize],
    }
}

/// Runs the consistency checks, and computes the first sample of each chunk.
#[verifier::rlimit(40)]
fn check_table(stbl: &StblBox, sample_count: u32, chunk_count: u32) -> (r: Result<
    Vec<NonZeroU32>,
    SampleTableAccessorError,
>)
    requires
        table_fits(*stbl),
        sample_count == stts_sample_count(*stbl),
        chunk_count == chunk_count_of(*stbl),
    ensures
        r is Ok <==> table_checks_pass(*stbl),
        r matches Ok(v) ==> v@.len() == chunk_count && forall|k: int|
            0 <= k < chunk_count ==> (#[trigger] v@[k]).spec_get() == chunk_first_sample(
                stbl.stsc_box.entries@,
                k + 1,
            ),
        r matches Err(e) ==> is_table_error(*stbl, e),
{
    let s = stbl.stsc_box.entries.as_slice();
    match &stbl.stsz_box {
        StszBox::Variable { entry_sizes } => {
            if entry_sizes.len() != sample_count as usize {
                return Err(
                    SampleTableAccessorError::InconsistentSampleCount {
                        stts_sample_count: sample_count,
                        other_box_type: StszBox::TYPE(),
                        other_sample_count: entry_sizes.len() as u32,
                    },
                );
            }
        },
        StszBox::Fixed { .. } => {},
    }
    if s.len() > 0 && s[0].first_chunk.get() != 1 {
        return Err(
            SampleTableAccessorError::FirstChunkIndexIsNotOne { actual_chunk_index: s[0].first_chunk },
        );
    }
    let entry_count = stbl.stsd_box.entries.len();
    let mut i: usize = 0;
    while i < s.len()
        invariant
            s@ == stbl.stsc_box.entries@,
            entry_count == stbl.stsd_box.entries@.len(),
            i <= s@.len(),
            stsz_count_ok(*stbl),
            stsc_first_ok(*stbl),
            forall|j: int| 0 <= j < i ==> !#[trigger] stsc_entry_missing(*stbl, j),
        decreases s@.len() - i,
    {
        if entry_count < s[i].sample_description_index.get() as usize {
            assert(stsc_entry_missing(*stbl, i as int));
            return Err(
                SampleTableAccessorError::MissingSampleEntry {
                    stsc_entry_index: i,
                    sample_description_index: s[i].sample_description_index,
                    sample_entry_count: entry_count,
                },
            );
        }
        i += 1;
    }
    assert(forall|j: int| !#[trigger] stsc_entry_missing(*stbl, j));
    let last: usize = if s.len() > 0 {
        s.len() - 1
    } else {
        0
    };
    let mut i: usize = 0;
    while i < last
        invariant
            s@ == stbl.stsc_box.entries@,
            last == (if s@.len() > 0 {
                s@.len() - 1
            } else {
                0
            }),
            i <= last,
            stsz_count_ok(*stbl),
            stsc_first_ok(*stbl),
            forall|j: int| !#[trigger] stsc_entry_missing(*stbl, j),
            forall|j: int|
                0 <= j < i && j + 1 < s@.len() ==> #[trigger] s@[j].first_chunk.spec_get() < s@[j
                    + 1].first_chunk.spec_get(),
        decreases s@.len() - i,
    {
        if s[i].first_chunk.get() >= s[i + 1].first_chunk.get() {
            assert(!(s@[i as int].first_chunk.spec_get() < s@[i + 1].first_chunk.spec_get()));
            return Err(SampleTableAccessorError::ChunkIndicesNotMonotonicallyIncreasing);
        }
        i += 1;
    }
    assert(stsc_increasing(s@));
    if chunk_count > 0 && s.len() > 0 && s[s.len() - 1].first_chunk.get() > chunk_count {
        let max_chunk_index = match NonZeroU32::new(chunk_count) {
            Some(v) => v,
            None => {
                return Err(SampleTableAccessorError::ChunkIndicesNotMonotonicallyIncreasing);
            },
        };
        return Err(
            SampleTableAccessorError::LastChunkIndexIsTooLarge {
                max_chunk_index,
                last_chunk_index: s[s.len() - 1].first_chunk,
            },
        );
    }
    if chunk_count > 0 && s.len() == 0 {
        return Err(SampleTableAccessorError::ChunksExistButNoSamples { chunk_count });
    }
    assert(table_prechecks_pass(*stbl));
    let mut offsets: Vec<NonZeroU32> = Vec::new();
    let mut first_sample_index = NonZeroU32::MIN();
    let mut i: u32 = 0;
    while i < chunk_count
        invariant
            s@ == stbl.stsc_box.entries@,
            chunk_count > 0 ==> stsc_wellformed(s@),
            i <= chunk_count,
            offsets@.len() == i,
            forall|k: int|
                0 <= k < i ==> (#[trigger] offsets@[k]).spec_get() == (if chunk_first_sample(s@, k + 1)
                    <= u32::MAX {
                    chunk_first_sample(s@, k + 1)
                } else {
                    u32::MAX as int
                }),
            first_sample_index.spec_get() == (if chunk_first_sample(s@, i + 1) <= u32::MAX {
                chunk_first_sample(s@, i + 1)
            } else {
                u32::MAX as int
            }),
        decreases chunk_count - i,
    {
        let chunk_index = i + 1;
        offsets.push(first_sample_index);
        let j = stsc_lookup(s, chunk_index);
        proof {
            lemma_chunk_first_mono(s@, i + 1, i + 1);
        }
        first_sample_index = first_sample_index.saturating_add(s[j].sample_per_chunk);
        i += 1;
    }
    if first_sample_index.get() - 1 != sample_count {
        return Err(
            SampleTableAccessorError::InconsistentSampleCount {
                stts_sample_count: sample_count,
                other_box_type: StscBox::TYPE(),
                other_sample_count: first_sample_index.get() - 1,
            },
        );
    }
    proof {
        assert(table_checks_pass(*stbl));
        assert forall|k: int| 0 <= k < chunk_count implies (#[trigger] offsets@[k]).spec_get()
            == chunk_first_sample(s@, k + 1) by {
            lemma_chunk_first_mono(s@, k + 1, chunk_count + 1);
        }
    }
    Ok(offsets)
}


// ---------------------------------------------------------------------------
// Whether a table fits the machine's integers
// ---------------------------------------------------------------------------

/// Whether the checks before the chunk scan pass (see [`table_prechecks_pass`]).
fn prechecks_exec(stbl: &StblBox, sample_count: u32, chunk_count: u32) -> (r: bool)
    requires
        sample_count == stts_sample_count(*stbl),
        chunk_count == chunk_count_of(*stbl),
    ensures
        r == table_prechecks_pass(*stbl),
{
    let s = stbl.stsc_box.entries.as_slice();
    match &stbl.stsz_box {
        StszBox::Variable { entry_sizes } => {
            if entry_sizes.len() != sample_count as usize {
                return false;
            }
        },
        StszBox::Fixed { .. } => {},
    }
    if s.len() > 0 && s[0].first_chunk.get() != 1 {
        return false;
    }
    let entry_count = stbl.stsd_box.entries.len();
    let mut i: usize = 0;
    while i < s.len()
        invariant
            s@ == stbl.stsc_box.entries@,
            entry_count == stbl.stsd_box.entries@.len(),
            i <= s@.len(),
            forall|j: int| 0 <= j < i ==> !#[trigger] stsc_entry_missing(*stbl, j),
        decreases s@.len() - i,
    {
        if entry_count < s[i].sample_description_index.get() as usize {
            assert(stsc_entry_missing(*stbl, i as int));
            return false;
        }
        i += 1;
    }
    assert(forall|j: int| !#[trigger] stsc_entry_missing(*stbl, j));
    let last: usize = if s.len() > 0 {
        s.len() - 1
    } else {
        0
    };
    let mut i: usize = 0;
    while i < last
        invariant
            s@ == stbl.stsc_box.entries@,
            last == (if s@.len() > 0 {
                s@.len() - 1
            } else {
                0
            }),
            i <= last,
            forall|j: int|
                0 <= j < i && j + 1 < s@.len() ==> #[trigger] s@[j].first_chunk.spec_get() < s@[j
                    + 1].first_chunk.spec_get(),
        decreases s@.len() - i,
    {
        if s[i].first_chunk.get() >= s[i + 1].first_chunk.get() {
            assert(!(s@[i as int].first_chunk.spec_get() < s@[i + 1].first_chunk.spec_get()));
            return false;
        }
        i += 1;
    }
    assert(stsc_increasing(s@));
    if chunk_count > 0 && s.len() > 0 && s[s.len() - 1].first_chunk.get() > chunk_count {
        return false;
    }
    chunk_count == 0 || s.len() > 0
}

/// Whether a sample table stays within the machine's integers (see [`table_fits`]): the
/// condition for building a [`SampleTableAccessor`] from it.
pub fn table_fits_exec(stbl: &StblBox) -> (r: bool)
    ensures
        r == table_fits(*stbl),
{
    let es = stbl.stts_box.entries.as_slice();
    let ghost e = es@;
    let mut count: u64 = 0;
    let mut total: u128 = 0;
    let mut i: usize = 0;
    while i < es.len()
        invariant
            e == es@,
            e == stbl.stts_box.entries@,
            i <= e.len(),
            count == stts_count_prefix(e, i as int),
            total == stts_time_prefix(e, i as int),
            count <= u32::MAX,
            total <= u64::MAX,
        decreases e.len() - i,
    {
        let x = es[i];
        let c2: u64 = count + x.sample_count as u64;
        assert((x.sample_count as u128) * (x.sample_delta as u128) <= u64::MAX) by (nonlinear_arith)
            requires
                x.sample_count <= u32::MAX,
                x.sample_delta <= u32::MAX,
        ;
        let d: u128 = (x.sample_count as u128) * (x.sample_delta as u128);
        let t2: u128 = total + d;
        proof {
            lemma_count_prefix_mono(e, i + 1, e.len() as int);
            lemma_time_prefix_mono(e, i + 1, e.len() as int);
        }
        if c2 > 0xffff_ffff || t2 > 0xffff_ffff_ffff_ffff {
            return false;
        }
        count = c2;
        total = t2;
        i += 1;
    }
    let cc = chunk_count_exec(stbl);
    if cc > 0xffff_ffff {
        return false;
    }
    let chunk_count = cc as u32;
    let sample_count = count as u32;
    let pre = prechecks_exec(stbl, sample_count, chunk_count);
    let s = stbl.stsc_box.entries.as_slice();
    if !pre {
        return true;
    }
    if s.len() == 0 || chunk_count == 0 {
        return true;
    }
    let ghost ss = s@;
    assert(stsc_wellformed(ss));
    // The first sample of the chunk after the last one.
    let mut first: u64 = 1;
    let mut c: u64 = 1;
    while c <= chunk_count as u64
        invariant
            ss == s@,
            ss == stbl.stsc_box.entries@,
            stsc_wellformed(ss),
            1 <= c <= chunk_count + 1,
            chunk_count <= u32::MAX,
            first == chunk_first_sample(ss, c as int),
            1 <= first <= 1 + (c - 1) * 0xffff_ffff,
        decreases chunk_count + 1 - c,
    {
        let j = stsc_lookup(s, c as u32);
        proof {
            lemma_chunk_first_mono(ss, 1, c as int + 1);
        }
        let n = s[j].sample_per_chunk as u64;
        assert(first + n <= 1 + c * 0xffff_ffff) by (nonlinear_arith)
            requires
                first <= 1 + (c - 1) * 0xffff_ffff,
                n <= 0xffff_ffff,
        ;
        assert(c * 0xffff_ffff <= 0xffff_ffff * 0xffff_ffff) by (nonlinear_arith)
            requires
                c <= 0xffff_ffff,
        ;
        first = first + n;
        c = c + 1;
    }
    let saturated: u64 = if first <= 0xffff_ffff {
        first
    } else {
        0xffff_ffff
    };
    if saturated - 1 != count {
        return true;
    }
    assert(table_checks_pass(*stbl));
    if first > 0xffff_ffff {
        return false;
    }
    // The data of each chunk must end within 64 bits.
    let mut c: u64 = 1;
    let mut chunk_first: u64 = 1;
    while c <= chunk_count as u64
        invariant
            ss == s@,
            ss == stbl.stsc_box.entries@,
            stsc_wellformed(ss),
            table_checks_pass(*stbl),
            count == stts_sample_count(*stbl),
            chunk_count == chunk_count_of(*stbl),
            chunk_first_sample(ss, chunk_count + 1) == count + 1,
            1 <= c <= chunk_count + 1,
            chunk_first == chunk_first_sample(ss, c as int),
            chunk_first >= 1,
            forall|k: int|
                1 <= k < c ==> chunk_offset_of(*stbl, k) + #[trigger] chunk_bytes_before(
                    *stbl,
                    k,
                    samples_per_chunk(ss, k),
                ) <= u64::MAX,
        decreases chunk_count + 1 - c,
    {
        let j = stsc_lookup(s, c as u32);
        let n = s[j].sample_per_chunk;
        proof {
            lemma_chunk_first_mono(ss, c as int + 1, chunk_count as int + 1);
            lemma_chunk_first_mono(ss, 1, c as int + 1);
        }
        let mut bytes: u128 = 0;
        let mut k: u32 = 0;
        while k < n
            invariant
                ss == stbl.stsc_box.entries@,
                stsc_wellformed(ss),
                table_checks_pass(*stbl),
                count == stts_sample_count(*stbl),
                n == samples_per_chunk(ss, c as int),
                chunk_first == chunk_first_sample(ss, c as int),
                chunk_first >= 1,
                chunk_first + n <= count + 1,
                k <= n,
                bytes == chunk_bytes_before(*stbl, c as int, k as int),
                bytes <= k * 0xffff_ffff,
            decreases n - k,
        {
            let size = sample_size_exec(
                &stbl.stsz_box,
                (chunk_first + k as u64) as u32,
                Ghost(stts_sample_count(*stbl)),
            );
            assert(bytes + size <= (k + 1) * 0xffff_ffff) by (nonlinear_arith)
                requires
                    bytes <= k * 0xffff_ffff,
                    size <= 0xffff_ffff,
            ;
            bytes = bytes + size as u128;
            k = k + 1;
        }
        let offset = chunk_offset_exec(stbl, c as u32);
        if offset as u128 + bytes > 0xffff_ffff_ffff_ffff {
            return false;
        }
        chunk_first = chunk_first + n as u64;
        c = c + 1;
    }
    true
}

/// The file offset of the data of each sample, in sample order.
#[verifier::rlimit(40)]
fn build_data_offsets(
    stbl: &StblBox,
    first_samples: &Vec<NonZeroU32>,
    sample_count: u32,
    chunk_count: u32,
) -> (r: Vec<u64>)
    requires
        table_fits(*stbl),
        table_checks_pass(*stbl),
        sample_count == stts_sample_count(*stbl),
        chunk_count == chunk_count_of(*stbl),
        first_samples@.len() == chunk_count,
        forall|k: int|
            0 <= k < chunk_count ==> (#[trigger] first_samples@[k]).spec_get() == chunk_first_sample(
                stbl.stsc_box.entries@,
                k + 1,
            ),
    ensures
        r@.len() == sample_count,
        forall|m: int| 0 <= m < sample_count ==> #[trigger] r@[m] == sample_data_offset_of(*stbl, m + 1),
{
    let s = stbl.stsc_box.entries.as_slice();
    let ghost ss = s@;
    let mut v: Vec<u64> = Vec::new();
    let mut c: u64 = 1;
    proof {
        lemma_chunk_first_mono(ss, 1, chunk_count + 1);
    }
    while c <= chunk_count as u64
        invariant
            table_fits(*stbl),
            table_checks_pass(*stbl),
            sample_count == stts_sample_count(*stbl),
            chunk_count == chunk_count_of(*stbl),
            ss == s@,
            ss == stbl.stsc_box.entries@,
            first_samples@.len() == chunk_count,
            forall|k: int|
                0 <= k < chunk_count ==> (#[trigger] first_samples@[k]).spec_get()
                    == chunk_first_sample(ss, k + 1),
            chunk_first_sample(ss, chunk_count + 1) - 1 == sample_count,
            1 <= c <= chunk_count + 1,
            v@.len() == chunk_first_sample(ss, c as int) - 1,
            forall|m: int|
                0 <= m < v@.len() ==> #[trigger] v@[m] == sample_data_offset_of(*stbl, m + 1),
        decreases chunk_count + 1 - c,
    {
        let c32 = c as u32;
        let mut offset = chunk_offset_exec(stbl, c32);
        let first = first_samples[(c32 - 1) as usize].get();
        let j = stsc_lookup(s, c32);
        let spc = s[j].sample_per_chunk;
        proof {
            lemma_chunk_first_mono(ss, c as int + 1, chunk_count + 1);
            assert(chunk_first_sample(ss, c as int + 1) == first + spc);
        }
        let mut i: u32 = 0;
        while i < spc
            invariant
                table_fits(*stbl),
                table_checks_pass(*stbl),
                sample_count == stts_sample_count(*stbl),
                chunk_count == chunk_count_of(*stbl),
                ss == stbl.stsc_box.entries@,
                1 <= c <= chunk_count,
                first == chunk_first_sample(ss, c as int),
                spc == samples_per_chunk(ss, c as int),
                first + spc - 1 <= sample_count,
                i <= spc,
                v@.len() == first - 1 + i,
                offset == chunk_offset_of(*stbl, c as int) + chunk_bytes_before(*stbl, c as int, i as int),
                forall|m: int|
                    0 <= m < v@.len() ==> #[trigger] v@[m] == sample_data_offset_of(*stbl, m + 1),
            decreases spc - i,
        {
            let n = first + i;
            proof {
                assert(chunk_has_sample(*stbl, c as int, n as int));
                lemma_chunk_of_sample(*stbl, c as int, n as int);
            }
            v.push(offset);
            let size = sample_size_exec(&stbl.stsz_box, n, Ghost(sample_count as int));
            proof {
                lemma_chunk_bytes_mono(*stbl, c as int, i + 1, spc as int);
                assert(chunk_offset_of(*stbl, c as int) + chunk_bytes_before(
                    *stbl,
                    c as int,
                    samples_per_chunk(ss, c as int),
                ) <= u64::MAX);
            }
            offset = offset + size as u64;
            i += 1;
        }
        c += 1;
    }
    v
}

/// Access to the samples and chunks that a [`StblBox`] describes.
#[derive(Debug)]
pub struct SampleTableAccessor {
    stbl_box: StblBox,
    chunk_count: u32,
    sample_count: u32,
    sample_durations: Vec<(u32, u32, u64)>,
    sample_index_offsets: Vec<NonZeroU32>,
    sample_data_offsets: Vec<u64>,
}

impl SampleTableAccessor {
    #[verifier::type_invariant]
    spec fn wf(self) -> bool {
        let stbl = self.stbl_box;
        let es = stbl.stts_box.entries@;
        let ss = stbl.stsc_box.entries@;
        &&& table_fits(stbl)
        &&& table_checks_pass(stbl)
        &&& self.sample_count == stts_sample_count(stbl)
        &&& self.chunk_count == chunk_count_of(stbl)
        &&& self.sample_durations@.len() == es.len()
        &&& forall|k: int|
            0 <= k < es.len() ==> (#[trigger] self.sample_durations@[k]).0 == stts_count_prefix(es, k)
                && self.sample_durations@[k].1 == es[k].sample_delta
                && self.sample_durations@[k].2 == stts_time_prefix(es, k)
        &&& self.sample_index_offsets@.len() == self.chunk_count
        &&& forall|k: int|
            0 <= k < self.chunk_count ==> (#[trigger] self.sample_index_offsets@[k]).spec_get()
                == chunk_first_sample(ss, k + 1)
        &&& self.sample_data_offsets@.len() == self.sample_count
        &&& forall|m: int|
            0 <= m < self.sample_count ==> #[trigger] self.sample_data_offsets@[m]
                == sample_data_offset_of(stbl, m + 1)
    }

    /// The sample table box.
    pub closed spec fn spec_stbl(self) -> StblBox {
        self.stbl_box
    }

    /// The number of samples.
    pub closed spec fn spec_sample_count(self) -> u32 {
        self.sample_count
    }

    /// The number of chunks.
    pub closed spec fn spec_chunk_count(self) -> u32 {
        self.chunk_count
    }

    /// Checks the consistency of a sample table, and prepares access to its samples and chunks.
    ///
    /// The checks run in this order: the sample sizes cover the samples of the time-to-sample
    /// box; the first sample-to-chunk entry starts at chunk one; the sample-to-chunk entries
    /// refer to existing sample entries; their first chunks strictly increase; the last one
    /// starts at an existing chunk; there are sample-to-chunk entries when there are chunks;
    /// and the sample-to-chunk entries cover the samples of the time-to-sample box. The first
    /// that fails is reported.
    pub fn new(stbl_box: StblBox) -> (r: Result<Self, SampleTableAccessorError>)
        requires
            table_fits(stbl_box),
        ensures
            r is Ok <==> table_checks_pass(stbl_box),
            r matches Ok(t) ==> t.spec_stbl() == stbl_box && t.spec_sample_count()
                == stts_sample_count(stbl_box) && t.spec_chunk_count() == chunk_count_of(stbl_box),
            r matches Err(e) ==> is_table_error(stbl_box, e),
    {
        let (sample_durations, sample_count) = build_durations(
            stbl_box.stts_box.entries.as_slice(),
        );
        let chunk_count = chunk_count_exec(&stbl_box) as u32;
        assert(chunk_count == chunk_count_of(stbl_box));
        let sample_index_offsets = check_table(&stbl_box, sample_count, chunk_count)?;
        let sample_data_offsets = build_data_offsets(
            &stbl_box,
            &sample_index_offsets,
            sample_count,
            chunk_count,
        );
        Ok(
            Self {
                stbl_box,
                chunk_count,
                sample_count,
                sample_durations,
                sample_index_offsets,
                sample_data_offsets,
            },
        )
    }

    /// Returns the number of samples.
    pub fn sample_count(&self) -> (r: u32)
        ensures
            r == self.spec_sample_count(),
    {
        self.sample_count
    }

    /// Returns the number of chunks.
    pub fn chunk_count(&self) -> (r: u32)
        ensures
            r == self.spec_chunk_count(),
    {
        self.chunk_count
    }

    /// Returns the sample table box.
    pub fn stbl_box(&self) -> (r: &StblBox)
        ensures
            *r == self.spec_stbl(),
    {
        &self.stbl_box
    }
}


/// Whether `t` falls on sample `j` (counted from zero): the sample starts at `t`, or starts
/// before it and lasts past it.
pub open spec fn sample_covers(es: Seq<SttsEntry>, j: int, t: int) -> bool {
    let ts = sample_timestamp_of(es, j);
    ts == t || (ts < t && t < ts + sample_duration_of(es, j))
}

/// Whether every time-to-sample entry gives its samples a duration above zero.
pub open spec fn stts_deltas_positive(es: Seq<SttsEntry>) -> bool {
    forall|i: int| 0 <= i < es.len() ==> #[trigger] es[i].sample_delta > 0
}

/// The first sample starts at time zero.
proof fn lemma_first_timestamp(es: Seq<SttsEntry>)
    requires
        0 < stts_count_prefix(es, es.len() as int),
    ensures
        sample_timestamp_of(es, 0) == 0,
{
    lemma_stts_entry_of(es, 0);
    let k = stts_entry_of(es, 0);
    lemma_count_prefix_nonneg(es, k);
    lemma_empty_entries(es, 0, k);
    assert(es[k].sample_delta * (0 - stts_count_prefix(es, k)) == 0) by (nonlinear_arith)
        requires
            stts_count_prefix(es, k) == 0,
    ;
}

/// The last sample ends at the total duration.
proof fn lemma_last_end(es: Seq<SttsEntry>)
    requires
        0 < stts_count_prefix(es, es.len() as int),
    ensures
        sample_timestamp_of(es, stts_count_prefix(es, es.len() as int) - 1) + sample_duration_of(
            es,
            stts_count_prefix(es, es.len() as int) - 1,
        ) == stts_time_prefix(es, es.len() as int),
{
    let n = stts_count_prefix(es, es.len() as int);
    lemma_stts_entry_of(es, n - 1);
    let k = stts_entry_of(es, n - 1);
    let e = es[k];
    let p = stts_count_prefix(es, k);
    lemma_count_prefix_mono(es, k + 1, es.len() as int);
    lemma_empty_entries(es, k + 1, es.len() as int);
    assert(e.sample_delta * (n - 1 - p) + e.sample_delta == e.sample_count * e.sample_delta)
        by (nonlinear_arith)
        requires
            n - p == e.sample_count,
    ;
}

/// A time from sample `m` on, before the end of the track, falls on sample `m` or a later one.
proof fn lemma_covered_from(es: Seq<SttsEntry>, m: int, t: int)
    requires
        0 <= m < stts_count_prefix(es, es.len() as int),
        sample_timestamp_of(es, m) <= t < stts_time_prefix(es, es.len() as int),
    ensures
        exists|j: int|
            m <= j < stts_count_prefix(es, es.len() as int) && #[trigger] sample_covers(es, j, t),
    decreases stts_count_prefix(es, es.len() as int) - m,
{
    let n = stts_count_prefix(es, es.len() as int);
    if t < sample_timestamp_of(es, m) + sample_duration_of(es, m) {
        assert(sample_covers(es, m, t));
    } else if m + 1 < n {
        lemma_timestamp_step(es, m);
        lemma_covered_from(es, m + 1, t);
    } else {
        lemma_last_end(es);
    }
}

/// Every time before the end of the track falls on some sample.
pub proof fn lemma_time_before_end_is_covered(es: Seq<SttsEntry>, t: int)
    requires
        0 <= t < stts_time_prefix(es, es.len() as int),
    ensures
        exists|j: int|
            0 <= j < stts_count_prefix(es, es.len() as int) && #[trigger] sample_covers(es, j, t),
{
    lemma_count_prefix_nonneg(es, es.len() as int);
    if stts_count_prefix(es, es.len() as int) == 0 {
        lemma_empty_entries(es, 0, es.len() as int);
    } else {
        lemma_first_timestamp(es);
        lemma_covered_from(es, 0, t);
    }
}

/// When every sample lasts a while, no time at or after the end of the track falls on a sample.
pub proof fn lemma_covered_time_before_end(es: Seq<SttsEntry>, j: int, t: int)
    requires
        stts_deltas_positive(es),
        0 <= j < stts_count_prefix(es, es.len() as int),
        sample_covers(es, j, t),
    ensures
        t < stts_time_prefix(es, es.len() as int),
{
    lemma_stts_entry_of(es, j);
    lemma_timestamp_bound(es, j);
    assert(es[stts_entry_of(es, j)].sample_delta > 0);
}

/// The sync sample numbers of a sample table (none without a sync sample box).
pub open spec fn sync_numbers(stbl: StblBox) -> Seq<NonZeroU32> {
    match stbl.stss_box {
        Some(b) => b.sample_numbers@,
        None => Seq::empty(),
    }
}

/// Whether `r` is the last sync sample at or before sample `n`: `None` when there is none.
pub open spec fn is_last_sync_before(sync: Seq<NonZeroU32>, n: u32, r: Option<SampleAccessor>) -> bool {
    match r {
        Some(a) => (exists|i: int| 0 <= i < sync.len() && #[trigger] sync[i].spec_get() == a.spec_index())
            && a.spec_index() <= n
            && forall|i: int| 0 <= i < sync.len() && #[trigger] sync[i].spec_get() <= n ==> sync[i].spec_get() <= a.spec_index(),
        None => forall|i: int| 0 <= i < sync.len() ==> #[trigger] sync[i].spec_get() > n,
    }
}

/// Whether the values never decrease.
pub open spec fn nonzero_ascending(s: Seq<NonZeroU32>) -> bool {
    forall|i: int, j: int| 0 <= i <= j < s.len() ==> s[i].spec_get() <= s[j].spec_get()
}

/// Binary search for `x` in a list of non-zero values.
///
/// On values that never decrease, `Err(i)` gives the position where `x` would be inserted.
fn search_nonzero(s: &[NonZeroU32], x: u32) -> (r: core::result::Result<usize, usize>)
    ensures
        r matches Ok(i) ==> i < s@.len() && s@[i as int].spec_get() == x,
        r matches Err(i) ==> i <= s@.len(),
        nonzero_ascending(s@) ==> (r is Ok <==> exists|i: int|
            0 <= i < s@.len() && #[trigger] s@[i].spec_get() == x),
        nonzero_ascending(s@) ==> (r matches Err(i) ==> (forall|k: int|
            0 <= k < i ==> #[trigger] s@[k].spec_get() < x) && (forall|k: int|
            i <= k < s@.len() ==> #[trigger] s@[k].spec_get() > x)),
{
    let mut lo: usize = 0;
    let mut hi: usize = s.len();
    while lo < hi
        invariant
            lo <= hi <= s@.len(),
            nonzero_ascending(s@) ==> forall|k: int| 0 <= k < lo ==> #[trigger] s@[k].spec_get() < x,
            nonzero_ascending(s@) ==> forall|k: int|
                hi <= k < s@.len() ==> #[trigger] s@[k].spec_get() > x,
        decreases hi - lo,
    {
        let mid = lo + (hi - lo) / 2;
        let v = s[mid].get();
        if v < x {
            lo = mid + 1;
        } else if v > x {
            hi = mid;
        } else {
            return Ok(mid);
        }
    }
    Err(lo)
}

impl SampleTableAccessor {
    /// Returns the sample `sample_index` (counted from one), or `None` when there is no such
    /// sample.
    pub fn get_sample(&self, sample_index: NonZeroU32) -> (r: Option<SampleAccessor<'_>>)
        ensures
            r is Some <==> sample_index.spec_get() <= self.spec_sample_count(),
            r matches Some(a) ==> a.spec_index() == sample_index.spec_get() && a.spec_table()
                == *self,
    {
        if sample_index.get() <= self.sample_count {
            Some(SampleAccessor { sample_table: self, index: sample_index })
        } else {
            None
        }
    }

    /// Returns the chunk `chunk_index` (counted from one), or `None` when there is no such
    /// chunk.
    pub fn get_chunk(&self, chunk_index: NonZeroU32) -> (r: Option<ChunkAccessor<'_>>)
        ensures
            r is Some <==> chunk_index.spec_get() <= self.spec_chunk_count(),
            r matches Some(a) ==> a.spec_index() == chunk_index.spec_get() && a.spec_table()
                == *self,
    {
        if chunk_index.get() <= self.chunk_count {
            Some(ChunkAccessor { sample_table: self, index: chunk_index })
        } else {
            None
        }
    }

    /// Returns the samples, in order.
    pub fn samples(&self) -> (r: Vec<SampleAccessor<'_>>)
        ensures
            r@.len() == self.spec_sample_count(),
            forall|i: int|
                0 <= i < r@.len() ==> (#[trigger] r@[i]).spec_index() == i + 1 && r@[i].spec_table()
                    == *self,
    {
        let mut v: Vec<SampleAccessor<'_>> = Vec::new();
        let mut i: u32 = 0;
        while i < self.sample_count
            invariant
                i <= self.sample_count,
                v@.len() == i,
                forall|k: int|
                    0 <= k < i ==> (#[trigger] v@[k]).spec_index() == k + 1 && v@[k].spec_table()
                        == *self,
            decreases self.sample_count - i,
        {
            let index = NonZeroU32::MIN().saturating_add(i);
            v.push(SampleAccessor { sample_table: self, index });
            i += 1;
        }
        v
    }

    /// Returns the chunks, in order.
    pub fn chunks(&self) -> (r: Vec<ChunkAccessor<'_>>)
        ensures
            r@.len() == self.spec_chunk_count(),
            forall|i: int|
                0 <= i < r@.len() ==> (#[trigger] r@[i]).spec_index() == i + 1 && r@[i].spec_table()
                    == *self,
    {
        let mut v: Vec<ChunkAccessor<'_>> = Vec::new();
        let mut i: u32 = 0;
        while i < self.chunk_count
            invariant
                i <= self.chunk_count,
                v@.len() == i,
                forall|k: int|
                    0 <= k < i ==> (#[trigger] v@[k]).spec_index() == k + 1 && v@[k].spec_table()
                        == *self,
            decreases self.chunk_count - i,
        {
            let index = NonZeroU32::MIN().saturating_add(i);
            v.push(ChunkAccessor { sample_table: self, index });
            i += 1;
        }
        v
    }

    /// Returns the sample on which time `timestamp` falls (counted from the start of the track),
    /// or `None` when it falls on no sample.
    ///
    /// A sample that starts at `timestamp` is returned even when its duration is zero.
    pub fn get_sample_by_timestamp(&self, timestamp: u64) -> (r: Option<SampleAccessor<'_>>)
        ensures
            r matches Some(a) ==> a.spec_table() == *self && 1 <= a.spec_index()
                <= self.spec_sample_count() && sample_covers(
                self.spec_stbl().stts_box.entries@,
                a.spec_index() - 1,
                timestamp as int,
            ),
            r is None ==> forall|j: int|
                0 <= j < self.spec_sample_count() ==> !#[trigger] sample_covers(
                    self.spec_stbl().stts_box.entries@,
                    j,
                    timestamp as int,
                ),
            timestamp < stts_total_duration(self.spec_stbl()) ==> r is Some,
            stts_deltas_positive(self.spec_stbl().stts_box.entries@) && timestamp
                >= stts_total_duration(self.spec_stbl()) ==> r is None,
    {
        proof {
            use_type_invariant(self);
        }
        let ghost es = self.stbl_box.stts_box.entries@;
        let t = timestamp;
        let mut low: u32 = 0;
        let mut high: u32 = self.sample_count;
        while high > low
            invariant
                es == self.stbl_box.stts_box.entries@,
                self.sample_count == stts_count_prefix(es, es.len() as int),
                stts_time_prefix(es, es.len() as int) <= u64::MAX,
                t == timestamp,
                low <= high <= self.sample_count,
                forall|j: int|
                    0 <= j < low ==> #[trigger] sample_timestamp_of(es, j) < t
                        && sample_timestamp_of(es, j) + sample_duration_of(es, j) <= t,
                forall|j: int|
                    high <= j < self.sample_count ==> t < #[trigger] sample_timestamp_of(es, j),
            decreases high - low,
        {
            let i = (high - low) / 2 + low;
            let sample = SampleAccessor { sample_table: self, index: NonZeroU32::MIN().saturating_add(i) };
            let sample_timestamp = sample.timestamp();
            assert(sample.spec_index() == i + 1);
            assert(sample.spec_table() == *self);
            assert(sample_timestamp == sample_timestamp_of(es, i as int));
            if timestamp < sample_timestamp {
                proof {
                    assert forall|j: int| i <= j < self.sample_count implies t
                        < #[trigger] sample_timestamp_of(es, j) by {
                        if j > i {
                            lemma_timestamp_mono(es, i as int, j);
                        }
                    }
                }
                high = i;
            } else if timestamp == sample_timestamp {
                proof {
                    if stts_deltas_positive(es) {
                        lemma_covered_time_before_end(es, i as int, t as int);
                    }
                }
                return Some(sample);
            } else {
                let d = sample.duration();
                proof {
                    lemma_timestamp_bound(es, i as int);
                }
                if timestamp < sample_timestamp + d as u64 {
                    proof {
                        if stts_deltas_positive(es) {
                            lemma_covered_time_before_end(es, i as int, t as int);
                        }
                    }
                    return Some(sample);
                }
                proof {
                    assert forall|j: int| 0 <= j < i + 1 implies #[trigger] sample_timestamp_of(es, j)
                        < t && sample_timestamp_of(es, j) + sample_duration_of(es, j) <= t by {
                        if j < i {
                            lemma_timestamp_mono(es, j, i as int);
                            lemma_timestamp_bound(es, j);
                        }
                    }
                }
                low = i + 1;
            }
        }
        proof {
            if (t as int) < stts_time_prefix(es, es.len() as int) {
                lemma_time_before_end_is_covered(es, t as int);
            }
        }
        None
    }
}

/// A sample of a [`SampleTableAccessor`].
#[derive(Debug)]
pub struct SampleAccessor<'a> {
    sample_table: &'a SampleTableAccessor,
    index: NonZeroU32,
}

impl<'a> SampleAccessor<'a> {
    #[verifier::type_invariant]
    spec fn wf(self) -> bool {
        self.index.spec_get() <= self.sample_table.sample_count
    }

    /// The position of the sample, counted from one.
    pub closed spec fn spec_index(self) -> u32 {
        self.index.spec_get()
    }

    /// The table of the sample.
    pub closed spec fn spec_table(self) -> SampleTableAccessor {
        *self.sample_table
    }

    /// Returns the position of the sample, counted from one.
    pub fn index(&self) -> (r: NonZeroU32)
        ensures
            r.spec_get() == self.spec_index(),
    {
        self.index
    }

    /// Returns the duration of the sample.
    pub fn duration(&self) -> (r: u32)
        ensures
            r == sample_duration_of(
                self.spec_table().spec_stbl().stts_box.entries@,
                self.spec_index() - 1,
            ),
    {
        proof {
            use_type_invariant(self);
            use_type_invariant(self.sample_table);
        }
        let t = self.sample_table;
        let k = duration_lookup(
            t.sample_durations.as_slice(),
            self.index.get() - 1,
            Ghost(t.stbl_box.stts_box.entries@),
        );
        t.sample_durations[k].1
    }

    /// Returns the timestamp of the sample: the total duration of the samples before it.
    pub fn timestamp(&self) -> (r: u64)
        ensures
            r == sample_timestamp_of(
                self.spec_table().spec_stbl().stts_box.entries@,
                self.spec_index() - 1,
            ),
    {
        proof {
            use_type_invariant(self);
            use_type_invariant(self.sample_table);
        }
        let t = self.sample_table;
        let ghost es = t.stbl_box.stts_box.entries@;
        let j = self.index.get() - 1;
        let k = duration_lookup(t.sample_durations.as_slice(), j, Ghost(es));
        let (base_index, duration, base_timestamp) = t.sample_durations[k];
        proof {
            lemma_timestamp_bound(es, j as int);
            lemma_stts_entry_of(es, j as int);
            assert((duration as u64) * ((j - base_index) as u64) <= u64::MAX) by (nonlinear_arith)
                requires
                    base_timestamp + duration * (j - base_index) <= u64::MAX,
                    base_timestamp >= 0,
                    duration >= 0,
                    j >= base_index,
            ;
        }
        base_timestamp + duration as u64 * (j - base_index) as u64
    }

    /// Returns the size in bytes of the data of the sample.
    pub fn data_size(&self) -> (r: u32)
        ensures
            r == sample_size_of(self.spec_table().spec_stbl().stsz_box, self.spec_index() as int),
    {
        proof {
            use_type_invariant(self);
            use_type_invariant(self.sample_table);
        }
        let t = self.sample_table;
        sample_size_exec(&t.stbl_box.stsz_box, self.index.get(), Ghost(t.sample_count as int))
    }

    /// Returns the file offset of the data of the sample.
    pub fn data_offset(&self) -> (r: u64)
        ensures
            r == sample_data_offset_of(self.spec_table().spec_stbl(), self.spec_index() as int),
    {
        proof {
            use_type_invariant(self);
            use_type_invariant(self.sample_table);
        }
        self.sample_table.sample_data_offsets[(self.index.get() - 1) as usize]
    }

    /// Whether the sample is a sync sample: every sample is one when the table has no sync
    /// sample box.
    ///
    /// Sync sample numbers are expected in ascending order.
    pub fn is_sync_sample(&self) -> (r: bool)
        ensures
            self.spec_table().spec_stbl().stss_box is None ==> r,
            self.spec_table().spec_stbl().stss_box is Some && nonzero_ascending(
                sync_numbers(self.spec_table().spec_stbl()),
            ) ==> (r <==> exists|i: int|
                0 <= i < sync_numbers(self.spec_table().spec_stbl()).len()
                    && #[trigger] sync_numbers(self.spec_table().spec_stbl())[i].spec_get()
                    == self.spec_index()),
    {
        match &self.sample_table.stbl_box.stss_box {
            None => true,
            Some(stss_box) => search_nonzero(stss_box.sample_numbers.as_slice(), self.index.get()).is_ok(),
        }
    }

    /// Returns the sync sample needed to decode this sample: the sample itself when it is a sync
    /// sample, else the last sync sample before it, or `None` when there is none.
    ///
    /// Sync sample numbers are expected in ascending order.
    pub fn sync_sample(&self) -> (r: Option<Self>)
        ensures
            r matches Some(a) ==> a.spec_table() == self.spec_table() && a.spec_index()
                <= self.spec_index(),
            self.spec_table().spec_stbl().stss_box is None ==> (r matches Some(a)
                && a.spec_index() == self.spec_index()),
            self.spec_table().spec_stbl().stss_box is Some && nonzero_ascending(
                sync_numbers(self.spec_table().spec_stbl()),
            ) ==> is_last_sync_before(
                sync_numbers(self.spec_table().spec_stbl()),
                self.spec_index(),
                r,
            ),
    {
        proof {
            use_type_invariant(self);
        }
        let index = match &self.sample_table.stbl_box.stss_box {
            Some(stss_box) => {
                let s = stss_box.sample_numbers.as_slice();
                match search_nonzero(s, self.index.get()) {
                    Ok(_) => self.index,
                    Err(i) => {
                        if i == 0 {
                            return None;
                        }
                        let candidate = s[i - 1];
                        if candidate.get() > self.index.get() {
                            return None;
                        }
                        candidate
                    },
                }
            },
            None => self.index,
        };
        Some(Self { index, sample_table: self.sample_table })
    }

    /// Returns the chunk that holds the sample.
    pub fn chunk(&self) -> (r: ChunkAccessor<'a>)
        ensures
            r.spec_table() == self.spec_table(),
            chunk_has_sample(self.spec_table().spec_stbl(), r.spec_index() as int, self.spec_index() as int),
            r.spec_index() == chunk_of_sample(self.spec_table().spec_stbl(), self.spec_index() as int),
    {
        proof {
            use_type_invariant(self);
            use_type_invariant(self.sample_table);
        }
        let t = self.sample_table;
        let stbl = &t.stbl_box;
        let ghost ss = stbl.stsc_box.entries@;
        let n = self.index.get();
        proof {
            lemma_sample_has_chunk(*stbl, n as int, chunk_count_of(*stbl));
        }
        let ghost c0 = chunk_of_sample(*stbl, n as int);
        let offs = &t.sample_index_offsets;
        let mut lo: usize = 0;
        let mut hi: usize = offs.len();
        proof {
            lemma_chunk_first_mono(ss, 1, c0);
        }
        while hi - lo > 1
            invariant
                offs@ == t.sample_index_offsets@,
                offs@.len() == t.chunk_count,
                t.chunk_count == chunk_count_of(*stbl),
                forall|k: int|
                    0 <= k < t.chunk_count ==> (#[trigger] offs@[k]).spec_get() == chunk_first_sample(
                        ss,
                        k + 1,
                    ),
                ss == stbl.stsc_box.entries@,
                chunk_has_sample(*stbl, c0, n as int),
                0 <= lo < c0 <= hi <= offs@.len(),
            decreases hi - lo,
        {
            let mid = lo + (hi - lo) / 2;
            if offs[mid].get() <= n {
                proof {
                    if (mid as int) >= c0 {
                        lemma_chunk_first_mono(ss, c0 + 1, mid + 1);
                    }
                }
                lo = mid;
            } else {
                proof {
                    if (mid as int) < c0 {
                        lemma_chunk_first_mono(ss, mid + 1, c0);
                    }
                }
                hi = mid;
            }
        }
        let chunk_index = NonZeroU32::MIN().saturating_add(lo as u32);
        proof {
            lemma_chunk_of_sample(*stbl, c0, n as int);
        }
        ChunkAccessor { sample_table: t, index: chunk_index }
    }
}

/// A chunk of a [`SampleTableAccessor`].
#[derive(Debug)]
pub struct ChunkAccessor<'a> {
    sample_table: &'a SampleTableAccessor,
    index: NonZeroU32,
}

impl<'a> ChunkAccessor<'a> {
    #[verifier::type_invariant]
    spec fn wf(self) -> bool {
        self.index.spec_get() <= self.sample_table.chunk_count
    }

    /// The position of the chunk, counted from one.
    pub closed spec fn spec_index(self) -> u32 {
        self.index.spec_get()
    }

    /// The table of the chunk.
    pub closed spec fn spec_table(self) -> SampleTableAccessor {
        *self.sample_table
    }

    /// Returns the position of the chunk, counted from one.
    pub fn index(&self) -> (r: NonZeroU32)
        ensures
            r.spec_get() == self.spec_index(),
    {
        self.index
    }

    /// Returns the file offset of the chunk.
    pub fn offset(&self) -> (r: u64)
        ensures
            r == chunk_offset_of(self.spec_table().spec_stbl(), self.spec_index() as int),
    {
        proof {
            use_type_invariant(self);
            use_type_invariant(self.sample_table);
        }
        chunk_offset_exec(&self.sample_table.stbl_box, self.index.get())
    }

    /// The sample-to-chunk entry of the chunk.
    fn stsc_entry(&self) -> (r: &'a StscEntry)
        ensures
            *r == self.spec_table().spec_stbl().stsc_box.entries@[stsc_entry_of(
                self.spec_table().spec_stbl().stsc_box.entries@,
                self.spec_index() as int,
            )],
            stsc_entry_has(
                self.spec_table().spec_stbl().stsc_box.entries@,
                stsc_entry_of(self.spec_table().spec_stbl().stsc_box.entries@, self.spec_index() as int),
                self.spec_index() as int,
            ),
    {
        proof {
            use_type_invariant(self);
            use_type_invariant(self.sample_table);
        }
        let t: &'a SampleTableAccessor = self.sample_table;
        let s = t.stbl_box.stsc_box.entries.as_slice();
        let j = stsc_lookup(s, self.index.get());
        &s[j]
    }

    /// Returns the number of samples of the chunk.
    pub fn sample_count(&self) -> (r: u32)
        ensures
            r == samples_per_chunk(
                self.spec_table().spec_stbl().stsc_box.entries@,
                self.spec_index() as int,
            ),
    {
        self.stsc_entry().sample_per_chunk
    }

    /// Returns the position (counted from one) of the sample entry of the chunk.
    pub fn sample_entry_index(&self) -> (r: NonZeroU32)
        ensures
            ({
                let ss = self.spec_table().spec_stbl().stsc_box.entries@;
                r == ss[stsc_entry_of(ss, self.spec_index() as int)].sample_description_index
            }),
    {
        self.stsc_entry().sample_description_index
    }

    /// Returns the sample entry that describes the samples of the chunk.
    pub fn sample_entry(&self) -> (r: &'a SampleEntry)
        ensures
            ({
                let stbl = self.spec_table().spec_stbl();
                let e = stbl.stsc_box.entries@[stsc_entry_of(
                    stbl.stsc_box.entries@,
                    self.spec_index() as int,
                )];
                *r == stbl.stsd_box.entries@[e.sample_description_index.spec_get() - 1]
            }),
    {
        proof {
            use_type_invariant(self.sample_table);
        }
        let e = self.stsc_entry();
        let t: &'a SampleTableAccessor = self.sample_table;
        let i = e.sample_description_index.get() - 1;
        proof {
            let ss = t.stbl_box.stsc_box.entries@;
            let j = stsc_entry_of(ss, self.index.spec_get() as int);
            assert(!stsc_entry_missing(t.stbl_box, j));
        }
        &t.stbl_box.stsd_box.entries[i as usize]
    }

    /// Returns the samples of the chunk, in order.
    pub fn samples(&self) -> (r: Vec<SampleAccessor<'a>>)
        ensures
            r@.len() == samples_per_chunk(
                self.spec_table().spec_stbl().stsc_box.entries@,
                self.spec_index() as int,
            ),
            forall|i: int|
                0 <= i < r@.len() ==> (#[trigger] r@[i]).spec_table() == self.spec_table()
                    && r@[i].spec_index() == chunk_first_sample(
                    self.spec_table().spec_stbl().stsc_box.entries@,
                    self.spec_index() as int,
                ) + i,
    {
        proof {
            use_type_invariant(self);
            use_type_invariant(self.sample_table);
        }
        let t: &'a SampleTableAccessor = self.sample_table;
        let ghost ss = t.stbl_box.stsc_box.entries@;
        let c = self.index.get();
        let count = self.sample_count();
        let first = t.sample_index_offsets[(c - 1) as usize];
        proof {
            lemma_chunk_first_mono(ss, c as int + 1, t.chunk_count + 1);
        }
        let mut v: Vec<SampleAccessor<'a>> = Vec::new();
        let mut i: u32 = 0;
        while i < count
            invariant
                i <= count,
                first.spec_get() == chunk_first_sample(ss, c as int),
                first.spec_get() + count - 1 <= t.sample_count,
                v@.len() == i,
                forall|k: int|
                    0 <= k < i ==> (#[trigger] v@[k]).spec_table() == *t && v@[k].spec_index()
                        == first.spec_get() + k,
            decreases count - i,
        {
            let index = first.saturating_add(i);
            v.push(SampleAccessor { sample_table: t, index });
            i += 1;
        }
        v
    }
}

} // verus!
