//! Building a file from samples whose data the caller writes: the muxer keeps what it needs
//! of each sample and builds the `moov` box at the end. It does no I/O itself.
use crate::basic_types::{
    BaseBox, BoxHeader, BoxSize, BoxType, Either, FixedPointNumber, Mp4FileTime, NonZeroU32,
    Utf8String, unix_epoch_offset,
};
use crate::boxes::{
    lemma_concat_push, spec_box_bytes, spec_raw_box_bytes, same_sample_entry, Brand, Co64Box, DinfBox, FreeBox, FtypBox, HdlrBox, MdatBox, MdhdBox,
    MdiaBox, MinfBox, MoovBox, MvhdBox, SampleEntry, SmhdBox, StblBox, StcoBox, StscBox, StscEntry,
    StsdBox, StssBox, StszBox, SttsBox, TkhdBox, TrakBox, VmhdBox,
};
use crate::boxes_moov_tree::stts_deltas;
use crate::codec::{be_u32, put_bytes, put_zeros, Encode, Error, ErrorKind};
use crate::demux::TrackKind;
pub use crate::mux_fmp4::{
    FragmentOutput, FragmentSample, Fmp4MuxError, Mp4FragmentedFileMuxer,
    Mp4FragmentedFileMuxerOptions, TrackConfig,
};
pub use crate::mux_hybrid::{Mp4HybridFileMuxer, Mp4HybridFileMuxerOptions, Mp4HybridSample};
use vstd::prelude::*;

verus! {

/// The sum of a list of sizes.
pub open spec fn sum_sizes(s: Seq<usize>) -> nat
    decreases s.len(),
{
    if s.len() == 0 {
        0
    } else {
        sum_sizes(s.drop_last()) + s.last() as nat
    }
}

/// The estimate of [`estimate_maximum_moov_box_size`]: 512 bytes, 1024 per track and 16 per
/// sample.
pub open spec fn moov_size_estimate(counts: Seq<usize>) -> nat {
    512 + counts.len() * 1024 + sum_sizes(counts) * 16
}

/// Estimates the largest size of the `moov` box of a file with the given numbers of samples
/// per track: a value for [`Mp4FileMuxerOptions::reserved_moov_box_size`].
pub fn estimate_maximum_moov_box_size(sample_count_per_track: &[usize]) -> (r: usize)
    requires
        moov_size_estimate(sample_count_per_track@) <= usize::MAX,
    ensures
        r == moov_size_estimate(sample_count_per_track@),
{
    let s = sample_count_per_track;
    let mut sum: usize = 0;
    let mut i: usize = 0;
    while i < s.len()
        invariant
            i <= s@.len(),
            sum == sum_sizes(s@.subrange(0, i as int)),
            moov_size_estimate(s@) <= usize::MAX,
        decreases s@.len() - i,
    {
        proof {
            assert(s@.subrange(0, i + 1).drop_last() =~= s@.subrange(0, i as int));
            lemma_sum_prefix(s@, i + 1);
        }
        sum = sum + s[i];
        i += 1;
    }
    assert(s@.subrange(0, i as int) =~= s@);
    assert(s@.len() * 1024 <= usize::MAX);
    512 + s.len() * 1024 + sum * 16
}

/// The estimate for no track is 512 bytes; one more track of `n` samples adds 1024 bytes and
/// 16 bytes per sample.
pub proof fn lemma_estimate_by_track(counts: Seq<usize>, n: usize)
    ensures
        moov_size_estimate(Seq::<usize>::empty()) == 512,
        moov_size_estimate(counts.push(n)) == moov_size_estimate(counts) + 1024 + 16 * n,
{
    assert(counts.push(n).drop_last() =~= counts);
    assert(sum_sizes(Seq::<usize>::empty()) == 0);
}

/// One more sample on any track adds 16 bytes to the estimate.
pub proof fn lemma_estimate_per_sample(counts: Seq<usize>, i: int, n: usize)
    requires
        0 <= i < counts.len(),
        n == counts[i] + 1,
    ensures
        moov_size_estimate(counts.update(i, n)) == moov_size_estimate(counts) + 16,
    decreases counts.len(),
{
    lemma_sum_update(counts, i, n);
}

proof fn lemma_sum_update(s: Seq<usize>, i: int, n: usize)
    requires
        0 <= i < s.len(),
        n == s[i] + 1,
    ensures
        sum_sizes(s.update(i, n)) == sum_sizes(s) + 1,
    decreases s.len(),
{
    let t = s.update(i, n);
    if i == s.len() - 1 {
        assert(t.drop_last() =~= s.drop_last());
    } else {
        lemma_sum_update(s.drop_last(), i, n);
        assert(t.drop_last() =~= s.drop_last().update(i, n));
    }
}

/// Sums of prefixes do not exceed the whole sum.
proof fn lemma_sum_prefix(s: Seq<usize>, n: int)
    requires
        0 <= n <= s.len(),
    ensures
        sum_sizes(s.subrange(0, n)) <= sum_sizes(s),
    decreases s.len() - n,
{
    if n < s.len() {
        lemma_sum_prefix(s, n + 1);
        assert(s.subrange(0, n + 1).drop_last() =~= s.subrange(0, n));
    } else {
        assert(s.subrange(0, n) =~= s);
    }
}

/// The current time in seconds since the UNIX epoch (0 when the clock is before it), read
/// with `std::time::SystemTime::now()`.
///
/// Trusted, and nothing is claimed of the result: it is the clock's.
#[verifier::external_body]
fn unix_now_secs() -> u64 {
    match std::time::SystemTime::now().duration_since(std::time::UNIX_EPOCH) {
        Ok(d) => d.as_secs(),
        Err(_) => 0,
    }
}

/// The options of a [`Mp4FileMuxer`].
#[derive(Debug, Clone)]
pub struct Mp4FileMuxerOptions {
    /// The room, in bytes, kept before the media data for the `moov` box (in a `free` box), so
    /// that a player finds the `moov` box near the start of the file ("faststart"). When the
    /// `moov` box does not fit, it goes at the end of the file. 0 (the default) keeps no room.
    pub reserved_moov_box_size: usize,
    /// The creation time written in the file, in seconds since the UNIX epoch. The default is
    /// the current time.
    pub creation_timestamp: u64,
}

impl Default for Mp4FileMuxerOptions {
    fn default() -> (r: Self)
        ensures
            r.reserved_moov_box_size == 0,
    {
        Self { reserved_moov_box_size: 0, creation_timestamp: unix_now_secs() }
    }
}

/// A sample whose data the caller has appended to the file.
#[derive(Debug, Clone)]
pub struct Sample {
    /// The kind of the sample's track.
    pub track_kind: TrackKind,
    /// The sample entry of the sample: needed for the first sample of a track; when absent,
    /// that of the sample before is kept.
    pub sample_entry: Option<SampleEntry>,
    /// Whether the sample is a key frame.
    pub keyframe: bool,
    /// The number of units of the track's time per second: the first sample of a track sets it.
    pub timescale: NonZeroU32,
    /// The duration of the sample, in units of `timescale`. A file has no timestamps: the time
    /// of a sample is the sum of the durations before it, so gaps must be filled by the caller.
    pub duration: u32,
    /// Where the sample's data starts in the file.
    pub data_offset: u64,
    /// The size of the sample's data in bytes.
    pub data_size: usize,
}

/// The errors of the muxer.
#[derive(Debug, Clone)]
pub enum MuxError {
    /// A box could not be encoded.
    EncodeError(Error),
    /// The data of a sample is not where the file ends.
    PositionMismatch {
        /// Where the data was expected.
        expected: u64,
        /// Where it is said to be.
        actual: u64,
    },
    /// The first sample of a track has no sample entry.
    MissingSampleEntry {
        /// The kind of the track.
        track_kind: TrackKind,
    },
    /// The muxer is finalized.
    AlreadyFinalized,
    /// A sample's timescale differs from that of its track.
    TimescaleMismatch {
        /// The kind of the track.
        track_kind: TrackKind,
        /// The timescale of the track.
        expected: NonZeroU32,
        /// The timescale of the sample.
        actual: NonZeroU32,
    },
}

/// What the muxer keeps of a sample.
#[derive(Debug, Clone, Copy, PartialEq, Eq, Structural)]
pub struct SampleMetadata {
    /// The duration of the sample.
    pub duration: u32,
    /// Whether the sample is a key frame.
    pub keyframe: bool,
    /// The size of the sample's data (modulo 2 to the 32).
    pub size: u32,
}

/// Samples of one track that lie one after another in the file, with one sample entry.
#[derive(Debug, Clone)]
pub struct Chunk {
    /// Where the chunk starts in the file.
    pub offset: u64,
    /// The sample entry of its samples.
    pub sample_entry: SampleEntry,
    /// Its samples.
    pub samples: Vec<SampleMetadata>,
}

/// The samples of a list of chunks, in order.
pub open spec fn flat_samples(cs: Seq<Chunk>) -> Seq<SampleMetadata>
    decreases cs.len(),
{
    if cs.len() == 0 {
        Seq::empty()
    } else {
        flat_samples(cs.drop_last()) + cs.last().samples@
    }
}

/// The total size of a list of samples.
pub open spec fn samples_size(s: Seq<SampleMetadata>) -> int
    decreases s.len(),
{
    if s.len() == 0 {
        0
    } else {
        samples_size(s.drop_last()) + s.last().size
    }
}

/// Where a chunk puts its samples in the file: each at the chunk's offset plus the sizes of
/// the samples before it in the chunk.
pub open spec fn chunk_positions(c: Chunk) -> Seq<int> {
    Seq::new(c.samples@.len(), |j: int| c.offset + samples_size(c.samples@.take(j)))
}

/// Where a list of chunks puts its samples in the file, in order.
pub open spec fn flat_positions(cs: Seq<Chunk>) -> Seq<int>
    decreases cs.len(),
{
    if cs.len() == 0 {
        Seq::empty()
    } else {
        flat_positions(cs.drop_last()) + chunk_positions(cs.last())
    }
}

/// Where the data of the last chunk of a list ends.
pub open spec fn chunks_end(cs: Seq<Chunk>) -> int {
    cs.last().offset + samples_size(cs.last().samples@)
}

/// A chunk with one more sample puts it where the chunk's data ended.
pub proof fn lemma_chunk_positions_push(c: Chunk, d: Chunk, m: SampleMetadata)
    requires
        d.offset == c.offset,
        d.samples@ == c.samples@.push(m),
    ensures
        chunk_positions(d) == chunk_positions(c).push(c.offset + samples_size(c.samples@)),
{
    assert(d.samples@.take(c.samples@.len() as int) =~= c.samples@);
    assert forall|j: int| 0 <= j < c.samples@.len() implies #[trigger] d.samples@.take(j) == c.samples@.take(j) by {
        assert(d.samples@.take(j) =~= c.samples@.take(j));
    }
    assert(chunk_positions(d) =~= chunk_positions(c).push(c.offset + samples_size(c.samples@)));
}

/// A new chunk of one sample puts it at the chunk's offset, and its data ends after it.
pub proof fn lemma_chunk_positions_single(c: Chunk, m: SampleMetadata)
    requires
        c.samples@ == seq![m],
    ensures
        chunk_positions(c) == seq![c.offset as int],
        c.offset + samples_size(c.samples@) == c.offset + m.size,
{
    assert(c.samples@.take(0) =~= Seq::<SampleMetadata>::empty());
    assert(c.samples@.drop_last() =~= Seq::<SampleMetadata>::empty());
    assert(samples_size(c.samples@.drop_last()) == 0);
    assert(c.samples@.last() == m);
    assert(chunk_positions(c) =~= seq![c.offset as int]);
}

/// Recording a sample of size `m.size` at `pos`, either in a new chunk at `pos` or at the end of
/// the last chunk when that chunk's data ends at `pos`, puts it at `pos`, after the others.
pub proof fn lemma_positions_push(before: Seq<Chunk>, after: Seq<Chunk>, m: SampleMetadata, opened: bool, pos: int)
    requires
        opened ==> after.len() == before.len() + 1 && (forall|i: int|
            0 <= i < before.len() ==> #[trigger] after[i] == before[i]) && after.last().offset == pos
            && after.last().samples@ == seq![m],
        !opened ==> before.len() > 0 && after.len() == before.len() && (forall|i: int|
            0 <= i < before.len() - 1 ==> #[trigger] after[i] == before[i]) && after.last().offset
            == before.last().offset && after.last().samples@ == before.last().samples@.push(m)
            && chunks_end(before) == pos,
    ensures
        flat_positions(after) == flat_positions(before).push(pos),
        after.len() > 0,
        chunks_end(after) == pos + m.size,
{
    if opened {
        assert(after.drop_last() =~= before);
        lemma_chunk_positions_single(after.last(), m);
        assert(flat_positions(after) =~= flat_positions(before).push(pos));
    } else {
        assert(after.drop_last() =~= before.drop_last());
        lemma_chunk_positions_push(before.last(), after.last(), m);
        assert(flat_positions(after) =~= flat_positions(before).push(pos));
        assert(before.last().samples@.push(m).drop_last() =~= before.last().samples@);
    }
}

/// Whether `u` holds an entry that is the same as `e`.
pub open spec fn has_entry(u: Seq<SampleEntry>, e: SampleEntry) -> bool {
    exists|k: int| 0 <= k < u.len() && same_sample_entry(#[trigger] u[k], e)
}

/// The distinct sample entries of a list of chunks, in the order they first appear.
pub open spec fn unique_entries(cs: Seq<Chunk>) -> Seq<SampleEntry>
    decreases cs.len(),
{
    if cs.len() == 0 {
        Seq::empty()
    } else {
        let u = unique_entries(cs.drop_last());
        if has_entry(u, cs.last().sample_entry) {
            u
        } else {
            u.push(cs.last().sample_entry)
        }
    }
}

/// The numbers (counted from one) of the key frames of a list of samples.
pub open spec fn keyframe_numbers(f: Seq<SampleMetadata>) -> Seq<u32>
    decreases f.len(),
{
    if f.len() == 0 {
        Seq::empty()
    } else {
        keyframe_numbers(f.drop_last()) + if f.last().keyframe {
            seq![f.len() as u32]
        } else {
            Seq::empty()
        }
    }
}

/// Whether `stbl` is the sample table built from `cs`: one sample entry per distinct entry,
/// the durations, sizes and key frames of the samples, one sample-to-chunk entry per chunk,
/// and the chunk offsets in 64 bits when `large`.
pub open spec fn stbl_built(stbl: StblBox, cs: Seq<Chunk>, large: bool) -> bool {
    let u = unique_entries(cs);
    let f = flat_samples(cs);
    &&& stbl.stsd_box.entries@.len() == u.len()
    &&& forall|k: int|
        0 <= k < u.len() ==> same_sample_entry(#[trigger] stbl.stsd_box.entries@[k], u[k])
    &&& stts_deltas(stbl.stts_box.entries@) == f.map_values(|s: SampleMetadata| s.duration)
    &&& stbl.stsc_box.entries@.len() == cs.len()
    &&& forall|i: int|
        0 <= i < cs.len() ==> {
            let e = #[trigger] stbl.stsc_box.entries@[i];
            &&& e.first_chunk.spec_get() == i + 1
            &&& e.sample_per_chunk == cs[i].samples@.len()
            &&& 1 <= e.sample_description_index.spec_get() <= u.len()
            &&& same_sample_entry(u[e.sample_description_index.spec_get() - 1], cs[i].sample_entry)
        }
    &&& stbl.stsz_box matches StszBox::Variable { entry_sizes } && entry_sizes@ == f.map_values(
        |s: SampleMetadata| s.size,
    )
    &&& if large {
        stbl.stco_or_co64_box matches Either::B(b) && b.chunk_offsets@ == cs.map_values(
            |c: Chunk| c.offset,
        )
    } else {
        stbl.stco_or_co64_box matches Either::A(b) && b.chunk_offsets@ == cs.map_values(
            |c: Chunk| c.offset as u32,
        )
    }
    &&& if forall|j: int| 0 <= j < f.len() ==> (#[trigger] f[j]).keyframe {
        stbl.stss_box is None
    } else {
        stbl.stss_box matches Some(b) && b.sample_numbers@.map_values(|n: NonZeroU32| n.spec_get())
            == keyframe_numbers(f)
    }
    &&& stbl.unknown_boxes@.len() == 0
}


/// The samples of the first `i` chunks are those of the first `i - 1` and then chunk `i - 1`.
proof fn lemma_flat_step(cs: Seq<Chunk>, i: int)
    requires
        0 < i <= cs.len(),
    ensures
        flat_samples(cs.subrange(0, i)) == flat_samples(cs.subrange(0, i - 1)) + cs[i - 1].samples@,
        unique_entries(cs.subrange(0, i)) == if has_entry(
            unique_entries(cs.subrange(0, i - 1)),
            cs[i - 1].sample_entry,
        ) {
            unique_entries(cs.subrange(0, i - 1))
        } else {
            unique_entries(cs.subrange(0, i - 1)).push(cs[i - 1].sample_entry)
        },
{
    assert(cs.subrange(0, i).drop_last() =~= cs.subrange(0, i - 1));
}

/// Looks for an entry of `u` that is the same as `e`.
pub(crate) fn find_entry(u: &Vec<SampleEntry>, e: &SampleEntry) -> (r: Option<usize>)
    ensures
        r matches Some(k) ==> k < u@.len() && same_sample_entry(u@[k as int], *e),
        r is None ==> forall|k: int| 0 <= k < u@.len() ==> !same_sample_entry(#[trigger] u@[k], *e),
{
    let mut k: usize = 0;
    while k < u.len()
        invariant
            k <= u@.len(),
            forall|m: int| 0 <= m < k ==> !same_sample_entry(#[trigger] u@[m], *e),
        decreases u@.len() - k,
    {
        if u[k].is_same(e) {
            return Some(k);
        }
        k += 1;
    }
    None
}

/// Builds the sample table of a track from its chunks.
#[verifier::rlimit(60)]
pub(crate) fn build_stbl_box(chunks: &[Chunk], large: bool) -> (r: StblBox)
    requires
        flat_samples(chunks@).len() <= u32::MAX,
        chunks@.len() <= u32::MAX,
    ensures
        stbl_built(r, chunks@, large),
{
    let ghost cs = chunks@;
    // The distinct sample entries.
    let mut u: Vec<SampleEntry> = Vec::new();
    let mut i: usize = 0;
    while i < chunks.len()
        invariant
            cs == chunks@,
            i <= cs.len(),
            u@.len() == unique_entries(cs.subrange(0, i as int)).len(),
            u@.len() <= i,
            forall|k: int|
                0 <= k < u@.len() ==> same_sample_entry(
                    #[trigger] u@[k],
                    unique_entries(cs.subrange(0, i as int))[k],
                ),
            forall|j: int| 0 <= j < i ==> has_entry(u@, #[trigger] cs[j].sample_entry),
        decreases cs.len() - i,
    {
        let c = &chunks[i];
        let ghost pu = unique_entries(cs.subrange(0, i as int));
        proof {
            lemma_flat_step(cs, i + 1);
        }
        match find_entry(&u, &c.sample_entry) {
            Some(k) => {
                assert(same_sample_entry(pu[k as int], c.sample_entry));
                assert(has_entry(pu, c.sample_entry));
            },
            None => {
                assert(!has_entry(pu, c.sample_entry)) by {
                    if has_entry(pu, c.sample_entry) {
                        let k = choose|k: int| 0 <= k < pu.len() && same_sample_entry(#[trigger] pu[k], c.sample_entry);
                        assert(same_sample_entry(u@[k], pu[k]));
                    }
                }
                let d = c.sample_entry.duplicate();
                let ghost old_u = u@;
                u.push(d);
                proof {
                    assert forall|j: int| 0 <= j < i implies has_entry(u@, #[trigger] cs[j].sample_entry) by {
                        assert(has_entry(old_u, cs[j].sample_entry));
                        let k = choose|k: int| 0 <= k < old_u.len() && same_sample_entry(#[trigger] old_u[k], cs[j].sample_entry);
                        assert(u@[k] == old_u[k]);
                        assert(same_sample_entry(u@[k], cs[j].sample_entry));
                    }
                    assert(same_sample_entry(u@[u@.len() - 1], c.sample_entry));
                }
            },
        }
        i += 1;
    }
    assert(cs.subrange(0, cs.len() as int) =~= cs);
    let ghost uu = unique_entries(cs);
    // One sample-to-chunk entry per chunk.
    let mut stsc: Vec<StscEntry> = Vec::new();
    let mut i: usize = 0;
    while i < chunks.len()
        invariant
            cs == chunks@,
            i <= cs.len(),
            cs.len() <= u32::MAX,
            u@.len() == uu.len(),
            u@.len() <= cs.len(),
            forall|k: int| 0 <= k < u@.len() ==> same_sample_entry(#[trigger] u@[k], uu[k]),
            forall|j: int| 0 <= j < cs.len() ==> has_entry(u@, #[trigger] cs[j].sample_entry),
            flat_samples(cs).len() <= u32::MAX,
            stsc@.len() == i,
            forall|j: int|
                0 <= j < i ==> {
                    let e = #[trigger] stsc@[j];
                    &&& e.first_chunk.spec_get() == j + 1
                    &&& e.sample_per_chunk == cs[j].samples@.len()
                    &&& 1 <= e.sample_description_index.spec_get() <= uu.len()
                    &&& same_sample_entry(
                        uu[e.sample_description_index.spec_get() - 1],
                        cs[j].sample_entry,
                    )
                },
        decreases cs.len() - i,
    {
        let c = &chunks[i];
        let k = match find_entry(&u, &c.sample_entry) {
            Some(k) => k,
            None => {
                assert(has_entry(u@, cs[i as int].sample_entry));
                0
            },
        };
        assert(same_sample_entry(uu[k as int], c.sample_entry));
        proof {
            lemma_chunk_samples_bound(cs, i as int);
        }
        stsc.push(
            StscEntry {
                first_chunk: NonZeroU32::MIN().saturating_add(i as u32),
                sample_per_chunk: c.samples.len() as u32,
                sample_description_index: NonZeroU32::MIN().saturating_add(k as u32),
            },
        );
        i += 1;
    }
    // The durations, sizes and key frames of the samples.
    let mut durations: Vec<u32> = Vec::new();
    let mut sizes: Vec<u32> = Vec::new();
    let mut keys: Vec<NonZeroU32> = Vec::new();
    let mut all_keyframes = true;
    let mut n: u32 = 0;
    let mut i: usize = 0;
    while i < chunks.len()
        invariant
            cs == chunks@,
            i <= cs.len(),
            flat_samples(cs).len() <= u32::MAX,
            n == flat_samples(cs.subrange(0, i as int)).len(),
            durations@ == flat_samples(cs.subrange(0, i as int)).map_values(
                |s: SampleMetadata| s.duration,
            ),
            sizes@ == flat_samples(cs.subrange(0, i as int)).map_values(|s: SampleMetadata| s.size),
            keys@.map_values(|x: NonZeroU32| x.spec_get()) == keyframe_numbers(
                flat_samples(cs.subrange(0, i as int)),
            ),
            all_keyframes == forall|j: int|
                0 <= j < flat_samples(cs.subrange(0, i as int)).len() ==> (#[trigger] flat_samples(
                    cs.subrange(0, i as int),
                )[j]).keyframe,
        decreases cs.len() - i,
    {
        let c = &chunks[i];
        let ghost before = flat_samples(cs.subrange(0, i as int));
        proof {
            lemma_flat_step(cs, i + 1);
            lemma_flat_prefix(cs, i + 1);
            assert(before + c.samples@.subrange(0, 0) =~= before);
        }
        let mut j: usize = 0;
        while j < c.samples.len()
            invariant
                cs == chunks@,
                i < cs.len(),
                *c == cs[i as int],
                before == flat_samples(cs.subrange(0, i as int)),
                before.len() + c.samples@.len() <= u32::MAX,
                j <= c.samples@.len(),
                n == before.len() + j,
                durations@ == (before + c.samples@.subrange(0, j as int)).map_values(
                    |s: SampleMetadata| s.duration,
                ),
                sizes@ == (before + c.samples@.subrange(0, j as int)).map_values(
                    |s: SampleMetadata| s.size,
                ),
                keys@.map_values(|x: NonZeroU32| x.spec_get()) == keyframe_numbers(
                    before + c.samples@.subrange(0, j as int),
                ),
                all_keyframes == forall|m: int|
                    0 <= m < (before + c.samples@.subrange(0, j as int)).len() ==> (#[trigger] (before
                        + c.samples@.subrange(0, j as int))[m]).keyframe,
            decreases c.samples@.len() - j,
        {
            let s = c.samples[j];
            let ghost fl = before + c.samples@.subrange(0, j as int);
            let ghost fl2 = before + c.samples@.subrange(0, j + 1);
            assert(fl2 =~= fl.push(s));
            assert(fl2.drop_last() =~= fl);
            durations.push(s.duration);
            sizes.push(s.size);
            if s.keyframe {
                keys.push(NonZeroU32::MIN().saturating_add(n));
            } else {
                all_keyframes = false;
            }
            proof {
                assert(durations@ =~= fl2.map_values(|s: SampleMetadata| s.duration));
                assert(sizes@ =~= fl2.map_values(|s: SampleMetadata| s.size));
                assert(keys@.map_values(|x: NonZeroU32| x.spec_get()) =~= keyframe_numbers(fl2));
                if !s.keyframe {
                    assert(!fl2[fl2.len() - 1].keyframe);
                }
            }
            n = n + 1;
            j += 1;
        }
        assert(c.samples@.subrange(0, j as int) =~= c.samples@);
        i += 1;
    }
    assert(cs.subrange(0, i as int) =~= cs);
    // The chunk offsets.
    let stco_or_co64_box = if large {
        let mut offsets: Vec<u64> = Vec::new();
        let mut i: usize = 0;
        while i < chunks.len()
            invariant
                cs == chunks@,
                i <= cs.len(),
                offsets@ == cs.subrange(0, i as int).map_values(|c: Chunk| c.offset),
            decreases cs.len() - i,
        {
            offsets.push(chunks[i].offset);
            assert(offsets@ =~= cs.subrange(0, i + 1).map_values(|c: Chunk| c.offset));
            i += 1;
        }
        assert(cs.subrange(0, i as int) =~= cs);
        Either::B(Co64Box { chunk_offsets: offsets })
    } else {
        let mut offsets: Vec<u32> = Vec::new();
        let mut i: usize = 0;
        while i < chunks.len()
            invariant
                cs == chunks@,
                i <= cs.len(),
                offsets@ == cs.subrange(0, i as int).map_values(|c: Chunk| c.offset as u32),
            decreases cs.len() - i,
        {
            offsets.push(#[verifier::truncate] (chunks[i].offset as u32));
            assert(offsets@ =~= cs.subrange(0, i + 1).map_values(|c: Chunk| c.offset as u32));
            i += 1;
        }
        assert(cs.subrange(0, i as int) =~= cs);
        Either::A(StcoBox { chunk_offsets: offsets })
    };
    let stts_box = SttsBox::from_sample_deltas(durations.as_slice());
    StblBox {
        stsd_box: StsdBox { entries: u },
        stts_box,
        stsc_box: StscBox { entries: stsc },
        stsz_box: StszBox::Variable { entry_sizes: sizes },
        stco_or_co64_box,
        stss_box: if all_keyframes {
            None
        } else {
            Some(StssBox { sample_numbers: keys })
        },
        unknown_boxes: Vec::new(),
    }
}

/// The samples of the first `n` chunks are no more than all of them.
proof fn lemma_flat_prefix(cs: Seq<Chunk>, n: int)
    requires
        0 <= n <= cs.len(),
    ensures
        flat_samples(cs.subrange(0, n)).len() <= flat_samples(cs).len(),
    decreases cs.len() - n,
{
    if n < cs.len() {
        lemma_flat_prefix(cs, n + 1);
        lemma_flat_step(cs, n + 1);
    } else {
        assert(cs.subrange(0, n) =~= cs);
    }
}

/// A chunk has no more samples than all the chunks.
proof fn lemma_chunk_samples_bound(cs: Seq<Chunk>, i: int)
    requires
        0 <= i < cs.len(),
    ensures
        cs[i].samples@.len() <= flat_samples(cs).len(),
{
    lemma_flat_step(cs, i + 1);
    lemma_flat_prefix(cs, i + 1);
}


/// The sum of the durations of a list of samples.
pub open spec fn sum_durations(f: Seq<SampleMetadata>) -> nat
    decreases f.len(),
{
    if f.len() == 0 {
        0
    } else {
        sum_durations(f.drop_last()) + f.last().duration as nat
    }
}

/// The duration in microseconds (rounded down) of `total` units of a timescale.
pub open spec fn micros(total: nat, timescale: nat) -> nat {
    total * 1_000_000 / timescale
}

/// The boxes that finish a file built by a [`Mp4FileMuxer`]: the caller writes each of them
/// at its offset.
#[derive(Debug)]
pub struct FinalizedBoxes {
    moov_box_offset: u64,
    moov_box_bytes: Vec<u8>,
    moov_box_size: usize,
    mdat_box_offset: u64,
    mdat_box_header_bytes: Vec<u8>,
    moov_box: MoovBox,
}

impl FinalizedBoxes {
    /// Where the `moov` box goes.
    pub closed spec fn spec_moov_box_offset(&self) -> u64 {
        self.moov_box_offset
    }

    /// The bytes of the `moov` box (and of the `free` box that fills the rest of the room kept
    /// for it).
    pub closed spec fn spec_moov_box_bytes(&self) -> Seq<u8> {
        self.moov_box_bytes@
    }

    /// The size of the `moov` box alone.
    pub closed spec fn spec_moov_box_size(&self) -> nat {
        self.moov_box_size as nat
    }

    /// Where the `mdat` box header goes.
    pub closed spec fn spec_mdat_box_offset(&self) -> u64 {
        self.mdat_box_offset
    }

    /// The bytes of the final `mdat` box header.
    pub closed spec fn spec_mdat_box_header_bytes(&self) -> Seq<u8> {
        self.mdat_box_header_bytes@
    }

    /// The `moov` box.
    pub closed spec fn spec_moov_box(&self) -> MoovBox {
        self.moov_box
    }

    /// Whether the `moov` box comes before the media data ("faststart").
    pub fn is_faststart_enabled(&self) -> (r: bool)
        ensures
            r == (self.spec_moov_box_offset() < self.spec_mdat_box_offset()),
    {
        self.moov_box_offset < self.mdat_box_offset
    }

    /// The size in bytes of the final `moov` box (without the `free` box that may follow it).
    pub fn moov_box_size(&self) -> (r: usize)
        ensures
            r == self.spec_moov_box_size(),
    {
        self.moov_box_size
    }

    /// The bytes to write and where: the `moov` box, then the `mdat` box header.
    pub fn offset_and_bytes_pairs(&self) -> (r: Vec<(u64, &[u8])>)
        ensures
            r@.len() == 2,
            r@[0].0 == self.spec_moov_box_offset() && r@[0].1@ == self.spec_moov_box_bytes(),
            r@[1].0 == self.spec_mdat_box_offset() && r@[1].1@ == self.spec_mdat_box_header_bytes(),
    {
        let mut r: Vec<(u64, &[u8])> = Vec::new();
        r.push((self.moov_box_offset, self.moov_box_bytes.as_slice()));
        r.push((self.mdat_box_offset, self.mdat_box_header_bytes.as_slice()));
        r
    }

    /// The `moov` box.
    pub fn moov_box(&self) -> (r: &MoovBox)
        ensures
            *r == self.spec_moov_box(),
    {
        &self.moov_box
    }
}

/// Builds a file from samples: the caller writes the initial boxes, then the data of each
/// sample followed by a call of [`Mp4FileMuxer::append_sample()`], and at the end the boxes
/// that [`Mp4FileMuxer::finalize()`] returns.
///
/// It covers the common case of one audio and one video track; for finer control, build the
/// boxes directly.
#[derive(Debug)]
pub struct Mp4FileMuxer {
    options: Mp4FileMuxerOptions,
    initial_boxes_bytes: Vec<u8>,
    free_box_offset: u64,
    mdat_box_offset: u64,
    next_position: u64,
    last_sample_kind: Option<TrackKind>,
    finalized_boxes: Option<FinalizedBoxes>,
    audio_chunks: Vec<Chunk>,
    video_chunks: Vec<Chunk>,
    audio_track_timescale: NonZeroU32,
    video_track_timescale: NonZeroU32,
}

/// The initial boxes: the `ftyp` box, a `free` box of the room kept for the `moov` box (when
/// any) and the header of an `mdat` box of a size not known yet.
pub open spec fn initial_bytes(ftyp: Seq<u8>, reserved: nat) -> Seq<u8> {
    ftyp + (if reserved > 0 {
        spec_raw_box_bytes(FreeBox::spec_type(), Seq::new(reserved, |_i: int| 0u8))
    } else {
        Seq::empty()
    }) + BoxHeader::new_spec(MdatBox::spec_type(), BoxSize::U64(0)).spec_encoding()
}

impl Mp4FileMuxer {
    /// The options.
    pub closed spec fn spec_options(&self) -> Mp4FileMuxerOptions {
        self.options
    }

    /// The initial boxes.
    pub closed spec fn spec_initial_bytes(&self) -> Seq<u8> {
        self.initial_boxes_bytes@
    }

    /// Where the data of the next sample must start.
    pub closed spec fn spec_next_position(&self) -> u64 {
        self.next_position
    }

    /// Where the `free` box kept for the `moov` box starts.
    pub closed spec fn spec_free_box_offset(&self) -> u64 {
        self.free_box_offset
    }

    /// Where the `mdat` box starts.
    pub closed spec fn spec_mdat_box_offset(&self) -> u64 {
        self.mdat_box_offset
    }

    /// The result of finalizing, once finalized.
    pub closed spec fn spec_finalized(&self) -> Option<FinalizedBoxes> {
        self.finalized_boxes
    }

    /// The track of the last sample.
    pub closed spec fn spec_last_kind(&self) -> Option<TrackKind> {
        self.last_sample_kind
    }

    /// The chunks of a track.
    pub closed spec fn spec_chunks(&self, kind: TrackKind) -> Seq<Chunk> {
        match kind {
            TrackKind::Audio => self.audio_chunks@,
            TrackKind::Video => self.video_chunks@,
        }
    }

    /// The timescale of a track (meaningful once it has a sample).
    pub closed spec fn spec_timescale(&self, kind: TrackKind) -> NonZeroU32 {
        match kind {
            TrackKind::Audio => self.audio_track_timescale,
            TrackKind::Video => self.video_track_timescale,
        }
    }

    /// The muxer's consistency: each chunk has a sample, and the data of the samples lies
    /// before the next position.
    pub closed spec fn wf(&self) -> bool {
        &&& forall|i: int|
            0 <= i < self.audio_chunks@.len() ==> (#[trigger] self.audio_chunks@[i]).samples@.len() > 0
        &&& forall|i: int|
            0 <= i < self.video_chunks@.len() ==> (#[trigger] self.video_chunks@[i]).samples@.len() > 0
        &&& self.mdat_box_offset <= self.next_position
        &&& self.options.reserved_moov_box_size <= u64::MAX - 32
        &&& self.last_sample_kind == Some(TrackKind::Audio) ==> self.audio_chunks@.len() > 0
        &&& self.last_sample_kind == Some(TrackKind::Video) ==> self.video_chunks@.len() > 0
    }

    /// Creates a muxer with the default options (no room kept for the `moov` box, the current
    /// time as the creation time).
    pub fn new() -> (r: Result<Self, MuxError>)
        ensures
            r matches Ok(m) ==> m.wf() && m.spec_finalized() is None && m.spec_options().reserved_moov_box_size == 0
                && m.spec_contiguous(),
            r is Ok,
    {
        Self::with_options(Mp4FileMuxerOptions::default())
    }

    /// Creates a muxer with the given options.
    ///
    /// Fails with [`MuxError::EncodeError`] when the room to keep for the `moov` box is too
    /// large for a box.
    pub fn with_options(options: Mp4FileMuxerOptions) -> (r: Result<Self, MuxError>)
        ensures
            r is Ok <==> options.reserved_moov_box_size <= u64::MAX - 32,
            r matches Ok(m) ==> {
                &&& m.wf()
                &&& m.spec_options() == options
                &&& m.spec_finalized() is None
                &&& m.spec_last_kind() is None
                &&& m.spec_chunks(TrackKind::Audio).len() == 0
                &&& m.spec_chunks(TrackKind::Video).len() == 0
                &&& m.spec_initial_bytes() == initial_bytes(
                    default_ftyp_bytes(),
                    options.reserved_moov_box_size as nat,
                )
                &&& m.spec_next_position() == m.spec_initial_bytes().len()
                &&& m.spec_free_box_offset() == default_ftyp_bytes().len()
                &&& m.spec_mdat_box_offset() + 16 == m.spec_next_position()
            },
            r matches Err(e) ==> e matches MuxError::EncodeError(x) && x.kind == ErrorKind::InvalidInput,
    {
        let ftyp = build_default_ftyp();
        let ftyp_bytes = match ftyp.encode_to_vec() {
            Ok(b) => b,
            Err(e) => {
                return Err(MuxError::EncodeError(e));
            },
        };
        let mut bytes: Vec<u8> = Vec::new();
        put_bytes(&mut bytes, ftyp_bytes.as_slice());
        let free_box_offset = bytes.len() as u64;
        if options.reserved_moov_box_size > 0 {
            let mut payload: Vec<u8> = Vec::new();
            put_zeros(&mut payload, options.reserved_moov_box_size);
            let free_box = FreeBox { payload };
            match free_box.encode_into(&mut bytes) {
                Ok(()) => {},
                Err(e) => {
                    return Err(MuxError::EncodeError(e));
                },
            }
        }
        let mdat_box_offset = bytes.len() as u64;
        let mdat_header = BoxHeader::new(MdatBox::TYPE(), BoxSize::LARGE_VARIABLE_SIZE());
        let _ = mdat_header.encode_into(&mut bytes);
        assert(BoxHeader::new_spec(MdatBox::spec_type(), BoxSize::U64(0)).spec_encoding().len() == 16);
        assert(bytes@ =~= initial_bytes(ftyp_bytes@, options.reserved_moov_box_size as nat));
        let next_position = bytes.len() as u64;
        Ok(
            Self {
                options,
                initial_boxes_bytes: bytes,
                free_box_offset,
                mdat_box_offset,
                next_position,
                last_sample_kind: None,
                finalized_boxes: None,
                audio_chunks: Vec::new(),
                video_chunks: Vec::new(),
                audio_track_timescale: NonZeroU32::MIN(),
                video_track_timescale: NonZeroU32::MIN(),
            },
        )
    }

    /// The initial boxes: the caller writes them at the start of the file before any sample.
    pub fn initial_boxes_bytes(&self) -> (r: &[u8])
        ensures
            r@ == self.spec_initial_bytes(),
    {
        self.initial_boxes_bytes.as_slice()
    }

    /// The result of [`Mp4FileMuxer::finalize()`], or `None` before it.
    pub fn finalized_boxes(&self) -> (r: Option<&FinalizedBoxes>)
        ensures
            r matches Some(f) ==> self.spec_finalized() == Some(*f),
            r is None <==> self.spec_finalized() is None,
    {
        match &self.finalized_boxes {
            Some(f) => Some(f),
            None => None,
        }
    }
}



/// The payload of the `ftyp` box of the files the muxer builds: major brand `isom`, minor
/// version 0, compatible brands `isom`, `iso2`, `mp41`, `avc1` and `av01`.
pub open spec fn default_ftyp_payload() -> Seq<u8> {
    seq![0x69u8, 0x73, 0x6f, 0x6d] + be_u32(0) + seq![0x69u8, 0x73, 0x6f, 0x6d] + seq![
        0x69u8,
        0x73,
        0x6f,
        0x32,
    ] + seq![0x6du8, 0x70, 0x34, 0x31] + seq![0x61u8, 0x76, 0x63, 0x31] + seq![
        0x61u8,
        0x76,
        0x30,
        0x31,
    ]
}

/// The bytes of the `ftyp` box of the files the muxer builds.
pub open spec fn default_ftyp_bytes() -> Seq<u8> {
    spec_box_bytes(FtypBox::spec_type().spec_bytes(), default_ftyp_payload())
}

/// The `ftyp` box of the files the muxer builds.
fn build_default_ftyp() -> (r: FtypBox)
    ensures
        r.spec_encodable(),
        r.spec_encoding() == default_ftyp_bytes(),
{
    let mut brands: Vec<Brand> = Vec::new();
    brands.push(Brand::ISOM());
    brands.push(Brand::ISO2());
    brands.push(Brand::MP41());
    brands.push(Brand::AVC1());
    brands.push(Brand::AV01());
    let r = FtypBox { major_brand: Brand::ISOM(), minor_version: 0, compatible_brands: brands };
    proof {
        let f = |b: Brand| b.spec_bytes();
        let bs = brands@;
        lemma_concat_push(bs.subrange(0, 0).map_values(f), bs[0].spec_bytes());
        assert(bs.subrange(0, 1).map_values(f) =~= bs.subrange(0, 0).map_values(f).push(bs[0].spec_bytes()));
        lemma_concat_push(bs.subrange(0, 1).map_values(f), bs[1].spec_bytes());
        assert(bs.subrange(0, 2).map_values(f) =~= bs.subrange(0, 1).map_values(f).push(bs[1].spec_bytes()));
        lemma_concat_push(bs.subrange(0, 2).map_values(f), bs[2].spec_bytes());
        assert(bs.subrange(0, 3).map_values(f) =~= bs.subrange(0, 2).map_values(f).push(bs[2].spec_bytes()));
        lemma_concat_push(bs.subrange(0, 3).map_values(f), bs[3].spec_bytes());
        assert(bs.subrange(0, 4).map_values(f) =~= bs.subrange(0, 3).map_values(f).push(bs[3].spec_bytes()));
        lemma_concat_push(bs.subrange(0, 4).map_values(f), bs[4].spec_bytes());
        assert(bs.subrange(0, 5).map_values(f) =~= bs.subrange(0, 4).map_values(f).push(bs[4].spec_bytes()));
        assert(bs.subrange(0, 5) =~= bs);
        assert(bs.subrange(0, 0).map_values(f) =~= Seq::<Seq<u8>>::empty());
        assert(r.spec_payload_bytes() =~= default_ftyp_payload());
    }
    r
}

impl Mp4FileMuxer {
    /// Whether a sample starts a new chunk: it does when the last sample was of another track,
    /// or when it brings a sample entry other than that of the track's last chunk.
    pub open spec fn spec_new_chunk_needed(&self, sample: Sample) -> bool {
        let cs = self.spec_chunks(sample.track_kind);
        if self.spec_last_kind() != Some(sample.track_kind) {
            true
        } else {
            match sample.sample_entry {
                None => false,
                Some(e) => cs.len() == 0 || !same_sample_entry(cs.last().sample_entry, e),
            }
        }
    }

    fn is_new_chunk_needed(&self, sample: &Sample) -> (r: bool)
        ensures
            r == self.spec_new_chunk_needed(*sample),
    {
        match self.last_sample_kind {
            Some(k) => {
                if k != sample.track_kind {
                    return true;
                }
            },
            None => {
                return true;
            },
        }
        let chunks = match sample.track_kind {
            TrackKind::Audio => &self.audio_chunks,
            TrackKind::Video => &self.video_chunks,
        };
        match &sample.sample_entry {
            None => false,
            Some(e) => {
                if chunks.len() == 0 {
                    true
                } else {
                    !chunks[chunks.len() - 1].sample_entry.is_same(e)
                }
            },
        }
    }

    /// Records a sample whose data the caller has appended to the file.
    ///
    /// Fails with [`MuxError::AlreadyFinalized`] after [`Mp4FileMuxer::finalize()`]; with
    /// [`MuxError::PositionMismatch`] when the data does not start where the file ends; with
    /// [`MuxError::TimescaleMismatch`] when the timescale differs from that of the track's first
    /// sample; and with [`MuxError::MissingSampleEntry`] when a new chunk has no sample entry
    /// to take. Nothing changes on an error.
    pub fn append_sample(&mut self, sample: &Sample) -> (r: Result<(), MuxError>)
        requires
            old(self).wf(),
            sample.data_offset + sample.data_size <= u64::MAX,
        ensures
            final(self).wf(),
            old(self).spec_finalized() is Some ==> r matches Err(MuxError::AlreadyFinalized),
            old(self).spec_finalized() is None && old(self).spec_next_position() != sample.data_offset
                ==> (r matches Err(MuxError::PositionMismatch { expected, actual }) && expected
                == old(self).spec_next_position() && actual == sample.data_offset),
            ({
                let k = sample.track_kind;
                let cs = old(self).spec_chunks(k);
                let mismatch = cs.len() > 0 && old(self).spec_timescale(k).spec_get()
                    != sample.timescale.spec_get();
                let missing = !mismatch && old(self).spec_new_chunk_needed(*sample)
                    && sample.sample_entry is None && cs.len() == 0;
                let checked = old(self).spec_finalized() is None && old(self).spec_next_position()
                    == sample.data_offset;
                &&& checked && mismatch ==> (r matches Err(MuxError::TimescaleMismatch { track_kind, expected, actual })
                    && track_kind == k && expected == old(self).spec_timescale(k) && actual == sample.timescale)
                &&& checked && missing ==> (r matches Err(MuxError::MissingSampleEntry { track_kind }) && track_kind == k)
                &&& (r is Ok <==> checked && !mismatch && !missing)
                &&& r is Err ==> *final(self) == *old(self)
                &&& r is Ok ==> appended(*old(self), *final(self), *sample)
            }),
            r is Ok && old(self).spec_contiguous() && sample.data_size <= u32::MAX ==> {
                &&& final(self).spec_contiguous()
                &&& flat_positions(final(self).spec_chunks(sample.track_kind)) == flat_positions(
                    old(self).spec_chunks(sample.track_kind),
                ).push(sample.data_offset as int)
            },
    {
        let ghost d = *self;
        if self.finalized_boxes.is_some() {
            return Err(MuxError::AlreadyFinalized);
        }
        if self.next_position != sample.data_offset {
            return Err(
                MuxError::PositionMismatch {
                    expected: self.next_position,
                    actual: sample.data_offset,
                },
            );
        }
        let metadata = SampleMetadata {
            duration: sample.duration,
            keyframe: sample.keyframe,
            size: #[verifier::truncate] (sample.data_size as u32),
        };
        let is_new_chunk_needed = self.is_new_chunk_needed(sample);
        let kind = sample.track_kind;
        let (empty, timescale) = match kind {
            TrackKind::Audio => (self.audio_chunks.len() == 0, self.audio_track_timescale),
            TrackKind::Video => (self.video_chunks.len() == 0, self.video_track_timescale),
        };
        if !empty && timescale.get() != sample.timescale.get() {
            return Err(
                MuxError::TimescaleMismatch {
                    track_kind: kind,
                    expected: timescale,
                    actual: sample.timescale,
                },
            );
        }
        let new_chunk: Option<Chunk> = if is_new_chunk_needed {
            let entry = match &sample.sample_entry {
                Some(e) => e.duplicate(),
                None => {
                    let chunks = match kind {
                        TrackKind::Audio => &self.audio_chunks,
                        TrackKind::Video => &self.video_chunks,
                    };
                    if chunks.len() == 0 {
                        return Err(MuxError::MissingSampleEntry { track_kind: kind });
                    }
                    chunks[chunks.len() - 1].sample_entry.duplicate()
                },
            };
            Some(Chunk { offset: sample.data_offset, sample_entry: entry, samples: Vec::new() })
        } else {
            None
        };
        match kind {
            TrackKind::Audio => {
                self.audio_track_timescale = sample.timescale;
                push_sample(&mut self.audio_chunks, new_chunk, metadata);
            },
            TrackKind::Video => {
                self.video_track_timescale = sample.timescale;
                push_sample(&mut self.video_chunks, new_chunk, metadata);
            },
        }
        self.next_position = self.next_position + sample.data_size as u64;
        self.last_sample_kind = Some(kind);
        proof {
            if d.spec_contiguous() && sample.data_size <= u32::MAX {
                assert(appended(d, *self, *sample));
                lemma_append_places_sample(d, *self, *sample);
            }
        }
        Ok(())
    }
}

/// Whether `e` is `d` after recording `sample`: the sample joins the last chunk of its track, or
/// a new chunk at the sample's data that takes the sample's entry (or else the last chunk's).
pub open spec fn appended(d: Mp4FileMuxer, e: Mp4FileMuxer, sample: Sample) -> bool {
    let k = sample.track_kind;
    let other = match k {
        TrackKind::Audio => TrackKind::Video,
        TrackKind::Video => TrackKind::Audio,
    };
    let cs = d.spec_chunks(k);
    let ds = e.spec_chunks(k);
    let m = SampleMetadata {
        duration: sample.duration,
        keyframe: sample.keyframe,
        size: sample.data_size as u32,
    };
    &&& e.spec_next_position() == d.spec_next_position() + sample.data_size
    &&& e.spec_last_kind() == Some(k)
    &&& e.spec_timescale(k) == sample.timescale
    &&& e.spec_timescale(other) == d.spec_timescale(other)
    &&& e.spec_chunks(other) == d.spec_chunks(other)
    &&& e.spec_finalized() == d.spec_finalized()
    &&& e.spec_options() == d.spec_options()
    &&& e.spec_initial_bytes() == d.spec_initial_bytes()
    &&& e.spec_free_box_offset() == d.spec_free_box_offset()
    &&& e.spec_mdat_box_offset() == d.spec_mdat_box_offset()
    &&& if d.spec_new_chunk_needed(sample) {
        &&& ds.len() == cs.len() + 1
        &&& forall|i: int| 0 <= i < cs.len() ==> #[trigger] ds[i] == cs[i]
        &&& ds.last().offset == sample.data_offset
        &&& ds.last().samples@ == seq![m]
        &&& same_sample_entry(
            ds.last().sample_entry,
            match sample.sample_entry {
                Some(x) => x,
                None => cs.last().sample_entry,
            },
        )
    } else {
        &&& ds.len() == cs.len()
        &&& cs.len() > 0
        &&& forall|i: int| 0 <= i < cs.len() - 1 ==> #[trigger] ds[i] == cs[i]
        &&& ds.last().offset == cs.last().offset
        &&& ds.last().sample_entry == cs.last().sample_entry
        &&& ds.last().samples@ == cs.last().samples@.push(m)
    }
}

impl Mp4FileMuxer {
    /// Whether the data of the last chunk of the last sample's track ends where the next
    /// sample's data must start (so that a sample joining that chunk lies right after it).
    pub open spec fn spec_contiguous(&self) -> bool {
        self.spec_last_kind() matches Some(k) ==> self.spec_chunks(k).len() > 0 && chunks_end(
            self.spec_chunks(k),
        ) == self.spec_next_position()
    }
}

/// A sample that `append_sample` records lies where its data was appended: the chunks of its
/// track put it at its data offset, after the samples of the track recorded before, whether it
/// joins the track's last chunk or starts a new one; and the muxer stays contiguous. A sample
/// that follows a sample of the other track (or none) starts a new chunk; one that follows a
/// sample of its own track, with no entry or the entry of that track's last chunk, joins it. (A sample
/// of more than 2^32 - 1 bytes is recorded with its size modulo 2^32, so the law leaves it out.)
pub proof fn lemma_append_places_sample(d: Mp4FileMuxer, e: Mp4FileMuxer, sample: Sample)
    requires
        d.wf(),
        d.spec_contiguous(),
        sample.data_offset == d.spec_next_position(),
        sample.data_size <= u32::MAX,
        appended(d, e, sample),
    ensures
        flat_positions(e.spec_chunks(sample.track_kind)) == flat_positions(
            d.spec_chunks(sample.track_kind),
        ).push(sample.data_offset as int),
        e.spec_contiguous(),
        d.spec_last_kind() != Some(sample.track_kind) ==> e.spec_chunks(sample.track_kind).len()
            == d.spec_chunks(sample.track_kind).len() + 1,
        d.spec_last_kind() == Some(sample.track_kind) && (sample.sample_entry matches Some(x)
            ==> same_sample_entry(d.spec_chunks(sample.track_kind).last().sample_entry, x))
            ==> e.spec_chunks(sample.track_kind).len() == d.spec_chunks(sample.track_kind).len(),
{
    let k = sample.track_kind;
    let cs = d.spec_chunks(k);
    let ds = e.spec_chunks(k);
    let m = SampleMetadata {
        duration: sample.duration,
        keyframe: sample.keyframe,
        size: sample.data_size as u32,
    };
    assert(m.size == sample.data_size);
    if d.spec_new_chunk_needed(sample) {
        assert(ds.drop_last() =~= cs);
        lemma_chunk_positions_single(ds.last(), m);
        assert(flat_positions(ds) =~= flat_positions(cs).push(sample.data_offset as int));
    } else {
        assert(d.spec_last_kind() == Some(k));
        assert(ds.drop_last() =~= cs.drop_last());
        lemma_chunk_positions_push(cs.last(), ds.last(), m);
        assert(flat_positions(ds) =~= flat_positions(cs).push(sample.data_offset as int));
        lemma_samples_size_push(cs.last().samples@, m);
    }
}

proof fn lemma_samples_size_push(s: Seq<SampleMetadata>, m: SampleMetadata)
    ensures
        samples_size(s.push(m)) == samples_size(s) + m.size,
{
    assert(s.push(m).drop_last() =~= s);
}

/// Adds a sample to the last chunk of a track, or to a new chunk.
pub(crate) fn push_sample(chunks: &mut Vec<Chunk>, new_chunk: Option<Chunk>, m: SampleMetadata)
    requires
        new_chunk matches Some(c) ==> c.samples@.len() == 0,
        new_chunk is None ==> old(chunks)@.len() > 0,
    ensures
        match new_chunk {
            Some(c) => {
                &&& final(chunks)@.len() == old(chunks)@.len() + 1
                &&& forall|i: int| 0 <= i < old(chunks)@.len() ==> #[trigger] final(chunks)@[i] == old(chunks)@[i]
                &&& final(chunks)@.last().offset == c.offset
                &&& final(chunks)@.last().sample_entry == c.sample_entry
                &&& final(chunks)@.last().samples@ == seq![m]
            },
            None => {
                &&& final(chunks)@.len() == old(chunks)@.len()
                &&& forall|i: int| 0 <= i < old(chunks)@.len() - 1 ==> #[trigger] final(chunks)@[i] == old(chunks)@[i]
                &&& final(chunks)@.last().offset == old(chunks)@.last().offset
                &&& final(chunks)@.last().sample_entry == old(chunks)@.last().sample_entry
                &&& final(chunks)@.last().samples@ == old(chunks)@.last().samples@.push(m)
            },
        },
{
    match new_chunk {
        Some(c) => {
            let mut c = c;
            c.samples.push(m);
            assert(c.samples@ =~= seq![m]);
            chunks.push(c);
        },
        None => {
            let last = chunks.len() - 1;
            let mut c = chunks.remove(last);
            c.samples.push(m);
            chunks.push(c);
        },
    }
}


/// Whether `t` is the track built from the chunks `cs` of a track of kind `kind`.
pub open spec fn trak_built(
    t: TrakBox,
    kind: TrackKind,
    track_id: u32,
    cs: Seq<Chunk>,
    timescale: NonZeroU32,
    large: bool,
    creation_secs: u64,
) -> bool {
    let duration = sum_durations(flat_samples(cs));
    &&& t.tkhd_box.track_id == track_id
    &&& t.tkhd_box.duration == duration
    &&& t.tkhd_box.flag_track_enabled && t.tkhd_box.flag_track_in_movie
    &&& !t.tkhd_box.flag_track_in_preview && !t.tkhd_box.flag_track_size_is_aspect_ratio
    &&& t.tkhd_box.creation_time.spec_secs() == creation_secs
    &&& t.tkhd_box.modification_time.spec_secs() == creation_secs
    &&& t.edts_box is None
    &&& t.mdia_box.mdhd_box.timescale == timescale
    &&& t.mdia_box.mdhd_box.duration == duration
    &&& t.mdia_box.mdhd_box.language@ == seq![0x75u8, 0x6eu8, 0x64u8]
    &&& t.mdia_box.hdlr_box.handler_type@ == match kind {
        TrackKind::Audio => seq![0x73u8, 0x6fu8, 0x75u8, 0x6eu8],
        TrackKind::Video => seq![0x76u8, 0x69u8, 0x64u8, 0x65u8],
    }
    &&& match kind {
        TrackKind::Audio => t.mdia_box.minf_box.smhd_or_vmhd_box matches Some(Either::A(_)),
        TrackKind::Video => t.mdia_box.minf_box.smhd_or_vmhd_box matches Some(Either::B(_)),
    }
    &&& stbl_built(t.mdia_box.minf_box.stbl_box, cs, large)
}

/// The duration of the longest track of `d` in microseconds.
pub open spec fn movie_micros(d: Mp4FileMuxer) -> nat {
    let a = micros(
        sum_durations(flat_samples(d.spec_chunks(TrackKind::Audio))),
        d.spec_timescale(TrackKind::Audio).spec_get() as nat,
    );
    let v = micros(
        sum_durations(flat_samples(d.spec_chunks(TrackKind::Video))),
        d.spec_timescale(TrackKind::Video).spec_get() as nat,
    );
    if a >= v {
        a
    } else {
        v
    }
}

/// Whether `m` is the `moov` box built from the tracks of `d`: an audio track (when it has
/// samples), then a video track (when it has samples), and a movie header in microseconds.
#[verifier::opaque]
pub open spec fn moov_built(m: MoovBox, d: Mp4FileMuxer) -> bool {
    let a = d.spec_chunks(TrackKind::Audio);
    let v = d.spec_chunks(TrackKind::Video);
    let large = d.spec_next_position() > u32::MAX;
    let creation = (d.spec_options().creation_timestamp + unix_epoch_offset()) as u64;
    let n = (if a.len() > 0 {
        1int
    } else {
        0
    }) + (if v.len() > 0 {
        1int
    } else {
        0
    });
    &&& m.trak_boxes@.len() == n
    &&& a.len() > 0 ==> trak_built(
        m.trak_boxes@[0],
        TrackKind::Audio,
        1,
        a,
        d.spec_timescale(TrackKind::Audio),
        large,
        creation,
    )
    &&& v.len() > 0 ==> trak_built(
        m.trak_boxes@[n - 1],
        TrackKind::Video,
        n as u32,
        v,
        d.spec_timescale(TrackKind::Video),
        large,
        creation,
    )
    &&& m.mvhd_box.timescale.spec_get() == 1_000_000
    &&& m.mvhd_box.duration == movie_micros(d) as u64
    &&& m.mvhd_box.next_track_id == n + 1
    &&& m.mvhd_box.creation_time.spec_secs() == creation
    &&& m.mvhd_box.modification_time.spec_secs() == creation
    &&& m.mvex_box is None
    &&& m.unknown_boxes@.len() == 0
}

/// The number of samples of a list of chunks, when it fits 32 bits.
pub(crate) fn count_samples(chunks: &[Chunk]) -> (r: Option<u32>)
    ensures
        r is Some <==> flat_samples(chunks@).len() <= u32::MAX,
        r matches Some(n) ==> n == flat_samples(chunks@).len(),
{
    let ghost cs = chunks@;
    let mut n: u64 = 0;
    let mut i: usize = 0;
    while i < chunks.len()
        invariant
            cs == chunks@,
            i <= cs.len(),
            n == flat_samples(cs.subrange(0, i as int)).len(),
            n <= u32::MAX,
        decreases cs.len() - i,
    {
        proof {
            lemma_flat_step(cs, i + 1);
            lemma_flat_prefix(cs, i + 1);
        }
        let k = chunks[i].samples.len();
        if k as u64 > 0xffff_ffff - n {
            return None;
        }
        n = n + k as u64;
        i += 1;
    }
    assert(cs.subrange(0, i as int) =~= cs);
    Some(n as u32)
}

/// A sum of durations of samples is at most their number times the largest duration.
proof fn lemma_sum_durations_bound(f: Seq<SampleMetadata>)
    ensures
        sum_durations(f) <= f.len() * 0xffff_ffff,
    decreases f.len(),
{
    if f.len() > 0 {
        lemma_sum_durations_bound(f.drop_last());
    }
}

/// The total duration of the samples of a list of chunks.
pub(crate) fn total_duration(chunks: &[Chunk]) -> (r: u64)
    requires
        flat_samples(chunks@).len() <= u32::MAX,
    ensures
        r == sum_durations(flat_samples(chunks@)),
{
    let ghost cs = chunks@;
    let mut total: u64 = 0;
    let mut i: usize = 0;
    while i < chunks.len()
        invariant
            cs == chunks@,
            i <= cs.len(),
            flat_samples(cs).len() <= u32::MAX,
            total == sum_durations(flat_samples(cs.subrange(0, i as int))),
        decreases cs.len() - i,
    {
        let ghost before = flat_samples(cs.subrange(0, i as int));
        proof {
            lemma_flat_step(cs, i + 1);
            lemma_flat_prefix(cs, i + 1);
            assert(before + cs[i as int].samples@.subrange(0, 0) =~= before);
        }
        let c = &chunks[i];
        let mut j: usize = 0;
        while j < c.samples.len()
            invariant
                *c == cs[i as int],
                before.len() + c.samples@.len() <= u32::MAX,
                j <= c.samples@.len(),
                total == sum_durations(before + c.samples@.subrange(0, j as int)),
            decreases c.samples@.len() - j,
        {
            let ghost fl = before + c.samples@.subrange(0, j as int);
            let ghost fl2 = before + c.samples@.subrange(0, j + 1);
            assert(fl2.drop_last() =~= fl);
            proof {
                lemma_sum_durations_bound(fl);
                assert(fl.len() * 0xffff_ffff + 0xffff_ffff <= 0xffff_ffff * 0xffff_ffff + 0xffff_ffff)
                    by (nonlinear_arith)
                    requires
                        fl.len() + 1 <= 0xffff_ffff,
                ;
            }
            total = total + c.samples[j].duration as u64;
            j += 1;
        }
        assert(c.samples@.subrange(0, j as int) =~= c.samples@);
        i += 1;
    }
    assert(cs.subrange(0, i as int) =~= cs);
    total
}

/// The largest width and height of the video sample entries of a list of chunks.
pub(crate) fn max_resolution(chunks: &[Chunk]) -> (r: (u16, u16)) {
    let mut w: u16 = 0;
    let mut h: u16 = 0;
    let mut i: usize = 0;
    while i < chunks.len()
        invariant
            i <= chunks@.len(),
        decreases chunks@.len() - i,
    {
        match chunks[i].sample_entry.video_resolution() {
            Some((a, b)) => {
                if a > w {
                    w = a;
                }
                if b > h {
                    h = b;
                }
            },
            None => {},
        }
        i += 1;
    }
    (w, h)
}

/// Builds the track of the given kind from its chunks.
pub(crate) fn build_track_box(
    kind: TrackKind,
    track_id: u32,
    chunks: &[Chunk],
    timescale: NonZeroU32,
    creation_time: Mp4FileTime,
    large: bool,
) -> (r: TrakBox)
    requires
        flat_samples(chunks@).len() <= u32::MAX,
        chunks@.len() <= u32::MAX,
    ensures
        trak_built(r, kind, track_id, chunks@, timescale, large, creation_time.spec_secs()),
{
    let duration = total_duration(chunks);
    let (volume, width, height) = match kind {
        TrackKind::Audio => (
            TkhdBox::DEFAULT_AUDIO_VOLUME(),
            FixedPointNumber::new(0i16, 0u16),
            FixedPointNumber::new(0i16, 0u16),
        ),
        TrackKind::Video => {
            let (w, h) = max_resolution(chunks);
            (
                TkhdBox::DEFAULT_VIDEO_VOLUME(),
                FixedPointNumber::new(#[verifier::truncate] (w as i16), 0u16),
                FixedPointNumber::new(#[verifier::truncate] (h as i16), 0u16),
            )
        },
    };
    let tkhd_box = TkhdBox {
        flag_track_enabled: true,
        flag_track_in_movie: true,
        flag_track_in_preview: false,
        flag_track_size_is_aspect_ratio: false,
        creation_time,
        modification_time: creation_time,
        track_id,
        duration,
        layer: TkhdBox::DEFAULT_LAYER(),
        alternate_group: TkhdBox::DEFAULT_ALTERNATE_GROUP(),
        volume,
        matrix: TkhdBox::DEFAULT_MATRIX(),
        width,
        height,
    };
    let mdhd_box = MdhdBox {
        creation_time,
        modification_time: creation_time,
        timescale,
        duration,
        language: MdhdBox::LANGUAGE_UNDEFINED(),
    };
    let hdlr_box = HdlrBox {
        handler_type: match kind {
            TrackKind::Audio => HdlrBox::HANDLER_TYPE_SOUN(),
            TrackKind::Video => HdlrBox::HANDLER_TYPE_VIDE(),
        },
        name: Utf8String::EMPTY().into_null_terminated_bytes(),
    };
    let header = match kind {
        TrackKind::Audio => Either::A(SmhdBox { balance: SmhdBox::DEFAULT_BALANCE() }),
        TrackKind::Video => Either::B(
            VmhdBox {
                graphicsmode: VmhdBox::DEFAULT_GRAPHICSMODE(),
                opcolor: VmhdBox::DEFAULT_OPCOLOR(),
            },
        ),
    };
    let minf_box = MinfBox {
        smhd_or_vmhd_box: Some(header),
        dinf_box: DinfBox::LOCAL_FILE(),
        stbl_box: build_stbl_box(chunks, large),
        unknown_boxes: Vec::new(),
    };
    TrakBox {
        tkhd_box,
        edts_box: None,
        mdia_box: MdiaBox { mdhd_box, hdlr_box, minf_box, unknown_boxes: Vec::new() },
        unknown_boxes: Vec::new(),
    }
}

impl Mp4FileMuxer {
    /// Builds the track of the given kind.
    fn build_trak_box(
        &self,
        kind: TrackKind,
        track_id: u32,
        creation_time: Mp4FileTime,
        large: bool,
    ) -> (r: TrakBox)
        requires
            flat_samples(self.spec_chunks(kind)).len() <= u32::MAX,
            self.spec_chunks(kind).len() <= u32::MAX,
        ensures
            trak_built(
                r,
                kind,
                track_id,
                self.spec_chunks(kind),
                self.spec_timescale(kind),
                large,
                creation_time.spec_secs(),
            ),
    {
        let (chunks, timescale) = match kind {
            TrackKind::Audio => (&self.audio_chunks, self.audio_track_timescale),
            TrackKind::Video => (&self.video_chunks, self.video_track_timescale),
        };
        build_track_box(kind, track_id, chunks.as_slice(), timescale, creation_time, large)
    }

    /// Builds the `moov` box.
    ///
    /// Fails with [`MuxError::EncodeError`] when a track has more than 2^32 - 1 samples or the
    /// creation time does not fit the file's 64-bit times.
    fn build_moov_box(&self) -> (r: Result<MoovBox, MuxError>)
        requires
            self.wf(),
        ensures
            r is Ok <==> flat_samples(self.spec_chunks(TrackKind::Audio)).len() <= u32::MAX
                && flat_samples(self.spec_chunks(TrackKind::Video)).len() <= u32::MAX
                && self.spec_options().creation_timestamp + unix_epoch_offset() <= u64::MAX,
            r matches Ok(m) ==> moov_built(m, *self),
            r matches Err(e) ==> e matches MuxError::EncodeError(x) && x.kind == ErrorKind::InvalidInput,
    {
        let audio_count = count_samples(self.audio_chunks.as_slice());
        let video_count = count_samples(self.video_chunks.as_slice());
        if audio_count.is_none() || video_count.is_none() {
            return Err(MuxError::EncodeError(Error::invalid_input("too many samples in a track")));
        }
        if self.options.creation_timestamp > 0xffff_ffff_ffff_ffff - 2082844800 {
            return Err(MuxError::EncodeError(Error::invalid_input("creation time out of range")));
        }
        proof {
            lemma_chunks_bound(self.audio_chunks@);
            lemma_chunks_bound(self.video_chunks@);
        }
        let creation_time = Mp4FileTime::from_unix_time(self.options.creation_timestamp);
        let large = self.next_position > 0xffff_ffff;
        let mut trak_boxes: Vec<TrakBox> = Vec::new();
        if self.audio_chunks.len() > 0 {
            trak_boxes.push(self.build_trak_box(TrackKind::Audio, 1, creation_time, large));
        }
        if self.video_chunks.len() > 0 {
            let track_id = trak_boxes.len() as u32 + 1;
            trak_boxes.push(self.build_trak_box(TrackKind::Video, track_id, creation_time, large));
        }
        let audio_total = total_duration(self.audio_chunks.as_slice());
        let video_total = total_duration(self.video_chunks.as_slice());
        let a: u128 = (audio_total as u128) * 1_000_000 / (self.audio_track_timescale.get() as u128);
        let v: u128 = (video_total as u128) * 1_000_000 / (self.video_track_timescale.get() as u128);
        let longest: u128 = if a >= v {
            a
        } else {
            v
        };
        let mvhd_box = MvhdBox {
            creation_time,
            modification_time: creation_time,
            timescale: NonZeroU32::MIN().saturating_add(1_000_000 - 1),
            duration: #[verifier::truncate] (longest as u64),
            rate: MvhdBox::DEFAULT_RATE(),
            volume: MvhdBox::DEFAULT_VOLUME(),
            matrix: MvhdBox::DEFAULT_MATRIX(),
            next_track_id: trak_boxes.len() as u32 + 1,
        };
        let m = MoovBox { mvhd_box, trak_boxes, mvex_box: None, unknown_boxes: Vec::new() };
        assert(moov_built(m, *self)) by {
            reveal(moov_built);
        }
        Ok(m)
    }
}

/// Chunks that each have a sample are no more than the samples.
pub(crate) proof fn lemma_chunks_bound(cs: Seq<Chunk>)
    requires
        forall|i: int| 0 <= i < cs.len() ==> (#[trigger] cs[i]).samples@.len() > 0,
    ensures
        cs.len() <= flat_samples(cs).len(),
    decreases cs.len(),
{
    if cs.len() > 0 {
        lemma_chunks_bound(cs.drop_last());
    }
}


/// Whether `f` finishes the file of `d`: the `moov` box built from its tracks goes into the
/// room kept for it when it fits (followed by a `free` box header for the rest of the room),
/// else at the end of the file; and the `mdat` box header gets its size.
pub open spec fn finalized_from(f: FinalizedBoxes, d: Mp4FileMuxer) -> bool {
    let moov = encoded_moov(f.spec_moov_box());
    let reserved = d.spec_options().reserved_moov_box_size;
    let fits = reserved >= moov.len();
    let slack = reserved - moov.len();
    &&& moov_built(f.spec_moov_box(), d)
    &&& f.spec_moov_box_size() == moov.len()
    &&& f.spec_moov_box_offset() == if fits {
        d.spec_free_box_offset()
    } else {
        d.spec_next_position()
    }
    &&& f.spec_moov_box_bytes() == moov + if fits && slack > 0 {
        BoxHeader::new_spec(
            FreeBox::spec_type(),
            BoxSize::spec_with_payload_size(FreeBox::spec_type(), slack as u64),
        ).spec_encoding()
    } else {
        Seq::empty()
    }
    &&& f.spec_mdat_box_offset() == d.spec_mdat_box_offset()
    &&& f.spec_mdat_box_header_bytes() == BoxHeader::new_spec(
        MdatBox::spec_type(),
        BoxSize::U64((d.spec_next_position() - d.spec_mdat_box_offset()) as u64),
    ).spec_encoding()
}

/// The bytes of a `moov` box.
#[verifier::opaque]
pub open spec fn encoded_moov(m: MoovBox) -> Seq<u8> {
    m.spec_encoding()
}

/// Encodes a `moov` box.
pub(crate) fn encode_moov(m: &MoovBox) -> (r: Result<Vec<u8>, Error>)
    ensures
        r matches Ok(v) ==> v@ == encoded_moov(*m),
        r matches Err(e) ==> e.kind == ErrorKind::InvalidInput,
{
    reveal(encoded_moov);
    m.encode_to_vec()
}

impl Mp4FileMuxer {
    /// Ends the muxing: builds the `moov` box from the recorded samples and returns the boxes
    /// that the caller writes to finish the file.
    ///
    /// Fails with [`MuxError::AlreadyFinalized`] when called again; with
    /// [`MuxError::EncodeError`] when the `moov` box cannot be built or encoded (a track of more
    /// than 2^32 - 1 samples, a creation time out of range, a box too large).
    #[verifier::rlimit(40)]
    pub fn finalize(&mut self) -> (r: Result<&FinalizedBoxes, MuxError>)
        requires
            old(self).wf(),
        ensures
            final(self).wf(),
            old(self).spec_finalized() is Some ==> (r matches Err(MuxError::AlreadyFinalized)
                && *final(self) == *old(self)),
            old(self).spec_finalized() is None ==> match r {
                Ok(f) => final(self).spec_finalized() == Some(*f) && finalized_from(*f, *old(self)),
                Err(e) => e is EncodeError && *final(self) == *old(self),
            },
    {
        if self.finalized_boxes.is_some() {
            return Err(MuxError::AlreadyFinalized);
        }
        let moov_box = self.build_moov_box()?;
        let mut moov_box_bytes = match encode_moov(&moov_box) {
            Ok(b) => b,
            Err(e) => {
                return Err(MuxError::EncodeError(e));
            },
        };
        let ghost moov = moov_box_bytes@;
        let moov_box_size = moov_box_bytes.len();
        let reserved = self.options.reserved_moov_box_size;
        let moov_box_offset = if reserved >= moov_box_bytes.len() {
            let slack = reserved - moov_box_bytes.len();
            if slack > 0 {
                let size = BoxSize::with_payload_size(FreeBox::TYPE(), slack as u64);
                let header = BoxHeader::new(FreeBox::TYPE(), size);
                let _ = header.encode_into(&mut moov_box_bytes);
            }
            self.free_box_offset
        } else {
            self.next_position
        };
        let mdat_size = self.next_position - self.mdat_box_offset;
        let mut mdat_box_header_bytes: Vec<u8> = Vec::new();
        let _ = BoxHeader::new(MdatBox::TYPE(), BoxSize::U64(mdat_size)).encode_into(
            &mut mdat_box_header_bytes,
        );
        assert(moov_box_bytes@ =~= moov + if reserved >= moov.len() && reserved - moov.len() > 0 {
            BoxHeader::new_spec(
                FreeBox::spec_type(),
                BoxSize::spec_with_payload_size(FreeBox::spec_type(), (reserved - moov.len()) as u64),
            ).spec_encoding()
        } else {
            Seq::empty()
        });
        self.finalized_boxes = Some(
            FinalizedBoxes {
                moov_box_offset,
                moov_box_bytes,
                moov_box_size,
                mdat_box_offset: self.mdat_box_offset,
                mdat_box_header_bytes,
                moov_box,
            },
        );
        match &self.finalized_boxes {
            Some(f) => Ok(f),
            None => Err(MuxError::AlreadyFinalized),
        }
    }
}

} // verus!
