//! Building a file that stays readable while it is written: samples go out in fragments
//! (`moof` and `mdat` boxes), and at the end the `mdat` header and a `moov` box that
//! describes all the samples turn it into an ordinary file. It does no I/O itself: the caller
//! writes each output at its offset.
use crate::basic_types::{
    BoxHeader, BoxSize, Either, Mp4FileTime, NonZeroU32, SampleFlags, unix_epoch_offset,
};
use crate::boxes::{
    same_sample_entry, Brand, FreeBox, FtypBox, MdatBox, MfhdBox, MoofBox, MoovBox, MvexBox,
    MvhdBox, SampleEntry, TfdtBox, TfhdBox, TrafBox, TrakBox, TrexBox, TrunBox, TrunSample,
};
use crate::codec::{be_u32, Encode, Error, ErrorKind};
use crate::demux::TrackKind;
use crate::mux::{
    encoded_moov, build_track_box, count_samples, find_entry, flat_samples, lemma_chunks_bound, push_sample,
    chunks_end, flat_positions, lemma_positions_push,
    sum_durations, trak_built, Chunk, MuxError, SampleMetadata,
};
use vstd::prelude::*;

verus! {

/// The default length of a fragment: two seconds, in nanoseconds.
pub open spec fn default_fragment_duration() -> u64 {
    2_000_000_000
}

/// The options of a [`Mp4HybridFileMuxer`].
#[derive(Debug, Clone)]
pub struct Mp4HybridFileMuxerOptions {
    /// The room, in bytes, kept after the `ftyp` box for the `moov` box (in a `free` box):
    /// while it fits, a `moov` box of the samples written so far is kept there.
    pub reserved_moov_box_size: usize,
    /// The creation time written in the file, in seconds since the UNIX epoch.
    pub creation_timestamp: u64,
    /// The length of a fragment, in nanoseconds (`None`: two seconds).
    pub fragment_duration: Option<u64>,
}

impl Default for Mp4HybridFileMuxerOptions {
    fn default() -> (r: Self)
        ensures
            r.reserved_moov_box_size == 0,
            r.creation_timestamp == 0,
            r.fragment_duration == Some(default_fragment_duration()),
    {
        Self {
            reserved_moov_box_size: 0,
            creation_timestamp: 0,
            fragment_duration: Some(2_000_000_000),
        }
    }
}

/// A sample for a [`Mp4HybridFileMuxer`].
#[derive(Debug, Clone)]
pub struct Mp4HybridSample {
    /// The kind of the sample's track.
    pub track_kind: TrackKind,
    /// The sample entry of the sample: needed for the first sample of a track; when absent,
    /// that of the sample before is kept.
    pub sample_entry: Option<SampleEntry>,
    /// Whether the sample is a key frame.
    pub keyframe: bool,
    /// The number of units of the track's time per second: the first sample of a track sets it.
    pub timescale: NonZeroU32,
    /// The duration of the sample, in units of `timescale`.
    pub duration: u32,
    /// The size of the sample's data in bytes.
    pub data_size: usize,
}

/// Bytes to write at an offset of the file.
#[derive(Debug, Clone)]
struct Output {
    offset: u64,
    bytes: Vec<u8>,
}

/// A sample of the current fragment.
#[derive(Debug, Clone)]
struct PendingSample {
    track_kind: TrackKind,
    sample_entry: SampleEntry,
    duration: u32,
    keyframe: bool,
    size: u32,
}

/// The length of a sample in nanoseconds, rounded down.
pub open spec fn sample_nanos(duration: u32, timescale: NonZeroU32) -> int {
    duration * 1_000_000_000 / (timescale.spec_get() as int)
}

/// Returns the length of a sample in nanoseconds, rounded down.
fn sample_duration_nanos(duration: u32, timescale: NonZeroU32) -> (r: u128)
    ensures
        r == sample_nanos(duration, timescale),
        r <= 0xffff_ffff * 1_000_000_000,
{
    let ts = timescale.get();
    assert((duration as int) * 1_000_000_000 <= 0xffff_ffff * 1_000_000_000) by (nonlinear_arith)
        requires
            duration <= 0xffff_ffff,
    ;
    let n: u128 = (duration as u128) * 1_000_000_000;
    let d: u128 = ts as u128;
    let r = n / d;
    assert(r <= n) by (nonlinear_arith)
        requires
            r == n / d,
            d >= 1,
    ;
    r
}

/// The largest length of a fragment that is kept, in nanoseconds (past it, lengths no longer
/// grow; it is over 10^30 years).
pub open spec fn elapsed_cap() -> u128 {
    0x4000_0000_0000_0000_0000_0000_0000_0000
}

/// The flags of a sample of a fragment: padding 7, and not a sync sample unless a key frame.
pub open spec fn fragment_flags_value(keyframe: bool) -> u32 {
    if keyframe {
        0xe_0000
    } else {
        0xf_0000
    }
}

/// Returns the flags of a sample of a fragment.
fn trun_sample_flags(keyframe: bool) -> (r: SampleFlags)
    ensures
        r.spec_get() == fragment_flags_value(keyframe),
{
    let non_sync: u32 = if keyframe {
        0
    } else {
        1
    };
    let padding: u32 = 7u32 << 17u32;
    let v = padding | (non_sync << 16u32);
    assert(v == (if keyframe {
        0xe_0000u32
    } else {
        0xf_0000u32
    })) by (bit_vector)
        requires
            padding == 7u32 << 17u32,
            v == padding | (non_sync << 16u32),
            non_sync == (if keyframe {
                0u32
            } else {
                1u32
            }),
    ;
    SampleFlags::new(v)
}

/// The `ftyp` box of the files the hybrid muxer builds: major brand `isom`, minor version 0,
/// compatible brands `isom`, `iso2`, `mp41`, `avc1`, `av01` and `iso6`.
fn build_hybrid_ftyp() -> (r: FtypBox)
    ensures
        r.major_brand.spec_bytes() == seq![0x69u8, 0x73u8, 0x6fu8, 0x6du8],
        r.minor_version == 0,
        r.compatible_brands@.len() == 6,
        r.compatible_brands@[0].spec_bytes() == seq![0x69u8, 0x73u8, 0x6fu8, 0x6du8],
        r.compatible_brands@[1].spec_bytes() == seq![0x69u8, 0x73u8, 0x6fu8, 0x32u8],
        r.compatible_brands@[2].spec_bytes() == seq![0x6du8, 0x70u8, 0x34u8, 0x31u8],
        r.compatible_brands@[3].spec_bytes() == seq![0x61u8, 0x76u8, 0x63u8, 0x31u8],
        r.compatible_brands@[4].spec_bytes() == seq![0x61u8, 0x76u8, 0x30u8, 0x31u8],
        r.compatible_brands@[5].spec_bytes() == seq![0x69u8, 0x73u8, 0x6fu8, 0x36u8],
{
    let mut brands: Vec<Brand> = Vec::new();
    brands.push(Brand::ISOM());
    brands.push(Brand::ISO2());
    brands.push(Brand::MP41());
    brands.push(Brand::AVC1());
    brands.push(Brand::AV01());
    brands.push(Brand::ISO6());
    FtypBox { major_brand: Brand::ISOM(), minor_version: 0, compatible_brands: brands }
}

/// The payload of the `ftyp` box of the files the hybrid muxer builds.
pub open spec fn hybrid_ftyp_payload() -> Seq<u8> {
    crate::mux::default_ftyp_payload() + seq![0x69u8, 0x73, 0x6f, 0x36]
}

/// The `free` box that keeps `n` bytes of room.
pub open spec fn free_box_bytes(n: nat) -> Seq<u8> {
    crate::boxes::spec_raw_box_bytes(FreeBox::spec_type(), Seq::new(n, |_i: int| 0u8))
}

/// The outputs of a new muxer: the `ftyp` box at 0, then the `free` box that keeps the room
/// for the `moov` box, when there is room to keep.
pub open spec fn initial_outputs(reserved: nat) -> Seq<(u64, Seq<u8>)> {
    let ftyp = crate::boxes::spec_box_bytes(FtypBox::spec_type().spec_bytes(), hybrid_ftyp_payload());
    seq![(0u64, ftyp)] + if reserved > 0 {
        seq![(ftyp.len() as u64, free_box_bytes(reserved))]
    } else {
        Seq::empty()
    }
}

/// The metadata of a sample of a fragment.
spec fn pending_meta(p: PendingSample) -> (TrackKind, SampleMetadata) {
    (p.track_kind, SampleMetadata { duration: p.duration, keyframe: p.keyframe, size: p.size })
}

/// Builds a file that stays readable while it is written: the caller writes each output that
/// [`Mp4HybridFileMuxer::next_output()`] hands out at its offset, and the data of each sample
/// after the outputs before it.
///
/// The samples of each fragment are described by a `moof` box; at the end, the `mdat` box
/// header and a `moov` box describe them all. While the `moov` box of the samples so far fits
/// the room kept for it, it is written there too, so that the file is readable as an ordinary
/// file at any time.
#[derive(Debug)]
pub struct Mp4HybridFileMuxer {
    options: Mp4HybridFileMuxerOptions,
    outputs: Vec<Output>,
    next_output_index: usize,
    file_size: u64,
    ftyp_box_end_offset: u64,
    moov_box_end_offset: u64,
    next_sequence_number: u32,
    next_track_id: u32,
    last_moov_bytes: Option<Vec<u8>>,
    last_sample_kind: Option<TrackKind>,
    audio_chunks: Vec<Chunk>,
    video_chunks: Vec<Chunk>,
    audio_sample_entries: Vec<SampleEntry>,
    video_sample_entries: Vec<SampleEntry>,
    audio_track_id: Option<u32>,
    video_track_id: Option<u32>,
    audio_track_timescale: Option<NonZeroU32>,
    video_track_timescale: Option<NonZeroU32>,
    audio_decode_time: u64,
    video_decode_time: u64,
    fragment_samples: Vec<PendingSample>,
    fragment_elapsed_audio: u128,
    fragment_elapsed_video: u128,
    fragment_pending_cut: bool,
    fragment_has_audio: bool,
    fragment_has_video: bool,
    fragment_base_decode_time_audio: Option<u64>,
    fragment_base_decode_time_video: Option<u64>,
    fragment_sample_entry_audio: Option<SampleEntry>,
    fragment_sample_entry_video: Option<SampleEntry>,
    fragment_sample_entry_index_audio: Option<u32>,
    fragment_sample_entry_index_video: Option<u32>,
    finalized: bool,
}

impl Mp4HybridFileMuxer {
    /// The options.
    pub closed spec fn spec_options(&self) -> Mp4HybridFileMuxerOptions {
        self.options
    }

    /// The outputs so far: offsets and bytes.
    pub closed spec fn spec_outputs(&self) -> Seq<(u64, Seq<u8>)> {
        self.outputs@.map_values(|o: Output| (o.offset, o.bytes@))
    }

    /// How many outputs were handed out.
    pub closed spec fn spec_next_output_index(&self) -> nat {
        self.next_output_index as nat
    }

    /// The size of the file: the outputs and sample data so far.
    pub closed spec fn spec_file_size(&self) -> u64 {
        self.file_size
    }

    /// Whether the muxer is finalized.
    pub closed spec fn spec_finalized(&self) -> bool {
        self.finalized
    }

    /// The track of the sample recorded last in the chunks.
    pub closed spec fn spec_last_kind(&self) -> Option<TrackKind> {
        self.last_sample_kind
    }

    /// The chunks of the samples of a track written in finished fragments.
    pub closed spec fn spec_chunks(&self, kind: TrackKind) -> Seq<Chunk> {
        match kind {
            TrackKind::Audio => self.audio_chunks@,
            TrackKind::Video => self.video_chunks@,
        }
    }

    /// The timescale of a track, once set.
    pub closed spec fn spec_timescale(&self, kind: TrackKind) -> Option<NonZeroU32> {
        match kind {
            TrackKind::Audio => self.audio_track_timescale,
            TrackKind::Video => self.video_track_timescale,
        }
    }

    /// The samples of the current fragment, with their tracks.
    pub closed spec fn spec_pending(&self) -> Seq<(TrackKind, SampleMetadata)> {
        self.fragment_samples@.map_values(|p: PendingSample| pending_meta(p))
    }

    /// The sequence number of the next fragment.
    pub closed spec fn spec_next_sequence_number(&self) -> u32 {
        self.next_sequence_number
    }

    /// The muxer's consistency.
    pub closed spec fn wf(&self) -> bool {
        &&& self.next_output_index <= self.outputs@.len()
        &&& self.ftyp_box_end_offset <= self.moov_box_end_offset <= self.file_size
        &&& self.moov_box_end_offset - self.ftyp_box_end_offset <= u32::MAX
        &&& self.options.reserved_moov_box_size <= u32::MAX - 8
        &&& self.options.reserved_moov_box_size > 0 ==> self.moov_box_end_offset - self.ftyp_box_end_offset
            == self.options.reserved_moov_box_size + 8
        &&& forall|i: int|
            0 <= i < self.audio_chunks@.len() ==> (#[trigger] self.audio_chunks@[i]).samples@.len() > 0
        &&& forall|i: int|
            0 <= i < self.video_chunks@.len() ==> (#[trigger] self.video_chunks@[i]).samples@.len() > 0
        &&& self.audio_chunks@.len() > 0 ==> self.audio_track_id is Some && self.audio_track_timescale is Some
        &&& self.video_chunks@.len() > 0 ==> self.video_track_id is Some && self.video_track_timescale is Some
        &&& self.fragment_has_audio ==> self.audio_track_id is Some
            && self.fragment_sample_entry_index_audio is Some
            && self.fragment_base_decode_time_audio is Some
        &&& self.fragment_has_video ==> self.video_track_id is Some
            && self.fragment_sample_entry_index_video is Some
            && self.fragment_base_decode_time_video is Some
        &&& forall|i: int|
            0 <= i < self.fragment_samples@.len() ==> match (#[trigger] self.fragment_samples@[i]).track_kind {
                TrackKind::Audio => self.fragment_has_audio && self.audio_track_timescale is Some,
                TrackKind::Video => self.fragment_has_video && self.video_track_timescale is Some,
            }
        &&& self.fragment_has_audio ==> self.fragment_sample_entry_audio is Some
        &&& self.fragment_has_video ==> self.fragment_sample_entry_video is Some
        &&& self.fragment_sample_entry_audio is Some ==> self.fragment_samples@.len() > 0
        &&& self.fragment_sample_entry_video is Some ==> self.fragment_samples@.len() > 0
        &&& self.fragment_elapsed_audio <= elapsed_cap()
        &&& self.fragment_elapsed_video <= elapsed_cap()
        &&& self.last_sample_kind == Some(TrackKind::Audio) ==> self.audio_chunks@.len() > 0
        &&& self.last_sample_kind == Some(TrackKind::Video) ==> self.video_chunks@.len() > 0
    }

    /// Creates a muxer with the default options.
    pub fn new() -> (r: Result<Self, MuxError>)
        ensures
            r matches Ok(m) ==> m.wf() && m.spec_outputs() == initial_outputs(0)
                && !m.spec_finalized(),
            r is Ok,
    {
        Self::with_options(Mp4HybridFileMuxerOptions::default())
    }

    /// Creates a muxer with the given options; the first outputs are the `ftyp` box and the
    /// `free` box that keeps the room for the `moov` box.
    ///
    /// Fails with [`MuxError::EncodeError`] when the room does not fit a box with a 32-bit
    /// size.
    pub fn with_options(options: Mp4HybridFileMuxerOptions) -> (r: Result<Self, MuxError>)
        ensures
            r is Ok <==> options.reserved_moov_box_size <= u32::MAX - 8,
            r matches Err(e) ==> e matches MuxError::EncodeError(x) && x.kind == ErrorKind::InvalidInput,
            r matches Ok(m) ==> {
                &&& m.wf()
                &&& m.spec_options() == options
                &&& !m.spec_finalized()
                &&& m.spec_next_output_index() == 0
                &&& m.spec_outputs() == initial_outputs(options.reserved_moov_box_size as nat)
                &&& m.spec_file_size() == m.spec_outputs().last().0 + m.spec_outputs().last().1.len()
                &&& m.spec_pending().len() == 0
                &&& m.spec_chunks(TrackKind::Audio).len() == 0
                &&& m.spec_chunks(TrackKind::Video).len() == 0
                &&& m.spec_timescale(TrackKind::Audio) is None
                &&& m.spec_timescale(TrackKind::Video) is None
                &&& m.spec_next_sequence_number() == 1
            },
    {
        if options.reserved_moov_box_size > 0xffff_ffff - 8 {
            return Err(
                MuxError::EncodeError(Error::invalid_input("reserved moov box size is too large")),
            );
        }
        let ftyp = build_hybrid_ftyp();
        proof {
            lemma_hybrid_ftyp(ftyp);
        }
        let ftyp_bytes = match ftyp.encode_to_vec() {
            Ok(b) => b,
            Err(e) => {
                return Err(MuxError::EncodeError(e));
            },
        };
        let mut outputs: Vec<Output> = Vec::new();
        let ftyp_len = ftyp_bytes.len() as u64;
        outputs.push(Output { offset: 0, bytes: ftyp_bytes });
        let mut file_size = ftyp_len;
        if options.reserved_moov_box_size > 0 {
            let mut payload: Vec<u8> = Vec::new();
            crate::codec::put_zeros(&mut payload, options.reserved_moov_box_size);
            let free_box = FreeBox { payload };
            let free_bytes = match free_box.encode_to_vec() {
                Ok(b) => b,
                Err(e) => {
                    return Err(MuxError::EncodeError(e));
                },
            };
            proof {
                crate::codec::lemma_be_u32(0);
                crate::codec::lemma_be_u64(0);
                assert(free_bytes@.len() <= 16 + options.reserved_moov_box_size);
            }
            let n = free_bytes.len() as u64;
            outputs.push(Output { offset: file_size, bytes: free_bytes });
            file_size = file_size + n;
        }
        let m = Self {
            options,
            outputs,
            next_output_index: 0,
            file_size,
            ftyp_box_end_offset: ftyp_len,
            moov_box_end_offset: file_size,
            next_sequence_number: 1,
            next_track_id: 1,
            last_moov_bytes: None,
            last_sample_kind: None,
            audio_chunks: Vec::new(),
            video_chunks: Vec::new(),
            audio_sample_entries: Vec::new(),
            video_sample_entries: Vec::new(),
            audio_track_id: None,
            video_track_id: None,
            audio_track_timescale: None,
            video_track_timescale: None,
            audio_decode_time: 0,
            video_decode_time: 0,
            fragment_samples: Vec::new(),
            fragment_elapsed_audio: 0,
            fragment_elapsed_video: 0,
            fragment_pending_cut: false,
            fragment_has_audio: false,
            fragment_has_video: false,
            fragment_base_decode_time_audio: None,
            fragment_base_decode_time_video: None,
            fragment_sample_entry_audio: None,
            fragment_sample_entry_video: None,
            fragment_sample_entry_index_audio: None,
            fragment_sample_entry_index_video: None,
            finalized: false,
        };
        assert(m.spec_outputs() =~= initial_outputs(options.reserved_moov_box_size as nat));
        Ok(m)
    }

    /// Returns the next output to write, in order: its offset and bytes.
    pub fn next_output(&mut self) -> (r: Option<(u64, &[u8])>)
        requires
            old(self).wf(),
        ensures
            final(self).wf(),
            old(self).spec_next_output_index() < old(self).spec_outputs().len() ==> {
                &&& r matches Some((o, b)) && o == old(self).spec_outputs()[old(self).spec_next_output_index() as int].0
                    && b@ == old(self).spec_outputs()[old(self).spec_next_output_index() as int].1
                &&& final(self).spec_next_output_index() == old(self).spec_next_output_index() + 1
            },
            old(self).spec_next_output_index() >= old(self).spec_outputs().len() ==> r is None
                && final(self).spec_next_output_index() == old(self).spec_next_output_index(),
            final(self).spec_outputs() == old(self).spec_outputs(),
    {
        let i = self.next_output_index;
        if i >= self.outputs.len() {
            return None;
        }
        self.next_output_index = i + 1;
        let o = &self.outputs[i];
        Some((o.offset, o.bytes.as_slice()))
    }
}

/// The samples of track `k` among `ps`, in order.
pub open spec fn pending_of_kind(ps: Seq<(TrackKind, SampleMetadata)>, k: TrackKind) -> Seq<SampleMetadata>
    decreases ps.len(),
{
    if ps.len() == 0 {
        Seq::empty()
    } else if ps.last().0 == k {
        pending_of_kind(ps.drop_last(), k).push(ps.last().1)
    } else {
        pending_of_kind(ps.drop_last(), k)
    }
}

/// Where the samples of track `k` among the fragment samples `ps` are written when the
/// fragment's data starts at `start`: each sample right after the one before it.
pub open spec fn written_positions(ps: Seq<(TrackKind, SampleMetadata)>, k: TrackKind, start: int) -> Seq<int>
    decreases ps.len(),
{
    if ps.len() == 0 {
        Seq::empty()
    } else if ps.last().0 == k {
        written_positions(ps.drop_last(), k, start).push(start + pending_bytes(ps.drop_last()))
    } else {
        written_positions(ps.drop_last(), k, start)
    }
}

/// Whether the first sample of the current fragment of `d` follows, in the recording of
/// samples, a sample of the other track (or none).
pub open spec fn fragment_opens(d: Mp4HybridFileMuxer) -> bool {
    d.spec_pending().len() > 0 ==> d.spec_last_kind() != Some(d.spec_pending()[0].0)
}

/// Whether the current fragment of `d` ends before `sample`: when the sample's entry differs
/// from the fragment's entry of its track; when the fragment is long enough (then, if it has
/// video, at a video key frame); or when a video key frame would make it long enough.
pub open spec fn spec_should_cut(d: Mp4HybridFileMuxer, sample: Mp4HybridSample) -> bool {
    d.should_cut_spec(sample)
}

impl Mp4HybridFileMuxer {
    /// See [`spec_should_cut`].
    pub closed spec fn should_cut_spec(self, sample: Mp4HybridSample) -> bool {
        let k = sample.track_kind;
        let current = match k {
            TrackKind::Audio => self.fragment_sample_entry_audio,
            TrackKind::Video => self.fragment_sample_entry_video,
        };
        let sd = sample_nanos(sample.duration, sample.timescale);
        let a = self.fragment_elapsed_audio + if k == TrackKind::Audio { sd } else { 0 };
        let v = self.fragment_elapsed_video + if k == TrackKind::Video { sd } else { 0 };
        let elapsed = if a >= v { a } else { v };
        if self.fragment_samples@.len() == 0 {
            false
        } else if sample.sample_entry matches Some(e) && current matches Some(c) && !same_sample_entry(c, e) {
            true
        } else if self.fragment_pending_cut {
            if self.fragment_has_video {
                k == TrackKind::Video && sample.keyframe
            } else {
                true
            }
        } else {
            self.fragment_has_video && k == TrackKind::Video && sample.keyframe && elapsed
                >= self.fragment_duration_spec()
        }
    }

    /// The length of a fragment in nanoseconds.
    pub closed spec fn fragment_duration_spec(self) -> int {
        match self.options.fragment_duration {
            Some(d) => d as int,
            None => default_fragment_duration() as int,
        }
    }

    fn fragment_duration(&self) -> (r: u128)
        ensures
            r == self.fragment_duration_spec(),
    {
        match self.options.fragment_duration {
            Some(d) => d as u128,
            None => 2_000_000_000,
        }
    }

    /// Whether the current fragment ends before `sample`.
    fn should_finalize_before_sample(&self, sample: &Mp4HybridSample) -> (r: bool)
        requires
            self.wf(),
        ensures
            r == self.should_cut_spec(*sample),
    {
        if self.fragment_samples.len() == 0 {
            return false;
        }
        match &sample.sample_entry {
            Some(entry) => {
                let current = match sample.track_kind {
                    TrackKind::Audio => &self.fragment_sample_entry_audio,
                    TrackKind::Video => &self.fragment_sample_entry_video,
                };
                match current {
                    Some(c) => {
                        if !c.is_same(entry) {
                            return true;
                        }
                    },
                    None => {},
                }
            },
            None => {},
        }
        if self.fragment_pending_cut {
            if self.fragment_has_video {
                return sample.track_kind == TrackKind::Video && sample.keyframe;
            }
            return true;
        }
        if self.fragment_has_video && sample.track_kind == TrackKind::Video && sample.keyframe {
            let sd = sample_duration_nanos(sample.duration, sample.timescale);
            let (a, v) = match sample.track_kind {
                TrackKind::Audio => (self.fragment_elapsed_audio + sd, self.fragment_elapsed_video),
                TrackKind::Video => (self.fragment_elapsed_audio, self.fragment_elapsed_video + sd),
            };
            let elapsed = if a >= v { a } else { v };
            return elapsed >= self.fragment_duration();
        }
        false
    }
}

/// A run of consecutive samples of one track in a fragment.
#[derive(Debug, Clone, Copy)]
struct FragmentRun {
    track_kind: TrackKind,
    payload_offset: u64,
    start: usize,
    end: usize,
}

/// The header of an `mdat` box with a payload of `size` bytes.
pub open spec fn hybrid_mdat_header(size: u64) -> Seq<u8> {
    BoxHeader::new_spec(
        MdatBox::spec_type(),
        BoxSize::spec_with_payload_size(MdatBox::spec_type(), size),
    ).spec_encoding()
}

/// Returns the header of an `mdat` box with a payload of `size` bytes.
///
/// Fails with [`MuxError::EncodeError`] when the size of the box does not fit 64 bits.
fn build_mdat_header(size: u64) -> (r: Result<Vec<u8>, MuxError>)
    ensures
        r is Ok <==> size <= u64::MAX - 32,
        r matches Ok(b) ==> b@ == hybrid_mdat_header(size) && b@.len() <= 16,
        r matches Err(e) ==> e matches MuxError::EncodeError(x) && x.kind == ErrorKind::InvalidInput,
{
    if size > u64::MAX - 32 {
        return Err(MuxError::EncodeError(Error::invalid_input("mdat box size is too large")));
    }
    let header = BoxHeader::new(MdatBox::TYPE(), BoxSize::with_payload_size(MdatBox::TYPE(), size));
    proof {
        crate::codec::lemma_be_u32(0);
        crate::codec::lemma_be_u64(0);
    }
    match header.encode_to_vec() {
        Ok(b) => Ok(b),
        Err(e) => Err(MuxError::EncodeError(e)),
    }
}

/// Whether the offsets of the chunks need 64 bits.
fn any_large_offset(chunks: &[Chunk]) -> (r: bool)
    ensures
        r == exists|i: int| 0 <= i < chunks@.len() && (#[trigger] chunks@[i]).offset > u32::MAX,
{
    let mut i: usize = 0;
    while i < chunks.len()
        invariant
            i <= chunks@.len(),
            forall|j: int| 0 <= j < i ==> (#[trigger] chunks@[j]).offset <= u32::MAX,
        decreases chunks@.len() - i,
    {
        if chunks[i].offset > 0xffff_ffff {
            return true;
        }
        i += 1;
    }
    false
}

impl Mp4HybridFileMuxer {
    /// Sets the timescale of a track on its first sample; fails with
    /// [`MuxError::TimescaleMismatch`] (changing nothing) when it differs from the track's.
    fn ensure_track_timescale(&mut self, kind: TrackKind, timescale: NonZeroU32) -> (r: Result<(), MuxError>)
        requires
            old(self).wf(),
        ensures
            final(self).wf(),
            r is Ok <==> (old(self).spec_timescale(kind) is None || old(self).spec_timescale(kind) == Some(timescale)),
            r is Ok ==> final(self).spec_timescale(kind) == Some(timescale),
            r is Err ==> *final(self) == *old(self),
            r matches Err(e) ==> e == (MuxError::TimescaleMismatch {
                track_kind: kind,
                expected: old(self).spec_timescale(kind)->Some_0,
                actual: timescale,
            }),
            final(self).spec_outputs() == old(self).spec_outputs(),
            final(self).spec_chunks(TrackKind::Audio) == old(self).spec_chunks(TrackKind::Audio),
            final(self).spec_chunks(TrackKind::Video) == old(self).spec_chunks(TrackKind::Video),
            final(self).spec_last_kind() == old(self).spec_last_kind(),
            final(self).spec_pending() == old(self).spec_pending(),
            final(self).spec_file_size() == old(self).spec_file_size(),
            final(self).spec_finalized() == old(self).spec_finalized(),
            final(self).spec_next_output_index() == old(self).spec_next_output_index(),
            final(self).spec_options() == old(self).spec_options(),
            final(self).should_cut_spec_unchanged(*old(self)),
            final(self).spec_next_sequence_number() == old(self).spec_next_sequence_number(),
            kind == TrackKind::Audio ==> final(self).spec_timescale(TrackKind::Video) == old(self).spec_timescale(TrackKind::Video),
            kind == TrackKind::Video ==> final(self).spec_timescale(TrackKind::Audio) == old(self).spec_timescale(TrackKind::Audio),
    {
        let existing = match kind {
            TrackKind::Audio => self.audio_track_timescale,
            TrackKind::Video => self.video_track_timescale,
        };
        match existing {
            Some(t) => {
                if t != timescale {
                    return Err(MuxError::TimescaleMismatch { track_kind: kind, expected: t, actual: timescale });
                }
                Ok(())
            },
            None => {
                match kind {
                    TrackKind::Audio => {
                        self.audio_track_timescale = Some(timescale);
                    },
                    TrackKind::Video => {
                        self.video_track_timescale = Some(timescale);
                    },
                }
                Ok(())
            },
        }
    }

    /// Whether the fields that decide the cut of a fragment are those of `d`.
    pub closed spec fn should_cut_spec_unchanged(self, d: Mp4HybridFileMuxer) -> bool {
        &&& self.fragment_samples@.len() == d.fragment_samples@.len()
        &&& self.fragment_sample_entry_audio == d.fragment_sample_entry_audio
        &&& self.fragment_sample_entry_video == d.fragment_sample_entry_video
        &&& self.fragment_pending_cut == d.fragment_pending_cut
        &&& self.fragment_has_video == d.fragment_has_video
        &&& self.fragment_has_audio == d.fragment_has_audio
        &&& self.fragment_elapsed_audio == d.fragment_elapsed_audio
        &&& self.fragment_elapsed_video == d.fragment_elapsed_video
        &&& self.options == d.options
    }

    /// Gives a track an id on its first sample.
    fn ensure_track_id(&mut self, kind: TrackKind)
        requires
            old(self).wf(),
        ensures
            final(self).wf(),
            match kind {
                TrackKind::Audio => final(self).audio_track_id is Some,
                TrackKind::Video => final(self).video_track_id is Some,
            },
            final(self).spec_outputs() == old(self).spec_outputs(),
            final(self).spec_chunks(TrackKind::Audio) == old(self).spec_chunks(TrackKind::Audio),
            final(self).spec_chunks(TrackKind::Video) == old(self).spec_chunks(TrackKind::Video),
            final(self).spec_last_kind() == old(self).spec_last_kind(),
            final(self).spec_pending() == old(self).spec_pending(),
            final(self).spec_file_size() == old(self).spec_file_size(),
            final(self).spec_finalized() == old(self).spec_finalized(),
            final(self).spec_next_output_index() == old(self).spec_next_output_index(),
            final(self).spec_options() == old(self).spec_options(),
            final(self).spec_timescale(TrackKind::Audio) == old(self).spec_timescale(TrackKind::Audio),
            final(self).spec_timescale(TrackKind::Video) == old(self).spec_timescale(TrackKind::Video),
            final(self).should_cut_spec_unchanged(*old(self)),
            final(self).spec_next_sequence_number() == old(self).spec_next_sequence_number(),
    {
        let missing = match kind {
            TrackKind::Audio => self.audio_track_id.is_none(),
            TrackKind::Video => self.video_track_id.is_none(),
        };
        if missing {
            let track_id = self.next_track_id;
            self.next_track_id = self.next_track_id.saturating_add(1);
            match kind {
                TrackKind::Audio => {
                    self.audio_track_id = Some(track_id);
                },
                TrackKind::Video => {
                    self.video_track_id = Some(track_id);
                },
            }
        }
    }

    /// The sample entry of a sample: its own, else that of the current fragment's samples of
    /// its track, else that of the track's last chunk.
    fn resolve_sample_entry(&self, sample: &Mp4HybridSample) -> (r: Result<SampleEntry, MuxError>)
        ensures
            r matches Ok(e) ==> match sample.sample_entry {
                Some(x) => same_sample_entry(e, x),
                None => true,
            },
            r is Err <==> sample.sample_entry is None && match sample.track_kind {
                TrackKind::Audio => self.fragment_sample_entry_audio is None && self.audio_chunks@.len() == 0,
                TrackKind::Video => self.fragment_sample_entry_video is None && self.video_chunks@.len() == 0,
            },
            r matches Err(e) ==> e == (MuxError::MissingSampleEntry { track_kind: sample.track_kind }),
    {
        match &sample.sample_entry {
            Some(e) => {
                return Ok(e.duplicate());
            },
            None => {},
        }
        let fragment_entry = match sample.track_kind {
            TrackKind::Audio => &self.fragment_sample_entry_audio,
            TrackKind::Video => &self.fragment_sample_entry_video,
        };
        match fragment_entry {
            Some(e) => {
                return Ok(e.duplicate());
            },
            None => {},
        }
        let chunks = match sample.track_kind {
            TrackKind::Audio => &self.audio_chunks,
            TrackKind::Video => &self.video_chunks,
        };
        if chunks.len() > 0 {
            return Ok(chunks[chunks.len() - 1].sample_entry.duplicate());
        }
        Err(MuxError::MissingSampleEntry { track_kind: sample.track_kind })
    }

    /// The position (from 1) of a sample entry among the track's entries, added when new.
    fn ensure_sample_entry_index(&mut self, kind: TrackKind, entry: &SampleEntry) -> (r: u32)
        requires
            old(self).wf(),
        ensures
            final(self).wf(),
            final(self).spec_outputs() == old(self).spec_outputs(),
            final(self).spec_chunks(TrackKind::Audio) == old(self).spec_chunks(TrackKind::Audio),
            final(self).spec_chunks(TrackKind::Video) == old(self).spec_chunks(TrackKind::Video),
            final(self).spec_pending() == old(self).spec_pending(),
            final(self).spec_file_size() == old(self).spec_file_size(),
            final(self).spec_finalized() == old(self).spec_finalized(),
            final(self).spec_next_output_index() == old(self).spec_next_output_index(),
            final(self).spec_options() == old(self).spec_options(),
            final(self).spec_timescale(TrackKind::Audio) == old(self).spec_timescale(TrackKind::Audio),
            final(self).spec_timescale(TrackKind::Video) == old(self).spec_timescale(TrackKind::Video),
            final(self).audio_track_id == old(self).audio_track_id,
            final(self).video_track_id == old(self).video_track_id,
            final(self).should_cut_spec_unchanged(*old(self)),
            final(self).spec_next_sequence_number() == old(self).spec_next_sequence_number(),
    {
        let entries = match kind {
            TrackKind::Audio => &self.audio_sample_entries,
            TrackKind::Video => &self.video_sample_entries,
        };
        match find_entry(entries, entry) {
            Some(k) => {
                let k32: u32 = #[verifier::truncate] (k as u32);
                return k32.wrapping_add(1);
            },
            None => {},
        }
        let n = entries.len();
        match kind {
            TrackKind::Audio => {
                self.audio_sample_entries.push(entry.duplicate());
            },
            TrackKind::Video => {
                self.video_sample_entries.push(entry.duplicate());
            },
        }
        let n32: u32 = #[verifier::truncate] (n as u32);
        n32.wrapping_add(1)
    }
}

/// The timescale and total duration for the movie header of the hybrid muxer: those of the
/// only track, or of the longer one (the audio track on a tie); 1 and 0 without tracks.
pub open spec fn movie_timescale_and_duration(
    a: nat,
    ta: Option<NonZeroU32>,
    has_a: bool,
    v: nat,
    tv: Option<NonZeroU32>,
    has_v: bool,
) -> (int, int) {
    if has_a && !has_v {
        (ta->Some_0.spec_get() as int, a as int)
    } else if !has_a && has_v {
        (tv->Some_0.spec_get() as int, v as int)
    } else if !has_a && !has_v {
        (1, 0)
    } else {
        let na = (a as int) * 1_000_000_000 / (ta->Some_0.spec_get() as int);
        let nv = (v as int) * 1_000_000_000 / (tv->Some_0.spec_get() as int);
        if na < nv {
            (tv->Some_0.spec_get() as int, v as int)
        } else {
            (ta->Some_0.spec_get() as int, a as int)
        }
    }
}

/// Whether `m` is the `moov` box of the samples of the finished fragments: a track per kind
/// of sample (audio first, from the chunks `a`, then video, from `v`), the movie header in the
/// timescale of the longer track, and, when `include_mvex`, the defaults of fragments for each
/// track.
#[verifier::opaque]
pub open spec fn hybrid_moov_built(
    m: MoovBox,
    a: Seq<Chunk>,
    v: Seq<Chunk>,
    ta: Option<NonZeroU32>,
    tv: Option<NonZeroU32>,
    ida: u32,
    idv: u32,
    creation_timestamp: u64,
    include_mvex: bool,
) -> bool {
    let n = (if a.len() > 0 { 1int } else { 0 }) + (if v.len() > 0 { 1int } else { 0 });
    let creation = (creation_timestamp + unix_epoch_offset()) as u64;
    let large_a = exists|i: int| 0 <= i < a.len() && (#[trigger] a[i]).offset > u32::MAX;
    let large_v = exists|i: int| 0 <= i < v.len() && (#[trigger] v[i]).offset > u32::MAX;
    let td = movie_timescale_and_duration(
        sum_durations(flat_samples(a)),
        ta,
        a.len() > 0,
        sum_durations(flat_samples(v)),
        tv,
        v.len() > 0,
    );
    &&& m.trak_boxes@.len() == n
    &&& a.len() > 0 ==> trak_built(m.trak_boxes@[0], TrackKind::Audio, ida, a, ta->Some_0, large_a, creation)
    &&& v.len() > 0 ==> trak_built(m.trak_boxes@[n - 1], TrackKind::Video, idv, v, tv->Some_0, large_v, creation)
    &&& m.mvhd_box.timescale.spec_get() == td.0
    &&& m.mvhd_box.duration == td.1
    &&& m.mvhd_box.next_track_id == n + 1
    &&& m.mvhd_box.creation_time.spec_secs() == creation
    &&& m.mvhd_box.modification_time.spec_secs() == creation
    &&& if include_mvex {
        m.mvex_box matches Some(x) && x.mehd_box is None && x.unknown_boxes@.len() == 0
            && x.trex_boxes@.len() == n && forall|i: int|
            0 <= i < n ==> {
                let t = #[trigger] x.trex_boxes@[i];
                &&& t.track_id == i + 1
                &&& t.default_sample_description_index == 1
                &&& t.default_sample_duration == 0
                &&& t.default_sample_size == 0
                &&& t.default_sample_flags.spec_get() == fragment_flags_value(true)
            }
    } else {
        m.mvex_box is None
    }
    &&& m.unknown_boxes@.len() == 0
}

/// Whether `m` is the `moov` box of the samples of the finished fragments of `d`.
pub open spec fn moov_of(m: MoovBox, d: Mp4HybridFileMuxer, include_mvex: bool) -> bool {
    hybrid_moov_built(
        m,
        d.spec_chunks(TrackKind::Audio),
        d.spec_chunks(TrackKind::Video),
        d.spec_timescale(TrackKind::Audio),
        d.spec_timescale(TrackKind::Video),
        d.spec_track_id(TrackKind::Audio),
        d.spec_track_id(TrackKind::Video),
        d.spec_options().creation_timestamp,
        include_mvex,
    )
}

impl Mp4HybridFileMuxer {
    /// The id of a track (meaningful once it has a sample).
    pub closed spec fn spec_track_id(&self, kind: TrackKind) -> u32 {
        match kind {
            TrackKind::Audio => self.audio_track_id->Some_0,
            TrackKind::Video => self.video_track_id->Some_0,
        }
    }

    /// Builds the `moov` box of the samples of the finished fragments.
    ///
    /// Fails with [`MuxError::EncodeError`] when a track has more than 2^32 - 1 samples or the
    /// creation time does not fit the file's times.
    #[verifier::rlimit(40)]
    fn build_moov_box(&self, include_mvex: bool) -> (r: Result<MoovBox, MuxError>)
        requires
            self.wf(),
        ensures
            r is Ok <==> flat_samples(self.spec_chunks(TrackKind::Audio)).len() <= u32::MAX
                && flat_samples(self.spec_chunks(TrackKind::Video)).len() <= u32::MAX
                && self.spec_options().creation_timestamp + unix_epoch_offset() <= u64::MAX,
            r matches Ok(m) ==> moov_of(m, *self, include_mvex),
            r matches Err(e) ==> e matches MuxError::EncodeError(x) && x.kind == ErrorKind::InvalidInput,
    {
        let audio_count = count_samples(self.audio_chunks.as_slice());
        let video_count = count_samples(self.video_chunks.as_slice());
        if audio_count.is_none() || video_count.is_none() {
            return Err(MuxError::EncodeError(Error::invalid_input("too many samples in a track")));
        }
        if self.options.creation_timestamp > 0xffff_ffff_ffff_ffff - 2082844800 {
            return Err(MuxError::EncodeError(Error::invalid_input("creation time out of range")));
        }
        proof {
            lemma_chunks_bound(self.audio_chunks@);
            lemma_chunks_bound(self.video_chunks@);
        }
        let creation_time = Mp4FileTime::from_unix_time(self.options.creation_timestamp);
        let mut trak_boxes: Vec<TrakBox> = Vec::new();
        let has_a = self.audio_chunks.len() > 0;
        let has_v = self.video_chunks.len() > 0;
        let mut audio_total: u64 = 0;
        let mut video_total: u64 = 0;
        if has_a {
            let ts = match self.audio_track_timescale {
                Some(t) => t,
                None => NonZeroU32::MIN(),
            };
            let id = match self.audio_track_id {
                Some(t) => t,
                None => 0,
            };
            let large = any_large_offset(self.audio_chunks.as_slice());
            trak_boxes.push(build_track_box(TrackKind::Audio, id, self.audio_chunks.as_slice(), ts, creation_time, large));
            audio_total = crate::mux::total_duration(self.audio_chunks.as_slice());
        }
        if has_v {
            let ts = match self.video_track_timescale {
                Some(t) => t,
                None => NonZeroU32::MIN(),
            };
            let id = match self.video_track_id {
                Some(t) => t,
                None => 0,
            };
            let large = any_large_offset(self.video_chunks.as_slice());
            trak_boxes.push(build_track_box(TrackKind::Video, id, self.video_chunks.as_slice(), ts, creation_time, large));
            video_total = crate::mux::total_duration(self.video_chunks.as_slice());
        }
        let (timescale, duration) = if has_a && !has_v {
            (self.audio_track_timescale.unwrap(), audio_total)
        } else if !has_a && has_v {
            (self.video_track_timescale.unwrap(), video_total)
        } else if !has_a && !has_v {
            (NonZeroU32::MIN(), 0u64)
        } else {
            let ta = self.audio_track_timescale.unwrap();
            let tv = self.video_track_timescale.unwrap();
            let ta_v = ta.get();
            let tv_v = tv.get();
            let na: u128 = (audio_total as u128) * 1_000_000_000 / (ta_v as u128);
            let nv: u128 = (video_total as u128) * 1_000_000_000 / (tv_v as u128);
            if na < nv {
                (tv, video_total)
            } else {
                (ta, audio_total)
            }
        };
        let n = trak_boxes.len() as u32;
        let mvhd_box = MvhdBox {
            creation_time,
            modification_time: creation_time,
            timescale,
            duration,
            rate: MvhdBox::DEFAULT_RATE(),
            volume: MvhdBox::DEFAULT_VOLUME(),
            matrix: MvhdBox::DEFAULT_MATRIX(),
            next_track_id: n + 1,
        };
        let mvex_box = if include_mvex {
            let flags = trun_sample_flags(true);
            let mut trex_boxes: Vec<TrexBox> = Vec::new();
            let mut i: u32 = 0;
            while i < n
                invariant
                    n <= 2,
                    i <= n,
                    trex_boxes@.len() == i,
                    flags.spec_get() == fragment_flags_value(true),
                    forall|j: int|
                        0 <= j < i ==> {
                            let t = #[trigger] trex_boxes@[j];
                            &&& t.track_id == j + 1
                            &&& t.default_sample_description_index == 1
                            &&& t.default_sample_duration == 0
                            &&& t.default_sample_size == 0
                            &&& t.default_sample_flags.spec_get() == fragment_flags_value(true)
                        },
                decreases n - i,
            {
                trex_boxes.push(
                    TrexBox {
                        track_id: i + 1,
                        default_sample_description_index: 1,
                        default_sample_duration: 0,
                        default_sample_size: 0,
                        default_sample_flags: flags,
                    },
                );
                i += 1;
            }
            Some(MvexBox { mehd_box: None, trex_boxes, unknown_boxes: Vec::new() })
        } else {
            None
        };
        let m = MoovBox { mvhd_box, trak_boxes, mvex_box, unknown_boxes: Vec::new() };
        assert(moov_of(m, *self, include_mvex)) by {
            reveal(hybrid_moov_built);
        }
        Ok(m)
    }
}

/// The samples of a chunk list grow by one sample when it is added to the last chunk or to a
/// new chunk.
proof fn lemma_flat_push(cs: Seq<Chunk>, ds: Seq<Chunk>, m: SampleMetadata, new_chunk: bool)
    requires
        new_chunk ==> ds.len() == cs.len() + 1 && (forall|i: int| 0 <= i < cs.len() ==> #[trigger] ds[i] == cs[i])
            && ds.last().samples@ == seq![m],
        !new_chunk ==> ds.len() == cs.len() && cs.len() > 0 && (forall|i: int|
            0 <= i < cs.len() - 1 ==> #[trigger] ds[i] == cs[i]) && ds.last().samples@ == cs.last().samples@.push(m),
    ensures
        flat_samples(ds) == flat_samples(cs).push(m),
{
    if new_chunk {
        assert(ds.drop_last() =~= cs);
        assert(flat_samples(ds) == flat_samples(cs) + seq![m]);
        assert(flat_samples(cs) + seq![m] =~= flat_samples(cs).push(m));
    } else {
        assert(ds.drop_last() =~= cs.drop_last());
        assert(flat_samples(ds) == flat_samples(cs.drop_last()) + cs.last().samples@.push(m));
        assert(flat_samples(cs.drop_last()) + cs.last().samples@.push(m) =~= (flat_samples(
            cs.drop_last(),
        ) + cs.last().samples@).push(m));
    }
}

/// Recording one more sample of a fragment: its position is where the samples before it end.
proof fn lemma_written_step(ps: Seq<PendingSample>, n: int, k: TrackKind, start: int)
    requires
        0 <= n < ps.len(),
    ensures
        written_positions(ps.subrange(0, n + 1).map_values(|p: PendingSample| pending_meta(p)), k, start)
            == if ps[n].track_kind == k {
            written_positions(ps.subrange(0, n).map_values(|p: PendingSample| pending_meta(p)), k, start).push(
                start + pending_bytes(ps.subrange(0, n).map_values(|p: PendingSample| pending_meta(p))),
            )
        } else {
            written_positions(ps.subrange(0, n).map_values(|p: PendingSample| pending_meta(p)), k, start)
        },
        pending_bytes(ps.subrange(0, n + 1).map_values(|p: PendingSample| pending_meta(p))) == pending_bytes(
            ps.subrange(0, n).map_values(|p: PendingSample| pending_meta(p)),
        ) + ps[n].size,
{
    let q = ps.subrange(0, n + 1).map_values(|p: PendingSample| pending_meta(p));
    assert(q.drop_last() =~= ps.subrange(0, n).map_values(|p: PendingSample| pending_meta(p)));
    assert(q.last() == pending_meta(ps[n]));
}

/// The sum of the sizes of samples `a .. b` of a fragment.
spec fn pending_size_sum(ps: Seq<PendingSample>, a: int, b: int) -> int
    decreases b - a,
{
    if b <= a {
        0
    } else {
        pending_size_sum(ps, a, b - 1) + ps[b - 1].size
    }
}

/// Sums of sizes over `a .. b` split at `m`, and are not negative.
proof fn lemma_pending_size_split(ps: Seq<PendingSample>, a: int, m: int, b: int)
    requires
        a <= m <= b,
    ensures
        pending_size_sum(ps, a, b) == pending_size_sum(ps, a, m) + pending_size_sum(ps, m, b),
        pending_size_sum(ps, a, m) >= 0,
    decreases b - m,
{
    if m < b {
        lemma_pending_size_split(ps, a, m, b - 1);
    } else {
        lemma_pending_size_nonneg(ps, a, m);
    }
}

proof fn lemma_pending_size_nonneg(ps: Seq<PendingSample>, a: int, b: int)
    ensures
        pending_size_sum(ps, a, b) >= 0,
    decreases b - a,
{
    if b > a {
        lemma_pending_size_nonneg(ps, a, b - 1);
    }
}

/// The samples of one kind among the first `n` samples of a fragment grow with the sample at `n`.
proof fn lemma_pending_of_kind_step(ps: Seq<PendingSample>, n: int, k: TrackKind)
    requires
        0 <= n < ps.len(),
    ensures
        pending_of_kind(ps.subrange(0, n + 1).map_values(|p: PendingSample| pending_meta(p)), k)
            == if ps[n].track_kind == k {
            pending_of_kind(ps.subrange(0, n).map_values(|p: PendingSample| pending_meta(p)), k).push(
                pending_meta(ps[n]).1,
            )
        } else {
            pending_of_kind(ps.subrange(0, n).map_values(|p: PendingSample| pending_meta(p)), k)
        },
{
    let q = ps.subrange(0, n + 1).map_values(|p: PendingSample| pending_meta(p));
    assert(q.drop_last() =~= ps.subrange(0, n).map_values(|p: PendingSample| pending_meta(p)));
}

impl Mp4HybridFileMuxer {
    /// Splits the current fragment into runs of samples of one track, with the offset of each
    /// run in the fragment's data; `None` when the size of the data does not fit 64 bits.
    fn build_fragment_runs(&self) -> (r: Option<(Vec<FragmentRun>, u64)>)
        ensures
            r matches Some((runs, total)) ==> {
                let ps = self.fragment_samples@;
                &&& total == pending_size_sum(ps, 0, ps.len() as int)
                &&& forall|j: int| 0 <= j < runs@.len() ==> {
                    let run = #[trigger] runs@[j];
                    &&& run.start < run.end <= ps.len()
                    &&& run.payload_offset == pending_size_sum(ps, 0, run.start as int)
                    &&& forall|i: int| run.start <= i < run.end ==> (#[trigger] ps[i]).track_kind == run.track_kind
                }
            },
            r is None ==> pending_size_sum(self.fragment_samples@, 0, self.fragment_samples@.len() as int) > u64::MAX,
    {
        let ghost ps = self.fragment_samples@;
        let mut runs: Vec<FragmentRun> = Vec::new();
        let mut payload_offset: u64 = 0;
        let mut i: usize = 0;
        while i < self.fragment_samples.len()
            invariant
                ps == self.fragment_samples@,
                i <= ps.len(),
                payload_offset == pending_size_sum(ps, 0, i as int),
                i > 0 ==> runs@.len() > 0 && runs@.last().end == i,
                forall|j: int| 0 <= j < runs@.len() ==> {
                    let run = #[trigger] runs@[j];
                    &&& run.start < run.end <= i
                    &&& run.payload_offset == pending_size_sum(ps, 0, run.start as int)
                    &&& forall|m: int| run.start <= m < run.end ==> (#[trigger] ps[m]).track_kind == run.track_kind
                },
            decreases ps.len() - i,
        {
            let sample = &self.fragment_samples[i];
            let n = runs.len();
            if n > 0 && runs[n - 1].track_kind == sample.track_kind {
                let last = runs[n - 1];
                runs.set(n - 1, FragmentRun { end: i + 1, ..last });
            } else {
                runs.push(
                    FragmentRun { track_kind: sample.track_kind, payload_offset, start: i, end: i + 1 },
                );
            }
            payload_offset = match payload_offset.checked_add(sample.size as u64) {
                Some(p) => p,
                None => {
                    proof {
                        lemma_pending_size_split(ps, 0, i + 1, ps.len() as int);
                        lemma_pending_size_nonneg(ps, i + 1, ps.len() as int);
                    }
                    return None;
                },
            };
            i += 1;
        }
        Some((runs, payload_offset))
    }

    /// Builds the track runs of a kind: one per run, with the offset of its data from the
    /// start of the `moof` box.
    ///
    /// Fails with [`MuxError::EncodeError`] when an offset does not fit a signed 32-bit value.
    fn build_trun_boxes(
        &self,
        runs: &[FragmentRun],
        kind: TrackKind,
        mdat_header_size: usize,
        moof_size: usize,
    ) -> (r: Result<Vec<TrunBox>, MuxError>)
        requires
            forall|j: int| 0 <= j < runs@.len() ==> (#[trigger] runs@[j]).start <= runs@[j].end <= self.fragment_samples@.len(),
        ensures
            r matches Err(e) ==> e matches MuxError::EncodeError(x) && x.kind == ErrorKind::InvalidData,
    {
        let mut truns: Vec<TrunBox> = Vec::new();
        let mut j: usize = 0;
        while j < runs.len()
            invariant
                j <= runs@.len(),
                forall|m: int| 0 <= m < runs@.len() ==> (#[trigger] runs@[m]).start <= runs@[m].end <= self.fragment_samples@.len(),
            decreases runs@.len() - j,
        {
            let run = runs[j];
            if run.track_kind == kind {
                let payload: usize = #[verifier::truncate] (run.payload_offset as usize);
                let data_offset = moof_size.saturating_add(mdat_header_size).saturating_add(payload);
                if data_offset > 0x7fff_ffff {
                    return Err(MuxError::EncodeError(Error::invalid_data("trun data_offset is too large")));
                }
                let mut samples: Vec<TrunSample> = Vec::new();
                let mut i: usize = run.start;
                while i < run.end
                    invariant
                        run.start <= i <= run.end <= self.fragment_samples@.len(),
                    decreases run.end - i,
                {
                    let s = &self.fragment_samples[i];
                    samples.push(
                        TrunSample {
                            duration: Some(s.duration),
                            size: Some(s.size),
                            flags: Some(trun_sample_flags(s.keyframe)),
                            composition_time_offset: None,
                        },
                    );
                    i += 1;
                }
                truns.push(
                    TrunBox {
                        data_offset: Some(data_offset as i32),
                        first_sample_flags: None,
                        samples,
                    },
                );
            }
            j += 1;
        }
        Ok(truns)
    }

    /// Builds the `moof` box of the current fragment, with the data offsets for a `moof` box
    /// of `moof_size` bytes.
    fn build_moof_box(&self, runs: &[FragmentRun], mdat_header_size: usize, moof_size: usize) -> (r:
        Result<MoofBox, MuxError>)
        requires
            self.wf(),
            forall|j: int| 0 <= j < runs@.len() ==> (#[trigger] runs@[j]).start <= runs@[j].end <= self.fragment_samples@.len(),
        ensures
            r matches Ok(m) ==> m.mfhd_box.sequence_number == self.next_sequence_number,
            r matches Err(e) ==> e matches MuxError::EncodeError(x) && x.kind == ErrorKind::InvalidData,
    {
        let mut traf_boxes: Vec<TrafBox> = Vec::new();
        if self.fragment_has_audio {
            let truns = self.build_trun_boxes(runs, TrackKind::Audio, mdat_header_size, moof_size)?;
            traf_boxes.push(
                build_traf_box(
                    self.audio_track_id.unwrap(),
                    self.fragment_sample_entry_index_audio.unwrap(),
                    self.fragment_base_decode_time_audio.unwrap(),
                    truns,
                ),
            );
        }
        if self.fragment_has_video {
            let truns = self.build_trun_boxes(runs, TrackKind::Video, mdat_header_size, moof_size)?;
            traf_boxes.push(
                build_traf_box(
                    self.video_track_id.unwrap(),
                    self.fragment_sample_entry_index_video.unwrap(),
                    self.fragment_base_decode_time_video.unwrap(),
                    truns,
                ),
            );
        }
        Ok(
            MoofBox {
                mfhd_box: MfhdBox { sequence_number: self.next_sequence_number },
                traf_boxes,
                unknown_boxes: Vec::new(),
            },
        )
    }

    /// Builds the bytes of the `moof` box of the current fragment: a first encoding gives its
    /// size, which the data offsets count.
    fn build_moof_bytes(&self, runs: &[FragmentRun], mdat_header_size: usize) -> (r: Result<
        Vec<u8>,
        MuxError,
    >)
        requires
            self.wf(),
            forall|j: int| 0 <= j < runs@.len() ==> (#[trigger] runs@[j]).start <= runs@[j].end <= self.fragment_samples@.len(),
        ensures
            r matches Ok(b) ==> exists|m: MoofBox|
                m.mfhd_box.sequence_number == self.next_sequence_number && b@ == #[trigger] encoded_moof(m),
            r matches Err(e) ==> e matches MuxError::EncodeError(x) && (x.kind == ErrorKind::InvalidData
                || x.kind == ErrorKind::InvalidInput),
    {
        let placeholder = self.build_moof_box(runs, mdat_header_size, 0)?;
        let size = match encode_moof(&placeholder) {
            Ok(b) => b.len(),
            Err(e) => {
                return Err(MuxError::EncodeError(e));
            },
        };
        let moof = self.build_moof_box(runs, mdat_header_size, size)?;
        match encode_moof(&moof) {
            Ok(b) => Ok(b),
            Err(e) => Err(MuxError::EncodeError(e)),
        }
    }
}

/// Builds the track fragment of a track.
fn build_traf_box(track_id: u32, sample_entry_index: u32, base_decode_time: u64, trun_boxes: Vec<TrunBox>) -> (r: TrafBox)
    ensures
        r.tfhd_box.track_id == track_id,
        r.tfhd_box.sample_description_index == Some(sample_entry_index),
        r.tfdt_box == Some(TfdtBox { version: 0, base_media_decode_time: base_decode_time }),
        r.trun_boxes@ == trun_boxes@,
{
    TrafBox {
        tfhd_box: TfhdBox {
            track_id,
            base_data_offset: None,
            sample_description_index: Some(sample_entry_index),
            default_sample_duration: None,
            default_sample_size: None,
            default_sample_flags: None,
            duration_is_empty: false,
            default_base_is_moof: true,
        },
        tfdt_box: Some(TfdtBox { version: 0, base_media_decode_time: base_decode_time }),
        trun_boxes,
        unknown_boxes: Vec::new(),
    }
}

impl Mp4HybridFileMuxer {
    /// Records the samples of the current fragment in the chunks of their tracks, the first at
    /// `start` and each after the one before.
    ///
    /// Fails with [`MuxError::EncodeError`] (with some samples recorded) when an offset does
    /// not fit 64 bits.
    fn record_fragment_samples(&mut self, start: u64) -> (r: Result<(), MuxError>)
        requires
            old(self).wf(),
        ensures
            final(self).wf(),
            r is Ok ==> flat_samples(final(self).spec_chunks(TrackKind::Audio)) == flat_samples(
                old(self).spec_chunks(TrackKind::Audio),
            ) + pending_of_kind(old(self).spec_pending(), TrackKind::Audio),
            r is Ok ==> flat_samples(final(self).spec_chunks(TrackKind::Video)) == flat_samples(
                old(self).spec_chunks(TrackKind::Video),
            ) + pending_of_kind(old(self).spec_pending(), TrackKind::Video),
            r is Ok && fragment_opens(*old(self)) ==> flat_positions(final(self).spec_chunks(TrackKind::Audio))
                == flat_positions(old(self).spec_chunks(TrackKind::Audio)) + written_positions(
                old(self).spec_pending(),
                TrackKind::Audio,
                start as int,
            ),
            r is Ok && fragment_opens(*old(self)) ==> flat_positions(final(self).spec_chunks(TrackKind::Video))
                == flat_positions(old(self).spec_chunks(TrackKind::Video)) + written_positions(
                old(self).spec_pending(),
                TrackKind::Video,
                start as int,
            ),
            r matches Err(e) ==> e matches MuxError::EncodeError(x) && x.kind == ErrorKind::InvalidInput,
            final(self).fragment_samples@ == old(self).fragment_samples@,
            final(self).outputs@ == old(self).outputs@,
            final(self).next_output_index == old(self).next_output_index,
            final(self).file_size == old(self).file_size,
            final(self).ftyp_box_end_offset == old(self).ftyp_box_end_offset,
            final(self).moov_box_end_offset == old(self).moov_box_end_offset,
            final(self).finalized == old(self).finalized,
            final(self).options == old(self).options,
            final(self).next_sequence_number == old(self).next_sequence_number,
            final(self).audio_track_timescale == old(self).audio_track_timescale,
            final(self).video_track_timescale == old(self).video_track_timescale,
            final(self).audio_track_id == old(self).audio_track_id,
            final(self).video_track_id == old(self).video_track_id,
    {
        let ghost ps = self.fragment_samples@;
        let ghost a0 = flat_samples(self.audio_chunks@);
        let ghost v0 = flat_samples(self.video_chunks@);
        let ghost pa0 = flat_positions(self.audio_chunks@);
        let ghost pv0 = flat_positions(self.video_chunks@);
        let ghost opens = fragment_opens(*old(self));
        proof {
            if ps.len() > 0 {
                assert(old(self).spec_pending()[0] == pending_meta(ps[0]));
            }
            assert(ps.subrange(0, 0).map_values(|p: PendingSample| pending_meta(p)) =~= Seq::empty());
        }
        let mut offset = start;
        let mut i: usize = 0;
        while i < self.fragment_samples.len()
            invariant
                self.wf(),
                opens == fragment_opens(*old(self)),
                opens && ps.len() > 0 ==> old(self).last_sample_kind != Some(ps[0].track_kind),
                offset == start + pending_bytes(ps.subrange(0, i as int).map_values(|p: PendingSample| pending_meta(p))),
                i == 0 ==> self.last_sample_kind == old(self).last_sample_kind,
                i > 0 ==> self.last_sample_kind == Some(ps[i - 1].track_kind),
                opens ==> flat_positions(self.audio_chunks@) == pa0 + written_positions(
                    ps.subrange(0, i as int).map_values(|p: PendingSample| pending_meta(p)),
                    TrackKind::Audio,
                    start as int,
                ),
                opens ==> flat_positions(self.video_chunks@) == pv0 + written_positions(
                    ps.subrange(0, i as int).map_values(|p: PendingSample| pending_meta(p)),
                    TrackKind::Video,
                    start as int,
                ),
                opens && i > 0 ==> self.spec_chunks(ps[i - 1].track_kind).len() > 0 && chunks_end(
                    self.spec_chunks(ps[i - 1].track_kind),
                ) == offset,
                ps == self.fragment_samples@,
                ps == old(self).fragment_samples@,
                i <= ps.len(),
                self.outputs@ == old(self).outputs@,
                self.next_output_index == old(self).next_output_index,
                self.file_size == old(self).file_size,
                self.ftyp_box_end_offset == old(self).ftyp_box_end_offset,
                self.moov_box_end_offset == old(self).moov_box_end_offset,
                self.finalized == old(self).finalized,
                self.options == old(self).options,
                self.next_sequence_number == old(self).next_sequence_number,
                self.audio_track_timescale == old(self).audio_track_timescale,
                self.video_track_timescale == old(self).video_track_timescale,
                self.audio_track_id == old(self).audio_track_id,
                self.video_track_id == old(self).video_track_id,
                flat_samples(self.audio_chunks@) == a0 + pending_of_kind(
                    ps.subrange(0, i as int).map_values(|p: PendingSample| pending_meta(p)),
                    TrackKind::Audio,
                ),
                flat_samples(self.video_chunks@) == v0 + pending_of_kind(
                    ps.subrange(0, i as int).map_values(|p: PendingSample| pending_meta(p)),
                    TrackKind::Video,
                ),
            decreases ps.len() - i,
        {
            let kind = self.fragment_samples[i].track_kind;
            let m = SampleMetadata {
                duration: self.fragment_samples[i].duration,
                keyframe: self.fragment_samples[i].keyframe,
                size: self.fragment_samples[i].size,
            };
            let size = self.fragment_samples[i].size;
            let ghost before_a = self.audio_chunks@;
            let ghost before_v = self.video_chunks@;
            proof {
                lemma_pending_of_kind_step(ps, i as int, TrackKind::Audio);
                lemma_pending_of_kind_step(ps, i as int, TrackKind::Video);
            }
            let needed = self.is_new_chunk_needed(kind, &self.fragment_samples[i].sample_entry);
            let new_chunk = if needed {
                Some(
                    Chunk {
                        offset,
                        sample_entry: self.fragment_samples[i].sample_entry.duplicate(),
                        samples: Vec::new(),
                    },
                )
            } else {
                None
            };
            match kind {
                TrackKind::Audio => {
                    push_sample(&mut self.audio_chunks, new_chunk, m);
                    proof {
                        if opens {
                            if !needed {
                                assert(i > 0);
                                assert(ps[i - 1].track_kind == TrackKind::Audio);
                                assert(chunks_end(before_a) == offset);
                            }
                            lemma_positions_push(before_a, self.audio_chunks@, m, needed, offset as int);
                        }
                        lemma_flat_push(before_a, self.audio_chunks@, m, needed);
                        assert(a0 + pending_of_kind(
                            ps.subrange(0, i as int).map_values(|p: PendingSample| pending_meta(p)),
                            TrackKind::Audio,
                        ).push(m) =~= (a0 + pending_of_kind(
                            ps.subrange(0, i as int).map_values(|p: PendingSample| pending_meta(p)),
                            TrackKind::Audio,
                        )).push(m));
                    }
                },
                TrackKind::Video => {
                    push_sample(&mut self.video_chunks, new_chunk, m);
                    proof {
                        if opens {
                            if !needed {
                                assert(i > 0);
                                assert(ps[i - 1].track_kind == TrackKind::Video);
                                assert(chunks_end(before_v) == offset);
                            }
                            lemma_positions_push(before_v, self.video_chunks@, m, needed, offset as int);
                        }
                        lemma_flat_push(before_v, self.video_chunks@, m, needed);
                        assert(v0 + pending_of_kind(
                            ps.subrange(0, i as int).map_values(|p: PendingSample| pending_meta(p)),
                            TrackKind::Video,
                        ).push(m) =~= (v0 + pending_of_kind(
                            ps.subrange(0, i as int).map_values(|p: PendingSample| pending_meta(p)),
                            TrackKind::Video,
                        )).push(m));
                    }
                },
            }
            self.last_sample_kind = Some(kind);
            proof {
                assert(pending_meta(ps[i as int]).1 == m);
                lemma_written_step(ps, i as int, TrackKind::Audio, start as int);
                lemma_written_step(ps, i as int, TrackKind::Video, start as int);
            }
            offset = match offset.checked_add(size as u64) {
                Some(o) => o,
                None => {
                    return Err(MuxError::EncodeError(Error::invalid_input("sample offset overflow")));
                },
            };
            i += 1;
        }
        assert(ps.subrange(0, i as int) =~= ps);
        Ok(())
    }

    /// Whether a sample of `kind` with `entry` needs a new chunk: the track of the sample
    /// before differs, or the track has no chunk, or its last chunk has another entry.
    fn is_new_chunk_needed(&self, kind: TrackKind, entry: &SampleEntry) -> (r: bool)
        requires
            self.wf(),
        ensures
            !r ==> self.spec_chunks(kind).len() > 0,
            self.spec_last_kind() != Some(kind) ==> r,
            r == (self.spec_last_kind() != Some(kind) || self.spec_chunks(kind).len() == 0
                || !same_sample_entry(self.spec_chunks(kind).last().sample_entry, *entry)),
    {
        if self.last_sample_kind != Some(kind) {
            return true;
        }
        let chunks = match kind {
            TrackKind::Audio => &self.audio_chunks,
            TrackKind::Video => &self.video_chunks,
        };
        if chunks.len() == 0 {
            return true;
        }
        !chunks[chunks.len() - 1].sample_entry.is_same(entry)
    }
}

impl Mp4HybridFileMuxer {
    /// Where the `ftyp` box ends.
    pub closed spec fn spec_ftyp_end(&self) -> u64 {
        self.ftyp_box_end_offset
    }

    /// Where the room kept for the `moov` box ends.
    pub closed spec fn spec_moov_end(&self) -> u64 {
        self.moov_box_end_offset
    }

    /// Whether `self` differs from `d` in its outputs and its record of `moov` boxes only.
    pub closed spec fn same_but_outputs(self, d: Mp4HybridFileMuxer) -> bool {
        &&& self.next_output_index == d.next_output_index
        &&& self.file_size == d.file_size
        &&& self.ftyp_box_end_offset == d.ftyp_box_end_offset
        &&& self.moov_box_end_offset == d.moov_box_end_offset
        &&& self.next_sequence_number == d.next_sequence_number
        &&& self.next_track_id == d.next_track_id
        &&& self.last_sample_kind == d.last_sample_kind
        &&& self.audio_chunks == d.audio_chunks
        &&& self.video_chunks == d.video_chunks
        &&& self.audio_sample_entries == d.audio_sample_entries
        &&& self.video_sample_entries == d.video_sample_entries
        &&& self.audio_track_id == d.audio_track_id
        &&& self.video_track_id == d.video_track_id
        &&& self.audio_track_timescale == d.audio_track_timescale
        &&& self.video_track_timescale == d.video_track_timescale
        &&& self.audio_decode_time == d.audio_decode_time
        &&& self.video_decode_time == d.video_decode_time
        &&& self.fragment_samples == d.fragment_samples
        &&& self.fragment_elapsed_audio == d.fragment_elapsed_audio
        &&& self.fragment_elapsed_video == d.fragment_elapsed_video
        &&& self.fragment_pending_cut == d.fragment_pending_cut
        &&& self.fragment_has_audio == d.fragment_has_audio
        &&& self.fragment_has_video == d.fragment_has_video
        &&& self.fragment_base_decode_time_audio == d.fragment_base_decode_time_audio
        &&& self.fragment_base_decode_time_video == d.fragment_base_decode_time_video
        &&& self.fragment_sample_entry_audio == d.fragment_sample_entry_audio
        &&& self.fragment_sample_entry_video == d.fragment_sample_entry_video
        &&& self.fragment_sample_entry_index_audio == d.fragment_sample_entry_index_audio
        &&& self.fragment_sample_entry_index_video == d.fragment_sample_entry_index_video
        &&& self.finalized == d.finalized
        &&& self.options == d.options
    }

    /// When room is kept for the `moov` box and the `moov` box of the samples so far is new
    /// and fits it, writes it at the end of the room and shrinks the `free` box before it.
    ///
    /// Fails with [`MuxError::EncodeError`] when the `moov` box cannot be built or encoded.
    fn maybe_update_moov_box(&mut self) -> (r: Result<(), MuxError>)
        requires
            old(self).wf(),
        ensures
            final(self).wf(),
            final(self).same_but_outputs(*old(self)),
            old(self).spec_options().reserved_moov_box_size == 0 ==> final(self).spec_outputs()
                == old(self).spec_outputs(),
            outputs_maybe_moov(*old(self), old(self).spec_outputs(), final(self).spec_outputs()),
            final(self).spec_ftyp_end() == old(self).spec_ftyp_end(),
            r matches Err(e) ==> e matches MuxError::EncodeError(x) && x.kind == ErrorKind::InvalidInput,
    {
        if self.options.reserved_moov_box_size == 0 {
            return Ok(());
        }
        let moov = self.build_moov_box(true)?;
        let bytes = match crate::mux::encode_moov(&moov) {
            Ok(b) => b,
            Err(e) => {
                return Err(MuxError::EncodeError(e));
            },
        };
        match &self.last_moov_bytes {
            Some(last) => {
                if crate::basic_types::bytes_eq(last.as_slice(), bytes.as_slice()) {
                    return Ok(());
                }
            },
            None => {},
        }
        if bytes.len() > self.options.reserved_moov_box_size {
            self.last_moov_bytes = Some(bytes);
            return Ok(());
        }
        let moov_offset = self.moov_box_end_offset - bytes.len() as u64;
        let free_size = (moov_offset - self.ftyp_box_end_offset) as u32;
        let mut size_bytes: Vec<u8> = Vec::new();
        crate::codec::put_u32(&mut size_bytes, free_size);
        let mut copy: Vec<u8> = Vec::new();
        crate::codec::put_bytes(&mut copy, bytes.as_slice());
        let ghost prev = self.spec_outputs();
        let ghost pair = seq![(self.ftyp_box_end_offset, be_u32(free_size)), (moov_offset, encoded_moov(moov))];
        proof {
            lemma_moov_pair(*old(self), moov, moov_offset, free_size);
        }
        self.last_moov_bytes = Some(bytes);
        self.push_pair(
            Output { offset: self.ftyp_box_end_offset, bytes: size_bytes },
            Output { offset: moov_offset, bytes: copy },
        );
        proof {
            lemma_outputs_pair(*old(self), prev, pair, self.spec_outputs());
        }
        Ok(())
    }
}

impl Mp4HybridFileMuxer {
    /// Appends two outputs.
    fn push_pair(&mut self, a: Output, b: Output)
        requires
            old(self).wf(),
        ensures
            final(self).wf(),
            final(self).same_but_outputs(*old(self)),
            final(self).last_moov_bytes == old(self).last_moov_bytes,
            final(self).spec_outputs() == old(self).spec_outputs() + seq![(a.offset, a.bytes@), (b.offset, b.bytes@)],
    {
        let ghost prev = self.spec_outputs();
        self.outputs.push(a);
        self.outputs.push(b);
        assert(self.spec_outputs() =~= prev + seq![(a.offset, a.bytes@), (b.offset, b.bytes@)]);
    }
}

/// Outputs followed by a `moov` pair.
proof fn lemma_outputs_pair(
    d: Mp4HybridFileMuxer,
    prev: Seq<(u64, Seq<u8>)>,
    pair: Seq<(u64, Seq<u8>)>,
    outs: Seq<(u64, Seq<u8>)>,
)
    requires
        moov_pair_ok(d, pair),
        pair.len() == 2,
        outs == prev + pair,
    ensures
        outputs_maybe_moov(d, prev, outs),
{
    assert(outs.subrange(0, prev.len() as int) =~= prev);
    assert(outs.subrange(prev.len() as int, prev.len() as int + 2) =~= pair);
}

/// The outputs that put a `moov` box that fits the room at its end.
proof fn lemma_moov_pair(d: Mp4HybridFileMuxer, m: MoovBox, moov_offset: u64, free_size: u32)
    requires
        moov_of(m, d, true),
        encoded_moov(m).len() <= d.spec_options().reserved_moov_box_size,
        moov_offset == d.spec_moov_end() - encoded_moov(m).len(),
        free_size == moov_offset - d.spec_ftyp_end(),
    ensures
        moov_pair_ok(d, seq![(d.spec_ftyp_end(), be_u32(free_size)), (moov_offset, encoded_moov(m))]),
{
}

/// Whether `pair` are the outputs that put the `moov` box of the samples so far of `d` at the
/// end of the room kept for it: the new size of the `free` box (at the end of the `ftyp`
/// box), then the `moov` box.
pub open spec fn moov_pair_ok(d: Mp4HybridFileMuxer, pair: Seq<(u64, Seq<u8>)>) -> bool {
    exists|m: MoovBox|
        #[trigger] moov_of(m, d, true) && {
            let b = encoded_moov(m);
            let moov_offset = d.spec_moov_end() - b.len();
            &&& b.len() <= d.spec_options().reserved_moov_box_size
            &&& pair == seq![
                (d.spec_ftyp_end(), be_u32((moov_offset - d.spec_ftyp_end()) as u32)),
                (moov_offset as u64, b),
            ]
        }
}

/// Whether `outs` are `prev` or `prev` followed by the outputs that put the `moov` box of the
/// samples so far of `d` in the room kept for it.
pub open spec fn outputs_maybe_moov(d: Mp4HybridFileMuxer, prev: Seq<(u64, Seq<u8>)>, outs: Seq<(u64, Seq<u8>)>) -> bool {
    ||| outs == prev
    ||| outs.len() == prev.len() + 2 && outs.subrange(0, prev.len() as int) == prev && moov_pair_ok(
        d,
        outs.subrange(prev.len() as int, prev.len() as int + 2),
    )
}

/// The `ftyp` box of the hybrid muxer encodes to its payload.
proof fn lemma_hybrid_ftyp(f: FtypBox)
    requires
        f.major_brand.spec_bytes() == seq![0x69u8, 0x73u8, 0x6fu8, 0x6du8],
        f.minor_version == 0,
        f.compatible_brands@.len() == 6,
        f.compatible_brands@[0].spec_bytes() == seq![0x69u8, 0x73u8, 0x6fu8, 0x6du8],
        f.compatible_brands@[1].spec_bytes() == seq![0x69u8, 0x73u8, 0x6fu8, 0x32u8],
        f.compatible_brands@[2].spec_bytes() == seq![0x6du8, 0x70u8, 0x34u8, 0x31u8],
        f.compatible_brands@[3].spec_bytes() == seq![0x61u8, 0x76u8, 0x63u8, 0x31u8],
        f.compatible_brands@[4].spec_bytes() == seq![0x61u8, 0x76u8, 0x30u8, 0x31u8],
        f.compatible_brands@[5].spec_bytes() == seq![0x69u8, 0x73u8, 0x6fu8, 0x36u8],
    ensures
        f.spec_payload_bytes() == hybrid_ftyp_payload(),
        f.spec_encoding() == crate::boxes::spec_box_bytes(FtypBox::spec_type().spec_bytes(), hybrid_ftyp_payload()),
        f.spec_encodable(),
{
    let g = |b: Brand| b.spec_bytes();
    let bs = f.compatible_brands@;
    crate::boxes::lemma_concat_push(bs.subrange(0, 0).map_values(g), bs[0].spec_bytes());
    assert(bs.subrange(0, 1).map_values(g) =~= bs.subrange(0, 0).map_values(g).push(bs[0].spec_bytes()));
    crate::boxes::lemma_concat_push(bs.subrange(0, 1).map_values(g), bs[1].spec_bytes());
    assert(bs.subrange(0, 2).map_values(g) =~= bs.subrange(0, 1).map_values(g).push(bs[1].spec_bytes()));
    crate::boxes::lemma_concat_push(bs.subrange(0, 2).map_values(g), bs[2].spec_bytes());
    assert(bs.subrange(0, 3).map_values(g) =~= bs.subrange(0, 2).map_values(g).push(bs[2].spec_bytes()));
    crate::boxes::lemma_concat_push(bs.subrange(0, 3).map_values(g), bs[3].spec_bytes());
    assert(bs.subrange(0, 4).map_values(g) =~= bs.subrange(0, 3).map_values(g).push(bs[3].spec_bytes()));
    crate::boxes::lemma_concat_push(bs.subrange(0, 4).map_values(g), bs[4].spec_bytes());
    assert(bs.subrange(0, 5).map_values(g) =~= bs.subrange(0, 4).map_values(g).push(bs[4].spec_bytes()));
    crate::boxes::lemma_concat_push(bs.subrange(0, 5).map_values(g), bs[5].spec_bytes());
    assert(bs.subrange(0, 6).map_values(g) =~= bs.subrange(0, 5).map_values(g).push(bs[5].spec_bytes()));
    assert(bs.subrange(0, 6) =~= bs);
    assert(bs.subrange(0, 0).map_values(g) =~= Seq::<Seq<u8>>::empty());
    assert(f.spec_payload_bytes() =~= hybrid_ftyp_payload());
}

/// The bytes of a `moof` box.
#[verifier::opaque]
pub open spec fn encoded_moof(m: MoofBox) -> Seq<u8> {
    m.spec_encoding()
}

/// Encodes a `moof` box.
fn encode_moof(m: &MoofBox) -> (r: Result<Vec<u8>, Error>)
    ensures
        r matches Ok(v) ==> v@ == encoded_moof(*m),
        r matches Err(e) ==> e.kind == ErrorKind::InvalidInput,
{
    reveal(encoded_moof);
    m.encode_to_vec()
}

/// The sum of the sizes of samples.
pub open spec fn pending_bytes(ps: Seq<(TrackKind, SampleMetadata)>) -> int
    decreases ps.len(),
{
    if ps.len() == 0 {
        0
    } else {
        pending_bytes(ps.drop_last()) + ps.last().1.size
    }
}

/// The sizes of the samples of a fragment add up to `pending_bytes` of their metadata.
proof fn lemma_pending_bytes(ps: Seq<PendingSample>, n: int)
    requires
        0 <= n <= ps.len(),
    ensures
        pending_size_sum(ps, 0, n) == pending_bytes(ps.subrange(0, n).map_values(|p: PendingSample| pending_meta(p))),
    decreases n,
{
    if n > 0 {
        lemma_pending_bytes(ps, n - 1);
        let q = ps.subrange(0, n).map_values(|p: PendingSample| pending_meta(p));
        assert(q.drop_last() =~= ps.subrange(0, n - 1).map_values(|p: PendingSample| pending_meta(p)));
    } else {
        assert(ps.subrange(0, 0).map_values(|p: PendingSample| pending_meta(p)) =~= Seq::empty());
    }
}

/// Whether `e` is `d` after its current fragment is written: the fragment's samples join the
/// chunks of their tracks; its `moof` box and `mdat` header are output at the end of the
/// file, followed by its data; the sequence number grows; and the `moov` box of the samples
/// so far may be written in the room kept for it.
pub open spec fn fragment_written(d: Mp4HybridFileMuxer, e: Mp4HybridFileMuxer) -> bool {
    let ps = d.spec_pending();
    let payload = pending_bytes(ps);
    &&& e.spec_pending().len() == 0
    &&& flat_samples(e.spec_chunks(TrackKind::Audio)) == flat_samples(d.spec_chunks(TrackKind::Audio))
        + pending_of_kind(ps, TrackKind::Audio)
    &&& flat_samples(e.spec_chunks(TrackKind::Video)) == flat_samples(d.spec_chunks(TrackKind::Video))
        + pending_of_kind(ps, TrackKind::Video)
    &&& e.spec_next_sequence_number() == if d.spec_next_sequence_number() == u32::MAX {
        u32::MAX
    } else {
        (d.spec_next_sequence_number() + 1) as u32
    }
    &&& exists|moof: MoofBox|
        {
            let mb = encoded_moof(moof);
            let hb = hybrid_mdat_header(payload as u64);
            &&& #[trigger] moof.mfhd_box.sequence_number == d.spec_next_sequence_number()
            &&& e.spec_file_size() == d.spec_file_size() + mb.len() + hb.len() + payload
            &&& fragment_opens(d) ==> flat_positions(e.spec_chunks(TrackKind::Audio)) == flat_positions(
                d.spec_chunks(TrackKind::Audio),
            ) + written_positions(ps, TrackKind::Audio, d.spec_file_size() + mb.len() + hb.len())
            &&& fragment_opens(d) ==> flat_positions(e.spec_chunks(TrackKind::Video)) == flat_positions(
                d.spec_chunks(TrackKind::Video),
            ) + written_positions(ps, TrackKind::Video, d.spec_file_size() + mb.len() + hb.len())
            &&& outputs_maybe_moov(
                e,
                d.spec_outputs() + seq![
                    (d.spec_file_size(), mb),
                    ((d.spec_file_size() + mb.len()) as u64, hb),
                ],
                e.spec_outputs(),
            )
        }
}

/// Positions written for a longer prefix of a fragment extend those of a shorter one.
proof fn lemma_written_prefix(ps: Seq<(TrackKind, SampleMetadata)>, k: TrackKind, start: int, m: int, n: int)
    requires
        0 <= m <= n <= ps.len(),
    ensures
        written_positions(ps.take(m), k, start).len() <= written_positions(ps.take(n), k, start).len(),
        written_positions(ps.take(n), k, start).take(written_positions(ps.take(m), k, start).len() as int)
            == written_positions(ps.take(m), k, start),
    decreases n - m,
{
    if m < n {
        lemma_written_prefix(ps, k, start, m, n - 1);
        assert(ps.take(n).drop_last() =~= ps.take(n - 1));
        let a = written_positions(ps.take(m), k, start);
        let b = written_positions(ps.take(n - 1), k, start);
        let c = written_positions(ps.take(n), k, start);
        assert(c.take(a.len() as int) =~= b.take(a.len() as int));
    } else {
        assert(written_positions(ps.take(n), k, start).take(
            written_positions(ps.take(m), k, start).len() as int,
        ) =~= written_positions(ps.take(m), k, start));
    }
}

/// Sample `i` of a fragment, of track `k`, gets the position where the samples before it end.
proof fn lemma_written_at(ps: Seq<(TrackKind, SampleMetadata)>, start: int, i: int)
    requires
        0 <= i < ps.len(),
    ensures
        ({
            let k = ps[i].0;
            let w = written_positions(ps, k, start);
            let j = written_positions(ps.take(i), k, start).len() as int;
            &&& j < w.len()
            &&& w[j] == start + pending_bytes(ps.take(i))
        }),
{
    let k = ps[i].0;
    assert(ps.take(i + 1).drop_last() =~= ps.take(i));
    lemma_written_prefix(ps, k, start, i + 1, ps.len() as int);
    assert(ps.take(ps.len() as int) =~= ps);
    let w1 = written_positions(ps.take(i + 1), k, start);
    let w = written_positions(ps, k, start);
    let j = written_positions(ps.take(i), k, start).len() as int;
    assert(w1[j] == start + pending_bytes(ps.take(i)));
    assert(w.take(w1.len() as int)[j] == w1[j]);
}

/// Writing a fragment whose first sample follows a sample of the other track (or none) puts
/// each of its samples, in the chunks that the final `moov` box describes, where its data was
/// written: the fragment's data is the last `pending_bytes` bytes of the file, and sample `i`
/// lies after the data of the fragment's samples before it, following the samples of its
/// track recorded before.
pub proof fn lemma_fragment_places_samples(d: Mp4HybridFileMuxer, e: Mp4HybridFileMuxer, i: int)
    requires
        fragment_written(d, e),
        fragment_opens(d),
        0 <= i < d.spec_pending().len(),
    ensures
        ({
            let ps = d.spec_pending();
            let k = ps[i].0;
            let before = (flat_positions(d.spec_chunks(k)).len() + pending_of_kind(ps.take(i), k).len()) as int;
            &&& before < flat_positions(e.spec_chunks(k)).len()
            &&& flat_positions(e.spec_chunks(k))[before] == e.spec_file_size() - pending_bytes(ps)
                + pending_bytes(ps.take(i))
        }),
{
    let ps = d.spec_pending();
    let k = ps[i].0;
    let moof = choose|moof: MoofBox|
        {
            let mb = encoded_moof(moof);
            let hb = hybrid_mdat_header(pending_bytes(ps) as u64);
            &&& #[trigger] moof.mfhd_box.sequence_number == d.spec_next_sequence_number()
            &&& e.spec_file_size() == d.spec_file_size() + mb.len() + hb.len() + pending_bytes(ps)
            &&& fragment_opens(d) ==> flat_positions(e.spec_chunks(TrackKind::Audio)) == flat_positions(
                d.spec_chunks(TrackKind::Audio),
            ) + written_positions(ps, TrackKind::Audio, d.spec_file_size() + mb.len() + hb.len())
            &&& fragment_opens(d) ==> flat_positions(e.spec_chunks(TrackKind::Video)) == flat_positions(
                d.spec_chunks(TrackKind::Video),
            ) + written_positions(ps, TrackKind::Video, d.spec_file_size() + mb.len() + hb.len())
            &&& outputs_maybe_moov(
                e,
                d.spec_outputs() + seq![
                    (d.spec_file_size(), mb),
                    ((d.spec_file_size() + mb.len()) as u64, hybrid_mdat_header(pending_bytes(ps) as u64)),
                ],
                e.spec_outputs(),
            )
        };
    let start = d.spec_file_size() + encoded_moof(moof).len() + hybrid_mdat_header(pending_bytes(ps) as u64).len();
    lemma_written_at(ps, start, i);
    lemma_written_len(ps.take(i), k, start);
    assert(flat_positions(e.spec_chunks(k)) == flat_positions(d.spec_chunks(k)) + written_positions(ps, k, start));
}

/// As many positions are written for a track as the fragment has samples of it.
proof fn lemma_written_len(ps: Seq<(TrackKind, SampleMetadata)>, k: TrackKind, start: int)
    ensures
        written_positions(ps, k, start).len() == pending_of_kind(ps, k).len(),
    decreases ps.len(),
{
    if ps.len() > 0 {
        lemma_written_len(ps.drop_last(), k, start);
    }
}

/// Whether `e` keeps what `d` knows of the tracks, the options, the outputs handed out and
/// the end of the muxing.
pub open spec fn keeps_setup(d: Mp4HybridFileMuxer, e: Mp4HybridFileMuxer) -> bool {
    &&& e.spec_timescale(TrackKind::Audio) == d.spec_timescale(TrackKind::Audio)
    &&& e.spec_timescale(TrackKind::Video) == d.spec_timescale(TrackKind::Video)
    &&& e.spec_track_id(TrackKind::Audio) == d.spec_track_id(TrackKind::Audio)
    &&& e.spec_track_id(TrackKind::Video) == d.spec_track_id(TrackKind::Video)
    &&& e.spec_options() == d.spec_options()
    &&& e.spec_finalized() == d.spec_finalized()
    &&& e.spec_next_output_index() == d.spec_next_output_index()
    &&& e.spec_ftyp_end() == d.spec_ftyp_end()
    &&& e.spec_moov_end() == d.spec_moov_end()
}

/// A `moov` pair for a state is one for another state with the same tracks and room.
proof fn lemma_maybe_moov_transfer(
    d: Mp4HybridFileMuxer,
    e: Mp4HybridFileMuxer,
    prev: Seq<(u64, Seq<u8>)>,
    outs: Seq<(u64, Seq<u8>)>,
)
    requires
        outputs_maybe_moov(d, prev, outs),
        e.same_but_outputs(d),
    ensures
        outputs_maybe_moov(e, prev, outs),
{
    if outs != prev {
        let pair = outs.subrange(prev.len() as int, prev.len() as int + 2);
        let m = choose|m: MoovBox|
            #[trigger] moov_of(m, d, true) && {
                let b = encoded_moov(m);
                let moov_offset = d.spec_moov_end() - b.len();
                &&& b.len() <= d.spec_options().reserved_moov_box_size
                &&& pair == seq![
                    (d.spec_ftyp_end(), be_u32((moov_offset - d.spec_ftyp_end()) as u32)),
                    (moov_offset as u64, b),
                ]
            };
        assert(moov_of(m, e, true));
    }
}

impl Mp4HybridFileMuxer {
    /// Empties the current fragment and moves to the next sequence number.
    fn reset_fragment_state(&mut self)
        requires
            old(self).wf(),
        ensures
            final(self).wf(),
            final(self).fragment_samples@.len() == 0,
            final(self).next_sequence_number == old(self).next_sequence_number.saturating_add(1),
            final(self).outputs == old(self).outputs,
            final(self).next_output_index == old(self).next_output_index,
            final(self).file_size == old(self).file_size,
            final(self).ftyp_box_end_offset == old(self).ftyp_box_end_offset,
            final(self).moov_box_end_offset == old(self).moov_box_end_offset,
            final(self).audio_chunks == old(self).audio_chunks,
            final(self).video_chunks == old(self).video_chunks,
            final(self).audio_track_timescale == old(self).audio_track_timescale,
            final(self).video_track_timescale == old(self).video_track_timescale,
            final(self).audio_track_id == old(self).audio_track_id,
            final(self).video_track_id == old(self).video_track_id,
            final(self).finalized == old(self).finalized,
            final(self).options == old(self).options,
    {
        self.fragment_samples.clear();
        self.fragment_elapsed_audio = 0;
        self.fragment_elapsed_video = 0;
        self.fragment_pending_cut = false;
        self.fragment_has_audio = false;
        self.fragment_has_video = false;
        self.fragment_base_decode_time_audio = None;
        self.fragment_base_decode_time_video = None;
        self.fragment_sample_entry_audio = None;
        self.fragment_sample_entry_video = None;
        self.fragment_sample_entry_index_audio = None;
        self.fragment_sample_entry_index_video = None;
        self.next_sequence_number = self.next_sequence_number.saturating_add(1);
    }

    /// Writes the current fragment (when it has samples): records its samples in the chunks,
    /// outputs its `moof` box and `mdat` header, and updates the `moov` box in the room kept
    /// for it.
    ///
    /// Fails with [`MuxError::EncodeError`] when a box cannot be encoded, a data offset does
    /// not fit a signed 32-bit value, or a size or offset does not fit 64 bits.
    fn finalize_fragment(&mut self) -> (r: Result<(), MuxError>)
        requires
            old(self).wf(),
        ensures
            final(self).wf(),
            keeps_setup(*old(self), *final(self)),
            old(self).spec_pending().len() == 0 ==> r is Ok && *final(self) == *old(self),
            old(self).spec_pending().len() > 0 && r is Ok ==> fragment_written(*old(self), *final(self)),
            r matches Err(e) ==> e matches MuxError::EncodeError(_),
            final(self).audio_track_id == old(self).audio_track_id,
            final(self).video_track_id == old(self).video_track_id,
            final(self).audio_track_timescale == old(self).audio_track_timescale,
            final(self).video_track_timescale == old(self).video_track_timescale,
            final(self).finalized == old(self).finalized,
            final(self).options == old(self).options,
    {
        if self.fragment_samples.len() == 0 {
            return Ok(());
        }
        let ghost d = *self;
        let (runs, payload) = match self.build_fragment_runs() {
            Some(x) => x,
            None => {
                return Err(MuxError::EncodeError(Error::invalid_input("fragment data is too large")));
            },
        };
        let mdat_header = build_mdat_header(payload)?;
        let header_size = mdat_header.len();
        let moof_bytes = self.build_moof_bytes(runs.as_slice(), header_size)?;
        let moof_size = moof_bytes.len();
        let start = match self.file_size.checked_add(moof_size as u64) {
            Some(x) => match x.checked_add(header_size as u64) {
                Some(y) => y,
                None => {
                    return Err(MuxError::EncodeError(Error::invalid_input("file size overflow")));
                },
            },
            None => {
                return Err(MuxError::EncodeError(Error::invalid_input("file size overflow")));
            },
        };
        let new_size = match start.checked_add(payload) {
            Some(x) => x,
            None => {
                return Err(MuxError::EncodeError(Error::invalid_input("file size overflow")));
            },
        };
        self.record_fragment_samples(start)?;
        let fs = self.file_size;
        self.push_pair(
            Output { offset: fs, bytes: moof_bytes },
            Output { offset: fs + moof_size as u64, bytes: mdat_header },
        );
        self.file_size = new_size;
        self.reset_fragment_state();
        let ghost before_update = *self;
        let ghost prev = self.spec_outputs();
        self.maybe_update_moov_box()?;
        proof {
            lemma_maybe_moov_transfer(before_update, *self, prev, self.spec_outputs());
            lemma_pending_bytes(d.fragment_samples@, d.fragment_samples@.len() as int);
            assert(d.fragment_samples@.subrange(0, d.fragment_samples@.len() as int) =~= d.fragment_samples@);
            let moof = choose|m: MoofBox|
                m.mfhd_box.sequence_number == d.next_sequence_number && moof_bytes@ == #[trigger] encoded_moof(m);
            assert(prev == d.spec_outputs() + seq![
                (d.spec_file_size(), encoded_moof(moof)),
                ((d.spec_file_size() + encoded_moof(moof).len()) as u64, hybrid_mdat_header(pending_bytes(d.spec_pending()) as u64)),
            ]);
        }
        Ok(())
    }
}

/// No sample of track `k` among `ps` leaves none in `pending_of_kind(ps, k)`.
proof fn lemma_pending_of_kind_absent(ps: Seq<(TrackKind, SampleMetadata)>, k: TrackKind)
    requires
        forall|i: int| 0 <= i < ps.len() ==> (#[trigger] ps[i]).0 != k,
    ensures
        pending_of_kind(ps, k).len() == 0,
    decreases ps.len(),
{
    if ps.len() > 0 {
        lemma_pending_of_kind_absent(ps.drop_last(), k);
    }
}

/// A list of non-empty chunks with no samples is empty.
proof fn lemma_flat_empty(cs: Seq<Chunk>)
    requires
        forall|i: int| 0 <= i < cs.len() ==> (#[trigger] cs[i]).samples@.len() > 0,
        flat_samples(cs).len() == 0,
    ensures
        cs.len() == 0,
{
    if cs.len() > 0 {
        assert(cs.last().samples@.len() > 0);
    }
}

impl Mp4HybridFileMuxer {
    /// Without a sample entry for track `k` in the current fragment, the fragment has no
    /// sample of `k`.
    proof fn lemma_no_pending_of_kind(self, k: TrackKind)
        requires
            self.wf(),
            match k {
                TrackKind::Audio => self.fragment_sample_entry_audio is None,
                TrackKind::Video => self.fragment_sample_entry_video is None,
            },
        ensures
            pending_of_kind(self.spec_pending(), k).len() == 0,
    {
        let ps = self.spec_pending();
        assert forall|i: int| 0 <= i < ps.len() implies (#[trigger] ps[i]).0 != k by {
            let p = self.fragment_samples@[i];
            assert(ps[i] == pending_meta(p));
        }
        lemma_pending_of_kind_absent(ps, k);
    }

    /// The chunks of a track of a well-formed muxer hold no empty chunk.
    proof fn lemma_chunks_nonempty(self, k: TrackKind)
        requires
            self.wf(),
        ensures
            forall|i: int| 0 <= i < self.spec_chunks(k).len() ==> (#[trigger] self.spec_chunks(k)[i]).samples@.len() > 0,
    {
    }
}

impl Mp4HybridFileMuxer {
    /// Adds a sample whose data the caller writes after the outputs handed out so far.
    ///
    /// The current fragment ends first when [`spec_should_cut`] says so. Fails with
    /// [`MuxError::AlreadyFinalized`] after [`Mp4HybridFileMuxer::finalize()`], with
    /// [`MuxError::TimescaleMismatch`] when the sample's timescale differs from its track's
    /// (both changing nothing), with [`MuxError::MissingSampleEntry`] when the first sample of
    /// a track has no sample entry, and with [`MuxError::EncodeError`] when the size of the
    /// sample does not fit 32 bits, its track's decode time does not fit 64 bits, or ending the
    /// fragment fails.
    #[verifier::rlimit(60)]
    pub fn append_sample(&mut self, sample: &Mp4HybridSample) -> (r: Result<(), MuxError>)
        requires
            old(self).wf(),
        ensures
            final(self).wf(),
            old(self).spec_finalized() ==> (r matches Err(MuxError::AlreadyFinalized)) && *final(self)
                == *old(self),
            !old(self).spec_finalized() && old(self).spec_timescale(sample.track_kind) is Some
                && old(self).spec_timescale(sample.track_kind) != Some(sample.timescale) ==> (r matches Err(
                e,
            ) && e == (MuxError::TimescaleMismatch {
                track_kind: sample.track_kind,
                expected: old(self).spec_timescale(sample.track_kind)->Some_0,
                actual: sample.timescale,
            })) && *final(self) == *old(self),
            r matches Err(MuxError::MissingSampleEntry { track_kind }) ==> track_kind == sample.track_kind
                && sample.sample_entry is None && old(self).spec_chunks(track_kind).len() == 0
                && pending_of_kind(old(self).spec_pending(), track_kind).len() == 0,
            r matches Err(e) ==> match e {
                MuxError::AlreadyFinalized => true,
                MuxError::TimescaleMismatch { .. } => true,
                MuxError::MissingSampleEntry { .. } => true,
                MuxError::EncodeError(_) => true,
                _ => false,
            },
            r is Ok ==> {
                let k = sample.track_kind;
                let m = SampleMetadata {
                    duration: sample.duration,
                    keyframe: sample.keyframe,
                    size: sample.data_size as u32,
                };
                &&& sample.data_size <= u32::MAX
                &&& !final(self).spec_finalized()
                &&& final(self).spec_timescale(k) == Some(sample.timescale)
                &&& final(self).spec_options() == old(self).spec_options()
                &&& final(self).spec_next_output_index() == old(self).spec_next_output_index()
                &&& if spec_should_cut(*old(self), *sample) {
                    &&& final(self).spec_pending() == seq![(k, m)]
                    &&& exists|mid: Mp4HybridFileMuxer|
                        {
                            &&& #[trigger] fragment_written(*old(self), mid)
                            &&& mid.spec_outputs() == final(self).spec_outputs()
                            &&& mid.spec_file_size() == final(self).spec_file_size()
                            &&& mid.spec_chunks(TrackKind::Audio) == final(self).spec_chunks(TrackKind::Audio)
                            &&& mid.spec_chunks(TrackKind::Video) == final(self).spec_chunks(TrackKind::Video)
                            &&& mid.spec_next_sequence_number() == final(self).spec_next_sequence_number()
                        }
                } else {
                    &&& final(self).spec_pending() == old(self).spec_pending().push((k, m))
                    &&& final(self).spec_outputs() == old(self).spec_outputs()
                    &&& final(self).spec_file_size() == old(self).spec_file_size()
                    &&& final(self).spec_chunks(TrackKind::Audio) == old(self).spec_chunks(TrackKind::Audio)
                    &&& final(self).spec_chunks(TrackKind::Video) == old(self).spec_chunks(TrackKind::Video)
                    &&& final(self).spec_next_sequence_number() == old(self).spec_next_sequence_number()
                }
            },
    {
        if self.finalized {
            return Err(MuxError::AlreadyFinalized);
        }
        let kind = sample.track_kind;
        let ghost d0 = *self;
        self.ensure_track_timescale(kind, sample.timescale)?;
        self.ensure_track_id(kind);
        let ghost d1 = *self;
        let cut = self.should_finalize_before_sample(sample);
        assert(cut == spec_should_cut(d0, *sample));
        if cut {
            self.finalize_fragment()?;
        }
        let ghost d2 = *self;
        let sample_entry = match self.resolve_sample_entry(sample) {
            Ok(e) => e,
            Err(e) => {
                proof {
                    d1.lemma_chunks_nonempty(kind);
                    if cut {
                        assert(flat_samples(d2.spec_chunks(kind)) =~= Seq::empty());
                        lemma_flat_empty(d1.spec_chunks(kind));
                    } else {
                        d1.lemma_no_pending_of_kind(kind);
                    }
                }
                return Err(e);
            },
        };
        let index = self.ensure_sample_entry_index(kind, &sample_entry);
        let ghost d3 = *self;
        self.add_pending(sample, sample_entry, index)?;
        proof {
            if cut {
                assert(fragment_written(d0, d2));
                assert(self.spec_pending() =~= seq![
                    (kind, SampleMetadata { duration: sample.duration, keyframe: sample.keyframe, size: sample.data_size as u32 }),
                ]);
            }
        }
        Ok(())
    }
}

/// Whether `e` is `d` finished: `mid` is `d` after its last fragment is written; then the
/// header of an `mdat` box that spans all the fragments is output over the start of the room
/// after the `ftyp` box, and the `moov` box `m` of all the samples at the end of the file.
pub open spec fn file_finished(d: Mp4HybridFileMuxer, mid: Mp4HybridFileMuxer, m: MoovBox, e: Mp4HybridFileMuxer) -> bool {
    &&& d.spec_pending().len() == 0 ==> mid == d
    &&& d.spec_pending().len() > 0 ==> fragment_written(d, mid)
    &&& moov_of(m, mid, false)
    &&& e.spec_finalized()
    &&& e.spec_pending().len() == 0
    &&& e.spec_chunks(TrackKind::Audio) == mid.spec_chunks(TrackKind::Audio)
    &&& e.spec_chunks(TrackKind::Video) == mid.spec_chunks(TrackKind::Video)
    &&& e.spec_outputs() == mid.spec_outputs() + seq![
        (mid.spec_ftyp_end(), hybrid_mdat_header((mid.spec_file_size() - mid.spec_ftyp_end()) as u64)),
        (mid.spec_file_size(), encoded_moov(m)),
    ]
    &&& e.spec_file_size() == mid.spec_file_size() + encoded_moov(m).len()
}

impl Mp4HybridFileMuxer {
    /// Ends the muxing: writes the current fragment, then outputs the header of an `mdat` box
    /// that spans all the fragments right after the `ftyp` box, and the `moov` box of all the
    /// samples at the end of the file.
    ///
    /// Fails with [`MuxError::AlreadyFinalized`] when called again (changing nothing), and
    /// with [`MuxError::EncodeError`] when a box cannot be built or encoded or the file size
    /// does not fit 64 bits.
    pub fn finalize(&mut self) -> (r: Result<(), MuxError>)
        requires
            old(self).wf(),
        ensures
            final(self).wf(),
            old(self).spec_finalized() ==> (r matches Err(MuxError::AlreadyFinalized)) && *final(self) == *old(self),
            r matches Err(e) ==> match e {
                MuxError::AlreadyFinalized => old(self).spec_finalized(),
                MuxError::EncodeError(_) => !old(self).spec_finalized(),
                _ => false,
            },
            r is Ok ==> !old(self).spec_finalized() && exists|mid: Mp4HybridFileMuxer, m: MoovBox|
                #[trigger] file_finished(*old(self), mid, m, *final(self)),
            final(self).spec_next_output_index() == old(self).spec_next_output_index(),
            final(self).spec_options() == old(self).spec_options(),
    {
        if self.finalized {
            return Err(MuxError::AlreadyFinalized);
        }
        let ghost d = *self;
        self.finalize_fragment()?;
        self.finalized = true;
        let ghost mid = *self;
        let size = self.file_size - self.ftyp_box_end_offset;
        let header = build_mdat_header(size)?;
        let moov = self.build_moov_box(false)?;
        let bytes = match crate::mux::encode_moov(&moov) {
            Ok(b) => b,
            Err(e) => {
                return Err(MuxError::EncodeError(e));
            },
        };
        let n = bytes.len() as u64;
        let new_size = match self.file_size.checked_add(n) {
            Some(x) => x,
            None => {
                return Err(MuxError::EncodeError(Error::invalid_input("file size overflow")));
            },
        };
        let fs = self.file_size;
        let fe = self.ftyp_box_end_offset;
        self.push_pair(Output { offset: fe, bytes: header }, Output { offset: fs, bytes });
        self.file_size = new_size;
        proof {
            let mid0 = Mp4HybridFileMuxer { finalized: d.finalized, ..mid };
            assert(file_finished(d, mid0, moov, *self));
        }
        Ok(())
    }
}

impl Mp4HybridFileMuxer {
    /// Adds a sample to the current fragment (starting a new one when it is empty).
    ///
    /// Fails with [`MuxError::EncodeError`] when the size of the sample does not fit 32 bits or
    /// the decode time of its track does not fit 64 bits.
    #[verifier::rlimit(40)]
    fn add_pending(&mut self, sample: &Mp4HybridSample, sample_entry: SampleEntry, index: u32) -> (r: Result<(), MuxError>)
        requires
            old(self).wf(),
            old(self).spec_timescale(sample.track_kind) is Some,
            match sample.track_kind {
                TrackKind::Audio => old(self).audio_track_id is Some,
                TrackKind::Video => old(self).video_track_id is Some,
            },
        ensures
            final(self).wf(),
            r is Ok ==> sample.data_size <= u32::MAX && final(self).spec_pending() == old(self).spec_pending().push(
                (
                    sample.track_kind,
                    SampleMetadata {
                        duration: sample.duration,
                        keyframe: sample.keyframe,
                        size: sample.data_size as u32,
                    },
                ),
            ),
            r matches Err(e) ==> e matches MuxError::EncodeError(_),
            final(self).spec_outputs() == old(self).spec_outputs(),
            final(self).spec_file_size() == old(self).spec_file_size(),
            final(self).spec_chunks(TrackKind::Audio) == old(self).spec_chunks(TrackKind::Audio),
            final(self).spec_chunks(TrackKind::Video) == old(self).spec_chunks(TrackKind::Video),
            final(self).spec_next_sequence_number() == old(self).spec_next_sequence_number(),
            final(self).audio_track_timescale == old(self).audio_track_timescale,
            final(self).video_track_timescale == old(self).video_track_timescale,
            final(self).finalized == old(self).finalized,
            final(self).options == old(self).options,
            final(self).next_output_index == old(self).next_output_index,
    {
        let kind = sample.track_kind;
        if self.fragment_samples.len() == 0 {
            self.fragment_elapsed_audio = 0;
            self.fragment_elapsed_video = 0;
            self.fragment_pending_cut = false;
            self.fragment_has_audio = false;
            self.fragment_has_video = false;
            self.fragment_base_decode_time_audio = None;
            self.fragment_base_decode_time_video = None;
            self.fragment_sample_entry_audio = None;
            self.fragment_sample_entry_video = None;
        }
        if sample.data_size > 0xffff_ffff {
            return Err(MuxError::EncodeError(Error::invalid_input("sample data size is too large")));
        }
        let size = sample.data_size as u32;
        let decode_time = match kind {
            TrackKind::Audio => self.audio_decode_time,
            TrackKind::Video => self.video_decode_time,
        };
        if decode_time > u64::MAX - sample.duration as u64 {
            return Err(MuxError::EncodeError(Error::invalid_input("decode time overflow")));
        }
        let sd = sample_duration_nanos(sample.duration, sample.timescale);
        match kind {
            TrackKind::Audio => {
                self.fragment_sample_entry_audio = Some(sample_entry.duplicate());
                self.fragment_sample_entry_index_audio = Some(index);
                if self.fragment_base_decode_time_audio.is_none() {
                    self.fragment_base_decode_time_audio = Some(self.audio_decode_time);
                }
                self.audio_decode_time = self.audio_decode_time + sample.duration as u64;
                self.fragment_has_audio = true;
                self.fragment_elapsed_audio = if self.fragment_elapsed_audio + sd > 0x4000_0000_0000_0000_0000_0000_0000_0000 {
                    0x4000_0000_0000_0000_0000_0000_0000_0000
                } else {
                    self.fragment_elapsed_audio + sd
                };
            },
            TrackKind::Video => {
                self.fragment_sample_entry_video = Some(sample_entry.duplicate());
                self.fragment_sample_entry_index_video = Some(index);
                if self.fragment_base_decode_time_video.is_none() {
                    self.fragment_base_decode_time_video = Some(self.video_decode_time);
                }
                self.video_decode_time = self.video_decode_time + sample.duration as u64;
                self.fragment_has_video = true;
                self.fragment_elapsed_video = if self.fragment_elapsed_video + sd > 0x4000_0000_0000_0000_0000_0000_0000_0000 {
                    0x4000_0000_0000_0000_0000_0000_0000_0000
                } else {
                    self.fragment_elapsed_video + sd
                };
            },
        }
        let ghost before_push = self.spec_pending();
        self.fragment_samples.push(
            PendingSample { track_kind: kind, sample_entry, duration: sample.duration, keyframe: sample.keyframe, size },
        );
        proof {
            assert(self.spec_pending() =~= before_push.push(
                (kind, SampleMetadata { duration: sample.duration, keyframe: sample.keyframe, size }),
            ));
        }
        let elapsed = if self.fragment_elapsed_audio >= self.fragment_elapsed_video {
            self.fragment_elapsed_audio
        } else {
            self.fragment_elapsed_video
        };
        if elapsed >= self.fragment_duration() {
            self.fragment_pending_cut = true;
        }
        Ok(())
    }
}


/// Writing a fragment keeps every output handed out before, in order, and only adds outputs
/// after them; the file does not shrink.
pub proof fn lemma_fragment_written_keeps_outputs(d: Mp4HybridFileMuxer, e: Mp4HybridFileMuxer)
    requires
        fragment_written(d, e),
    ensures
        e.spec_outputs().len() >= d.spec_outputs().len() + 2,
        e.spec_outputs().subrange(0, d.spec_outputs().len() as int) == d.spec_outputs(),
        e.spec_file_size() >= d.spec_file_size(),
{
    let moof = choose|moof: MoofBox|
        {
            let mb = encoded_moof(moof);
            let hb = hybrid_mdat_header(pending_bytes(d.spec_pending()) as u64);
            &&& #[trigger] moof.mfhd_box.sequence_number == d.spec_next_sequence_number()
            &&& e.spec_file_size() == d.spec_file_size() + mb.len() + hb.len() + pending_bytes(d.spec_pending())
            &&& outputs_maybe_moov(
                e,
                d.spec_outputs() + seq![
                    (d.spec_file_size(), mb),
                    ((d.spec_file_size() + mb.len()) as u64, hb),
                ],
                e.spec_outputs(),
            )
        };
    let mb = encoded_moof(moof);
    let hb = hybrid_mdat_header(pending_bytes(d.spec_pending()) as u64);
    let prev = d.spec_outputs() + seq![(d.spec_file_size(), mb), ((d.spec_file_size() + mb.len()) as u64, hb)];
    let outs = e.spec_outputs();
    if outs == prev {
        assert(outs.subrange(0, d.spec_outputs().len() as int) =~= d.spec_outputs());
    } else {
        assert(outs.subrange(0, prev.len() as int) == prev);
        assert(outs.subrange(0, d.spec_outputs().len() as int) =~= prev.subrange(0, d.spec_outputs().len() as int));
        assert(prev.subrange(0, d.spec_outputs().len() as int) =~= d.spec_outputs());
    }
    lemma_pending_bytes_nonneg(d.spec_pending());
}

/// The data of a fragment has a size of at least zero.
proof fn lemma_pending_bytes_nonneg(ps: Seq<(TrackKind, SampleMetadata)>)
    ensures
        pending_bytes(ps) >= 0,
    decreases ps.len(),
{
    if ps.len() > 0 {
        lemma_pending_bytes_nonneg(ps.drop_last());
    }
}

} // verus!
