//! Building a fragmented file: an initialization segment (`ftyp` and `moov` boxes without
//! samples), then fragments (a `moof` box and the header of the `mdat` box that follows it).
//! It does no I/O itself: the caller writes the bytes and the media data.
use crate::basic_types::{
    BoxHeader, BoxSize, Either, FixedPointNumber, Mp4FileTime, NonZeroU32, SampleFlags,
    Utf8String, unix_epoch_offset,
};
use crate::boxes::{
    same_sample_entry, Brand, DinfBox, FtypBox, HdlrBox, MdatBox, MdhdBox, MdiaBox, MfhdBox,
    MinfBox, MoofBox, MoovBox, MvexBox, MvhdBox, SampleEntry, SmhdBox, StblBox, StcoBox, StscBox,
    StsdBox, StszBox, SttsBox, TfdtBox, TfhdBox, TkhdBox, TrafBox, TrakBox, TrexBox, TrunBox,
    TrunSample, VmhdBox,
};
use crate::codec::{put_bytes, Encode, Error, ErrorKind};
use crate::demux::TrackKind;
use vstd::prelude::*;

verus! {

/// The options of a [`Mp4FragmentedFileMuxer`].
#[derive(Debug, Clone)]
pub struct Mp4FragmentedFileMuxerOptions {
    /// The major brand of the `ftyp` box.
    pub major_brand: Brand,
    /// The minor version of the `ftyp` box.
    pub minor_version: u32,
    /// The compatible brands of the `ftyp` box.
    pub compatible_brands: Vec<Brand>,
    /// The creation time written in the file, in seconds since the UNIX epoch.
    pub creation_timestamp: u64,
}

impl Default for Mp4FragmentedFileMuxerOptions {
    fn default() -> (r: Self)
        ensures
            r.major_brand.spec_bytes() == seq![0x69u8, 0x73u8, 0x6fu8, 0x6du8],
            r.minor_version == 0,
            r.compatible_brands@.len() == 5,
            r.compatible_brands@[0].spec_bytes() == seq![0x69u8, 0x73u8, 0x6fu8, 0x6du8],
            r.compatible_brands@[1].spec_bytes() == seq![0x69u8, 0x73u8, 0x6fu8, 0x36u8],
            r.compatible_brands@[2].spec_bytes() == seq![0x6du8, 0x70u8, 0x34u8, 0x31u8],
            r.compatible_brands@[3].spec_bytes() == seq![0x61u8, 0x76u8, 0x63u8, 0x31u8],
            r.compatible_brands@[4].spec_bytes() == seq![0x61u8, 0x76u8, 0x30u8, 0x31u8],
            r.creation_timestamp == 0,
    {
        let mut brands: Vec<Brand> = Vec::new();
        brands.push(Brand::ISOM());
        brands.push(Brand::ISO6());
        brands.push(Brand::MP41());
        brands.push(Brand::AVC1());
        brands.push(Brand::AV01());
        Self {
            major_brand: Brand::ISOM(),
            minor_version: 0,
            compatible_brands: brands,
            creation_timestamp: 0,
        }
    }
}

/// A track of a fragmented file.
#[derive(Debug, Clone)]
pub struct TrackConfig {
    /// The track id: not zero, and distinct from those of the other tracks.
    pub track_id: u32,
    /// The kind of the track.
    pub kind: TrackKind,
    /// The number of units of the track's time per second.
    pub timescale: NonZeroU32,
    /// The sample entry of the track's samples.
    pub sample_entry: SampleEntry,
}

/// A sample of a fragment.
#[derive(Debug, Clone, Copy)]
pub struct FragmentSample {
    /// The id of the sample's track.
    pub track_id: u32,
    /// The duration of the sample, in units of the track's timescale.
    pub duration: u32,
    /// The size of the sample's data in bytes.
    pub data_size: u32,
    /// Whether the sample is a key frame.
    pub keyframe: bool,
    /// The composition time offset of the sample.
    pub composition_time_offset: Option<i32>,
    /// The flags of the sample; when absent, they follow from `keyframe`.
    pub sample_flags: Option<SampleFlags>,
}

/// The boxes of a fragment: the caller writes the `moof` box, the `mdat` box header, then the
/// data of the fragment's samples in the order they were given.
#[derive(Debug)]
pub struct FragmentOutput {
    moof_box: MoofBox,
    moof_bytes: Vec<u8>,
    mdat_header_bytes: Vec<u8>,
    media_data_size: u64,
}

impl FragmentOutput {
    /// The `moof` box.
    pub closed spec fn spec_moof_box(&self) -> MoofBox {
        self.moof_box
    }

    /// The bytes of the `moof` box.
    pub closed spec fn spec_moof_bytes(&self) -> Seq<u8> {
        self.moof_bytes@
    }

    /// The bytes of the `mdat` box header.
    pub closed spec fn spec_mdat_header_bytes(&self) -> Seq<u8> {
        self.mdat_header_bytes@
    }

    /// The size of the media data of the fragment.
    pub closed spec fn spec_media_data_size(&self) -> u64 {
        self.media_data_size
    }

    /// The bytes of the `moof` box.
    pub fn moof_bytes(&self) -> (r: &[u8])
        ensures
            r@ == self.spec_moof_bytes(),
    {
        self.moof_bytes.as_slice()
    }

    /// The bytes of the `mdat` box header.
    pub fn mdat_header_bytes(&self) -> (r: &[u8])
        ensures
            r@ == self.spec_mdat_header_bytes(),
    {
        self.mdat_header_bytes.as_slice()
    }

    /// The size of the payload of the `mdat` box: the sum of the sizes of the samples.
    pub fn media_data_size(&self) -> (r: u64)
        ensures
            r == self.spec_media_data_size(),
    {
        self.media_data_size
    }

    /// The `moof` box.
    pub fn moof_box(&self) -> (r: &MoofBox)
        ensures
            *r == self.spec_moof_box(),
    {
        &self.moof_box
    }
}

/// The errors of the fragmented muxer.
#[derive(Debug, Clone)]
pub enum Fmp4MuxError {
    /// A box could not be encoded.
    EncodeError(Error),
    /// No track was given.
    EmptyTracks,
    /// A track id is zero.
    InvalidTrackId {
        /// The track id.
        track_id: u32,
    },
    /// Two tracks have the same id.
    DuplicateTrackId {
        /// The track id.
        track_id: u32,
    },
    /// A sample names a track that the muxer does not have.
    UnknownTrackId {
        /// The track id.
        track_id: u32,
    },
    /// A fragment has no sample.
    EmptyFragment,
    /// The samples of a track in a fragment are not consecutive.
    InterleavedSamples {
        /// The track id.
        track_id: u32,
    },
    /// The size of the media data does not fit 64 bits.
    MediaDataSizeOverflow,
    /// The offset of a track's data from the start of the `moof` box does not fit a signed
    /// 32-bit value.
    DataOffsetTooLarge {
        /// The offset.
        data_offset: u64,
    },
    /// The sequence number of the fragments does not fit 32 bits.
    SequenceNumberOverflow,
    /// The decode time of a track does not fit 64 bits.
    DecodeTimeOverflow {
        /// The track id.
        track_id: u32,
    },
    /// The track id after the largest does not fit 32 bits.
    NextTrackIdOverflow,
}

// ---------------------------------------------------------------------------
// The tracks
// ---------------------------------------------------------------------------

/// Whether track `k` of `ts` has a bad id: zero, or that of a track before it.
pub open spec fn track_id_bad(ts: Seq<TrackConfig>, k: int) -> bool {
    ts[k].track_id == 0 || exists|j: int| 0 <= j < k && ts[j].track_id == ts[k].track_id
}

/// The first track from `k` on with a bad id, or -1.
pub open spec fn first_bad_track(ts: Seq<TrackConfig>, k: int) -> int
    decreases ts.len() - k,
{
    if k < 0 || k >= ts.len() {
        -1
    } else if track_id_bad(ts, k) {
        k
    } else {
        first_bad_track(ts, k + 1)
    }
}

/// Whether the tracks can make a file: there is one, and their ids are not zero and distinct.
pub open spec fn tracks_valid(ts: Seq<TrackConfig>) -> bool {
    &&& ts.len() > 0
    &&& forall|i: int| 0 <= i < ts.len() ==> (#[trigger] ts[i]).track_id != 0
    &&& forall|i: int, j: int|
        0 <= i < j < ts.len() ==> (#[trigger] ts[i]).track_id != (#[trigger] ts[j]).track_id
}

/// The error for invalid tracks: none at all, or the first track with a bad id.
pub open spec fn tracks_error(ts: Seq<TrackConfig>) -> Fmp4MuxError {
    let k = first_bad_track(ts, 0);
    if ts.len() == 0 {
        Fmp4MuxError::EmptyTracks
    } else if ts[k].track_id == 0 {
        Fmp4MuxError::InvalidTrackId { track_id: 0 }
    } else {
        Fmp4MuxError::DuplicateTrackId { track_id: ts[k].track_id }
    }
}

/// Checks the tracks.
fn validate_tracks(tracks: &[TrackConfig]) -> (r: Result<(), Fmp4MuxError>)
    ensures
        r is Ok <==> tracks_valid(tracks@),
        r matches Err(e) ==> e == tracks_error(tracks@),
{
    let ghost ts = tracks@;
    if tracks.len() == 0 {
        return Err(Fmp4MuxError::EmptyTracks);
    }
    let mut i: usize = 0;
    while i < tracks.len()
        invariant
            ts == tracks@,
            i <= ts.len(),
            ts.len() > 0,
            forall|k: int| 0 <= k < i ==> !track_id_bad(ts, k),
            first_bad_track(ts, 0) == first_bad_track(ts, i as int),
        decreases ts.len() - i,
    {
        let id = tracks[i].track_id;
        if id == 0 {
            assert(track_id_bad(ts, i as int));
            return Err(Fmp4MuxError::InvalidTrackId { track_id: id });
        }
        let mut j: usize = 0;
        while j < i
            invariant
                ts == tracks@,
                j <= i < ts.len(),
                id == ts[i as int].track_id,
                id != 0,
                first_bad_track(ts, 0) == first_bad_track(ts, i as int),
                forall|m: int| 0 <= m < j ==> ts[m].track_id != id,
            decreases i - j,
        {
            if tracks[j].track_id == id {
                assert(track_id_bad(ts, i as int));
                return Err(Fmp4MuxError::DuplicateTrackId { track_id: id });
            }
            j += 1;
        }
        assert(!track_id_bad(ts, i as int));
        i += 1;
    }
    assert forall|a: int, b: int| 0 <= a < b < ts.len() implies (#[trigger] ts[a]).track_id
        != (#[trigger] ts[b]).track_id by {
        assert(!track_id_bad(ts, b));
    }
    assert forall|a: int| 0 <= a < ts.len() implies (#[trigger] ts[a]).track_id != 0 by {
        assert(!track_id_bad(ts, a));
    }
    Ok(())
}

/// The largest track id.
pub open spec fn max_track_id(ts: Seq<TrackConfig>) -> u32
    decreases ts.len(),
{
    if ts.len() == 0 {
        0
    } else {
        let m = max_track_id(ts.drop_last());
        if ts.last().track_id > m {
            ts.last().track_id
        } else {
            m
        }
    }
}

/// Returns the largest track id.
fn compute_max_track_id(tracks: &[TrackConfig]) -> (r: u32)
    ensures
        r == max_track_id(tracks@),
{
    let mut m: u32 = 0;
    let mut i: usize = 0;
    while i < tracks.len()
        invariant
            i <= tracks@.len(),
            m == max_track_id(tracks@.subrange(0, i as int)),
        decreases tracks@.len() - i,
    {
        proof {
            assert(tracks@.subrange(0, i + 1).drop_last() =~= tracks@.subrange(0, i as int));
        }
        if tracks[i].track_id > m {
            m = tracks[i].track_id;
        }
        i += 1;
    }
    assert(tracks@.subrange(0, i as int) =~= tracks@);
    m
}

// ---------------------------------------------------------------------------
// The initialization segment
// ---------------------------------------------------------------------------

/// The `ftyp` box of the options.
pub open spec fn options_ftyp(o: Mp4FragmentedFileMuxerOptions) -> FtypBox {
    FtypBox {
        major_brand: o.major_brand,
        minor_version: o.minor_version,
        compatible_brands: o.compatible_brands,
    }
}

/// Whether `t` is the `trak` box of the track `tc` in the initialization segment: no samples,
/// no duration, and the track's sample entry.
pub open spec fn init_trak_built(t: TrakBox, tc: TrackConfig, creation_secs: u64) -> bool {
    let stbl = t.mdia_box.minf_box.stbl_box;
    &&& t.tkhd_box.track_id == tc.track_id
    &&& t.tkhd_box.duration == 0
    &&& t.tkhd_box.flag_track_enabled && t.tkhd_box.flag_track_in_movie
    &&& !t.tkhd_box.flag_track_in_preview && !t.tkhd_box.flag_track_size_is_aspect_ratio
    &&& t.tkhd_box.creation_time.spec_secs() == creation_secs
    &&& t.tkhd_box.modification_time.spec_secs() == creation_secs
    &&& t.edts_box is None
    &&& t.mdia_box.mdhd_box.timescale == tc.timescale
    &&& t.mdia_box.mdhd_box.duration == 0
    &&& t.mdia_box.mdhd_box.creation_time.spec_secs() == creation_secs
    &&& t.mdia_box.hdlr_box.handler_type@ == match tc.kind {
        TrackKind::Audio => seq![0x73u8, 0x6fu8, 0x75u8, 0x6eu8],
        TrackKind::Video => seq![0x76u8, 0x69u8, 0x64u8, 0x65u8],
    }
    &&& match tc.kind {
        TrackKind::Audio => t.mdia_box.minf_box.smhd_or_vmhd_box matches Some(Either::A(_)),
        TrackKind::Video => t.mdia_box.minf_box.smhd_or_vmhd_box matches Some(Either::B(_)),
    }
    &&& stbl.stsd_box.entries@.len() == 1
    &&& same_sample_entry(stbl.stsd_box.entries@[0], tc.sample_entry)
    &&& stbl.stts_box.entries@.len() == 0
    &&& stbl.stsc_box.entries@.len() == 0
    &&& stbl.stsz_box matches StszBox::Variable { entry_sizes } && entry_sizes@.len() == 0
    &&& stbl.stco_or_co64_box matches Either::A(c) && c.chunk_offsets@.len() == 0
    &&& stbl.stss_box is None
}

/// Whether `x` is the `trex` box of the track `tc`: sample entry 1 and no other defaults.
pub open spec fn init_trex_built(x: TrexBox, tc: TrackConfig) -> bool {
    &&& x.track_id == tc.track_id
    &&& x.default_sample_description_index == 1
    &&& x.default_sample_duration == 0
    &&& x.default_sample_size == 0
    &&& x.default_sample_flags.spec_get() == 0
}

/// Whether `m` is the `moov` box of the initialization segment of the tracks `ts`: the
/// timescale of the first track, a `trak` box and a `trex` box per track, in order.
#[verifier::opaque]
pub open spec fn init_moov_built(m: MoovBox, ts: Seq<TrackConfig>, creation_secs: u64) -> bool {
    &&& m.mvhd_box.timescale == ts[0].timescale
    &&& m.mvhd_box.duration == 0
    &&& m.mvhd_box.next_track_id == max_track_id(ts) + 1
    &&& m.mvhd_box.creation_time.spec_secs() == creation_secs
    &&& m.mvhd_box.modification_time.spec_secs() == creation_secs
    &&& m.trak_boxes@.len() == ts.len()
    &&& forall|i: int|
        0 <= i < ts.len() ==> init_trak_built(#[trigger] m.trak_boxes@[i], ts[i], creation_secs)
    &&& m.mvex_box matches Some(x) && {
        &&& x.mehd_box is None
        &&& x.unknown_boxes@.len() == 0
        &&& x.trex_boxes@.len() == ts.len()
        &&& forall|i: int| 0 <= i < ts.len() ==> init_trex_built(#[trigger] x.trex_boxes@[i], ts[i])
    }
    &&& m.unknown_boxes@.len() == 0
}

/// Builds the `trak` box of a track of the initialization segment.
fn build_init_trak(track: &TrackConfig, creation_time: Mp4FileTime) -> (r: TrakBox)
    ensures
        init_trak_built(r, *track, creation_time.spec_secs()),
{
    let (w, h): (u16, u16) = match track.kind {
        TrackKind::Video => match track.sample_entry.video_resolution() {
            Some(res) => res,
            None => (0, 0),
        },
        TrackKind::Audio => (0, 0),
    };
    let tkhd_box = TkhdBox {
        flag_track_enabled: true,
        flag_track_in_movie: true,
        flag_track_in_preview: false,
        flag_track_size_is_aspect_ratio: false,
        creation_time,
        modification_time: creation_time,
        track_id: track.track_id,
        duration: 0,
        layer: TkhdBox::DEFAULT_LAYER(),
        alternate_group: TkhdBox::DEFAULT_ALTERNATE_GROUP(),
        volume: match track.kind {
            TrackKind::Audio => TkhdBox::DEFAULT_AUDIO_VOLUME(),
            TrackKind::Video => TkhdBox::DEFAULT_VIDEO_VOLUME(),
        },
        matrix: TkhdBox::DEFAULT_MATRIX(),
        width: FixedPointNumber::new(#[verifier::truncate] (w as i16), 0u16),
        height: FixedPointNumber::new(#[verifier::truncate] (h as i16), 0u16),
    };
    let mdhd_box = MdhdBox {
        creation_time,
        modification_time: creation_time,
        timescale: track.timescale,
        duration: 0,
        language: MdhdBox::LANGUAGE_UNDEFINED(),
    };
    let hdlr_box = HdlrBox {
        handler_type: match track.kind {
            TrackKind::Audio => HdlrBox::HANDLER_TYPE_SOUN(),
            TrackKind::Video => HdlrBox::HANDLER_TYPE_VIDE(),
        },
        name: Utf8String::EMPTY().into_null_terminated_bytes(),
    };
    let header = match track.kind {
        TrackKind::Audio => Either::A(SmhdBox { balance: SmhdBox::DEFAULT_BALANCE() }),
        TrackKind::Video => Either::B(
            VmhdBox {
                graphicsmode: VmhdBox::DEFAULT_GRAPHICSMODE(),
                opcolor: VmhdBox::DEFAULT_OPCOLOR(),
            },
        ),
    };
    let mut entries: Vec<SampleEntry> = Vec::new();
    entries.push(track.sample_entry.duplicate());
    let stbl_box = StblBox {
        stsd_box: StsdBox { entries },
        stts_box: SttsBox { entries: Vec::new() },
        stsc_box: StscBox { entries: Vec::new() },
        stsz_box: StszBox::Variable { entry_sizes: Vec::new() },
        stco_or_co64_box: Either::A(StcoBox { chunk_offsets: Vec::new() }),
        stss_box: None,
        unknown_boxes: Vec::new(),
    };
    let minf_box = MinfBox {
        smhd_or_vmhd_box: Some(header),
        dinf_box: DinfBox::LOCAL_FILE(),
        stbl_box,
        unknown_boxes: Vec::new(),
    };
    TrakBox {
        tkhd_box,
        edts_box: None,
        mdia_box: MdiaBox { mdhd_box, hdlr_box, minf_box, unknown_boxes: Vec::new() },
        unknown_boxes: Vec::new(),
    }
}

/// Builds the `moov` box of the initialization segment.
fn build_init_moov(tracks: &[TrackConfig], creation_time: Mp4FileTime, next_track_id: u32) -> (r:
    MoovBox)
    requires
        tracks@.len() > 0,
        next_track_id == max_track_id(tracks@) + 1,
    ensures
        init_moov_built(r, tracks@, creation_time.spec_secs()),
{
    let mut trak_boxes: Vec<TrakBox> = Vec::new();
    let mut trex_boxes: Vec<TrexBox> = Vec::new();
    let mut i: usize = 0;
    while i < tracks.len()
        invariant
            i <= tracks@.len(),
            trak_boxes@.len() == i,
            trex_boxes@.len() == i,
            forall|k: int|
                0 <= k < i ==> init_trak_built(
                    #[trigger] trak_boxes@[k],
                    tracks@[k],
                    creation_time.spec_secs(),
                ),
            forall|k: int| 0 <= k < i ==> init_trex_built(#[trigger] trex_boxes@[k], tracks@[k]),
        decreases tracks@.len() - i,
    {
        let t = &tracks[i];
        trak_boxes.push(build_init_trak(t, creation_time));
        trex_boxes.push(
            TrexBox {
                track_id: t.track_id,
                default_sample_description_index: 1,
                default_sample_duration: 0,
                default_sample_size: 0,
                default_sample_flags: SampleFlags::empty(),
            },
        );
        i += 1;
    }
    let mvhd_box = MvhdBox {
        creation_time,
        modification_time: creation_time,
        timescale: tracks[0].timescale,
        duration: 0,
        rate: MvhdBox::DEFAULT_RATE(),
        volume: MvhdBox::DEFAULT_VOLUME(),
        matrix: MvhdBox::DEFAULT_MATRIX(),
        next_track_id,
    };
    let mvex_box = MvexBox { mehd_box: None, trex_boxes, unknown_boxes: Vec::new() };
    let m = MoovBox { mvhd_box, trak_boxes, mvex_box: Some(mvex_box), unknown_boxes: Vec::new() };
    assert(init_moov_built(m, tracks@, creation_time.spec_secs())) by {
        reveal(init_moov_built);
    }
    m
}

/// Builds the initialization segment: the `ftyp` box of the options, then the `moov` box of
/// the tracks, which it returns too.
///
/// Fails with [`Fmp4MuxError::EncodeError`] when the creation time does not fit the file's
/// 64-bit times or a box does not fit its size field, and with
/// [`Fmp4MuxError::NextTrackIdOverflow`] when the largest track id is 2^32 - 1.
fn build_init_segment(tracks: &[TrackConfig], options: &Mp4FragmentedFileMuxerOptions) -> (r: Result<
    (Vec<u8>, Ghost<MoovBox>),
    Fmp4MuxError,
>)
    requires
        tracks_valid(tracks@),
    ensures
        options.creation_timestamp + unix_epoch_offset() > u64::MAX ==> (r matches Err(
            Fmp4MuxError::EncodeError(e),
        ) && e.kind == ErrorKind::InvalidInput),
        options.creation_timestamp + unix_epoch_offset() <= u64::MAX && max_track_id(tracks@)
            == u32::MAX ==> r matches Err(Fmp4MuxError::NextTrackIdOverflow),
        r matches Ok((bytes, m)) ==> {
            &&& init_moov_built(m@, tracks@, (options.creation_timestamp + unix_epoch_offset()) as u64)
            &&& options_ftyp(*options).spec_encodable()
            &&& m@.spec_encodable()
            &&& bytes@ == options_ftyp(*options).spec_encoding() + m@.spec_encoding()
        },
        r matches Err(Fmp4MuxError::EncodeError(e)) ==> e.kind == ErrorKind::InvalidInput,
        options.creation_timestamp + unix_epoch_offset() <= u64::MAX && max_track_id(tracks@)
            < u32::MAX && r is Err ==> (r matches Err(Fmp4MuxError::EncodeError(_)) && (
        !options_ftyp(*options).spec_encodable() || exists|m: MoovBox|
            init_moov_built(m, tracks@, (options.creation_timestamp + unix_epoch_offset()) as u64)
                && !m.spec_encodable())),
{
    let mut brands: Vec<Brand> = Vec::new();
    let mut i: usize = 0;
    while i < options.compatible_brands.len()
        invariant
            i <= options.compatible_brands@.len(),
            brands@ == options.compatible_brands@.subrange(0, i as int),
        decreases options.compatible_brands@.len() - i,
    {
        brands.push(options.compatible_brands[i]);
        proof {
            assert(brands@ =~= options.compatible_brands@.subrange(0, i + 1));
        }
        i += 1;
    }
    assert(brands@ =~= options.compatible_brands@);
    let ftyp_box = FtypBox {
        major_brand: options.major_brand,
        minor_version: options.minor_version,
        compatible_brands: brands,
    };
    assert(ftyp_box.spec_encoding() == options_ftyp(*options).spec_encoding());
    assert(ftyp_box.spec_encodable() == options_ftyp(*options).spec_encodable());
    if options.creation_timestamp > 0xffff_ffff_ffff_ffff - 2082844800 {
        return Err(
            Fmp4MuxError::EncodeError(Error::invalid_input("creation time out of range")),
        );
    }
    let creation_time = Mp4FileTime::from_unix_time(options.creation_timestamp);
    let max_id = compute_max_track_id(tracks);
    if max_id == u32::MAX {
        return Err(Fmp4MuxError::NextTrackIdOverflow);
    }
    let moov_box = build_init_moov(tracks, creation_time, max_id + 1);
    let mut bytes = match ftyp_box.encode_to_vec() {
        Ok(b) => b,
        Err(e) => {
            return Err(Fmp4MuxError::EncodeError(e));
        },
    };
    let moov_bytes = match moov_box.encode_to_vec() {
        Ok(b) => b,
        Err(e) => {
            return Err(Fmp4MuxError::EncodeError(e));
        },
    };
    put_bytes(&mut bytes, moov_bytes.as_slice());
    Ok((bytes, Ghost(moov_box)))
}

// ---------------------------------------------------------------------------
// Fragments
// ---------------------------------------------------------------------------

/// The runs of the first `n` samples of `s`: the maximal ranges `(start, end)` of consecutive
/// samples of one track, in order.
pub open spec fn runs(s: Seq<FragmentSample>, n: int) -> Seq<(int, int)>
    decreases n,
{
    if n <= 0 {
        Seq::empty()
    } else {
        let r = runs(s, n - 1);
        if n > 1 && s[n - 2].track_id == s[n - 1].track_id {
            r.update(r.len() - 1, (r.last().0, n))
        } else {
            r.push((n - 1, n))
        }
    }
}

/// The sum of the durations of samples `a .. b` of `s`.
pub open spec fn duration_sum(s: Seq<FragmentSample>, a: int, b: int) -> int
    decreases b - a,
{
    if b <= a {
        0
    } else {
        duration_sum(s, a, b - 1) + s[b - 1].duration
    }
}

/// The sum of the data sizes of samples `a .. b` of `s`.
pub open spec fn size_sum(s: Seq<FragmentSample>, a: int, b: int) -> int
    decreases b - a,
{
    if b <= a {
        0
    } else {
        size_sum(s, a, b - 1) + s[b - 1].data_size
    }
}

/// Whether a sample of `a .. b` of `s` has a composition time offset.
pub open spec fn any_cto(s: Seq<FragmentSample>, a: int, b: int) -> bool {
    exists|i: int| a <= i < b && (#[trigger] s[i]).composition_time_offset is Some
}

/// Whether a track of `ts` has the id `id`.
pub open spec fn track_known(ts: Seq<TrackConfig>, id: u32) -> bool {
    exists|t: int| 0 <= t < ts.len() && (#[trigger] ts[t]).track_id == id
}

/// The index of the track of `ts` with the id `id`.
pub open spec fn track_of(ts: Seq<TrackConfig>, id: u32) -> int {
    choose|t: int| 0 <= t < ts.len() && (#[trigger] ts[t]).track_id == id
}

/// Whether the samples of each track are consecutive in `s`.
pub open spec fn samples_contiguous(s: Seq<FragmentSample>) -> bool {
    forall|a: int, c: int, b: int|
        0 <= a < c < b < s.len() && (#[trigger] s[a]).track_id == (#[trigger] s[b]).track_id
            ==> (#[trigger] s[c]).track_id == s[a].track_id
}

/// Whether the samples of each track are consecutive among the first `n` of `s`.
pub open spec fn contiguous_prefix(s: Seq<FragmentSample>, n: int) -> bool {
    forall|a: int, c: int, b: int|
        0 <= a < c < b < n && (#[trigger] s[a]).track_id == (#[trigger] s[b]).track_id
            ==> (#[trigger] s[c]).track_id == s[a].track_id
}

/// Whether the samples can form a fragment: each names a known track, the samples of a track
/// are consecutive, and the durations of each run fit 64 bits, as does the sum of all sizes.
pub open spec fn samples_groupable(s: Seq<FragmentSample>, ts: Seq<TrackConfig>) -> bool {
    &&& forall|i: int| 0 <= i < s.len() ==> track_known(ts, (#[trigger] s[i]).track_id)
    &&& samples_contiguous(s)
    &&& forall|k: int|
        0 <= k < runs(s, s.len() as int).len() ==> duration_sum(
            s,
            (#[trigger] runs(s, s.len() as int)[k]).0,
            runs(s, s.len() as int)[k].1,
        ) <= u64::MAX
    &&& size_sum(s, 0, s.len() as int) <= u64::MAX
}

/// A run of consecutive samples of one track in a fragment.
#[derive(Debug, Clone, Copy)]
struct TrackFragment {
    track_index: usize,
    track_id: u32,
    start: usize,
    end: usize,
    base_decode_time: u64,
    duration_sum: u64,
    data_size_sum: u64,
    use_composition_time_offset: bool,
}

/// Whether `f` describes the run `r` of `s`, of the track `ts[f.track_index]` whose next
/// decode time is in `times`.
spec fn fragment_of(
    f: TrackFragment,
    s: Seq<FragmentSample>,
    r: (int, int),
    ts: Seq<TrackConfig>,
    times: Seq<u64>,
) -> bool {
    &&& f.start == r.0
    &&& f.end == r.1
    &&& 0 <= r.0 < r.1 <= s.len()
    &&& f.track_id == s[r.0].track_id
    &&& 0 <= f.track_index < ts.len()
    &&& ts[f.track_index as int].track_id == f.track_id
    &&& f.base_decode_time == times[f.track_index as int]
    &&& f.duration_sum == duration_sum(s, r.0, r.1)
    &&& f.data_size_sum == size_sum(s, r.0, r.1)
    &&& f.use_composition_time_offset == any_cto(s, r.0, r.1)
}

/// The runs of the first `n` samples: in order, each of one track, covering `0 .. n`.
#[verifier::spinoff_prover]
#[verifier::rlimit(40)]
proof fn lemma_runs_shape(s: Seq<FragmentSample>, n: int)
    requires
        0 <= n <= s.len(),
    ensures
        n == 0 <==> runs(s, n).len() == 0,
        n > 0 ==> runs(s, n)[0].0 == 0 && runs(s, n).last().1 == n,
        forall|k: int|
            0 <= k < runs(s, n).len() ==> 0 <= (#[trigger] runs(s, n)[k]).0 < runs(s, n)[k].1 <= n,
        forall|k: int|
            0 <= k < runs(s, n).len() - 1 ==> (#[trigger] runs(s, n)[k]).1 == runs(s, n)[k + 1].0,
        forall|k: int, i: int|
            0 <= k < runs(s, n).len() && (#[trigger] runs(s, n)[k]).0 <= i < runs(s, n)[k].1
                ==> (#[trigger] s[i]).track_id == s[runs(s, n)[k].0].track_id,
        forall|k: int|
            0 <= k < runs(s, n).len() - 1 ==> s[(#[trigger] runs(s, n)[k]).0].track_id != s[runs(
                s,
                n,
            )[k + 1].0].track_id,
    decreases n,
{
    lemma_runs_basic(s, n);
    if n > 0 {
        lemma_runs_shape(s, n - 1);
    }
}

/// Each of the first `n` samples lies in a run.
proof fn lemma_runs_cover(s: Seq<FragmentSample>, n: int, j: int) -> (k: int)
    requires
        0 <= j < n <= s.len(),
    ensures
        0 <= k < runs(s, n).len(),
        runs(s, n)[k].0 <= j < runs(s, n)[k].1,
    decreases n,
{
    lemma_runs_shape(s, n);
    if j == n - 1 {
        runs(s, n).len() - 1
    } else {
        let k = lemma_runs_cover(s, n - 1, j);
        lemma_runs_shape(s, n - 1);
        k
    }
}

/// The sums of `a .. b` extend by the sample at `b`.
proof fn lemma_sums_step(s: Seq<FragmentSample>, a: int, b: int)
    requires
        a <= b,
    ensures
        duration_sum(s, a, b + 1) == duration_sum(s, a, b) + s[b].duration,
        size_sum(s, a, b + 1) == size_sum(s, a, b) + s[b].data_size,
        any_cto(s, a, b + 1) == (any_cto(s, a, b) || s[b].composition_time_offset is Some),
{
    if any_cto(s, a, b + 1) && !(s[b].composition_time_offset is Some) {
        let i = choose|i: int| a <= i < b + 1 && (#[trigger] s[i]).composition_time_offset is Some;
        assert(a <= i < b);
    }
    if s[b].composition_time_offset is Some {
        assert(a <= b < b + 1 && s[b].composition_time_offset is Some);
    }
}

/// Sums over `a .. b` split at `m`.
proof fn lemma_sums_split(s: Seq<FragmentSample>, a: int, m: int, b: int)
    requires
        a <= m <= b,
    ensures
        size_sum(s, a, b) == size_sum(s, a, m) + size_sum(s, m, b),
        duration_sum(s, a, b) == duration_sum(s, a, m) + duration_sum(s, m, b),
    decreases b - m,
{
    if m < b {
        lemma_sums_split(s, a, m, b - 1);
    }
}

/// Sums do not decrease as the range grows.
proof fn lemma_sums_mono(s: Seq<FragmentSample>, a: int, b: int, c: int)
    requires
        a <= b <= c,
    ensures
        size_sum(s, a, b) <= size_sum(s, a, c),
        size_sum(s, b, c) <= size_sum(s, a, c),
        duration_sum(s, a, b) <= duration_sum(s, a, c),
        size_sum(s, a, b) >= 0,
        duration_sum(s, a, b) >= 0,
    decreases c - b,
{
    lemma_sums_split(s, a, b, c);
    lemma_sums_nonneg(s, b, c);
    lemma_sums_nonneg(s, a, b);
}

/// Sums are not negative.
proof fn lemma_sums_nonneg(s: Seq<FragmentSample>, a: int, b: int)
    ensures
        size_sum(s, a, b) >= 0,
        duration_sum(s, a, b) >= 0,
    decreases b - a,
{
    if b > a {
        lemma_sums_nonneg(s, a, b - 1);
    }
}

/// Whether `frs` describes the runs of the first `n` samples of `s`, with distinct tracks.
#[verifier::opaque]
spec fn frs_ok(
    frs: Seq<TrackFragment>,
    s: Seq<FragmentSample>,
    n: int,
    ts: Seq<TrackConfig>,
    times: Seq<u64>,
) -> bool {
    &&& frs.len() == runs(s, n).len()
    &&& forall|k: int| 0 <= k < frs.len() ==> fragment_of(#[trigger] frs[k], s, runs(s, n)[k], ts, times)
    &&& forall|k1: int, k2: int|
        0 <= k1 < k2 < frs.len() ==> (#[trigger] frs[k1]).track_id != (#[trigger] frs[k2]).track_id
}

/// What a description of the runs gives.
proof fn lemma_frs_facts(
    frs: Seq<TrackFragment>,
    s: Seq<FragmentSample>,
    n: int,
    ts: Seq<TrackConfig>,
    times: Seq<u64>,
)
    requires
        frs_ok(frs, s, n, ts, times),
        0 <= n <= s.len(),
    ensures
        frs.len() == runs(s, n).len(),
        n == 0 <==> frs.len() == 0,
        forall|k: int| 0 <= k < frs.len() ==> fragment_of(#[trigger] frs[k], s, runs(s, n)[k], ts, times),
        forall|k1: int, k2: int|
            0 <= k1 < k2 < frs.len() ==> (#[trigger] frs[k1]).track_id != (#[trigger] frs[k2]).track_id,
        n > 0 ==> frs.last().end == n && frs.last().track_id == s[n - 1].track_id,
{
    reveal(frs_ok);
    lemma_runs_shape(s, n);
    if n > 0 {
        assert(fragment_of(frs[frs.len() - 1], s, runs(s, n)[frs.len() - 1], ts, times));
    }
}

/// A sample of another track than the last run's starts a run.
proof fn lemma_frs_new_run(
    frs: Seq<TrackFragment>,
    s: Seq<FragmentSample>,
    n: int,
    ts: Seq<TrackConfig>,
    times: Seq<u64>,
    fr: TrackFragment,
)
    requires
        frs_ok(frs, s, n, ts, times),
        0 <= n < s.len(),
        forall|k: int| 0 <= k < frs.len() ==> (#[trigger] frs[k]).track_id != s[n].track_id,
        fragment_of(fr, s, (n, n + 1), ts, times),
    ensures
        frs_ok(frs.push(fr), s, n + 1, ts, times),
{
    lemma_frs_facts(frs, s, n, ts, times);
    reveal(frs_ok);
    if n > 0 {
        assert(frs[frs.len() - 1].track_id != s[n].track_id);
    }
    assert(runs(s, n + 1) == runs(s, n).push((n, n + 1)));
    let f2 = frs.push(fr);
    assert forall|k: int| 0 <= k < f2.len() implies fragment_of(#[trigger] f2[k], s, runs(s, n + 1)[k], ts, times) by {
        if k < frs.len() {
            assert(f2[k] == frs[k]);
        }
    }
}

/// A sample of the last run's track extends it.
proof fn lemma_frs_extend(
    frs: Seq<TrackFragment>,
    s: Seq<FragmentSample>,
    n: int,
    ts: Seq<TrackConfig>,
    times: Seq<u64>,
    fr: TrackFragment,
)
    requires
        frs_ok(frs, s, n, ts, times),
        0 < n < s.len(),
        frs.last().track_id == s[n].track_id,
        fragment_of(fr, s, (frs.last().start as int, n + 1), ts, times),
    ensures
        frs_ok(frs.update(frs.len() - 1, fr), s, n + 1, ts, times),
{
    lemma_frs_facts(frs, s, n, ts, times);
    reveal(frs_ok);
    let r = runs(s, n);
    assert(runs(s, n + 1) == r.update(r.len() - 1, (r.last().0, n + 1)));
    let f2 = frs.update(frs.len() - 1, fr);
    assert forall|k: int| 0 <= k < f2.len() implies fragment_of(#[trigger] f2[k], s, runs(s, n + 1)[k], ts, times) by {
        if k < frs.len() - 1 {
            assert(f2[k] == frs[k]);
        }
    }
    assert forall|k1: int, k2: int| 0 <= k1 < k2 < f2.len() implies (#[trigger] f2[k1]).track_id
        != (#[trigger] f2[k2]).track_id by {
        if k2 == f2.len() - 1 {
            assert(frs[k1].track_id != frs[k2].track_id);
        } else {
            assert(frs[k1].track_id != frs[k2].track_id);
        }
    }
}

/// A sample whose track had a run before the last one interleaves it.
proof fn lemma_interleaved(
    frs: Seq<TrackFragment>,
    s: Seq<FragmentSample>,
    n: int,
    ts: Seq<TrackConfig>,
    times: Seq<u64>,
    k: int,
)
    requires
        frs_ok(frs, s, n, ts, times),
        0 < n < s.len(),
        0 <= k < frs.len(),
        frs[k].track_id == s[n].track_id,
        frs.last().track_id != s[n].track_id,
    ensures
        exists|a: int, c: int, b: int|
            0 <= a < c < b < s.len() && (#[trigger] s[a]).track_id == s[n].track_id && (
            #[trigger] s[b]).track_id == s[n].track_id && (#[trigger] s[c]).track_id != s[n].track_id,
{
    lemma_frs_facts(frs, s, n, ts, times);
    lemma_runs_shape(s, n);
    let a = runs(s, n)[k].0;
    assert(fragment_of(frs[k], s, runs(s, n)[k], ts, times));
    assert(k != frs.len() - 1);
    let l = frs.len() - 1;
    assert(fragment_of(frs[l], s, runs(s, n)[l], ts, times));
    assert(runs(s, n)[k].1 <= runs(s, n)[l].0) by {
        lemma_runs_ordered(s, n, k, l);
    }
    assert(s[n - 1].track_id == frs[l].track_id);
    assert(a < n - 1);
    assert(s[a].track_id == s[n].track_id && s[n].track_id == s[n].track_id && s[n - 1].track_id != s[n].track_id);
}

/// A sample of a track that no run has keeps the samples of each track consecutive.
proof fn lemma_new_run_contiguous(
    frs: Seq<TrackFragment>,
    s: Seq<FragmentSample>,
    n: int,
    ts: Seq<TrackConfig>,
    times: Seq<u64>,
)
    requires
        frs_ok(frs, s, n, ts, times),
        0 <= n < s.len(),
        contiguous_prefix(s, n),
        forall|k: int| 0 <= k < frs.len() ==> (#[trigger] frs[k]).track_id != s[n].track_id,
    ensures
        contiguous_prefix(s, n + 1),
{
    lemma_frs_facts(frs, s, n, ts, times);
    lemma_runs_shape(s, n);
    assert forall|a: int, c: int, b: int|
        0 <= a < c < b < n + 1 && (#[trigger] s[a]).track_id == (#[trigger] s[b]).track_id
            implies (#[trigger] s[c]).track_id == s[a].track_id by {
        if b == n {
            let kk = lemma_runs_cover(s, n, a);
            assert(fragment_of(frs[kk], s, runs(s, n)[kk], ts, times));
            assert(s[a].track_id == s[runs(s, n)[kk].0].track_id);
            assert(frs[kk].track_id != s[n].track_id);
        }
    }
}

/// Runs are ranges that follow one another.
proof fn lemma_runs_basic(s: Seq<FragmentSample>, n: int)
    requires
        0 <= n <= s.len(),
    ensures
        n == 0 <==> runs(s, n).len() == 0,
        n > 0 ==> runs(s, n).last().1 == n && runs(s, n)[0].0 == 0,
        forall|k: int|
            0 <= k < runs(s, n).len() ==> 0 <= (#[trigger] runs(s, n)[k]).0 < runs(s, n)[k].1 <= n,
        forall|k: int|
            0 <= k < runs(s, n).len() - 1 ==> (#[trigger] runs(s, n)[k]).1 == runs(s, n)[k + 1].0,
    decreases n,
{
    if n > 0 {
        lemma_runs_basic(s, n - 1);
    }
}

/// Runs come in order.
proof fn lemma_runs_ordered(s: Seq<FragmentSample>, n: int, k: int, l: int)
    requires
        0 <= n <= s.len(),
        0 <= k < l < runs(s, n).len(),
    ensures
        runs(s, n)[k].1 <= runs(s, n)[l].0,
    decreases l - k,
{
    lemma_runs_basic(s, n);
    let r = runs(s, n);
    assert(r[k].1 == r[k + 1].0);
    assert(r[k + 1].0 < r[k + 1].1);
    if k + 1 < l {
        lemma_runs_ordered(s, n, k + 1, l);
    }
}

/// Whether `e` is an error of grouping the samples `s` for the tracks `ts`: the condition
/// that gives it holds.
pub open spec fn group_error(e: Fmp4MuxError, s: Seq<FragmentSample>, ts: Seq<TrackConfig>) -> bool {
    match e {
        Fmp4MuxError::UnknownTrackId { track_id } => exists|i: int|
            0 <= i < s.len() && (#[trigger] s[i]).track_id == track_id && !track_known(ts, track_id),
        Fmp4MuxError::InterleavedSamples { track_id } => exists|a: int, c: int, b: int|
            0 <= a < c < b < s.len() && (#[trigger] s[a]).track_id == track_id && (
            #[trigger] s[b]).track_id == track_id && (#[trigger] s[c]).track_id != track_id,
        Fmp4MuxError::DecodeTimeOverflow { .. } => exists|a: int, b: int|
            0 <= a < b <= s.len() && duration_sum(s, a, b) > u64::MAX,
        Fmp4MuxError::MediaDataSizeOverflow => size_sum(s, 0, s.len() as int) > u64::MAX,
        _ => false,
    }
}

/// The flags of a sample: its own, or those that follow from whether it is a key frame (a key
/// frame depends on no other sample; another sample depends on others and is not a sync
/// sample).
pub open spec fn sample_flags_value(x: FragmentSample) -> u32 {
    match x.sample_flags {
        Some(f) => f.spec_get(),
        None => SampleFlags::spec_fields_value(
            0,
            if x.keyframe {
                2
            } else {
                1
            },
            0,
            0,
            0,
            !x.keyframe,
            0,
        ) as u32,
    }
}

/// Whether `t` is the sample of a track run written for `x`; `cto` says whether the run has
/// composition time offsets (then a sample without one gets 0).
pub open spec fn trun_sample_of(t: TrunSample, x: FragmentSample, cto: bool) -> bool {
    &&& t.duration == Some(x.duration)
    &&& t.size == Some(x.data_size)
    &&& t.flags matches Some(f) && f.spec_get() == sample_flags_value(x)
    &&& t.composition_time_offset == if cto {
        Some(
            match x.composition_time_offset {
                Some(c) => c,
                None => 0,
            },
        )
    } else {
        None
    }
}

/// Whether `tr` is the track fragment of the run `r` of `s`, whose track's decode time is
/// `base`, with the data offset `off`.
pub open spec fn traf_built(
    tr: TrafBox,
    s: Seq<FragmentSample>,
    r: (int, int),
    base: u64,
    off: i32,
) -> bool {
    let trun = tr.trun_boxes@[0];
    &&& tr.tfhd_box == TfhdBox {
        track_id: s[r.0].track_id,
        base_data_offset: None,
        sample_description_index: None,
        default_sample_duration: None,
        default_sample_size: None,
        default_sample_flags: None,
        duration_is_empty: false,
        default_base_is_moof: true,
    }
    &&& tr.tfdt_box == Some(TfdtBox { version: 0, base_media_decode_time: base })
    &&& tr.trun_boxes@.len() == 1
    &&& tr.unknown_boxes@.len() == 0
    &&& trun.data_offset == Some(off)
    &&& trun.first_sample_flags is None
    &&& trun.samples@.len() == r.1 - r.0
    &&& forall|i: int|
        0 <= i < r.1 - r.0 ==> trun_sample_of(
            #[trigger] trun.samples@[i],
            s[r.0 + i],
            any_cto(s, r.0, r.1),
        )
}

/// Whether `m` is the `moof` box of a fragment of the samples `s` with the sequence number
/// `seq`: a track fragment per run, whose base decode time is its track's next one in
/// `times`, with the data offsets `offsets`.
#[verifier::opaque]
pub open spec fn moof_built(
    m: MoofBox,
    seq: u32,
    s: Seq<FragmentSample>,
    ts: Seq<TrackConfig>,
    times: Seq<u64>,
    offsets: Seq<i32>,
) -> bool {
    let rs = runs(s, s.len() as int);
    &&& m.mfhd_box.sequence_number == seq
    &&& m.unknown_boxes@.len() == 0
    &&& m.traf_boxes@.len() == rs.len()
    &&& offsets.len() == rs.len()
    &&& forall|k: int|
        0 <= k < rs.len() ==> traf_built(
            #[trigger] m.traf_boxes@[k],
            s,
            rs[k],
            times[track_of(ts, s[rs[k].0].track_id)],
            offsets[k],
        )
}

/// The data offsets of the runs of `s`: where the data of each run starts, counted from the
/// start of the `moof` box of `moof_size` bytes, after the `mdat` header of `header_size`
/// bytes.
pub open spec fn data_offsets_of(s: Seq<FragmentSample>, moof_size: int, header_size: int) -> Seq<int> {
    let rs = runs(s, s.len() as int);
    Seq::new(rs.len(), |k: int| moof_size + header_size + size_sum(s, 0, rs[k].0))
}

/// Whether a run of `s` is of the track `id`.
pub open spec fn track_in_fragment(s: Seq<FragmentSample>, id: u32) -> bool {
    exists|i: int| 0 <= i < s.len() && (#[trigger] s[i]).track_id == id
}

/// The run of `s` of the track `id`.
pub open spec fn run_of_track(s: Seq<FragmentSample>, id: u32) -> (int, int) {
    let rs = runs(s, s.len() as int);
    rs[choose|k: int| 0 <= k < rs.len() && (#[trigger] s[rs[k].0]).track_id == id]
}

/// The next decode times of the tracks after a fragment of `s`: a track's grows by the
/// durations of its run.
pub open spec fn decode_times_after(
    s: Seq<FragmentSample>,
    ts: Seq<TrackConfig>,
    times: Seq<u64>,
) -> Seq<int> {
    Seq::new(
        times.len(),
        |t: int|
            if track_in_fragment(s, ts[t].track_id) {
                times[t] + duration_sum(s, run_of_track(s, ts[t].track_id).0, run_of_track(s, ts[t].track_id).1)
            } else {
                times[t] as int
            },
    )
}

/// The header of an `mdat` box with a payload of `size` bytes.
pub open spec fn mdat_header_of(size: u64) -> Seq<u8> {
    BoxHeader::new_spec(
        MdatBox::spec_type(),
        BoxSize::spec_with_payload_size(MdatBox::spec_type(), size),
    ).spec_encoding()
}

/// The sample of a track run for `x`.
fn build_trun_sample(x: FragmentSample, cto: bool) -> (r: TrunSample)
    ensures
        trun_sample_of(r, x, cto),
{
    let flags = match x.sample_flags {
        Some(f) => f,
        None => sample_flags_from_keyframe(x.keyframe),
    };
    let composition_time_offset = if cto {
        Some(
            match x.composition_time_offset {
                Some(c) => c,
                None => 0,
            },
        )
    } else {
        None
    };
    TrunSample {
        duration: Some(x.duration),
        size: Some(x.data_size),
        flags: Some(flags),
        composition_time_offset,
    }
}

/// The flags of a sample without flags of its own.
fn sample_flags_from_keyframe(keyframe: bool) -> (r: SampleFlags)
    ensures
        r.spec_get() == SampleFlags::spec_fields_value(
            0,
            if keyframe {
                2
            } else {
                1
            },
            0,
            0,
            0,
            !keyframe,
            0,
        ),
{
    let sample_depends_on: u8 = if keyframe {
        2
    } else {
        1
    };
    SampleFlags::from_fields(0, sample_depends_on, 0, 0, 0, !keyframe, 0)
}

/// Builds the track fragment of a run.
fn build_traf_box(samples: &[FragmentSample], fr: &TrackFragment, off: i32) -> (r: TrafBox)
    requires
        fr.start < fr.end <= samples@.len(),
        fr.use_composition_time_offset == any_cto(samples@, fr.start as int, fr.end as int),
        fr.track_id == samples@[fr.start as int].track_id,
    ensures
        traf_built(r, samples@, (fr.start as int, fr.end as int), fr.base_decode_time, off),
{
    let mut trun_samples: Vec<TrunSample> = Vec::new();
    let mut i: usize = fr.start;
    while i < fr.end
        invariant
            fr.start <= i <= fr.end <= samples@.len(),
            trun_samples@.len() == i - fr.start,
            forall|j: int|
                0 <= j < i - fr.start ==> trun_sample_of(
                    #[trigger] trun_samples@[j],
                    samples@[fr.start + j],
                    fr.use_composition_time_offset,
                ),
        decreases fr.end - i,
    {
        trun_samples.push(build_trun_sample(samples[i], fr.use_composition_time_offset));
        i += 1;
    }
    let trun_box = TrunBox { data_offset: Some(off), first_sample_flags: None, samples: trun_samples };
    let tfhd_box = TfhdBox {
        track_id: fr.track_id,
        base_data_offset: None,
        sample_description_index: None,
        default_sample_duration: None,
        default_sample_size: None,
        default_sample_flags: None,
        duration_is_empty: false,
        default_base_is_moof: true,
    };
    let tfdt_box = TfdtBox { version: 0, base_media_decode_time: fr.base_decode_time };
    let mut trun_boxes: Vec<TrunBox> = Vec::new();
    trun_boxes.push(trun_box);
    TrafBox { tfhd_box, tfdt_box: Some(tfdt_box), trun_boxes, unknown_boxes: Vec::new() }
}

/// Within valid tracks, the track with a given id is the one `track_of` picks.
proof fn lemma_track_of(ts: Seq<TrackConfig>, t: int)
    requires
        tracks_valid(ts),
        0 <= t < ts.len(),
    ensures
        track_known(ts, ts[t].track_id),
        track_of(ts, ts[t].track_id) == t,
{
    let id = ts[t].track_id;
    assert(0 <= t < ts.len() && ts[t].track_id == id);
    let c = track_of(ts, id);
    if c != t {
        if c < t {
            assert(ts[c].track_id != ts[t].track_id);
        } else {
            assert(ts[t].track_id != ts[c].track_id);
        }
    }
}

/// Builds the track fragments of the runs, with the given data offsets.
fn build_traf_boxes(
    samples: &[FragmentSample],
    frs: &[TrackFragment],
    offsets: &[i32],
    Ghost(ts): Ghost<Seq<TrackConfig>>,
    Ghost(times): Ghost<Seq<u64>>,
) -> (r: Vec<TrafBox>)
    requires
        frs_ok(frs@, samples@, samples@.len() as int, ts, times),
        tracks_valid(ts),
        offsets@.len() == frs@.len(),
    ensures
        r@.len() == frs@.len(),
        forall|k: int|
            0 <= k < r@.len() ==> traf_built(
                #[trigger] r@[k],
                samples@,
                runs(samples@, samples@.len() as int)[k],
                times[track_of(ts, samples@[runs(samples@, samples@.len() as int)[k].0].track_id)],
                offsets@[k],
            ),
{
    let ghost s = samples@;
    let ghost rs = runs(s, s.len() as int);
    proof {
        lemma_frs_facts(frs@, s, s.len() as int, ts, times);
    }
    let mut r: Vec<TrafBox> = Vec::new();
    let mut k: usize = 0;
    while k < frs.len()
        invariant
            s == samples@,
            rs == runs(s, s.len() as int),
            tracks_valid(ts),
            frs@.len() == rs.len(),
            offsets@.len() == frs@.len(),
            forall|m: int| 0 <= m < frs@.len() ==> fragment_of(#[trigger] frs@[m], s, rs[m], ts, times),
            k <= frs@.len(),
            r@.len() == k,
            forall|m: int|
                0 <= m < k ==> traf_built(
                    #[trigger] r@[m],
                    s,
                    rs[m],
                    times[track_of(ts, s[rs[m].0].track_id)],
                    offsets@[m],
                ),
        decreases frs@.len() - k,
    {
        let fr = &frs[k];
        assert(fragment_of(frs@[k as int], s, rs[k as int], ts, times));
        let t = build_traf_box(samples, fr, offsets[k]);
        proof {
            lemma_track_of(ts, fr.track_index as int);
        }
        r.push(t);
        k += 1;
    }
    r
}

/// Whether a track of the runs described by `frs` is the track of index `t`.
proof fn lemma_fragment_track(
    frs: Seq<TrackFragment>,
    s: Seq<FragmentSample>,
    ts: Seq<TrackConfig>,
    times: Seq<u64>,
    t: int,
)
    requires
        frs_ok(frs, s, s.len() as int, ts, times),
        tracks_valid(ts),
        0 <= t < ts.len(),
    ensures
        track_in_fragment(s, ts[t].track_id) <==> exists|k: int|
            0 <= k < frs.len() && (#[trigger] frs[k]).track_index == t,
        forall|k: int|
            0 <= k < frs.len() && (#[trigger] frs[k]).track_index == t ==> run_of_track(
                s,
                ts[t].track_id,
            ) == runs(s, s.len() as int)[k],
{
    let n = s.len() as int;
    let rs = runs(s, n);
    let id = ts[t].track_id;
    lemma_frs_facts(frs, s, n, ts, times);
    lemma_runs_basic(s, n);
    assert forall|k: int| 0 <= k < frs.len() implies ((#[trigger] frs[k]).track_index == t
        <==> s[rs[k].0].track_id == id) by {
        assert(fragment_of(frs[k], s, rs[k], ts, times));
        if s[rs[k].0].track_id == id && frs[k].track_index != t {
            let ti = frs[k].track_index as int;
            if ti < t {
                assert(ts[ti].track_id != ts[t].track_id);
            } else {
                assert(ts[t].track_id != ts[ti].track_id);
            }
        }
    }
    if track_in_fragment(s, id) {
        let i = choose|i: int| 0 <= i < s.len() && (#[trigger] s[i]).track_id == id;
        let kk = lemma_runs_cover(s, n, i);
        lemma_runs_shape(s, n);
        assert(s[i].track_id == s[rs[kk].0].track_id);
        assert(frs[kk].track_index == t);
    }
    if exists|k: int| 0 <= k < frs.len() && (#[trigger] frs[k]).track_index == t {
        let k = choose|k: int| 0 <= k < frs.len() && (#[trigger] frs[k]).track_index == t;
        assert(0 <= rs[k].0 < s.len() && s[rs[k].0].track_id == id);
    }
    assert forall|k: int| 0 <= k < frs.len() && (#[trigger] frs[k]).track_index == t implies run_of_track(
        s,
        id,
    ) == rs[k] by {
        assert(s[rs[k].0].track_id == id);
        let c = choose|c: int| 0 <= c < rs.len() && (#[trigger] s[rs[c].0]).track_id == id;
        assert(s[rs[c].0].track_id == id);
        if c != k {
            assert(fragment_of(frs[c], s, rs[c], ts, times));
            if c < k {
                assert(frs[c].track_id != frs[k].track_id);
            } else {
                assert(frs[k].track_id != frs[c].track_id);
            }
        }
    }
}

/// Returns the data offset of each run: the size of the `moof` box and of the `mdat` header,
/// then the sizes of the runs before it.
///
/// Fails with [`Fmp4MuxError::DataOffsetTooLarge`] when an offset does not fit a signed 32-bit
/// value.
fn compute_data_offsets(
    frs: &[TrackFragment],
    moof_size: u64,
    header_size: u64,
    Ghost(s): Ghost<Seq<FragmentSample>>,
    Ghost(ts): Ghost<Seq<TrackConfig>>,
    Ghost(times): Ghost<Seq<u64>>,
) -> (r: Result<Vec<i32>, Fmp4MuxError>)
    requires
        frs_ok(frs@, s, s.len() as int, ts, times),
        size_sum(s, 0, s.len() as int) <= u64::MAX,
    ensures
        r matches Ok(offs) ==> offs@.len() == frs@.len() && forall|k: int|
            0 <= k < offs@.len() ==> offs@[k] as int == #[trigger] data_offsets_of(
                s,
                moof_size as int,
                header_size as int,
            )[k],
        r matches Err(e) ==> match e {
            Fmp4MuxError::MediaDataSizeOverflow => moof_size + header_size + size_sum(
                s,
                0,
                s.len() as int,
            ) > u64::MAX,
            Fmp4MuxError::DataOffsetTooLarge { data_offset } => data_offset > i32::MAX && exists|
                k: int,
            |
                0 <= k < frs@.len() && #[trigger] data_offsets_of(
                    s,
                    moof_size as int,
                    header_size as int,
                )[k] == data_offset,
            _ => false,
        },
{
    let ghost n = s.len() as int;
    let ghost rs = runs(s, n);
    let ghost want = data_offsets_of(s, moof_size as int, header_size as int);
    proof {
        lemma_frs_facts(frs@, s, n, ts, times);
        lemma_runs_basic(s, n);
        lemma_runs_shape(s, n);
        lemma_sums_nonneg(s, 0, n);
    }
    let base_offset = match moof_size.checked_add(header_size) {
        Some(b) => b,
        None => {
            return Err(Fmp4MuxError::MediaDataSizeOverflow);
        },
    };
    let mut offsets: Vec<i32> = Vec::new();
    let mut running: u64 = 0;
    let mut k: usize = 0;
    while k < frs.len()
        invariant
            n == s.len(),
            rs == runs(s, n),
            want == data_offsets_of(s, moof_size as int, header_size as int),
            frs@.len() == rs.len(),
            forall|m: int| 0 <= m < frs@.len() ==> fragment_of(#[trigger] frs@[m], s, rs[m], ts, times),
            forall|m: int| 0 <= m < rs.len() - 1 ==> (#[trigger] rs[m]).1 == rs[m + 1].0,
            rs.len() > 0 ==> rs[0].0 == 0,
            size_sum(s, 0, n) <= u64::MAX,
            base_offset == moof_size + header_size,
            k <= frs@.len(),
            offsets@.len() == k,
            k < rs.len() ==> running == size_sum(s, 0, rs[k as int].0),
            forall|m: int| 0 <= m < k ==> offsets@[m] as int == #[trigger] want[m],
        decreases frs@.len() - k,
    {
        let fr = frs[k];
        assert(fragment_of(frs@[k as int], s, rs[k as int], ts, times));
        proof {
            lemma_sums_split(s, 0, rs[k as int].0, rs[k as int].1);
            lemma_sums_mono(s, 0, rs[k as int].1, n);
            lemma_sums_nonneg(s, rs[k as int].0, rs[k as int].1);
        }
        let data_offset = match base_offset.checked_add(running) {
            Some(d) => d,
            None => {
                proof {
                    lemma_sums_mono(s, 0, rs[k as int].0, n);
                }
                return Err(Fmp4MuxError::MediaDataSizeOverflow);
            },
        };
        if data_offset > 0x7fff_ffff {
            assert(want[k as int] == data_offset);
            return Err(Fmp4MuxError::DataOffsetTooLarge { data_offset });
        }
        offsets.push(data_offset as i32);
        running = running + fr.data_size_sum;
        k += 1;
    }
    Ok(offsets)
}

/// Whether `e` is an error of building a fragment of the samples `s` for the tracks `ts`
/// whose next decode times are `times`, with the sequence number `seq`: the condition that
/// gives it holds.
pub open spec fn fragment_error(
    e: Fmp4MuxError,
    s: Seq<FragmentSample>,
    ts: Seq<TrackConfig>,
    times: Seq<u64>,
    seq: u32,
) -> bool {
    match e {
        Fmp4MuxError::EmptyFragment => s.len() == 0,
        Fmp4MuxError::SequenceNumberOverflow => seq == u32::MAX,
        Fmp4MuxError::UnknownTrackId { .. } => group_error(e, s, ts),
        Fmp4MuxError::InterleavedSamples { .. } => group_error(e, s, ts),
        Fmp4MuxError::DecodeTimeOverflow { .. } => group_error(e, s, ts) || exists|t: int|
            0 <= t < ts.len() && #[trigger] decode_times_after(s, ts, times)[t] > u64::MAX,
        Fmp4MuxError::MediaDataSizeOverflow => size_sum(s, 0, s.len() as int) > u64::MAX
            - 0x1_0000_0010,
        Fmp4MuxError::DataOffsetTooLarge { data_offset } => data_offset > i32::MAX,
        Fmp4MuxError::EncodeError(x) => x.kind == ErrorKind::InvalidInput,
        _ => false,
    }
}

/// The sum of the data sizes of the runs: `None` when it does not fit 64 bits.
fn sum_data_sizes(
    frs: &[TrackFragment],
    Ghost(s): Ghost<Seq<FragmentSample>>,
    Ghost(ts): Ghost<Seq<TrackConfig>>,
    Ghost(times): Ghost<Seq<u64>>,
) -> (r: Option<u64>)
    requires
        frs_ok(frs@, s, s.len() as int, ts, times),
        s.len() > 0,
    ensures
        r matches Some(t) ==> t == size_sum(s, 0, s.len() as int),
        r is None ==> size_sum(s, 0, s.len() as int) > u64::MAX,
{
    let ghost n = s.len() as int;
    let ghost rs = runs(s, n);
    proof {
        lemma_frs_facts(frs@, s, n, ts, times);
        lemma_runs_basic(s, n);
    }
    let mut total: u64 = 0;
    let mut k: usize = 0;
    while k < frs.len()
        invariant
            n == s.len(),
            n > 0,
            rs == runs(s, n),
            frs@.len() == rs.len(),
            forall|m: int| 0 <= m < frs@.len() ==> fragment_of(#[trigger] frs@[m], s, rs[m], ts, times),
            forall|m: int| 0 <= m < rs.len() - 1 ==> (#[trigger] rs[m]).1 == rs[m + 1].0,
            rs[0].0 == 0,
            rs.last().1 == n,
            k <= frs@.len(),
            total == size_sum(s, 0, if k == 0 { 0 } else { rs[k - 1].1 }),
        decreases frs@.len() - k,
    {
        assert(fragment_of(frs@[k as int], s, rs[k as int], ts, times));
        proof {
            if k > 0 {
                assert(rs[k - 1].1 == rs[k as int].0);
            }
            lemma_sums_split(s, 0, rs[k as int].0, rs[k as int].1);
        }
        total = match total.checked_add(frs[k].data_size_sum) {
            Some(t) => t,
            None => {
                proof {
                    lemma_sums_mono(s, 0, rs[k as int].1, n);
                }
                return None;
            },
        };
        k += 1;
    }
    Some(total)
}

/// `n` zero offsets.
fn zero_offsets(n: usize) -> (r: Vec<i32>)
    ensures
        r@ == Seq::new(n as nat, |k: int| 0i32),
{
    let mut zeros: Vec<i32> = Vec::new();
    let mut k: usize = 0;
    while k < n
        invariant
            k <= n,
            zeros@.len() == k,
            forall|m: int| 0 <= m < k ==> zeros@[m] == 0,
        decreases n - k,
    {
        zeros.push(0);
        k += 1;
    }
    assert(zeros@ =~= Seq::new(n as nat, |k: int| 0i32));
    zeros
}

/// A description of the runs has one entry per run.
proof fn lemma_frs_len(
    frs: Seq<TrackFragment>,
    s: Seq<FragmentSample>,
    n: int,
    ts: Seq<TrackConfig>,
    times: Seq<u64>,
)
    requires
        frs_ok(frs, s, n, ts, times),
    ensures
        frs.len() == runs(s, n).len(),
{
    reveal(frs_ok);
}

/// The `moof` box made of the track fragments of the runs.
proof fn lemma_moof_built(
    m: MoofBox,
    seq: u32,
    s: Seq<FragmentSample>,
    ts: Seq<TrackConfig>,
    times: Seq<u64>,
    offsets: Seq<i32>,
)
    requires
        m.mfhd_box.sequence_number == seq,
        m.unknown_boxes@.len() == 0,
        m.traf_boxes@.len() == runs(s, s.len() as int).len(),
        offsets.len() == runs(s, s.len() as int).len(),
        forall|k: int|
            0 <= k < m.traf_boxes@.len() ==> traf_built(
                #[trigger] m.traf_boxes@[k],
                s,
                runs(s, s.len() as int)[k],
                times[track_of(ts, s[runs(s, s.len() as int)[k].0].track_id)],
                offsets[k],
            ),
    ensures
        moof_built(m, seq, s, ts, times, offsets),
{
    reveal(moof_built);
}

/// Samples grouped into runs whose sizes add up within 64 bits can form a fragment.
proof fn lemma_groupable(
    frs: Seq<TrackFragment>,
    s: Seq<FragmentSample>,
    ts: Seq<TrackConfig>,
    times: Seq<u64>,
)
    requires
        frs_ok(frs, s, s.len() as int, ts, times),
        forall|i: int| 0 <= i < s.len() ==> track_known(ts, (#[trigger] s[i]).track_id),
        samples_contiguous(s),
        size_sum(s, 0, s.len() as int) <= u64::MAX,
    ensures
        samples_groupable(s, ts),
{
    let n = s.len() as int;
    lemma_frs_facts(frs, s, n, ts, times);
    assert forall|k: int| 0 <= k < runs(s, n).len() implies duration_sum(
        s,
        (#[trigger] runs(s, n)[k]).0,
        runs(s, n)[k].1,
    ) <= u64::MAX by {
        assert(fragment_of(frs[k], s, runs(s, n)[k], ts, times));
    }
}

/// Builds a fragmented file from tracks: the caller writes the initialization segment, then
/// for each fragment the bytes that [`Mp4FragmentedFileMuxer::build_fragment()`] returns,
/// followed by the data of the fragment's samples.
pub struct Mp4FragmentedFileMuxer {
    tracks: Vec<TrackConfig>,
    next_decode_times: Vec<u64>,
    init_segment_bytes: Vec<u8>,
    next_sequence_number: u32,
    init_moov: Ghost<MoovBox>,
}

impl Mp4FragmentedFileMuxer {
    /// The tracks.
    pub closed spec fn spec_tracks(&self) -> Seq<TrackConfig> {
        self.tracks@
    }

    /// The decode time of the next sample of each track, in order of the tracks.
    pub closed spec fn spec_next_decode_times(&self) -> Seq<u64> {
        self.next_decode_times@
    }

    /// The initialization segment.
    pub closed spec fn spec_init_segment(&self) -> Seq<u8> {
        self.init_segment_bytes@
    }

    /// The `moov` box of the initialization segment.
    pub closed spec fn spec_init_moov(&self) -> MoovBox {
        self.init_moov@
    }

    /// The sequence number of the next fragment.
    pub closed spec fn spec_next_sequence_number(&self) -> u32 {
        self.next_sequence_number
    }

    /// The muxer's consistency: valid tracks, each with a decode time.
    pub closed spec fn wf(&self) -> bool {
        &&& tracks_valid(self.tracks@)
        &&& self.next_decode_times@.len() == self.tracks@.len()
    }

    /// Creates a muxer with the default options.
    pub fn new(tracks: Vec<TrackConfig>) -> (r: Result<Self, Fmp4MuxError>)
        ensures
            !tracks_valid(tracks@) ==> (r matches Err(e) && e == tracks_error(tracks@)),
            tracks_valid(tracks@) && max_track_id(tracks@) == u32::MAX ==> r matches Err(
                Fmp4MuxError::NextTrackIdOverflow,
            ),
            r matches Ok(m) ==> {
                &&& m.wf()
                &&& m.spec_tracks() == tracks@
                &&& m.spec_next_sequence_number() == 1
                &&& forall|t: int| 0 <= t < tracks@.len() ==> m.spec_next_decode_times()[t] == 0
                &&& init_moov_built(m.spec_init_moov(), tracks@, unix_epoch_offset())
            },
            r matches Err(Fmp4MuxError::EncodeError(e)) ==> e.kind == ErrorKind::InvalidInput,
    {
        Self::with_options(tracks, Mp4FragmentedFileMuxerOptions::default())
    }

    /// Creates a muxer with the given options, and builds the initialization segment.
    ///
    /// Fails with [`Fmp4MuxError::EmptyTracks`], [`Fmp4MuxError::InvalidTrackId`] or
    /// [`Fmp4MuxError::DuplicateTrackId`] when the tracks are not valid (for the first track
    /// with a bad id), with [`Fmp4MuxError::NextTrackIdOverflow`] when the largest track id
    /// is 2^32 - 1, and with [`Fmp4MuxError::EncodeError`] when the creation time does not
    /// fit the file's times or a box does not fit its size field.
    pub fn with_options(tracks: Vec<TrackConfig>, options: Mp4FragmentedFileMuxerOptions) -> (r:
        Result<Self, Fmp4MuxError>)
        ensures
            !tracks_valid(tracks@) ==> (r matches Err(e) && e == tracks_error(tracks@)),
            tracks_valid(tracks@) && options.creation_timestamp + unix_epoch_offset() > u64::MAX
                ==> (r matches Err(Fmp4MuxError::EncodeError(e)) && e.kind == ErrorKind::InvalidInput),
            tracks_valid(tracks@) && options.creation_timestamp + unix_epoch_offset() <= u64::MAX
                && max_track_id(tracks@) == u32::MAX ==> r matches Err(
                Fmp4MuxError::NextTrackIdOverflow,
            ),
            r matches Ok(m) ==> {
                &&& m.wf()
                &&& m.spec_tracks() == tracks@
                &&& m.spec_next_sequence_number() == 1
                &&& forall|t: int| 0 <= t < tracks@.len() ==> m.spec_next_decode_times()[t] == 0
                &&& init_moov_built(
                    m.spec_init_moov(),
                    tracks@,
                    (options.creation_timestamp + unix_epoch_offset()) as u64,
                )
                &&& m.spec_init_moov().spec_encodable()
                &&& options_ftyp(options).spec_encodable()
                &&& m.spec_init_segment() == options_ftyp(options).spec_encoding()
                    + m.spec_init_moov().spec_encoding()
            },
            r matches Err(Fmp4MuxError::EncodeError(e)) ==> e.kind == ErrorKind::InvalidInput,
            tracks_valid(tracks@) && options.creation_timestamp + unix_epoch_offset() <= u64::MAX
                && max_track_id(tracks@) < u32::MAX && r is Err ==> (r matches Err(
                Fmp4MuxError::EncodeError(_),
            ) && (!options_ftyp(options).spec_encodable() || exists|m: MoovBox|
                init_moov_built(m, tracks@, (options.creation_timestamp + unix_epoch_offset()) as u64)
                    && !m.spec_encodable())),
    {
        match validate_tracks(tracks.as_slice()) {
            Ok(()) => {},
            Err(e) => {
                return Err(e);
            },
        }
        let (init_segment_bytes, init_moov) = match build_init_segment(tracks.as_slice(), &options) {
            Ok(x) => x,
            Err(e) => {
                return Err(e);
            },
        };
        let mut next_decode_times: Vec<u64> = Vec::new();
        let mut i: usize = 0;
        while i < tracks.len()
            invariant
                i <= tracks@.len(),
                next_decode_times@.len() == i,
                forall|t: int| 0 <= t < i ==> next_decode_times@[t] == 0,
            decreases tracks@.len() - i,
        {
            next_decode_times.push(0);
            i += 1;
        }
        Ok(Self { tracks, next_decode_times, init_segment_bytes, next_sequence_number: 1, init_moov })
    }

    /// The initialization segment: the `ftyp` and `moov` boxes, which the caller writes at
    /// the start of the file.
    pub fn init_segment_bytes(&self) -> (r: &[u8])
        ensures
            r@ == self.spec_init_segment(),
    {
        self.init_segment_bytes.as_slice()
    }

    /// Adds the duration of each run to its track's next decode time.
    ///
    /// Fails with [`Fmp4MuxError::DecodeTimeOverflow`] when a time does not fit 64 bits, and
    /// then changes nothing.
    fn apply_fragment_updates(&mut self, frs: &[TrackFragment], Ghost(s): Ghost<Seq<FragmentSample>>) -> (r:
        Result<(), Fmp4MuxError>)
        requires
            old(self).wf(),
            frs_ok(frs@, s, s.len() as int, old(self).tracks@, old(self).next_decode_times@),
        ensures
            final(self).wf(),
            final(self).tracks@ == old(self).tracks@,
            final(self).init_segment_bytes@ == old(self).init_segment_bytes@,
            final(self).next_sequence_number == old(self).next_sequence_number,
            final(self).init_moov == old(self).init_moov,
            r is Ok ==> forall|t: int|
                0 <= t < final(self).next_decode_times@.len() ==> final(self).next_decode_times@[t]
                    == #[trigger] decode_times_after(s, old(self).tracks@, old(self).next_decode_times@)[t],
            r is Ok ==> final(self).next_decode_times@.len() == old(self).next_decode_times@.len(),
            r is Err ==> final(self).next_decode_times@ == old(self).next_decode_times@,
            r matches Err(e) ==> e matches Fmp4MuxError::DecodeTimeOverflow { .. } && exists|t: int|
                0 <= t < old(self).tracks@.len() && #[trigger] decode_times_after(
                    s,
                    old(self).tracks@,
                    old(self).next_decode_times@,
                )[t] > u64::MAX,
    {
        let ghost ts = self.tracks@;
        let ghost times = self.next_decode_times@;
        let ghost n = s.len() as int;
        let ghost rs = runs(s, n);
        proof {
            lemma_frs_facts(frs@, s, n, ts, times);
        }
        let mut k: usize = 0;
        while k < frs.len()
            invariant
                ts == self.tracks@,
                times == self.next_decode_times@,
                self.wf(),
                rs == runs(s, n),
                n == s.len(),
                frs_ok(frs@, s, n, ts, times),
                frs@.len() == rs.len(),
                forall|m: int| 0 <= m < frs@.len() ==> fragment_of(#[trigger] frs@[m], s, rs[m], ts, times),
                k <= frs@.len(),
                forall|m: int|
                    0 <= m < k ==> (#[trigger] frs@[m]).base_decode_time + frs@[m].duration_sum
                        <= u64::MAX,
            decreases frs@.len() - k,
        {
            let fr = frs[k];
            if fr.base_decode_time.checked_add(fr.duration_sum).is_none() {
                proof {
                    assert(fragment_of(frs@[k as int], s, rs[k as int], ts, times));
                    let t = fr.track_index as int;
                    lemma_fragment_track(frs@, s, ts, times, t);
                    assert(frs@[k as int].track_index == t);
                    assert(track_in_fragment(s, ts[t].track_id));
                    assert(decode_times_after(s, ts, times)[t] > u64::MAX);
                }
                return Err(Fmp4MuxError::DecodeTimeOverflow { track_id: fr.track_id });
            }
            k += 1;
        }
        let ghost init = self.init_segment_bytes@;
        let ghost seq = self.next_sequence_number;
        let ghost moov = self.init_moov;
        let mut k: usize = 0;
        while k < frs.len()
            invariant
                ts == self.tracks@,
                init == self.init_segment_bytes@,
                seq == self.next_sequence_number,
                moov == self.init_moov,
                self.wf(),
                rs == runs(s, n),
                n == s.len(),
                frs_ok(frs@, s, n, ts, times),
                frs@.len() == rs.len(),
                forall|m: int| 0 <= m < frs@.len() ==> fragment_of(#[trigger] frs@[m], s, rs[m], ts, times),
                forall|m: int|
                    0 <= m < frs@.len() ==> (#[trigger] frs@[m]).base_decode_time + frs@[m].duration_sum
                        <= u64::MAX,
                forall|m1: int, m2: int|
                    0 <= m1 < m2 < frs@.len() ==> (#[trigger] frs@[m1]).track_id != (#[trigger] frs@[m2]).track_id,
                k <= frs@.len(),
                self.next_decode_times@.len() == times.len(),
                forall|t: int|
                    0 <= t < times.len() ==> #[trigger] self.next_decode_times@[t] == if exists|m: int|
                        0 <= m < k && (#[trigger] frs@[m]).track_index == t {
                        times[t] + frs@[choose|m: int| 0 <= m < k && (#[trigger] frs@[m]).track_index == t].duration_sum
                    } else {
                        times[t] as int
                    },
            decreases frs@.len() - k,
        {
            let fr = frs[k];
            assert(fragment_of(frs@[k as int], s, rs[k as int], ts, times));
            let t = fr.track_index;
            self.next_decode_times.set(t, fr.base_decode_time + fr.duration_sum);
            proof {
                assert forall|u: int| 0 <= u < times.len() implies #[trigger] self.next_decode_times@[u]
                    == if exists|m: int| 0 <= m < k + 1 && (#[trigger] frs@[m]).track_index == u {
                    times[u] + frs@[choose|m: int| 0 <= m < k + 1 && (#[trigger] frs@[m]).track_index == u].duration_sum
                } else {
                    times[u] as int
                } by {
                    if u == t {
                        assert(0 <= k < k + 1 && frs@[k as int].track_index == u);
                        let c = choose|m: int| 0 <= m < k + 1 && (#[trigger] frs@[m]).track_index == u;
                        if c != k {
                            assert(fragment_of(frs@[c], s, rs[c], ts, times));
                            assert(frs@[c].track_id != frs@[k as int].track_id);
                        }
                    } else {
                        if exists|m: int| 0 <= m < k + 1 && (#[trigger] frs@[m]).track_index == u {
                            let c = choose|m: int| 0 <= m < k + 1 && (#[trigger] frs@[m]).track_index == u;
                            assert(c != k);
                            assert(0 <= c < k && frs@[c].track_index == u);
                        }
                    }
                }
            }
            k += 1;
        }
        proof {
            assert forall|t: int| 0 <= t < self.next_decode_times@.len() implies self.next_decode_times@[t]
                == #[trigger] decode_times_after(s, ts, times)[t] by {
                lemma_fragment_track(frs@, s, ts, times, t);
                if exists|m: int| 0 <= m < frs@.len() && (#[trigger] frs@[m]).track_index == t {
                    let c = choose|m: int| 0 <= m < frs@.len() && (#[trigger] frs@[m]).track_index == t;
                    assert(fragment_of(frs@[c], s, rs[c], ts, times));
                }
            }
        }
        Ok(())
    }

    /// Builds a fragment of `samples`: a `moof` box with a track fragment per run of samples
    /// of one track, and the header of the `mdat` box that holds their data in the order
    /// given. The samples of a track must be consecutive.
    ///
    /// Fails with [`Fmp4MuxError::EmptyFragment`] when there is no sample, with
    /// [`Fmp4MuxError::SequenceNumberOverflow`] when the sequence number is 2^32 - 1, with
    /// the errors of a sample of an unknown track or of interleaved tracks, with
    /// [`Fmp4MuxError::DataOffsetTooLarge`] when the data of a run starts 2^31 bytes or more
    /// after the start of the `moof` box, with [`Fmp4MuxError::MediaDataSizeOverflow`] or
    /// [`Fmp4MuxError::DecodeTimeOverflow`] when a size or a time does not fit 64 bits, and
    /// with [`Fmp4MuxError::EncodeError`] when the `moof` box does not fit its size field. On
    /// failure the muxer is unchanged.
    #[verifier::rlimit(40)]
    pub fn build_fragment(&mut self, samples: &[FragmentSample]) -> (r: Result<FragmentOutput, Fmp4MuxError>)
        requires
            old(self).wf(),
        ensures
            final(self).wf(),
            final(self).spec_tracks() == old(self).spec_tracks(),
            final(self).spec_init_segment() == old(self).spec_init_segment(),
            final(self).spec_init_moov() == old(self).spec_init_moov(),
            r is Err ==> final(self).spec_next_decode_times() == old(self).spec_next_decode_times()
                && final(self).spec_next_sequence_number() == old(self).spec_next_sequence_number(),
            samples@.len() == 0 ==> r matches Err(Fmp4MuxError::EmptyFragment),
            samples@.len() > 0 && old(self).spec_next_sequence_number() == u32::MAX ==> r matches Err(
                Fmp4MuxError::SequenceNumberOverflow,
            ),
            r matches Err(e) ==> fragment_error(
                e,
                samples@,
                old(self).spec_tracks(),
                old(self).spec_next_decode_times(),
                old(self).spec_next_sequence_number(),
            ),
            r matches Ok(o) ==> {
                let s = samples@;
                let ts = old(self).spec_tracks();
                let times = old(self).spec_next_decode_times();
                let seq = old(self).spec_next_sequence_number();
                let nr = runs(s, s.len() as int).len();
                let h = mdat_header_of(o.spec_media_data_size()).len() as int;
                &&& s.len() > 0
                &&& samples_groupable(s, ts)
                &&& o.spec_media_data_size() == size_sum(s, 0, s.len() as int)
                &&& o.spec_mdat_header_bytes() == mdat_header_of(o.spec_media_data_size())
                &&& o.spec_moof_box().spec_encodable()
                &&& o.spec_moof_bytes() == o.spec_moof_box().spec_encoding()
                &&& exists|ph: MoofBox|
                    {
                        &&& moof_built(ph, seq, s, ts, times, Seq::new(nr, |k: int| 0i32))
                        &&& ph.spec_encodable()
                        &&& forall|k: int|
                            0 <= k < nr ==> #[trigger] data_offsets_of(s, ph.spec_encoding().len() as int, h)[k]
                                <= i32::MAX
                        &&& moof_built(
                            o.spec_moof_box(),
                            seq,
                            s,
                            ts,
                            times,
                            Seq::new(
                                nr,
                                |k: int| data_offsets_of(s, ph.spec_encoding().len() as int, h)[k] as i32,
                            ),
                        )
                    }
                &&& final(self).spec_next_sequence_number() == seq + 1
                &&& final(self).spec_next_decode_times().len() == times.len()
                &&& forall|t: int|
                    0 <= t < times.len() ==> final(self).spec_next_decode_times()[t]
                        == #[trigger] decode_times_after(s, ts, times)[t]
            },
    {
        if samples.len() == 0 {
            return Err(Fmp4MuxError::EmptyFragment);
        }
        let ghost s = samples@;
        let ghost ts = self.tracks@;
        let ghost times = self.next_decode_times@;
        let ghost n = s.len() as int;
        let sequence_number = self.next_sequence_number;
        let next_sequence_number = match self.next_sequence_number.checked_add(1) {
            Some(x) => x,
            None => {
                return Err(Fmp4MuxError::SequenceNumberOverflow);
            },
        };
        let frs = match self.group_samples(samples) {
            Ok(frs) => frs,
            Err(e) => {
                return Err(e);
            },
        };
        let ghost rs = runs(s, n);
        proof {
            lemma_frs_len(frs@, s, n, ts, times);
        }
        let total = match sum_data_sizes(frs.as_slice(), Ghost(s), Ghost(ts), Ghost(times)) {
            Some(t) => t,
            None => {
                return Err(Fmp4MuxError::MediaDataSizeOverflow);
            },
        };
        if total > u64::MAX - 32 {
            return Err(Fmp4MuxError::MediaDataSizeOverflow);
        }
        let zeros = zero_offsets(frs.len());
        let placeholder_trafs = build_traf_boxes(samples, frs.as_slice(), zeros.as_slice(), Ghost(ts), Ghost(times));
        let placeholder = MoofBox {
            mfhd_box: MfhdBox { sequence_number },
            traf_boxes: placeholder_trafs,
            unknown_boxes: Vec::new(),
        };
        proof {
            lemma_moof_built(placeholder, sequence_number, s, ts, times, zeros@);
        }
        let placeholder_bytes = match placeholder.encode_to_vec() {
            Ok(b) => b,
            Err(e) => {
                return Err(Fmp4MuxError::EncodeError(e));
            },
        };
        let moof_size = placeholder_bytes.len() as u64;
        let mdat_header = BoxHeader::new(MdatBox::TYPE(), BoxSize::with_payload_size(MdatBox::TYPE(), total));
        let mdat_header_bytes = match mdat_header.encode_to_vec() {
            Ok(b) => b,
            Err(e) => {
                return Err(Fmp4MuxError::EncodeError(e));
            },
        };
        let header_size = mdat_header_bytes.len() as u64;
        let offsets = match compute_data_offsets(
            frs.as_slice(),
            moof_size,
            header_size,
            Ghost(s),
            Ghost(ts),
            Ghost(times),
        ) {
            Ok(o) => o,
            Err(e) => {
                proof {
                    crate::codec::lemma_be_u32(0);
                    crate::codec::lemma_be_u64(0);
                    assert(moof_size <= 0xffff_ffff);
                    assert(header_size <= 16);
                }
                return Err(e);
            },
        };
        let trafs = build_traf_boxes(samples, frs.as_slice(), offsets.as_slice(), Ghost(ts), Ghost(times));
        let moof_box = MoofBox {
            mfhd_box: MfhdBox { sequence_number },
            traf_boxes: trafs,
            unknown_boxes: Vec::new(),
        };
        let ghost want = data_offsets_of(s, moof_size as int, header_size as int);
        proof {
            assert(offsets@ =~= Seq::new(rs.len(), |k: int| want[k] as i32));
            lemma_moof_built(moof_box, sequence_number, s, ts, times, offsets@);
        }
        let moof_bytes = match moof_box.encode_to_vec() {
            Ok(b) => b,
            Err(e) => {
                return Err(Fmp4MuxError::EncodeError(e));
            },
        };
        match self.apply_fragment_updates(frs.as_slice(), Ghost(s)) {
            Ok(()) => {},
            Err(e) => {
                return Err(e);
            },
        }
        self.next_sequence_number = next_sequence_number;
        proof {
            lemma_groupable(frs@, s, ts, times);
            let nr = rs.len();
            let h = mdat_header_of(total).len() as int;
            assert(h == header_size);
            assert(moof_size == placeholder.spec_encoding().len());
            assert forall|k: int| 0 <= k < nr implies #[trigger] data_offsets_of(s, placeholder.spec_encoding().len() as int, h)[k]
                <= i32::MAX by {
                assert(offsets@[k] as int == want[k]);
            }
        }
        Ok(FragmentOutput { moof_box, moof_bytes, mdat_header_bytes, media_data_size: total })
    }

    /// Returns the index of the track with the id `track_id`.
    fn track_index(&self, track_id: u32) -> (r: Option<usize>)
        requires
            self.wf(),
        ensures
            r matches Some(t) ==> t < self.tracks@.len() && self.tracks@[t as int].track_id
                == track_id && t == track_of(self.tracks@, track_id),
            r is None <==> !track_known(self.tracks@, track_id),
    {
        let mut i: usize = 0;
        while i < self.tracks.len()
            invariant
                self.wf(),
                i <= self.tracks@.len(),
                forall|t: int| 0 <= t < i ==> self.tracks@[t].track_id != track_id,
            decreases self.tracks@.len() - i,
        {
            if self.tracks[i].track_id == track_id {
                proof {
                    let ts = self.tracks@;
                    assert(track_known(ts, track_id));
                    let c = track_of(ts, track_id);
                    if c != i {
                        assert(ts[c].track_id == ts[i as int].track_id);
                        if c < i {
                            assert(ts[c].track_id != ts[i as int].track_id);
                        } else {
                            assert(ts[i as int].track_id != ts[c].track_id);
                        }
                    }
                }
                return Some(i);
            }
            i += 1;
        }
        None
    }

    /// Groups the samples into runs of one track each.
    ///
    /// Fails with [`Fmp4MuxError::UnknownTrackId`] when a sample names an unknown track, with
    /// [`Fmp4MuxError::InterleavedSamples`] when the samples of a track are not consecutive,
    /// with [`Fmp4MuxError::DecodeTimeOverflow`] when the durations of a run do not fit 64
    /// bits, and with [`Fmp4MuxError::MediaDataSizeOverflow`] when its sizes do not.
    fn group_samples(&self, samples: &[FragmentSample]) -> (r: Result<Vec<TrackFragment>, Fmp4MuxError>)
        requires
            self.wf(),
        ensures
            r matches Ok(frs) ==> {
                &&& frs_ok(frs@, samples@, samples@.len() as int, self.tracks@, self.next_decode_times@)
                &&& forall|i: int| 0 <= i < samples@.len() ==> track_known(self.tracks@, (#[trigger] samples@[i]).track_id)
                &&& samples_contiguous(samples@)
            },
            r matches Err(e) ==> group_error(e, samples@, self.tracks@),
    {
        let ghost s = samples@;
        let ghost ts = self.tracks@;
        let ghost times = self.next_decode_times@;
        let mut frs: Vec<TrackFragment> = Vec::new();
        proof {
            assert(frs_ok(frs@, s, 0, ts, times)) by {
                reveal(frs_ok);
            }
        }
        let mut i: usize = 0;
        while i < samples.len()
            invariant
                self.wf(),
                s == samples@,
                ts == self.tracks@,
                times == self.next_decode_times@,
                i <= s.len(),
                frs_ok(frs@, s, i as int, ts, times),
                forall|j: int| 0 <= j < i ==> track_known(ts, (#[trigger] s[j]).track_id),
                contiguous_prefix(s, i as int),
            decreases s.len() - i,
        {
            proof {
                lemma_frs_facts(frs@, s, i as int, ts, times);
            }
            let sample = samples[i];
            let track_index = match self.track_index(sample.track_id) {
                Some(t) => t,
                None => {
                    return Err(Fmp4MuxError::UnknownTrackId { track_id: sample.track_id });
                },
            };
            let base_decode_time = self.next_decode_times[track_index];
            let n = frs.len();
            if n > 0 && frs[n - 1].track_id == sample.track_id {
                let last = frs[n - 1];
                proof {
                    assert(fragment_of(frs@[n - 1], s, runs(s, i as int)[n - 1], ts, times));
                    lemma_runs_shape(s, i as int);
                    lemma_sums_step(s, last.start as int, i as int);
                }
                let duration_sum = match last.duration_sum.checked_add(sample.duration as u64) {
                    Some(d) => d,
                    None => {
                        return Err(Fmp4MuxError::DecodeTimeOverflow { track_id: sample.track_id });
                    },
                };
                let data_size_sum = match last.data_size_sum.checked_add(sample.data_size as u64) {
                    Some(d) => d,
                    None => {
                        proof {
                            lemma_sums_mono(s, 0, last.start as int, i + 1);
                            lemma_sums_mono(s, 0, i + 1, s.len() as int);
                        }
                        return Err(Fmp4MuxError::MediaDataSizeOverflow);
                    },
                };
                let updated = TrackFragment {
                    end: i + 1,
                    duration_sum,
                    data_size_sum,
                    use_composition_time_offset: last.use_composition_time_offset
                        || sample.composition_time_offset.is_some(),
                    ..last
                };
                proof {
                    lemma_frs_extend(frs@, s, i as int, ts, times, updated);
                    assert forall|a: int, c: int, b: int|
                        0 <= a < c < b < i + 1 && (#[trigger] s[a]).track_id == (#[trigger] s[b]).track_id
                            implies (#[trigger] s[c]).track_id == s[a].track_id by {
                        if b == i && c < i - 1 {
                            assert(s[a].track_id == s[i - 1].track_id);
                        }
                    }
                    assert(contiguous_prefix(s, i + 1));
                }
                frs.set(n - 1, updated);
            } else {
                let mut k: usize = 0;
                while k < n
                    invariant
                        n == frs@.len(),
                        k <= n,
                        forall|m: int| 0 <= m < k ==> (#[trigger] frs@[m]).track_id != sample.track_id,
                        s == samples@,
                        i < s.len(),
                        sample == s[i as int],
                        frs_ok(frs@, s, i as int, ts, times),
                        n > 0 ==> i > 0 && frs@.last().track_id != sample.track_id,
                    decreases n - k,
                {
                    if frs[k].track_id == sample.track_id {
                        proof {
                            lemma_interleaved(frs@, s, i as int, ts, times, k as int);
                        }
                        return Err(Fmp4MuxError::InterleavedSamples { track_id: sample.track_id });
                    }
                    k += 1;
                }
                let fr = TrackFragment {
                    track_index,
                    track_id: sample.track_id,
                    start: i,
                    end: i + 1,
                    base_decode_time,
                    duration_sum: sample.duration as u64,
                    data_size_sum: sample.data_size as u64,
                    use_composition_time_offset: sample.composition_time_offset.is_some(),
                };
                proof {
                    lemma_sums_step(s, i as int, i as int);
                    assert(!any_cto(s, i as int, i as int));
                    lemma_frs_new_run(frs@, s, i as int, ts, times, fr);
                    lemma_new_run_contiguous(frs@, s, i as int, ts, times);
                }
                frs.push(fr);
            }
            i += 1;
        }
        Ok(frs)
    }
}

} // verus!
