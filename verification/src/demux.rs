//! Reading the samples of a file in time order. The demuxer does no I/O itself: it says which
//! bytes of the file it needs, and the caller hands them over.
use crate::aux::{
    chunk_of_sample, nonzero_ascending, sample_data_offset_of, sample_duration_of, sample_size_of,
    sample_timestamp_of, stsc_entry_of, stts_sample_count, lemma_timestamp_mono, lemma_timestamp_bound, sync_numbers, table_checks_pass, table_fits, table_fits_exec, SampleTableAccessor,
    SampleTableAccessorError,
};
use crate::basic_types::{bytes_eq, BoxHeader, BoxType, NonZeroU32};
use crate::boxes::{same_sample_entry, spec_is_type, FtypBox, HdlrBox, MoovBox, SampleEntry, StblBox, TrakBox};
use crate::codec::{Decode, Error, ErrorKind};
use vstd::prelude::*;

verus! {

/// The kind of a media track.
#[derive(Debug, Clone, Copy, PartialEq, Eq, Hash, Structural)]
pub enum TrackKind {
    /// An audio track.
    Audio,
    /// A video track.
    Video,
}

/// A media track of a file.
#[derive(Debug, Clone, Copy, PartialEq, Eq, Hash, Structural)]
pub struct TrackInfo {
    /// The identifier of the track.
    pub track_id: u32,
    /// The kind of the track.
    pub kind: TrackKind,
    /// The duration of the track, in units of its timescale.
    pub duration: u64,
    /// The number of units of the track's time per second.
    pub timescale: NonZeroU32,
}

/// Which bytes of the file the demuxer needs: from `position`, `size` bytes or, when `size` is
/// `None`, up to the end of the file.
///
/// The size is a hint: more bytes may be handed over.
#[derive(Debug, Clone, Copy, PartialEq, Eq, Hash, Structural)]
pub struct RequiredInput {
    /// Where the bytes start in the file.
    pub position: u64,
    /// How many bytes are needed, or `None` for all bytes up to the end of the file.
    pub size: Option<usize>,
}

/// Bytes of a file handed to the demuxer: `data` starts at `position` in the file.
#[derive(Debug, Clone, Copy)]
pub struct Input<'a> {
    /// Where the bytes start in the file.
    pub position: u64,
    /// The bytes.
    pub data: &'a [u8],
}

/// Whether the bytes from `position` of length `len` hold the request `req`: the requested
/// position lies within them (or just at their end), and so do the requested bytes.
pub open spec fn satisfies(req: RequiredInput, position: u64, len: int) -> bool {
    &&& req.position >= position
    &&& req.position - position <= len
    &&& match req.size {
        Some(n) => req.position - position + n <= len,
        None => true,
    }
}

impl RequiredInput {
    /// Creates a request.
    pub fn new(position: u64, size: Option<usize>) -> (r: Self)
        ensures
            r.position == position,
            r.size == size,
    {
        Self { position, size }
    }

    /// The input made of `data`, placed at the requested position.
    pub fn to_input<'a>(self, data: &'a [u8]) -> (r: Input<'a>)
        ensures
            r.position == self.position,
            r.data == data,
    {
        Input { position: self.position, data }
    }

    /// Whether `input` holds the requested bytes.
    pub fn is_satisfied_by(self, input: Input) -> (r: bool)
        ensures
            r == satisfies(self, input.position, input.data@.len() as int),
    {
        if self.position < input.position {
            return false;
        }
        let offset = self.position - input.position;
        if offset > input.data.len() as u64 {
            return false;
        }
        match self.size {
            None => true,
            Some(n) => match offset.checked_add(n as u64) {
                None => false,
                Some(end) => end <= input.data.len() as u64,
            },
        }
    }
}

impl<'a> Input<'a> {
    /// The bytes of the input from `position` of the file: `size` of them, or all up to the
    /// end of the input; `None` when the input does not hold them.
    fn slice_range(self, position: u64, size: Option<usize>) -> (r: Option<&'a [u8]>)
        ensures
            r is Some <==> satisfies(RequiredInput { position, size }, self.position, self.data@.len() as int),
            r matches Some(s) ==> s@ == self.data@.subrange(
                position - self.position,
                match size {
                    Some(n) => position - self.position + n,
                    None => self.data@.len() as int,
                },
            ),
    {
        if position < self.position {
            return None;
        }
        let d = position - self.position;
        if d > self.data.len() as u64 {
            return None;
        }
        let offset = d as usize;
        match size {
            Some(n) => {
                if n > self.data.len() - offset {
                    None
                } else {
                    Some(vstd::slice::slice_subrange(self.data, offset, offset + n))
                }
            },
            None => Some(vstd::slice::slice_subrange(self.data, offset, self.data.len())),
        }
    }
}

/// The errors of the demuxer.
#[derive(Debug, Clone)]
pub enum DemuxError {
    /// A box could not be read.
    DecodeError(Error),
    /// A sample table is inconsistent.
    SampleTableError(SampleTableAccessorError),
    /// More bytes of the file are needed: hand them to [`Mp4FileDemuxer::handle_input()`].
    InputRequired(RequiredInput),
}

impl DemuxError {
    fn input_required(position: u64, size: Option<usize>) -> (r: Self)
        ensures
            r == DemuxError::InputRequired(RequiredInput { position, size }),
    {
        DemuxError::InputRequired(RequiredInput::new(position, size))
    }

    /// A copy of the error.
    pub fn duplicate(&self) -> (r: Self)
        ensures
            r == *self,
    {
        match self {
            DemuxError::DecodeError(e) => DemuxError::DecodeError(e.duplicate()),
            DemuxError::SampleTableError(e) => DemuxError::SampleTableError(*e),
            DemuxError::InputRequired(r) => DemuxError::InputRequired(*r),
        }
    }
}

/// Where the demuxer stands in reading the start of a file.
#[derive(Debug, Clone, Copy)]
enum Phase {
    ReadFtypBoxHeader,
    ReadFtypBox { box_size: Option<usize> },
    ReadMoovBoxHeader { offset: u64 },
    ReadMoovBox { offset: u64, box_size: Option<usize> },
    Initialized,
}

/// How far a phase is from the end of the reading.
spec fn phase_rank(p: Phase) -> int {
    match p {
        Phase::ReadFtypBoxHeader => 4,
        Phase::ReadFtypBox { .. } => 3,
        Phase::ReadMoovBoxHeader { .. } => 2,
        Phase::ReadMoovBox { .. } => 1,
        Phase::Initialized => 0,
    }
}

/// The bytes a phase needs.
spec fn phase_required(p: Phase) -> Option<RequiredInput> {
    match p {
        Phase::ReadFtypBoxHeader => Some(RequiredInput { position: 0, size: Some(32) }),
        Phase::ReadFtypBox { box_size } => Some(RequiredInput { position: 0, size: box_size }),
        Phase::ReadMoovBoxHeader { offset } => Some(
            RequiredInput { position: offset, size: Some(32) },
        ),
        Phase::ReadMoovBox { offset, box_size } => Some(
            RequiredInput { position: offset, size: box_size },
        ),
        Phase::Initialized => None,
    }
}


/// A track being read: its sample table and timescale.
struct TrackState {
    table: SampleTableAccessor,
    timescale: NonZeroU32,
}

/// The point in time of a timestamp of a track, in nanoseconds (rounded down): the key by which
/// samples of different tracks are ordered.
pub open spec fn time_key(timestamp: int, timescale: int) -> int {
    timestamp * 1_000_000_000 / timescale
}

/// A sample of a track, as the demuxer hands it out.
#[derive(Debug, Clone)]
pub struct Sample<'a> {
    /// The track of the sample.
    pub track: &'a TrackInfo,
    /// The sample entry of the sample when it differs from that of the sample before it in its
    /// track (always for a track's first sample), else `None`.
    pub sample_entry: Option<&'a SampleEntry>,
    /// Whether the sample is a sync sample (a key frame).
    pub keyframe: bool,
    /// The time of the sample within its track, in units of the track's timescale: the total
    /// duration of the samples before it.
    pub timestamp: u64,
    /// The duration of the sample, in units of the track's timescale.
    pub duration: u32,
    /// Where the data of the sample starts in the file.
    pub data_offset: u64,
    /// The size of the data of the sample in bytes.
    pub data_size: usize,
}

/// Reads the samples of a file in time order, across its tracks.
///
/// The demuxer first reads the `ftyp` box and then looks for the `moov` box; it asks for the
/// bytes it needs through [`Mp4FileDemuxer::required_input()`]. It is not meant for streaming.
pub struct Mp4FileDemuxer {
    phase: Phase,
    track_infos: Vec<TrackInfo>,
    tracks: Vec<TrackState>,
    next_indices: Vec<NonZeroU32>,
    handle_input_error: Option<DemuxError>,
}

impl Mp4FileDemuxer {
    /// The demuxer's own consistency: one table and one position per track.
    pub closed spec fn wf(&self) -> bool {
        &&& self.tracks@.len() == self.track_infos@.len()
        &&& self.next_indices@.len() == self.track_infos@.len()
        &&& forall|i: int|
            0 <= i < self.tracks@.len() ==> (#[trigger] self.tracks@[i]).timescale
                == self.track_infos@[i].timescale
        &&& forall|i: int|
            0 <= i < self.tracks@.len() ==> (#[trigger] self.next_indices@[i]).spec_get()
                <= self.tracks@[i].table.spec_sample_count() + 1
        &&& forall|i: int|
            0 <= i < self.tracks@.len() ==> (#[trigger] self.tracks@[i]).table.spec_sample_count()
                == stts_sample_count(self.tracks@[i].table.spec_stbl())
    }

    /// The error that an input caused; once recorded it stays.
    pub closed spec fn spec_error(&self) -> Option<DemuxError> {
        self.handle_input_error
    }

    /// The bytes that reading the start of the file needs next, if any.
    pub closed spec fn spec_pending(&self) -> Option<RequiredInput> {
        phase_required(self.phase)
    }

    /// Whether the tracks have been read.
    pub closed spec fn spec_initialized(&self) -> bool {
        self.phase is Initialized
    }

    /// What reading the start of the file with `input` from where the demuxer stands comes to:
    /// `Ok` with the offset and bytes of the `moov` box, which decodes; `Err(Some(req))` when the
    /// bytes `req` are needed and `input` lacks them; `Err(None)` when the first box is not an
    /// `ftyp` box that decodes, a box header does not decode, a box before the `moov` box runs
    /// to the end of the file or past 64-bit offsets, or the `moov` box does not decode. The
    /// boxes are read in order: the `ftyp` box at offset 0, then box after box until the `moov`
    /// box.
    pub closed spec fn spec_read(&self, input: Input) -> Result<(u64, Seq<u8>), Option<RequiredInput>> {
        read_from(self.phase, input)
    }

    /// The tracks read so far.
    pub closed spec fn spec_tracks(&self) -> Seq<TrackInfo> {
        self.track_infos@
    }

    /// The sample table of track `i`.
    pub closed spec fn spec_table(&self, i: int) -> SampleTableAccessor {
        self.tracks@[i].table
    }

    /// The position (counted from one) of the next sample of track `i`.
    pub closed spec fn spec_next(&self, i: int) -> u32 {
        self.next_indices@[i].spec_get()
    }

    /// The bytes the demuxer asks for: none once an error is recorded or the tracks are read.
    pub open spec fn spec_required_input(&self) -> Option<RequiredInput> {
        if self.spec_error() is Some {
            None
        } else {
            self.spec_pending()
        }
    }

    /// Creates a demuxer that starts by asking for the `ftyp` box header.
    pub fn new() -> (r: Self)
        ensures
            r.wf(),
            r.spec_error() is None,
            r.spec_pending() == Some(RequiredInput { position: 0, size: Some(32) }),
            !r.spec_initialized(),
            r.spec_tracks().len() == 0,
    {
        Self {
            phase: Phase::ReadFtypBoxHeader,
            track_infos: Vec::new(),
            tracks: Vec::new(),
            next_indices: Vec::new(),
            handle_input_error: None,
        }
    }

    /// The bytes the demuxer needs next: `None` once the tracks are read, or after an input
    /// caused an error.
    pub fn required_input(&self) -> (r: Option<RequiredInput>)
        ensures
            r == self.spec_required_input(),
    {
        if self.handle_input_error.is_some() {
            return None;
        }
        match self.phase {
            Phase::ReadFtypBoxHeader => Some(RequiredInput::new(0, Some(BoxHeader::MAX_SIZE))),
            Phase::ReadFtypBox { box_size } => Some(RequiredInput::new(0, box_size)),
            Phase::ReadMoovBoxHeader { offset } => Some(
                RequiredInput::new(offset, Some(BoxHeader::MAX_SIZE)),
            ),
            Phase::ReadMoovBox { offset, box_size } => Some(RequiredInput::new(offset, box_size)),
            Phase::Initialized => None,
        }
    }
}

/// How much of an input lies at or after the position of a phase that reads box headers.
spec fn input_left(p: Phase, input: Input) -> int {
    match p {
        Phase::ReadMoovBoxHeader { offset } => {
            let end = input.position + input.data@.len();
            if end >= offset {
                end - offset
            } else {
                0
            }
        },
        _ => 0,
    }
}

/// The bytes of `input` from `position` of the file: `size` of them, or all up to its end.
pub open spec fn input_bytes(input: Input, position: u64, size: Option<usize>) -> Seq<u8> {
    input.data@.subrange(
        position - input.position,
        match size {
            Some(n) => position - input.position + n,
            None => input.data@.len() as int,
        },
    )
}

/// The size of a box whose header is at the start of `d`, as a size hint: `None` for a box that
/// runs to the end of the file.
pub open spec fn box_size_hint(d: Seq<u8>) -> Option<usize> {
    let size = BoxHeader::spec_size_value(d);
    if size > 0 {
        Some(size as usize)
    } else {
        None
    }
}

/// What reading the start of the file from phase `p` with `input` comes to: `Ok` with the
/// offset and bytes of a `moov` box that decodes; `Err(Some(req))` when the bytes `req` are
/// needed and the input lacks them; `Err(None)` when the `ftyp` box or a box header does not
/// decode, the first box is not an `ftyp` box, a box before the `moov` box runs to the end
/// of the file or past 64-bit offsets, or the `moov` box does not decode.
spec fn read_from(p: Phase, input: Input) -> Result<(u64, Seq<u8>), Option<RequiredInput>>
    decreases phase_rank(p), input_left(p, input),
{
    match p {
        Phase::ReadFtypBoxHeader => {
            let req = RequiredInput { position: 0, size: Some(32) };
            if !satisfies(req, input.position, input.data@.len() as int) {
                Err(Some(req))
            } else {
                let d = input_bytes(input, 0, Some(32));
                if !BoxHeader::spec_can_decode(d) || !spec_is_type(d, FtypBox::spec_type().spec_bytes()) {
                    Err(None)
                } else {
                    read_from(Phase::ReadFtypBox { box_size: box_size_hint(d) }, input)
                }
            }
        },
        Phase::ReadFtypBox { box_size } => {
            let req = RequiredInput { position: 0, size: box_size };
            if !satisfies(req, input.position, input.data@.len() as int) {
                Err(Some(req))
            } else {
                let d = input_bytes(input, 0, box_size);
                if !FtypBox::spec_can_decode(d) {
                    Err(None)
                } else {
                    read_from(Phase::ReadMoovBoxHeader { offset: FtypBox::spec_decoded_len(d) as u64 }, input)
                }
            }
        },
        Phase::ReadMoovBoxHeader { offset } => {
            let req = RequiredInput { position: offset, size: Some(32) };
            if !satisfies(req, input.position, input.data@.len() as int) {
                Err(Some(req))
            } else {
                let d = input_bytes(input, offset, Some(32));
                let size = BoxHeader::spec_size_value(d);
                if !BoxHeader::spec_can_decode(d) {
                    Err(None)
                } else if !spec_is_type(d, MoovBox::spec_type().spec_bytes()) {
                    if size == 0 || offset + size > u64::MAX {
                        Err(None)
                    } else {
                        read_from(Phase::ReadMoovBoxHeader { offset: (offset + size) as u64 }, input)
                    }
                } else {
                    read_from(Phase::ReadMoovBox { offset, box_size: box_size_hint(d) }, input)
                }
            }
        },
        Phase::ReadMoovBox { offset, box_size } => {
            let req = RequiredInput { position: offset, size: box_size };
            if !satisfies(req, input.position, input.data@.len() as int) {
                Err(Some(req))
            } else {
                let d = input_bytes(input, offset, box_size);
                if !MoovBox::spec_can_decode(d) {
                    Err(None)
                } else {
                    Ok((offset, d))
                }
            }
        },
        Phase::Initialized => Err(None),
    }
}




/// The kind of the media of a `trak` box: video for a `vide` handler, audio for `soun`, none
/// for other handlers.
pub open spec fn trak_kind(t: TrakBox) -> Option<TrackKind> {
    let h = t.mdia_box.hdlr_box.handler_type@;
    if h == seq![0x76u8, 0x69u8, 0x64u8, 0x65u8] {
        Some(TrackKind::Video)
    } else if h == seq![0x73u8, 0x6fu8, 0x75u8, 0x6eu8] {
        Some(TrackKind::Audio)
    } else {
        None
    }
}

/// The video and audio `trak` boxes of a list, in order.
pub open spec fn media_traks(ts: Seq<TrakBox>) -> Seq<TrakBox>
    decreases ts.len(),
{
    if ts.len() == 0 {
        Seq::empty()
    } else if trak_kind(ts.last()) is Some {
        media_traks(ts.drop_last()).push(ts.last())
    } else {
        media_traks(ts.drop_last())
    }
}

/// The track that a video or audio `trak` box describes.
pub open spec fn trak_info(t: TrakBox) -> TrackInfo {
    TrackInfo {
        track_id: t.tkhd_box.track_id,
        kind: trak_kind(t)->Some_0,
        duration: t.mdia_box.mdhd_box.duration,
        timescale: t.mdia_box.mdhd_box.timescale,
    }
}

/// The sample table of a `trak` box.
pub open spec fn trak_stbl(t: TrakBox) -> StblBox {
    t.mdia_box.minf_box.stbl_box
}

/// Whether the sample table of every video and audio `trak` box of a list can be read: it fits
/// 32-bit counts and 64-bit offsets, and passes the checks of [`SampleTableAccessor::new`].
pub open spec fn traks_readable(ts: Seq<TrakBox>) -> bool {
    forall|i: int|
        0 <= i < media_traks(ts).len() ==> table_fits(trak_stbl(#[trigger] media_traks(ts)[i]))
            && table_checks_pass(trak_stbl(media_traks(ts)[i]))
}

/// The media tracks of a list of `trak` boxes grow by one step at a time.
proof fn lemma_media_traks_step(ts: Seq<TrakBox>, n: int)
    requires
        0 <= n < ts.len(),
    ensures
        media_traks(ts.subrange(0, n + 1)) == if trak_kind(ts[n]) is Some {
            media_traks(ts.subrange(0, n)).push(ts[n])
        } else {
            media_traks(ts.subrange(0, n))
        },
{
    assert(ts.subrange(0, n + 1).drop_last() =~= ts.subrange(0, n));
}

/// A prefix of a list of `trak` boxes keeps its media tracks at the front.
proof fn lemma_media_traks_prefix(ts: Seq<TrakBox>, n: int)
    requires
        0 <= n <= ts.len(),
    ensures
        media_traks(ts.subrange(0, n)).len() <= media_traks(ts).len(),
        forall|i: int| 0 <= i < media_traks(ts.subrange(0, n)).len() ==> #[trigger] media_traks(ts.subrange(0, n))[i] == media_traks(ts)[i],
    decreases ts.len() - n,
{
    if n < ts.len() {
        lemma_media_traks_prefix(ts, n + 1);
        lemma_media_traks_step(ts, n);
        assert forall|i: int| 0 <= i < media_traks(ts.subrange(0, n)).len() implies #[trigger] media_traks(ts.subrange(0, n))[i] == media_traks(ts)[i] by {
            assert(media_traks(ts.subrange(0, n + 1))[i] == media_traks(ts.subrange(0, n))[i]);
        }
    } else {
        assert(ts.subrange(0, n) =~= ts);
    }
}


/// Whether `e` is `b` after reading the tracks of the `moov` box with bytes `d`: it decodes to a
/// box whose video and audio tracks can be read exactly when `ok`, and then `e` holds those
/// tracks after those of `b`, each with the sample table of its `trak` box.
pub open spec fn moov_tracks_read(d: Seq<u8>, ok: bool, b: Mp4FileDemuxer, e: Mp4FileDemuxer) -> bool {
    exists|m: MoovBox|
        #[trigger] MoovBox::spec_decoded(d, m) && (ok <==> traks_readable(m.trak_boxes@)) && (ok ==> {
            let ms = media_traks(m.trak_boxes@);
            &&& e.spec_tracks() == b.spec_tracks() + ms.map_values(|t: TrakBox| trak_info(t))
            &&& forall|i: int|
                0 <= i < ms.len() ==> #[trigger] e.spec_table(b.spec_tracks().len() + i).spec_stbl() == trak_stbl(
                    ms[i],
                )
        })
}

impl Mp4FileDemuxer {
    /// Reads the tracks of a `moov` box: those whose handler is video or audio.
    fn read_tracks(&mut self, moov_box: MoovBox) -> (r: Result<(), DemuxError>)
        requires
            old(self).wf(),
        ensures
            final(self).wf(),
            final(self).phase == old(self).phase,
            final(self).handle_input_error == old(self).handle_input_error,
            final(self).track_infos@.len() >= old(self).track_infos@.len(),
            forall|i: int|
                0 <= i < old(self).track_infos@.len() ==> final(self).track_infos@[i]
                    == old(self).track_infos@[i],
            r is Ok <==> traks_readable(moov_box.trak_boxes@),
            r matches Err(e) ==> !(e is InputRequired),
            r is Ok ==> {
                let ms = media_traks(moov_box.trak_boxes@);
                &&& final(self).track_infos@ == old(self).track_infos@ + ms.map_values(|t: TrakBox| trak_info(t))
                &&& forall|i: int| 0 <= i < ms.len() ==> #[trigger] final(self).tracks@[old(self).tracks@.len() + i].table.spec_stbl() == trak_stbl(ms[i])
            },
    {
        let ghost all = moov_box.trak_boxes@;
        let ghost t0 = self.track_infos@;
        let ghost n0 = self.tracks@.len();
        let mut traks = moov_box.trak_boxes;
        assert(all.subrange(0, 0) =~= Seq::<TrakBox>::empty());
        assert(traks@ =~= all.subrange(0, 0 + traks@.len() as int));
        while traks.len() > 0
            invariant
                self.wf(),
                self.phase == old(self).phase,
                self.handle_input_error == old(self).handle_input_error,
                t0 == old(self).track_infos@,
                n0 == old(self).tracks@.len(),
                n0 == t0.len(),
                all == moov_box.trak_boxes@,
                traks@.len() <= all.len(),
                traks@ == all.subrange(all.len() - traks@.len(), all.len() as int),
                traks_readable(all.subrange(0, all.len() - traks@.len())),
                self.track_infos@ == t0 + media_traks(all.subrange(0, all.len() - traks@.len())).map_values(
                    |t: TrakBox| trak_info(t),
                ),
                forall|i: int|
                    0 <= i < media_traks(all.subrange(0, all.len() - traks@.len())).len() ==> #[trigger] self.tracks@[n0 + i].table.spec_stbl()
                        == trak_stbl(media_traks(all.subrange(0, all.len() - traks@.len()))[i]),
            decreases traks@.len(),
        {
            let ghost k = all.len() - traks@.len();
            let ghost before = media_traks(all.subrange(0, k));
            proof {
                lemma_media_traks_step(all, k);
                assert(traks@[0] == all[k]);
            }
            let trak = traks.remove(0);
            proof {
                assert(traks@ =~= all.subrange(all.len() - traks@.len(), all.len() as int));
            }
            let handler_type = trak.mdia_box.hdlr_box.handler_type;
            let vide = HdlrBox::HANDLER_TYPE_VIDE();
            let soun = HdlrBox::HANDLER_TYPE_SOUN();
            let kind = if bytes_eq(handler_type.as_slice(), vide.as_slice()) {
                TrackKind::Video
            } else if bytes_eq(handler_type.as_slice(), soun.as_slice()) {
                TrackKind::Audio
            } else {
                proof {
                    assert(trak_kind(trak) is None);
                    assert(media_traks(all.subrange(0, k + 1)) == before);
                    assert(traks_readable(all.subrange(0, k + 1))) by {
                        assert forall|i: int| 0 <= i < media_traks(all.subrange(0, k + 1)).len() implies table_fits(trak_stbl(#[trigger] media_traks(all.subrange(0, k + 1))[i]))
                            && table_checks_pass(trak_stbl(media_traks(all.subrange(0, k + 1))[i])) by {
                            assert(media_traks(all.subrange(0, k + 1))[i] == before[i]);
                        }
                    }
                }
                continue;
            };
            assert(trak_kind(trak) == Some(kind));
            let ghost gtrak = trak;
            let track_id = trak.tkhd_box.track_id;
            let timescale = trak.mdia_box.mdhd_box.timescale;
            let duration = trak.mdia_box.mdhd_box.duration;
            let stbl_box = trak.mdia_box.minf_box.stbl_box;
            proof {
                lemma_media_traks_prefix(all, k + 1);
                assert(media_traks(all.subrange(0, k + 1))[before.len() as int] == trak);
                assert(media_traks(all)[before.len() as int] == gtrak);
            }
            if !table_fits_exec(&stbl_box) {
                proof {
                    assert(!table_fits(trak_stbl(media_traks(all)[before.len() as int])));
                    assert(before.len() < media_traks(all).len());
                    assert(!traks_readable(all));
                }
                return Err(
                    DemuxError::DecodeError(
                        Error::invalid_data("sample table does not fit 32-bit counts and 64-bit offsets"),
                    ),
                );
            }
            let table = match SampleTableAccessor::new(stbl_box) {
                Ok(t) => t,
                Err(e) => {
                    proof {
                        assert(!table_checks_pass(trak_stbl(media_traks(all)[before.len() as int])));
                        assert(before.len() < media_traks(all).len());
                        assert(!traks_readable(all));
                    }
                    return Err(DemuxError::SampleTableError(e));
                },
            };
            proof {
                assert(table.spec_sample_count() + 1 >= 1);
            }
            let ghost infos0 = self.track_infos@;
            let ghost tracks0 = self.tracks@;
            self.track_infos.push(TrackInfo { track_id, kind, duration, timescale });
            self.tracks.push(TrackState { table, timescale });
            self.next_indices.push(NonZeroU32::MIN());
            proof {
                let after = media_traks(all.subrange(0, k + 1));
                assert(after == before.push(trak));
                assert(after.map_values(|t: TrakBox| trak_info(t)) =~= before.map_values(|t: TrakBox| trak_info(t)).push(trak_info(trak)));
                assert(self.track_infos@ =~= t0 + after.map_values(|t: TrakBox| trak_info(t)));
                assert(traks_readable(all.subrange(0, k + 1))) by {
                    assert forall|i: int| 0 <= i < after.len() implies table_fits(trak_stbl(#[trigger] after[i]))
                        && table_checks_pass(trak_stbl(after[i])) by {
                        if i < before.len() {
                            assert(after[i] == before[i]);
                        }
                    }
                }
                assert(infos0.len() == t0.len() + before.map_values(|t: TrakBox| trak_info(t)).len());
                assert(tracks0.len() == n0 + before.len());
                assert forall|i: int| 0 <= i < after.len() implies #[trigger] self.tracks@[n0 + i].table.spec_stbl()
                    == trak_stbl(after[i]) by {
                    if i < before.len() {
                        assert(after[i] == before[i]);
                        assert(self.tracks@[n0 + i] == tracks0[n0 + i]);
                    }
                }
            }
        }
        proof {
            assert(all.subrange(0, all.len() as int) =~= all);
        }
        Ok(())
    }

    /// Reads the start of the file from `input` as far as it goes.
    fn handle_input_inner(&mut self, input: Input) -> (r: Result<(), DemuxError>)
        requires
            old(self).wf(),
        ensures
            final(self).wf(),
            final(self).handle_input_error == old(self).handle_input_error,
            old(self).phase is Initialized ==> *final(self) == *old(self) && r is Ok,
            r is Ok ==> final(self).phase is Initialized,
            r matches Err(DemuxError::InputRequired(req)) ==> phase_required(final(self).phase)
                == Some(req) && !satisfies(req, input.position, input.data@.len() as int),
            r matches Err(DemuxError::InputRequired(_)) ==> final(self).track_infos@.len() == old(self).track_infos@.len(),
            !(old(self).phase is Initialized) ==> match read_from(old(self).phase, input) {
                Err(Some(req)) => r == Err::<(), DemuxError>(DemuxError::InputRequired(req))
                    && final(self).track_infos@ == old(self).track_infos@,
                Err(None) => r matches Err(e) && !(e is InputRequired),
                Ok((_, d)) => moov_tracks_read(d, r is Ok, *old(self), *final(self)) && (r matches Err(e) ==> !(
                e is InputRequired)),
            },
    {
        loop
            invariant
                self.wf(),
                self.handle_input_error == old(self).handle_input_error,
                old(self).phase is Initialized ==> *self == *old(self),
                !(self.phase is Initialized) ==> self.track_infos@.len() == old(self).track_infos@.len(),
                !(old(self).phase is Initialized) ==> !(self.phase is Initialized) && read_from(old(self).phase, input)
                    == read_from(self.phase, input) && self.track_infos@ == old(self).track_infos@
                    && self.tracks@.len() == old(self).tracks@.len(),
            decreases phase_rank(self.phase), input_left(self.phase, input),
        {
            match self.phase {
                Phase::ReadFtypBoxHeader => {
                    let data = match input.slice_range(0, Some(BoxHeader::MAX_SIZE)) {
                        Some(d) => d,
                        None => {
                            return Err(DemuxError::input_required(0, Some(BoxHeader::MAX_SIZE)));
                        },
                    };
                    let header = match BoxHeader::decode(data) {
                        Ok((h, _)) => h,
                        Err(e) => {
                            return Err(DemuxError::DecodeError(e));
                        },
                    };
                    match header.box_type.expect(FtypBox::TYPE()) {
                        Ok(()) => {},
                        Err(e) => {
                            return Err(DemuxError::DecodeError(e));
                        },
                    }
                    let size = header.box_size.get();
                    let box_size = if size > 0 {
                        Some(#[verifier::truncate] (size as usize))
                    } else {
                        None
                    };
                    self.phase = Phase::ReadFtypBox { box_size };
                },
                Phase::ReadFtypBox { box_size } => {
                    let data = match input.slice_range(0, box_size) {
                        Some(d) => d,
                        None => {
                            return Err(DemuxError::input_required(0, box_size));
                        },
                    };
                    let n = match FtypBox::decode(data) {
                        Ok((_, n)) => n,
                        Err(e) => {
                            return Err(DemuxError::DecodeError(e));
                        },
                    };
                    self.phase = Phase::ReadMoovBoxHeader { offset: n as u64 };
                },
                Phase::ReadMoovBoxHeader { offset } => {
                    let data = match input.slice_range(offset, Some(BoxHeader::MAX_SIZE)) {
                        Some(d) => d,
                        None => {
                            return Err(DemuxError::input_required(offset, Some(BoxHeader::MAX_SIZE)));
                        },
                    };
                    let header = match BoxHeader::decode(data) {
                        Ok((h, _)) => h,
                        Err(e) => {
                            return Err(DemuxError::DecodeError(e));
                        },
                    };
                    let size = header.box_size.get();
                    if !header.box_type.is_same(&MoovBox::TYPE()) {
                        if size == 0 {
                            return Err(
                                DemuxError::DecodeError(Error::invalid_data("moov box not found")),
                            );
                        }
                        let next = match offset.checked_add(size) {
                            Some(o) => o,
                            None => {
                                return Err(
                                    DemuxError::DecodeError(Error::invalid_data("moov box not found")),
                                );
                            },
                        };
                        proof {
                            assert(input_left(Phase::ReadMoovBoxHeader { offset: next }, input)
                                < input_left(self.phase, input));
                        }
                        self.phase = Phase::ReadMoovBoxHeader { offset: next };
                    } else {
                        let box_size = if size > 0 {
                            Some(#[verifier::truncate] (size as usize))
                        } else {
                            None
                        };
                        self.phase = Phase::ReadMoovBox { offset, box_size };
                    }
                },
                Phase::ReadMoovBox { offset, box_size } => {
                    let data = match input.slice_range(offset, box_size) {
                        Some(d) => d,
                        None => {
                            return Err(DemuxError::input_required(offset, box_size));
                        },
                    };
                    let moov_box = match MoovBox::decode(data) {
                        Ok((b, _)) => b,
                        Err(e) => {
                            return Err(DemuxError::DecodeError(e));
                        },
                    };
                    let ghost gm = moov_box;
                    let ghost before = *self;
                    proof {
                        assert(data@ == input_bytes(input, offset, box_size));
                        assert(MoovBox::spec_decoded(input_bytes(input, offset, box_size), gm));
                        assert(read_from(self.phase, input) == Ok::<(u64, Seq<u8>), Option<RequiredInput>>((offset, data@)));
                    }
                    match self.read_tracks(moov_box) {
                        Ok(()) => {},
                        Err(e) => {
                            proof {
                                assert(!traks_readable(gm.trak_boxes@));
                                assert(MoovBox::spec_decoded(input_bytes(input, offset, box_size), gm));
                                assert(moov_tracks_read(input_bytes(input, offset, box_size), false, *old(self), *self));
                            }
                            return Err(e);
                        },
                    }
                    self.phase = Phase::Initialized;
                    proof {
                        assert(traks_readable(gm.trak_boxes@));
                        assert(before.tracks@.len() == old(self).tracks@.len());
                        assert(MoovBox::spec_decoded(input_bytes(input, offset, box_size), gm));
                        let ms = media_traks(gm.trak_boxes@);
                        assert(self.track_infos@ == old(self).track_infos@ + ms.map_values(|t: TrakBox| trak_info(t)));
                        assert(forall|i: int| 0 <= i < ms.len() ==> #[trigger] self.tracks@[old(self).tracks@.len() + i].table.spec_stbl() == trak_stbl(ms[i]));
                        assert(read_from(old(self).phase, input) == Ok::<(u64, Seq<u8>), Option<RequiredInput>>((offset, input_bytes(input, offset, box_size))));
                        assert(old(self).spec_tracks().len() == old(self).tracks@.len());
                        assert(moov_tracks_read(input_bytes(input, offset, box_size), true, *old(self), *self));
                    }
                    return Ok(());
                },
                Phase::Initialized => {
                    return Ok(());
                },
            }
        }
    }
}



/// The sample entry of sample `n` (counted from one) of a table.
pub open spec fn sample_entry_of(stbl: StblBox, n: int) -> SampleEntry {
    let ss = stbl.stsc_box.entries@;
    stbl.stsd_box.entries@[ss[stsc_entry_of(ss, chunk_of_sample(stbl, n))].sample_description_index.spec_get()
        - 1]
}

/// The position (counted from one) of the sample entry of sample `n` of a table.
pub open spec fn sample_entry_index_of(stbl: StblBox, n: int) -> NonZeroU32 {
    let ss = stbl.stsc_box.entries@;
    ss[stsc_entry_of(ss, chunk_of_sample(stbl, n))].sample_description_index
}

/// Whether `s` is sample `n` (counted from one) of track `i` of the demuxer `d`.
pub open spec fn sample_matches(d: Mp4FileDemuxer, i: int, n: int, s: Sample) -> bool {
    let stbl = d.spec_table(i).spec_stbl();
    let es = stbl.stts_box.entries@;
    &&& *s.track == d.spec_tracks()[i]
    &&& s.timestamp == sample_timestamp_of(es, n - 1)
    &&& s.duration == sample_duration_of(es, n - 1)
    &&& s.data_offset == sample_data_offset_of(stbl, n)
    &&& s.data_size == sample_size_of(stbl.stsz_box, n)
    &&& s.sample_entry is Some <==> (n == 1 || (sample_entry_index_of(stbl, n - 1)
        != sample_entry_index_of(stbl, n) && !same_sample_entry(
        sample_entry_of(stbl, n - 1),
        sample_entry_of(stbl, n),
    )))
    &&& s.sample_entry matches Some(e) ==> *e == sample_entry_of(stbl, n)
    &&& stbl.stss_box is None ==> s.keyframe
    &&& stbl.stss_box is Some && nonzero_ascending(sync_numbers(stbl)) ==> (s.keyframe <==> exists|k: int|
        0 <= k < sync_numbers(stbl).len() && #[trigger] sync_numbers(stbl)[k].spec_get() == n)
}

/// Whether track `i` of `d` has samples after its position.
pub open spec fn track_ready(d: Mp4FileDemuxer, i: int) -> bool {
    d.spec_next(i) <= d.spec_table(i).spec_sample_count()
}

/// The time key of sample `n` of track `i` of `d`.
pub open spec fn sample_key(d: Mp4FileDemuxer, i: int, n: int) -> int {
    time_key(
        sample_timestamp_of(d.spec_table(i).spec_stbl().stts_box.entries@, n - 1),
        d.spec_tracks()[i].timescale.spec_get() as int,
    )
}

/// Whether track `i` holds the earliest next sample of `d` (the first such track on ties).
pub open spec fn is_earliest(d: Mp4FileDemuxer, i: int) -> bool {
    &&& 0 <= i < d.spec_tracks().len()
    &&& track_ready(d, i)
    &&& forall|j: int|
        0 <= j < d.spec_tracks().len() && j != i && #[trigger] track_ready(d, j) ==> if j < i {
            sample_key(d, j, d.spec_next(j) as int) > sample_key(d, i, d.spec_next(i) as int)
        } else {
            sample_key(d, j, d.spec_next(j) as int) >= sample_key(d, i, d.spec_next(i) as int)
        }
}

/// Whether track `i` of `d` has samples before its position.
pub open spec fn track_has_prev(d: Mp4FileDemuxer, i: int) -> bool {
    d.spec_next(i) >= 2
}

/// Whether track `i` holds the latest sample before the positions of `d` (the first such
/// track on ties).
pub open spec fn is_latest(d: Mp4FileDemuxer, i: int) -> bool {
    &&& 0 <= i < d.spec_tracks().len()
    &&& track_has_prev(d, i)
    &&& forall|j: int|
        0 <= j < d.spec_tracks().len() && j != i && #[trigger] track_has_prev(d, j) ==> if j < i {
            sample_key(d, j, d.spec_next(j) - 1) < sample_key(d, i, d.spec_next(i) - 1)
        } else {
            sample_key(d, j, d.spec_next(j) - 1) <= sample_key(d, i, d.spec_next(i) - 1)
        }
}

/// One call of `next_sample` that hands out a sample: track `i` holds the earliest next sample
/// of `d0`, and `d1` has moved past it on that track alone.
pub open spec fn hands_out(d0: Mp4FileDemuxer, i: int, d1: Mp4FileDemuxer) -> bool {
    &&& is_earliest(d0, i)
    &&& d1.spec_tracks() == d0.spec_tracks()
    &&& forall|j: int|
        0 <= j < d0.spec_tracks().len() ==> #[trigger] d1.spec_table(j) == d0.spec_table(j)
    &&& d1.spec_next(i) == d0.spec_next(i) + 1
    &&& forall|j: int|
        0 <= j < d0.spec_tracks().len() && j != i ==> #[trigger] d1.spec_next(j) == d0.spec_next(j)
}

/// How many entries of `picks` are `i`.
pub open spec fn pick_count(picks: Seq<int>, i: int) -> int
    decreases picks.len(),
{
    if picks.len() == 0 {
        0
    } else {
        pick_count(picks.drop_last(), i) + if picks.last() == i {
            1int
        } else {
            0int
        }
    }
}

/// The sum of `pick_count(picks, i)` over `0 <= i < n`.
pub open spec fn picks_below(picks: Seq<int>, n: int) -> int
    decreases n,
{
    if n <= 0 {
        0
    } else {
        picks_below(picks, n - 1) + pick_count(picks, n - 1)
    }
}

/// The number of samples of the tracks `0 <= i < n` of `d`.
pub open spec fn samples_below(d: Mp4FileDemuxer, n: int) -> int
    decreases n,
{
    if n <= 0 {
        0
    } else {
        samples_below(d, n - 1) + d.spec_table(n - 1).spec_sample_count()
    }
}

proof fn lemma_pick_count_nonneg(picks: Seq<int>, i: int)
    ensures
        pick_count(picks, i) >= 0,
    decreases picks.len(),
{
    if picks.len() > 0 {
        lemma_pick_count_nonneg(picks.drop_last(), i);
    }
}

proof fn lemma_picks_below_step(picks: Seq<int>, n: int)
    requires
        picks.len() > 0,
        n >= 0,
    ensures
        picks_below(picks, n) == picks_below(picks.drop_last(), n) + if 0 <= picks.last() < n {
            1int
        } else {
            0int
        },
    decreases n,
{
    if n > 0 {
        lemma_picks_below_step(picks, n - 1);
    }
}

proof fn lemma_time_key_mono(a: int, b: int, scale: int)
    requires
        0 <= a <= b,
        scale > 0,
    ensures
        time_key(a, scale) <= time_key(b, scale),
{
    assert(a * 1_000_000_000 <= b * 1_000_000_000) by (nonlinear_arith)
        requires
            a <= b,
    ;
    vstd::arithmetic::div_mod::lemma_div_is_ordered(a * 1_000_000_000, b * 1_000_000_000, scale);
}

/// Whether `ds` is a run of `next_sample` calls that hand out samples, from a demuxer at the
/// first sample of every track: call `k` takes `ds[k]` to `ds[k + 1]` and hands out a sample
/// of track `picks[k]`.
pub open spec fn is_run(ds: Seq<Mp4FileDemuxer>, picks: Seq<int>) -> bool {
    &&& ds.len() == picks.len() + 1
    &&& forall|k: int| 0 <= k < ds.len() ==> (#[trigger] ds[k]).wf()
    &&& forall|i: int| 0 <= i < ds[0].spec_tracks().len() ==> #[trigger] ds[0].spec_next(i) == 1
    &&& forall|k: int| 0 <= k < picks.len() ==> hands_out(#[trigger] ds[k], picks[k], ds[k + 1])
}

proof fn lemma_run_prefix(ds: Seq<Mp4FileDemuxer>, picks: Seq<int>)
    requires
        is_run(ds, picks),
        picks.len() > 0,
    ensures
        is_run(ds.drop_last(), picks.drop_last()),
        ds.drop_last()[0] == ds[0],
        ds.drop_last().last() == ds[picks.len() - 1],
{
    let ds0 = ds.drop_last();
    let ps0 = picks.drop_last();
    assert forall|k: int| 0 <= k < ps0.len() implies hands_out(
        #[trigger] ds0[k],
        ps0[k],
        ds0[k + 1],
    ) by {
        assert(hands_out(ds[k], picks[k], ds[k + 1]));
    }
    assert forall|k: int| 0 <= k < ds0.len() implies (#[trigger] ds0[k]).wf() by {
        assert(ds[k].wf());
    }
}

/// Along a run, the tracks and their tables stay.
proof fn lemma_run_tables(ds: Seq<Mp4FileDemuxer>, picks: Seq<int>)
    requires
        is_run(ds, picks),
    ensures
        forall|k: int|
            0 <= k < ds.len() ==> (#[trigger] ds[k]).spec_tracks() == ds[0].spec_tracks(),
        forall|k: int, j: int|
            0 <= k < ds.len() && 0 <= j < ds[0].spec_tracks().len() ==> #[trigger] ds[k].spec_table(j)
                == ds[0].spec_table(j),
    decreases picks.len(),
{
    if picks.len() > 0 {
        let m = picks.len() - 1;
        let ds0 = ds.drop_last();
        lemma_run_prefix(ds, picks);
        lemma_run_tables(ds0, picks.drop_last());
        assert(hands_out(ds[m], picks[m], ds[m + 1]));
        assert forall|k: int| 0 <= k < ds.len() implies (#[trigger] ds[k]).spec_tracks()
            == ds[0].spec_tracks() by {
            if k < ds.len() - 1 {
                assert(ds0[k] == ds[k]);
            }
        }
        assert forall|k: int, j: int|
            0 <= k < ds.len() && 0 <= j < ds[0].spec_tracks().len() implies #[trigger] ds[k].spec_table(j)
                == ds[0].spec_table(j) by {
            if k < ds.len() - 1 {
                assert(ds0[k] == ds[k]);
            } else {
                assert(ds0[m].spec_table(j) == ds[0].spec_table(j));
            }
        }
    }
}

/// Along a run, call `k` hands out the sample of track `picks[k]` that follows those handed
/// out on that track before; at the end track `i` stands after `pick_count(picks, i)` samples.
proof fn lemma_run_positions(ds: Seq<Mp4FileDemuxer>, picks: Seq<int>)
    requires
        is_run(ds, picks),
    ensures
        forall|k: int|
            0 <= k < picks.len() ==> 0 <= #[trigger] picks[k] < ds[0].spec_tracks().len()
                && ds[k].spec_next(picks[k]) == pick_count(picks.take(k), picks[k]) + 1,
        forall|i: int|
            0 <= i < ds[0].spec_tracks().len() ==> #[trigger] ds.last().spec_next(i) == pick_count(
                picks,
                i,
            ) + 1 && 0 <= pick_count(picks, i) <= ds[0].spec_table(i).spec_sample_count(),
    decreases picks.len(),
{
    lemma_run_tables(ds, picks);
    let t = ds[0].spec_tracks().len() as int;
    if picks.len() == 0 {
        assert forall|i: int| 0 <= i < t implies #[trigger] ds.last().spec_next(i) == pick_count(
            picks,
            i,
        ) + 1 && 0 <= pick_count(picks, i) <= ds[0].spec_table(i).spec_sample_count() by {
            assert(ds[0].tracks@[i].table.spec_sample_count() >= 0);
        }
    } else {
        let m = picks.len() - 1;
        let ds0 = ds.drop_last();
        let ps0 = picks.drop_last();
        lemma_run_prefix(ds, picks);
        lemma_run_positions(ds0, ps0);
        let p = picks[m];
        assert(hands_out(ds[m], p, ds[m + 1]));
        assert(ps0 =~= picks.take(m));
        assert forall|k: int| 0 <= k < picks.len() implies 0 <= #[trigger] picks[k] < t
            && ds[k].spec_next(picks[k]) == pick_count(picks.take(k), picks[k]) + 1 by {
            if k < m {
                assert(ds0[k] == ds[k]);
                assert(ps0[k] == picks[k]);
                assert(ps0.take(k) =~= picks.take(k));
            }
        }
        assert forall|i: int| 0 <= i < t implies #[trigger] ds.last().spec_next(i) == pick_count(
            picks,
            i,
        ) + 1 && 0 <= pick_count(picks, i) <= ds[0].spec_table(i).spec_sample_count() by {
            assert(ds0.last().spec_next(i) == pick_count(ps0, i) + 1);
            lemma_pick_count_nonneg(picks, i);
            assert(ds[m + 1].wf());
            assert(ds[m + 1].spec_table(i) == ds[0].spec_table(i));
            assert(ds[m + 1].next_indices@[i].spec_get() <= ds[m + 1].tracks@[i].table.spec_sample_count() + 1);
        }
    }
}

/// Along a run, the number of calls is the sum of `pick_count(picks, i)` over the tracks.
proof fn lemma_run_length(ds: Seq<Mp4FileDemuxer>, picks: Seq<int>)
    requires
        is_run(ds, picks),
    ensures
        picks.len() == picks_below(picks, ds[0].spec_tracks().len() as int),
    decreases picks.len(),
{
    let t = ds[0].spec_tracks().len() as int;
    if picks.len() == 0 {
        lemma_picks_below_zero(picks, t);
    } else {
        lemma_run_prefix(ds, picks);
        lemma_run_length(ds.drop_last(), picks.drop_last());
        lemma_run_positions(ds, picks);
        assert(0 <= picks[picks.len() - 1] < t);
        lemma_picks_below_step(picks, t);
    }
}

/// A run of `next_sample` calls that hand out samples, from a demuxer at the first sample of
/// every track: call `k` hands out, on track `picks[k]`, the sample that follows those the run
/// handed out on that track before, so each track's samples come in order and each at most
/// once; the times of the samples never decrease along the run; and the run has handed out
/// `pick_count(picks, i)` samples of track `i`, `picks.len()` in all.
pub proof fn lemma_next_sample_run(ds: Seq<Mp4FileDemuxer>, picks: Seq<int>)
    requires
        is_run(ds, picks),
        forall|i: int|
            0 <= i < ds[0].spec_tracks().len() ==> #[trigger] ds[0].spec_tracks()[i].timescale.spec_get() > 0,
    ensures
        forall|k: int|
            0 <= k < ds.len() ==> (#[trigger] ds[k]).spec_tracks() == ds[0].spec_tracks(),
        forall|k: int, j: int|
            0 <= k < ds.len() && 0 <= j < ds[0].spec_tracks().len() ==> #[trigger] ds[k].spec_table(j)
                == ds[0].spec_table(j),
        forall|k: int|
            0 <= k < picks.len() ==> 0 <= #[trigger] picks[k] < ds[0].spec_tracks().len()
                && ds[k].spec_next(picks[k]) == pick_count(picks.take(k), picks[k]) + 1,
        forall|i: int|
            0 <= i < ds[0].spec_tracks().len() ==> #[trigger] ds.last().spec_next(i) == pick_count(
                picks,
                i,
            ) + 1 && 0 <= pick_count(picks, i) <= ds[0].spec_table(i).spec_sample_count(),
        forall|k: int|
            0 <= k && k + 1 < picks.len() ==> #[trigger] sample_key(
                ds[k],
                picks[k],
                ds[k].spec_next(picks[k]) as int,
            ) <= sample_key(ds[k + 1], picks[k + 1], ds[k + 1].spec_next(picks[k + 1]) as int),
        picks.len() == picks_below(picks, ds[0].spec_tracks().len() as int),
{
    lemma_run_tables(ds, picks);
    lemma_run_positions(ds, picks);
    lemma_run_length(ds, picks);
    assert forall|k: int| 0 <= k && k + 1 < picks.len() implies #[trigger] sample_key(
        ds[k],
        picks[k],
        ds[k].spec_next(picks[k]) as int,
    ) <= sample_key(ds[k + 1], picks[k + 1], ds[k + 1].spec_next(picks[k + 1]) as int) by {
        lemma_pick_count_nonneg(picks.take(k), picks[k]);
        assert(ds[k].spec_tracks() == ds[0].spec_tracks());
        assert(ds[k].wf() && ds[k + 1].wf());
        assert(hands_out(ds[k], picks[k], ds[k + 1]));
        assert(hands_out(ds[k + 1], picks[k + 1], ds[k + 2]));
        lemma_key_step(ds[k], picks[k], ds[k + 1], picks[k + 1]);
    }
}

proof fn lemma_picks_below_zero(picks: Seq<int>, n: int)
    requires
        picks.len() == 0,
    ensures
        picks_below(picks, n) == 0,
    decreases n,
{
    if n > 0 {
        lemma_picks_below_zero(picks, n - 1);
    }
}

/// The sample handed out after a call of `next_sample` is no earlier than the one the call
/// handed out.
proof fn lemma_key_step(d0: Mp4FileDemuxer, i: int, d1: Mp4FileDemuxer, j: int)
    requires
        d0.wf(),
        d1.wf(),
        d0.spec_tracks()[i].timescale.spec_get() > 0,
        hands_out(d0, i, d1),
        is_earliest(d1, j),
        d0.spec_next(i) >= 1,
    ensures
        sample_key(d0, i, d0.spec_next(i) as int) <= sample_key(d1, j, d1.spec_next(j) as int),
{
    if j != i {
        assert(d1.spec_table(j) == d0.spec_table(j));
        assert(d1.spec_next(j) == d0.spec_next(j));
        assert(track_ready(d0, j));
    } else {
        let n = d0.spec_next(i) as int;
        let table = d0.spec_table(i);
        let es = table.spec_stbl().stts_box.entries@;
        assert(d1.spec_table(i) == table);
        assert(d0.tracks@[i].table.spec_sample_count() == stts_sample_count(table.spec_stbl()));
        lemma_timestamp_mono(es, n - 1, n);
        lemma_timestamp_bound(es, n - 1);
        lemma_time_key_mono(
            sample_timestamp_of(es, n - 1),
            sample_timestamp_of(es, n),
            d0.spec_tracks()[i].timescale.spec_get() as int,
        );
    }
}

/// A run of `next_sample` calls that ends where no track has samples left (the call after it
/// returns `Ok(None)`) has handed out every sample of every track: the run of
/// [`lemma_next_sample_run`] holds each sample exactly once, `samples_below` of all tracks in
/// all.
pub proof fn lemma_next_sample_run_complete(ds: Seq<Mp4FileDemuxer>, picks: Seq<int>)
    requires
        is_run(ds, picks),
        forall|i: int| 0 <= i < ds[0].spec_tracks().len() ==> !#[trigger] track_ready(ds.last(), i),
    ensures
        forall|i: int|
            0 <= i < ds[0].spec_tracks().len() ==> #[trigger] pick_count(picks, i)
                == ds[0].spec_table(i).spec_sample_count(),
        picks.len() == samples_below(ds[0], ds[0].spec_tracks().len() as int),
{
    lemma_run_tables(ds, picks);
    lemma_run_positions(ds, picks);
    lemma_run_length(ds, picks);
    let t = ds[0].spec_tracks().len() as int;
    assert forall|i: int| 0 <= i < t implies #[trigger] pick_count(picks, i)
        == ds[0].spec_table(i).spec_sample_count() by {
        assert(!track_ready(ds.last(), i));
        assert(ds.last().spec_table(i) == ds[0].spec_table(i));
        assert(ds.last().spec_next(i) == pick_count(picks, i) + 1);
    }
    lemma_sums_agree(ds[0], picks, t);
}

proof fn lemma_sums_agree(d: Mp4FileDemuxer, picks: Seq<int>, n: int)
    requires
        n <= d.spec_tracks().len(),
        forall|i: int| 0 <= i < d.spec_tracks().len() ==> #[trigger] pick_count(picks, i)
            == d.spec_table(i).spec_sample_count(),
    ensures
        picks_below(picks, n) == samples_below(d, n),
    decreases n,
{
    if n > 0 {
        lemma_sums_agree(d, picks, n - 1);
        assert(pick_count(picks, n - 1) == d.spec_table(n - 1).spec_sample_count());
    }
}

/// Whether `input` lacks the bytes that `d` asks for.
pub open spec fn input_rejected(d: Mp4FileDemuxer, input: Input) -> bool {
    &&& d.spec_error() is None
    &&& d.spec_pending() matches Some(req)
    &&& !satisfies(req, input.position, input.data@.len() as int)
}

/// Whether `e` records an input that lacks the bytes asked for, with nothing else changed.
pub open spec fn input_reported(d: Mp4FileDemuxer, e: Mp4FileDemuxer) -> bool {
    &&& e.spec_error() matches Some(DemuxError::DecodeError(x)) && x.kind == ErrorKind::InvalidInput
    &&& e.spec_pending() == d.spec_pending()
    &&& e.spec_tracks() == d.spec_tracks()
}

/// Whether `e` is `d` after reading `input`, as [`Mp4FileDemuxer::spec_read`] says: the bytes
/// asked for next when the input lacks them (nothing else changed); an error recorded when the
/// boxes before the `moov` box or the `moov` box itself do not decode; or, from the decoded
/// `moov` box, its video and audio tracks read (the demuxer initialized), or an error
/// recorded when one of their sample tables cannot be read.
pub open spec fn input_read(d: Mp4FileDemuxer, e: Mp4FileDemuxer, input: Input) -> bool {
    match d.spec_read(input) {
        Err(Some(req)) => {
            &&& e.spec_error() == d.spec_error()
            &&& e.spec_pending() == Some(req)
            &&& e.spec_tracks() == d.spec_tracks()
            &&& !satisfies(req, input.position, input.data@.len() as int)
        },
        Err(None) => e.spec_error() matches Some(x) && !(x is InputRequired),
        Ok((_, bytes)) => {
            ||| moov_tracks_read(bytes, true, d, e) && e.spec_initialized() && e.spec_error() == d.spec_error()
            ||| moov_tracks_read(bytes, false, d, e) && (e.spec_error() matches Some(x) && !(x is InputRequired))
        },
    }
}

impl Mp4FileDemuxer {
    /// Takes in bytes of the file and reads as far as they allow.
    ///
    /// An input that does not hold the bytes that [`Mp4FileDemuxer::required_input()`] asks for
    /// is an error: the demuxer keeps it, [`Mp4FileDemuxer::required_input()`] returns `None`
    /// from then on, and [`Mp4FileDemuxer::tracks()`], [`Mp4FileDemuxer::next_sample()`] and
    /// [`Mp4FileDemuxer::prev_sample()`] fail with it. An error met while reading the boxes is
    /// kept the same way. More bytes than asked for may be handed
    /// over (the whole file, for instance), but the bytes asked for must come in one input.
    pub fn handle_input(&mut self, input: Input)
        requires
            old(self).wf(),
        ensures
            final(self).wf(),
            old(self).spec_initialized() ==> *final(self) == *old(self),
            input_rejected(*old(self), input) ==> input_reported(*old(self), *final(self)),
            !old(self).spec_initialized() && !input_rejected(*old(self), input) ==> input_read(
                *old(self),
                *final(self),
                input,
            ),
    {
        if self.handle_input_error.is_none() {
            match self.required_input() {
                Some(required) => {
                    if !required.is_satisfied_by(input) {
                        self.handle_input_error = Some(
                            DemuxError::DecodeError(
                                Error::invalid_input(
                                    "handle_input() error: provided input does not contain the required data",
                                ),
                            ),
                        );
                        return ;
                    }
                },
                None => {},
            }
        }
        match self.handle_input_inner(input) {
            Ok(()) => {},
            Err(e) => {
                match e {
                    DemuxError::InputRequired(_) => {},
                    _ => {
                        self.handle_input_error = Some(e);
                    },
                }
            },
        }
    }

    /// Reports the recorded error (and forgets it), or the bytes still needed.
    fn ensure_initialized(&mut self) -> (r: Result<(), DemuxError>)
        requires
            old(self).wf(),
        ensures
            final(self).wf(),
            final(self).phase == old(self).phase,
            final(self).track_infos == old(self).track_infos,
            final(self).tracks == old(self).tracks,
            final(self).next_indices == old(self).next_indices,
            final(self).handle_input_error == old(self).handle_input_error,
            old(self).handle_input_error matches Some(e) ==> r == Err::<(), DemuxError>(e),
            old(self).handle_input_error is None ==> match phase_required(old(self).phase) {
                Some(req) => r == Err::<(), DemuxError>(DemuxError::InputRequired(req)),
                None => r is Ok,
            },
    {
        match &self.handle_input_error {
            Some(e) => Err(e.duplicate()),
            None => match self.required_input() {
                Some(required) => Err(DemuxError::InputRequired(required)),
                None => Ok(()),
            },
        }
    }

    /// Returns the media tracks of the file.
    ///
    /// Fails with the error that an input caused, or with [`DemuxError::InputRequired`] while
    /// the start of the file has not been read.
    pub fn tracks(&mut self) -> (r: Result<&[TrackInfo], DemuxError>)
        requires
            old(self).wf(),
        ensures
            final(self).wf(),
            final(self).spec_error() == old(self).spec_error(),
            final(self).spec_tracks() == old(self).spec_tracks(),
            final(self).spec_pending() == old(self).spec_pending(),
            old(self).spec_error() matches Some(e) ==> r matches Err(x) && x == e,
            old(self).spec_error() is None ==> match old(self).spec_pending() {
                Some(req) => r matches Err(x) && x == DemuxError::InputRequired(req),
                None => r matches Ok(t) && t@ == old(self).spec_tracks(),
            },
    {
        self.ensure_initialized()?;
        Ok(self.track_infos.as_slice())
    }
}



impl Mp4FileDemuxer {
    /// Sample `n` (counted from one) of track `i`.
    fn build_sample(&self, i: usize, n: NonZeroU32) -> (r: Sample<'_>)
        requires
            self.wf(),
            i < self.track_infos@.len(),
            n.spec_get() <= self.tracks@[i as int].table.spec_sample_count(),
        ensures
            sample_matches(*self, i as int, n.spec_get() as int, r),
    {
        let table = &self.tracks[i].table;
        match table.get_sample(n) {
            Some(a) => {
                let chunk = a.chunk();
                let entry = chunk.sample_entry();
                let entry_index = chunk.sample_entry_index();
                let mut is_new = true;
                if n.get() > 1 {
                    match NonZeroU32::new(n.get() - 1) {
                        Some(prev_index) => match table.get_sample(prev_index) {
                            Some(p) => {
                                let prev_chunk = p.chunk();
                                is_new = if prev_chunk.sample_entry_index().get() == entry_index.get() {
                                    false
                                } else {
                                    !prev_chunk.sample_entry().is_same(entry)
                                };
                            },
                            None => {},
                        },
                        None => {},
                    }
                }
                Sample {
                    track: &self.track_infos[i],
                    sample_entry: if is_new {
                        Some(entry)
                    } else {
                        None
                    },
                    keyframe: a.is_sync_sample(),
                    timestamp: a.timestamp(),
                    duration: a.duration(),
                    data_offset: a.data_offset(),
                    data_size: a.data_size() as usize,
                }
            },
            None => {
                assert(false);
                Sample {
                    track: &self.track_infos[i],
                    sample_entry: None,
                    keyframe: false,
                    timestamp: 0,
                    duration: 0,
                    data_offset: 0,
                    data_size: 0,
                }
            },
        }
    }

    /// The time key of sample `n` of track `i`.
    fn key_of(&self, i: usize, n: NonZeroU32) -> (r: u128)
        requires
            self.wf(),
            i < self.track_infos@.len(),
            n.spec_get() <= self.tracks@[i as int].table.spec_sample_count(),
        ensures
            r == sample_key(*self, i as int, n.spec_get() as int),
    {
        let t = &self.tracks[i];
        let ts = match t.table.get_sample(n) {
            Some(a) => a.timestamp(),
            None => {
                assert(false);
                0
            },
        };
        let scale = t.timescale.get();
        assert((ts as u128) * 1_000_000_000 <= u64::MAX * 1_000_000_000) by (nonlinear_arith)
            requires
                ts <= u64::MAX,
        ;
        (ts as u128) * 1_000_000_000 / (scale as u128)
    }

    /// Returns the next sample in time order: of the samples not yet handed out, the earliest
    /// over all tracks (on equal times, the one of the first track), or `None` when every
    /// sample has been handed out.
    ///
    /// Fails with the error that an input caused, or with [`DemuxError::InputRequired`] while
    /// the start of the file has not been read.
    pub fn next_sample(&mut self) -> (r: Result<Option<Sample<'_>>, DemuxError>)
        requires
            old(self).wf(),
        ensures
            final(self).wf(),
            final(self).spec_error() == old(self).spec_error(),
            final(self).spec_tracks() == old(self).spec_tracks(),
            final(self).spec_pending() == old(self).spec_pending(),
            forall|i: int|
                0 <= i < old(self).spec_tracks().len() ==> #[trigger] final(self).spec_table(i)
                    == old(self).spec_table(i),
            old(self).spec_error() matches Some(e) ==> r matches Err(x) && x == e,
            old(self).spec_error() is None ==> (old(self).spec_pending() matches Some(req) ==> r matches Err(x)
                && x == DemuxError::InputRequired(req)),
            r matches Ok(None) ==> forall|i: int|
                0 <= i < old(self).spec_tracks().len() ==> !#[trigger] track_ready(*old(self), i),
            r matches Ok(Some(s)) ==> exists|i: int|
                #[trigger] is_earliest(*old(self), i) && sample_matches(
                    *old(self),
                    i,
                    old(self).spec_next(i) as int,
                    s,
                ) && final(self).spec_next(i) == old(self).spec_next(i) + 1 && forall|j: int|
                    0 <= j < old(self).spec_tracks().len() && j != i ==> #[trigger] final(self).spec_next(j) == old(self).spec_next(j),
            old(self).spec_error() is None && old(self).spec_pending() is None ==> {
                ||| r is Ok
                ||| (r matches Err(DemuxError::DecodeError(e)) && e.kind == ErrorKind::InvalidData
                    && exists|i: int| #[trigger] is_earliest(*old(self), i) && old(self).spec_next(i) == u32::MAX)
            },
            r is Ok && (exists|i: int| 0 <= i < old(self).spec_tracks().len() && #[trigger] track_ready(*old(self), i)) ==> r matches Ok(Some(_)),
            r matches Ok(Some(_)) ==> exists|i: int| #[trigger] hands_out(*old(self), i, *final(self)),
            !(r matches Ok(Some(_))) ==> forall|i: int|
                0 <= i < old(self).spec_tracks().len() ==> #[trigger] final(self).spec_next(i) == old(self).spec_next(i),
    {
        self.ensure_initialized()?;
        let ghost d = *self;
        let mut best: Option<(u128, usize)> = None;
        let mut i: usize = 0;
        while i < self.tracks.len()
            invariant
                self.wf(),
                *self == d,
                i <= self.tracks@.len(),
                best matches Some(b) ==> b.1 < i && track_ready(d, b.1 as int) && b.0 == sample_key(
                    d,
                    b.1 as int,
                    d.spec_next(b.1 as int) as int,
                ) && forall|j: int|
                    0 <= j < i && j != b.1 && #[trigger] track_ready(d, j) ==> if j < b.1 {
                        sample_key(d, j, d.spec_next(j) as int) > b.0
                    } else {
                        sample_key(d, j, d.spec_next(j) as int) >= b.0
                    },
                best is None ==> forall|j: int| 0 <= j < i ==> !#[trigger] track_ready(d, j),
            decreases self.tracks@.len() - i,
        {
            let n = self.next_indices[i];
            if n.get() <= self.tracks[i].table.sample_count() {
                let key = self.key_of(i, n);
                let better = match best {
                    None => true,
                    Some(b) => key < b.0,
                };
                if better {
                    best = Some((key, i));
                }
            }
            i += 1;
        }
        match best {
            None => Ok(None),
            Some((_, b)) => {
                assert(is_earliest(d, b as int));
                let n = self.next_indices[b];
                let next = match n.checked_add(1) {
                    Some(x) => x,
                    None => {
                        return Err(DemuxError::DecodeError(Error::invalid_data("sample index overflow")));
                    },
                };
                self.next_indices.set(b, next);
                let s = self.build_sample(b, n);
                assert(hands_out(d, b as int, *self));
                Ok(Some(s))
            },
        }
    }

    /// Returns the previous sample in time order: of the samples handed out, the latest over all
    /// tracks (on equal times, the one of the first track), which is then the next one again;
    /// or `None` when no sample has been handed out.
    ///
    /// Fails with the error that an input caused, or with [`DemuxError::InputRequired`] while
    /// the start of the file has not been read.
    pub fn prev_sample(&mut self) -> (r: Result<Option<Sample<'_>>, DemuxError>)
        requires
            old(self).wf(),
        ensures
            final(self).wf(),
            final(self).spec_error() == old(self).spec_error(),
            final(self).spec_tracks() == old(self).spec_tracks(),
            final(self).spec_pending() == old(self).spec_pending(),
            forall|i: int|
                0 <= i < old(self).spec_tracks().len() ==> #[trigger] final(self).spec_table(i)
                    == old(self).spec_table(i),
            old(self).spec_error() matches Some(e) ==> r matches Err(x) && x == e,
            old(self).spec_error() is None ==> (old(self).spec_pending() matches Some(req) ==> r matches Err(x)
                && x == DemuxError::InputRequired(req)),
            old(self).spec_error() is None && old(self).spec_pending() is None ==> r is Ok,
            r matches Ok(None) ==> forall|i: int|
                0 <= i < old(self).spec_tracks().len() ==> !#[trigger] track_has_prev(*old(self), i),
            r matches Ok(Some(s)) ==> exists|i: int|
                #[trigger] is_latest(*old(self), i) && sample_matches(
                    *old(self),
                    i,
                    old(self).spec_next(i) - 1,
                    s,
                ) && final(self).spec_next(i) == old(self).spec_next(i) - 1 && forall|j: int|
                    0 <= j < old(self).spec_tracks().len() && j != i ==> #[trigger] final(self).spec_next(j) == old(self).spec_next(j),
            r is Ok && (exists|i: int| 0 <= i < old(self).spec_tracks().len() && #[trigger] track_has_prev(*old(self), i)) ==> r matches Ok(Some(_)),
            !(r matches Ok(Some(_))) ==> forall|i: int|
                0 <= i < old(self).spec_tracks().len() ==> #[trigger] final(self).spec_next(i) == old(self).spec_next(i),
    {
        self.ensure_initialized()?;
        let ghost d = *self;
        let mut best: Option<(u128, usize)> = None;
        let mut i: usize = 0;
        while i < self.tracks.len()
            invariant
                self.wf(),
                *self == d,
                i <= self.tracks@.len(),
                best matches Some(b) ==> b.1 < i && track_has_prev(d, b.1 as int) && b.0
                    == sample_key(d, b.1 as int, d.spec_next(b.1 as int) - 1) && forall|j: int|
                    0 <= j < i && j != b.1 && #[trigger] track_has_prev(d, j) ==> if j < b.1 {
                        sample_key(d, j, d.spec_next(j) - 1) < b.0
                    } else {
                        sample_key(d, j, d.spec_next(j) - 1) <= b.0
                    },
                best is None ==> forall|j: int| 0 <= j < i ==> !#[trigger] track_has_prev(d, j),
            decreases self.tracks@.len() - i,
        {
            let n = self.next_indices[i];
            if n.get() >= 2 {
                let prev = match NonZeroU32::new(n.get() - 1) {
                    Some(p) => p,
                    None => {
                        assert(false);
                        n
                    },
                };
                let key = self.key_of(i, prev);
                let better = match best {
                    None => true,
                    Some(b) => key > b.0,
                };
                if better {
                    best = Some((key, i));
                }
            }
            i += 1;
        }
        match best {
            None => Ok(None),
            Some((_, b)) => {
                assert(is_latest(d, b as int));
                let n = self.next_indices[b];
                let prev = match NonZeroU32::new(n.get() - 1) {
                    Some(p) => p,
                    None => {
                        assert(false);
                        n
                    },
                };
                self.next_indices.set(b, prev);
                let s = self.build_sample(b, prev);
                Ok(Some(s))
            },
        }
    }
}


} // verus!
