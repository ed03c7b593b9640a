//! The boxes of fragmented files: movie fragments, segment indexes and random access tables.
use crate::basic_types::{BaseBox, BoxHeader, BoxType, FullBox, FullBoxFlags, SampleFlags};
use crate::boxes::{
    fourcc, full_header_bytes, put_full_header, spec_box_bytes, spec_box_end, spec_box_fits,
    spec_can_split, spec_is_type, spec_payload, finish_box, with_box_type, peek_box_type,
    spec_scan_children, check_mandatory_box, UnknownBox, all_encodable,
    encodings, put_all, concat, lemma_concat_push,
};
use crate::boxes_moov_tree::{put_unknown_boxes, unknown_boxes_bytes};
use crate::codec::{
    be_u16, be_u32, be_u64, get_u16, get_u16_at, get_u32, get_u32_at, get_u64, get_u64_at,
    get_u8_at, get_i32_at, i32_bits, i32_of, put_i32, put_u16, put_u32, put_u64, put_u8, Decode, Encode,
    Error, ErrorKind, Result,
};
use vstd::prelude::*;

verus! {

// ---------------------------------------------------------------------------
// Optional fields selected by flags
// ---------------------------------------------------------------------------

/// Whether the flag `m` (a power of two) is set in `f`.
pub open spec fn flag_set(f: u32, m: u32) -> bool {
    (f / m) % 2 == 1
}

/// Tests the flag `m` (a power of two) of `f`.
fn has_flag(f: u32, m: u32) -> (r: bool)
    requires
        m > 0,
    ensures
        r == flag_set(f, m),
{
    (f / m) % 2 == 1
}

/// The flags field at the start of a full box payload.
pub open spec fn payload_flags(p: Seq<u8>) -> u32 {
    (get_u32(p, 0) % 0x100_0000) as u32
}

/// `n` when `present`, else 0: the length of an optional field.
pub open spec fn opt_len(present: bool, n: int) -> int {
    if present {
        n
    } else {
        0
    }
}

/// The bytes of an optional 32-bit field: nothing when absent.
pub open spec fn opt_u32_bytes(o: Option<u32>) -> Seq<u8> {
    match o {
        Some(v) => be_u32(v),
        None => Seq::empty(),
    }
}

/// The bytes of an optional 64-bit field: nothing when absent.
pub open spec fn opt_u64_bytes(o: Option<u64>) -> Seq<u8> {
    match o {
        Some(v) => be_u64(v),
        None => Seq::empty(),
    }
}

/// The number of optional sample flags.
pub open spec fn opt_flags_value(o: Option<SampleFlags>) -> Option<u32> {
    match o {
        Some(f) => Some(f.spec_get()),
        None => None,
    }
}

/// The value of an optional 32-bit field at `o` of `p`, present or not.
pub open spec fn opt_u32_at(p: Seq<u8>, o: int, present: bool) -> Option<u32> {
    if present {
        Some(get_u32(p, o))
    } else {
        None
    }
}

fn put_opt_u32(p: &mut Vec<u8>, o: Option<u32>)
    ensures
        final(p)@ == old(p)@ + opt_u32_bytes(o),
{
    match o {
        Some(v) => put_u32(p, v),
        None => {
            assert(p@ =~= old(p)@ + opt_u32_bytes(o));
        },
    }
}

fn put_opt_u64(p: &mut Vec<u8>, o: Option<u64>)
    ensures
        final(p)@ == old(p)@ + opt_u64_bytes(o),
{
    match o {
        Some(v) => put_u64(p, v),
        None => {
            assert(p@ =~= old(p)@ + opt_u64_bytes(o));
        },
    }
}

fn opt_flags_number(o: Option<SampleFlags>) -> (r: Option<u32>)
    ensures
        r == opt_flags_value(o),
{
    match o {
        Some(f) => Some(f.get()),
        None => None,
    }
}

fn get_opt_u32_at(p: &[u8], offset: &mut usize, present: bool) -> (r: Result<Option<u32>>)
    requires
        *old(offset) <= p@.len(),
    ensures
        r is Ok <==> (!present || *old(offset) + 4 <= p@.len()),
        r matches Ok(v) ==> v == opt_u32_at(p@, *old(offset) as int, present) && *final(offset)
            == *old(offset) + opt_len(present, 4),
        r matches Err(e) ==> e.kind == ErrorKind::InsufficientBuffer,
{
    if present {
        let v = get_u32_at(p, offset)?;
        Ok(Some(v))
    } else {
        Ok(None)
    }
}

fn get_opt_u64_at(p: &[u8], offset: &mut usize, present: bool) -> (r: Result<Option<u64>>)
    requires
        *old(offset) <= p@.len(),
    ensures
        r is Ok <==> (!present || *old(offset) + 8 <= p@.len()),
        r matches Ok(v) ==> v == (if present {
            Some(get_u64(p@, *old(offset) as int))
        } else {
            None
        }) && *final(offset) == *old(offset) + opt_len(present, 8),
        r matches Err(e) ==> e.kind == ErrorKind::InsufficientBuffer,
{
    if present {
        let v = get_u64_at(p, offset)?;
        Ok(Some(v))
    } else {
        Ok(None)
    }
}

fn flags_from_number(o: Option<u32>) -> (r: Option<SampleFlags>)
    ensures
        opt_flags_value(r) == o,
{
    match o {
        Some(v) => Some(SampleFlags::new(v)),
        None => None,
    }
}

// ---------------------------------------------------------------------------
// mfhd
// ---------------------------------------------------------------------------

/// The movie fragment header box (`mfhd`, ISO/IEC 14496-12 MovieFragmentHeaderBox): the
/// sequence number of a fragment, which starts at 1 and grows by one per fragment.
#[derive(Debug, Clone, Copy, PartialEq, Eq, Hash, Structural)]
#[allow(missing_docs)]
pub struct MfhdBox {
    pub sequence_number: u32,
}

impl MfhdBox {
    /// The type of the box.
    pub open spec fn spec_type() -> BoxType {
        fourcc(0x6d, 0x66, 0x68, 0x64)
    }

    /// The type of the box: `mfhd`.
    #[allow(non_snake_case)]
    pub fn TYPE() -> (r: BoxType)
        ensures
            r == Self::spec_type(),
    {
        BoxType::Normal([0x6d, 0x66, 0x68, 0x64])
    }

    /// The payload bytes of the box.
    pub open spec fn spec_payload_bytes(&self) -> Seq<u8> {
        full_header_bytes(0, 0) + be_u32(self.sequence_number)
    }

    /// Whether `p` is the payload of an `mfhd` box.
    pub open spec fn spec_payload_ok(p: Seq<u8>) -> bool {
        p.len() >= 8
    }

    /// Whether `v` is the box read from the payload `p`.
    pub open spec fn spec_payload_decoded(p: Seq<u8>, v: Self) -> bool {
        v.sequence_number == get_u32(p, 4)
    }

    fn put_payload(&self, p: &mut Vec<u8>)
        ensures
            final(p)@ == old(p)@ + self.spec_payload_bytes(),
    {
        let ghost start = p@;
        put_full_header(p, 0, 0);
        put_u32(p, self.sequence_number);
        assert(p@ =~= start + self.spec_payload_bytes());
    }

    fn decode_payload(p: &[u8]) -> (r: Result<Self>)
        ensures
            r is Ok <==> Self::spec_payload_ok(p@),
            r matches Ok(v) ==> Self::spec_payload_decoded(p@, v),
    {
        if p.len() < 8 {
            return Err(Error::insufficient_buffer());
        }
        let mut offset: usize = 4;
        let sequence_number = get_u32_at(p, &mut offset)?;
        Ok(Self { sequence_number })
    }
}

impl Encode for MfhdBox {
    open spec fn spec_encodable(&self) -> bool {
        spec_box_fits(self.spec_payload_bytes())
    }

    open spec fn spec_encoding(&self) -> Seq<u8> {
        spec_box_bytes(Self::spec_type().spec_bytes(), self.spec_payload_bytes())
    }

    fn encode_into(&self, out: &mut Vec<u8>) -> (r: Result<()>) {
        let mut p: Vec<u8> = Vec::new();
        self.put_payload(&mut p);
        finish_box(out, Self::TYPE(), p)
    }
}

impl Decode for MfhdBox {
    open spec fn spec_can_decode(s: Seq<u8>) -> bool {
        &&& spec_can_split(s)
        &&& spec_is_type(s, Self::spec_type().spec_bytes())
        &&& Self::spec_payload_ok(spec_payload(s))
    }

    open spec fn spec_decoded_len(s: Seq<u8>) -> int {
        spec_box_end(s)
    }

    open spec fn spec_decoded(s: Seq<u8>, v: Self) -> bool {
        Self::spec_payload_decoded(spec_payload(s), v)
    }

    fn decode(buf: &[u8]) -> (r: Result<(Self, usize)>) {
        let (header, payload) = BoxHeader::decode_typed(buf, Self::TYPE())?;
        let total = buf.len();
        assert(header.spec_external_size() + payload@.len() <= total);
        let n = header.external_size() + payload.len();
        let v = with_box_type(Self::TYPE(), Self::decode_payload(payload))?;
        Ok((v, n))
    }
}

impl BaseBox for MfhdBox {
    open spec fn spec_box_type(&self) -> BoxType {
        Self::spec_type()
    }

    fn box_type(&self) -> (r: BoxType) {
        Self::TYPE()
    }
}


impl FullBox for MfhdBox {
    open spec fn spec_full_box_version(&self) -> u8 {
        0
    }

    open spec fn spec_full_box_flags(&self) -> FullBoxFlags {
        FullBoxFlags::spec_new(0)
    }

    fn full_box_version(&self) -> (r: u8) {
        0
    }

    fn full_box_flags(&self) -> (r: FullBoxFlags) {
        FullBoxFlags::new(0)
    }
}

// ---------------------------------------------------------------------------
// tfhd
// ---------------------------------------------------------------------------

/// The track fragment header box (`tfhd`, ISO/IEC 14496-12 TrackFragmentHeaderBox): the
/// defaults of a track fragment. The flags say which fields are present.
#[derive(Debug, Clone, Copy, PartialEq, Eq, Hash, Structural)]
#[allow(missing_docs)]
pub struct TfhdBox {
    pub track_id: u32,
    pub base_data_offset: Option<u64>,
    pub sample_description_index: Option<u32>,
    pub default_sample_duration: Option<u32>,
    pub default_sample_size: Option<u32>,
    pub default_sample_flags: Option<SampleFlags>,
    pub duration_is_empty: bool,
    pub default_base_is_moof: bool,
}

impl TfhdBox {
    /// The type of the box.
    pub open spec fn spec_type() -> BoxType {
        fourcc(0x74, 0x66, 0x68, 0x64)
    }

    /// The type of the box: `tfhd`.
    #[allow(non_snake_case)]
    pub fn TYPE() -> (r: BoxType)
        ensures
            r == Self::spec_type(),
    {
        BoxType::Normal([0x74, 0x66, 0x68, 0x64])
    }

    /// The flag that marks `base_data_offset` present.
    pub const FLAG_BASE_DATA_OFFSET_PRESENT: u32 = 0x000001;

    /// The flag that marks `sample_description_index` present.
    pub const FLAG_SAMPLE_DESCRIPTION_INDEX_PRESENT: u32 = 0x000002;

    /// The flag that marks `default_sample_duration` present.
    pub const FLAG_DEFAULT_SAMPLE_DURATION_PRESENT: u32 = 0x000008;

    /// The flag that marks `default_sample_size` present.
    pub const FLAG_DEFAULT_SAMPLE_SIZE_PRESENT: u32 = 0x000010;

    /// The flag that marks `default_sample_flags` present.
    pub const FLAG_DEFAULT_SAMPLE_FLAGS_PRESENT: u32 = 0x000020;

    /// The flag that marks the duration of the fragment empty.
    pub const FLAG_DURATION_IS_EMPTY: u32 = 0x010000;

    /// The flag that makes the enclosing `moof` box the default base data offset.
    pub const FLAG_DEFAULT_BASE_IS_MOOF: u32 = 0x020000;

    /// The flags of the box: one bit per present field and per set boolean.
    pub open spec fn spec_flags(&self) -> u32 {
        (opt_len(self.base_data_offset is Some, 0x1) + opt_len(
            self.sample_description_index is Some,
            0x2,
        ) + opt_len(self.default_sample_duration is Some, 0x8) + opt_len(
            self.default_sample_size is Some,
            0x10,
        ) + opt_len(self.default_sample_flags is Some, 0x20) + opt_len(
            self.duration_is_empty,
            0x1_0000,
        ) + opt_len(self.default_base_is_moof, 0x2_0000)) as u32
    }

    fn flags(&self) -> (r: u32)
        ensures
            r == self.spec_flags(),
    {
        let mut f: u32 = 0;
        if self.base_data_offset.is_some() {
            f = f + Self::FLAG_BASE_DATA_OFFSET_PRESENT;
        }
        if self.sample_description_index.is_some() {
            f = f + Self::FLAG_SAMPLE_DESCRIPTION_INDEX_PRESENT;
        }
        if self.default_sample_duration.is_some() {
            f = f + Self::FLAG_DEFAULT_SAMPLE_DURATION_PRESENT;
        }
        if self.default_sample_size.is_some() {
            f = f + Self::FLAG_DEFAULT_SAMPLE_SIZE_PRESENT;
        }
        if self.default_sample_flags.is_some() {
            f = f + Self::FLAG_DEFAULT_SAMPLE_FLAGS_PRESENT;
        }
        if self.duration_is_empty {
            f = f + Self::FLAG_DURATION_IS_EMPTY;
        }
        if self.default_base_is_moof {
            f = f + Self::FLAG_DEFAULT_BASE_IS_MOOF;
        }
        f
    }

    /// The payload bytes of the box.
    pub open spec fn spec_payload_bytes(&self) -> Seq<u8> {
        full_header_bytes(0, self.spec_flags()) + be_u32(self.track_id) + opt_u64_bytes(
            self.base_data_offset,
        ) + opt_u32_bytes(self.sample_description_index) + opt_u32_bytes(
            self.default_sample_duration,
        ) + opt_u32_bytes(self.default_sample_size) + opt_u32_bytes(
            opt_flags_value(self.default_sample_flags),
        )
    }

    /// Where the field after `base_data_offset` starts, for the payload flags `f`.
    pub open spec fn spec_end1(f: u32) -> int {
        8 + opt_len(flag_set(f, 0x1), 8)
    }

    /// Where the field after `sample_description_index` starts.
    pub open spec fn spec_end2(f: u32) -> int {
        Self::spec_end1(f) + opt_len(flag_set(f, 0x2), 4)
    }

    /// Where the field after `default_sample_duration` starts.
    pub open spec fn spec_end3(f: u32) -> int {
        Self::spec_end2(f) + opt_len(flag_set(f, 0x8), 4)
    }

    /// Where the field after `default_sample_size` starts.
    pub open spec fn spec_end4(f: u32) -> int {
        Self::spec_end3(f) + opt_len(flag_set(f, 0x10), 4)
    }

    /// Where the fields end.
    pub open spec fn spec_end5(f: u32) -> int {
        Self::spec_end4(f) + opt_len(flag_set(f, 0x20), 4)
    }

    /// Whether `p` is the payload of a `tfhd` box: it holds every field its flags announce.
    pub open spec fn spec_payload_ok(p: Seq<u8>) -> bool {
        p.len() >= 4 && p.len() >= Self::spec_end5(payload_flags(p))
    }

    /// Whether `v` is the box read from the payload `p`: a field is present when its flag
    /// is set.
    pub open spec fn spec_payload_decoded(p: Seq<u8>, v: Self) -> bool {
        let f = payload_flags(p);
        &&& v.track_id == get_u32(p, 4)
        &&& v.base_data_offset == if flag_set(f, 0x1) {
            Some(get_u64(p, 8))
        } else {
            None
        }
        &&& v.sample_description_index == opt_u32_at(p, Self::spec_end1(f), flag_set(f, 0x2))
        &&& v.default_sample_duration == opt_u32_at(p, Self::spec_end2(f), flag_set(f, 0x8))
        &&& v.default_sample_size == opt_u32_at(p, Self::spec_end3(f), flag_set(f, 0x10))
        &&& opt_flags_value(v.default_sample_flags) == opt_u32_at(
            p,
            Self::spec_end4(f),
            flag_set(f, 0x20),
        )
        &&& v.duration_is_empty == flag_set(f, 0x1_0000)
        &&& v.default_base_is_moof == flag_set(f, 0x2_0000)
    }

    fn put_payload(&self, p: &mut Vec<u8>)
        ensures
            final(p)@ == old(p)@ + self.spec_payload_bytes(),
    {
        let ghost start = p@;
        let flags = self.flags();
        put_full_header(p, 0, flags);
        put_u32(p, self.track_id);
        put_opt_u64(p, self.base_data_offset);
        put_opt_u32(p, self.sample_description_index);
        put_opt_u32(p, self.default_sample_duration);
        put_opt_u32(p, self.default_sample_size);
        put_opt_u32(p, opt_flags_number(self.default_sample_flags));
        assert(p@ =~= start + self.spec_payload_bytes());
    }

    fn decode_payload(p: &[u8]) -> (r: Result<Self>)
        ensures
            r is Ok <==> Self::spec_payload_ok(p@),
            r matches Ok(v) ==> Self::spec_payload_decoded(p@, v),
    {
        if p.len() < 4 {
            return Err(Error::insufficient_buffer());
        }
        let mut offset: usize = 0;
        let word = get_u32_at(p, &mut offset)?;
        let f = word % 0x100_0000;
        let track_id = get_u32_at(p, &mut offset)?;
        let base_data_offset = get_opt_u64_at(p, &mut offset, has_flag(f, 0x1))?;
        let sample_description_index = get_opt_u32_at(p, &mut offset, has_flag(f, 0x2))?;
        let default_sample_duration = get_opt_u32_at(p, &mut offset, has_flag(f, 0x8))?;
        let default_sample_size = get_opt_u32_at(p, &mut offset, has_flag(f, 0x10))?;
        let flags = get_opt_u32_at(p, &mut offset, has_flag(f, 0x20))?;
        Ok(
            Self {
                track_id,
                base_data_offset,
                sample_description_index,
                default_sample_duration,
                default_sample_size,
                default_sample_flags: flags_from_number(flags),
                duration_is_empty: has_flag(f, 0x1_0000),
                default_base_is_moof: has_flag(f, 0x2_0000),
            },
        )
    }
}

impl Encode for TfhdBox {
    open spec fn spec_encodable(&self) -> bool {
        spec_box_fits(self.spec_payload_bytes())
    }

    open spec fn spec_encoding(&self) -> Seq<u8> {
        spec_box_bytes(Self::spec_type().spec_bytes(), self.spec_payload_bytes())
    }

    fn encode_into(&self, out: &mut Vec<u8>) -> (r: Result<()>) {
        let mut p: Vec<u8> = Vec::new();
        self.put_payload(&mut p);
        finish_box(out, Self::TYPE(), p)
    }
}

impl Decode for TfhdBox {
    open spec fn spec_can_decode(s: Seq<u8>) -> bool {
        &&& spec_can_split(s)
        &&& spec_is_type(s, Self::spec_type().spec_bytes())
        &&& Self::spec_payload_ok(spec_payload(s))
    }

    open spec fn spec_decoded_len(s: Seq<u8>) -> int {
        spec_box_end(s)
    }

    open spec fn spec_decoded(s: Seq<u8>, v: Self) -> bool {
        Self::spec_payload_decoded(spec_payload(s), v)
    }

    fn decode(buf: &[u8]) -> (r: Result<(Self, usize)>) {
        let (header, payload) = BoxHeader::decode_typed(buf, Self::TYPE())?;
        let total = buf.len();
        assert(header.spec_external_size() + payload@.len() <= total);
        let n = header.external_size() + payload.len();
        let v = with_box_type(Self::TYPE(), Self::decode_payload(payload))?;
        Ok((v, n))
    }
}

impl BaseBox for TfhdBox {
    open spec fn spec_box_type(&self) -> BoxType {
        Self::spec_type()
    }

    fn box_type(&self) -> (r: BoxType) {
        Self::TYPE()
    }
}

impl FullBox for TfhdBox {
    open spec fn spec_full_box_version(&self) -> u8 {
        0
    }

    open spec fn spec_full_box_flags(&self) -> FullBoxFlags {
        FullBoxFlags::spec_new(self.spec_flags())
    }

    fn full_box_version(&self) -> (r: u8) {
        0
    }

    fn full_box_flags(&self) -> (r: FullBoxFlags) {
        FullBoxFlags::new(self.flags())
    }
}

// ---------------------------------------------------------------------------
// tfdt
// ---------------------------------------------------------------------------

/// The track fragment decode time box (`tfdt`, ISO/IEC 14496-12
/// TrackFragmentBaseMediaDecodeTimeBox): the decode time of the first sample of a track
/// fragment.
///
/// `version` is the version that was read, kept so that a box is written back as it was;
/// a time that does not fit 32 bits is always written with version 1.
#[derive(Debug, Clone, Copy, PartialEq, Eq, Hash, Structural)]
#[allow(missing_docs)]
pub struct TfdtBox {
    pub version: u8,
    pub base_media_decode_time: u64,
}

impl TfdtBox {
    /// The type of the box.
    pub open spec fn spec_type() -> BoxType {
        fourcc(0x74, 0x66, 0x64, 0x74)
    }

    /// The type of the box: `tfdt`.
    #[allow(non_snake_case)]
    pub fn TYPE() -> (r: BoxType)
        ensures
            r == Self::spec_type(),
    {
        BoxType::Normal([0x74, 0x66, 0x64, 0x74])
    }

    /// The version the box is written with.
    pub open spec fn spec_version(&self) -> u8 {
        if self.base_media_decode_time > u32::MAX {
            1
        } else {
            self.version
        }
    }

    /// The payload bytes of the box: the time in 64 bits for version 1, else in 32 bits.
    pub open spec fn spec_payload_bytes(&self) -> Seq<u8> {
        full_header_bytes(self.spec_version(), 0) + if self.spec_version() == 1 {
            be_u64(self.base_media_decode_time)
        } else {
            be_u32(self.base_media_decode_time as u32)
        }
    }

    /// Whether `p` is the payload of a `tfdt` box.
    pub open spec fn spec_payload_ok(p: Seq<u8>) -> bool {
        p.len() >= 4 && p.len() >= if p[0] == 1 {
            12int
        } else {
            8
        }
    }

    /// Whether `v` is the box read from the payload `p`.
    pub open spec fn spec_payload_decoded(p: Seq<u8>, v: Self) -> bool {
        &&& v.version == p[0]
        &&& v.base_media_decode_time == if p[0] == 1 {
            get_u64(p, 4)
        } else {
            get_u32(p, 4) as u64
        }
    }

    fn put_payload(&self, p: &mut Vec<u8>)
        ensures
            final(p)@ == old(p)@ + self.spec_payload_bytes(),
    {
        let ghost start = p@;
        let version = self.full_box_version();
        put_full_header(p, version, 0);
        if version == 1 {
            put_u64(p, self.base_media_decode_time);
        } else {
            put_u32(p, self.base_media_decode_time as u32);
        }
        assert(p@ =~= start + self.spec_payload_bytes());
    }

    fn decode_payload(p: &[u8]) -> (r: Result<Self>)
        ensures
            r is Ok <==> Self::spec_payload_ok(p@),
            r matches Ok(v) ==> Self::spec_payload_decoded(p@, v),
    {
        if p.len() < 4 {
            return Err(Error::insufficient_buffer());
        }
        let version = p[0];
        let mut offset: usize = 4;
        let base_media_decode_time = if version == 1 {
            get_u64_at(p, &mut offset)?
        } else {
            get_u32_at(p, &mut offset)? as u64
        };
        Ok(Self { version, base_media_decode_time })
    }
}

impl Encode for TfdtBox {
    open spec fn spec_encodable(&self) -> bool {
        spec_box_fits(self.spec_payload_bytes())
    }

    open spec fn spec_encoding(&self) -> Seq<u8> {
        spec_box_bytes(Self::spec_type().spec_bytes(), self.spec_payload_bytes())
    }

    fn encode_into(&self, out: &mut Vec<u8>) -> (r: Result<()>) {
        let mut p: Vec<u8> = Vec::new();
        self.put_payload(&mut p);
        finish_box(out, Self::TYPE(), p)
    }
}

impl Decode for TfdtBox {
    open spec fn spec_can_decode(s: Seq<u8>) -> bool {
        &&& spec_can_split(s)
        &&& spec_is_type(s, Self::spec_type().spec_bytes())
        &&& Self::spec_payload_ok(spec_payload(s))
    }

    open spec fn spec_decoded_len(s: Seq<u8>) -> int {
        spec_box_end(s)
    }

    open spec fn spec_decoded(s: Seq<u8>, v: Self) -> bool {
        Self::spec_payload_decoded(spec_payload(s), v)
    }

    fn decode(buf: &[u8]) -> (r: Result<(Self, usize)>) {
        let (header, payload) = BoxHeader::decode_typed(buf, Self::TYPE())?;
        let total = buf.len();
        assert(header.spec_external_size() + payload@.len() <= total);
        let n = header.external_size() + payload.len();
        let v = with_box_type(Self::TYPE(), Self::decode_payload(payload))?;
        Ok((v, n))
    }
}

impl BaseBox for TfdtBox {
    open spec fn spec_box_type(&self) -> BoxType {
        Self::spec_type()
    }

    fn box_type(&self) -> (r: BoxType) {
        Self::TYPE()
    }
}

impl FullBox for TfdtBox {
    open spec fn spec_full_box_version(&self) -> u8 {
        self.spec_version()
    }

    open spec fn spec_full_box_flags(&self) -> FullBoxFlags {
        FullBoxFlags::spec_new(0)
    }

    fn full_box_version(&self) -> (r: u8) {
        let r: u8 = if self.base_media_decode_time > 0xffff_ffff {
            1
        } else {
            self.version
        };
        assert(r == self.spec_full_box_version());
        r
    }

    fn full_box_flags(&self) -> (r: FullBoxFlags) {
        FullBoxFlags::new(0)
    }
}

// ---------------------------------------------------------------------------
// mfro
// ---------------------------------------------------------------------------

/// The movie fragment random access offset box (`mfro`, ISO/IEC 14496-12
/// MovieFragmentRandomAccessOffsetBox): the size of the enclosing `mfra` box, so that a
/// reader can find it from the end of the file.
#[derive(Debug, Clone, Copy, PartialEq, Eq, Hash, Structural)]
#[allow(missing_docs)]
pub struct MfroBox {
    pub size: u32,
}

impl MfroBox {
    /// The type of the box.
    pub open spec fn spec_type() -> BoxType {
        fourcc(0x6d, 0x66, 0x72, 0x6f)
    }

    /// The type of the box: `mfro`.
    #[allow(non_snake_case)]
    pub fn TYPE() -> (r: BoxType)
        ensures
            r == Self::spec_type(),
    {
        BoxType::Normal([0x6d, 0x66, 0x72, 0x6f])
    }

    /// The payload bytes of the box.
    pub open spec fn spec_payload_bytes(&self) -> Seq<u8> {
        full_header_bytes(0, 0) + be_u32(self.size)
    }

    /// Whether `p` is the payload of an `mfro` box.
    pub open spec fn spec_payload_ok(p: Seq<u8>) -> bool {
        p.len() >= 8
    }

    /// Whether `v` is the box read from the payload `p`.
    pub open spec fn spec_payload_decoded(p: Seq<u8>, v: Self) -> bool {
        v.size == get_u32(p, 4)
    }

    fn put_payload(&self, p: &mut Vec<u8>)
        ensures
            final(p)@ == old(p)@ + self.spec_payload_bytes(),
    {
        let ghost start = p@;
        put_full_header(p, 0, 0);
        put_u32(p, self.size);
        assert(p@ =~= start + self.spec_payload_bytes());
    }

    fn decode_payload(p: &[u8]) -> (r: Result<Self>)
        ensures
            r is Ok <==> Self::spec_payload_ok(p@),
            r matches Ok(v) ==> Self::spec_payload_decoded(p@, v),
    {
        if p.len() < 8 {
            return Err(Error::insufficient_buffer());
        }
        let mut offset: usize = 4;
        let size = get_u32_at(p, &mut offset)?;
        Ok(Self { size })
    }
}

impl Encode for MfroBox {
    open spec fn spec_encodable(&self) -> bool {
        spec_box_fits(self.spec_payload_bytes())
    }

    open spec fn spec_encoding(&self) -> Seq<u8> {
        spec_box_bytes(Self::spec_type().spec_bytes(), self.spec_payload_bytes())
    }

    fn encode_into(&self, out: &mut Vec<u8>) -> (r: Result<()>) {
        let mut p: Vec<u8> = Vec::new();
        self.put_payload(&mut p);
        finish_box(out, Self::TYPE(), p)
    }
}

impl Decode for MfroBox {
    open spec fn spec_can_decode(s: Seq<u8>) -> bool {
        &&& spec_can_split(s)
        &&& spec_is_type(s, Self::spec_type().spec_bytes())
        &&& Self::spec_payload_ok(spec_payload(s))
    }

    open spec fn spec_decoded_len(s: Seq<u8>) -> int {
        spec_box_end(s)
    }

    open spec fn spec_decoded(s: Seq<u8>, v: Self) -> bool {
        Self::spec_payload_decoded(spec_payload(s), v)
    }

    fn decode(buf: &[u8]) -> (r: Result<(Self, usize)>) {
        let (header, payload) = BoxHeader::decode_typed(buf, Self::TYPE())?;
        let total = buf.len();
        assert(header.spec_external_size() + payload@.len() <= total);
        let n = header.external_size() + payload.len();
        let v = with_box_type(Self::TYPE(), Self::decode_payload(payload))?;
        Ok((v, n))
    }
}

impl BaseBox for MfroBox {
    open spec fn spec_box_type(&self) -> BoxType {
        Self::spec_type()
    }

    fn box_type(&self) -> (r: BoxType) {
        Self::TYPE()
    }
}


impl FullBox for MfroBox {
    open spec fn spec_full_box_version(&self) -> u8 {
        0
    }

    open spec fn spec_full_box_flags(&self) -> FullBoxFlags {
        FullBoxFlags::spec_new(0)
    }

    fn full_box_version(&self) -> (r: u8) {
        0
    }

    fn full_box_flags(&self) -> (r: FullBoxFlags) {
        FullBoxFlags::new(0)
    }
}



// ---------------------------------------------------------------------------
// trun
// ---------------------------------------------------------------------------

/// A sample of a [`TrunBox`]: each field is present when the run carries it.
#[derive(Debug, Clone, Copy, PartialEq, Eq, Hash, Structural)]
#[allow(missing_docs)]
pub struct TrunSample {
    pub duration: Option<u32>,
    pub size: Option<u32>,
    pub flags: Option<SampleFlags>,
    pub composition_time_offset: Option<i32>,
}

/// Which per-sample fields a track run carries: duration, size, flags, composition offset.
pub type TrunLayout = (bool, bool, bool, bool);

/// The bits of an optional signed 32-bit field.
pub open spec fn opt_i32_bits(o: Option<i32>) -> Option<u32> {
    match o {
        Some(v) => Some(i32_bits(v)),
        None => None,
    }
}

/// Whether a sample has a negative composition time offset.
pub open spec fn trun_sample_negative(s: TrunSample) -> bool {
    match s.composition_time_offset {
        Some(x) => x < 0,
        None => false,
    }
}

/// The fields a track run carries: those present in its first sample.
pub open spec fn trun_sample_layout(s: TrunSample) -> TrunLayout {
    (s.duration is Some, s.size is Some, s.flags is Some, s.composition_time_offset is Some)
}

/// The fields a track run carries, according to the payload flags `f`.
pub open spec fn trun_flags_layout(f: u32) -> TrunLayout {
    (flag_set(f, 0x100), flag_set(f, 0x200), flag_set(f, 0x400), flag_set(f, 0x800))
}

/// The size of a sample entry for a layout.
pub open spec fn trun_sample_size(l: TrunLayout) -> int {
    opt_len(l.0, 4) + opt_len(l.1, 4) + opt_len(l.2, 4) + opt_len(l.3, 4)
}

/// The bytes of a field that is written when `present`.
#[verifier::opaque]
pub open spec fn opt_field(present: bool, v: u32) -> Seq<u8> {
    if present {
        be_u32(v)
    } else {
        Seq::empty()
    }
}

/// The bytes of a sample in a layout: a carried field that the sample lacks is written as 0.
pub open spec fn trun_sample_bytes(l: TrunLayout, s: TrunSample) -> Seq<u8> {
    opt_field(
        l.0,
        match s.duration {
            Some(v) => v,
            None => 0,
        },
    ) + opt_field(
        l.1,
        match s.size {
            Some(v) => v,
            None => 0,
        },
    ) + opt_field(
        l.2,
        match s.flags {
            Some(v) => v.spec_get(),
            None => 0,
        },
    ) + opt_field(
        l.3,
        i32_bits(
            match s.composition_time_offset {
                Some(v) => v,
                None => 0,
            },
        ),
    )
}

/// The bytes of a list of samples in a layout.
pub open spec fn trun_samples_bytes(l: TrunLayout, ss: Seq<TrunSample>) -> Seq<u8> {
    concat(ss.map_values(|s: TrunSample| trun_sample_bytes(l, s)))
}

/// Whether `s` is the sample read at `o` of `p` in a layout.
pub open spec fn trun_sample_read(p: Seq<u8>, o: int, l: TrunLayout, s: TrunSample) -> bool {
    let o1 = o + opt_len(l.0, 4);
    let o2 = o1 + opt_len(l.1, 4);
    let o3 = o2 + opt_len(l.2, 4);
    &&& s.duration == opt_u32_at(p, o, l.0)
    &&& s.size == opt_u32_at(p, o1, l.1)
    &&& opt_flags_value(s.flags) == opt_u32_at(p, o2, l.2)
    &&& s.composition_time_offset == if l.3 {
        Some(i32_of(get_u32(p, o3)))
    } else {
        None
    }
}

fn put_field(p: &mut Vec<u8>, present: bool, v: u32)
    ensures
        final(p)@ == old(p)@ + opt_field(present, v),
{
    reveal(opt_field);
    if present {
        put_u32(p, v);
    } else {
        assert(p@ =~= old(p)@ + opt_field(present, v));
    }
}

fn put_trun_sample(p: &mut Vec<u8>, l: TrunLayout, s: &TrunSample)
    ensures
        final(p)@ == old(p)@ + trun_sample_bytes(l, *s),
{
    let ghost start = p@;
    let d = match s.duration {
        Some(v) => v,
        None => 0,
    };
    let z = match s.size {
        Some(v) => v,
        None => 0,
    };
    let f = match s.flags {
        Some(v) => v.get(),
        None => 0,
    };
    let c: i32 = match s.composition_time_offset {
        Some(v) => v,
        None => 0,
    };
    let ghost a = opt_field(l.0, d);
    let ghost b = opt_field(l.1, z);
    let ghost g = opt_field(l.2, f);
    let ghost h = opt_field(l.3, i32_bits(c));
    put_field(p, l.0, d);
    put_field(p, l.1, z);
    assert(p@ =~= start + (a + b));
    put_field(p, l.2, f);
    assert(p@ =~= start + (a + b + g));
    let ghost before = p@;
    if l.3 {
        put_i32(p, c);
    }
    assert(p@ =~= before + h) by {
        reveal(opt_field);
    }
    assert(p@ =~= start + (a + b + g + h));
}

fn get_trun_sample_at(p: &[u8], offset: &mut usize, l: TrunLayout) -> (r: TrunSample)
    requires
        *old(offset) + trun_sample_size(l) <= p@.len(),
    ensures
        trun_sample_read(p@, *old(offset) as int, l, r),
        *final(offset) == *old(offset) + trun_sample_size(l),
{
    let duration = if l.0 {
        match get_u32_at(p, offset) {
            Ok(v) => Some(v),
            Err(_) => None,
        }
    } else {
        None
    };
    let size = if l.1 {
        match get_u32_at(p, offset) {
            Ok(v) => Some(v),
            Err(_) => None,
        }
    } else {
        None
    };
    let flags = if l.2 {
        match get_u32_at(p, offset) {
            Ok(v) => Some(SampleFlags::new(v)),
            Err(_) => None,
        }
    } else {
        None
    };
    let composition_time_offset = if l.3 {
        match get_i32_at(p, offset) {
            Ok(v) => Some(v),
            Err(_) => None,
        }
    } else {
        None
    };
    TrunSample { duration, size, flags, composition_time_offset }
}

/// The track run box (`trun`, ISO/IEC 14496-12 TrackRunBox): the samples of a run. The
/// fields carried per sample are those present in the first sample.
#[derive(Debug, Clone)]
#[allow(missing_docs)]
pub struct TrunBox {
    pub data_offset: Option<i32>,
    pub first_sample_flags: Option<SampleFlags>,
    pub samples: Vec<TrunSample>,
}

impl TrunBox {
    /// The type of the box.
    pub open spec fn spec_type() -> BoxType {
        fourcc(0x74, 0x72, 0x75, 0x6e)
    }

    /// The type of the box: `trun`.
    #[allow(non_snake_case)]
    pub fn TYPE() -> (r: BoxType)
        ensures
            r == Self::spec_type(),
    {
        BoxType::Normal([0x74, 0x72, 0x75, 0x6e])
    }

    /// The flag that marks `data_offset` present.
    pub const FLAG_DATA_OFFSET_PRESENT: u32 = 0x000001;

    /// The flag that marks `first_sample_flags` present.
    pub const FLAG_FIRST_SAMPLE_FLAGS_PRESENT: u32 = 0x000004;

    /// The flag that marks the sample durations present.
    pub const FLAG_SAMPLE_DURATION_PRESENT: u32 = 0x000100;

    /// The flag that marks the sample sizes present.
    pub const FLAG_SAMPLE_SIZE_PRESENT: u32 = 0x000200;

    /// The flag that marks the sample flags present.
    pub const FLAG_SAMPLE_FLAGS_PRESENT: u32 = 0x000400;

    /// The flag that marks the sample composition time offsets present.
    pub const FLAG_SAMPLE_COMPOSITION_TIME_OFFSETS_PRESENT: u32 = 0x000800;

    /// The fields carried per sample: those of the first sample, none for an empty run.
    pub open spec fn spec_layout(&self) -> TrunLayout {
        if self.samples@.len() > 0 {
            trun_sample_layout(self.samples@[0])
        } else {
            (false, false, false, false)
        }
    }

    /// The flags of the box.
    pub open spec fn spec_flags(&self) -> u32 {
        let l = self.spec_layout();
        (opt_len(self.data_offset is Some, 0x1) + opt_len(self.first_sample_flags is Some, 0x4)
            + opt_len(l.0, 0x100) + opt_len(l.1, 0x200) + opt_len(l.2, 0x400) + opt_len(
            l.3,
            0x800,
        )) as u32
    }

    /// Whether some sample has a negative composition time offset, which needs version 1.
    pub open spec fn spec_uses_version_1(&self) -> bool {
        exists|i: int|
            0 <= i < self.samples@.len() && trun_sample_negative(#[trigger] self.samples@[i])
    }

    /// The version of the box.
    pub open spec fn spec_version(&self) -> u8 {
        if self.spec_uses_version_1() {
            1
        } else {
            0
        }
    }

    fn layout(&self) -> (r: TrunLayout)
        ensures
            r == self.spec_layout(),
    {
        if self.samples.len() > 0 {
            let s = &self.samples[0];
            (
                s.duration.is_some(),
                s.size.is_some(),
                s.flags.is_some(),
                s.composition_time_offset.is_some(),
            )
        } else {
            (false, false, false, false)
        }
    }

    fn compute_flags(&self) -> (r: u32)
        ensures
            r == self.spec_flags(),
    {
        let l = self.layout();
        let mut f: u32 = 0;
        if self.data_offset.is_some() {
            f = f + Self::FLAG_DATA_OFFSET_PRESENT;
        }
        if self.first_sample_flags.is_some() {
            f = f + Self::FLAG_FIRST_SAMPLE_FLAGS_PRESENT;
        }
        if l.0 {
            f = f + Self::FLAG_SAMPLE_DURATION_PRESENT;
        }
        if l.1 {
            f = f + Self::FLAG_SAMPLE_SIZE_PRESENT;
        }
        if l.2 {
            f = f + Self::FLAG_SAMPLE_FLAGS_PRESENT;
        }
        if l.3 {
            f = f + Self::FLAG_SAMPLE_COMPOSITION_TIME_OFFSETS_PRESENT;
        }
        f
    }

    fn uses_version_1(&self) -> (r: bool)
        ensures
            r == self.spec_uses_version_1(),
    {
        let mut i: usize = 0;
        while i < self.samples.len()
            invariant
                i <= self.samples@.len(),
                forall|j: int|
                    0 <= j < i ==> !trun_sample_negative(#[trigger] self.samples@[j]),
            decreases self.samples@.len() - i,
        {
            match self.samples[i].composition_time_offset {
                Some(x) => {
                    if x < 0 {
                        return true;
                    }
                },
                None => {},
            }
            i += 1;
        }
        false
    }

    /// The payload bytes of the box.
    pub open spec fn spec_payload_bytes(&self) -> Seq<u8> {
        full_header_bytes(self.spec_version(), self.spec_flags()) + be_u32(
            self.samples@.len() as u32,
        ) + opt_u32_bytes(opt_i32_bits(self.data_offset)) + opt_u32_bytes(
            opt_flags_value(self.first_sample_flags),
        ) + trun_samples_bytes(self.spec_layout(), self.samples@)
    }

    /// Where the samples start, for the payload flags `f`.
    pub open spec fn spec_samples_start(f: u32) -> int {
        8 + opt_len(flag_set(f, 0x1), 4) + opt_len(flag_set(f, 0x4), 4)
    }

    /// Whether `p` is the payload of a `trun` box: it holds every sample it announces.
    pub open spec fn spec_payload_ok(p: Seq<u8>) -> bool {
        let f = payload_flags(p);
        p.len() >= 8 && p.len() >= Self::spec_samples_start(f) + trun_sample_size(
            trun_flags_layout(f),
        ) * get_u32(p, 4)
    }

    /// Whether `v` is the box read from the payload `p`.
    pub open spec fn spec_payload_decoded(p: Seq<u8>, v: Self) -> bool {
        let f = payload_flags(p);
        let l = trun_flags_layout(f);
        let start = Self::spec_samples_start(f);
        &&& opt_i32_bits(v.data_offset) == opt_u32_at(p, 8, flag_set(f, 0x1))
        &&& opt_flags_value(v.first_sample_flags) == opt_u32_at(
            p,
            8 + opt_len(flag_set(f, 0x1), 4),
            flag_set(f, 0x4),
        )
        &&& v.samples@.len() == get_u32(p, 4)
        &&& forall|i: int|
            0 <= i < v.samples@.len() ==> trun_sample_read(
                p,
                start + trun_sample_size(l) * i,
                l,
                #[trigger] v.samples@[i],
            )
    }

    fn put_payload(&self, p: &mut Vec<u8>)
        ensures
            final(p)@ == old(p)@ + self.spec_payload_bytes(),
    {
        let ghost start = p@;
        let version: u8 = if self.uses_version_1() {
            1
        } else {
            0
        };
        let flags = self.compute_flags();
        put_full_header(p, version, flags);
        put_u32(p, self.samples.len() as u32);
        match self.data_offset {
            Some(v) => put_i32(p, v),
            None => {},
        }
        put_opt_u32(p, opt_flags_number(self.first_sample_flags));
        assert(p@ =~= start + full_header_bytes(self.spec_version(), self.spec_flags()) + be_u32(
            self.samples@.len() as u32,
        ) + opt_u32_bytes(opt_i32_bits(self.data_offset)) + opt_u32_bytes(
            opt_flags_value(self.first_sample_flags),
        ));
        let l = self.layout();
        let ghost head = p@;
        let mut i: usize = 0;
        while i < self.samples.len()
            invariant
                i <= self.samples@.len(),
                p@ == head + trun_samples_bytes(l, self.samples@.subrange(0, i as int)),
            decreases self.samples@.len() - i,
        {
            let s = &self.samples[i];
            put_trun_sample(p, l, s);
            proof {
                let g = |s: TrunSample| trun_sample_bytes(l, s);
                let prev = self.samples@.subrange(0, i as int);
                assert(self.samples@.subrange(0, i + 1) =~= prev.push(*s));
                assert(prev.push(*s).map_values(g) =~= prev.map_values(g).push(
                    trun_sample_bytes(l, *s),
                ));
                lemma_concat_push(prev.map_values(g), trun_sample_bytes(l, *s));
            }
            i += 1;
        }
        assert(self.samples@.subrange(0, i as int) =~= self.samples@);
        assert(p@ =~= start + self.spec_payload_bytes());
    }

    fn decode_payload(p: &[u8]) -> (r: Result<Self>)
        ensures
            r is Ok <==> Self::spec_payload_ok(p@),
            r matches Ok(v) ==> Self::spec_payload_decoded(p@, v),
    {
        if p.len() < 8 {
            return Err(Error::insufficient_buffer());
        }
        let mut offset: usize = 0;
        let word = get_u32_at(p, &mut offset)?;
        let f = word % 0x100_0000;
        let count = get_u32_at(p, &mut offset)?;
        let data_offset = if has_flag(f, 0x1) {
            Some(get_i32_at(p, &mut offset)?)
        } else {
            None
        };
        let first = get_opt_u32_at(p, &mut offset, has_flag(f, 0x4))?;
        let l: TrunLayout = (
            has_flag(f, 0x100),
            has_flag(f, 0x200),
            has_flag(f, 0x400),
            has_flag(f, 0x800),
        );
        let n: usize = (if l.0 {
            4usize
        } else {
            0
        }) + (if l.1 {
            4usize
        } else {
            0
        }) + (if l.2 {
            4usize
        } else {
            0
        }) + (if l.3 {
            4usize
        } else {
            0
        });
        let ghost base = offset as int;
        let mut samples: Vec<TrunSample> = Vec::new();
        let mut i: u32 = 0;
        while i < count
            invariant
                p@.len() >= 8,
                f == payload_flags(p@),
                l == trun_flags_layout(f),
                n == trun_sample_size(l),
                base == Self::spec_samples_start(f),
                count == get_u32(p@, 4),
                i <= count,
                offset == base + n * i,
                offset <= p@.len(),
                samples@.len() == i,
                forall|k: int|
                    0 <= k < i ==> trun_sample_read(p@, base + n * k, l, #[trigger] samples@[k]),
            decreases count - i,
        {
            if p.len() - offset < n {
                proof {
                    assert(n * count >= n * (i + 1)) by (nonlinear_arith)
                        requires
                            count >= i + 1,
                            n >= 0,
                    ;
                    assert(n * (i + 1) == n * i + n) by (nonlinear_arith);
                    assert(!Self::spec_payload_ok(p@));
                }
                return Err(Error::insufficient_buffer());
            }
            let s = get_trun_sample_at(p, &mut offset, l);
            samples.push(s);
            proof {
                assert(n * (i + 1) == n * i + n) by (nonlinear_arith);
            }
            i += 1;
        }
        proof {
            assert(n * count == n * i);
        }
        Ok(
            Self {
                data_offset,
                first_sample_flags: flags_from_number(first),
                samples,
            },
        )
    }
}

impl Encode for TrunBox {
    open spec fn spec_encodable(&self) -> bool {
        spec_box_fits(self.spec_payload_bytes())
    }

    open spec fn spec_encoding(&self) -> Seq<u8> {
        spec_box_bytes(Self::spec_type().spec_bytes(), self.spec_payload_bytes())
    }

    fn encode_into(&self, out: &mut Vec<u8>) -> (r: Result<()>) {
        let mut p: Vec<u8> = Vec::new();
        self.put_payload(&mut p);
        finish_box(out, Self::TYPE(), p)
    }
}

impl Decode for TrunBox {
    open spec fn spec_can_decode(s: Seq<u8>) -> bool {
        &&& spec_can_split(s)
        &&& spec_is_type(s, Self::spec_type().spec_bytes())
        &&& Self::spec_payload_ok(spec_payload(s))
    }

    open spec fn spec_decoded_len(s: Seq<u8>) -> int {
        spec_box_end(s)
    }

    open spec fn spec_decoded(s: Seq<u8>, v: Self) -> bool {
        Self::spec_payload_decoded(spec_payload(s), v)
    }

    fn decode(buf: &[u8]) -> (r: Result<(Self, usize)>) {
        let (header, payload) = BoxHeader::decode_typed(buf, Self::TYPE())?;
        let total = buf.len();
        assert(header.spec_external_size() + payload@.len() <= total);
        let n = header.external_size() + payload.len();
        let v = with_box_type(Self::TYPE(), Self::decode_payload(payload))?;
        Ok((v, n))
    }
}

impl BaseBox for TrunBox {
    open spec fn spec_box_type(&self) -> BoxType {
        Self::spec_type()
    }

    fn box_type(&self) -> (r: BoxType) {
        Self::TYPE()
    }
}

impl FullBox for TrunBox {
    open spec fn spec_full_box_version(&self) -> u8 {
        self.spec_version()
    }

    open spec fn spec_full_box_flags(&self) -> FullBoxFlags {
        FullBoxFlags::spec_new(self.spec_flags())
    }

    fn full_box_version(&self) -> (r: u8) {
        if self.uses_version_1() {
            1
        } else {
            0
        }
    }

    fn full_box_flags(&self) -> (r: FullBoxFlags) {
        FullBoxFlags::new(self.compute_flags())
    }
}


// ---------------------------------------------------------------------------
// sidx
// ---------------------------------------------------------------------------

/// A reference of a [`SidxBox`].
#[derive(Debug, Clone, Copy, PartialEq, Eq, Hash, Structural)]
pub struct SidxReference {
    /// `true` for a reference to a `sidx` box, `false` for a reference to media.
    pub reference_type: bool,
    /// The size of the referenced material in bytes (31 bits are written).
    pub referenced_size: u32,
    /// The duration of the subsegment.
    pub subsegment_duration: u32,
    /// Whether the subsegment starts with a stream access point.
    pub starts_with_sap: bool,
    /// The type of the stream access point (3 bits are written).
    pub sap_type: u8,
    /// The time of the stream access point from the start (28 bits are written).
    pub sap_delta_time: u32,
}

/// The first word of a reference: the type bit over the 31-bit size.
pub open spec fn sidx_word1(r: SidxReference) -> u32 {
    (opt_len(r.reference_type, 0x8000_0000) + r.referenced_size % 0x8000_0000) as u32
}

/// The third word of a reference: the access point bit, its 3-bit type and 28-bit time.
pub open spec fn sidx_word3(r: SidxReference) -> u32 {
    (opt_len(r.starts_with_sap, 0x8000_0000) + (r.sap_type % 8) * 0x1000_0000 + r.sap_delta_time
        % 0x1000_0000) as u32
}

/// The bytes of a reference.
pub open spec fn sidx_reference_bytes(r: SidxReference) -> Seq<u8> {
    be_u32(sidx_word1(r)) + be_u32(r.subsegment_duration) + be_u32(sidx_word3(r))
}

/// The bytes of a list of references.
pub open spec fn sidx_references_bytes(rs: Seq<SidxReference>) -> Seq<u8> {
    concat(rs.map_values(|r: SidxReference| sidx_reference_bytes(r)))
}

/// Whether `r` is the reference read at `o` of `p`.
pub open spec fn sidx_reference_read(p: Seq<u8>, o: int, r: SidxReference) -> bool {
    let w1 = get_u32(p, o);
    let w3 = get_u32(p, o + 8);
    &&& r.reference_type == (w1 >= 0x8000_0000)
    &&& r.referenced_size == w1 % 0x8000_0000
    &&& r.subsegment_duration == get_u32(p, o + 4)
    &&& r.starts_with_sap == (w3 >= 0x8000_0000)
    &&& r.sap_type == (w3 / 0x1000_0000) % 8
    &&& r.sap_delta_time == w3 % 0x1000_0000
}

fn put_sidx_reference(p: &mut Vec<u8>, r: &SidxReference)
    ensures
        final(p)@ == old(p)@ + sidx_reference_bytes(*r),
{
    let ghost start = p@;
    let w1: u32 = (if r.reference_type {
        0x8000_0000u32
    } else {
        0
    }) + r.referenced_size % 0x8000_0000;
    let w3: u32 = (if r.starts_with_sap {
        0x8000_0000u32
    } else {
        0
    }) + ((r.sap_type % 8) as u32) * 0x1000_0000 + r.sap_delta_time % 0x1000_0000;
    put_u32(p, w1);
    put_u32(p, r.subsegment_duration);
    put_u32(p, w3);
    assert(p@ =~= start + sidx_reference_bytes(*r));
}

fn get_sidx_reference_at(p: &[u8], offset: &mut usize) -> (r: SidxReference)
    requires
        *old(offset) + 12 <= p@.len(),
    ensures
        sidx_reference_read(p@, *old(offset) as int, r),
        *final(offset) == *old(offset) + 12,
{
    let w1 = match get_u32_at(p, offset) {
        Ok(v) => v,
        Err(_) => 0,
    };
    let subsegment_duration = match get_u32_at(p, offset) {
        Ok(v) => v,
        Err(_) => 0,
    };
    let w3 = match get_u32_at(p, offset) {
        Ok(v) => v,
        Err(_) => 0,
    };
    SidxReference {
        reference_type: w1 >= 0x8000_0000,
        referenced_size: w1 % 0x8000_0000,
        subsegment_duration,
        starts_with_sap: w3 >= 0x8000_0000,
        sap_type: ((w3 / 0x1000_0000) % 8) as u8,
        sap_delta_time: w3 % 0x1000_0000,
    }
}

/// The segment index box (`sidx`, ISO/IEC 14496-12 SegmentIndexBox): references to the media
/// segments, as used by DASH.
#[derive(Debug, Clone)]
#[allow(missing_docs)]
pub struct SidxBox {
    pub reference_id: u32,
    pub timescale: u32,
    pub earliest_presentation_time: u64,
    pub first_offset: u64,
    pub references: Vec<SidxReference>,
}

impl SidxBox {
    /// The type of the box.
    pub open spec fn spec_type() -> BoxType {
        fourcc(0x73, 0x69, 0x64, 0x78)
    }

    /// The type of the box: `sidx`.
    #[allow(non_snake_case)]
    pub fn TYPE() -> (r: BoxType)
        ensures
            r == Self::spec_type(),
    {
        BoxType::Normal([0x73, 0x69, 0x64, 0x78])
    }

    /// The version of the box: 1 when a time or offset needs 64 bits.
    pub open spec fn spec_version(&self) -> u8 {
        if self.earliest_presentation_time > u32::MAX || self.first_offset > u32::MAX {
            1
        } else {
            0
        }
    }

    /// The payload bytes of the box. The count of references is written in 16 bits.
    pub open spec fn spec_payload_bytes(&self) -> Seq<u8> {
        full_header_bytes(self.spec_version(), 0) + be_u32(self.reference_id) + be_u32(
            self.timescale,
        ) + (if self.spec_version() == 1 {
            be_u64(self.earliest_presentation_time) + be_u64(self.first_offset)
        } else {
            be_u32(self.earliest_presentation_time as u32) + be_u32(self.first_offset as u32)
        }) + be_u16(0) + be_u16(self.references@.len() as u16) + sidx_references_bytes(
            self.references@,
        )
    }

    /// Where the reserved field starts, for the version `v`.
    pub open spec fn spec_base(v: u8) -> int {
        if v == 1 {
            28
        } else {
            20
        }
    }

    /// Whether `p` is the payload of a `sidx` box: it holds every reference it announces.
    pub open spec fn spec_payload_ok(p: Seq<u8>) -> bool {
        p.len() >= 4 && p.len() >= Self::spec_base(p[0]) + 4 && p.len() >= Self::spec_base(p[0])
            + 4 + 12 * get_u16(p, Self::spec_base(p[0]) + 2)
    }

    /// Whether `v` is the box read from the payload `p`.
    pub open spec fn spec_payload_decoded(p: Seq<u8>, v: Self) -> bool {
        let base = Self::spec_base(p[0]);
        &&& v.reference_id == get_u32(p, 4)
        &&& v.timescale == get_u32(p, 8)
        &&& v.earliest_presentation_time == if p[0] == 1 {
            get_u64(p, 12)
        } else {
            get_u32(p, 12) as u64
        }
        &&& v.first_offset == if p[0] == 1 {
            get_u64(p, 20)
        } else {
            get_u32(p, 16) as u64
        }
        &&& v.references@.len() == get_u16(p, base + 2)
        &&& forall|i: int|
            0 <= i < v.references@.len() ==> sidx_reference_read(
                p,
                base + 4 + 12 * i,
                #[trigger] v.references@[i],
            )
    }

    fn put_payload(&self, p: &mut Vec<u8>)
        ensures
            final(p)@ == old(p)@ + self.spec_payload_bytes(),
    {
        let ghost start = p@;
        let version = self.full_box_version();
        put_full_header(p, version, 0);
        put_u32(p, self.reference_id);
        put_u32(p, self.timescale);
        if version == 1 {
            put_u64(p, self.earliest_presentation_time);
            put_u64(p, self.first_offset);
        } else {
            put_u32(p, self.earliest_presentation_time as u32);
            put_u32(p, self.first_offset as u32);
        }
        put_u16(p, 0);
        put_u16(p, self.references.len() as u16);
        assert(p@ =~= start + full_header_bytes(self.spec_version(), 0) + be_u32(self.reference_id)
            + be_u32(self.timescale) + (if self.spec_version() == 1 {
            be_u64(self.earliest_presentation_time) + be_u64(self.first_offset)
        } else {
            be_u32(self.earliest_presentation_time as u32) + be_u32(self.first_offset as u32)
        }) + be_u16(0) + be_u16(self.references@.len() as u16));
        let ghost head = p@;
        let mut i: usize = 0;
        while i < self.references.len()
            invariant
                i <= self.references@.len(),
                p@ == head + sidx_references_bytes(self.references@.subrange(0, i as int)),
            decreases self.references@.len() - i,
        {
            let r = &self.references[i];
            put_sidx_reference(p, r);
            proof {
                let g = |r: SidxReference| sidx_reference_bytes(r);
                let prev = self.references@.subrange(0, i as int);
                assert(self.references@.subrange(0, i + 1) =~= prev.push(*r));
                assert(prev.push(*r).map_values(g) =~= prev.map_values(g).push(
                    sidx_reference_bytes(*r),
                ));
                lemma_concat_push(prev.map_values(g), sidx_reference_bytes(*r));
            }
            i += 1;
        }
        assert(self.references@.subrange(0, i as int) =~= self.references@);
        assert(p@ =~= start + self.spec_payload_bytes());
    }

    fn decode_payload(p: &[u8]) -> (r: Result<Self>)
        ensures
            r is Ok <==> Self::spec_payload_ok(p@),
            r matches Ok(v) ==> Self::spec_payload_decoded(p@, v),
    {
        if p.len() < 4 {
            return Err(Error::insufficient_buffer());
        }
        let version = p[0];
        let mut offset: usize = 4;
        let reference_id = get_u32_at(p, &mut offset)?;
        let timescale = get_u32_at(p, &mut offset)?;
        let (earliest_presentation_time, first_offset) = if version == 1 {
            let t = get_u64_at(p, &mut offset)?;
            let o = get_u64_at(p, &mut offset)?;
            (t, o)
        } else {
            let t = get_u32_at(p, &mut offset)?;
            let o = get_u32_at(p, &mut offset)?;
            (t as u64, o as u64)
        };
        let _reserved = get_u16_at(p, &mut offset)?;
        let count = get_u16_at(p, &mut offset)?;
        let ghost base = offset as int;
        let mut references: Vec<SidxReference> = Vec::new();
        let mut i: u16 = 0;
        while i < count
            invariant
                p@.len() >= 4,
                version == p@[0],
                base == Self::spec_base(version) + 4,
                count == get_u16(p@, base - 2),
                i <= count,
                offset == base + 12 * i,
                offset <= p@.len(),
                references@.len() == i,
                forall|k: int|
                    0 <= k < i ==> sidx_reference_read(p@, base + 12 * k, #[trigger] references@[k]),
            decreases count - i,
        {
            if p.len() - offset < 12 {
                return Err(Error::insufficient_buffer());
            }
            let r = get_sidx_reference_at(p, &mut offset);
            references.push(r);
            i += 1;
        }
        Ok(
            Self {
                reference_id,
                timescale,
                earliest_presentation_time,
                first_offset,
                references,
            },
        )
    }
}

impl Encode for SidxBox {
    open spec fn spec_encodable(&self) -> bool {
        spec_box_fits(self.spec_payload_bytes())
    }

    open spec fn spec_encoding(&self) -> Seq<u8> {
        spec_box_bytes(Self::spec_type().spec_bytes(), self.spec_payload_bytes())
    }

    fn encode_into(&self, out: &mut Vec<u8>) -> (r: Result<()>) {
        let mut p: Vec<u8> = Vec::new();
        self.put_payload(&mut p);
        finish_box(out, Self::TYPE(), p)
    }
}

impl Decode for SidxBox {
    open spec fn spec_can_decode(s: Seq<u8>) -> bool {
        &&& spec_can_split(s)
        &&& spec_is_type(s, Self::spec_type().spec_bytes())
        &&& Self::spec_payload_ok(spec_payload(s))
    }

    open spec fn spec_decoded_len(s: Seq<u8>) -> int {
        spec_box_end(s)
    }

    open spec fn spec_decoded(s: Seq<u8>, v: Self) -> bool {
        Self::spec_payload_decoded(spec_payload(s), v)
    }

    fn decode(buf: &[u8]) -> (r: Result<(Self, usize)>) {
        let (header, payload) = BoxHeader::decode_typed(buf, Self::TYPE())?;
        let total = buf.len();
        assert(header.spec_external_size() + payload@.len() <= total);
        let n = header.external_size() + payload.len();
        let v = with_box_type(Self::TYPE(), Self::decode_payload(payload))?;
        Ok((v, n))
    }
}

impl BaseBox for SidxBox {
    open spec fn spec_box_type(&self) -> BoxType {
        Self::spec_type()
    }

    fn box_type(&self) -> (r: BoxType) {
        Self::TYPE()
    }
}

impl FullBox for SidxBox {
    open spec fn spec_full_box_version(&self) -> u8 {
        self.spec_version()
    }

    open spec fn spec_full_box_flags(&self) -> FullBoxFlags {
        FullBoxFlags::spec_new(0)
    }

    fn full_box_version(&self) -> (r: u8) {
        let r: u8 = if self.earliest_presentation_time > 0xffff_ffff || self.first_offset
            > 0xffff_ffff {
            1
        } else {
            0
        };
        assert(r == self.spec_full_box_version());
        r
    }

    fn full_box_flags(&self) -> (r: FullBoxFlags) {
        FullBoxFlags::new(0)
    }
}


// ---------------------------------------------------------------------------
// tfra
// ---------------------------------------------------------------------------

/// An entry of a [`TfraBox`]: where a random access point of a track is.
#[derive(Debug, Clone, Copy, PartialEq, Eq, Hash, Structural)]
#[allow(missing_docs)]
pub struct TfraEntry {
    pub time: u64,
    pub moof_offset: u64,
    pub traf_number: u32,
    pub trun_number: u32,
    pub sample_number: u32,
}

/// Whether an entry needs the 64-bit layout (version 1).
pub open spec fn tfra_entry_large(e: TfraEntry) -> bool {
    e.time > u32::MAX || e.moof_offset > u32::MAX
}

/// The last `n` (1 to 4) big-endian bytes of `v`.
pub open spec fn var_uint_bytes(v: u32, n: int) -> Seq<u8> {
    be_u32(v).skip(4 - n)
}

/// The value of the `n` (1 to 4) big-endian bytes at `o` of `p`.
pub open spec fn get_var_uint(p: Seq<u8>, o: int, n: int) -> u32 {
    if n == 1 {
        p[o] as u32
    } else if n == 2 {
        get_u16(p, o) as u32
    } else if n == 3 {
        (p[o] * 0x1_0000 + p[o + 1] * 0x100 + p[o + 2]) as u32
    } else {
        get_u32(p, o)
    }
}

/// The bytes of an entry in the layout of the given version and number sizes.
pub open spec fn tfra_entry_bytes(version: u8, a: int, b: int, c: int, e: TfraEntry) -> Seq<u8> {
    (if version == 1 {
        be_u64(e.time) + be_u64(e.moof_offset)
    } else {
        be_u32(e.time as u32) + be_u32(e.moof_offset as u32)
    }) + var_uint_bytes(e.traf_number, a + 1) + var_uint_bytes(e.trun_number, b + 1)
        + var_uint_bytes(e.sample_number, c + 1)
}

/// The bytes of a list of entries.
pub open spec fn tfra_entries_bytes(version: u8, a: int, b: int, c: int, es: Seq<TfraEntry>) -> Seq<
    u8,
> {
    concat(es.map_values(|e: TfraEntry| tfra_entry_bytes(version, a, b, c, e)))
}

/// The size of an entry in the layout of the given version and number sizes.
pub open spec fn tfra_entry_size(version: u8, a: int, b: int, c: int) -> int {
    (if version == 1 {
        16int
    } else {
        8
    }) + a + b + c + 3
}

/// Whether `e` is the entry read at `o` of `p`.
pub open spec fn tfra_entry_read(
    p: Seq<u8>,
    o: int,
    version: u8,
    a: int,
    b: int,
    c: int,
    e: TfraEntry,
) -> bool {
    let t = if version == 1 {
        o + 16
    } else {
        o + 8
    };
    &&& e.time == if version == 1 {
        get_u64(p, o)
    } else {
        get_u32(p, o) as u64
    }
    &&& e.moof_offset == if version == 1 {
        get_u64(p, o + 8)
    } else {
        get_u32(p, o + 4) as u64
    }
    &&& e.traf_number == get_var_uint(p, t, a + 1)
    &&& e.trun_number == get_var_uint(p, t + a + 1, b + 1)
    &&& e.sample_number == get_var_uint(p, t + a + b + 2, c + 1)
}

fn put_var_uint(p: &mut Vec<u8>, v: u32, n: u8)
    requires
        1 <= n <= 4,
    ensures
        final(p)@ == old(p)@ + var_uint_bytes(v, n as int),
{
    let ghost start = p@;
    if n == 4 {
        put_u32(p, v);
        assert(be_u32(v).skip(0) =~= be_u32(v));
    } else {
        if n >= 3 {
            put_u8(p, ((v / 0x1_0000) % 0x100) as u8);
        }
        if n >= 2 {
            put_u8(p, ((v / 0x100) % 0x100) as u8);
        }
        put_u8(p, (v % 0x100) as u8);
    }
    assert(p@ =~= start + var_uint_bytes(v, n as int));
}

fn get_var_uint_at(p: &[u8], offset: &mut usize, n: u8) -> (r: u32)
    requires
        1 <= n <= 4,
        *old(offset) + n <= p@.len(),
    ensures
        r == get_var_uint(p@, *old(offset) as int, n as int),
        *final(offset) == *old(offset) + n,
{
    let o = *offset;
    let r: u32 = if n == 1 {
        p[o] as u32
    } else if n == 2 {
        (p[o] as u32) * 0x100 + p[o + 1] as u32
    } else if n == 3 {
        (p[o] as u32) * 0x1_0000 + (p[o + 1] as u32) * 0x100 + p[o + 2] as u32
    } else {
        (p[o] as u32) * 0x100_0000 + (p[o + 1] as u32) * 0x1_0000 + (p[o + 2] as u32) * 0x100
            + p[o + 3] as u32
    };
    *offset = o + n as usize;
    r
}

/// The track fragment random access box (`tfra`, ISO/IEC 14496-12
/// TrackFragmentRandomAccessBox): the random access points of a track.
///
/// `version` is the version that was read, kept so that a box is written back as it was; an
/// entry that does not fit 32 bits makes the box version 1. The `length_size_of_*` fields are
/// the sizes of the numbers of an entry in bytes, minus one (0 to 3).
#[derive(Debug, Clone)]
#[allow(missing_docs)]
pub struct TfraBox {
    pub version: u8,
    pub track_id: u32,
    pub length_size_of_traf_num: u8,
    pub length_size_of_trun_num: u8,
    pub length_size_of_sample_num: u8,
    pub entries: Vec<TfraEntry>,
}

impl TfraBox {
    /// The type of the box.
    pub open spec fn spec_type() -> BoxType {
        fourcc(0x74, 0x66, 0x72, 0x61)
    }

    /// The type of the box: `tfra`.
    #[allow(non_snake_case)]
    pub fn TYPE() -> (r: BoxType)
        ensures
            r == Self::spec_type(),
    {
        BoxType::Normal([0x74, 0x66, 0x72, 0x61])
    }

    /// The version the box is written with.
    pub open spec fn spec_version(&self) -> u8 {
        if exists|i: int|
            0 <= i < self.entries@.len() && tfra_entry_large(#[trigger] self.entries@[i]) {
            1
        } else {
            self.version
        }
    }

    /// The word that holds the three number sizes (2 bits each).
    pub open spec fn spec_lengths(&self) -> u32 {
        ((self.length_size_of_traf_num % 4) * 16 + (self.length_size_of_trun_num % 4) * 4 + (
        self.length_size_of_sample_num % 4)) as u32
    }

    /// Whether the payload can be written: the number sizes of a box with entries are at most 3.
    pub open spec fn spec_payload_encodable(&self) -> bool {
        self.entries@.len() == 0 || (self.length_size_of_traf_num <= 3
            && self.length_size_of_trun_num <= 3 && self.length_size_of_sample_num <= 3)
    }

    /// The payload bytes of the box.
    pub open spec fn spec_payload_bytes(&self) -> Seq<u8> {
        full_header_bytes(self.spec_version(), 0) + be_u32(self.track_id) + be_u32(
            self.spec_lengths(),
        ) + be_u32(self.entries@.len() as u32) + tfra_entries_bytes(
            self.spec_version(),
            self.length_size_of_traf_num as int,
            self.length_size_of_trun_num as int,
            self.length_size_of_sample_num as int,
            self.entries@,
        )
    }

    /// The size of the fragment number read from a payload, minus one.
    pub open spec fn spec_a(p: Seq<u8>) -> int {
        ((get_u32(p, 8) / 16) % 4) as int
    }

    /// The size of the run number read from a payload, minus one.
    pub open spec fn spec_b(p: Seq<u8>) -> int {
        ((get_u32(p, 8) / 4) % 4) as int
    }

    /// The size of the sample number read from a payload, minus one.
    pub open spec fn spec_c(p: Seq<u8>) -> int {
        (get_u32(p, 8) % 4) as int
    }

    /// The size of an entry of a payload.
    pub open spec fn spec_entry_size(p: Seq<u8>) -> int {
        tfra_entry_size(p[0], Self::spec_a(p), Self::spec_b(p), Self::spec_c(p))
    }

    /// Whether `p` is the payload of a `tfra` box: it holds every entry it announces.
    pub open spec fn spec_payload_ok(p: Seq<u8>) -> bool {
        p.len() >= 16 && p.len() >= 16 + Self::spec_entry_size(p) * get_u32(p, 12)
    }

    /// Whether `v` is the box read from the payload `p`.
    pub open spec fn spec_payload_decoded(p: Seq<u8>, v: Self) -> bool {
        let n = Self::spec_entry_size(p);
        &&& v.version == p[0]
        &&& v.track_id == get_u32(p, 4)
        &&& v.length_size_of_traf_num == Self::spec_a(p)
        &&& v.length_size_of_trun_num == Self::spec_b(p)
        &&& v.length_size_of_sample_num == Self::spec_c(p)
        &&& v.entries@.len() == get_u32(p, 12)
        &&& forall|i: int|
            0 <= i < v.entries@.len() ==> tfra_entry_read(
                p,
                16 + n * i,
                p[0],
                Self::spec_a(p),
                Self::spec_b(p),
                Self::spec_c(p),
                #[trigger] v.entries@[i],
            )
    }

    fn put_payload(&self, p: &mut Vec<u8>) -> (r: Result<()>)
        ensures
            r is Ok <==> self.spec_payload_encodable(),
            r is Ok ==> final(p)@ == old(p)@ + self.spec_payload_bytes(),
            r matches Err(e) ==> e.kind == ErrorKind::InvalidInput,
    {
        let ghost start = p@;
        let a = self.length_size_of_traf_num;
        let b = self.length_size_of_trun_num;
        let c = self.length_size_of_sample_num;
        if self.entries.len() > 0 && (a > 3 || b > 3 || c > 3) {
            return Err(Error::invalid_input("Invalid byte count for variable uint"));
        }
        let version = self.full_box_version();
        put_full_header(p, version, 0);
        put_u32(p, self.track_id);
        let lengths: u32 = ((a % 4) as u32) * 16 + ((b % 4) as u32) * 4 + (c % 4) as u32;
        put_u32(p, lengths);
        put_u32(p, self.entries.len() as u32);
        let ghost head = p@;
        let mut i: usize = 0;
        while i < self.entries.len()
            invariant
                i <= self.entries@.len(),
                self.entries@.len() > 0 ==> a <= 3 && b <= 3 && c <= 3,
                a == self.length_size_of_traf_num,
                b == self.length_size_of_trun_num,
                c == self.length_size_of_sample_num,
                version == self.spec_version(),
                version != 1 ==> forall|k: int|
                    0 <= k < self.entries@.len() ==> !tfra_entry_large(#[trigger] self.entries@[k]),
                p@ == head + tfra_entries_bytes(
                    version,
                    a as int,
                    b as int,
                    c as int,
                    self.entries@.subrange(0, i as int),
                ),
            decreases self.entries@.len() - i,
        {
            let e = self.entries[i];
            let ghost before = p@;
            if version == 1 {
                put_u64(p, e.time);
                put_u64(p, e.moof_offset);
            } else {
                put_u32(p, e.time as u32);
                put_u32(p, e.moof_offset as u32);
            }
            put_var_uint(p, e.traf_number, a + 1);
            put_var_uint(p, e.trun_number, b + 1);
            put_var_uint(p, e.sample_number, c + 1);
            proof {
                let g = |e: TfraEntry| tfra_entry_bytes(version, a as int, b as int, c as int, e);
                assert(p@ =~= before + tfra_entry_bytes(version, a as int, b as int, c as int, e));
                let prev = self.entries@.subrange(0, i as int);
                assert(self.entries@.subrange(0, i + 1) =~= prev.push(e));
                assert(prev.push(e).map_values(g) =~= prev.map_values(g).push(
                    tfra_entry_bytes(version, a as int, b as int, c as int, e),
                ));
                lemma_concat_push(
                    prev.map_values(g),
                    tfra_entry_bytes(version, a as int, b as int, c as int, e),
                );
            }
            i += 1;
        }
        assert(self.entries@.subrange(0, i as int) =~= self.entries@);
        assert(p@ =~= start + self.spec_payload_bytes());
        Ok(())
    }

    fn decode_payload(p: &[u8]) -> (r: Result<Self>)
        ensures
            r is Ok <==> Self::spec_payload_ok(p@),
            r matches Ok(v) ==> Self::spec_payload_decoded(p@, v),
    {
        if p.len() < 16 {
            return Err(Error::insufficient_buffer());
        }
        let version = p[0];
        let mut offset: usize = 4;
        let track_id = get_u32_at(p, &mut offset)?;
        let lengths = get_u32_at(p, &mut offset)?;
        let a = ((lengths / 16) % 4) as u8;
        let b = ((lengths / 4) % 4) as u8;
        let c = (lengths % 4) as u8;
        let count = get_u32_at(p, &mut offset)?;
        let n: usize = (if version == 1 {
            16usize
        } else {
            8
        }) + a as usize + b as usize + c as usize + 3;
        let mut entries: Vec<TfraEntry> = Vec::new();
        let mut i: u32 = 0;
        while i < count
            invariant
                p@.len() >= 16,
                version == p@[0],
                a == Self::spec_a(p@),
                b == Self::spec_b(p@),
                c == Self::spec_c(p@),
                n == Self::spec_entry_size(p@),
                count == get_u32(p@, 12),
                i <= count,
                offset == 16 + n * i,
                offset <= p@.len(),
                entries@.len() == i,
                forall|k: int|
                    0 <= k < i ==> tfra_entry_read(
                        p@,
                        16 + n * k,
                        version,
                        a as int,
                        b as int,
                        c as int,
                        #[trigger] entries@[k],
                    ),
            decreases count - i,
        {
            if p.len() - offset < n {
                proof {
                    assert(n * count >= n * (i + 1)) by (nonlinear_arith)
                        requires
                            count >= i + 1,
                            n >= 0,
                    ;
                    assert(n * (i + 1) == n * i + n) by (nonlinear_arith);
                }
                return Err(Error::insufficient_buffer());
            }
            let (time, moof_offset) = if version == 1 {
                let t = match get_u64_at(p, &mut offset) {
                    Ok(v) => v,
                    Err(_) => 0,
                };
                let m = match get_u64_at(p, &mut offset) {
                    Ok(v) => v,
                    Err(_) => 0,
                };
                (t, m)
            } else {
                let t = match get_u32_at(p, &mut offset) {
                    Ok(v) => v,
                    Err(_) => 0,
                };
                let m = match get_u32_at(p, &mut offset) {
                    Ok(v) => v,
                    Err(_) => 0,
                };
                (t as u64, m as u64)
            };
            let traf_number = get_var_uint_at(p, &mut offset, a + 1);
            let trun_number = get_var_uint_at(p, &mut offset, b + 1);
            let sample_number = get_var_uint_at(p, &mut offset, c + 1);
            entries.push(TfraEntry { time, moof_offset, traf_number, trun_number, sample_number });
            proof {
                assert(n * (i + 1) == n * i + n) by (nonlinear_arith);
            }
            i += 1;
        }
        proof {
            assert(n * count == n * i);
        }
        Ok(
            Self {
                version,
                track_id,
                length_size_of_traf_num: a,
                length_size_of_trun_num: b,
                length_size_of_sample_num: c,
                entries,
            },
        )
    }
}

impl Encode for TfraBox {
    open spec fn spec_encodable(&self) -> bool {
        self.spec_payload_encodable() && spec_box_fits(self.spec_payload_bytes())
    }

    open spec fn spec_encoding(&self) -> Seq<u8> {
        spec_box_bytes(Self::spec_type().spec_bytes(), self.spec_payload_bytes())
    }

    fn encode_into(&self, out: &mut Vec<u8>) -> (r: Result<()>) {
        let mut p: Vec<u8> = Vec::new();
        self.put_payload(&mut p)?;
        finish_box(out, Self::TYPE(), p)
    }
}

impl Decode for TfraBox {
    open spec fn spec_can_decode(s: Seq<u8>) -> bool {
        &&& spec_can_split(s)
        &&& spec_is_type(s, Self::spec_type().spec_bytes())
        &&& Self::spec_payload_ok(spec_payload(s))
    }

    open spec fn spec_decoded_len(s: Seq<u8>) -> int {
        spec_box_end(s)
    }

    open spec fn spec_decoded(s: Seq<u8>, v: Self) -> bool {
        Self::spec_payload_decoded(spec_payload(s), v)
    }

    fn decode(buf: &[u8]) -> (r: Result<(Self, usize)>) {
        let (header, payload) = BoxHeader::decode_typed(buf, Self::TYPE())?;
        let total = buf.len();
        assert(header.spec_external_size() + payload@.len() <= total);
        let n = header.external_size() + payload.len();
        let v = with_box_type(Self::TYPE(), Self::decode_payload(payload))?;
        Ok((v, n))
    }
}

impl BaseBox for TfraBox {
    open spec fn spec_box_type(&self) -> BoxType {
        Self::spec_type()
    }

    fn box_type(&self) -> (r: BoxType) {
        Self::TYPE()
    }
}

impl FullBox for TfraBox {
    open spec fn spec_full_box_version(&self) -> u8 {
        self.spec_version()
    }

    open spec fn spec_full_box_flags(&self) -> FullBoxFlags {
        FullBoxFlags::spec_new(0)
    }

    fn full_box_version(&self) -> (r: u8) {
        let mut i: usize = 0;
        while i < self.entries.len()
            invariant
                i <= self.entries@.len(),
                forall|k: int| 0 <= k < i ==> !tfra_entry_large(#[trigger] self.entries@[k]),
            decreases self.entries@.len() - i,
        {
            let e = self.entries[i];
            if e.time > 0xffff_ffff || e.moof_offset > 0xffff_ffff {
                assert(tfra_entry_large(self.entries@[i as int]));
                assert(1 == self.spec_full_box_version());
                return 1;
            }
            i += 1;
        }
        assert(self.version == self.spec_full_box_version());
        self.version
    }

    fn full_box_flags(&self) -> (r: FullBoxFlags) {
        FullBoxFlags::new(0)
    }
}


// ---------------------------------------------------------------------------
// traf
// ---------------------------------------------------------------------------

/// The kind of a child of an `traf` box: `tfhd`, `tfdt`, `trun` are 0 to 2, other types -1.
pub open spec fn traf_child_kind(q: Seq<u8>) -> int {
    if spec_is_type(q, TfhdBox::spec_type().spec_bytes()) {
        0
    } else if spec_is_type(q, TfdtBox::spec_type().spec_bytes()) {
        1
    } else if spec_is_type(q, TrunBox::spec_type().spec_bytes()) {
        2
    } else {
        -1
    }
}

/// Whether a child of an `traf` box of kind `k` can be read.
pub open spec fn traf_child_ok(k: int, q: Seq<u8>) -> bool {
    if k == 0 {
        TfhdBox::spec_can_decode(q)
    } else if k == 1 {
        TfdtBox::spec_can_decode(q)
    } else {
        TrunBox::spec_can_decode(q)
    }
}

/// Whether the children of an `traf` box at the start of `q` can be read, given the kinds
/// already seen.
pub open spec fn traf_scan(q: Seq<u8>, seen: Set<int>) -> bool {
    spec_scan_children(
        q,
        seen,
        |q: Seq<u8>| traf_child_kind(q),
        |k: int| k == 0 || k == 1,
        |k: int, q: Seq<u8>| traf_child_ok(k, q),
        |seen: Set<int>| seen.contains(0),
    )
}

/// Whether the child `q` of kind `k` of a `traf` box is the field of `v` it is read into
/// (for the kind with several children, the one at `m`).
pub open spec fn traf_child_matches(k: int, q: Seq<u8>, m: int, v: TrafBox) -> bool {
    if k == 0 {
        TfhdBox::spec_decoded(q, v.tfhd_box)
    } else if k == 1 {
        v.tfdt_box matches Some(b) && TfdtBox::spec_decoded(q, b)
    } else {
        0 <= m < v.trun_boxes@.len() && TrunBox::spec_decoded(q, v.trun_boxes@[m])
    }
}

/// Whether `v` is what reading the children of a `traf` box at the start of `q` gives, walking
/// them box by box: the first child of each known kind is read into its field, every child of the kind with several is the next of its list (from `m` on), and every other child is the next unknown box (from `u` on); `seen`
/// holds the kinds read before `q`.
pub open spec fn traf_walk(q: Seq<u8>, seen: Set<int>, m: int, u: int, v: TrafBox) -> bool
    decreases q.len(),
{
    if q.len() == 0 {
        &&& u == v.unknown_boxes@.len()
        &&& m == v.trun_boxes@.len()
        &&& (v.tfdt_box is Some <==> seen.contains(1))
    } else if !spec_can_split(q) || spec_box_end(q) <= 0 {
        false
    } else {
        let k = traf_child_kind(q);
        if k >= 0 && (k == 2 || !seen.contains(k)) {
            &&& traf_child_matches(k, q, m, v)
            &&& traf_walk(q.skip(spec_box_end(q)), seen.insert(k), if k == 2 { m + 1 } else { m }, u, v)
        } else {
            &&& 0 <= u < v.unknown_boxes@.len()
            &&& UnknownBox::spec_decoded(q, v.unknown_boxes@[u])
            &&& traf_walk(q.skip(spec_box_end(q)), seen, m, u + 1, v)
        }
    }
}

/// Whether `v` holds the children of a `traf` box read so far.
pub open spec fn traf_agrees(v: TrafBox, tfhd_box: Option<TfhdBox>, tfdt_box: Option<TfdtBox>, trun_boxes: Seq<TrunBox>, unknown: Seq<UnknownBox>) -> bool {
    &&& tfhd_box matches Some(b) ==> v.tfhd_box == b
    &&& tfdt_box matches Some(b) ==> v.tfdt_box == Some(b)
    &&& trun_boxes.len() <= v.trun_boxes@.len()
    &&& forall|j: int| 0 <= j < trun_boxes.len() ==> v.trun_boxes@[j] == #[trigger] trun_boxes[j]
    &&& unknown.len() <= v.unknown_boxes@.len()
    &&& forall|j: int| 0 <= j < unknown.len() ==> v.unknown_boxes@[j] == #[trigger] unknown[j]
}

/// The track fragment box (`traf`, ISO/IEC 14496-12 TrackFragmentBox): the runs of samples of one track within a movie fragment.
#[derive(Debug, Clone)]
#[allow(missing_docs)]
pub struct TrafBox {
    pub tfhd_box: TfhdBox,
    pub tfdt_box: Option<TfdtBox>,
    pub trun_boxes: Vec<TrunBox>,
    pub unknown_boxes: Vec<UnknownBox>,
}

impl TrafBox {
    /// The type of the box.
    pub open spec fn spec_type() -> BoxType {
        fourcc(0x74, 0x72, 0x61, 0x66)
    }

    /// The type of the box: `traf`.
    #[allow(non_snake_case)]
    pub fn TYPE() -> (r: BoxType)
        ensures
            r == Self::spec_type(),
    {
        BoxType::Normal([0x74, 0x72, 0x61, 0x66])
    }

    /// Whether all children can be encoded.
    pub open spec fn spec_children_encodable(&self) -> bool {
        &&& self.tfhd_box.spec_encodable()
        &&& match self.tfdt_box {
            Some(b) => b.spec_encodable(),
            None => true,
        }
        &&& all_encodable(self.trun_boxes@)
    }

    /// The payload bytes of the box: the children in a fixed order.
    pub open spec fn spec_payload_bytes(&self) -> Seq<u8> {
        self.tfhd_box.spec_encoding() + (match self.tfdt_box {
            Some(b) => b.spec_encoding(),
            None => Seq::empty(),
        }) + encodings(self.trun_boxes@) + unknown_boxes_bytes(self.unknown_boxes@)
    }

    /// Whether `p` is the payload of an `traf` box.
    pub open spec fn spec_payload_ok(p: Seq<u8>) -> bool {
        traf_scan(p, Set::empty())
    }

    /// Whether `v` is the box read from the payload `p`: the children, walked box by box, as
    /// [`traf_walk`] says.
    pub open spec fn spec_payload_decoded(p: Seq<u8>, v: Self) -> bool {
        traf_walk(p, Set::empty(), 0, 0, v)
    }

    #[verifier::spinoff_prover]
    #[verifier::rlimit(40)]
    fn put_payload(&self, p: &mut Vec<u8>) -> (r: Result<()>)
        ensures
            r is Ok <==> self.spec_children_encodable(),
            r is Ok ==> final(p)@ == old(p)@ + self.spec_payload_bytes(),
            r matches Err(e) ==> e.kind == ErrorKind::InvalidInput,
    {
        let ghost start = p@;
        self.tfhd_box.encode_into(p)?;
        assert(p@ =~= start + self.tfhd_box.spec_encoding());
        match &self.tfdt_box {
            Some(b) => b.encode_into(p)?,
            None => {},
        }
        assert(p@ =~= start + self.tfhd_box.spec_encoding() + (match self.tfdt_box {
            Some(b) => b.spec_encoding(),
            None => Seq::empty(),
        }));
        put_all(p, self.trun_boxes.as_slice())?;
        assert(p@ =~= start + self.tfhd_box.spec_encoding() + (match self.tfdt_box {
            Some(b) => b.spec_encoding(),
            None => Seq::empty(),
        }) + encodings(self.trun_boxes@));
        put_unknown_boxes(p, self.unknown_boxes.as_slice());
        assert(p@ =~= start + self.spec_payload_bytes());
        Ok(())
    }

    #[verifier::spinoff_prover]
    #[verifier::rlimit(40)]
    fn decode_payload(p: &[u8]) -> (r: Result<Self>)
        ensures
            r is Ok <==> Self::spec_payload_ok(p@),
            r matches Ok(v) ==> Self::spec_payload_decoded(p@, v),
    {
        let mut offset: usize = 0;
        let mut tfhd_box: Option<TfhdBox> = None;
        let mut tfdt_box: Option<TfdtBox> = None;
        let mut trun_boxes: Vec<TrunBox> = Vec::new();
        let mut unknown_boxes: Vec<UnknownBox> = Vec::new();
        let ghost mut seen: Set<int> = Set::empty();
        assert(p@.skip(0) =~= p@);
        while offset < p.len()
            invariant
                offset <= p@.len(),
                traf_scan(p@, Set::empty()) == traf_scan(p@.skip(offset as int), seen),
                tfhd_box is Some <==> seen.contains(0),
                tfdt_box is Some <==> seen.contains(1),
                forall|v: TrafBox|
                    #[trigger] traf_agrees(v, tfhd_box, tfdt_box, trun_boxes@, unknown_boxes@)
                        ==> (traf_walk(p@, Set::empty(), 0, 0, v) == traf_walk(
                        p@.skip(offset as int),
                        seen,
                        trun_boxes@.len() as int,
                        unknown_boxes@.len() as int,
                        v,
                    )),
            decreases p@.len() - offset,
        {
            let ghost o = offset as int;
            let ghost q = p@.skip(o);
            let ghost seen0 = seen;
            let ghost (g0, g1, g2, gu) = (tfhd_box, tfdt_box, trun_boxes@, unknown_boxes@);
            let ghost k = traf_child_kind(q);
            let ty = peek_box_type(p, offset)?;
            proof {
                reveal_with_fuel(spec_scan_children, 1);
            }
            if ty.is_same(&TfhdBox::TYPE()) && tfhd_box.is_none() {
                let b = TfhdBox::decode_at(p, &mut offset)?;
                assert(TfhdBox::spec_decoded(p@.skip(o), b));
                tfhd_box = Some(b);
                proof {
                    seen = seen.insert(0);
                }
            } else if ty.is_same(&TfdtBox::TYPE()) && tfdt_box.is_none() {
                let b = TfdtBox::decode_at(p, &mut offset)?;
                assert(TfdtBox::spec_decoded(p@.skip(o), b));
                tfdt_box = Some(b);
                proof {
                    seen = seen.insert(1);
                }
            } else if ty.is_same(&TrunBox::TYPE()) {
                let b = TrunBox::decode_at(p, &mut offset)?;
                assert(TrunBox::spec_decoded(p@.skip(o), b));
                trun_boxes.push(b);
                proof {
                    seen = seen.insert(2);
                }
            } else {
                let b = UnknownBox::decode_at(p, &mut offset)?;
                assert(UnknownBox::spec_decoded(p@.skip(o), b));
                unknown_boxes.push(b);
            }
            assert(p@.skip(offset as int) =~= q.skip(spec_box_end(q)));
            proof {
                assert forall|v: TrafBox|
                    #[trigger] traf_agrees(v, tfhd_box, tfdt_box, trun_boxes@, unknown_boxes@)
                    implies (traf_walk(p@, Set::empty(), 0, 0, v) == traf_walk(
                    p@.skip(offset as int),
                    seen,
                    trun_boxes@.len() as int,
                    unknown_boxes@.len() as int,
                    v,
                )) by {
                    assert(traf_agrees(v, g0, g1, g2, gu)) by {
                        assert forall|j: int| 0 <= j < g2.len() implies v.trun_boxes@[j] == #[trigger] g2[j] by {
                            assert(g2[j] == trun_boxes@[j]);
                        }
                        assert forall|j: int| 0 <= j < gu.len() implies v.unknown_boxes@[j] == #[trigger] gu[j] by {
                            assert(gu[j] == unknown_boxes@[j]);
                        }
                    }
                    if k == 2 {
                        assert(trun_boxes@[g2.len() as int] == trun_boxes@.last());
                    } else if k < 0 || seen0.contains(k) {
                        assert(unknown_boxes@[gu.len() as int] == unknown_boxes@.last());
                    }
                }
            }
        }
        let ghost (f0, f1, f2, fu) = (tfhd_box, tfdt_box, trun_boxes@, unknown_boxes@);
        let v = Self {
            tfhd_box: check_mandatory_box(tfhd_box, "tfhd", "traf")?,
            tfdt_box: tfdt_box,
            trun_boxes: trun_boxes,
            unknown_boxes,
        };
        proof {
            assert(traf_agrees(v, f0, f1, f2, fu));
            assert(p@.skip(offset as int) =~= Seq::<u8>::empty());
        }
        Ok(v)
    }
}

impl Encode for TrafBox {
    open spec fn spec_encodable(&self) -> bool {
        self.spec_children_encodable() && spec_box_fits(self.spec_payload_bytes())
    }

    open spec fn spec_encoding(&self) -> Seq<u8> {
        spec_box_bytes(Self::spec_type().spec_bytes(), self.spec_payload_bytes())
    }

    fn encode_into(&self, out: &mut Vec<u8>) -> (r: Result<()>) {
        let mut p: Vec<u8> = Vec::new();
        self.put_payload(&mut p)?;
        finish_box(out, Self::TYPE(), p)
    }
}

impl Decode for TrafBox {
    open spec fn spec_can_decode(s: Seq<u8>) -> bool {
        &&& spec_can_split(s)
        &&& spec_is_type(s, Self::spec_type().spec_bytes())
        &&& Self::spec_payload_ok(spec_payload(s))
    }

    open spec fn spec_decoded_len(s: Seq<u8>) -> int {
        spec_box_end(s)
    }

    open spec fn spec_decoded(s: Seq<u8>, v: Self) -> bool {
        Self::spec_payload_decoded(spec_payload(s), v)
    }

    fn decode(buf: &[u8]) -> (r: Result<(Self, usize)>) {
        let (header, payload) = BoxHeader::decode_typed(buf, Self::TYPE())?;
        let total = buf.len();
        assert(header.spec_external_size() + payload@.len() <= total);
        let n = header.external_size() + payload.len();
        let v = with_box_type(Self::TYPE(), Self::decode_payload(payload))?;
        Ok((v, n))
    }
}

impl BaseBox for TrafBox {
    open spec fn spec_box_type(&self) -> BoxType {
        Self::spec_type()
    }

    fn box_type(&self) -> (r: BoxType) {
        Self::TYPE()
    }
}

// ---------------------------------------------------------------------------
// moof
// ---------------------------------------------------------------------------

/// The kind of a child of an `moof` box: `mfhd`, `traf` are 0 to 1, other types -1.
pub open spec fn moof_child_kind(q: Seq<u8>) -> int {
    if spec_is_type(q, MfhdBox::spec_type().spec_bytes()) {
        0
    } else if spec_is_type(q, TrafBox::spec_type().spec_bytes()) {
        1
    } else {
        -1
    }
}

/// Whether a child of an `moof` box of kind `k` can be read.
pub open spec fn moof_child_ok(k: int, q: Seq<u8>) -> bool {
    if k == 0 {
        MfhdBox::spec_can_decode(q)
    } else {
        TrafBox::spec_can_decode(q)
    }
}

/// Whether the children of an `moof` box at the start of `q` can be read, given the kinds
/// already seen.
pub open spec fn moof_scan(q: Seq<u8>, seen: Set<int>) -> bool {
    spec_scan_children(
        q,
        seen,
        |q: Seq<u8>| moof_child_kind(q),
        |k: int| k == 0,
        |k: int, q: Seq<u8>| moof_child_ok(k, q),
        |seen: Set<int>| seen.contains(0),
    )
}

/// Whether the child `q` of kind `k` of a `moof` box is the field of `v` it is read into
/// (for the kind with several children, the one at `m`).
pub open spec fn moof_child_matches(k: int, q: Seq<u8>, m: int, v: MoofBox) -> bool {
    if k == 0 {
        MfhdBox::spec_decoded(q, v.mfhd_box)
    } else {
        0 <= m < v.traf_boxes@.len() && TrafBox::spec_decoded(q, v.traf_boxes@[m])
    }
}

/// Whether `v` is what reading the children of a `moof` box at the start of `q` gives, walking
/// them box by box: the first child of each known kind is read into its field, every child of the kind with several is the next of its list (from `m` on), and every other child is the next unknown box (from `u` on); `seen`
/// holds the kinds read before `q`.
pub open spec fn moof_walk(q: Seq<u8>, seen: Set<int>, m: int, u: int, v: MoofBox) -> bool
    decreases q.len(),
{
    if q.len() == 0 {
        &&& u == v.unknown_boxes@.len()
        &&& m == v.traf_boxes@.len()
    } else if !spec_can_split(q) || spec_box_end(q) <= 0 {
        false
    } else {
        let k = moof_child_kind(q);
        if k >= 0 && (k == 1 || !seen.contains(k)) {
            &&& moof_child_matches(k, q, m, v)
            &&& moof_walk(q.skip(spec_box_end(q)), seen.insert(k), if k == 1 { m + 1 } else { m }, u, v)
        } else {
            &&& 0 <= u < v.unknown_boxes@.len()
            &&& UnknownBox::spec_decoded(q, v.unknown_boxes@[u])
            &&& moof_walk(q.skip(spec_box_end(q)), seen, m, u + 1, v)
        }
    }
}

/// Whether `v` holds the children of a `moof` box read so far.
pub open spec fn moof_agrees(v: MoofBox, mfhd_box: Option<MfhdBox>, traf_boxes: Seq<TrafBox>, unknown: Seq<UnknownBox>) -> bool {
    &&& mfhd_box matches Some(b) ==> v.mfhd_box == b
    &&& traf_boxes.len() <= v.traf_boxes@.len()
    &&& forall|j: int| 0 <= j < traf_boxes.len() ==> v.traf_boxes@[j] == #[trigger] traf_boxes[j]
    &&& unknown.len() <= v.unknown_boxes@.len()
    &&& forall|j: int| 0 <= j < unknown.len() ==> v.unknown_boxes@[j] == #[trigger] unknown[j]
}

/// The movie fragment box (`moof`, ISO/IEC 14496-12 MovieFragmentBox): with an `mdat` box it makes a media segment of a fragmented file.
#[derive(Debug, Clone)]
#[allow(missing_docs)]
pub struct MoofBox {
    pub mfhd_box: MfhdBox,
    pub traf_boxes: Vec<TrafBox>,
    pub unknown_boxes: Vec<UnknownBox>,
}

impl MoofBox {
    /// The type of the box.
    pub open spec fn spec_type() -> BoxType {
        fourcc(0x6d, 0x6f, 0x6f, 0x66)
    }

    /// The type of the box: `moof`.
    #[allow(non_snake_case)]
    pub fn TYPE() -> (r: BoxType)
        ensures
            r == Self::spec_type(),
    {
        BoxType::Normal([0x6d, 0x6f, 0x6f, 0x66])
    }

    /// Whether all children can be encoded.
    pub open spec fn spec_children_encodable(&self) -> bool {
        &&& self.mfhd_box.spec_encodable()
        &&& all_encodable(self.traf_boxes@)
    }

    /// The payload bytes of the box: the children in a fixed order.
    pub open spec fn spec_payload_bytes(&self) -> Seq<u8> {
        self.mfhd_box.spec_encoding() + encodings(self.traf_boxes@) + unknown_boxes_bytes(self.unknown_boxes@)
    }

    /// Whether `p` is the payload of an `moof` box.
    pub open spec fn spec_payload_ok(p: Seq<u8>) -> bool {
        moof_scan(p, Set::empty())
    }

    /// Whether `v` is the box read from the payload `p`: the children, walked box by box, as
    /// [`moof_walk`] says.
    pub open spec fn spec_payload_decoded(p: Seq<u8>, v: Self) -> bool {
        moof_walk(p, Set::empty(), 0, 0, v)
    }

    #[verifier::spinoff_prover]
    #[verifier::rlimit(40)]
    fn put_payload(&self, p: &mut Vec<u8>) -> (r: Result<()>)
        ensures
            r is Ok <==> self.spec_children_encodable(),
            r is Ok ==> final(p)@ == old(p)@ + self.spec_payload_bytes(),
            r matches Err(e) ==> e.kind == ErrorKind::InvalidInput,
    {
        let ghost start = p@;
        self.mfhd_box.encode_into(p)?;
        assert(p@ =~= start + self.mfhd_box.spec_encoding());
        put_all(p, self.traf_boxes.as_slice())?;
        assert(p@ =~= start + self.mfhd_box.spec_encoding() + encodings(self.traf_boxes@));
        put_unknown_boxes(p, self.unknown_boxes.as_slice());
        assert(p@ =~= start + self.spec_payload_bytes());
        Ok(())
    }

    #[verifier::spinoff_prover]
    #[verifier::rlimit(40)]
    fn decode_payload(p: &[u8]) -> (r: Result<Self>)
        ensures
            r is Ok <==> Self::spec_payload_ok(p@),
            r matches Ok(v) ==> Self::spec_payload_decoded(p@, v),
    {
        let mut offset: usize = 0;
        let mut mfhd_box: Option<MfhdBox> = None;
        let mut traf_boxes: Vec<TrafBox> = Vec::new();
        let mut unknown_boxes: Vec<UnknownBox> = Vec::new();
        let ghost mut seen: Set<int> = Set::empty();
        assert(p@.skip(0) =~= p@);
        while offset < p.len()
            invariant
                offset <= p@.len(),
                moof_scan(p@, Set::empty()) == moof_scan(p@.skip(offset as int), seen),
                mfhd_box is Some <==> seen.contains(0),
                forall|v: MoofBox|
                    #[trigger] moof_agrees(v, mfhd_box, traf_boxes@, unknown_boxes@)
                        ==> (moof_walk(p@, Set::empty(), 0, 0, v) == moof_walk(
                        p@.skip(offset as int),
                        seen,
                        traf_boxes@.len() as int,
                        unknown_boxes@.len() as int,
                        v,
                    )),
            decreases p@.len() - offset,
        {
            let ghost o = offset as int;
            let ghost q = p@.skip(o);
            let ghost seen0 = seen;
            let ghost (g0, g1, gu) = (mfhd_box, traf_boxes@, unknown_boxes@);
            let ghost k = moof_child_kind(q);
            let ty = peek_box_type(p, offset)?;
            proof {
                reveal_with_fuel(spec_scan_children, 1);
            }
            if ty.is_same(&MfhdBox::TYPE()) && mfhd_box.is_none() {
                let b = MfhdBox::decode_at(p, &mut offset)?;
                assert(MfhdBox::spec_decoded(p@.skip(o), b));
                mfhd_box = Some(b);
                proof {
                    seen = seen.insert(0);
                }
            } else if ty.is_same(&TrafBox::TYPE()) {
                let b = TrafBox::decode_at(p, &mut offset)?;
                assert(TrafBox::spec_decoded(p@.skip(o), b));
                traf_boxes.push(b);
                proof {
                    seen = seen.insert(1);
                }
            } else {
                let b = UnknownBox::decode_at(p, &mut offset)?;
                assert(UnknownBox::spec_decoded(p@.skip(o), b));
                unknown_boxes.push(b);
            }
            assert(p@.skip(offset as int) =~= q.skip(spec_box_end(q)));
            proof {
                assert forall|v: MoofBox|
                    #[trigger] moof_agrees(v, mfhd_box, traf_boxes@, unknown_boxes@)
                    implies (moof_walk(p@, Set::empty(), 0, 0, v) == moof_walk(
                    p@.skip(offset as int),
                    seen,
                    traf_boxes@.len() as int,
                    unknown_boxes@.len() as int,
                    v,
                )) by {
                    assert(moof_agrees(v, g0, g1, gu)) by {
                        assert forall|j: int| 0 <= j < g1.len() implies v.traf_boxes@[j] == #[trigger] g1[j] by {
                            assert(g1[j] == traf_boxes@[j]);
                        }
                        assert forall|j: int| 0 <= j < gu.len() implies v.unknown_boxes@[j] == #[trigger] gu[j] by {
                            assert(gu[j] == unknown_boxes@[j]);
                        }
                    }
                    if k == 1 {
                        assert(traf_boxes@[g1.len() as int] == traf_boxes@.last());
                    } else if k < 0 || seen0.contains(k) {
                        assert(unknown_boxes@[gu.len() as int] == unknown_boxes@.last());
                    }
                }
            }
        }
        let ghost (f0, f1, fu) = (mfhd_box, traf_boxes@, unknown_boxes@);
        let v = Self {
            mfhd_box: check_mandatory_box(mfhd_box, "mfhd", "moof")?,
            traf_boxes: traf_boxes,
            unknown_boxes,
        };
        proof {
            assert(moof_agrees(v, f0, f1, fu));
            assert(p@.skip(offset as int) =~= Seq::<u8>::empty());
        }
        Ok(v)
    }
}

impl Encode for MoofBox {
    open spec fn spec_encodable(&self) -> bool {
        self.spec_children_encodable() && spec_box_fits(self.spec_payload_bytes())
    }

    open spec fn spec_encoding(&self) -> Seq<u8> {
        spec_box_bytes(Self::spec_type().spec_bytes(), self.spec_payload_bytes())
    }

    fn encode_into(&self, out: &mut Vec<u8>) -> (r: Result<()>) {
        let mut p: Vec<u8> = Vec::new();
        self.put_payload(&mut p)?;
        finish_box(out, Self::TYPE(), p)
    }
}

impl Decode for MoofBox {
    open spec fn spec_can_decode(s: Seq<u8>) -> bool {
        &&& spec_can_split(s)
        &&& spec_is_type(s, Self::spec_type().spec_bytes())
        &&& Self::spec_payload_ok(spec_payload(s))
    }

    open spec fn spec_decoded_len(s: Seq<u8>) -> int {
        spec_box_end(s)
    }

    open spec fn spec_decoded(s: Seq<u8>, v: Self) -> bool {
        Self::spec_payload_decoded(spec_payload(s), v)
    }

    fn decode(buf: &[u8]) -> (r: Result<(Self, usize)>) {
        let (header, payload) = BoxHeader::decode_typed(buf, Self::TYPE())?;
        let total = buf.len();
        assert(header.spec_external_size() + payload@.len() <= total);
        let n = header.external_size() + payload.len();
        let v = with_box_type(Self::TYPE(), Self::decode_payload(payload))?;
        Ok((v, n))
    }
}

impl BaseBox for MoofBox {
    open spec fn spec_box_type(&self) -> BoxType {
        Self::spec_type()
    }

    fn box_type(&self) -> (r: BoxType) {
        Self::TYPE()
    }
}


// ---------------------------------------------------------------------------
// mfra
// ---------------------------------------------------------------------------

/// Whether the children of an `mfra` box at the start of `q` can be read, given whether an
/// `mfro` box was seen. A child of another type is skipped by its announced size, and a
/// size of zero or one that reaches past the end ends the run.
pub open spec fn mfra_scan(q: Seq<u8>, has_mfro: bool) -> bool
    decreases q.len(),
{
    if q.len() == 0 {
        has_mfro
    } else if !BoxHeader::spec_can_decode(q) {
        false
    } else if spec_is_type(q, TfraBox::spec_type().spec_bytes()) {
        &&& TfraBox::spec_can_decode(q)
        &&& 0 < spec_box_end(q) <= q.len()
        &&& mfra_scan(q.skip(spec_box_end(q)), has_mfro)
    } else if spec_is_type(q, MfroBox::spec_type().spec_bytes()) {
        &&& MfroBox::spec_can_decode(q)
        &&& 0 < spec_box_end(q) <= q.len()
        &&& mfra_scan(q.skip(spec_box_end(q)), true)
    } else {
        let n = BoxHeader::spec_size_value(q);
        if n == 0 || n >= q.len() {
            has_mfro
        } else {
            mfra_scan(q.skip(n as int), has_mfro)
        }
    }
}

/// Whether an `mfro` box is among the boxes that reading an `mfra` payload from `q` meets.
pub open spec fn mfra_has_mfro(q: Seq<u8>) -> bool
    decreases q.len(),
{
    if q.len() == 0 || !BoxHeader::spec_can_decode(q) {
        false
    } else if spec_is_type(q, TfraBox::spec_type().spec_bytes()) {
        0 < spec_box_end(q) <= q.len() && mfra_has_mfro(q.skip(spec_box_end(q)))
    } else if spec_is_type(q, MfroBox::spec_type().spec_bytes()) {
        true
    } else {
        let n = BoxHeader::spec_size_value(q);
        if n == 0 || n >= q.len() {
            false
        } else {
            mfra_has_mfro(q.skip(n as int))
        }
    }
}

/// Whether `v` is what reading the boxes of an `mfra` payload from `q` gives, box by box: every
/// `tfra` box is the next of its list (from `m` on), the last `mfro` box is its `mfro` box, and
/// other boxes are skipped (reading stops at one that runs to the end); `found` says whether
/// an `mfro` box was met before `q`.
pub open spec fn mfra_walk(q: Seq<u8>, m: int, found: bool, v: MfraBox) -> bool
    decreases q.len(),
{
    if q.len() == 0 {
        m == v.tfra_boxes@.len() && found
    } else if !BoxHeader::spec_can_decode(q) {
        false
    } else if spec_is_type(q, TfraBox::spec_type().spec_bytes()) {
        &&& 0 < spec_box_end(q) <= q.len()
        &&& 0 <= m < v.tfra_boxes@.len()
        &&& TfraBox::spec_decoded(q, v.tfra_boxes@[m])
        &&& mfra_walk(q.skip(spec_box_end(q)), m + 1, found, v)
    } else if spec_is_type(q, MfroBox::spec_type().spec_bytes()) {
        &&& 0 < spec_box_end(q) <= q.len()
        &&& !mfra_has_mfro(q.skip(spec_box_end(q))) ==> MfroBox::spec_decoded(q, v.mfro_box)
        &&& mfra_walk(q.skip(spec_box_end(q)), m, true, v)
    } else {
        let n = BoxHeader::spec_size_value(q);
        if n == 0 || n >= q.len() {
            m == v.tfra_boxes@.len() && found
        } else {
            mfra_walk(q.skip(n as int), m, found, v)
        }
    }
}

/// The movie fragment random access box (`mfra`, ISO/IEC 14496-12
/// MovieFragmentRandomAccessBox): the random access tables of a fragmented file, at its end.
#[derive(Debug, Clone)]
#[allow(missing_docs)]
pub struct MfraBox {
    pub tfra_boxes: Vec<TfraBox>,
    pub mfro_box: MfroBox,
}

impl MfraBox {
    /// The type of the box.
    pub open spec fn spec_type() -> BoxType {
        fourcc(0x6d, 0x66, 0x72, 0x61)
    }

    /// The type of the box: `mfra`.
    #[allow(non_snake_case)]
    pub fn TYPE() -> (r: BoxType)
        ensures
            r == Self::spec_type(),
    {
        BoxType::Normal([0x6d, 0x66, 0x72, 0x61])
    }

    /// Whether all children can be encoded.
    pub open spec fn spec_children_encodable(&self) -> bool {
        all_encodable(self.tfra_boxes@) && self.mfro_box.spec_encodable()
    }

    /// The payload bytes of the box: the `tfra` boxes, then the `mfro` box.
    pub open spec fn spec_payload_bytes(&self) -> Seq<u8> {
        encodings(self.tfra_boxes@) + self.mfro_box.spec_encoding()
    }

    /// Whether `p` is the payload of an `mfra` box: its children can be read and one of them
    /// is an `mfro` box.
    pub open spec fn spec_payload_ok(p: Seq<u8>) -> bool {
        mfra_scan(p, false)
    }

    /// Whether `v` is the box read from the payload `p`: its boxes, read one after another as
    /// [`mfra_walk`] says.
    pub open spec fn spec_payload_decoded(p: Seq<u8>, v: Self) -> bool {
        mfra_walk(p, 0, false, v)
    }

    fn put_payload(&self, p: &mut Vec<u8>) -> (r: Result<()>)
        ensures
            r is Ok <==> self.spec_children_encodable(),
            r is Ok ==> final(p)@ == old(p)@ + self.spec_payload_bytes(),
            r matches Err(e) ==> e.kind == ErrorKind::InvalidInput,
    {
        let ghost start = p@;
        put_all(p, self.tfra_boxes.as_slice())?;
        self.mfro_box.encode_into(p)?;
        assert(p@ =~= start + self.spec_payload_bytes());
        Ok(())
    }

    fn decode_payload(p: &[u8]) -> (r: Result<Self>)
        ensures
            r is Ok <==> Self::spec_payload_ok(p@),
            r matches Ok(v) ==> Self::spec_payload_decoded(p@, v),
    {
        let mut offset: usize = 0;
        let mut tfra_boxes: Vec<TfraBox> = Vec::new();
        let mut mfro_box: Option<MfroBox> = None;
        assert(p@.skip(0) =~= p@);
        while offset < p.len()
            invariant
                offset <= p@.len(),
                mfra_scan(p@, false) == mfra_scan(p@.skip(offset as int), mfro_box is Some),
                forall|v: MfraBox|
                    #![trigger mfra_walk(p@.skip(offset as int), tfra_boxes@.len() as int, mfro_box is Some, v)]
                    tfra_boxes@.len() <= v.tfra_boxes@.len() && (forall|j: int|
                        0 <= j < tfra_boxes@.len() ==> v.tfra_boxes@[j] == #[trigger] tfra_boxes@[j])
                        && mfra_walk(p@.skip(offset as int), tfra_boxes@.len() as int, mfro_box is Some, v) && (
                    mfro_box matches Some(b) ==> (!mfra_has_mfro(p@.skip(offset as int)) ==> v.mfro_box == b))
                        ==> mfra_walk(p@, 0, false, v),
            decreases p@.len() - offset,
        {
            let ghost o = offset as int;
            let ghost q = p@.skip(o);
            let ghost (gt, gm) = (tfra_boxes@, mfro_box);
            let ty = peek_box_type(p, offset)?;
            if ty.is_same(&TfraBox::TYPE()) {
                let b = TfraBox::decode_at(p, &mut offset)?;
                assert(TfraBox::spec_decoded(p@.skip(o), b));
                tfra_boxes.push(b);
                assert(p@.skip(offset as int) =~= q.skip(spec_box_end(q)));
            } else if ty.is_same(&MfroBox::TYPE()) {
                let b = MfroBox::decode_at(p, &mut offset)?;
                assert(MfroBox::spec_decoded(p@.skip(o), b));
                mfro_box = Some(b);
                assert(p@.skip(offset as int) =~= q.skip(spec_box_end(q)));
            } else {
                let rest = vstd::slice::slice_subrange(p, offset, p.len());
                assert(rest@ =~= q);
                let (header, _n) = BoxHeader::decode(rest)?;
                let size = header.box_size.get();
                if size == 0 || size >= (p.len() - offset) as u64 {
                    offset = p.len();
                    assert(p@.skip(offset as int) =~= Seq::<u8>::empty());
                } else {
                    offset = offset + size as usize;
                    assert(p@.skip(offset as int) =~= q.skip(size as int));
                }
            }
            proof {
                assert forall|v: MfraBox|
                    #![trigger mfra_walk(p@.skip(offset as int), tfra_boxes@.len() as int, mfro_box is Some, v)]
                    tfra_boxes@.len() <= v.tfra_boxes@.len() && (forall|j: int|
                        0 <= j < tfra_boxes@.len() ==> v.tfra_boxes@[j] == #[trigger] tfra_boxes@[j])
                        && mfra_walk(p@.skip(offset as int), tfra_boxes@.len() as int, mfro_box is Some, v) && (
                    mfro_box matches Some(b) ==> (!mfra_has_mfro(p@.skip(offset as int)) ==> v.mfro_box == b))
                    implies mfra_walk(p@, 0, false, v) by {
                    assert forall|j: int| 0 <= j < gt.len() implies v.tfra_boxes@[j] == #[trigger] gt[j] by {
                        assert(gt[j] == tfra_boxes@[j]);
                    }
                    if tfra_boxes@.len() > gt.len() {
                        assert(tfra_boxes@[gt.len() as int] == tfra_boxes@.last());
                    }
                    assert(mfra_walk(q, gt.len() as int, gm is Some, v));
                }
            }
        }
        assert(p@.skip(offset as int) =~= Seq::<u8>::empty());
        let ghost ft = tfra_boxes@;
        match mfro_box {
            Some(b) => {
                let v = Self { tfra_boxes, mfro_box: b };
                proof {
                    assert forall|j: int| 0 <= j < ft.len() implies v.tfra_boxes@[j] == #[trigger] ft[j] by {}
                    assert(mfra_walk(p@.skip(offset as int), ft.len() as int, true, v));
                }
                Ok(v)
            },
            None => Err(Error::invalid_data("Missing mandatory 'mfro' box in 'mfra' box")),
        }
    }
}

impl Encode for MfraBox {
    open spec fn spec_encodable(&self) -> bool {
        self.spec_children_encodable() && spec_box_fits(self.spec_payload_bytes())
    }

    open spec fn spec_encoding(&self) -> Seq<u8> {
        spec_box_bytes(Self::spec_type().spec_bytes(), self.spec_payload_bytes())
    }

    fn encode_into(&self, out: &mut Vec<u8>) -> (r: Result<()>) {
        let mut p: Vec<u8> = Vec::new();
        self.put_payload(&mut p)?;
        finish_box(out, Self::TYPE(), p)
    }
}

impl Decode for MfraBox {
    open spec fn spec_can_decode(s: Seq<u8>) -> bool {
        &&& spec_can_split(s)
        &&& spec_is_type(s, Self::spec_type().spec_bytes())
        &&& Self::spec_payload_ok(spec_payload(s))
    }

    open spec fn spec_decoded_len(s: Seq<u8>) -> int {
        spec_box_end(s)
    }

    open spec fn spec_decoded(s: Seq<u8>, v: Self) -> bool {
        Self::spec_payload_decoded(spec_payload(s), v)
    }

    fn decode(buf: &[u8]) -> (r: Result<(Self, usize)>) {
        let (header, payload) = BoxHeader::decode_typed(buf, Self::TYPE())?;
        let total = buf.len();
        assert(header.spec_external_size() + payload@.len() <= total);
        let n = header.external_size() + payload.len();
        let v = with_box_type(Self::TYPE(), Self::decode_payload(payload))?;
        Ok((v, n))
    }
}

impl BaseBox for MfraBox {
    open spec fn spec_box_type(&self) -> BoxType {
        Self::spec_type()
    }

    fn box_type(&self) -> (r: BoxType) {
        Self::TYPE()
    }
}

} // verus!
