//! The `moov` box and the boxes below it.
use crate::basic_types::{BaseBox, BoxHeader, BoxType, Either, FullBox, FullBoxFlags, NonZeroU32};
use crate::boxes::{
    concat, fourcc, full_header_bytes, get_u32s_at, get_u64s_at, lemma_concat_push, put_full_header,
    put_u32s, put_u64s, spec_box_bytes, spec_box_end, spec_box_fits, spec_can_split, spec_is_type,
    spec_payload, u32s_bytes, u64s_bytes, finish_box, with_box_type, SampleEntry, spec_boxes_split,
    spec_nth_box_offset, peek_box_type, spec_scan_children, check_mandatory_box,
    UnknownBox, all_encodable, encodings, put_all,
};
use crate::basic_types::{FixedPointNumber, Mp4FileTime, SampleFlags, Utf8String};
use crate::codec::{
    be_u16, be_u32, be_u64, get_i16_at, get_i32_at, get_i8_at, get_u16, get_u16_at, get_u32,
    get_bytes_at, get_u32_at, get_u64, get_u64_at, get_u8_at, i16_bits, i16_of, i32_bits, i32_of,
    i8_bits, i8_of, put_bytes, get_i64_at, i64_bits, i64_of, put_i64,
    put_i16, put_i32, put_i8, put_u16, put_u32, put_u64, put_u8, put_zeros, skip_at, Decode,
    Encode, Error, ErrorKind, Result,
};
use vstd::prelude::*;

verus! {

// ---------------------------------------------------------------------------
// stts
// ---------------------------------------------------------------------------

/// An entry of a [`SttsBox`]: a run of samples of the same duration.
#[derive(Debug, Clone, Copy, PartialEq, Eq, Hash, Structural)]
#[allow(missing_docs)]
pub struct SttsEntry {
    pub sample_count: u32,
    pub sample_delta: u32,
}

/// The bytes of a time-to-sample entry.
pub open spec fn stts_entry_bytes(e: SttsEntry) -> Seq<u8> {
    be_u32(e.sample_count) + be_u32(e.sample_delta)
}

/// The bytes of a list of time-to-sample entries.
pub open spec fn stts_entries_bytes(es: Seq<SttsEntry>) -> Seq<u8> {
    concat(es.map_values(|e: SttsEntry| stts_entry_bytes(e)))
}

/// The durations of the samples that a list of time-to-sample entries describes, in order.
pub open spec fn stts_deltas(es: Seq<SttsEntry>) -> Seq<u32>
    decreases es.len(),
{
    if es.len() == 0 {
        Seq::empty()
    } else {
        stts_deltas(es.drop_last()) + Seq::new(
            es.last().sample_count as nat,
            |_i: int| es.last().sample_delta,
        )
    }
}

/// The time-to-sample box (`stts`, ISO/IEC 14496-12 TimeToSampleBox).
#[derive(Debug, Clone)]
#[allow(missing_docs)]
pub struct SttsBox {
    pub entries: Vec<SttsEntry>,
}

impl SttsBox {
    /// The type of the box.
    pub open spec fn spec_type() -> BoxType {
        fourcc(0x73, 0x74, 0x74, 0x73)
    }

    /// The type of the box: `stts`.
    #[allow(non_snake_case)]
    pub fn TYPE() -> (r: BoxType)
        ensures
            r == Self::spec_type(),
    {
        BoxType::Normal([0x73, 0x74, 0x74, 0x73])
    }

    /// Creates the box that describes samples of the given durations, in order.
    ///
    /// Each run of equal durations becomes one entry.
    pub fn from_sample_deltas(sample_deltas: &[u32]) -> (r: Self)
        requires
            sample_deltas@.len() <= u32::MAX,
        ensures
            stts_deltas(r.entries@) == sample_deltas@,
            forall|i: int| 0 <= i < r.entries@.len() ==> #[trigger] r.entries@[i].sample_count >= 1,
            forall|i: int|
                1 <= i < r.entries@.len() ==> #[trigger] r.entries@[i].sample_delta
                    != r.entries@[i - 1].sample_delta,
    {
        let mut entries: Vec<SttsEntry> = Vec::new();
        let mut i: usize = 0;
        while i < sample_deltas.len()
            invariant
                i <= sample_deltas@.len() <= u32::MAX,
                stts_deltas(entries@) == sample_deltas@.subrange(0, i as int),
                entries@.len() <= i,
                forall|k: int| 0 <= k < entries@.len() ==> #[trigger] entries@[k].sample_count >= 1,
                forall|k: int| 0 <= k < entries@.len() ==> #[trigger] entries@[k].sample_count <= i,
                forall|k: int|
                    1 <= k < entries@.len() ==> #[trigger] entries@[k].sample_delta
                        != entries@[k - 1].sample_delta,
                i > 0 ==> entries@.len() > 0 && entries@.last().sample_delta == sample_deltas@[i
                    - 1],
            decreases sample_deltas@.len() - i,
        {
            let d = sample_deltas[i];
            let ghost prev = entries@;
            if entries.len() > 0 && entries[entries.len() - 1].sample_delta == d {
                let k = entries.len() - 1;
                let mut e = entries[k];
                e.sample_count = e.sample_count + 1;
                entries.set(k, e);
                proof {
                    assert(entries@.drop_last() =~= prev.drop_last());
                    assert(Seq::new(e.sample_count as nat, |_i: int| d) =~= Seq::new(
                        prev.last().sample_count as nat,
                        |_i: int| d,
                    ).push(d));
                    assert(sample_deltas@.subrange(0, i + 1) =~= sample_deltas@.subrange(
                        0,
                        i as int,
                    ).push(d));
                }
            } else {
                entries.push(SttsEntry { sample_count: 1, sample_delta: d });
                proof {
                    assert(entries@.drop_last() =~= prev);
                    assert(Seq::new(1, |_i: int| d) =~= seq![d]);
                    assert(sample_deltas@.subrange(0, i + 1) =~= sample_deltas@.subrange(
                        0,
                        i as int,
                    ).push(d));
                }
            }
            i += 1;
        }
        assert(sample_deltas@.subrange(0, i as int) =~= sample_deltas@);
        Self { entries }
    }

    /// The payload bytes of the box.
    pub open spec fn spec_payload_bytes(&self) -> Seq<u8> {
        full_header_bytes(0, 0) + be_u32(self.entries@.len() as u32) + stts_entries_bytes(
            self.entries@,
        )
    }

    /// Whether `p` is the payload of an `stts` box.
    pub open spec fn spec_payload_ok(p: Seq<u8>) -> bool {
        p.len() >= 8 && p.len() >= 8 + 8 * get_u32(p, 4)
    }

    /// Whether `v` is the box read from the payload `p`.
    pub open spec fn spec_payload_decoded(p: Seq<u8>, v: Self) -> bool {
        &&& v.entries@.len() == get_u32(p, 4)
        &&& forall|i: int|
            0 <= i < v.entries@.len() ==> (#[trigger] v.entries@[i]).sample_count == get_u32(
                p,
                8 + 8 * i,
            ) && v.entries@[i].sample_delta == get_u32(p, 12 + 8 * i)
    }

    fn decode_payload(p: &[u8]) -> (r: Result<Self>)
        ensures
            r is Ok <==> Self::spec_payload_ok(p@),
            r matches Ok(v) ==> Self::spec_payload_decoded(p@, v),
    {
        let mut offset: usize = 0;
        if p.len() < 8 {
            return Err(Error::insufficient_buffer());
        }
        skip_at(p, &mut offset, 4)?;
        let count = get_u32_at(p, &mut offset)?;
        let mut entries: Vec<SttsEntry> = Vec::new();
        let mut i: u32 = 0;
        while i < count
            invariant
                p@.len() >= 8,
                count == get_u32(p@, 4),
                i <= count,
                offset == 8 + 8 * i,
                offset <= p@.len(),
                entries@.len() == i,
                forall|k: int|
                    0 <= k < i ==> (#[trigger] entries@[k]).sample_count == get_u32(p@, 8 + 8 * k)
                        && entries@[k].sample_delta == get_u32(p@, 12 + 8 * k),
            decreases count - i,
        {
            if p.len() - offset < 8 {
                return Err(Error::insufficient_buffer());
            }
            let sample_count = get_u32_at(p, &mut offset)?;
            let sample_delta = get_u32_at(p, &mut offset)?;
            entries.push(SttsEntry { sample_count, sample_delta });
            i += 1;
        }
        Ok(Self { entries })
    }
}

/// Appends the entries of a time-to-sample box.
fn put_stts_entries(p: &mut Vec<u8>, es: &[SttsEntry])
    ensures
        final(p)@ == old(p)@ + stts_entries_bytes(es@),
{
    let ghost start = p@;
    let mut i: usize = 0;
    while i < es.len()
        invariant
            i <= es@.len(),
            p@ == start + stts_entries_bytes(es@.subrange(0, i as int)),
        decreases es@.len() - i,
    {
        let e = es[i];
        put_u32(p, e.sample_count);
        put_u32(p, e.sample_delta);
        proof {
            let f = |e: SttsEntry| stts_entry_bytes(e);
            let prev = es@.subrange(0, i as int);
            assert(es@.subrange(0, i + 1) =~= prev.push(e));
            assert(prev.push(e).map_values(f) =~= prev.map_values(f).push(stts_entry_bytes(e)));
            lemma_concat_push(prev.map_values(f), stts_entry_bytes(e));
            assert(p@ =~= start + stts_entries_bytes(es@.subrange(0, i + 1)));
        }
        i += 1;
    }
    assert(es@.subrange(0, i as int) =~= es@);
}

impl Encode for SttsBox {
    open spec fn spec_encodable(&self) -> bool {
        spec_box_fits(self.spec_payload_bytes())
    }

    open spec fn spec_encoding(&self) -> Seq<u8> {
        spec_box_bytes(Self::spec_type().spec_bytes(), self.spec_payload_bytes())
    }

    fn encode_into(&self, out: &mut Vec<u8>) -> (r: Result<()>) {
        let mut p: Vec<u8> = Vec::new();
        let ghost start = p@;
        put_full_header(&mut p, 0, 0);
        put_u32(&mut p, self.entries.len() as u32);
        put_stts_entries(&mut p, self.entries.as_slice());
        assert(p@ =~= self.spec_payload_bytes());
        finish_box(out, Self::TYPE(), p)
    }
}

impl Decode for SttsBox {
    open spec fn spec_can_decode(s: Seq<u8>) -> bool {
        &&& spec_can_split(s)
        &&& spec_is_type(s, Self::spec_type().spec_bytes())
        &&& Self::spec_payload_ok(spec_payload(s))
    }

    open spec fn spec_decoded_len(s: Seq<u8>) -> int {
        spec_box_end(s)
    }

    open spec fn spec_decoded(s: Seq<u8>, v: Self) -> bool {
        Self::spec_payload_decoded(spec_payload(s), v)
    }

    fn decode(buf: &[u8]) -> (r: Result<(Self, usize)>) {
        let (header, payload) = BoxHeader::decode_typed(buf, Self::TYPE())?;
        let total = buf.len();
        assert(header.spec_external_size() + payload@.len() <= total);
        let n = header.external_size() + payload.len();
        let v = with_box_type(Self::TYPE(), Self::decode_payload(payload))?;
        Ok((v, n))
    }
}

impl BaseBox for SttsBox {
    open spec fn spec_box_type(&self) -> BoxType {
        Self::spec_type()
    }

    fn box_type(&self) -> (r: BoxType) {
        Self::TYPE()
    }
}

impl FullBox for SttsBox {
    open spec fn spec_full_box_version(&self) -> u8 {
        0
    }

    open spec fn spec_full_box_flags(&self) -> FullBoxFlags {
        FullBoxFlags::spec_new(0)
    }

    fn full_box_version(&self) -> (r: u8) {
        0
    }

    fn full_box_flags(&self) -> (r: FullBoxFlags) {
        FullBoxFlags::new(0)
    }
}

// ---------------------------------------------------------------------------
// stco and co64
// ---------------------------------------------------------------------------

/// The chunk offset box (`stco`, ISO/IEC 14496-12 ChunkOffsetBox).
#[derive(Debug, Clone)]
#[allow(missing_docs)]
pub struct StcoBox {
    pub chunk_offsets: Vec<u32>,
}

impl StcoBox {
    /// The type of the box.
    pub open spec fn spec_type() -> BoxType {
        fourcc(0x73, 0x74, 0x63, 0x6f)
    }

    /// The type of the box: `stco`.
    #[allow(non_snake_case)]
    pub fn TYPE() -> (r: BoxType)
        ensures
            r == Self::spec_type(),
    {
        BoxType::Normal([0x73, 0x74, 0x63, 0x6f])
    }

    /// The payload bytes of the box.
    pub open spec fn spec_payload_bytes(&self) -> Seq<u8> {
        full_header_bytes(0, 0) + be_u32(self.chunk_offsets@.len() as u32) + u32s_bytes(
            self.chunk_offsets@,
        )
    }

    /// Whether `p` is the payload of an `stco` box.
    pub open spec fn spec_payload_ok(p: Seq<u8>) -> bool {
        p.len() >= 8 && p.len() >= 8 + 4 * get_u32(p, 4)
    }

    /// Whether `v` is the box read from the payload `p`.
    pub open spec fn spec_payload_decoded(p: Seq<u8>, v: Self) -> bool {
        &&& v.chunk_offsets@.len() == get_u32(p, 4)
        &&& forall|i: int|
            0 <= i < v.chunk_offsets@.len() ==> #[trigger] v.chunk_offsets@[i] == get_u32(
                p,
                8 + 4 * i,
            )
    }

    fn decode_payload(p: &[u8]) -> (r: Result<Self>)
        ensures
            r is Ok <==> Self::spec_payload_ok(p@),
            r matches Ok(v) ==> Self::spec_payload_decoded(p@, v),
    {
        let mut offset: usize = 0;
        if p.len() < 8 {
            return Err(Error::insufficient_buffer());
        }
        skip_at(p, &mut offset, 4)?;
        let count = get_u32_at(p, &mut offset)?;
        let chunk_offsets = get_u32s_at(p, &mut offset, count)?;
        Ok(Self { chunk_offsets })
    }
}

impl Encode for StcoBox {
    open spec fn spec_encodable(&self) -> bool {
        spec_box_fits(self.spec_payload_bytes())
    }

    open spec fn spec_encoding(&self) -> Seq<u8> {
        spec_box_bytes(Self::spec_type().spec_bytes(), self.spec_payload_bytes())
    }

    fn encode_into(&self, out: &mut Vec<u8>) -> (r: Result<()>) {
        let mut p: Vec<u8> = Vec::new();
        put_full_header(&mut p, 0, 0);
        put_u32(&mut p, self.chunk_offsets.len() as u32);
        put_u32s(&mut p, self.chunk_offsets.as_slice());
        assert(p@ =~= self.spec_payload_bytes());
        finish_box(out, Self::TYPE(), p)
    }
}

impl Decode for StcoBox {
    open spec fn spec_can_decode(s: Seq<u8>) -> bool {
        &&& spec_can_split(s)
        &&& spec_is_type(s, Self::spec_type().spec_bytes())
        &&& Self::spec_payload_ok(spec_payload(s))
    }

    open spec fn spec_decoded_len(s: Seq<u8>) -> int {
        spec_box_end(s)
    }

    open spec fn spec_decoded(s: Seq<u8>, v: Self) -> bool {
        Self::spec_payload_decoded(spec_payload(s), v)
    }

    fn decode(buf: &[u8]) -> (r: Result<(Self, usize)>) {
        let (header, payload) = BoxHeader::decode_typed(buf, Self::TYPE())?;
        let total = buf.len();
        assert(header.spec_external_size() + payload@.len() <= total);
        let n = header.external_size() + payload.len();
        let v = with_box_type(Self::TYPE(), Self::decode_payload(payload))?;
        Ok((v, n))
    }
}

impl BaseBox for StcoBox {
    open spec fn spec_box_type(&self) -> BoxType {
        Self::spec_type()
    }

    fn box_type(&self) -> (r: BoxType) {
        Self::TYPE()
    }
}

impl FullBox for StcoBox {
    open spec fn spec_full_box_version(&self) -> u8 {
        0
    }

    open spec fn spec_full_box_flags(&self) -> FullBoxFlags {
        FullBoxFlags::spec_new(0)
    }

    fn full_box_version(&self) -> (r: u8) {
        0
    }

    fn full_box_flags(&self) -> (r: FullBoxFlags) {
        FullBoxFlags::new(0)
    }
}

/// The 64-bit chunk offset box (`co64`, ISO/IEC 14496-12 ChunkLargeOffsetBox).
#[derive(Debug, Clone)]
#[allow(missing_docs)]
pub struct Co64Box {
    pub chunk_offsets: Vec<u64>,
}

impl Co64Box {
    /// The type of the box.
    pub open spec fn spec_type() -> BoxType {
        fourcc(0x63, 0x6f, 0x36, 0x34)
    }

    /// The type of the box: `co64`.
    #[allow(non_snake_case)]
    pub fn TYPE() -> (r: BoxType)
        ensures
            r == Self::spec_type(),
    {
        BoxType::Normal([0x63, 0x6f, 0x36, 0x34])
    }

    /// The payload bytes of the box.
    pub open spec fn spec_payload_bytes(&self) -> Seq<u8> {
        full_header_bytes(0, 0) + be_u32(self.chunk_offsets@.len() as u32) + u64s_bytes(
            self.chunk_offsets@,
        )
    }

    /// Whether `p` is the payload of a `co64` box.
    pub open spec fn spec_payload_ok(p: Seq<u8>) -> bool {
        p.len() >= 8 && p.len() >= 8 + 8 * get_u32(p, 4)
    }

    /// Whether `v` is the box read from the payload `p`.
    pub open spec fn spec_payload_decoded(p: Seq<u8>, v: Self) -> bool {
        &&& v.chunk_offsets@.len() == get_u32(p, 4)
        &&& forall|i: int|
            0 <= i < v.chunk_offsets@.len() ==> #[trigger] v.chunk_offsets@[i]
                == crate::codec::get_u64(p, 8 + 8 * i)
    }

    fn decode_payload(p: &[u8]) -> (r: Result<Self>)
        ensures
            r is Ok <==> Self::spec_payload_ok(p@),
            r matches Ok(v) ==> Self::spec_payload_decoded(p@, v),
    {
        let mut offset: usize = 0;
        if p.len() < 8 {
            return Err(Error::insufficient_buffer());
        }
        skip_at(p, &mut offset, 4)?;
        let count = get_u32_at(p, &mut offset)?;
        let chunk_offsets = get_u64s_at(p, &mut offset, count)?;
        Ok(Self { chunk_offsets })
    }
}

impl Encode for Co64Box {
    open spec fn spec_encodable(&self) -> bool {
        spec_box_fits(self.spec_payload_bytes())
    }

    open spec fn spec_encoding(&self) -> Seq<u8> {
        spec_box_bytes(Self::spec_type().spec_bytes(), self.spec_payload_bytes())
    }

    fn encode_into(&self, out: &mut Vec<u8>) -> (r: Result<()>) {
        let mut p: Vec<u8> = Vec::new();
        put_full_header(&mut p, 0, 0);
        put_u32(&mut p, self.chunk_offsets.len() as u32);
        put_u64s(&mut p, self.chunk_offsets.as_slice());
        assert(p@ =~= self.spec_payload_bytes());
        finish_box(out, Self::TYPE(), p)
    }
}

impl Decode for Co64Box {
    open spec fn spec_can_decode(s: Seq<u8>) -> bool {
        &&& spec_can_split(s)
        &&& spec_is_type(s, Self::spec_type().spec_bytes())
        &&& Self::spec_payload_ok(spec_payload(s))
    }

    open spec fn spec_decoded_len(s: Seq<u8>) -> int {
        spec_box_end(s)
    }

    open spec fn spec_decoded(s: Seq<u8>, v: Self) -> bool {
        Self::spec_payload_decoded(spec_payload(s), v)
    }

    fn decode(buf: &[u8]) -> (r: Result<(Self, usize)>) {
        let (header, payload) = BoxHeader::decode_typed(buf, Self::TYPE())?;
        let total = buf.len();
        assert(header.spec_external_size() + payload@.len() <= total);
        let n = header.external_size() + payload.len();
        let v = with_box_type(Self::TYPE(), Self::decode_payload(payload))?;
        Ok((v, n))
    }
}

impl BaseBox for Co64Box {
    open spec fn spec_box_type(&self) -> BoxType {
        Self::spec_type()
    }

    fn box_type(&self) -> (r: BoxType) {
        Self::TYPE()
    }
}

impl FullBox for Co64Box {
    open spec fn spec_full_box_version(&self) -> u8 {
        0
    }

    open spec fn spec_full_box_flags(&self) -> FullBoxFlags {
        FullBoxFlags::spec_new(0)
    }

    fn full_box_version(&self) -> (r: u8) {
        0
    }

    fn full_box_flags(&self) -> (r: FullBoxFlags) {
        FullBoxFlags::new(0)
    }
}


// ---------------------------------------------------------------------------
// stsc
// ---------------------------------------------------------------------------

/// An entry of a [`StscBox`]: from `first_chunk` on, chunks hold `sample_per_chunk` samples
/// described by the sample entry at `sample_description_index`.
#[derive(Debug, Clone, Copy, PartialEq, Eq, Hash, Structural)]
#[allow(missing_docs)]
pub struct StscEntry {
    pub first_chunk: NonZeroU32,
    pub sample_per_chunk: u32,
    pub sample_description_index: NonZeroU32,
}

/// The bytes of a sample-to-chunk entry.
pub open spec fn stsc_entry_bytes(e: StscEntry) -> Seq<u8> {
    be_u32(e.first_chunk.spec_get()) + be_u32(e.sample_per_chunk) + be_u32(
        e.sample_description_index.spec_get(),
    )
}

/// The bytes of a list of sample-to-chunk entries.
pub open spec fn stsc_entries_bytes(es: Seq<StscEntry>) -> Seq<u8> {
    concat(es.map_values(|e: StscEntry| stsc_entry_bytes(e)))
}

/// The sample-to-chunk box (`stsc`, ISO/IEC 14496-12 SampleToChunkBox).
#[derive(Debug, Clone)]
#[allow(missing_docs)]
pub struct StscBox {
    pub entries: Vec<StscEntry>,
}

impl StscBox {
    /// The type of the box.
    pub open spec fn spec_type() -> BoxType {
        fourcc(0x73, 0x74, 0x73, 0x63)
    }

    /// The type of the box: `stsc`.
    #[allow(non_snake_case)]
    pub fn TYPE() -> (r: BoxType)
        ensures
            r == Self::spec_type(),
    {
        BoxType::Normal([0x73, 0x74, 0x73, 0x63])
    }

    /// The payload bytes of the box.
    pub open spec fn spec_payload_bytes(&self) -> Seq<u8> {
        full_header_bytes(0, 0) + be_u32(self.entries@.len() as u32) + stsc_entries_bytes(
            self.entries@,
        )
    }

    /// Whether `p` is the payload of an `stsc` box: whole entries whose chunk and sample
    /// description indices are not zero.
    pub open spec fn spec_payload_ok(p: Seq<u8>) -> bool {
        &&& p.len() >= 8
        &&& p.len() >= 8 + 12 * get_u32(p, 4)
        &&& forall|i: int|
            0 <= i < get_u32(p, 4) ==> #[trigger] get_u32(p, 8 + 12 * i) != 0 && get_u32(
                p,
                16 + 12 * i,
            ) != 0
    }

    /// Whether `v` is the box read from the payload `p`.
    pub open spec fn spec_payload_decoded(p: Seq<u8>, v: Self) -> bool {
        &&& v.entries@.len() == get_u32(p, 4)
        &&& forall|i: int|
            0 <= i < v.entries@.len() ==> {
                &&& (#[trigger] v.entries@[i]).first_chunk.spec_get() == get_u32(p, 8 + 12 * i)
                &&& v.entries@[i].sample_per_chunk == get_u32(p, 12 + 12 * i)
                &&& v.entries@[i].sample_description_index.spec_get() == get_u32(p, 16 + 12 * i)
            }
    }

    fn decode_payload(p: &[u8]) -> (r: Result<Self>)
        ensures
            r is Ok <==> Self::spec_payload_ok(p@),
            r matches Ok(v) ==> Self::spec_payload_decoded(p@, v),
    {
        let mut offset: usize = 0;
        if p.len() < 8 {
            return Err(Error::insufficient_buffer());
        }
        skip_at(p, &mut offset, 4)?;
        let count = get_u32_at(p, &mut offset)?;
        let mut entries: Vec<StscEntry> = Vec::new();
        let mut i: u32 = 0;
        while i < count
            invariant
                p@.len() >= 8,
                count == get_u32(p@, 4),
                i <= count,
                offset == 8 + 12 * i,
                offset <= p@.len(),
                entries@.len() == i,
                forall|k: int|
                    0 <= k < i ==> #[trigger] get_u32(p@, 8 + 12 * k) != 0 && get_u32(p@, 16 + 12 * k)
                        != 0,
                forall|k: int|
                    0 <= k < i ==> {
                        &&& (#[trigger] entries@[k]).first_chunk.spec_get() == get_u32(p@, 8 + 12 * k)
                        &&& entries@[k].sample_per_chunk == get_u32(p@, 12 + 12 * k)
                        &&& entries@[k].sample_description_index.spec_get() == get_u32(
                            p@,
                            16 + 12 * k,
                        )
                    },
            decreases count - i,
        {
            if p.len() - offset < 12 {
                return Err(Error::insufficient_buffer());
            }
            let first_chunk = get_u32_at(p, &mut offset)?;
            let sample_per_chunk = get_u32_at(p, &mut offset)?;
            let sample_description_index = get_u32_at(p, &mut offset)?;
            let first_chunk = match NonZeroU32::new(first_chunk) {
                Some(v) => v,
                None => {
                    assert(get_u32(p@, 8 + 12 * i) == 0);
                    return Err(Error::invalid_input("Expected a non-zero integer, but got 0"));
                },
            };
            let sample_description_index = match NonZeroU32::new(sample_description_index) {
                Some(v) => v,
                None => {
                    assert(get_u32(p@, 16 + 12 * i) == 0);
                    return Err(Error::invalid_input("Expected a non-zero integer, but got 0"));
                },
            };
            entries.push(StscEntry { first_chunk, sample_per_chunk, sample_description_index });
            i += 1;
        }
        Ok(Self { entries })
    }

    fn put_payload(&self, p: &mut Vec<u8>)
        ensures
            final(p)@ == old(p)@ + self.spec_payload_bytes(),
    {
        let ghost start = p@;
        put_full_header(p, 0, 0);
        put_u32(p, self.entries.len() as u32);
        let ghost head = p@;
        let mut i: usize = 0;
        while i < self.entries.len()
            invariant
                i <= self.entries@.len(),
                p@ == head + stsc_entries_bytes(self.entries@.subrange(0, i as int)),
            decreases self.entries@.len() - i,
        {
            let e = self.entries[i];
            put_u32(p, e.first_chunk.get());
            put_u32(p, e.sample_per_chunk);
            put_u32(p, e.sample_description_index.get());
            proof {
                let f = |e: StscEntry| stsc_entry_bytes(e);
                let prev = self.entries@.subrange(0, i as int);
                assert(self.entries@.subrange(0, i + 1) =~= prev.push(e));
                assert(prev.push(e).map_values(f) =~= prev.map_values(f).push(stsc_entry_bytes(e)));
                lemma_concat_push(prev.map_values(f), stsc_entry_bytes(e));
                assert(p@ =~= head + stsc_entries_bytes(self.entries@.subrange(0, i + 1)));
            }
            i += 1;
        }
        assert(self.entries@.subrange(0, i as int) =~= self.entries@);
        assert(p@ =~= start + self.spec_payload_bytes());
    }
}

impl Encode for StscBox {
    open spec fn spec_encodable(&self) -> bool {
        spec_box_fits(self.spec_payload_bytes())
    }

    open spec fn spec_encoding(&self) -> Seq<u8> {
        spec_box_bytes(Self::spec_type().spec_bytes(), self.spec_payload_bytes())
    }

    fn encode_into(&self, out: &mut Vec<u8>) -> (r: Result<()>) {
        let mut p: Vec<u8> = Vec::new();
        self.put_payload(&mut p);
        finish_box(out, Self::TYPE(), p)
    }
}

impl Decode for StscBox {
    open spec fn spec_can_decode(s: Seq<u8>) -> bool {
        &&& spec_can_split(s)
        &&& spec_is_type(s, Self::spec_type().spec_bytes())
        &&& Self::spec_payload_ok(spec_payload(s))
    }

    open spec fn spec_decoded_len(s: Seq<u8>) -> int {
        spec_box_end(s)
    }

    open spec fn spec_decoded(s: Seq<u8>, v: Self) -> bool {
        Self::spec_payload_decoded(spec_payload(s), v)
    }

    fn decode(buf: &[u8]) -> (r: Result<(Self, usize)>) {
        let (header, payload) = BoxHeader::decode_typed(buf, Self::TYPE())?;
        let total = buf.len();
        assert(header.spec_external_size() + payload@.len() <= total);
        let n = header.external_size() + payload.len();
        let v = with_box_type(Self::TYPE(), Self::decode_payload(payload))?;
        Ok((v, n))
    }
}

impl BaseBox for StscBox {
    open spec fn spec_box_type(&self) -> BoxType {
        Self::spec_type()
    }

    fn box_type(&self) -> (r: BoxType) {
        Self::TYPE()
    }
}

impl FullBox for StscBox {
    open spec fn spec_full_box_version(&self) -> u8 {
        0
    }

    open spec fn spec_full_box_flags(&self) -> FullBoxFlags {
        FullBoxFlags::spec_new(0)
    }

    fn full_box_version(&self) -> (r: u8) {
        0
    }

    fn full_box_flags(&self) -> (r: FullBoxFlags) {
        FullBoxFlags::new(0)
    }
}

// ---------------------------------------------------------------------------
// stsz
// ---------------------------------------------------------------------------

/// The sample size box (`stsz`, ISO/IEC 14496-12 SampleSizeBox).
#[derive(Debug, Clone)]
#[allow(missing_docs)]
pub enum StszBox {
    Fixed { sample_size: NonZeroU32, sample_count: u32 },
    Variable { entry_sizes: Vec<u32> },
}

impl StszBox {
    /// The type of the box.
    pub open spec fn spec_type() -> BoxType {
        fourcc(0x73, 0x74, 0x73, 0x7a)
    }

    /// The type of the box: `stsz`.
    #[allow(non_snake_case)]
    pub fn TYPE() -> (r: BoxType)
        ensures
            r == Self::spec_type(),
    {
        BoxType::Normal([0x73, 0x74, 0x73, 0x7a])
    }

    /// The payload bytes of the box.
    pub open spec fn spec_payload_bytes(&self) -> Seq<u8> {
        full_header_bytes(0, 0) + match self {
            StszBox::Fixed { sample_size, sample_count } => be_u32(sample_size.spec_get()) + be_u32(
                *sample_count,
            ),
            StszBox::Variable { entry_sizes } => be_u32(0) + be_u32(entry_sizes@.len() as u32)
                + u32s_bytes(entry_sizes@),
        }
    }

    /// Whether `p` is the payload of an `stsz` box.
    pub open spec fn spec_payload_ok(p: Seq<u8>) -> bool {
        &&& p.len() >= 12
        &&& get_u32(p, 4) == 0 ==> p.len() >= 12 + 4 * get_u32(p, 8)
    }

    /// Whether `v` is the box read from the payload `p`: one size for all samples when the size
    /// field is not zero, else a size for each sample.
    pub open spec fn spec_payload_decoded(p: Seq<u8>, v: Self) -> bool {
        if get_u32(p, 4) != 0 {
            v matches StszBox::Fixed { sample_size, sample_count } && sample_size.spec_get()
                == get_u32(p, 4) && sample_count == get_u32(p, 8)
        } else {
            v matches StszBox::Variable { entry_sizes } && entry_sizes@.len() == get_u32(p, 8) && (
            forall|i: int|
                0 <= i < entry_sizes@.len() ==> #[trigger] entry_sizes@[i] == get_u32(
                    p,
                    12 + 4 * i,
                ))
        }
    }

    fn decode_payload(p: &[u8]) -> (r: Result<Self>)
        ensures
            r is Ok <==> Self::spec_payload_ok(p@),
            r matches Ok(v) ==> Self::spec_payload_decoded(p@, v),
    {
        let mut offset: usize = 0;
        if p.len() < 12 {
            return Err(Error::insufficient_buffer());
        }
        skip_at(p, &mut offset, 4)?;
        let sample_size = get_u32_at(p, &mut offset)?;
        let sample_count = get_u32_at(p, &mut offset)?;
        match NonZeroU32::new(sample_size) {
            Some(sample_size) => Ok(StszBox::Fixed { sample_size, sample_count }),
            None => {
                let entry_sizes = get_u32s_at(p, &mut offset, sample_count)?;
                Ok(StszBox::Variable { entry_sizes })
            },
        }
    }

    fn put_payload(&self, p: &mut Vec<u8>)
        ensures
            final(p)@ == old(p)@ + self.spec_payload_bytes(),
    {
        let ghost start = p@;
        put_full_header(p, 0, 0);
        match self {
            StszBox::Fixed { sample_size, sample_count } => {
                put_u32(p, sample_size.get());
                put_u32(p, *sample_count);
            },
            StszBox::Variable { entry_sizes } => {
                put_u32(p, 0);
                put_u32(p, entry_sizes.len() as u32);
                put_u32s(p, entry_sizes.as_slice());
            },
        }
        assert(p@ =~= start + self.spec_payload_bytes());
    }
}

impl Encode for StszBox {
    open spec fn spec_encodable(&self) -> bool {
        spec_box_fits(self.spec_payload_bytes())
    }

    open spec fn spec_encoding(&self) -> Seq<u8> {
        spec_box_bytes(Self::spec_type().spec_bytes(), self.spec_payload_bytes())
    }

    fn encode_into(&self, out: &mut Vec<u8>) -> (r: Result<()>) {
        let mut p: Vec<u8> = Vec::new();
        self.put_payload(&mut p);
        finish_box(out, Self::TYPE(), p)
    }
}

impl Decode for StszBox {
    open spec fn spec_can_decode(s: Seq<u8>) -> bool {
        &&& spec_can_split(s)
        &&& spec_is_type(s, Self::spec_type().spec_bytes())
        &&& Self::spec_payload_ok(spec_payload(s))
    }

    open spec fn spec_decoded_len(s: Seq<u8>) -> int {
        spec_box_end(s)
    }

    open spec fn spec_decoded(s: Seq<u8>, v: Self) -> bool {
        Self::spec_payload_decoded(spec_payload(s), v)
    }

    fn decode(buf: &[u8]) -> (r: Result<(Self, usize)>) {
        let (header, payload) = BoxHeader::decode_typed(buf, Self::TYPE())?;
        let total = buf.len();
        assert(header.spec_external_size() + payload@.len() <= total);
        let n = header.external_size() + payload.len();
        let v = with_box_type(Self::TYPE(), Self::decode_payload(payload))?;
        Ok((v, n))
    }
}

impl BaseBox for StszBox {
    open spec fn spec_box_type(&self) -> BoxType {
        Self::spec_type()
    }

    fn box_type(&self) -> (r: BoxType) {
        Self::TYPE()
    }
}

impl FullBox for StszBox {
    open spec fn spec_full_box_version(&self) -> u8 {
        0
    }

    open spec fn spec_full_box_flags(&self) -> FullBoxFlags {
        FullBoxFlags::spec_new(0)
    }

    fn full_box_version(&self) -> (r: u8) {
        0
    }

    fn full_box_flags(&self) -> (r: FullBoxFlags) {
        FullBoxFlags::new(0)
    }
}

// ---------------------------------------------------------------------------
// stss
// ---------------------------------------------------------------------------

/// The bytes of a list of non-zero 32-bit values.
pub open spec fn nonzero_u32s_bytes(s: Seq<NonZeroU32>) -> Seq<u8> {
    u32s_bytes(s.map_values(|x: NonZeroU32| x.spec_get()))
}

/// The sync sample box (`stss`, ISO/IEC 14496-12 SyncSampleBox).
#[derive(Debug, Clone)]
#[allow(missing_docs)]
pub struct StssBox {
    pub sample_numbers: Vec<NonZeroU32>,
}

impl StssBox {
    /// The type of the box.
    pub open spec fn spec_type() -> BoxType {
        fourcc(0x73, 0x74, 0x73, 0x73)
    }

    /// The type of the box: `stss`.
    #[allow(non_snake_case)]
    pub fn TYPE() -> (r: BoxType)
        ensures
            r == Self::spec_type(),
    {
        BoxType::Normal([0x73, 0x74, 0x73, 0x73])
    }

    /// The payload bytes of the box.
    pub open spec fn spec_payload_bytes(&self) -> Seq<u8> {
        full_header_bytes(0, 0) + be_u32(self.sample_numbers@.len() as u32) + nonzero_u32s_bytes(
            self.sample_numbers@,
        )
    }

    /// Whether `p` is the payload of an `stss` box: whole sample numbers, none of them zero.
    pub open spec fn spec_payload_ok(p: Seq<u8>) -> bool {
        &&& p.len() >= 8
        &&& p.len() >= 8 + 4 * get_u32(p, 4)
        &&& forall|i: int| 0 <= i < get_u32(p, 4) ==> #[trigger] get_u32(p, 8 + 4 * i) != 0
    }

    /// Whether `v` is the box read from the payload `p`.
    pub open spec fn spec_payload_decoded(p: Seq<u8>, v: Self) -> bool {
        &&& v.sample_numbers@.len() == get_u32(p, 4)
        &&& forall|i: int|
            0 <= i < v.sample_numbers@.len() ==> (#[trigger] v.sample_numbers@[i]).spec_get()
                == get_u32(p, 8 + 4 * i)
    }

    fn decode_payload(p: &[u8]) -> (r: Result<Self>)
        ensures
            r is Ok <==> Self::spec_payload_ok(p@),
            r matches Ok(v) ==> Self::spec_payload_decoded(p@, v),
    {
        let mut offset: usize = 0;
        if p.len() < 8 {
            return Err(Error::insufficient_buffer());
        }
        skip_at(p, &mut offset, 4)?;
        let count = get_u32_at(p, &mut offset)?;
        let values = get_u32s_at(p, &mut offset, count)?;
        let mut sample_numbers: Vec<NonZeroU32> = Vec::new();
        let mut i: usize = 0;
        while i < values.len()
            invariant
                i <= values@.len(),
                values@.len() == count,
                count == get_u32(p@, 4),
                forall|k: int| 0 <= k < count ==> #[trigger] values@[k] == get_u32(p@, 8 + 4 * k),
                sample_numbers@.len() == i,
                forall|k: int|
                    0 <= k < i ==> (#[trigger] sample_numbers@[k]).spec_get() == values@[k],
                forall|k: int| 0 <= k < i ==> #[trigger] get_u32(p@, 8 + 4 * k) != 0,
            decreases values@.len() - i,
        {
            match NonZeroU32::new(values[i]) {
                Some(v) => sample_numbers.push(v),
                None => {
                    assert(get_u32(p@, 8 + 4 * i) == 0);
                    return Err(Error::invalid_input("Expected a non-zero integer, but got 0"));
                },
            }
            i += 1;
        }
        Ok(Self { sample_numbers })
    }

    fn put_payload(&self, p: &mut Vec<u8>)
        ensures
            final(p)@ == old(p)@ + self.spec_payload_bytes(),
    {
        let ghost start = p@;
        put_full_header(p, 0, 0);
        put_u32(p, self.sample_numbers.len() as u32);
        let mut values: Vec<u32> = Vec::new();
        let mut i: usize = 0;
        while i < self.sample_numbers.len()
            invariant
                i <= self.sample_numbers@.len(),
                values@ == self.sample_numbers@.subrange(0, i as int).map_values(
                    |x: NonZeroU32| x.spec_get(),
                ),
            decreases self.sample_numbers@.len() - i,
        {
            values.push(self.sample_numbers[i].get());
            i += 1;
            assert(values@ =~= self.sample_numbers@.subrange(0, i as int).map_values(
                |x: NonZeroU32| x.spec_get(),
            ));
        }
        assert(self.sample_numbers@.subrange(0, i as int) =~= self.sample_numbers@);
        put_u32s(p, values.as_slice());
        assert(p@ =~= start + self.spec_payload_bytes());
    }
}

impl Encode for StssBox {
    open spec fn spec_encodable(&self) -> bool {
        spec_box_fits(self.spec_payload_bytes())
    }

    open spec fn spec_encoding(&self) -> Seq<u8> {
        spec_box_bytes(Self::spec_type().spec_bytes(), self.spec_payload_bytes())
    }

    fn encode_into(&self, out: &mut Vec<u8>) -> (r: Result<()>) {
        let mut p: Vec<u8> = Vec::new();
        self.put_payload(&mut p);
        finish_box(out, Self::TYPE(), p)
    }
}

impl Decode for StssBox {
    open spec fn spec_can_decode(s: Seq<u8>) -> bool {
        &&& spec_can_split(s)
        &&& spec_is_type(s, Self::spec_type().spec_bytes())
        &&& Self::spec_payload_ok(spec_payload(s))
    }

    open spec fn spec_decoded_len(s: Seq<u8>) -> int {
        spec_box_end(s)
    }

    open spec fn spec_decoded(s: Seq<u8>, v: Self) -> bool {
        Self::spec_payload_decoded(spec_payload(s), v)
    }

    fn decode(buf: &[u8]) -> (r: Result<(Self, usize)>) {
        let (header, payload) = BoxHeader::decode_typed(buf, Self::TYPE())?;
        let total = buf.len();
        assert(header.spec_external_size() + payload@.len() <= total);
        let n = header.external_size() + payload.len();
        let v = with_box_type(Self::TYPE(), Self::decode_payload(payload))?;
        Ok((v, n))
    }
}

impl BaseBox for StssBox {
    open spec fn spec_box_type(&self) -> BoxType {
        Self::spec_type()
    }

    fn box_type(&self) -> (r: BoxType) {
        Self::TYPE()
    }
}

impl FullBox for StssBox {
    open spec fn spec_full_box_version(&self) -> u8 {
        0
    }

    open spec fn spec_full_box_flags(&self) -> FullBoxFlags {
        FullBoxFlags::spec_new(0)
    }

    fn full_box_version(&self) -> (r: u8) {
        0
    }

    fn full_box_flags(&self) -> (r: FullBoxFlags) {
        FullBoxFlags::new(0)
    }
}


// ---------------------------------------------------------------------------
// stsd
// ---------------------------------------------------------------------------

/// The bytes of a list of sample entries.
pub open spec fn sample_entries_bytes(es: Seq<SampleEntry>) -> Seq<u8> {
    concat(es.map_values(|e: SampleEntry| e.spec_encoding()))
}

/// The sample description box (`stsd`, ISO/IEC 14496-12 SampleDescriptionBox).
#[derive(Debug, Clone)]
#[allow(missing_docs)]
pub struct StsdBox {
    pub entries: Vec<SampleEntry>,
}

impl StsdBox {
    /// The type of the box.
    pub open spec fn spec_type() -> BoxType {
        fourcc(0x73, 0x74, 0x73, 0x64)
    }

    /// The type of the box: `stsd`.
    #[allow(non_snake_case)]
    pub fn TYPE() -> (r: BoxType)
        ensures
            r == Self::spec_type(),
    {
        BoxType::Normal([0x73, 0x74, 0x73, 0x64])
    }

    /// The payload bytes of the box.
    pub open spec fn spec_payload_bytes(&self) -> Seq<u8> {
        full_header_bytes(0, 0) + be_u32(self.entries@.len() as u32) + sample_entries_bytes(
            self.entries@,
        )
    }

    /// Whether `p` is the payload of an `stsd` box: the announced number of entries, each a
    /// whole box.
    pub open spec fn spec_payload_ok(p: Seq<u8>) -> bool {
        p.len() >= 8 && spec_boxes_split(p.skip(8), get_u32(p, 4) as nat)
    }

    /// Whether `v` is the box read from the payload `p`.
    pub open spec fn spec_payload_decoded(p: Seq<u8>, v: Self) -> bool {
        &&& v.entries@.len() == get_u32(p, 4)
        &&& forall|k: int|
            0 <= k < v.entries@.len() ==> SampleEntry::spec_decoded(
                p.skip(8).skip(spec_nth_box_offset(p.skip(8), k as nat)),
                #[trigger] v.entries@[k],
            )
    }

    fn decode_payload(p: &[u8]) -> (r: Result<Self>)
        ensures
            r is Ok <==> Self::spec_payload_ok(p@),
            r matches Ok(v) ==> Self::spec_payload_decoded(p@, v),
    {
        let mut offset: usize = 0;
        if p.len() < 8 {
            return Err(Error::insufficient_buffer());
        }
        skip_at(p, &mut offset, 4)?;
        let count = get_u32_at(p, &mut offset)?;
        let ghost q = p@.skip(8);
        let mut entries: Vec<SampleEntry> = Vec::new();
        let mut i: u32 = 0;
        while i < count
            invariant
                p@.len() >= 8,
                q == p@.skip(8),
                count == get_u32(p@, 4),
                i <= count,
                offset == 8 + spec_nth_box_offset(q, i as nat),
                spec_nth_box_offset(q, i as nat) >= 0,
                offset <= p@.len(),
                spec_boxes_split(q, i as nat),
                entries@.len() == i,
                forall|k: int|
                    0 <= k < i ==> SampleEntry::spec_decoded(
                        q.skip(spec_nth_box_offset(q, k as nat)),
                        #[trigger] entries@[k],
                    ),
            decreases count - i,
        {
            let ghost o = offset;
            assert(p@.skip(o as int) =~= q.skip(spec_nth_box_offset(q, i as nat)));
            let e = match SampleEntry::decode_at(p, &mut offset) {
                Ok(e) => e,
                Err(e) => {
                    assert(!spec_boxes_split(q, count as nat)) by {
                        assert(spec_nth_box_offset(q, i as nat) == spec_nth_box_offset(q, i as nat));
                    }
                    return Err(e);
                },
            };
            entries.push(e);
            proof {
                assert(spec_nth_box_offset(q, (i + 1) as nat) == spec_nth_box_offset(q, i as nat)
                    + spec_box_end(q.skip(spec_nth_box_offset(q, i as nat))));
                assert forall|k: nat| k < i + 1 implies 0 <= #[trigger] spec_nth_box_offset(q, k)
                    <= q.len() && spec_can_split(q.skip(spec_nth_box_offset(q, k))) by {
                    if k < i {
                        assert(spec_boxes_split(q, i as nat));
                    }
                }
            }
            i += 1;
        }
        Ok(Self { entries })
    }

    fn put_payload(&self, p: &mut Vec<u8>) -> (r: Result<()>)
        ensures
            r is Ok <==> forall|k: int|
                0 <= k < self.entries@.len() ==> (#[trigger] self.entries@[k]).spec_encodable(),
            r is Ok ==> final(p)@ == old(p)@ + self.spec_payload_bytes(),
            r matches Err(e) ==> e.kind == ErrorKind::InvalidInput,
    {
        let ghost start = p@;
        put_full_header(p, 0, 0);
        put_u32(p, self.entries.len() as u32);
        let ghost head = p@;
        let mut i: usize = 0;
        while i < self.entries.len()
            invariant
                i <= self.entries@.len(),
                p@ == head + sample_entries_bytes(self.entries@.subrange(0, i as int)),
                forall|k: int| 0 <= k < i ==> (#[trigger] self.entries@[k]).spec_encodable(),
            decreases self.entries@.len() - i,
        {
            let e = &self.entries[i];
            e.encode_into(p)?;
            proof {
                let f = |e: SampleEntry| e.spec_encoding();
                let prev = self.entries@.subrange(0, i as int);
                assert(self.entries@.subrange(0, i + 1) =~= prev.push(*e));
                assert(prev.push(*e).map_values(f) =~= prev.map_values(f).push(e.spec_encoding()));
                lemma_concat_push(prev.map_values(f), e.spec_encoding());
            }
            i += 1;
        }
        assert(self.entries@.subrange(0, i as int) =~= self.entries@);
        assert(p@ =~= start + self.spec_payload_bytes());
        Ok(())
    }
}

impl Encode for StsdBox {
    open spec fn spec_encodable(&self) -> bool {
        &&& forall|k: int|
            0 <= k < self.entries@.len() ==> (#[trigger] self.entries@[k]).spec_encodable()
        &&& spec_box_fits(self.spec_payload_bytes())
    }

    open spec fn spec_encoding(&self) -> Seq<u8> {
        spec_box_bytes(Self::spec_type().spec_bytes(), self.spec_payload_bytes())
    }

    fn encode_into(&self, out: &mut Vec<u8>) -> (r: Result<()>) {
        let mut p: Vec<u8> = Vec::new();
        self.put_payload(&mut p)?;
        finish_box(out, Self::TYPE(), p)
    }
}

impl Decode for StsdBox {
    open spec fn spec_can_decode(s: Seq<u8>) -> bool {
        &&& spec_can_split(s)
        &&& spec_is_type(s, Self::spec_type().spec_bytes())
        &&& Self::spec_payload_ok(spec_payload(s))
    }

    open spec fn spec_decoded_len(s: Seq<u8>) -> int {
        spec_box_end(s)
    }

    open spec fn spec_decoded(s: Seq<u8>, v: Self) -> bool {
        Self::spec_payload_decoded(spec_payload(s), v)
    }

    fn decode(buf: &[u8]) -> (r: Result<(Self, usize)>) {
        let (header, payload) = BoxHeader::decode_typed(buf, Self::TYPE())?;
        let total = buf.len();
        assert(header.spec_external_size() + payload@.len() <= total);
        let n = header.external_size() + payload.len();
        let v = with_box_type(Self::TYPE(), Self::decode_payload(payload))?;
        Ok((v, n))
    }
}

impl BaseBox for StsdBox {
    open spec fn spec_box_type(&self) -> BoxType {
        Self::spec_type()
    }

    fn box_type(&self) -> (r: BoxType) {
        Self::TYPE()
    }
}

impl FullBox for StsdBox {
    open spec fn spec_full_box_version(&self) -> u8 {
        0
    }

    open spec fn spec_full_box_flags(&self) -> FullBoxFlags {
        FullBoxFlags::spec_new(0)
    }

    fn full_box_version(&self) -> (r: u8) {
        0
    }

    fn full_box_flags(&self) -> (r: FullBoxFlags) {
        FullBoxFlags::new(0)
    }
}


// ---------------------------------------------------------------------------
// stbl
// ---------------------------------------------------------------------------

/// The kind of a child of an `stbl` box: `stsd`, `stts`, `stsc`, `stsz`, `stco`, `co64` and
/// `stss` are 0 to 6, other types -1.
pub open spec fn stbl_child_kind(q: Seq<u8>) -> int {
    if spec_is_type(q, StsdBox::spec_type().spec_bytes()) {
        0
    } else if spec_is_type(q, SttsBox::spec_type().spec_bytes()) {
        1
    } else if spec_is_type(q, StscBox::spec_type().spec_bytes()) {
        2
    } else if spec_is_type(q, StszBox::spec_type().spec_bytes()) {
        3
    } else if spec_is_type(q, StcoBox::spec_type().spec_bytes()) {
        4
    } else if spec_is_type(q, Co64Box::spec_type().spec_bytes()) {
        5
    } else if spec_is_type(q, StssBox::spec_type().spec_bytes()) {
        6
    } else {
        -1
    }
}

/// Whether a child of an `stbl` box of kind `k` can be read.
pub open spec fn stbl_child_ok(k: int, q: Seq<u8>) -> bool {
    if k == 0 {
        StsdBox::spec_can_decode(q)
    } else if k == 1 {
        SttsBox::spec_can_decode(q)
    } else if k == 2 {
        StscBox::spec_can_decode(q)
    } else if k == 3 {
        StszBox::spec_can_decode(q)
    } else if k == 4 {
        StcoBox::spec_can_decode(q)
    } else if k == 5 {
        Co64Box::spec_can_decode(q)
    } else {
        StssBox::spec_can_decode(q)
    }
}

/// Whether the children of an `stbl` box at the start of `q` can be read, given the kinds
/// already seen.
pub open spec fn stbl_scan(q: Seq<u8>, seen: Set<int>) -> bool {
    spec_scan_children(
        q,
        seen,
        |q: Seq<u8>| stbl_child_kind(q),
        |k: int| true,
        |k: int, q: Seq<u8>| stbl_child_ok(k, q),
        |seen: Set<int>|
            seen.contains(0) && seen.contains(1) && seen.contains(2) && seen.contains(3) && (
            seen.contains(4) || seen.contains(5)),
    )
}

/// Whether the child `q` of kind `k` of an `stbl` box is the field of `v` it is read into.
pub open spec fn stbl_child_matches(k: int, q: Seq<u8>, v: StblBox) -> bool {
    if k == 0 {
        StsdBox::spec_decoded(q, v.stsd_box)
    } else if k == 1 {
        SttsBox::spec_decoded(q, v.stts_box)
    } else if k == 2 {
        StscBox::spec_decoded(q, v.stsc_box)
    } else if k == 3 {
        StszBox::spec_decoded(q, v.stsz_box)
    } else if k == 4 {
        v.stco_or_co64_box matches Either::A(b) && StcoBox::spec_decoded(q, b)
    } else if k == 5 {
        v.stco_or_co64_box matches Either::B(b) ==> Co64Box::spec_decoded(q, b)
    } else {
        v.stss_box matches Some(b) && StssBox::spec_decoded(q, b)
    }
}

/// Whether `v` is what reading the children of an `stbl` box at the start of `q` gives,
/// walking them box by box: the first child of each known kind is read into its field (an
/// `stco` child wins over a `co64` one), every other child is the next unknown box (from
/// position `u` on); `seen` holds the kinds read before `q`.
pub open spec fn stbl_walk(q: Seq<u8>, seen: Set<int>, u: int, v: StblBox) -> bool
    decreases q.len(),
{
    if q.len() == 0 {
        &&& u == v.unknown_boxes@.len()
        &&& (v.stco_or_co64_box is A <==> seen.contains(4))
        &&& (v.stss_box is Some <==> seen.contains(6))
    } else if !spec_can_split(q) || spec_box_end(q) <= 0 {
        false
    } else {
        let k = stbl_child_kind(q);
        if k >= 0 && !seen.contains(k) {
            &&& stbl_child_matches(k, q, v)
            &&& stbl_walk(q.skip(spec_box_end(q)), seen.insert(k), u, v)
        } else {
            &&& 0 <= u < v.unknown_boxes@.len()
            &&& UnknownBox::spec_decoded(q, v.unknown_boxes@[u])
            &&& stbl_walk(q.skip(spec_box_end(q)), seen, u + 1, v)
        }
    }
}

/// Whether `v` holds the children read so far: each one read, and the unknown boxes so far.
pub open spec fn stbl_agrees(
    v: StblBox,
    stsd: Option<StsdBox>,
    stts: Option<SttsBox>,
    stsc: Option<StscBox>,
    stsz: Option<StszBox>,
    stco: Option<StcoBox>,
    co64: Option<Co64Box>,
    stss: Option<StssBox>,
    unknown: Seq<UnknownBox>,
) -> bool {
    &&& stsd matches Some(b) ==> v.stsd_box == b
    &&& stts matches Some(b) ==> v.stts_box == b
    &&& stsc matches Some(b) ==> v.stsc_box == b
    &&& stsz matches Some(b) ==> v.stsz_box == b
    &&& stco matches Some(b) ==> v.stco_or_co64_box == Either::<StcoBox, Co64Box>::A(b)
    &&& co64 matches Some(b) ==> (v.stco_or_co64_box is B ==> v.stco_or_co64_box == Either::<StcoBox, Co64Box>::B(b))
    &&& stss matches Some(b) ==> v.stss_box == Some(b)
    &&& unknown.len() <= v.unknown_boxes@.len()
    &&& forall|j: int| 0 <= j < unknown.len() ==> v.unknown_boxes@[j] == #[trigger] unknown[j]
}

/// The sample table box (`stbl`, ISO/IEC 14496-12 SampleTableBox).
#[derive(Debug, Clone)]
#[allow(missing_docs)]
pub struct StblBox {
    pub stsd_box: StsdBox,
    pub stts_box: SttsBox,
    pub stsc_box: StscBox,
    pub stsz_box: StszBox,
    pub stco_or_co64_box: Either<StcoBox, Co64Box>,
    pub stss_box: Option<StssBox>,
    pub unknown_boxes: Vec<UnknownBox>,
}

/// The bytes of a list of unknown boxes.
pub open spec fn unknown_boxes_bytes(bs: Seq<UnknownBox>) -> Seq<u8> {
    concat(bs.map_values(|b: UnknownBox| b.spec_encoding()))
}

/// Appends a list of unknown boxes.
pub(crate) fn put_unknown_boxes(p: &mut Vec<u8>, bs: &[UnknownBox])
    ensures
        final(p)@ == old(p)@ + unknown_boxes_bytes(bs@),
{
    let ghost start = p@;
    let mut i: usize = 0;
    while i < bs.len()
        invariant
            i <= bs@.len(),
            p@ == start + unknown_boxes_bytes(bs@.subrange(0, i as int)),
        decreases bs@.len() - i,
    {
        let b = &bs[i];
        let _ = b.encode_into(p);
        proof {
            let f = |b: UnknownBox| b.spec_encoding();
            let prev = bs@.subrange(0, i as int);
            assert(bs@.subrange(0, i + 1) =~= prev.push(*b));
            assert(prev.push(*b).map_values(f) =~= prev.map_values(f).push(b.spec_encoding()));
            lemma_concat_push(prev.map_values(f), b.spec_encoding());
        }
        i += 1;
    }
    assert(bs@.subrange(0, i as int) =~= bs@);
}

impl StblBox {
    /// The type of the box.
    pub open spec fn spec_type() -> BoxType {
        fourcc(0x73, 0x74, 0x62, 0x6c)
    }

    /// The type of the box: `stbl`.
    #[allow(non_snake_case)]
    pub fn TYPE() -> (r: BoxType)
        ensures
            r == Self::spec_type(),
    {
        BoxType::Normal([0x73, 0x74, 0x62, 0x6c])
    }

    /// Whether all children can be encoded.
    pub open spec fn spec_children_encodable(&self) -> bool {
        &&& self.stsd_box.spec_encodable()
        &&& self.stts_box.spec_encodable()
        &&& self.stsc_box.spec_encodable()
        &&& self.stsz_box.spec_encodable()
        &&& match self.stco_or_co64_box {
            Either::A(b) => b.spec_encodable(),
            Either::B(b) => b.spec_encodable(),
        }
        &&& match self.stss_box {
            Some(b) => b.spec_encodable(),
            None => true,
        }
    }

    /// The payload bytes of the box: the children in a fixed order.
    pub open spec fn spec_payload_bytes(&self) -> Seq<u8> {
        self.stsd_box.spec_encoding() + self.stts_box.spec_encoding()
            + self.stsc_box.spec_encoding() + self.stsz_box.spec_encoding() + match self.stco_or_co64_box {
            Either::A(b) => b.spec_encoding(),
            Either::B(b) => b.spec_encoding(),
        } + match self.stss_box {
            Some(b) => b.spec_encoding(),
            None => Seq::empty(),
        } + unknown_boxes_bytes(self.unknown_boxes@)
    }

    /// Whether `p` is the payload of an `stbl` box.
    pub open spec fn spec_payload_ok(p: Seq<u8>) -> bool {
        stbl_scan(p, Set::empty())
    }

    /// Whether `v` is the box read from the payload `p`: the children, walked box by box, as
    /// [`stbl_walk`] says.
    pub open spec fn spec_payload_decoded(p: Seq<u8>, v: Self) -> bool {
        stbl_walk(p, Set::empty(), 0, v)
    }

    #[verifier::spinoff_prover]
    #[verifier::rlimit(40)]
    fn put_payload(&self, p: &mut Vec<u8>) -> (r: Result<()>)
        ensures
            r is Ok <==> self.spec_children_encodable(),
            r is Ok ==> final(p)@ == old(p)@ + self.spec_payload_bytes(),
            r matches Err(e) ==> e.kind == ErrorKind::InvalidInput,
    {
        let ghost start = p@;
        self.stsd_box.encode_into(p)?;
        self.stts_box.encode_into(p)?;
        self.stsc_box.encode_into(p)?;
        self.stsz_box.encode_into(p)?;
        let ghost mid = p@;
        assert(mid =~= start + (self.stsd_box.spec_encoding() + self.stts_box.spec_encoding()
            + self.stsc_box.spec_encoding() + self.stsz_box.spec_encoding()));
        match &self.stco_or_co64_box {
            Either::A(b) => b.encode_into(p)?,
            Either::B(b) => b.encode_into(p)?,
        }
        match &self.stss_box {
            Some(b) => b.encode_into(p)?,
            None => {},
        }
        put_unknown_boxes(p, self.unknown_boxes.as_slice());
        assert(p@ =~= start + self.spec_payload_bytes());
        Ok(())
    }

    #[verifier::spinoff_prover]
    #[verifier::rlimit(40)]
    fn decode_payload(p: &[u8]) -> (r: Result<Self>)
        ensures
            r is Ok <==> Self::spec_payload_ok(p@),
            r matches Ok(v) ==> Self::spec_payload_decoded(p@, v),
    {
        let mut offset: usize = 0;
        let mut stsd_box: Option<StsdBox> = None;
        let mut stts_box: Option<SttsBox> = None;
        let mut stsc_box: Option<StscBox> = None;
        let mut stsz_box: Option<StszBox> = None;
        let mut stco_box: Option<StcoBox> = None;
        let mut co64_box: Option<Co64Box> = None;
        let mut stss_box: Option<StssBox> = None;
        let mut unknown_boxes: Vec<UnknownBox> = Vec::new();
        let ghost mut seen: Set<int> = Set::empty();
        assert(p@.skip(0) =~= p@);
        while offset < p.len()
            invariant
                offset <= p@.len(),
                stbl_scan(p@, Set::empty()) == stbl_scan(p@.skip(offset as int), seen),
                stsd_box is Some <==> seen.contains(0),
                stts_box is Some <==> seen.contains(1),
                stsc_box is Some <==> seen.contains(2),
                stsz_box is Some <==> seen.contains(3),
                stco_box is Some <==> seen.contains(4),
                co64_box is Some <==> seen.contains(5),
                stss_box is Some <==> seen.contains(6),
                forall|v: StblBox|
                    #[trigger] stbl_agrees(v, stsd_box, stts_box, stsc_box, stsz_box, stco_box, co64_box, stss_box, unknown_boxes@)
                        ==> (stbl_walk(p@, Set::empty(), 0, v) == stbl_walk(
                        p@.skip(offset as int),
                        seen,
                        unknown_boxes@.len() as int,
                        v,
                    )),
            decreases p@.len() - offset,
        {
            let ghost o = offset as int;
            let ghost q = p@.skip(o);
            let ghost seen0 = seen;
            let ghost (a0, b0, c0, d0, e0, f0, g0, u0) = (stsd_box, stts_box, stsc_box, stsz_box, stco_box, co64_box, stss_box, unknown_boxes@);
            let ty = peek_box_type(p, offset)?;
            let ghost k = stbl_child_kind(q);
            proof {
                reveal_with_fuel(spec_scan_children, 1);
            }
            if ty.is_same(&StsdBox::TYPE()) && stsd_box.is_none() {
                let b = StsdBox::decode_at(p, &mut offset)?;
                assert(StsdBox::spec_decoded(p@.skip(o), b));
                stsd_box = Some(b);
                proof { seen = seen.insert(0); }
            } else if ty.is_same(&SttsBox::TYPE()) && stts_box.is_none() {
                let b = SttsBox::decode_at(p, &mut offset)?;
                assert(SttsBox::spec_decoded(p@.skip(o), b));
                stts_box = Some(b);
                proof { seen = seen.insert(1); }
            } else if ty.is_same(&StscBox::TYPE()) && stsc_box.is_none() {
                let b = StscBox::decode_at(p, &mut offset)?;
                assert(StscBox::spec_decoded(p@.skip(o), b));
                stsc_box = Some(b);
                proof { seen = seen.insert(2); }
            } else if ty.is_same(&StszBox::TYPE()) && stsz_box.is_none() {
                let b = StszBox::decode_at(p, &mut offset)?;
                assert(StszBox::spec_decoded(p@.skip(o), b));
                stsz_box = Some(b);
                proof { seen = seen.insert(3); }
            } else if ty.is_same(&StcoBox::TYPE()) && stco_box.is_none() {
                let b = StcoBox::decode_at(p, &mut offset)?;
                assert(StcoBox::spec_decoded(p@.skip(o), b));
                stco_box = Some(b);
                proof { seen = seen.insert(4); }
            } else if ty.is_same(&Co64Box::TYPE()) && co64_box.is_none() {
                let b = Co64Box::decode_at(p, &mut offset)?;
                assert(Co64Box::spec_decoded(p@.skip(o), b));
                co64_box = Some(b);
                proof { seen = seen.insert(5); }
            } else if ty.is_same(&StssBox::TYPE()) && stss_box.is_none() {
                let b = StssBox::decode_at(p, &mut offset)?;
                assert(StssBox::spec_decoded(p@.skip(o), b));
                stss_box = Some(b);
                proof { seen = seen.insert(6); }
            } else {
                let b = UnknownBox::decode_at(p, &mut offset)?;
                assert(UnknownBox::spec_decoded(p@.skip(o), b));
                unknown_boxes.push(b);
            }
            assert(p@.skip(offset as int) =~= q.skip(spec_box_end(q)));
            proof {
                assert forall|v: StblBox|
                    #[trigger] stbl_agrees(v, stsd_box, stts_box, stsc_box, stsz_box, stco_box, co64_box, stss_box, unknown_boxes@)
                    implies (stbl_walk(p@, Set::empty(), 0, v) == stbl_walk(
                    p@.skip(offset as int),
                    seen,
                    unknown_boxes@.len() as int,
                    v,
                )) by {
                    assert(stbl_agrees(v, a0, b0, c0, d0, e0, f0, g0, u0)) by {
                        assert forall|j: int| 0 <= j < u0.len() implies v.unknown_boxes@[j] == #[trigger] u0[j] by {
                            assert(u0[j] == unknown_boxes@[j]);
                        }
                    }
                    if k < 0 || seen0.contains(k) {
                        assert(unknown_boxes@[u0.len() as int] == unknown_boxes@.last());
                    }
                }
            }
        }
        let stco_or_co64_box = match stco_box {
            Some(b) => Either::A(b),
            None => match co64_box {
                Some(b) => Either::B(b),
                None => {
                    return Err(Error::invalid_data("Missing mandatory 'stco' or 'co64' box"));
                },
            },
        };
        let ghost unknown_view = unknown_boxes@;
        let ghost (a1, b1, c1, d1, e1, f1, g1) = (stsd_box, stts_box, stsc_box, stsz_box, stco_box, co64_box, stss_box);
        let v = Self {
            stsd_box: check_mandatory_box(stsd_box, "stsd", "stbl")?,
            stts_box: check_mandatory_box(stts_box, "stts", "stbl")?,
            stsc_box: check_mandatory_box(stsc_box, "stsc", "stbl")?,
            stsz_box: check_mandatory_box(stsz_box, "stsz", "stbl")?,
            stco_or_co64_box,
            stss_box,
            unknown_boxes,
        };
        proof {
            assert(stbl_agrees(v, a1, b1, c1, d1, e1, f1, g1, unknown_view));
            assert(p@.skip(offset as int) =~= Seq::<u8>::empty());
        }
        Ok(v)
    }
}

impl Encode for StblBox {
    open spec fn spec_encodable(&self) -> bool {
        self.spec_children_encodable() && spec_box_fits(self.spec_payload_bytes())
    }

    open spec fn spec_encoding(&self) -> Seq<u8> {
        spec_box_bytes(Self::spec_type().spec_bytes(), self.spec_payload_bytes())
    }

    fn encode_into(&self, out: &mut Vec<u8>) -> (r: Result<()>) {
        let mut p: Vec<u8> = Vec::new();
        self.put_payload(&mut p)?;
        finish_box(out, Self::TYPE(), p)
    }
}

impl Decode for StblBox {
    open spec fn spec_can_decode(s: Seq<u8>) -> bool {
        &&& spec_can_split(s)
        &&& spec_is_type(s, Self::spec_type().spec_bytes())
        &&& Self::spec_payload_ok(spec_payload(s))
    }

    open spec fn spec_decoded_len(s: Seq<u8>) -> int {
        spec_box_end(s)
    }

    open spec fn spec_decoded(s: Seq<u8>, v: Self) -> bool {
        Self::spec_payload_decoded(spec_payload(s), v)
    }

    fn decode(buf: &[u8]) -> (r: Result<(Self, usize)>) {
        let (header, payload) = BoxHeader::decode_typed(buf, Self::TYPE())?;
        let total = buf.len();
        assert(header.spec_external_size() + payload@.len() <= total);
        let n = header.external_size() + payload.len();
        let v = with_box_type(Self::TYPE(), Self::decode_payload(payload))?;
        Ok((v, n))
    }
}

impl BaseBox for StblBox {
    open spec fn spec_box_type(&self) -> BoxType {
        Self::spec_type()
    }

    fn box_type(&self) -> (r: BoxType) {
        Self::TYPE()
    }
}


// ---------------------------------------------------------------------------
// Shared layouts
// ---------------------------------------------------------------------------

/// Whether times or a duration need the 64-bit layout (version 1) of a header box.
pub open spec fn needs_v1(creation: u64, modification: u64, duration: u64) -> bool {
    creation > u32::MAX || modification > u32::MAX || duration > u32::MAX
}

/// `n` zero bytes.
pub open spec fn zeros(n: nat) -> Seq<u8> {
    Seq::new(n, |_i: int| 0u8)
}

/// The bytes of a transformation matrix.
pub open spec fn matrix_bytes(m: Seq<i32>) -> Seq<u8> {
    concat(m.map_values(|x: i32| be_u32(i32_bits(x))))
}

/// Appends a transformation matrix.
fn put_matrix(p: &mut Vec<u8>, m: &[i32; 9])
    ensures
        final(p)@ == old(p)@ + matrix_bytes(m@),
{
    let ghost start = p@;
    let mut i: usize = 0;
    while i < 9
        invariant
            i <= 9,
            m@.len() == 9,
            p@ == start + matrix_bytes(m@.subrange(0, i as int)),
        decreases 9 - i,
    {
        put_i32(p, m[i]);
        proof {
            let f = |x: i32| be_u32(i32_bits(x));
            let prev = m@.subrange(0, i as int);
            assert(m@.subrange(0, i + 1) =~= prev.push(m@[i as int]));
            assert(prev.push(m@[i as int]).map_values(f) =~= prev.map_values(f).push(
                be_u32(i32_bits(m@[i as int])),
            ));
            lemma_concat_push(prev.map_values(f), be_u32(i32_bits(m@[i as int])));
        }
        i += 1;
    }
    assert(m@.subrange(0, 9) =~= m@);
}

/// Reads a transformation matrix at the offset.
fn get_matrix_at(p: &[u8], offset: &mut usize) -> (r: Result<[i32; 9]>)
    requires
        *old(offset) <= p@.len(),
    ensures
        r is Ok <==> *old(offset) + 36 <= p@.len(),
        r matches Ok(m) ==> *final(offset) == *old(offset) + 36 && forall|k: int|
            0 <= k < 9 ==> #[trigger] m@[k] == i32_of(get_u32(p@, *old(offset) + 4 * k)),
{
    let ghost o = *offset;
    if p.len() - *offset < 36 {
        return Err(Error::insufficient_buffer());
    }
    let mut m: [i32; 9] = [0; 9];
    let mut i: usize = 0;
    while i < 9
        invariant
            i <= 9,
            o == *old(offset),
            o + 36 <= p@.len(),
            *offset == o + 4 * i,
            forall|k: int| 0 <= k < i ==> #[trigger] m@[k] == i32_of(get_u32(p@, o + 4 * k)),
        decreases 9 - i,
    {
        let v = get_i32_at(p, offset)?;
        m[i] = v;
        i += 1;
    }
    Ok(m)
}

// ---------------------------------------------------------------------------
// mvhd
// ---------------------------------------------------------------------------

/// The movie header box (`mvhd`, ISO/IEC 14496-12 MovieHeaderBox).
#[derive(Debug, Clone)]
#[allow(missing_docs)]
pub struct MvhdBox {
    pub creation_time: Mp4FileTime,
    pub modification_time: Mp4FileTime,
    pub timescale: NonZeroU32,
    pub duration: u64,
    pub rate: FixedPointNumber<i16, u16>,
    pub volume: FixedPointNumber<i8, u8>,
    pub matrix: [i32; 9],
    pub next_track_id: u32,
}

/// The offset of the fields after the times in an `mvhd` payload of the given version.
pub open spec fn mvhd_base(version: u8) -> int {
    if version == 1 {
        32
    } else {
        20
    }
}

impl MvhdBox {
    /// The type of the box.
    pub open spec fn spec_type() -> BoxType {
        fourcc(0x6d, 0x76, 0x68, 0x64)
    }

    /// The type of the box: `mvhd`.
    #[allow(non_snake_case)]
    pub fn TYPE() -> (r: BoxType)
        ensures
            r == Self::spec_type(),
    {
        BoxType::Normal([0x6d, 0x76, 0x68, 0x64])
    }

    /// The default rate: normal playback.
    #[allow(non_snake_case)]
    pub fn DEFAULT_RATE() -> (r: FixedPointNumber<i16, u16>)
        ensures
            r.integer == 1 && r.fraction == 0,
    {
        FixedPointNumber::new(1, 0)
    }

    /// The default volume: full.
    #[allow(non_snake_case)]
    pub fn DEFAULT_VOLUME() -> (r: FixedPointNumber<i8, u8>)
        ensures
            r.integer == 1 && r.fraction == 0,
    {
        FixedPointNumber::new(1, 0)
    }

    /// The default transformation matrix: the identity.
    #[allow(non_snake_case)]
    pub fn DEFAULT_MATRIX() -> (r: [i32; 9])
        ensures
            r@ == seq![0x10000i32, 0, 0, 0, 0x10000, 0, 0, 0, 0x40000000],
    {
        [0x00010000, 0, 0, 0, 0x00010000, 0, 0, 0, 0x40000000]
    }

    /// The version of the box: 1 when a time or the duration needs 64 bits.
    pub open spec fn spec_version(&self) -> u8 {
        if needs_v1(self.creation_time.spec_secs(), self.modification_time.spec_secs(), self.duration) {
            1
        } else {
            0
        }
    }

    /// The payload bytes of the box.
    #[verifier::opaque]
    pub open spec fn spec_payload_bytes(&self) -> Seq<u8> {
        full_header_bytes(self.spec_version(), 0) + (if self.spec_version() == 1 {
            be_u64(self.creation_time.spec_secs()) + be_u64(self.modification_time.spec_secs())
                + be_u32(self.timescale.spec_get()) + be_u64(self.duration)
        } else {
            be_u32(self.creation_time.spec_secs() as u32) + be_u32(
                self.modification_time.spec_secs() as u32,
            ) + be_u32(self.timescale.spec_get()) + be_u32(self.duration as u32)
        }) + be_u16(i16_bits(self.rate.integer)) + be_u16(self.rate.fraction) + seq![
            i8_bits(self.volume.integer),
            self.volume.fraction,
        ] + zeros(10) + matrix_bytes(self.matrix@) + zeros(24) + be_u32(self.next_track_id)
    }

    /// Whether `p` is the payload of an `mvhd` box: all fields present and a non-zero
    /// timescale.
    pub open spec fn spec_payload_ok(p: Seq<u8>) -> bool {
        &&& p.len() >= 4
        &&& p.len() >= mvhd_base(p[0]) + 80
        &&& get_u32(p, mvhd_base(p[0]) - 12 + (if p[0] == 1 { 0int } else { 4 })) != 0
    }

    /// Whether `v` is the box read from the payload `p`.
    pub open spec fn spec_payload_decoded(p: Seq<u8>, v: Self) -> bool {
        let b = mvhd_base(p[0]);
        &&& if p[0] == 1 {
            &&& v.creation_time.spec_secs() == get_u64(p, 4)
            &&& v.modification_time.spec_secs() == get_u64(p, 12)
            &&& v.timescale.spec_get() == get_u32(p, 20)
            &&& v.duration == get_u64(p, 24)
        } else {
            &&& v.creation_time.spec_secs() == get_u32(p, 4)
            &&& v.modification_time.spec_secs() == get_u32(p, 8)
            &&& v.timescale.spec_get() == get_u32(p, 12)
            &&& v.duration == get_u32(p, 16)
        }
        &&& v.rate.integer == i16_of(get_u16(p, b))
        &&& v.rate.fraction == get_u16(p, b + 2)
        &&& v.volume.integer == i8_of(p[b + 4])
        &&& v.volume.fraction == p[b + 5]
        &&& forall|k: int| 0 <= k < 9 ==> #[trigger] v.matrix@[k] == i32_of(get_u32(p, b + 16 + 4 * k))
        &&& v.next_track_id == get_u32(p, b + 76)
    }

    fn put_payload(&self, p: &mut Vec<u8>)
        ensures
            final(p)@ == old(p)@ + self.spec_payload_bytes(),
    {
        let ghost start = p@;
        reveal(MvhdBox::spec_payload_bytes);
        let version = self.full_box_version();
        put_full_header(p, version, 0);
        if version == 1 {
            put_u64(p, self.creation_time.as_secs());
            put_u64(p, self.modification_time.as_secs());
            put_u32(p, self.timescale.get());
            put_u64(p, self.duration);
        } else {
            put_u32(p, self.creation_time.as_secs() as u32);
            put_u32(p, self.modification_time.as_secs() as u32);
            put_u32(p, self.timescale.get());
            put_u32(p, self.duration as u32);
        }
        put_i16(p, self.rate.integer);
        put_u16(p, self.rate.fraction);
        put_i8(p, self.volume.integer);
        put_u8(p, self.volume.fraction);
        put_zeros(p, 10);
        put_matrix(p, &self.matrix);
        put_zeros(p, 24);
        put_u32(p, self.next_track_id);
        assert(p@ =~= start + self.spec_payload_bytes());
    }

    #[verifier::spinoff_prover]
    #[verifier::rlimit(30)]
    fn decode_payload(p: &[u8]) -> (r: Result<Self>)
        ensures
            r is Ok <==> Self::spec_payload_ok(p@),
            r matches Ok(v) ==> Self::spec_payload_decoded(p@, v),
    {
        if p.len() < 4 {
            return Err(Error::insufficient_buffer());
        }
        let version = p[0];
        let mut offset: usize = 4;
        let (creation_time, modification_time, timescale, duration) = if version == 1 {
            let c = get_u64_at(p, &mut offset)?;
            let m = get_u64_at(p, &mut offset)?;
            let t = get_u32_at(p, &mut offset)?;
            let d = get_u64_at(p, &mut offset)?;
            (c, m, t, d)
        } else {
            let c = get_u32_at(p, &mut offset)?;
            let m = get_u32_at(p, &mut offset)?;
            let t = get_u32_at(p, &mut offset)?;
            let d = get_u32_at(p, &mut offset)?;
            (c as u64, m as u64, t, d as u64)
        };
        assert(offset == mvhd_base(version));
        let rate_integer = get_i16_at(p, &mut offset)?;
        let rate_fraction = get_u16_at(p, &mut offset)?;
        let volume_integer = get_i8_at(p, &mut offset)?;
        let volume_fraction = get_u8_at(p, &mut offset)?;
        skip_at(p, &mut offset, 10)?;
        let matrix = get_matrix_at(p, &mut offset)?;
        skip_at(p, &mut offset, 24)?;
        let next_track_id = get_u32_at(p, &mut offset)?;
        let timescale = match NonZeroU32::new(timescale) {
            Some(t) => t,
            None => {
                return Err(Error::invalid_input("Expected a non-zero integer, but got 0"));
            },
        };
        Ok(
            Self {
                creation_time: Mp4FileTime::from_secs(creation_time),
                modification_time: Mp4FileTime::from_secs(modification_time),
                timescale,
                duration,
                rate: FixedPointNumber::new(rate_integer, rate_fraction),
                volume: FixedPointNumber::new(volume_integer, volume_fraction),
                matrix,
                next_track_id,
            },
        )
    }
}

impl Encode for MvhdBox {
    open spec fn spec_encodable(&self) -> bool {
        spec_box_fits(self.spec_payload_bytes())
    }

    open spec fn spec_encoding(&self) -> Seq<u8> {
        spec_box_bytes(Self::spec_type().spec_bytes(), self.spec_payload_bytes())
    }

    fn encode_into(&self, out: &mut Vec<u8>) -> (r: Result<()>) {
        let mut p: Vec<u8> = Vec::new();
        self.put_payload(&mut p);
        finish_box(out, Self::TYPE(), p)
    }
}

impl Decode for MvhdBox {
    open spec fn spec_can_decode(s: Seq<u8>) -> bool {
        &&& spec_can_split(s)
        &&& spec_is_type(s, Self::spec_type().spec_bytes())
        &&& Self::spec_payload_ok(spec_payload(s))
    }

    open spec fn spec_decoded_len(s: Seq<u8>) -> int {
        spec_box_end(s)
    }

    open spec fn spec_decoded(s: Seq<u8>, v: Self) -> bool {
        Self::spec_payload_decoded(spec_payload(s), v)
    }

    fn decode(buf: &[u8]) -> (r: Result<(Self, usize)>) {
        let (header, payload) = BoxHeader::decode_typed(buf, Self::TYPE())?;
        let total = buf.len();
        assert(header.spec_external_size() + payload@.len() <= total);
        let n = header.external_size() + payload.len();
        let v = with_box_type(Self::TYPE(), Self::decode_payload(payload))?;
        Ok((v, n))
    }
}

impl BaseBox for MvhdBox {
    open spec fn spec_box_type(&self) -> BoxType {
        Self::spec_type()
    }

    fn box_type(&self) -> (r: BoxType) {
        Self::TYPE()
    }
}

impl FullBox for MvhdBox {
    open spec fn spec_full_box_version(&self) -> u8 {
        self.spec_version()
    }

    open spec fn spec_full_box_flags(&self) -> FullBoxFlags {
        FullBoxFlags::spec_new(0)
    }

    fn full_box_version(&self) -> (r: u8) {
        let large = self.creation_time.as_secs() > 0xffff_ffff || self.modification_time.as_secs()
            > 0xffff_ffff || self.duration > 0xffff_ffff;
        assert(large == needs_v1(
            self.creation_time.spec_secs(),
            self.modification_time.spec_secs(),
            self.duration,
        ));
        let r: u8 = if large {
            1
        } else {
            0
        };
        assert(r == self.spec_version());
        assert(r == self.spec_full_box_version());
        r
    }

    fn full_box_flags(&self) -> (r: FullBoxFlags) {
        FullBoxFlags::new(0)
    }
}


// ---------------------------------------------------------------------------
// tkhd
// ---------------------------------------------------------------------------

/// The track header box (`tkhd`, ISO/IEC 14496-12 TrackHeaderBox).
#[derive(Debug, Clone)]
#[allow(missing_docs)]
pub struct TkhdBox {
    pub flag_track_enabled: bool,
    pub flag_track_in_movie: bool,
    pub flag_track_in_preview: bool,
    pub flag_track_size_is_aspect_ratio: bool,
    pub creation_time: Mp4FileTime,
    pub modification_time: Mp4FileTime,
    pub track_id: u32,
    pub duration: u64,
    pub layer: i16,
    pub alternate_group: i16,
    pub volume: FixedPointNumber<i8, u8>,
    pub matrix: [i32; 9],
    pub width: FixedPointNumber<i16, u16>,
    pub height: FixedPointNumber<i16, u16>,
}

/// The offset of the fields after the times in a `tkhd` payload of the given version.
pub open spec fn tkhd_base(version: u8) -> int {
    if version == 1 {
        36
    } else {
        24
    }
}

/// The value of a flag bit of the flags at the start of a full box payload.
pub open spec fn payload_flag(p: Seq<u8>, bit: int) -> bool {
    (((get_u32(p, 0) % 0x100_0000) as int) / (if bit == 0 {
        1int
    } else if bit == 1 {
        2
    } else if bit == 2 {
        4
    } else {
        8
    })) % 2 == 1
}

impl TkhdBox {
    /// The type of the box.
    pub open spec fn spec_type() -> BoxType {
        fourcc(0x74, 0x6b, 0x68, 0x64)
    }

    /// The type of the box: `tkhd`.
    #[allow(non_snake_case)]
    pub fn TYPE() -> (r: BoxType)
        ensures
            r == Self::spec_type(),
    {
        BoxType::Normal([0x74, 0x6b, 0x68, 0x64])
    }

    /// The default layer.
    #[allow(non_snake_case)]
    pub fn DEFAULT_LAYER() -> (r: i16)
        ensures
            r == 0,
    {
        0
    }

    /// The default alternate group.
    #[allow(non_snake_case)]
    pub fn DEFAULT_ALTERNATE_GROUP() -> (r: i16)
        ensures
            r == 0,
    {
        0
    }

    /// The default volume of an audio track: full.
    #[allow(non_snake_case)]
    pub fn DEFAULT_AUDIO_VOLUME() -> (r: FixedPointNumber<i8, u8>)
        ensures
            r.integer == 1 && r.fraction == 0,
    {
        FixedPointNumber::new(1, 0)
    }

    /// The default volume of a video track: silent.
    #[allow(non_snake_case)]
    pub fn DEFAULT_VIDEO_VOLUME() -> (r: FixedPointNumber<i8, u8>)
        ensures
            r.integer == 0 && r.fraction == 0,
    {
        FixedPointNumber::new(0, 0)
    }

    /// The default transformation matrix: the identity.
    #[allow(non_snake_case)]
    pub fn DEFAULT_MATRIX() -> (r: [i32; 9])
        ensures
            r@ == seq![0x10000i32, 0, 0, 0, 0x10000, 0, 0, 0, 0x40000000],
    {
        [0x00010000, 0, 0, 0, 0x00010000, 0, 0, 0, 0x40000000]
    }

    /// The version of the box: 1 when a time or the duration needs 64 bits.
    pub open spec fn spec_version(&self) -> u8 {
        if needs_v1(self.creation_time.spec_secs(), self.modification_time.spec_secs(), self.duration) {
            1
        } else {
            0
        }
    }

    /// The flags of the box: bits 0 to 3 are the four flag fields.
    pub open spec fn spec_flags(&self) -> u32 {
        ((if self.flag_track_enabled {
            1int
        } else {
            0
        }) + (if self.flag_track_in_movie {
            2int
        } else {
            0
        }) + (if self.flag_track_in_preview {
            4int
        } else {
            0
        }) + (if self.flag_track_size_is_aspect_ratio {
            8int
        } else {
            0
        })) as u32
    }

    /// The payload bytes of the box.
    #[verifier::opaque]
    pub open spec fn spec_payload_bytes(&self) -> Seq<u8> {
        full_header_bytes(self.spec_version(), self.spec_flags()) + (if self.spec_version() == 1 {
            be_u64(self.creation_time.spec_secs()) + be_u64(self.modification_time.spec_secs())
                + be_u32(self.track_id) + zeros(4) + be_u64(self.duration)
        } else {
            be_u32(self.creation_time.spec_secs() as u32) + be_u32(
                self.modification_time.spec_secs() as u32,
            ) + be_u32(self.track_id) + zeros(4) + be_u32(self.duration as u32)
        }) + zeros(8) + be_u16(i16_bits(self.layer)) + be_u16(i16_bits(self.alternate_group))
            + seq![i8_bits(self.volume.integer), self.volume.fraction] + zeros(2) + matrix_bytes(
            self.matrix@,
        ) + be_u16(i16_bits(self.width.integer)) + be_u16(self.width.fraction) + be_u16(
            i16_bits(self.height.integer),
        ) + be_u16(self.height.fraction)
    }

    /// Whether `p` is the payload of a `tkhd` box: all fields present.
    pub open spec fn spec_payload_ok(p: Seq<u8>) -> bool {
        p.len() >= 4 && p.len() >= tkhd_base(p[0]) + 60
    }

    /// Whether `v` is the box read from the payload `p`.
    pub open spec fn spec_payload_decoded(p: Seq<u8>, v: Self) -> bool {
        let b = tkhd_base(p[0]);
        &&& v.flag_track_enabled == payload_flag(p, 0)
        &&& v.flag_track_in_movie == payload_flag(p, 1)
        &&& v.flag_track_in_preview == payload_flag(p, 2)
        &&& v.flag_track_size_is_aspect_ratio == payload_flag(p, 3)
        &&& if p[0] == 1 {
            &&& v.creation_time.spec_secs() == get_u64(p, 4)
            &&& v.modification_time.spec_secs() == get_u64(p, 12)
            &&& v.track_id == get_u32(p, 20)
            &&& v.duration == get_u64(p, 28)
        } else {
            &&& v.creation_time.spec_secs() == get_u32(p, 4)
            &&& v.modification_time.spec_secs() == get_u32(p, 8)
            &&& v.track_id == get_u32(p, 12)
            &&& v.duration == get_u32(p, 20)
        }
        &&& v.layer == i16_of(get_u16(p, b + 8))
        &&& v.alternate_group == i16_of(get_u16(p, b + 10))
        &&& v.volume.integer == i8_of(p[b + 12])
        &&& v.volume.fraction == p[b + 13]
        &&& forall|k: int| 0 <= k < 9 ==> #[trigger] v.matrix@[k] == i32_of(get_u32(p, b + 16 + 4 * k))
        &&& v.width.integer == i16_of(get_u16(p, b + 52))
        &&& v.width.fraction == get_u16(p, b + 54)
        &&& v.height.integer == i16_of(get_u16(p, b + 56))
        &&& v.height.fraction == get_u16(p, b + 58)
    }

    fn put_payload(&self, p: &mut Vec<u8>)
        ensures
            final(p)@ == old(p)@ + self.spec_payload_bytes(),
    {
        let ghost start = p@;
        reveal(TkhdBox::spec_payload_bytes);
        let version = self.full_box_version();
        let flags = self.full_box_flags();
        proof {
            FullBoxFlags::lemma_spec_new(self.spec_flags());
        }
        put_full_header(p, version, flags.get());
        if version == 1 {
            put_u64(p, self.creation_time.as_secs());
            put_u64(p, self.modification_time.as_secs());
            put_u32(p, self.track_id);
            put_zeros(p, 4);
            put_u64(p, self.duration);
        } else {
            put_u32(p, self.creation_time.as_secs() as u32);
            put_u32(p, self.modification_time.as_secs() as u32);
            put_u32(p, self.track_id);
            put_zeros(p, 4);
            put_u32(p, self.duration as u32);
        }
        put_zeros(p, 8);
        put_i16(p, self.layer);
        put_i16(p, self.alternate_group);
        put_i8(p, self.volume.integer);
        put_u8(p, self.volume.fraction);
        put_zeros(p, 2);
        put_matrix(p, &self.matrix);
        put_i16(p, self.width.integer);
        put_u16(p, self.width.fraction);
        put_i16(p, self.height.integer);
        put_u16(p, self.height.fraction);
        assert(p@ =~= start + self.spec_payload_bytes());
    }

    #[verifier::spinoff_prover]
    #[verifier::rlimit(30)]
    fn decode_payload(p: &[u8]) -> (r: Result<Self>)
        ensures
            r is Ok <==> Self::spec_payload_ok(p@),
            r matches Ok(v) ==> Self::spec_payload_decoded(p@, v),
    {
        if p.len() < 4 {
            return Err(Error::insufficient_buffer());
        }
        let version = p[0];
        let mut offset: usize = 0;
        let flags = get_u32_at(p, &mut offset)? % 0x100_0000;
        let (creation_time, modification_time, track_id, duration) = if version == 1 {
            let c = get_u64_at(p, &mut offset)?;
            let m = get_u64_at(p, &mut offset)?;
            let t = get_u32_at(p, &mut offset)?;
            skip_at(p, &mut offset, 4)?;
            let d = get_u64_at(p, &mut offset)?;
            (c, m, t, d)
        } else {
            let c = get_u32_at(p, &mut offset)?;
            let m = get_u32_at(p, &mut offset)?;
            let t = get_u32_at(p, &mut offset)?;
            skip_at(p, &mut offset, 4)?;
            let d = get_u32_at(p, &mut offset)?;
            (c as u64, m as u64, t, d as u64)
        };
        assert(offset == tkhd_base(version));
        skip_at(p, &mut offset, 8)?;
        let layer = get_i16_at(p, &mut offset)?;
        let alternate_group = get_i16_at(p, &mut offset)?;
        let volume_integer = get_i8_at(p, &mut offset)?;
        let volume_fraction = get_u8_at(p, &mut offset)?;
        skip_at(p, &mut offset, 2)?;
        let matrix = get_matrix_at(p, &mut offset)?;
        let width_integer = get_i16_at(p, &mut offset)?;
        let width_fraction = get_u16_at(p, &mut offset)?;
        let height_integer = get_i16_at(p, &mut offset)?;
        let height_fraction = get_u16_at(p, &mut offset)?;
        Ok(
            Self {
                flag_track_enabled: flags % 2 == 1,
                flag_track_in_movie: (flags / 2) % 2 == 1,
                flag_track_in_preview: (flags / 4) % 2 == 1,
                flag_track_size_is_aspect_ratio: (flags / 8) % 2 == 1,
                creation_time: Mp4FileTime::from_secs(creation_time),
                modification_time: Mp4FileTime::from_secs(modification_time),
                track_id,
                duration,
                layer,
                alternate_group,
                volume: FixedPointNumber::new(volume_integer, volume_fraction),
                matrix,
                width: FixedPointNumber::new(width_integer, width_fraction),
                height: FixedPointNumber::new(height_integer, height_fraction),
            },
        )
    }
}

impl Encode for TkhdBox {
    open spec fn spec_encodable(&self) -> bool {
        spec_box_fits(self.spec_payload_bytes())
    }

    open spec fn spec_encoding(&self) -> Seq<u8> {
        spec_box_bytes(Self::spec_type().spec_bytes(), self.spec_payload_bytes())
    }

    fn encode_into(&self, out: &mut Vec<u8>) -> (r: Result<()>) {
        let mut p: Vec<u8> = Vec::new();
        self.put_payload(&mut p);
        finish_box(out, Self::TYPE(), p)
    }
}

impl Decode for TkhdBox {
    open spec fn spec_can_decode(s: Seq<u8>) -> bool {
        &&& spec_can_split(s)
        &&& spec_is_type(s, Self::spec_type().spec_bytes())
        &&& Self::spec_payload_ok(spec_payload(s))
    }

    open spec fn spec_decoded_len(s: Seq<u8>) -> int {
        spec_box_end(s)
    }

    open spec fn spec_decoded(s: Seq<u8>, v: Self) -> bool {
        Self::spec_payload_decoded(spec_payload(s), v)
    }

    fn decode(buf: &[u8]) -> (r: Result<(Self, usize)>) {
        let (header, payload) = BoxHeader::decode_typed(buf, Self::TYPE())?;
        let total = buf.len();
        assert(header.spec_external_size() + payload@.len() <= total);
        let n = header.external_size() + payload.len();
        let v = with_box_type(Self::TYPE(), Self::decode_payload(payload))?;
        Ok((v, n))
    }
}

impl BaseBox for TkhdBox {
    open spec fn spec_box_type(&self) -> BoxType {
        Self::spec_type()
    }

    fn box_type(&self) -> (r: BoxType) {
        Self::TYPE()
    }
}

impl FullBox for TkhdBox {
    open spec fn spec_full_box_version(&self) -> u8 {
        self.spec_version()
    }

    open spec fn spec_full_box_flags(&self) -> FullBoxFlags {
        FullBoxFlags::spec_new(self.spec_flags())
    }

    fn full_box_version(&self) -> (r: u8) {
        let large = self.creation_time.as_secs() > 0xffff_ffff || self.modification_time.as_secs()
            > 0xffff_ffff || self.duration > 0xffff_ffff;
        assert(large == needs_v1(
            self.creation_time.spec_secs(),
            self.modification_time.spec_secs(),
            self.duration,
        ));
        let r: u8 = if large {
            1
        } else {
            0
        };
        assert(r == self.spec_full_box_version());
        r
    }

    fn full_box_flags(&self) -> (r: FullBoxFlags) {
        let mut flags: u32 = 0;
        if self.flag_track_enabled {
            flags = flags + 1;
        }
        if self.flag_track_in_movie {
            flags = flags + 2;
        }
        if self.flag_track_in_preview {
            flags = flags + 4;
        }
        if self.flag_track_size_is_aspect_ratio {
            flags = flags + 8;
        }
        let r = FullBoxFlags::new(flags);
        assert(r == self.spec_full_box_flags());
        r
    }
}

// ---------------------------------------------------------------------------
// mdhd
// ---------------------------------------------------------------------------

/// The media header box (`mdhd`, ISO/IEC 14496-12 MediaHeaderBox).
#[derive(Debug, Clone)]
#[allow(missing_docs)]
pub struct MdhdBox {
    pub creation_time: Mp4FileTime,
    pub modification_time: Mp4FileTime,
    pub timescale: NonZeroU32,
    pub duration: u64,
    /// The ISO-639-2/T language code.
    pub language: [u8; 3],
}

/// The 16-bit packing of a language code: five bits per letter, each less `0x60`.
pub open spec fn language_bits(l: Seq<u8>) -> u16 {
    let c0 = (l[0] - 0x60) as u16;
    let c1 = (l[1] - 0x60) as u16;
    let c2 = (l[2] - 0x60) as u16;
    ((((c0 << 5u16) | c1) << 5u16) | c2) as u16
}

/// The letters of a packed language code.
pub open spec fn language_letters(v: u16) -> Seq<u8> {
    seq![
        (((v >> 10u16) & 0x1f) + 0x60) as u8,
        (((v >> 5u16) & 0x1f) + 0x60) as u8,
        ((v & 0x1f) + 0x60) as u8,
    ]
}

/// The offset of the fields after the times in an `mdhd` payload of the given version.
pub open spec fn mdhd_base(version: u8) -> int {
    if version == 1 {
        32
    } else {
        20
    }
}

impl MdhdBox {
    /// The type of the box.
    pub open spec fn spec_type() -> BoxType {
        fourcc(0x6d, 0x64, 0x68, 0x64)
    }

    /// The type of the box: `mdhd`.
    #[allow(non_snake_case)]
    pub fn TYPE() -> (r: BoxType)
        ensures
            r == Self::spec_type(),
    {
        BoxType::Normal([0x6d, 0x64, 0x68, 0x64])
    }

    /// The language code of an undetermined language: `und`.
    #[allow(non_snake_case)]
    pub fn LANGUAGE_UNDEFINED() -> (r: [u8; 3])
        ensures
            r@ == seq![0x75u8, 0x6eu8, 0x64u8],
    {
        [0x75, 0x6e, 0x64]
    }

    /// The version of the box: 1 when a time or the duration needs 64 bits.
    pub open spec fn spec_version(&self) -> u8 {
        if needs_v1(self.creation_time.spec_secs(), self.modification_time.spec_secs(), self.duration) {
            1
        } else {
            0
        }
    }

    /// Whether the language can be packed: no letter below `0x60`.
    pub open spec fn spec_payload_encodable(&self) -> bool {
        forall|k: int| 0 <= k < 3 ==> #[trigger] self.language@[k] >= 0x60
    }

    /// The payload bytes of the box.
    #[verifier::opaque]
    pub open spec fn spec_payload_bytes(&self) -> Seq<u8> {
        full_header_bytes(self.spec_version(), 0) + (if self.spec_version() == 1 {
            be_u64(self.creation_time.spec_secs()) + be_u64(self.modification_time.spec_secs())
                + be_u32(self.timescale.spec_get()) + be_u64(self.duration)
        } else {
            be_u32(self.creation_time.spec_secs() as u32) + be_u32(
                self.modification_time.spec_secs() as u32,
            ) + be_u32(self.timescale.spec_get()) + be_u32(self.duration as u32)
        }) + be_u16(language_bits(self.language@)) + zeros(2)
    }

    /// Whether `p` is the payload of an `mdhd` box: all fields present and a non-zero
    /// timescale.
    pub open spec fn spec_payload_ok(p: Seq<u8>) -> bool {
        &&& p.len() >= 4
        &&& p.len() >= mdhd_base(p[0]) + 4
        &&& get_u32(p, if p[0] == 1 { 20int } else { 12 }) != 0
    }

    /// Whether `v` is the box read from the payload `p`.
    pub open spec fn spec_payload_decoded(p: Seq<u8>, v: Self) -> bool {
        &&& if p[0] == 1 {
            &&& v.creation_time.spec_secs() == get_u64(p, 4)
            &&& v.modification_time.spec_secs() == get_u64(p, 12)
            &&& v.timescale.spec_get() == get_u32(p, 20)
            &&& v.duration == get_u64(p, 24)
        } else {
            &&& v.creation_time.spec_secs() == get_u32(p, 4)
            &&& v.modification_time.spec_secs() == get_u32(p, 8)
            &&& v.timescale.spec_get() == get_u32(p, 12)
            &&& v.duration == get_u32(p, 16)
        }
        &&& v.language@ == language_letters(get_u16(p, mdhd_base(p[0])))
    }

    fn put_payload(&self, p: &mut Vec<u8>) -> (r: Result<()>)
        ensures
            r is Ok <==> self.spec_payload_encodable(),
            r is Ok ==> final(p)@ == old(p)@ + self.spec_payload_bytes(),
            r matches Err(e) ==> e.kind == ErrorKind::InvalidInput,
    {
        let ghost start = p@;
        reveal(MdhdBox::spec_payload_bytes);
        let mut language: u16 = 0;
        let mut i: usize = 0;
        while i < 3
            invariant
                i <= 3,
                self.language@.len() == 3,
                forall|k: int| 0 <= k < i ==> #[trigger] self.language@[k] >= 0x60,
                i == 0 ==> language == 0,
                i == 3 ==> language == language_bits(self.language@),
                i == 1 ==> language == (self.language@[0] - 0x60) as u16,
                i == 2 ==> language == (((self.language@[0] - 0x60) as u16) << 5u16) | ((
                self.language@[1] - 0x60) as u16),
            decreases 3 - i,
        {
            let l = self.language[i];
            if l < 0x60 {
                return Err(Error::invalid_input("Invalid language code"));
            }
            let code = (l - 0x60) as u16;
            language = (language << 5u16) | code;
            proof {
                if i == 0 {
                    assert(((0u16 << 5u16) | code) == code) by (bit_vector);
                }
            }
            i += 1;
        }
        let version = self.full_box_version();
        put_full_header(p, version, 0);
        if version == 1 {
            put_u64(p, self.creation_time.as_secs());
            put_u64(p, self.modification_time.as_secs());
            put_u32(p, self.timescale.get());
            put_u64(p, self.duration);
        } else {
            put_u32(p, self.creation_time.as_secs() as u32);
            put_u32(p, self.modification_time.as_secs() as u32);
            put_u32(p, self.timescale.get());
            put_u32(p, self.duration as u32);
        }
        put_u16(p, language);
        put_zeros(p, 2);
        assert(p@ =~= start + self.spec_payload_bytes());
        Ok(())
    }

    fn decode_payload(p: &[u8]) -> (r: Result<Self>)
        ensures
            r is Ok <==> Self::spec_payload_ok(p@),
            r matches Ok(v) ==> Self::spec_payload_decoded(p@, v),
    {
        if p.len() < 4 {
            return Err(Error::insufficient_buffer());
        }
        let version = p[0];
        let mut offset: usize = 4;
        let (creation_time, modification_time, timescale, duration) = if version == 1 {
            let c = get_u64_at(p, &mut offset)?;
            let m = get_u64_at(p, &mut offset)?;
            let t = get_u32_at(p, &mut offset)?;
            let d = get_u64_at(p, &mut offset)?;
            (c, m, t, d)
        } else {
            let c = get_u32_at(p, &mut offset)?;
            let m = get_u32_at(p, &mut offset)?;
            let t = get_u32_at(p, &mut offset)?;
            let d = get_u32_at(p, &mut offset)?;
            (c as u64, m as u64, t, d as u64)
        };
        let language = get_u16_at(p, &mut offset)?;
        skip_at(p, &mut offset, 2)?;
        let timescale = match NonZeroU32::new(timescale) {
            Some(t) => t,
            None => {
                return Err(Error::invalid_input("Expected a non-zero integer, but got 0"));
            },
        };
        assert((language >> 10u16) & 0x1f <= 0x1f) by (bit_vector);
        assert((language >> 5u16) & 0x1f <= 0x1f) by (bit_vector);
        assert(language & 0x1f <= 0x1f) by (bit_vector);
        let letters = [
            (((language >> 10u16) & 0x1f) + 0x60) as u8,
            (((language >> 5u16) & 0x1f) + 0x60) as u8,
            ((language & 0x1f) + 0x60) as u8,
        ];
        assert(letters@ =~= language_letters(language));
        Ok(
            Self {
                creation_time: Mp4FileTime::from_secs(creation_time),
                modification_time: Mp4FileTime::from_secs(modification_time),
                timescale,
                duration,
                language: letters,
            },
        )
    }
}

impl Encode for MdhdBox {
    open spec fn spec_encodable(&self) -> bool {
        self.spec_payload_encodable() && spec_box_fits(self.spec_payload_bytes())
    }

    open spec fn spec_encoding(&self) -> Seq<u8> {
        spec_box_bytes(Self::spec_type().spec_bytes(), self.spec_payload_bytes())
    }

    fn encode_into(&self, out: &mut Vec<u8>) -> (r: Result<()>) {
        let mut p: Vec<u8> = Vec::new();
        self.put_payload(&mut p)?;
        finish_box(out, Self::TYPE(), p)
    }
}

impl Decode for MdhdBox {
    open spec fn spec_can_decode(s: Seq<u8>) -> bool {
        &&& spec_can_split(s)
        &&& spec_is_type(s, Self::spec_type().spec_bytes())
        &&& Self::spec_payload_ok(spec_payload(s))
    }

    open spec fn spec_decoded_len(s: Seq<u8>) -> int {
        spec_box_end(s)
    }

    open spec fn spec_decoded(s: Seq<u8>, v: Self) -> bool {
        Self::spec_payload_decoded(spec_payload(s), v)
    }

    fn decode(buf: &[u8]) -> (r: Result<(Self, usize)>) {
        let (header, payload) = BoxHeader::decode_typed(buf, Self::TYPE())?;
        let total = buf.len();
        assert(header.spec_external_size() + payload@.len() <= total);
        let n = header.external_size() + payload.len();
        let v = with_box_type(Self::TYPE(), Self::decode_payload(payload))?;
        Ok((v, n))
    }
}

impl BaseBox for MdhdBox {
    open spec fn spec_box_type(&self) -> BoxType {
        Self::spec_type()
    }

    fn box_type(&self) -> (r: BoxType) {
        Self::TYPE()
    }
}

impl FullBox for MdhdBox {
    open spec fn spec_full_box_version(&self) -> u8 {
        self.spec_version()
    }

    open spec fn spec_full_box_flags(&self) -> FullBoxFlags {
        FullBoxFlags::spec_new(0)
    }

    fn full_box_version(&self) -> (r: u8) {
        let large = self.creation_time.as_secs() > 0xffff_ffff || self.modification_time.as_secs()
            > 0xffff_ffff || self.duration > 0xffff_ffff;
        assert(large == needs_v1(
            self.creation_time.spec_secs(),
            self.modification_time.spec_secs(),
            self.duration,
        ));
        let r: u8 = if large {
            1
        } else {
            0
        };
        assert(r == self.spec_full_box_version());
        r
    }

    fn full_box_flags(&self) -> (r: FullBoxFlags) {
        FullBoxFlags::new(0)
    }
}


// ---------------------------------------------------------------------------
// hdlr
// ---------------------------------------------------------------------------

/// The handler reference box (`hdlr`, ISO/IEC 14496-12 HandlerBox).
#[derive(Debug, Clone)]
#[allow(missing_docs)]
pub struct HdlrBox {
    pub handler_type: [u8; 4],
    /// The name of the handler, kept as bytes: files do not always hold a null-terminated
    /// UTF-8 string there.
    pub name: Vec<u8>,
}

impl HdlrBox {
    /// The type of the box.
    pub open spec fn spec_type() -> BoxType {
        fourcc(0x68, 0x64, 0x6c, 0x72)
    }

    /// The type of the box: `hdlr`.
    #[allow(non_snake_case)]
    pub fn TYPE() -> (r: BoxType)
        ensures
            r == Self::spec_type(),
    {
        BoxType::Normal([0x68, 0x64, 0x6c, 0x72])
    }

    /// The handler type of audio tracks: `soun`.
    #[allow(non_snake_case)]
    pub fn HANDLER_TYPE_SOUN() -> (r: [u8; 4])
        ensures
            r@ == seq![0x73u8, 0x6fu8, 0x75u8, 0x6eu8],
    {
        [0x73, 0x6f, 0x75, 0x6e]
    }

    /// The handler type of video tracks: `vide`.
    #[allow(non_snake_case)]
    pub fn HANDLER_TYPE_VIDE() -> (r: [u8; 4])
        ensures
            r@ == seq![0x76u8, 0x69u8, 0x64u8, 0x65u8],
    {
        [0x76, 0x69, 0x64, 0x65]
    }

    /// The payload bytes of the box.
    pub open spec fn spec_payload_bytes(&self) -> Seq<u8> {
        full_header_bytes(0, 0) + zeros(4) + self.handler_type@ + zeros(12) + self.name@
    }

    /// Whether `p` is the payload of an `hdlr` box.
    pub open spec fn spec_payload_ok(p: Seq<u8>) -> bool {
        p.len() >= 24
    }

    /// Whether `v` is the box read from the payload `p`: the name is the rest of the payload.
    pub open spec fn spec_payload_decoded(p: Seq<u8>, v: Self) -> bool {
        &&& v.handler_type@ == p.subrange(8, 12)
        &&& v.name@ == p.skip(24)
    }

    fn put_payload(&self, p: &mut Vec<u8>)
        ensures
            final(p)@ == old(p)@ + self.spec_payload_bytes(),
    {
        let ghost start = p@;
        put_full_header(p, 0, 0);
        put_zeros(p, 4);
        put_bytes(p, self.handler_type.as_slice());
        put_zeros(p, 12);
        put_bytes(p, self.name.as_slice());
        assert(p@ =~= start + self.spec_payload_bytes());
    }

    fn decode_payload(p: &[u8]) -> (r: Result<Self>)
        ensures
            r is Ok <==> Self::spec_payload_ok(p@),
            r matches Ok(v) ==> Self::spec_payload_decoded(p@, v),
    {
        if p.len() < 24 {
            return Err(Error::insufficient_buffer());
        }
        let handler_type = [p[8], p[9], p[10], p[11]];
        assert(handler_type@ =~= p@.subrange(8, 12));
        let mut offset: usize = 24;
        let name = get_bytes_at(p, &mut offset, p.len() - 24)?;
        assert(name@ =~= p@.skip(24));
        Ok(Self { handler_type, name })
    }
}

impl Encode for HdlrBox {
    open spec fn spec_encodable(&self) -> bool {
        spec_box_fits(self.spec_payload_bytes())
    }

    open spec fn spec_encoding(&self) -> Seq<u8> {
        spec_box_bytes(Self::spec_type().spec_bytes(), self.spec_payload_bytes())
    }

    fn encode_into(&self, out: &mut Vec<u8>) -> (r: Result<()>) {
        let mut p: Vec<u8> = Vec::new();
        self.put_payload(&mut p);
        finish_box(out, Self::TYPE(), p)
    }
}

impl Decode for HdlrBox {
    open spec fn spec_can_decode(s: Seq<u8>) -> bool {
        &&& spec_can_split(s)
        &&& spec_is_type(s, Self::spec_type().spec_bytes())
        &&& Self::spec_payload_ok(spec_payload(s))
    }

    open spec fn spec_decoded_len(s: Seq<u8>) -> int {
        spec_box_end(s)
    }

    open spec fn spec_decoded(s: Seq<u8>, v: Self) -> bool {
        Self::spec_payload_decoded(spec_payload(s), v)
    }

    fn decode(buf: &[u8]) -> (r: Result<(Self, usize)>) {
        let (header, payload) = BoxHeader::decode_typed(buf, Self::TYPE())?;
        let total = buf.len();
        assert(header.spec_external_size() + payload@.len() <= total);
        let n = header.external_size() + payload.len();
        let v = with_box_type(Self::TYPE(), Self::decode_payload(payload))?;
        Ok((v, n))
    }
}

impl BaseBox for HdlrBox {
    open spec fn spec_box_type(&self) -> BoxType {
        Self::spec_type()
    }

    fn box_type(&self) -> (r: BoxType) {
        Self::TYPE()
    }
}

impl FullBox for HdlrBox {
    open spec fn spec_full_box_version(&self) -> u8 {
        0
    }

    open spec fn spec_full_box_flags(&self) -> FullBoxFlags {
        FullBoxFlags::spec_new(0)
    }

    fn full_box_version(&self) -> (r: u8) {
        0
    }

    fn full_box_flags(&self) -> (r: FullBoxFlags) {
        FullBoxFlags::new(0)
    }
}

// ---------------------------------------------------------------------------
// smhd and vmhd
// ---------------------------------------------------------------------------

/// The sound media header box (`smhd`, ISO/IEC 14496-12 SoundMediaHeaderBox).
#[derive(Debug, Clone)]
#[allow(missing_docs)]
pub struct SmhdBox {
    pub balance: FixedPointNumber<u8, u8>,
}

impl SmhdBox {
    /// The type of the box.
    pub open spec fn spec_type() -> BoxType {
        fourcc(0x73, 0x6d, 0x68, 0x64)
    }

    /// The type of the box: `smhd`.
    #[allow(non_snake_case)]
    pub fn TYPE() -> (r: BoxType)
        ensures
            r == Self::spec_type(),
    {
        BoxType::Normal([0x73, 0x6d, 0x68, 0x64])
    }

    /// The default balance: centre.
    #[allow(non_snake_case)]
    pub fn DEFAULT_BALANCE() -> (r: FixedPointNumber<u8, u8>)
        ensures
            r.integer == 0 && r.fraction == 0,
    {
        FixedPointNumber::new(0, 0)
    }

    /// The payload bytes of the box.
    pub open spec fn spec_payload_bytes(&self) -> Seq<u8> {
        full_header_bytes(0, 0) + seq![self.balance.integer, self.balance.fraction] + zeros(2)
    }

    /// Whether `p` is the payload of an `smhd` box.
    pub open spec fn spec_payload_ok(p: Seq<u8>) -> bool {
        p.len() >= 8
    }

    /// Whether `v` is the box read from the payload `p`.
    pub open spec fn spec_payload_decoded(p: Seq<u8>, v: Self) -> bool {
        v.balance.integer == p[4] && v.balance.fraction == p[5]
    }

    fn put_payload(&self, p: &mut Vec<u8>)
        ensures
            final(p)@ == old(p)@ + self.spec_payload_bytes(),
    {
        let ghost start = p@;
        put_full_header(p, 0, 0);
        put_u8(p, self.balance.integer);
        put_u8(p, self.balance.fraction);
        put_zeros(p, 2);
        assert(p@ =~= start + self.spec_payload_bytes());
    }

    fn decode_payload(p: &[u8]) -> (r: Result<Self>)
        ensures
            r is Ok <==> Self::spec_payload_ok(p@),
            r matches Ok(v) ==> Self::spec_payload_decoded(p@, v),
    {
        if p.len() < 8 {
            return Err(Error::insufficient_buffer());
        }
        Ok(Self { balance: FixedPointNumber::new(p[4], p[5]) })
    }
}

impl Encode for SmhdBox {
    open spec fn spec_encodable(&self) -> bool {
        spec_box_fits(self.spec_payload_bytes())
    }

    open spec fn spec_encoding(&self) -> Seq<u8> {
        spec_box_bytes(Self::spec_type().spec_bytes(), self.spec_payload_bytes())
    }

    fn encode_into(&self, out: &mut Vec<u8>) -> (r: Result<()>) {
        let mut p: Vec<u8> = Vec::new();
        self.put_payload(&mut p);
        finish_box(out, Self::TYPE(), p)
    }
}

impl Decode for SmhdBox {
    open spec fn spec_can_decode(s: Seq<u8>) -> bool {
        &&& spec_can_split(s)
        &&& spec_is_type(s, Self::spec_type().spec_bytes())
        &&& Self::spec_payload_ok(spec_payload(s))
    }

    open spec fn spec_decoded_len(s: Seq<u8>) -> int {
        spec_box_end(s)
    }

    open spec fn spec_decoded(s: Seq<u8>, v: Self) -> bool {
        Self::spec_payload_decoded(spec_payload(s), v)
    }

    fn decode(buf: &[u8]) -> (r: Result<(Self, usize)>) {
        let (header, payload) = BoxHeader::decode_typed(buf, Self::TYPE())?;
        let total = buf.len();
        assert(header.spec_external_size() + payload@.len() <= total);
        let n = header.external_size() + payload.len();
        let v = with_box_type(Self::TYPE(), Self::decode_payload(payload))?;
        Ok((v, n))
    }
}

impl BaseBox for SmhdBox {
    open spec fn spec_box_type(&self) -> BoxType {
        Self::spec_type()
    }

    fn box_type(&self) -> (r: BoxType) {
        Self::TYPE()
    }
}

impl FullBox for SmhdBox {
    open spec fn spec_full_box_version(&self) -> u8 {
        0
    }

    open spec fn spec_full_box_flags(&self) -> FullBoxFlags {
        FullBoxFlags::spec_new(0)
    }

    fn full_box_version(&self) -> (r: u8) {
        0
    }

    fn full_box_flags(&self) -> (r: FullBoxFlags) {
        FullBoxFlags::new(0)
    }
}

/// The video media header box (`vmhd`, ISO/IEC 14496-12 VideoMediaHeaderBox).
#[derive(Debug, Clone)]
#[allow(missing_docs)]
pub struct VmhdBox {
    pub graphicsmode: u16,
    pub opcolor: [u16; 3],
}

impl VmhdBox {
    /// The type of the box.
    pub open spec fn spec_type() -> BoxType {
        fourcc(0x76, 0x6d, 0x68, 0x64)
    }

    /// The type of the box: `vmhd`.
    #[allow(non_snake_case)]
    pub fn TYPE() -> (r: BoxType)
        ensures
            r == Self::spec_type(),
    {
        BoxType::Normal([0x76, 0x6d, 0x68, 0x64])
    }

    /// The default graphics mode: copy.
    #[allow(non_snake_case)]
    pub fn DEFAULT_GRAPHICSMODE() -> (r: u16)
        ensures
            r == 0,
    {
        0
    }

    /// The default colour.
    #[allow(non_snake_case)]
    pub fn DEFAULT_OPCOLOR() -> (r: [u16; 3])
        ensures
            r@ == seq![0u16, 0u16, 0u16],
    {
        [0, 0, 0]
    }

    /// The payload bytes of the box: the flags are 1.
    pub open spec fn spec_payload_bytes(&self) -> Seq<u8> {
        full_header_bytes(0, 1) + be_u16(self.graphicsmode) + be_u16(self.opcolor@[0]) + be_u16(
            self.opcolor@[1],
        ) + be_u16(self.opcolor@[2])
    }

    /// Whether `p` is the payload of a `vmhd` box; the flags are not checked, since files with
    /// flags 0 exist.
    pub open spec fn spec_payload_ok(p: Seq<u8>) -> bool {
        p.len() >= 12
    }

    /// Whether `v` is the box read from the payload `p`.
    pub open spec fn spec_payload_decoded(p: Seq<u8>, v: Self) -> bool {
        &&& v.graphicsmode == get_u16(p, 4)
        &&& v.opcolor@ == seq![get_u16(p, 6), get_u16(p, 8), get_u16(p, 10)]
    }

    fn put_payload(&self, p: &mut Vec<u8>)
        ensures
            final(p)@ == old(p)@ + self.spec_payload_bytes(),
    {
        let ghost start = p@;
        put_full_header(p, 0, 1);
        put_u16(p, self.graphicsmode);
        put_u16(p, self.opcolor[0]);
        put_u16(p, self.opcolor[1]);
        put_u16(p, self.opcolor[2]);
        assert(p@ =~= start + self.spec_payload_bytes());
    }

    fn decode_payload(p: &[u8]) -> (r: Result<Self>)
        ensures
            r is Ok <==> Self::spec_payload_ok(p@),
            r matches Ok(v) ==> Self::spec_payload_decoded(p@, v),
    {
        if p.len() < 12 {
            return Err(Error::insufficient_buffer());
        }
        let mut offset: usize = 4;
        let graphicsmode = get_u16_at(p, &mut offset)?;
        let a = get_u16_at(p, &mut offset)?;
        let b = get_u16_at(p, &mut offset)?;
        let c = get_u16_at(p, &mut offset)?;
        let opcolor = [a, b, c];
        assert(opcolor@ =~= seq![get_u16(p@, 6), get_u16(p@, 8), get_u16(p@, 10)]);
        Ok(Self { graphicsmode, opcolor })
    }
}

impl Encode for VmhdBox {
    open spec fn spec_encodable(&self) -> bool {
        spec_box_fits(self.spec_payload_bytes())
    }

    open spec fn spec_encoding(&self) -> Seq<u8> {
        spec_box_bytes(Self::spec_type().spec_bytes(), self.spec_payload_bytes())
    }

    fn encode_into(&self, out: &mut Vec<u8>) -> (r: Result<()>) {
        let mut p: Vec<u8> = Vec::new();
        self.put_payload(&mut p);
        finish_box(out, Self::TYPE(), p)
    }
}

impl Decode for VmhdBox {
    open spec fn spec_can_decode(s: Seq<u8>) -> bool {
        &&& spec_can_split(s)
        &&& spec_is_type(s, Self::spec_type().spec_bytes())
        &&& Self::spec_payload_ok(spec_payload(s))
    }

    open spec fn spec_decoded_len(s: Seq<u8>) -> int {
        spec_box_end(s)
    }

    open spec fn spec_decoded(s: Seq<u8>, v: Self) -> bool {
        Self::spec_payload_decoded(spec_payload(s), v)
    }

    fn decode(buf: &[u8]) -> (r: Result<(Self, usize)>) {
        let (header, payload) = BoxHeader::decode_typed(buf, Self::TYPE())?;
        let total = buf.len();
        assert(header.spec_external_size() + payload@.len() <= total);
        let n = header.external_size() + payload.len();
        let v = with_box_type(Self::TYPE(), Self::decode_payload(payload))?;
        Ok((v, n))
    }
}

impl BaseBox for VmhdBox {
    open spec fn spec_box_type(&self) -> BoxType {
        Self::spec_type()
    }

    fn box_type(&self) -> (r: BoxType) {
        Self::TYPE()
    }
}

impl FullBox for VmhdBox {
    open spec fn spec_full_box_version(&self) -> u8 {
        0
    }

    open spec fn spec_full_box_flags(&self) -> FullBoxFlags {
        FullBoxFlags::spec_new(1)
    }

    fn full_box_version(&self) -> (r: u8) {
        0
    }

    fn full_box_flags(&self) -> (r: FullBoxFlags) {
        FullBoxFlags::new(1)
    }
}

// ---------------------------------------------------------------------------
// mehd and trex
// ---------------------------------------------------------------------------

/// The movie extends header box (`mehd`, ISO/IEC 14496-12 MovieExtendsHeaderBox): the
/// duration of the whole fragmented movie.
#[derive(Debug, Clone)]
#[allow(missing_docs)]
pub struct MehdBox {
    pub fragment_duration: u64,
}

impl MehdBox {
    /// The type of the box.
    pub open spec fn spec_type() -> BoxType {
        fourcc(0x6d, 0x65, 0x68, 0x64)
    }

    /// The type of the box: `mehd`.
    #[allow(non_snake_case)]
    pub fn TYPE() -> (r: BoxType)
        ensures
            r == Self::spec_type(),
    {
        BoxType::Normal([0x6d, 0x65, 0x68, 0x64])
    }

    /// The version of the box: 1 when the duration needs 64 bits.
    pub open spec fn spec_version(&self) -> u8 {
        if self.fragment_duration > u32::MAX {
            1
        } else {
            0
        }
    }

    /// The payload bytes of the box.
    pub open spec fn spec_payload_bytes(&self) -> Seq<u8> {
        full_header_bytes(self.spec_version(), 0) + if self.spec_version() == 1 {
            be_u64(self.fragment_duration)
        } else {
            be_u32(self.fragment_duration as u32)
        }
    }

    /// Whether `p` is the payload of an `mehd` box.
    pub open spec fn spec_payload_ok(p: Seq<u8>) -> bool {
        p.len() >= 4 && p.len() >= if p[0] == 1 {
            12int
        } else {
            8
        }
    }

    /// Whether `v` is the box read from the payload `p`.
    pub open spec fn spec_payload_decoded(p: Seq<u8>, v: Self) -> bool {
        v.fragment_duration == if p[0] == 1 {
            get_u64(p, 4)
        } else {
            get_u32(p, 4) as u64
        }
    }

    fn put_payload(&self, p: &mut Vec<u8>)
        ensures
            final(p)@ == old(p)@ + self.spec_payload_bytes(),
    {
        let ghost start = p@;
        let version = self.full_box_version();
        put_full_header(p, version, 0);
        if version == 1 {
            put_u64(p, self.fragment_duration);
        } else {
            put_u32(p, self.fragment_duration as u32);
        }
        assert(p@ =~= start + self.spec_payload_bytes());
    }

    fn decode_payload(p: &[u8]) -> (r: Result<Self>)
        ensures
            r is Ok <==> Self::spec_payload_ok(p@),
            r matches Ok(v) ==> Self::spec_payload_decoded(p@, v),
    {
        if p.len() < 4 {
            return Err(Error::insufficient_buffer());
        }
        let mut offset: usize = 4;
        let fragment_duration = if p[0] == 1 {
            get_u64_at(p, &mut offset)?
        } else {
            get_u32_at(p, &mut offset)? as u64
        };
        Ok(Self { fragment_duration })
    }
}

impl Encode for MehdBox {
    open spec fn spec_encodable(&self) -> bool {
        spec_box_fits(self.spec_payload_bytes())
    }

    open spec fn spec_encoding(&self) -> Seq<u8> {
        spec_box_bytes(Self::spec_type().spec_bytes(), self.spec_payload_bytes())
    }

    fn encode_into(&self, out: &mut Vec<u8>) -> (r: Result<()>) {
        let mut p: Vec<u8> = Vec::new();
        self.put_payload(&mut p);
        finish_box(out, Self::TYPE(), p)
    }
}

impl Decode for MehdBox {
    open spec fn spec_can_decode(s: Seq<u8>) -> bool {
        &&& spec_can_split(s)
        &&& spec_is_type(s, Self::spec_type().spec_bytes())
        &&& Self::spec_payload_ok(spec_payload(s))
    }

    open spec fn spec_decoded_len(s: Seq<u8>) -> int {
        spec_box_end(s)
    }

    open spec fn spec_decoded(s: Seq<u8>, v: Self) -> bool {
        Self::spec_payload_decoded(spec_payload(s), v)
    }

    fn decode(buf: &[u8]) -> (r: Result<(Self, usize)>) {
        let (header, payload) = BoxHeader::decode_typed(buf, Self::TYPE())?;
        let total = buf.len();
        assert(header.spec_external_size() + payload@.len() <= total);
        let n = header.external_size() + payload.len();
        let v = with_box_type(Self::TYPE(), Self::decode_payload(payload))?;
        Ok((v, n))
    }
}

impl BaseBox for MehdBox {
    open spec fn spec_box_type(&self) -> BoxType {
        Self::spec_type()
    }

    fn box_type(&self) -> (r: BoxType) {
        Self::TYPE()
    }
}

impl FullBox for MehdBox {
    open spec fn spec_full_box_version(&self) -> u8 {
        self.spec_version()
    }

    open spec fn spec_full_box_flags(&self) -> FullBoxFlags {
        FullBoxFlags::spec_new(0)
    }

    fn full_box_version(&self) -> (r: u8) {
        let r: u8 = if self.fragment_duration > 0xffff_ffff {
            1
        } else {
            0
        };
        assert(r == self.spec_full_box_version());
        r
    }

    fn full_box_flags(&self) -> (r: FullBoxFlags) {
        FullBoxFlags::new(0)
    }
}

/// The track extends box (`trex`, ISO/IEC 14496-12 TrackExtendsBox): the defaults of the
/// samples of a track's fragments.
#[derive(Debug, Clone)]
#[allow(missing_docs)]
pub struct TrexBox {
    pub track_id: u32,
    pub default_sample_description_index: u32,
    pub default_sample_duration: u32,
    pub default_sample_size: u32,
    pub default_sample_flags: SampleFlags,
}

impl TrexBox {
    /// The type of the box.
    pub open spec fn spec_type() -> BoxType {
        fourcc(0x74, 0x72, 0x65, 0x78)
    }

    /// The type of the box: `trex`.
    #[allow(non_snake_case)]
    pub fn TYPE() -> (r: BoxType)
        ensures
            r == Self::spec_type(),
    {
        BoxType::Normal([0x74, 0x72, 0x65, 0x78])
    }

    /// The payload bytes of the box.
    pub open spec fn spec_payload_bytes(&self) -> Seq<u8> {
        full_header_bytes(0, 0) + be_u32(self.track_id) + be_u32(
            self.default_sample_description_index,
        ) + be_u32(self.default_sample_duration) + be_u32(self.default_sample_size) + be_u32(
            self.default_sample_flags.spec_get(),
        )
    }

    /// Whether `p` is the payload of a `trex` box.
    pub open spec fn spec_payload_ok(p: Seq<u8>) -> bool {
        p.len() >= 24
    }

    /// Whether `v` is the box read from the payload `p`.
    pub open spec fn spec_payload_decoded(p: Seq<u8>, v: Self) -> bool {
        &&& v.track_id == get_u32(p, 4)
        &&& v.default_sample_description_index == get_u32(p, 8)
        &&& v.default_sample_duration == get_u32(p, 12)
        &&& v.default_sample_size == get_u32(p, 16)
        &&& v.default_sample_flags.spec_get() == get_u32(p, 20)
    }

    fn put_payload(&self, p: &mut Vec<u8>)
        ensures
            final(p)@ == old(p)@ + self.spec_payload_bytes(),
    {
        let ghost start = p@;
        put_full_header(p, 0, 0);
        put_u32(p, self.track_id);
        put_u32(p, self.default_sample_description_index);
        put_u32(p, self.default_sample_duration);
        put_u32(p, self.default_sample_size);
        put_u32(p, self.default_sample_flags.get());
        assert(p@ =~= start + self.spec_payload_bytes());
    }

    fn decode_payload(p: &[u8]) -> (r: Result<Self>)
        ensures
            r is Ok <==> Self::spec_payload_ok(p@),
            r matches Ok(v) ==> Self::spec_payload_decoded(p@, v),
    {
        if p.len() < 24 {
            return Err(Error::insufficient_buffer());
        }
        let mut offset: usize = 4;
        let track_id = get_u32_at(p, &mut offset)?;
        let default_sample_description_index = get_u32_at(p, &mut offset)?;
        let default_sample_duration = get_u32_at(p, &mut offset)?;
        let default_sample_size = get_u32_at(p, &mut offset)?;
        let flags = get_u32_at(p, &mut offset)?;
        Ok(
            Self {
                track_id,
                default_sample_description_index,
                default_sample_duration,
                default_sample_size,
                default_sample_flags: SampleFlags::new(flags),
            },
        )
    }
}

impl Encode for TrexBox {
    open spec fn spec_encodable(&self) -> bool {
        spec_box_fits(self.spec_payload_bytes())
    }

    open spec fn spec_encoding(&self) -> Seq<u8> {
        spec_box_bytes(Self::spec_type().spec_bytes(), self.spec_payload_bytes())
    }

    fn encode_into(&self, out: &mut Vec<u8>) -> (r: Result<()>) {
        let mut p: Vec<u8> = Vec::new();
        self.put_payload(&mut p);
        finish_box(out, Self::TYPE(), p)
    }
}

impl Decode for TrexBox {
    open spec fn spec_can_decode(s: Seq<u8>) -> bool {
        &&& spec_can_split(s)
        &&& spec_is_type(s, Self::spec_type().spec_bytes())
        &&& Self::spec_payload_ok(spec_payload(s))
    }

    open spec fn spec_decoded_len(s: Seq<u8>) -> int {
        spec_box_end(s)
    }

    open spec fn spec_decoded(s: Seq<u8>, v: Self) -> bool {
        Self::spec_payload_decoded(spec_payload(s), v)
    }

    fn decode(buf: &[u8]) -> (r: Result<(Self, usize)>) {
        let (header, payload) = BoxHeader::decode_typed(buf, Self::TYPE())?;
        let total = buf.len();
        assert(header.spec_external_size() + payload@.len() <= total);
        let n = header.external_size() + payload.len();
        let v = with_box_type(Self::TYPE(), Self::decode_payload(payload))?;
        Ok((v, n))
    }
}

impl BaseBox for TrexBox {
    open spec fn spec_box_type(&self) -> BoxType {
        Self::spec_type()
    }

    fn box_type(&self) -> (r: BoxType) {
        Self::TYPE()
    }
}

impl FullBox for TrexBox {
    open spec fn spec_full_box_version(&self) -> u8 {
        0
    }

    open spec fn spec_full_box_flags(&self) -> FullBoxFlags {
        FullBoxFlags::spec_new(0)
    }

    fn full_box_version(&self) -> (r: u8) {
        0
    }

    fn full_box_flags(&self) -> (r: FullBoxFlags) {
        FullBoxFlags::new(0)
    }
}


// ---------------------------------------------------------------------------
// elst
// ---------------------------------------------------------------------------

/// An entry of an [`ElstBox`].
#[derive(Debug, Clone, Copy, PartialEq, Eq, Hash, Structural)]
#[allow(missing_docs)]
pub struct ElstEntry {
    pub edit_duration: u64,
    pub media_time: i64,
    pub media_rate: FixedPointNumber<i16, i16>,
}

/// Whether an edit needs the 64-bit layout (version 1).
pub open spec fn elst_entry_large(e: ElstEntry) -> bool {
    e.edit_duration > u32::MAX || e.media_time < i32::MIN || e.media_time > i32::MAX
}

/// The bytes of an edit in the layout of the given version.
pub open spec fn elst_entry_bytes(version: u8, e: ElstEntry) -> Seq<u8> {
    (if version == 1 {
        be_u64(e.edit_duration) + be_u64(i64_bits(e.media_time))
    } else {
        be_u32(e.edit_duration as u32) + be_u32(i32_bits(e.media_time as i32))
    }) + be_u16(i16_bits(e.media_rate.integer)) + be_u16(i16_bits(e.media_rate.fraction))
}

/// The bytes of a list of edits in the layout of the given version.
pub open spec fn elst_entries_bytes(version: u8, es: Seq<ElstEntry>) -> Seq<u8> {
    concat(es.map_values(|e: ElstEntry| elst_entry_bytes(version, e)))
}

/// The size of an edit in the layout of the given version.
pub open spec fn elst_entry_size(version: u8) -> int {
    if version == 1 {
        20
    } else {
        12
    }
}

/// The edit list box (`elst`, ISO/IEC 14496-12 EditListBox).
#[derive(Debug, Clone)]
#[allow(missing_docs)]
pub struct ElstBox {
    pub entries: Vec<ElstEntry>,
}

impl ElstBox {
    /// The type of the box.
    pub open spec fn spec_type() -> BoxType {
        fourcc(0x65, 0x6c, 0x73, 0x74)
    }

    /// The type of the box: `elst`.
    #[allow(non_snake_case)]
    pub fn TYPE() -> (r: BoxType)
        ensures
            r == Self::spec_type(),
    {
        BoxType::Normal([0x65, 0x6c, 0x73, 0x74])
    }

    /// The version of the box: 1 when an edit needs 64 bits.
    pub open spec fn spec_version(&self) -> u8 {
        if exists|i: int| 0 <= i < self.entries@.len() && elst_entry_large(#[trigger] self.entries@[i]) {
            1
        } else {
            0
        }
    }

    /// The payload bytes of the box.
    pub open spec fn spec_payload_bytes(&self) -> Seq<u8> {
        full_header_bytes(self.spec_version(), 0) + be_u32(self.entries@.len() as u32)
            + elst_entries_bytes(self.spec_version(), self.entries@)
    }

    /// Whether `p` is the payload of an `elst` box.
    pub open spec fn spec_payload_ok(p: Seq<u8>) -> bool {
        p.len() >= 8 && p.len() >= 8 + elst_entry_size(p[0]) * get_u32(p, 4)
    }

    /// Whether `v` is the box read from the payload `p`.
    pub open spec fn spec_payload_decoded(p: Seq<u8>, v: Self) -> bool {
        let n = elst_entry_size(p[0]);
        &&& v.entries@.len() == get_u32(p, 4)
        &&& forall|i: int|
            0 <= i < v.entries@.len() ==> {
                let e = #[trigger] v.entries@[i];
                let o = 8 + n * i;
                &&& if p[0] == 1 {
                    &&& e.edit_duration == get_u64(p, o)
                    &&& e.media_time == i64_of(get_u64(p, o + 8))
                } else {
                    &&& e.edit_duration == get_u32(p, o)
                    &&& e.media_time == i32_of(get_u32(p, o + 4))
                }
                &&& e.media_rate.integer == i16_of(get_u16(p, o + n - 4))
                &&& e.media_rate.fraction == i16_of(get_u16(p, o + n - 2))
            }
    }

    fn put_payload(&self, p: &mut Vec<u8>)
        ensures
            final(p)@ == old(p)@ + self.spec_payload_bytes(),
    {
        let ghost start = p@;
        let version = self.full_box_version();
        put_full_header(p, version, 0);
        put_u32(p, self.entries.len() as u32);
        let ghost head = p@;
        let mut i: usize = 0;
        while i < self.entries.len()
            invariant
                i <= self.entries@.len(),
                version == self.spec_version(),
                p@ == head + elst_entries_bytes(version, self.entries@.subrange(0, i as int)),
                version == 0 ==> forall|k: int|
                    0 <= k < self.entries@.len() ==> !elst_entry_large(#[trigger] self.entries@[k]),
            decreases self.entries@.len() - i,
        {
            let e = self.entries[i];
            if version == 1 {
                put_u64(p, e.edit_duration);
                put_i64(p, e.media_time);
            } else {
                put_u32(p, e.edit_duration as u32);
                put_i32(p, e.media_time as i32);
            }
            put_i16(p, e.media_rate.integer);
            put_i16(p, e.media_rate.fraction);
            proof {
                let f = |e: ElstEntry| elst_entry_bytes(version, e);
                let prev = self.entries@.subrange(0, i as int);
                assert(self.entries@.subrange(0, i + 1) =~= prev.push(e));
                assert(prev.push(e).map_values(f) =~= prev.map_values(f).push(
                    elst_entry_bytes(version, e),
                ));
                lemma_concat_push(prev.map_values(f), elst_entry_bytes(version, e));
                assert(p@ =~= head + elst_entries_bytes(version, self.entries@.subrange(0, i + 1)));
            }
            i += 1;
        }
        assert(self.entries@.subrange(0, i as int) =~= self.entries@);
        assert(p@ =~= start + self.spec_payload_bytes());
    }

    fn decode_payload(p: &[u8]) -> (r: Result<Self>)
        ensures
            r is Ok <==> Self::spec_payload_ok(p@),
            r matches Ok(v) ==> Self::spec_payload_decoded(p@, v),
    {
        if p.len() < 8 {
            return Err(Error::insufficient_buffer());
        }
        let version = p[0];
        let n: usize = if version == 1 {
            20
        } else {
            12
        };
        let mut offset: usize = 4;
        let count = get_u32_at(p, &mut offset)?;
        let mut entries: Vec<ElstEntry> = Vec::new();
        let mut i: u32 = 0;
        while i < count
            invariant
                p@.len() >= 8,
                version == p@[0],
                n == elst_entry_size(version),
                count == get_u32(p@, 4),
                i <= count,
                offset == 8 + n * i,
                offset <= p@.len(),
                entries@.len() == i,
                forall|k: int|
                    0 <= k < i ==> {
                        let e = #[trigger] entries@[k];
                        let o = 8 + n * k;
                        &&& if version == 1 {
                            &&& e.edit_duration == get_u64(p@, o)
                            &&& e.media_time == i64_of(get_u64(p@, o + 8))
                        } else {
                            &&& e.edit_duration == get_u32(p@, o)
                            &&& e.media_time == i32_of(get_u32(p@, o + 4))
                        }
                        &&& e.media_rate.integer == i16_of(get_u16(p@, o + n - 4))
                        &&& e.media_rate.fraction == i16_of(get_u16(p@, o + n - 2))
                    },
            decreases count - i,
        {
            if p.len() - offset < n {
                proof {
                    assert(n * count >= n * (i + 1)) by (nonlinear_arith)
                        requires
                            count >= i + 1,
                            n >= 0,
                    ;
                }
                return Err(Error::insufficient_buffer());
            }
            let (edit_duration, media_time) = if version == 1 {
                let d = get_u64_at(p, &mut offset)?;
                let t = get_i64_at(p, &mut offset)?;
                (d, t)
            } else {
                let d = get_u32_at(p, &mut offset)?;
                let t = get_i32_at(p, &mut offset)?;
                (d as u64, t as i64)
            };
            let rate_integer = get_i16_at(p, &mut offset)?;
            let rate_fraction = get_i16_at(p, &mut offset)?;
            entries.push(
                ElstEntry {
                    edit_duration,
                    media_time,
                    media_rate: FixedPointNumber::new(rate_integer, rate_fraction),
                },
            );
            proof {
                assert(n * (i + 1) == n * i + n) by (nonlinear_arith);
            }
            i += 1;
        }
        proof {
            assert(n * count == n * i);
        }
        Ok(Self { entries })
    }
}

impl Encode for ElstBox {
    open spec fn spec_encodable(&self) -> bool {
        spec_box_fits(self.spec_payload_bytes())
    }

    open spec fn spec_encoding(&self) -> Seq<u8> {
        spec_box_bytes(Self::spec_type().spec_bytes(), self.spec_payload_bytes())
    }

    fn encode_into(&self, out: &mut Vec<u8>) -> (r: Result<()>) {
        let mut p: Vec<u8> = Vec::new();
        self.put_payload(&mut p);
        finish_box(out, Self::TYPE(), p)
    }
}

impl Decode for ElstBox {
    open spec fn spec_can_decode(s: Seq<u8>) -> bool {
        &&& spec_can_split(s)
        &&& spec_is_type(s, Self::spec_type().spec_bytes())
        &&& Self::spec_payload_ok(spec_payload(s))
    }

    open spec fn spec_decoded_len(s: Seq<u8>) -> int {
        spec_box_end(s)
    }

    open spec fn spec_decoded(s: Seq<u8>, v: Self) -> bool {
        Self::spec_payload_decoded(spec_payload(s), v)
    }

    fn decode(buf: &[u8]) -> (r: Result<(Self, usize)>) {
        let (header, payload) = BoxHeader::decode_typed(buf, Self::TYPE())?;
        let total = buf.len();
        assert(header.spec_external_size() + payload@.len() <= total);
        let n = header.external_size() + payload.len();
        let v = with_box_type(Self::TYPE(), Self::decode_payload(payload))?;
        Ok((v, n))
    }
}

impl BaseBox for ElstBox {
    open spec fn spec_box_type(&self) -> BoxType {
        Self::spec_type()
    }

    fn box_type(&self) -> (r: BoxType) {
        Self::TYPE()
    }
}

impl FullBox for ElstBox {
    open spec fn spec_full_box_version(&self) -> u8 {
        self.spec_version()
    }

    open spec fn spec_full_box_flags(&self) -> FullBoxFlags {
        FullBoxFlags::spec_new(0)
    }

    fn full_box_version(&self) -> (r: u8) {
        let mut i: usize = 0;
        while i < self.entries.len()
            invariant
                i <= self.entries@.len(),
                forall|k: int| 0 <= k < i ==> !elst_entry_large(#[trigger] self.entries@[k]),
            decreases self.entries@.len() - i,
        {
            let e = self.entries[i];
            if e.edit_duration > 0xffff_ffff || e.media_time < -0x8000_0000 || e.media_time
                > 0x7fff_ffff {
                assert(elst_entry_large(self.entries@[i as int]));
                assert(self.spec_version() == 1);
                assert(1u8 == self.spec_full_box_version());
                return 1;
            }
            i += 1;
        }
        assert(self.spec_version() == 0);
        assert(0u8 == self.spec_full_box_version());
        0
    }

    fn full_box_flags(&self) -> (r: FullBoxFlags) {
        FullBoxFlags::new(0)
    }
}

// ---------------------------------------------------------------------------
// url
// ---------------------------------------------------------------------------

/// The data entry URL box (`url `, ISO/IEC 14496-12 DataEntryUrlBox).
#[derive(Debug, Clone)]
#[allow(missing_docs)]
pub struct UrlBox {
    pub location: Option<Utf8String>,
}

impl UrlBox {
    /// The type of the box.
    pub open spec fn spec_type() -> BoxType {
        fourcc(0x75, 0x72, 0x6c, 0x20)
    }

    /// The type of the box: `url `.
    #[allow(non_snake_case)]
    pub fn TYPE() -> (r: BoxType)
        ensures
            r == Self::spec_type(),
    {
        BoxType::Normal([0x75, 0x72, 0x6c, 0x20])
    }

    /// The entry of media data in the same file.
    #[allow(non_snake_case)]
    pub fn LOCAL_FILE() -> (r: Self)
        ensures
            r.location is None,
    {
        Self { location: None }
    }

    /// The flags of the box: 1 (media data in the same file) when there is no location.
    pub open spec fn spec_flags(&self) -> u32 {
        if self.location is None {
            1
        } else {
            0
        }
    }

    /// The payload bytes of the box.
    pub open spec fn spec_payload_bytes(&self) -> Seq<u8> {
        full_header_bytes(0, self.spec_flags()) + match self.location {
            Some(l) => l.spec_encoding(),
            None => Seq::empty(),
        }
    }

    /// Whether `p` is the payload of a `url ` box: a location follows unless flag 0 is set.
    pub open spec fn spec_payload_ok(p: Seq<u8>) -> bool {
        p.len() >= 4 && (payload_flag(p, 0) || Utf8String::spec_can_decode(p.skip(4)))
    }

    /// Whether `v` is the box read from the payload `p`.
    pub open spec fn spec_payload_decoded(p: Seq<u8>, v: Self) -> bool {
        if payload_flag(p, 0) {
            v.location is None
        } else {
            v.location matches Some(l) && Utf8String::spec_decoded(p.skip(4), l)
        }
    }

    fn put_payload(&self, p: &mut Vec<u8>)
        ensures
            final(p)@ == old(p)@ + self.spec_payload_bytes(),
    {
        let ghost start = p@;
        let flags = self.full_box_flags();
        proof {
            FullBoxFlags::lemma_spec_new(self.spec_flags());
        }
        put_full_header(p, 0, flags.get());
        match &self.location {
            Some(l) => {
                let _ = l.encode_into(p);
            },
            None => {},
        }
        assert(p@ =~= start + self.spec_payload_bytes());
    }

    fn decode_payload(p: &[u8]) -> (r: Result<Self>)
        ensures
            r is Ok <==> Self::spec_payload_ok(p@),
            r matches Ok(v) ==> Self::spec_payload_decoded(p@, v),
    {
        if p.len() < 4 {
            return Err(Error::insufficient_buffer());
        }
        let mut offset: usize = 0;
        let flags = get_u32_at(p, &mut offset)? % 0x100_0000;
        if flags % 2 == 1 {
            Ok(Self { location: None })
        } else {
            let l = Utf8String::decode_at(p, &mut offset)?;
            Ok(Self { location: Some(l) })
        }
    }
}

impl Encode for UrlBox {
    open spec fn spec_encodable(&self) -> bool {
        spec_box_fits(self.spec_payload_bytes())
    }

    open spec fn spec_encoding(&self) -> Seq<u8> {
        spec_box_bytes(Self::spec_type().spec_bytes(), self.spec_payload_bytes())
    }

    fn encode_into(&self, out: &mut Vec<u8>) -> (r: Result<()>) {
        let mut p: Vec<u8> = Vec::new();
        self.put_payload(&mut p);
        finish_box(out, Self::TYPE(), p)
    }
}

impl Decode for UrlBox {
    open spec fn spec_can_decode(s: Seq<u8>) -> bool {
        &&& spec_can_split(s)
        &&& spec_is_type(s, Self::spec_type().spec_bytes())
        &&& Self::spec_payload_ok(spec_payload(s))
    }

    open spec fn spec_decoded_len(s: Seq<u8>) -> int {
        spec_box_end(s)
    }

    open spec fn spec_decoded(s: Seq<u8>, v: Self) -> bool {
        Self::spec_payload_decoded(spec_payload(s), v)
    }

    fn decode(buf: &[u8]) -> (r: Result<(Self, usize)>) {
        let (header, payload) = BoxHeader::decode_typed(buf, Self::TYPE())?;
        let total = buf.len();
        assert(header.spec_external_size() + payload@.len() <= total);
        let n = header.external_size() + payload.len();
        let v = with_box_type(Self::TYPE(), Self::decode_payload(payload))?;
        Ok((v, n))
    }
}

impl BaseBox for UrlBox {
    open spec fn spec_box_type(&self) -> BoxType {
        Self::spec_type()
    }

    fn box_type(&self) -> (r: BoxType) {
        Self::TYPE()
    }
}

impl FullBox for UrlBox {
    open spec fn spec_full_box_version(&self) -> u8 {
        0
    }

    open spec fn spec_full_box_flags(&self) -> FullBoxFlags {
        FullBoxFlags::spec_new(self.spec_flags())
    }

    fn full_box_version(&self) -> (r: u8) {
        0
    }

    fn full_box_flags(&self) -> (r: FullBoxFlags) {
        let flags: u32 = if self.location.is_none() {
            1
        } else {
            0
        };
        let r = FullBoxFlags::new(flags);
        assert(r == self.spec_full_box_flags());
        r
    }
}


// ---------------------------------------------------------------------------
// edts
// ---------------------------------------------------------------------------

/// The kind of a child of an `edts` box: `elst` are 0 to 0, other types -1.
pub open spec fn edts_child_kind(q: Seq<u8>) -> int {
    if spec_is_type(q, ElstBox::spec_type().spec_bytes()) {
        0
    } else {
        -1
    }
}

/// Whether a child of an `edts` box of kind `k` can be read.
pub open spec fn edts_child_ok(k: int, q: Seq<u8>) -> bool {
    ElstBox::spec_can_decode(q)
}

/// Whether the children of an `edts` box at the start of `q` can be read, given the kinds
/// already seen.
pub open spec fn edts_scan(q: Seq<u8>, seen: Set<int>) -> bool {
    spec_scan_children(
        q,
        seen,
        |q: Seq<u8>| edts_child_kind(q),
        |k: int| k == 0,
        |k: int, q: Seq<u8>| edts_child_ok(k, q),
        |seen: Set<int>| true,
    )
}

/// Whether the child `q` of kind `k` of a `edts` box is the field of `v` it is read into
/// (for the kind with several children, the one at `m`).
pub open spec fn edts_child_matches(k: int, q: Seq<u8>, m: int, v: EdtsBox) -> bool {
    v.elst_box matches Some(b) && ElstBox::spec_decoded(q, b)
}

/// Whether `v` is what reading the children of a `edts` box at the start of `q` gives, walking
/// them box by box: the first child of each known kind is read into its field, and every other child is the next unknown box (from `u` on); `seen`
/// holds the kinds read before `q`.
pub open spec fn edts_walk(q: Seq<u8>, seen: Set<int>, m: int, u: int, v: EdtsBox) -> bool
    decreases q.len(),
{
    if q.len() == 0 {
        &&& u == v.unknown_boxes@.len()
        &&& (v.elst_box is Some <==> seen.contains(0))
    } else if !spec_can_split(q) || spec_box_end(q) <= 0 {
        false
    } else {
        let k = edts_child_kind(q);
        if k >= 0 && !seen.contains(k) {
            &&& edts_child_matches(k, q, m, v)
            &&& edts_walk(q.skip(spec_box_end(q)), seen.insert(k), m, u, v)
        } else {
            &&& 0 <= u < v.unknown_boxes@.len()
            &&& UnknownBox::spec_decoded(q, v.unknown_boxes@[u])
            &&& edts_walk(q.skip(spec_box_end(q)), seen, m, u + 1, v)
        }
    }
}

/// Whether `v` holds the children of a `edts` box read so far.
pub open spec fn edts_agrees(v: EdtsBox, elst_box: Option<ElstBox>, unknown: Seq<UnknownBox>) -> bool {
    &&& elst_box matches Some(b) ==> v.elst_box == Some(b)
    &&& unknown.len() <= v.unknown_boxes@.len()
    &&& forall|j: int| 0 <= j < unknown.len() ==> v.unknown_boxes@[j] == #[trigger] unknown[j]
}

/// The edit box (`edts`, ISO/IEC 14496-12 EditBox).
#[derive(Debug, Clone)]
#[allow(missing_docs)]
pub struct EdtsBox {
    pub elst_box: Option<ElstBox>,
    pub unknown_boxes: Vec<UnknownBox>,
}

impl EdtsBox {
    /// The type of the box.
    pub open spec fn spec_type() -> BoxType {
        fourcc(0x65, 0x64, 0x74, 0x73)
    }

    /// The type of the box: `edts`.
    #[allow(non_snake_case)]
    pub fn TYPE() -> (r: BoxType)
        ensures
            r == Self::spec_type(),
    {
        BoxType::Normal([0x65, 0x64, 0x74, 0x73])
    }

    /// Whether all children can be encoded.
    pub open spec fn spec_children_encodable(&self) -> bool {
        &&& match self.elst_box {
            Some(b) => b.spec_encodable(),
            None => true,
        }
    }

    /// The payload bytes of the box: the children in a fixed order.
    pub open spec fn spec_payload_bytes(&self) -> Seq<u8> {
        (match self.elst_box {
            Some(b) => b.spec_encoding(),
            None => Seq::empty(),
        }) + unknown_boxes_bytes(self.unknown_boxes@)
    }

    /// Whether `p` is the payload of an `edts` box.
    pub open spec fn spec_payload_ok(p: Seq<u8>) -> bool {
        edts_scan(p, Set::empty())
    }

    /// Whether `v` is the box read from the payload `p`: the children, walked box by box, as
    /// [`edts_walk`] says.
    pub open spec fn spec_payload_decoded(p: Seq<u8>, v: Self) -> bool {
        edts_walk(p, Set::empty(), 0, 0, v)
    }

    #[verifier::spinoff_prover]
    #[verifier::rlimit(40)]
    fn put_payload(&self, p: &mut Vec<u8>) -> (r: Result<()>)
        ensures
            r is Ok <==> self.spec_children_encodable(),
            r is Ok ==> final(p)@ == old(p)@ + self.spec_payload_bytes(),
            r matches Err(e) ==> e.kind == ErrorKind::InvalidInput,
    {
        let ghost start = p@;
        match &self.elst_box {
            Some(b) => b.encode_into(p)?,
            None => {},
        }
        assert(p@ =~= start + (match self.elst_box {
            Some(b) => b.spec_encoding(),
            None => Seq::empty(),
        }));
        put_unknown_boxes(p, self.unknown_boxes.as_slice());
        assert(p@ =~= start + self.spec_payload_bytes());
        Ok(())
    }

    #[verifier::spinoff_prover]
    #[verifier::rlimit(40)]
    fn decode_payload(p: &[u8]) -> (r: Result<Self>)
        ensures
            r is Ok <==> Self::spec_payload_ok(p@),
            r matches Ok(v) ==> Self::spec_payload_decoded(p@, v),
    {
        let mut offset: usize = 0;
        let mut elst_box: Option<ElstBox> = None;
        let mut unknown_boxes: Vec<UnknownBox> = Vec::new();
        let ghost mut seen: Set<int> = Set::empty();
        assert(p@.skip(0) =~= p@);
        while offset < p.len()
            invariant
                offset <= p@.len(),
                edts_scan(p@, Set::empty()) == edts_scan(p@.skip(offset as int), seen),
                elst_box is Some <==> seen.contains(0),
                forall|v: EdtsBox|
                    #[trigger] edts_agrees(v, elst_box, unknown_boxes@)
                        ==> (edts_walk(p@, Set::empty(), 0, 0, v) == edts_walk(
                        p@.skip(offset as int),
                        seen,
                        0,
                        unknown_boxes@.len() as int,
                        v,
                    )),
            decreases p@.len() - offset,
        {
            let ghost o = offset as int;
            let ghost q = p@.skip(o);
            let ghost seen0 = seen;
            let ghost (g0, gu) = (elst_box, unknown_boxes@);
            let ghost k = edts_child_kind(q);
            let ty = peek_box_type(p, offset)?;
            proof {
                reveal_with_fuel(spec_scan_children, 1);
            }
            if ty.is_same(&ElstBox::TYPE()) && elst_box.is_none() {
                let b = ElstBox::decode_at(p, &mut offset)?;
                assert(ElstBox::spec_decoded(p@.skip(o), b));
                elst_box = Some(b);
                proof {
                    seen = seen.insert(0);
                }
            } else {
                let b = UnknownBox::decode_at(p, &mut offset)?;
                assert(UnknownBox::spec_decoded(p@.skip(o), b));
                unknown_boxes.push(b);
            }
            assert(p@.skip(offset as int) =~= q.skip(spec_box_end(q)));
            proof {
                assert forall|v: EdtsBox|
                    #[trigger] edts_agrees(v, elst_box, unknown_boxes@)
                    implies (edts_walk(p@, Set::empty(), 0, 0, v) == edts_walk(
                    p@.skip(offset as int),
                    seen,
                    0,
                    unknown_boxes@.len() as int,
                    v,
                )) by {
                    assert(edts_agrees(v, g0, gu)) by {
                        assert forall|j: int| 0 <= j < gu.len() implies v.unknown_boxes@[j] == #[trigger] gu[j] by {
                            assert(gu[j] == unknown_boxes@[j]);
                        }
                    }
                    if k < 0 || seen0.contains(k) {
                        assert(unknown_boxes@[gu.len() as int] == unknown_boxes@.last());
                    }
                }
            }
        }
        let ghost (f0, fu) = (elst_box, unknown_boxes@);
        let v = Self {
            elst_box: elst_box,
            unknown_boxes,
        };
        proof {
            assert(edts_agrees(v, f0, fu));
            assert(p@.skip(offset as int) =~= Seq::<u8>::empty());
        }
        Ok(v)
    }
}

impl Encode for EdtsBox {
    open spec fn spec_encodable(&self) -> bool {
        self.spec_children_encodable() && spec_box_fits(self.spec_payload_bytes())
    }

    open spec fn spec_encoding(&self) -> Seq<u8> {
        spec_box_bytes(Self::spec_type().spec_bytes(), self.spec_payload_bytes())
    }

    fn encode_into(&self, out: &mut Vec<u8>) -> (r: Result<()>) {
        let mut p: Vec<u8> = Vec::new();
        self.put_payload(&mut p)?;
        finish_box(out, Self::TYPE(), p)
    }
}

impl Decode for EdtsBox {
    open spec fn spec_can_decode(s: Seq<u8>) -> bool {
        &&& spec_can_split(s)
        &&& spec_is_type(s, Self::spec_type().spec_bytes())
        &&& Self::spec_payload_ok(spec_payload(s))
    }

    open spec fn spec_decoded_len(s: Seq<u8>) -> int {
        spec_box_end(s)
    }

    open spec fn spec_decoded(s: Seq<u8>, v: Self) -> bool {
        Self::spec_payload_decoded(spec_payload(s), v)
    }

    fn decode(buf: &[u8]) -> (r: Result<(Self, usize)>) {
        let (header, payload) = BoxHeader::decode_typed(buf, Self::TYPE())?;
        let total = buf.len();
        assert(header.spec_external_size() + payload@.len() <= total);
        let n = header.external_size() + payload.len();
        let v = with_box_type(Self::TYPE(), Self::decode_payload(payload))?;
        Ok((v, n))
    }
}

impl BaseBox for EdtsBox {
    open spec fn spec_box_type(&self) -> BoxType {
        Self::spec_type()
    }

    fn box_type(&self) -> (r: BoxType) {
        Self::TYPE()
    }
}


// ---------------------------------------------------------------------------
// dref
// ---------------------------------------------------------------------------

/// Whether `n` data entries can be read from the start of `q`, given whether a `url ` entry
/// was already read.
pub open spec fn dref_scan(q: Seq<u8>, n: nat, seen_url: bool) -> bool
    decreases n,
{
    if n == 0 {
        true
    } else if !spec_can_split(q) {
        false
    } else {
        let url = spec_is_type(q, UrlBox::spec_type().spec_bytes()) && !seen_url;
        &&& url ==> UrlBox::spec_can_decode(q)
        &&& dref_scan(q.skip(spec_box_end(q)), (n - 1) as nat, seen_url || url)
    }
}

/// Whether `v` is what reading `n` entries of a `dref` box at the start of `q` gives, entry by
/// entry: the first `url ` entry is its location box, every other entry the next unknown box
/// (from `u` on); `seen_url` says whether a `url ` entry was read before `q`.
pub open spec fn dref_walk(q: Seq<u8>, n: nat, seen_url: bool, u: int, v: DrefBox) -> bool
    decreases n,
{
    if n == 0 {
        &&& u == v.unknown_boxes@.len()
        &&& (v.url_box is Some <==> seen_url)
    } else if !spec_can_split(q) {
        false
    } else {
        let url = spec_is_type(q, UrlBox::spec_type().spec_bytes()) && !seen_url;
        if url {
            &&& v.url_box matches Some(b) && UrlBox::spec_decoded(q, b)
            &&& dref_walk(q.skip(spec_box_end(q)), (n - 1) as nat, true, u, v)
        } else {
            &&& 0 <= u < v.unknown_boxes@.len()
            &&& UnknownBox::spec_decoded(q, v.unknown_boxes@[u])
            &&& dref_walk(q.skip(spec_box_end(q)), (n - 1) as nat, seen_url, u + 1, v)
        }
    }
}

/// Whether `v` holds the entries of a `dref` box read so far.
pub open spec fn dref_agrees(v: DrefBox, url: Option<UrlBox>, unknown: Seq<UnknownBox>) -> bool {
    &&& url matches Some(b) ==> v.url_box == Some(b)
    &&& unknown.len() <= v.unknown_boxes@.len()
    &&& forall|j: int| 0 <= j < unknown.len() ==> v.unknown_boxes@[j] == #[trigger] unknown[j]
}

/// The data reference box (`dref`, ISO/IEC 14496-12 DataReferenceBox).
#[derive(Debug, Clone)]
#[allow(missing_docs)]
pub struct DrefBox {
    pub url_box: Option<UrlBox>,
    pub unknown_boxes: Vec<UnknownBox>,
}

impl DrefBox {
    /// The type of the box.
    pub open spec fn spec_type() -> BoxType {
        fourcc(0x64, 0x72, 0x65, 0x66)
    }

    /// The type of the box: `dref`.
    #[allow(non_snake_case)]
    pub fn TYPE() -> (r: BoxType)
        ensures
            r == Self::spec_type(),
    {
        BoxType::Normal([0x64, 0x72, 0x65, 0x66])
    }

    /// The reference to media data in the same file.
    #[allow(non_snake_case)]
    pub fn LOCAL_FILE() -> (r: Self)
        ensures
            r.url_box matches Some(u) && u.location is None,
            r.unknown_boxes@.len() == 0,
    {
        Self { url_box: Some(UrlBox::LOCAL_FILE()), unknown_boxes: Vec::new() }
    }

    /// Whether all entries can be encoded, and counted in 32 bits.
    pub open spec fn spec_children_encodable(&self) -> bool {
        &&& self.unknown_boxes@.len() < u32::MAX
        &&& match self.url_box {
            Some(b) => b.spec_encodable(),
            None => true,
        }
    }

    /// The number of entries.
    pub open spec fn spec_entry_count(&self) -> int {
        (if self.url_box is Some {
            1int
        } else {
            0
        }) + self.unknown_boxes@.len()
    }

    /// The payload bytes of the box.
    pub open spec fn spec_payload_bytes(&self) -> Seq<u8> {
        full_header_bytes(0, 0) + be_u32(self.spec_entry_count() as u32) + (match self.url_box {
            Some(b) => b.spec_encoding(),
            None => Seq::empty(),
        }) + unknown_boxes_bytes(self.unknown_boxes@)
    }

    /// Whether `p` is the payload of a `dref` box: the announced number of entries, each a
    /// whole box.
    pub open spec fn spec_payload_ok(p: Seq<u8>) -> bool {
        p.len() >= 8 && dref_scan(p.skip(8), get_u32(p, 4) as nat, false)
    }

    /// Whether `v` is the box read from the payload `p`: its entries, read one after another as
    /// [`dref_walk`] says.
    pub open spec fn spec_payload_decoded(p: Seq<u8>, v: Self) -> bool {
        &&& v.spec_entry_count() == get_u32(p, 4)
        &&& dref_walk(p.skip(8), get_u32(p, 4) as nat, false, 0, v)
    }

    #[verifier::spinoff_prover]
    #[verifier::rlimit(40)]
    fn put_payload(&self, p: &mut Vec<u8>) -> (r: Result<()>)
        ensures
            r is Ok <==> self.spec_children_encodable(),
            r is Ok ==> final(p)@ == old(p)@ + self.spec_payload_bytes(),
            r matches Err(e) ==> e.kind == ErrorKind::InvalidInput,
    {
        let ghost start = p@;
        put_full_header(p, 0, 0);
        if self.unknown_boxes.len() >= 0xffff_ffff {
            return Err(Error::invalid_input("Too many data entries"));
        }
        let n: u32 = if self.url_box.is_some() {
            1
        } else {
            0
        };
        let count: u32 = n + self.unknown_boxes.len() as u32;
        assert(count == self.spec_entry_count());
        put_u32(p, count);
        let ghost mid = p@;
        assert(mid == start + full_header_bytes(0, 0) + be_u32(count));
        match &self.url_box {
            Some(b) => b.encode_into(p)?,
            None => {},
        }
        put_unknown_boxes(p, self.unknown_boxes.as_slice());
        assert(p@ =~= start + self.spec_payload_bytes());
        Ok(())
    }

    #[verifier::spinoff_prover]
    #[verifier::rlimit(40)]
    fn decode_payload(p: &[u8]) -> (r: Result<Self>)
        ensures
            r is Ok <==> Self::spec_payload_ok(p@),
            r matches Ok(v) ==> Self::spec_payload_decoded(p@, v),
    {
        if p.len() < 8 {
            return Err(Error::insufficient_buffer());
        }
        let mut offset: usize = 4;
        let count = get_u32_at(p, &mut offset)?;
        let mut url_box: Option<UrlBox> = None;
        let mut unknown_boxes: Vec<UnknownBox> = Vec::new();
        let mut i: u32 = 0;
        while i < count
            invariant
                p@.len() >= 8,
                count == get_u32(p@, 4),
                i <= count,
                8 <= offset <= p@.len(),
                dref_scan(p@.skip(8), count as nat, false) == dref_scan(
                    p@.skip(offset as int),
                    (count - i) as nat,
                    url_box is Some,
                ),
                (if url_box is Some {
                    1int
                } else {
                    0
                }) + unknown_boxes@.len() == i,
                forall|v: DrefBox|
                    #[trigger] dref_agrees(v, url_box, unknown_boxes@) ==> (dref_walk(
                        p@.skip(8),
                        count as nat,
                        false,
                        0,
                        v,
                    ) == dref_walk(
                        p@.skip(offset as int),
                        (count - i) as nat,
                        url_box is Some,
                        unknown_boxes@.len() as int,
                        v,
                    )),
            decreases count - i,
        {
            let ghost o = offset as int;
            let ghost q = p@.skip(o);
            let ghost (g0, gu) = (url_box, unknown_boxes@);
            if offset == p.len() {
                return Err(Error::insufficient_buffer());
            }
            let ty = peek_box_type(p, offset)?;
            if ty.is_same(&UrlBox::TYPE()) && url_box.is_none() {
                let b = UrlBox::decode_at(p, &mut offset)?;
                assert(UrlBox::spec_decoded(p@.skip(o), b));
                url_box = Some(b);
            } else {
                let b = UnknownBox::decode_at(p, &mut offset)?;
                assert(UnknownBox::spec_decoded(p@.skip(o), b));
                unknown_boxes.push(b);
            }
            assert(p@.skip(offset as int) =~= q.skip(spec_box_end(q)));
            proof {
                assert forall|v: DrefBox| #[trigger] dref_agrees(v, url_box, unknown_boxes@) implies (dref_walk(
                    p@.skip(8),
                    count as nat,
                    false,
                    0,
                    v,
                ) == dref_walk(
                    p@.skip(offset as int),
                    (count - (i + 1)) as nat,
                    url_box is Some,
                    unknown_boxes@.len() as int,
                    v,
                )) by {
                    assert(dref_agrees(v, g0, gu)) by {
                        assert forall|j: int| 0 <= j < gu.len() implies v.unknown_boxes@[j] == #[trigger] gu[j] by {
                            assert(gu[j] == unknown_boxes@[j]);
                        }
                    }
                    if unknown_boxes@.len() > gu.len() {
                        assert(unknown_boxes@[gu.len() as int] == unknown_boxes@.last());
                    }
                }
            }
            i += 1;
        }
        let ghost (f0, fu) = (url_box, unknown_boxes@);
        let v = Self { url_box, unknown_boxes };
        proof {
            assert(dref_agrees(v, f0, fu));
        }
        Ok(v)
    }
}

impl Encode for DrefBox {
    open spec fn spec_encodable(&self) -> bool {
        self.spec_children_encodable() && spec_box_fits(self.spec_payload_bytes())
    }

    open spec fn spec_encoding(&self) -> Seq<u8> {
        spec_box_bytes(Self::spec_type().spec_bytes(), self.spec_payload_bytes())
    }

    fn encode_into(&self, out: &mut Vec<u8>) -> (r: Result<()>) {
        let mut p: Vec<u8> = Vec::new();
        self.put_payload(&mut p)?;
        finish_box(out, Self::TYPE(), p)
    }
}

impl Decode for DrefBox {
    open spec fn spec_can_decode(s: Seq<u8>) -> bool {
        &&& spec_can_split(s)
        &&& spec_is_type(s, Self::spec_type().spec_bytes())
        &&& Self::spec_payload_ok(spec_payload(s))
    }

    open spec fn spec_decoded_len(s: Seq<u8>) -> int {
        spec_box_end(s)
    }

    open spec fn spec_decoded(s: Seq<u8>, v: Self) -> bool {
        Self::spec_payload_decoded(spec_payload(s), v)
    }

    fn decode(buf: &[u8]) -> (r: Result<(Self, usize)>) {
        let (header, payload) = BoxHeader::decode_typed(buf, Self::TYPE())?;
        let total = buf.len();
        assert(header.spec_external_size() + payload@.len() <= total);
        let n = header.external_size() + payload.len();
        let v = with_box_type(Self::TYPE(), Self::decode_payload(payload))?;
        Ok((v, n))
    }
}

impl BaseBox for DrefBox {
    open spec fn spec_box_type(&self) -> BoxType {
        Self::spec_type()
    }

    fn box_type(&self) -> (r: BoxType) {
        Self::TYPE()
    }
}

impl FullBox for DrefBox {
    open spec fn spec_full_box_version(&self) -> u8 {
        0
    }

    open spec fn spec_full_box_flags(&self) -> FullBoxFlags {
        FullBoxFlags::spec_new(0)
    }

    fn full_box_version(&self) -> (r: u8) {
        0
    }

    fn full_box_flags(&self) -> (r: FullBoxFlags) {
        FullBoxFlags::new(0)
    }
}


// ---------------------------------------------------------------------------
// dinf
// ---------------------------------------------------------------------------

/// The kind of a child of an `dinf` box: `dref` are 0 to 0, other types -1.
pub open spec fn dinf_child_kind(q: Seq<u8>) -> int {
    if spec_is_type(q, DrefBox::spec_type().spec_bytes()) {
        0
    } else {
        -1
    }
}

/// Whether a child of an `dinf` box of kind `k` can be read.
pub open spec fn dinf_child_ok(k: int, q: Seq<u8>) -> bool {
    DrefBox::spec_can_decode(q)
}

/// Whether the children of an `dinf` box at the start of `q` can be read, given the kinds
/// already seen.
pub open spec fn dinf_scan(q: Seq<u8>, seen: Set<int>) -> bool {
    spec_scan_children(
        q,
        seen,
        |q: Seq<u8>| dinf_child_kind(q),
        |k: int| k == 0,
        |k: int, q: Seq<u8>| dinf_child_ok(k, q),
        |seen: Set<int>| seen.contains(0),
    )
}

/// Whether the child `q` of kind `k` of a `dinf` box is the field of `v` it is read into
/// (for the kind with several children, the one at `m`).
pub open spec fn dinf_child_matches(k: int, q: Seq<u8>, m: int, v: DinfBox) -> bool {
    DrefBox::spec_decoded(q, v.dref_box)
}

/// Whether `v` is what reading the children of a `dinf` box at the start of `q` gives, walking
/// them box by box: the first child of each known kind is read into its field, and every other child is the next unknown box (from `u` on); `seen`
/// holds the kinds read before `q`.
pub open spec fn dinf_walk(q: Seq<u8>, seen: Set<int>, m: int, u: int, v: DinfBox) -> bool
    decreases q.len(),
{
    if q.len() == 0 {
        &&& u == v.unknown_boxes@.len()
    } else if !spec_can_split(q) || spec_box_end(q) <= 0 {
        false
    } else {
        let k = dinf_child_kind(q);
        if k >= 0 && !seen.contains(k) {
            &&& dinf_child_matches(k, q, m, v)
            &&& dinf_walk(q.skip(spec_box_end(q)), seen.insert(k), m, u, v)
        } else {
            &&& 0 <= u < v.unknown_boxes@.len()
            &&& UnknownBox::spec_decoded(q, v.unknown_boxes@[u])
            &&& dinf_walk(q.skip(spec_box_end(q)), seen, m, u + 1, v)
        }
    }
}

/// Whether `v` holds the children of a `dinf` box read so far.
pub open spec fn dinf_agrees(v: DinfBox, dref_box: Option<DrefBox>, unknown: Seq<UnknownBox>) -> bool {
    &&& dref_box matches Some(b) ==> v.dref_box == b
    &&& unknown.len() <= v.unknown_boxes@.len()
    &&& forall|j: int| 0 <= j < unknown.len() ==> v.unknown_boxes@[j] == #[trigger] unknown[j]
}

/// The data information box (`dinf`, ISO/IEC 14496-12 DataInformationBox).
#[derive(Debug, Clone)]
#[allow(missing_docs)]
pub struct DinfBox {
    pub dref_box: DrefBox,
    pub unknown_boxes: Vec<UnknownBox>,
}

impl DinfBox {
    /// The data information of media data in the same file.
    #[allow(non_snake_case)]
    pub fn LOCAL_FILE() -> (r: Self)
        ensures
            r.dref_box.url_box matches Some(u) && u.location is None,
            r.dref_box.unknown_boxes@.len() == 0,
            r.unknown_boxes@.len() == 0,
    {
        Self { dref_box: DrefBox::LOCAL_FILE(), unknown_boxes: Vec::new() }
    }

    /// The type of the box.
    pub open spec fn spec_type() -> BoxType {
        fourcc(0x64, 0x69, 0x6e, 0x66)
    }

    /// The type of the box: `dinf`.
    #[allow(non_snake_case)]
    pub fn TYPE() -> (r: BoxType)
        ensures
            r == Self::spec_type(),
    {
        BoxType::Normal([0x64, 0x69, 0x6e, 0x66])
    }

    /// Whether all children can be encoded.
    pub open spec fn spec_children_encodable(&self) -> bool {
        &&& self.dref_box.spec_encodable()
    }

    /// The payload bytes of the box: the children in a fixed order.
    pub open spec fn spec_payload_bytes(&self) -> Seq<u8> {
        self.dref_box.spec_encoding() + unknown_boxes_bytes(self.unknown_boxes@)
    }

    /// Whether `p` is the payload of an `dinf` box.
    pub open spec fn spec_payload_ok(p: Seq<u8>) -> bool {
        dinf_scan(p, Set::empty())
    }

    /// Whether `v` is the box read from the payload `p`: the children, walked box by box, as
    /// [`dinf_walk`] says.
    pub open spec fn spec_payload_decoded(p: Seq<u8>, v: Self) -> bool {
        dinf_walk(p, Set::empty(), 0, 0, v)
    }

    #[verifier::spinoff_prover]
    #[verifier::rlimit(40)]
    fn put_payload(&self, p: &mut Vec<u8>) -> (r: Result<()>)
        ensures
            r is Ok <==> self.spec_children_encodable(),
            r is Ok ==> final(p)@ == old(p)@ + self.spec_payload_bytes(),
            r matches Err(e) ==> e.kind == ErrorKind::InvalidInput,
    {
        let ghost start = p@;
        self.dref_box.encode_into(p)?;
        assert(p@ =~= start + self.dref_box.spec_encoding());
        put_unknown_boxes(p, self.unknown_boxes.as_slice());
        assert(p@ =~= start + self.spec_payload_bytes());
        Ok(())
    }

    #[verifier::spinoff_prover]
    #[verifier::rlimit(40)]
    fn decode_payload(p: &[u8]) -> (r: Result<Self>)
        ensures
            r is Ok <==> Self::spec_payload_ok(p@),
            r matches Ok(v) ==> Self::spec_payload_decoded(p@, v),
    {
        let mut offset: usize = 0;
        let mut dref_box: Option<DrefBox> = None;
        let mut unknown_boxes: Vec<UnknownBox> = Vec::new();
        let ghost mut seen: Set<int> = Set::empty();
        assert(p@.skip(0) =~= p@);
        while offset < p.len()
            invariant
                offset <= p@.len(),
                dinf_scan(p@, Set::empty()) == dinf_scan(p@.skip(offset as int), seen),
                dref_box is Some <==> seen.contains(0),
                forall|v: DinfBox|
                    #[trigger] dinf_agrees(v, dref_box, unknown_boxes@)
                        ==> (dinf_walk(p@, Set::empty(), 0, 0, v) == dinf_walk(
                        p@.skip(offset as int),
                        seen,
                        0,
                        unknown_boxes@.len() as int,
                        v,
                    )),
            decreases p@.len() - offset,
        {
            let ghost o = offset as int;
            let ghost q = p@.skip(o);
            let ghost seen0 = seen;
            let ghost (g0, gu) = (dref_box, unknown_boxes@);
            let ghost k = dinf_child_kind(q);
            let ty = peek_box_type(p, offset)?;
            proof {
                reveal_with_fuel(spec_scan_children, 1);
            }
            if ty.is_same(&DrefBox::TYPE()) && dref_box.is_none() {
                let b = DrefBox::decode_at(p, &mut offset)?;
                assert(DrefBox::spec_decoded(p@.skip(o), b));
                dref_box = Some(b);
                proof {
                    seen = seen.insert(0);
                }
            } else {
                let b = UnknownBox::decode_at(p, &mut offset)?;
                assert(UnknownBox::spec_decoded(p@.skip(o), b));
                unknown_boxes.push(b);
            }
            assert(p@.skip(offset as int) =~= q.skip(spec_box_end(q)));
            proof {
                assert forall|v: DinfBox|
                    #[trigger] dinf_agrees(v, dref_box, unknown_boxes@)
                    implies (dinf_walk(p@, Set::empty(), 0, 0, v) == dinf_walk(
                    p@.skip(offset as int),
                    seen,
                    0,
                    unknown_boxes@.len() as int,
                    v,
                )) by {
                    assert(dinf_agrees(v, g0, gu)) by {
                        assert forall|j: int| 0 <= j < gu.len() implies v.unknown_boxes@[j] == #[trigger] gu[j] by {
                            assert(gu[j] == unknown_boxes@[j]);
                        }
                    }
                    if k < 0 || seen0.contains(k) {
                        assert(unknown_boxes@[gu.len() as int] == unknown_boxes@.last());
                    }
                }
            }
        }
        let ghost (f0, fu) = (dref_box, unknown_boxes@);
        let v = Self {
            dref_box: check_mandatory_box(dref_box, "dref", "dinf")?,
            unknown_boxes,
        };
        proof {
            assert(dinf_agrees(v, f0, fu));
            assert(p@.skip(offset as int) =~= Seq::<u8>::empty());
        }
        Ok(v)
    }
}

impl Encode for DinfBox {
    open spec fn spec_encodable(&self) -> bool {
        self.spec_children_encodable() && spec_box_fits(self.spec_payload_bytes())
    }

    open spec fn spec_encoding(&self) -> Seq<u8> {
        spec_box_bytes(Self::spec_type().spec_bytes(), self.spec_payload_bytes())
    }

    fn encode_into(&self, out: &mut Vec<u8>) -> (r: Result<()>) {
        let mut p: Vec<u8> = Vec::new();
        self.put_payload(&mut p)?;
        finish_box(out, Self::TYPE(), p)
    }
}

impl Decode for DinfBox {
    open spec fn spec_can_decode(s: Seq<u8>) -> bool {
        &&& spec_can_split(s)
        &&& spec_is_type(s, Self::spec_type().spec_bytes())
        &&& Self::spec_payload_ok(spec_payload(s))
    }

    open spec fn spec_decoded_len(s: Seq<u8>) -> int {
        spec_box_end(s)
    }

    open spec fn spec_decoded(s: Seq<u8>, v: Self) -> bool {
        Self::spec_payload_decoded(spec_payload(s), v)
    }

    fn decode(buf: &[u8]) -> (r: Result<(Self, usize)>) {
        let (header, payload) = BoxHeader::decode_typed(buf, Self::TYPE())?;
        let total = buf.len();
        assert(header.spec_external_size() + payload@.len() <= total);
        let n = header.external_size() + payload.len();
        let v = with_box_type(Self::TYPE(), Self::decode_payload(payload))?;
        Ok((v, n))
    }
}

impl BaseBox for DinfBox {
    open spec fn spec_box_type(&self) -> BoxType {
        Self::spec_type()
    }

    fn box_type(&self) -> (r: BoxType) {
        Self::TYPE()
    }
}

// ---------------------------------------------------------------------------
// minf
// ---------------------------------------------------------------------------

/// The kind of a child of an `minf` box: `smhd`, `vmhd`, `dinf`, `stbl` are 0 to 3, other types -1.
pub open spec fn minf_child_kind(q: Seq<u8>) -> int {
    if spec_is_type(q, SmhdBox::spec_type().spec_bytes()) {
        0
    } else if spec_is_type(q, VmhdBox::spec_type().spec_bytes()) {
        1
    } else if spec_is_type(q, DinfBox::spec_type().spec_bytes()) {
        2
    } else if spec_is_type(q, StblBox::spec_type().spec_bytes()) {
        3
    } else {
        -1
    }
}

/// Whether a child of an `minf` box of kind `k` can be read.
pub open spec fn minf_child_ok(k: int, q: Seq<u8>) -> bool {
    if k == 0 {
        SmhdBox::spec_can_decode(q)
    } else if k == 1 {
        VmhdBox::spec_can_decode(q)
    } else if k == 2 {
        DinfBox::spec_can_decode(q)
    } else {
        StblBox::spec_can_decode(q)
    }
}

/// Whether the children of an `minf` box at the start of `q` can be read, given the kinds
/// already seen.
pub open spec fn minf_scan(q: Seq<u8>, seen: Set<int>) -> bool {
    spec_scan_children(
        q,
        seen,
        |q: Seq<u8>| minf_child_kind(q),
        |k: int| k == 0 || k == 1 || k == 2 || k == 3,
        |k: int, q: Seq<u8>| minf_child_ok(k, q),
        |seen: Set<int>| seen.contains(2) && seen.contains(3),
    )
}

/// The media information box (`minf`, ISO/IEC 14496-12 MediaInformationBox).
///
/// Whether the child `q` of kind `k` of a `minf` box is the field of `v` it is read into.
pub open spec fn minf_child_matches(k: int, q: Seq<u8>, v: MinfBox) -> bool {
    if k == 0 {
        v.smhd_or_vmhd_box matches Some(Either::A(b)) && SmhdBox::spec_decoded(q, b)
    } else if k == 1 {
        v.smhd_or_vmhd_box matches Some(Either::B(b)) ==> VmhdBox::spec_decoded(q, b)
    } else if k == 2 {
        DinfBox::spec_decoded(q, v.dinf_box)
    } else {
        StblBox::spec_decoded(q, v.stbl_box)
    }
}

/// Whether `v` is what reading the children of a `minf` box at the start of `q` gives, walking
/// them box by box: the first child of each known kind is read into its field (an `smhd` child
/// wins over a `vmhd` one), and every other child is the next unknown box (from `u` on);
/// `seen` holds the kinds read before `q`.
pub open spec fn minf_walk(q: Seq<u8>, seen: Set<int>, u: int, v: MinfBox) -> bool
    decreases q.len(),
{
    if q.len() == 0 {
        &&& u == v.unknown_boxes@.len()
        &&& (v.smhd_or_vmhd_box matches Some(Either::A(_)) <==> seen.contains(0))
        &&& (v.smhd_or_vmhd_box is None <==> !seen.contains(0) && !seen.contains(1))
    } else if !spec_can_split(q) || spec_box_end(q) <= 0 {
        false
    } else {
        let k = minf_child_kind(q);
        if k >= 0 && !seen.contains(k) {
            &&& minf_child_matches(k, q, v)
            &&& minf_walk(q.skip(spec_box_end(q)), seen.insert(k), u, v)
        } else {
            &&& 0 <= u < v.unknown_boxes@.len()
            &&& UnknownBox::spec_decoded(q, v.unknown_boxes@[u])
            &&& minf_walk(q.skip(spec_box_end(q)), seen, u + 1, v)
        }
    }
}

/// Whether `v` holds the children of a `minf` box read so far.
pub open spec fn minf_agrees(
    v: MinfBox,
    smhd: Option<SmhdBox>,
    vmhd: Option<VmhdBox>,
    dinf: Option<DinfBox>,
    stbl: Option<StblBox>,
    unknown: Seq<UnknownBox>,
) -> bool {
    &&& smhd matches Some(b) ==> v.smhd_or_vmhd_box == Some(Either::<SmhdBox, VmhdBox>::A(b))
    &&& vmhd matches Some(b) ==> (v.smhd_or_vmhd_box matches Some(Either::B(_)) ==> v.smhd_or_vmhd_box
        == Some(Either::<SmhdBox, VmhdBox>::B(b)))
    &&& dinf matches Some(b) ==> v.dinf_box == b
    &&& stbl matches Some(b) ==> v.stbl_box == b
    &&& unknown.len() <= v.unknown_boxes@.len()
    &&& forall|j: int| 0 <= j < unknown.len() ==> v.unknown_boxes@[j] == #[trigger] unknown[j]
}

/// `smhd_or_vmhd_box` is `None` for tracks that are neither audio nor video.
#[derive(Debug, Clone)]
#[allow(missing_docs)]
pub struct MinfBox {
    pub smhd_or_vmhd_box: Option<Either<SmhdBox, VmhdBox>>,
    pub dinf_box: DinfBox,
    pub stbl_box: StblBox,
    pub unknown_boxes: Vec<UnknownBox>,
}

impl MinfBox {
    /// The type of the box.
    pub open spec fn spec_type() -> BoxType {
        fourcc(0x6d, 0x69, 0x6e, 0x66)
    }

    /// The type of the box: `minf`.
    #[allow(non_snake_case)]
    pub fn TYPE() -> (r: BoxType)
        ensures
            r == Self::spec_type(),
    {
        BoxType::Normal([0x6d, 0x69, 0x6e, 0x66])
    }

    /// Whether all children can be encoded.
    pub open spec fn spec_children_encodable(&self) -> bool {
        &&& match self.smhd_or_vmhd_box {
            Some(Either::A(b)) => b.spec_encodable(),
            Some(Either::B(b)) => b.spec_encodable(),
            None => true,
        }
        &&& self.dinf_box.spec_encodable()
        &&& self.stbl_box.spec_encodable()
    }

    /// The payload bytes of the box: the children in a fixed order.
    pub open spec fn spec_payload_bytes(&self) -> Seq<u8> {
        (match self.smhd_or_vmhd_box {
            Some(Either::A(b)) => b.spec_encoding(),
            Some(Either::B(b)) => b.spec_encoding(),
            None => Seq::empty(),
        }) + self.dinf_box.spec_encoding() + self.stbl_box.spec_encoding() + unknown_boxes_bytes(self.unknown_boxes@)
    }

    /// Whether `p` is the payload of an `minf` box.
    pub open spec fn spec_payload_ok(p: Seq<u8>) -> bool {
        minf_scan(p, Set::empty())
    }

    /// Whether `v` is the box read from the payload `p`: the children, walked box by box, as
    /// [`minf_walk`] says.
    pub open spec fn spec_payload_decoded(p: Seq<u8>, v: Self) -> bool {
        minf_walk(p, Set::empty(), 0, v)
    }

    #[verifier::spinoff_prover]
    #[verifier::rlimit(40)]
    fn put_payload(&self, p: &mut Vec<u8>) -> (r: Result<()>)
        ensures
            r is Ok <==> self.spec_children_encodable(),
            r is Ok ==> final(p)@ == old(p)@ + self.spec_payload_bytes(),
            r matches Err(e) ==> e.kind == ErrorKind::InvalidInput,
    {
        let ghost start = p@;
        match &self.smhd_or_vmhd_box {
            Some(Either::A(b)) => b.encode_into(p)?,
            Some(Either::B(b)) => b.encode_into(p)?,
            None => {},
        }
        assert(p@ =~= start + (match self.smhd_or_vmhd_box {
            Some(Either::A(b)) => b.spec_encoding(),
            Some(Either::B(b)) => b.spec_encoding(),
            None => Seq::empty(),
        }));
        self.dinf_box.encode_into(p)?;
        assert(p@ =~= start + (match self.smhd_or_vmhd_box {
            Some(Either::A(b)) => b.spec_encoding(),
            Some(Either::B(b)) => b.spec_encoding(),
            None => Seq::empty(),
        }) + self.dinf_box.spec_encoding());
        self.stbl_box.encode_into(p)?;
        assert(p@ =~= start + (match self.smhd_or_vmhd_box {
            Some(Either::A(b)) => b.spec_encoding(),
            Some(Either::B(b)) => b.spec_encoding(),
            None => Seq::empty(),
        }) + self.dinf_box.spec_encoding() + self.stbl_box.spec_encoding());
        put_unknown_boxes(p, self.unknown_boxes.as_slice());
        assert(p@ =~= start + self.spec_payload_bytes());
        Ok(())
    }

    #[verifier::spinoff_prover]
    #[verifier::rlimit(40)]
    fn decode_payload(p: &[u8]) -> (r: Result<Self>)
        ensures
            r is Ok <==> Self::spec_payload_ok(p@),
            r matches Ok(v) ==> Self::spec_payload_decoded(p@, v),
    {
        let mut offset: usize = 0;
        let mut smhd_box: Option<SmhdBox> = None;
        let mut vmhd_box: Option<VmhdBox> = None;
        let mut dinf_box: Option<DinfBox> = None;
        let mut stbl_box: Option<StblBox> = None;
        let mut unknown_boxes: Vec<UnknownBox> = Vec::new();
        let ghost mut seen: Set<int> = Set::empty();
        assert(p@.skip(0) =~= p@);
        while offset < p.len()
            invariant
                offset <= p@.len(),
                minf_scan(p@, Set::empty()) == minf_scan(p@.skip(offset as int), seen),
                smhd_box is Some <==> seen.contains(0),
                vmhd_box is Some <==> seen.contains(1),
                dinf_box is Some <==> seen.contains(2),
                stbl_box is Some <==> seen.contains(3),
                forall|v: MinfBox|
                    #[trigger] minf_agrees(v, smhd_box, vmhd_box, dinf_box, stbl_box, unknown_boxes@)
                        ==> (minf_walk(p@, Set::empty(), 0, v) == minf_walk(
                        p@.skip(offset as int),
                        seen,
                        unknown_boxes@.len() as int,
                        v,
                    )),
            decreases p@.len() - offset,
        {
            let ghost o = offset as int;
            let ghost q = p@.skip(o);
            let ghost seen0 = seen;
            let ghost (g0, g1, g2, g3, gu) = (smhd_box, vmhd_box, dinf_box, stbl_box, unknown_boxes@);
            let ghost k = minf_child_kind(q);
            let ty = peek_box_type(p, offset)?;
            proof {
                reveal_with_fuel(spec_scan_children, 1);
            }
            if ty.is_same(&SmhdBox::TYPE()) && smhd_box.is_none() {
                let b = SmhdBox::decode_at(p, &mut offset)?;
                assert(SmhdBox::spec_decoded(p@.skip(o), b));
                smhd_box = Some(b);
                proof {
                    seen = seen.insert(0);
                }
            } else if ty.is_same(&VmhdBox::TYPE()) && vmhd_box.is_none() {
                let b = VmhdBox::decode_at(p, &mut offset)?;
                assert(VmhdBox::spec_decoded(p@.skip(o), b));
                vmhd_box = Some(b);
                proof {
                    seen = seen.insert(1);
                }
            } else if ty.is_same(&DinfBox::TYPE()) && dinf_box.is_none() {
                let b = DinfBox::decode_at(p, &mut offset)?;
                assert(DinfBox::spec_decoded(p@.skip(o), b));
                dinf_box = Some(b);
                proof {
                    seen = seen.insert(2);
                }
            } else if ty.is_same(&StblBox::TYPE()) && stbl_box.is_none() {
                let b = StblBox::decode_at(p, &mut offset)?;
                assert(StblBox::spec_decoded(p@.skip(o), b));
                stbl_box = Some(b);
                proof {
                    seen = seen.insert(3);
                }
            } else {
                let b = UnknownBox::decode_at(p, &mut offset)?;
                assert(UnknownBox::spec_decoded(p@.skip(o), b));
                unknown_boxes.push(b);
            }
            assert(p@.skip(offset as int) =~= q.skip(spec_box_end(q)));
            proof {
                assert forall|v: MinfBox|
                    #[trigger] minf_agrees(v, smhd_box, vmhd_box, dinf_box, stbl_box, unknown_boxes@)
                    implies (minf_walk(p@, Set::empty(), 0, v) == minf_walk(
                    p@.skip(offset as int),
                    seen,
                    unknown_boxes@.len() as int,
                    v,
                )) by {
                    assert(minf_agrees(v, g0, g1, g2, g3, gu)) by {
                        assert forall|j: int| 0 <= j < gu.len() implies v.unknown_boxes@[j] == #[trigger] gu[j] by {
                            assert(gu[j] == unknown_boxes@[j]);
                        }
                    }
                    if k < 0 || seen0.contains(k) {
                        assert(unknown_boxes@[gu.len() as int] == unknown_boxes@.last());
                    }
                }
            }
        }
        let smhd_or_vmhd_box = match smhd_box {
            Some(x) => Some(Either::A(x)),
            None => match vmhd_box {
                Some(x) => Some(Either::B(x)),
                None => None,
            },
        };
        let ghost (f0, f1, f2, f3, fu) = (smhd_box, vmhd_box, dinf_box, stbl_box, unknown_boxes@);
        let v = Self {
            smhd_or_vmhd_box,
            dinf_box: check_mandatory_box(dinf_box, "dinf", "minf")?,
            stbl_box: check_mandatory_box(stbl_box, "stbl", "minf")?,
            unknown_boxes,
        };
        proof {
            assert(minf_agrees(v, f0, f1, f2, f3, fu));
            assert(p@.skip(offset as int) =~= Seq::<u8>::empty());
        }
        Ok(v)
    }
}

impl Encode for MinfBox {
    open spec fn spec_encodable(&self) -> bool {
        self.spec_children_encodable() && spec_box_fits(self.spec_payload_bytes())
    }

    open spec fn spec_encoding(&self) -> Seq<u8> {
        spec_box_bytes(Self::spec_type().spec_bytes(), self.spec_payload_bytes())
    }

    fn encode_into(&self, out: &mut Vec<u8>) -> (r: Result<()>) {
        let mut p: Vec<u8> = Vec::new();
        self.put_payload(&mut p)?;
        finish_box(out, Self::TYPE(), p)
    }
}

impl Decode for MinfBox {
    open spec fn spec_can_decode(s: Seq<u8>) -> bool {
        &&& spec_can_split(s)
        &&& spec_is_type(s, Self::spec_type().spec_bytes())
        &&& Self::spec_payload_ok(spec_payload(s))
    }

    open spec fn spec_decoded_len(s: Seq<u8>) -> int {
        spec_box_end(s)
    }

    open spec fn spec_decoded(s: Seq<u8>, v: Self) -> bool {
        Self::spec_payload_decoded(spec_payload(s), v)
    }

    fn decode(buf: &[u8]) -> (r: Result<(Self, usize)>) {
        let (header, payload) = BoxHeader::decode_typed(buf, Self::TYPE())?;
        let total = buf.len();
        assert(header.spec_external_size() + payload@.len() <= total);
        let n = header.external_size() + payload.len();
        let v = with_box_type(Self::TYPE(), Self::decode_payload(payload))?;
        Ok((v, n))
    }
}

impl BaseBox for MinfBox {
    open spec fn spec_box_type(&self) -> BoxType {
        Self::spec_type()
    }

    fn box_type(&self) -> (r: BoxType) {
        Self::TYPE()
    }
}

// ---------------------------------------------------------------------------
// mdia
// ---------------------------------------------------------------------------

/// The kind of a child of an `mdia` box: `mdhd`, `hdlr`, `minf` are 0 to 2, other types -1.
pub open spec fn mdia_child_kind(q: Seq<u8>) -> int {
    if spec_is_type(q, MdhdBox::spec_type().spec_bytes()) {
        0
    } else if spec_is_type(q, HdlrBox::spec_type().spec_bytes()) {
        1
    } else if spec_is_type(q, MinfBox::spec_type().spec_bytes()) {
        2
    } else {
        -1
    }
}

/// Whether a child of an `mdia` box of kind `k` can be read.
pub open spec fn mdia_child_ok(k: int, q: Seq<u8>) -> bool {
    if k == 0 {
        MdhdBox::spec_can_decode(q)
    } else if k == 1 {
        HdlrBox::spec_can_decode(q)
    } else {
        MinfBox::spec_can_decode(q)
    }
}

/// Whether the children of an `mdia` box at the start of `q` can be read, given the kinds
/// already seen.
pub open spec fn mdia_scan(q: Seq<u8>, seen: Set<int>) -> bool {
    spec_scan_children(
        q,
        seen,
        |q: Seq<u8>| mdia_child_kind(q),
        |k: int| k == 0 || k == 1 || k == 2,
        |k: int, q: Seq<u8>| mdia_child_ok(k, q),
        |seen: Set<int>| seen.contains(0) && seen.contains(1) && seen.contains(2),
    )
}

/// Whether the child `q` of kind `k` of a `mdia` box is the field of `v` it is read into
/// (for the kind with several children, the one at `m`).
pub open spec fn mdia_child_matches(k: int, q: Seq<u8>, m: int, v: MdiaBox) -> bool {
    if k == 0 {
        MdhdBox::spec_decoded(q, v.mdhd_box)
    } else if k == 1 {
        HdlrBox::spec_decoded(q, v.hdlr_box)
    } else {
        MinfBox::spec_decoded(q, v.minf_box)
    }
}

/// Whether `v` is what reading the children of a `mdia` box at the start of `q` gives, walking
/// them box by box: the first child of each known kind is read into its field, and every other child is the next unknown box (from `u` on); `seen`
/// holds the kinds read before `q`.
pub open spec fn mdia_walk(q: Seq<u8>, seen: Set<int>, m: int, u: int, v: MdiaBox) -> bool
    decreases q.len(),
{
    if q.len() == 0 {
        &&& u == v.unknown_boxes@.len()
    } else if !spec_can_split(q) || spec_box_end(q) <= 0 {
        false
    } else {
        let k = mdia_child_kind(q);
        if k >= 0 && !seen.contains(k) {
            &&& mdia_child_matches(k, q, m, v)
            &&& mdia_walk(q.skip(spec_box_end(q)), seen.insert(k), m, u, v)
        } else {
            &&& 0 <= u < v.unknown_boxes@.len()
            &&& UnknownBox::spec_decoded(q, v.unknown_boxes@[u])
            &&& mdia_walk(q.skip(spec_box_end(q)), seen, m, u + 1, v)
        }
    }
}

/// Whether `v` holds the children of a `mdia` box read so far.
pub open spec fn mdia_agrees(v: MdiaBox, mdhd_box: Option<MdhdBox>, hdlr_box: Option<HdlrBox>, minf_box: Option<MinfBox>, unknown: Seq<UnknownBox>) -> bool {
    &&& mdhd_box matches Some(b) ==> v.mdhd_box == b
    &&& hdlr_box matches Some(b) ==> v.hdlr_box == b
    &&& minf_box matches Some(b) ==> v.minf_box == b
    &&& unknown.len() <= v.unknown_boxes@.len()
    &&& forall|j: int| 0 <= j < unknown.len() ==> v.unknown_boxes@[j] == #[trigger] unknown[j]
}

/// The media box (`mdia`, ISO/IEC 14496-12 MediaBox).
#[derive(Debug, Clone)]
#[allow(missing_docs)]
pub struct MdiaBox {
    pub mdhd_box: MdhdBox,
    pub hdlr_box: HdlrBox,
    pub minf_box: MinfBox,
    pub unknown_boxes: Vec<UnknownBox>,
}

impl MdiaBox {
    /// The type of the box.
    pub open spec fn spec_type() -> BoxType {
        fourcc(0x6d, 0x64, 0x69, 0x61)
    }

    /// The type of the box: `mdia`.
    #[allow(non_snake_case)]
    pub fn TYPE() -> (r: BoxType)
        ensures
            r == Self::spec_type(),
    {
        BoxType::Normal([0x6d, 0x64, 0x69, 0x61])
    }

    /// Whether all children can be encoded.
    pub open spec fn spec_children_encodable(&self) -> bool {
        &&& self.mdhd_box.spec_encodable()
        &&& self.hdlr_box.spec_encodable()
        &&& self.minf_box.spec_encodable()
    }

    /// The payload bytes of the box: the children in a fixed order.
    pub open spec fn spec_payload_bytes(&self) -> Seq<u8> {
        self.mdhd_box.spec_encoding() + self.hdlr_box.spec_encoding() + self.minf_box.spec_encoding() + unknown_boxes_bytes(self.unknown_boxes@)
    }

    /// Whether `p` is the payload of an `mdia` box.
    pub open spec fn spec_payload_ok(p: Seq<u8>) -> bool {
        mdia_scan(p, Set::empty())
    }

    /// Whether `v` is the box read from the payload `p`: the children, walked box by box, as
    /// [`mdia_walk`] says.
    pub open spec fn spec_payload_decoded(p: Seq<u8>, v: Self) -> bool {
        mdia_walk(p, Set::empty(), 0, 0, v)
    }

    #[verifier::spinoff_prover]
    #[verifier::rlimit(40)]
    fn put_payload(&self, p: &mut Vec<u8>) -> (r: Result<()>)
        ensures
            r is Ok <==> self.spec_children_encodable(),
            r is Ok ==> final(p)@ == old(p)@ + self.spec_payload_bytes(),
            r matches Err(e) ==> e.kind == ErrorKind::InvalidInput,
    {
        let ghost start = p@;
        self.mdhd_box.encode_into(p)?;
        assert(p@ =~= start + self.mdhd_box.spec_encoding());
        self.hdlr_box.encode_into(p)?;
        assert(p@ =~= start + self.mdhd_box.spec_encoding() + self.hdlr_box.spec_encoding());
        self.minf_box.encode_into(p)?;
        assert(p@ =~= start + self.mdhd_box.spec_encoding() + self.hdlr_box.spec_encoding() + self.minf_box.spec_encoding());
        put_unknown_boxes(p, self.unknown_boxes.as_slice());
        assert(p@ =~= start + self.spec_payload_bytes());
        Ok(())
    }

    #[verifier::spinoff_prover]
    #[verifier::rlimit(40)]
    fn decode_payload(p: &[u8]) -> (r: Result<Self>)
        ensures
            r is Ok <==> Self::spec_payload_ok(p@),
            r matches Ok(v) ==> Self::spec_payload_decoded(p@, v),
    {
        let mut offset: usize = 0;
        let mut mdhd_box: Option<MdhdBox> = None;
        let mut hdlr_box: Option<HdlrBox> = None;
        let mut minf_box: Option<MinfBox> = None;
        let mut unknown_boxes: Vec<UnknownBox> = Vec::new();
        let ghost mut seen: Set<int> = Set::empty();
        assert(p@.skip(0) =~= p@);
        while offset < p.len()
            invariant
                offset <= p@.len(),
                mdia_scan(p@, Set::empty()) == mdia_scan(p@.skip(offset as int), seen),
                mdhd_box is Some <==> seen.contains(0),
                hdlr_box is Some <==> seen.contains(1),
                minf_box is Some <==> seen.contains(2),
                forall|v: MdiaBox|
                    #[trigger] mdia_agrees(v, mdhd_box, hdlr_box, minf_box, unknown_boxes@)
                        ==> (mdia_walk(p@, Set::empty(), 0, 0, v) == mdia_walk(
                        p@.skip(offset as int),
                        seen,
                        0,
                        unknown_boxes@.len() as int,
                        v,
                    )),
            decreases p@.len() - offset,
        {
            let ghost o = offset as int;
            let ghost q = p@.skip(o);
            let ghost seen0 = seen;
            let ghost (g0, g1, g2, gu) = (mdhd_box, hdlr_box, minf_box, unknown_boxes@);
            let ghost k = mdia_child_kind(q);
            let ty = peek_box_type(p, offset)?;
            proof {
                reveal_with_fuel(spec_scan_children, 1);
            }
            if ty.is_same(&MdhdBox::TYPE()) && mdhd_box.is_none() {
                let b = MdhdBox::decode_at(p, &mut offset)?;
                assert(MdhdBox::spec_decoded(p@.skip(o), b));
                mdhd_box = Some(b);
                proof {
                    seen = seen.insert(0);
                }
            } else if ty.is_same(&HdlrBox::TYPE()) && hdlr_box.is_none() {
                let b = HdlrBox::decode_at(p, &mut offset)?;
                assert(HdlrBox::spec_decoded(p@.skip(o), b));
                hdlr_box = Some(b);
                proof {
                    seen = seen.insert(1);
                }
            } else if ty.is_same(&MinfBox::TYPE()) && minf_box.is_none() {
                let b = MinfBox::decode_at(p, &mut offset)?;
                assert(MinfBox::spec_decoded(p@.skip(o), b));
                minf_box = Some(b);
                proof {
                    seen = seen.insert(2);
                }
            } else {
                let b = UnknownBox::decode_at(p, &mut offset)?;
                assert(UnknownBox::spec_decoded(p@.skip(o), b));
                unknown_boxes.push(b);
            }
            assert(p@.skip(offset as int) =~= q.skip(spec_box_end(q)));
            proof {
                assert forall|v: MdiaBox|
                    #[trigger] mdia_agrees(v, mdhd_box, hdlr_box, minf_box, unknown_boxes@)
                    implies (mdia_walk(p@, Set::empty(), 0, 0, v) == mdia_walk(
                    p@.skip(offset as int),
                    seen,
                    0,
                    unknown_boxes@.len() as int,
                    v,
                )) by {
                    assert(mdia_agrees(v, g0, g1, g2, gu)) by {
                        assert forall|j: int| 0 <= j < gu.len() implies v.unknown_boxes@[j] == #[trigger] gu[j] by {
                            assert(gu[j] == unknown_boxes@[j]);
                        }
                    }
                    if k < 0 || seen0.contains(k) {
                        assert(unknown_boxes@[gu.len() as int] == unknown_boxes@.last());
                    }
                }
            }
        }
        let ghost (f0, f1, f2, fu) = (mdhd_box, hdlr_box, minf_box, unknown_boxes@);
        let v = Self {
            mdhd_box: check_mandatory_box(mdhd_box, "mdhd", "mdia")?,
            hdlr_box: check_mandatory_box(hdlr_box, "hdlr", "mdia")?,
            minf_box: check_mandatory_box(minf_box, "minf", "mdia")?,
            unknown_boxes,
        };
        proof {
            assert(mdia_agrees(v, f0, f1, f2, fu));
            assert(p@.skip(offset as int) =~= Seq::<u8>::empty());
        }
        Ok(v)
    }
}

impl Encode for MdiaBox {
    open spec fn spec_encodable(&self) -> bool {
        self.spec_children_encodable() && spec_box_fits(self.spec_payload_bytes())
    }

    open spec fn spec_encoding(&self) -> Seq<u8> {
        spec_box_bytes(Self::spec_type().spec_bytes(), self.spec_payload_bytes())
    }

    fn encode_into(&self, out: &mut Vec<u8>) -> (r: Result<()>) {
        let mut p: Vec<u8> = Vec::new();
        self.put_payload(&mut p)?;
        finish_box(out, Self::TYPE(), p)
    }
}

impl Decode for MdiaBox {
    open spec fn spec_can_decode(s: Seq<u8>) -> bool {
        &&& spec_can_split(s)
        &&& spec_is_type(s, Self::spec_type().spec_bytes())
        &&& Self::spec_payload_ok(spec_payload(s))
    }

    open spec fn spec_decoded_len(s: Seq<u8>) -> int {
        spec_box_end(s)
    }

    open spec fn spec_decoded(s: Seq<u8>, v: Self) -> bool {
        Self::spec_payload_decoded(spec_payload(s), v)
    }

    fn decode(buf: &[u8]) -> (r: Result<(Self, usize)>) {
        let (header, payload) = BoxHeader::decode_typed(buf, Self::TYPE())?;
        let total = buf.len();
        assert(header.spec_external_size() + payload@.len() <= total);
        let n = header.external_size() + payload.len();
        let v = with_box_type(Self::TYPE(), Self::decode_payload(payload))?;
        Ok((v, n))
    }
}

impl BaseBox for MdiaBox {
    open spec fn spec_box_type(&self) -> BoxType {
        Self::spec_type()
    }

    fn box_type(&self) -> (r: BoxType) {
        Self::TYPE()
    }
}

// ---------------------------------------------------------------------------
// trak
// ---------------------------------------------------------------------------

/// The kind of a child of an `trak` box: `tkhd`, `edts`, `mdia` are 0 to 2, other types -1.
pub open spec fn trak_child_kind(q: Seq<u8>) -> int {
    if spec_is_type(q, TkhdBox::spec_type().spec_bytes()) {
        0
    } else if spec_is_type(q, EdtsBox::spec_type().spec_bytes()) {
        1
    } else if spec_is_type(q, MdiaBox::spec_type().spec_bytes()) {
        2
    } else {
        -1
    }
}

/// Whether a child of an `trak` box of kind `k` can be read.
pub open spec fn trak_child_ok(k: int, q: Seq<u8>) -> bool {
    if k == 0 {
        TkhdBox::spec_can_decode(q)
    } else if k == 1 {
        EdtsBox::spec_can_decode(q)
    } else {
        MdiaBox::spec_can_decode(q)
    }
}

/// Whether the children of an `trak` box at the start of `q` can be read, given the kinds
/// already seen.
pub open spec fn trak_scan(q: Seq<u8>, seen: Set<int>) -> bool {
    spec_scan_children(
        q,
        seen,
        |q: Seq<u8>| trak_child_kind(q),
        |k: int| k == 0 || k == 1 || k == 2,
        |k: int, q: Seq<u8>| trak_child_ok(k, q),
        |seen: Set<int>| seen.contains(0) && seen.contains(2),
    )
}

/// Whether the child `q` of kind `k` of a `trak` box is the field of `v` it is read into
/// (for the kind with several children, the one at `m`).
pub open spec fn trak_child_matches(k: int, q: Seq<u8>, m: int, v: TrakBox) -> bool {
    if k == 0 {
        TkhdBox::spec_decoded(q, v.tkhd_box)
    } else if k == 1 {
        v.edts_box matches Some(b) && EdtsBox::spec_decoded(q, b)
    } else {
        MdiaBox::spec_decoded(q, v.mdia_box)
    }
}

/// Whether `v` is what reading the children of a `trak` box at the start of `q` gives, walking
/// them box by box: the first child of each known kind is read into its field, and every other child is the next unknown box (from `u` on); `seen`
/// holds the kinds read before `q`.
pub open spec fn trak_walk(q: Seq<u8>, seen: Set<int>, m: int, u: int, v: TrakBox) -> bool
    decreases q.len(),
{
    if q.len() == 0 {
        &&& u == v.unknown_boxes@.len()
        &&& (v.edts_box is Some <==> seen.contains(1))
    } else if !spec_can_split(q) || spec_box_end(q) <= 0 {
        false
    } else {
        let k = trak_child_kind(q);
        if k >= 0 && !seen.contains(k) {
            &&& trak_child_matches(k, q, m, v)
            &&& trak_walk(q.skip(spec_box_end(q)), seen.insert(k), m, u, v)
        } else {
            &&& 0 <= u < v.unknown_boxes@.len()
            &&& UnknownBox::spec_decoded(q, v.unknown_boxes@[u])
            &&& trak_walk(q.skip(spec_box_end(q)), seen, m, u + 1, v)
        }
    }
}

/// Whether `v` holds the children of a `trak` box read so far.
pub open spec fn trak_agrees(v: TrakBox, tkhd_box: Option<TkhdBox>, edts_box: Option<EdtsBox>, mdia_box: Option<MdiaBox>, unknown: Seq<UnknownBox>) -> bool {
    &&& tkhd_box matches Some(b) ==> v.tkhd_box == b
    &&& edts_box matches Some(b) ==> v.edts_box == Some(b)
    &&& mdia_box matches Some(b) ==> v.mdia_box == b
    &&& unknown.len() <= v.unknown_boxes@.len()
    &&& forall|j: int| 0 <= j < unknown.len() ==> v.unknown_boxes@[j] == #[trigger] unknown[j]
}

/// The track box (`trak`, ISO/IEC 14496-12 TrackBox).
#[derive(Debug, Clone)]
#[allow(missing_docs)]
pub struct TrakBox {
    pub tkhd_box: TkhdBox,
    pub edts_box: Option<EdtsBox>,
    pub mdia_box: MdiaBox,
    pub unknown_boxes: Vec<UnknownBox>,
}

impl TrakBox {
    /// The type of the box.
    pub open spec fn spec_type() -> BoxType {
        fourcc(0x74, 0x72, 0x61, 0x6b)
    }

    /// The type of the box: `trak`.
    #[allow(non_snake_case)]
    pub fn TYPE() -> (r: BoxType)
        ensures
            r == Self::spec_type(),
    {
        BoxType::Normal([0x74, 0x72, 0x61, 0x6b])
    }

    /// Whether all children can be encoded.
    pub open spec fn spec_children_encodable(&self) -> bool {
        &&& self.tkhd_box.spec_encodable()
        &&& match self.edts_box {
            Some(b) => b.spec_encodable(),
            None => true,
        }
        &&& self.mdia_box.spec_encodable()
    }

    /// The payload bytes of the box: the children in a fixed order.
    pub open spec fn spec_payload_bytes(&self) -> Seq<u8> {
        self.tkhd_box.spec_encoding() + (match self.edts_box {
            Some(b) => b.spec_encoding(),
            None => Seq::empty(),
        }) + self.mdia_box.spec_encoding() + unknown_boxes_bytes(self.unknown_boxes@)
    }

    /// Whether `p` is the payload of an `trak` box.
    pub open spec fn spec_payload_ok(p: Seq<u8>) -> bool {
        trak_scan(p, Set::empty())
    }

    /// Whether `v` is the box read from the payload `p`: the children, walked box by box, as
    /// [`trak_walk`] says.
    pub open spec fn spec_payload_decoded(p: Seq<u8>, v: Self) -> bool {
        trak_walk(p, Set::empty(), 0, 0, v)
    }

    #[verifier::rlimit(40)]
    fn put_payload(&self, p: &mut Vec<u8>) -> (r: Result<()>)
        ensures
            r is Ok <==> self.spec_children_encodable(),
            r is Ok ==> final(p)@ == old(p)@ + self.spec_payload_bytes(),
            r matches Err(e) ==> e.kind == ErrorKind::InvalidInput,
    {
        let ghost start = p@;
        self.tkhd_box.encode_into(p)?;
        assert(p@ =~= start + self.tkhd_box.spec_encoding());
        match &self.edts_box {
            Some(b) => b.encode_into(p)?,
            None => {},
        }
        assert(p@ =~= start + self.tkhd_box.spec_encoding() + (match self.edts_box {
            Some(b) => b.spec_encoding(),
            None => Seq::empty(),
        }));
        self.mdia_box.encode_into(p)?;
        assert(p@ =~= start + self.tkhd_box.spec_encoding() + (match self.edts_box {
            Some(b) => b.spec_encoding(),
            None => Seq::empty(),
        }) + self.mdia_box.spec_encoding());
        put_unknown_boxes(p, self.unknown_boxes.as_slice());
        assert(p@ =~= start + self.spec_payload_bytes());
        Ok(())
    }

    #[verifier::spinoff_prover]
    #[verifier::rlimit(40)]
    fn decode_payload(p: &[u8]) -> (r: Result<Self>)
        ensures
            r is Ok <==> Self::spec_payload_ok(p@),
            r matches Ok(v) ==> Self::spec_payload_decoded(p@, v),
    {
        let mut offset: usize = 0;
        let mut tkhd_box: Option<TkhdBox> = None;
        let mut edts_box: Option<EdtsBox> = None;
        let mut mdia_box: Option<MdiaBox> = None;
        let mut unknown_boxes: Vec<UnknownBox> = Vec::new();
        let ghost mut seen: Set<int> = Set::empty();
        assert(p@.skip(0) =~= p@);
        while offset < p.len()
            invariant
                offset <= p@.len(),
                trak_scan(p@, Set::empty()) == trak_scan(p@.skip(offset as int), seen),
                tkhd_box is Some <==> seen.contains(0),
                edts_box is Some <==> seen.contains(1),
                mdia_box is Some <==> seen.contains(2),
                forall|v: TrakBox|
                    #[trigger] trak_agrees(v, tkhd_box, edts_box, mdia_box, unknown_boxes@)
                        ==> (trak_walk(p@, Set::empty(), 0, 0, v) == trak_walk(
                        p@.skip(offset as int),
                        seen,
                        0,
                        unknown_boxes@.len() as int,
                        v,
                    )),
            decreases p@.len() - offset,
        {
            let ghost o = offset as int;
            let ghost q = p@.skip(o);
            let ghost seen0 = seen;
            let ghost (g0, g1, g2, gu) = (tkhd_box, edts_box, mdia_box, unknown_boxes@);
            let ghost k = trak_child_kind(q);
            let ty = peek_box_type(p, offset)?;
            proof {
                reveal_with_fuel(spec_scan_children, 1);
            }
            if ty.is_same(&TkhdBox::TYPE()) && tkhd_box.is_none() {
                let b = TkhdBox::decode_at(p, &mut offset)?;
                assert(TkhdBox::spec_decoded(p@.skip(o), b));
                tkhd_box = Some(b);
                proof {
                    seen = seen.insert(0);
                }
            } else if ty.is_same(&EdtsBox::TYPE()) && edts_box.is_none() {
                let b = EdtsBox::decode_at(p, &mut offset)?;
                assert(EdtsBox::spec_decoded(p@.skip(o), b));
                edts_box = Some(b);
                proof {
                    seen = seen.insert(1);
                }
            } else if ty.is_same(&MdiaBox::TYPE()) && mdia_box.is_none() {
                let b = MdiaBox::decode_at(p, &mut offset)?;
                assert(MdiaBox::spec_decoded(p@.skip(o), b));
                mdia_box = Some(b);
                proof {
                    seen = seen.insert(2);
                }
            } else {
                let b = UnknownBox::decode_at(p, &mut offset)?;
                assert(UnknownBox::spec_decoded(p@.skip(o), b));
                unknown_boxes.push(b);
            }
            assert(p@.skip(offset as int) =~= q.skip(spec_box_end(q)));
            proof {
                assert forall|v: TrakBox|
                    #[trigger] trak_agrees(v, tkhd_box, edts_box, mdia_box, unknown_boxes@)
                    implies (trak_walk(p@, Set::empty(), 0, 0, v) == trak_walk(
                    p@.skip(offset as int),
                    seen,
                    0,
                    unknown_boxes@.len() as int,
                    v,
                )) by {
                    assert(trak_agrees(v, g0, g1, g2, gu)) by {
                        assert forall|j: int| 0 <= j < gu.len() implies v.unknown_boxes@[j] == #[trigger] gu[j] by {
                            assert(gu[j] == unknown_boxes@[j]);
                        }
                    }
                    if k < 0 || seen0.contains(k) {
                        assert(unknown_boxes@[gu.len() as int] == unknown_boxes@.last());
                    }
                }
            }
        }
        let ghost (f0, f1, f2, fu) = (tkhd_box, edts_box, mdia_box, unknown_boxes@);
        let v = Self {
            tkhd_box: check_mandatory_box(tkhd_box, "tkhd", "trak")?,
            edts_box: edts_box,
            mdia_box: check_mandatory_box(mdia_box, "mdia", "trak")?,
            unknown_boxes,
        };
        proof {
            assert(trak_agrees(v, f0, f1, f2, fu));
            assert(p@.skip(offset as int) =~= Seq::<u8>::empty());
        }
        Ok(v)
    }
}

impl Encode for TrakBox {
    open spec fn spec_encodable(&self) -> bool {
        self.spec_children_encodable() && spec_box_fits(self.spec_payload_bytes())
    }

    open spec fn spec_encoding(&self) -> Seq<u8> {
        spec_box_bytes(Self::spec_type().spec_bytes(), self.spec_payload_bytes())
    }

    fn encode_into(&self, out: &mut Vec<u8>) -> (r: Result<()>) {
        let mut p: Vec<u8> = Vec::new();
        self.put_payload(&mut p)?;
        finish_box(out, Self::TYPE(), p)
    }
}

impl Decode for TrakBox {
    open spec fn spec_can_decode(s: Seq<u8>) -> bool {
        &&& spec_can_split(s)
        &&& spec_is_type(s, Self::spec_type().spec_bytes())
        &&& Self::spec_payload_ok(spec_payload(s))
    }

    open spec fn spec_decoded_len(s: Seq<u8>) -> int {
        spec_box_end(s)
    }

    open spec fn spec_decoded(s: Seq<u8>, v: Self) -> bool {
        Self::spec_payload_decoded(spec_payload(s), v)
    }

    fn decode(buf: &[u8]) -> (r: Result<(Self, usize)>) {
        let (header, payload) = BoxHeader::decode_typed(buf, Self::TYPE())?;
        let total = buf.len();
        assert(header.spec_external_size() + payload@.len() <= total);
        let n = header.external_size() + payload.len();
        let v = with_box_type(Self::TYPE(), Self::decode_payload(payload))?;
        Ok((v, n))
    }
}

impl BaseBox for TrakBox {
    open spec fn spec_box_type(&self) -> BoxType {
        Self::spec_type()
    }

    fn box_type(&self) -> (r: BoxType) {
        Self::TYPE()
    }
}

// ---------------------------------------------------------------------------
// mvex
// ---------------------------------------------------------------------------

/// The kind of a child of an `mvex` box: `mehd`, `trex` are 0 to 1, other types -1.
pub open spec fn mvex_child_kind(q: Seq<u8>) -> int {
    if spec_is_type(q, MehdBox::spec_type().spec_bytes()) {
        0
    } else if spec_is_type(q, TrexBox::spec_type().spec_bytes()) {
        1
    } else {
        -1
    }
}

/// Whether a child of an `mvex` box of kind `k` can be read.
pub open spec fn mvex_child_ok(k: int, q: Seq<u8>) -> bool {
    if k == 0 {
        MehdBox::spec_can_decode(q)
    } else {
        TrexBox::spec_can_decode(q)
    }
}

/// Whether the children of an `mvex` box at the start of `q` can be read, given the kinds
/// already seen.
pub open spec fn mvex_scan(q: Seq<u8>, seen: Set<int>) -> bool {
    spec_scan_children(
        q,
        seen,
        |q: Seq<u8>| mvex_child_kind(q),
        |k: int| k == 0,
        |k: int, q: Seq<u8>| mvex_child_ok(k, q),
        |seen: Set<int>| true,
    )
}

/// Whether the child `q` of kind `k` of a `mvex` box is the field of `v` it is read into
/// (for the kind with several children, the one at `m`).
pub open spec fn mvex_child_matches(k: int, q: Seq<u8>, m: int, v: MvexBox) -> bool {
    if k == 0 {
        v.mehd_box matches Some(b) && MehdBox::spec_decoded(q, b)
    } else {
        0 <= m < v.trex_boxes@.len() && TrexBox::spec_decoded(q, v.trex_boxes@[m])
    }
}

/// Whether `v` is what reading the children of a `mvex` box at the start of `q` gives, walking
/// them box by box: the first child of each known kind is read into its field, every child of the kind with several is the next of its list (from `m` on), and every other child is the next unknown box (from `u` on); `seen`
/// holds the kinds read before `q`.
pub open spec fn mvex_walk(q: Seq<u8>, seen: Set<int>, m: int, u: int, v: MvexBox) -> bool
    decreases q.len(),
{
    if q.len() == 0 {
        &&& u == v.unknown_boxes@.len()
        &&& m == v.trex_boxes@.len()
        &&& (v.mehd_box is Some <==> seen.contains(0))
    } else if !spec_can_split(q) || spec_box_end(q) <= 0 {
        false
    } else {
        let k = mvex_child_kind(q);
        if k >= 0 && (k == 1 || !seen.contains(k)) {
            &&& mvex_child_matches(k, q, m, v)
            &&& mvex_walk(q.skip(spec_box_end(q)), seen.insert(k), if k == 1 { m + 1 } else { m }, u, v)
        } else {
            &&& 0 <= u < v.unknown_boxes@.len()
            &&& UnknownBox::spec_decoded(q, v.unknown_boxes@[u])
            &&& mvex_walk(q.skip(spec_box_end(q)), seen, m, u + 1, v)
        }
    }
}

/// Whether `v` holds the children of a `mvex` box read so far.
pub open spec fn mvex_agrees(v: MvexBox, mehd_box: Option<MehdBox>, trex_boxes: Seq<TrexBox>, unknown: Seq<UnknownBox>) -> bool {
    &&& mehd_box matches Some(b) ==> v.mehd_box == Some(b)
    &&& trex_boxes.len() <= v.trex_boxes@.len()
    &&& forall|j: int| 0 <= j < trex_boxes.len() ==> v.trex_boxes@[j] == #[trigger] trex_boxes[j]
    &&& unknown.len() <= v.unknown_boxes@.len()
    &&& forall|j: int| 0 <= j < unknown.len() ==> v.unknown_boxes@[j] == #[trigger] unknown[j]
}

/// The movie extends box (`mvex`, ISO/IEC 14496-12 MovieExtendsBox): its presence marks a
/// fragmented file.
#[derive(Debug, Clone)]
#[allow(missing_docs)]
pub struct MvexBox {
    pub mehd_box: Option<MehdBox>,
    pub trex_boxes: Vec<TrexBox>,
    pub unknown_boxes: Vec<UnknownBox>,
}

impl MvexBox {
    /// The type of the box.
    pub open spec fn spec_type() -> BoxType {
        fourcc(0x6d, 0x76, 0x65, 0x78)
    }

    /// The type of the box: `mvex`.
    #[allow(non_snake_case)]
    pub fn TYPE() -> (r: BoxType)
        ensures
            r == Self::spec_type(),
    {
        BoxType::Normal([0x6d, 0x76, 0x65, 0x78])
    }

    /// Whether all children can be encoded.
    pub open spec fn spec_children_encodable(&self) -> bool {
        &&& match self.mehd_box {
            Some(b) => b.spec_encodable(),
            None => true,
        }
        &&& all_encodable(self.trex_boxes@)
    }

    /// The payload bytes of the box: the children in a fixed order.
    pub open spec fn spec_payload_bytes(&self) -> Seq<u8> {
        (match self.mehd_box {
            Some(b) => b.spec_encoding(),
            None => Seq::empty(),
        }) + encodings(self.trex_boxes@) + unknown_boxes_bytes(self.unknown_boxes@)
    }

    /// Whether `p` is the payload of an `mvex` box.
    pub open spec fn spec_payload_ok(p: Seq<u8>) -> bool {
        mvex_scan(p, Set::empty())
    }

    /// Whether `v` is the box read from the payload `p`: the children, walked box by box, as
    /// [`mvex_walk`] says.
    pub open spec fn spec_payload_decoded(p: Seq<u8>, v: Self) -> bool {
        mvex_walk(p, Set::empty(), 0, 0, v)
    }

    #[verifier::spinoff_prover]
    #[verifier::rlimit(40)]
    fn put_payload(&self, p: &mut Vec<u8>) -> (r: Result<()>)
        ensures
            r is Ok <==> self.spec_children_encodable(),
            r is Ok ==> final(p)@ == old(p)@ + self.spec_payload_bytes(),
            r matches Err(e) ==> e.kind == ErrorKind::InvalidInput,
    {
        let ghost start = p@;
        match &self.mehd_box {
            Some(b) => b.encode_into(p)?,
            None => {},
        }
        assert(p@ =~= start + (match self.mehd_box {
            Some(b) => b.spec_encoding(),
            None => Seq::empty(),
        }));
        put_all(p, self.trex_boxes.as_slice())?;
        assert(p@ =~= start + (match self.mehd_box {
            Some(b) => b.spec_encoding(),
            None => Seq::empty(),
        }) + encodings(self.trex_boxes@));
        put_unknown_boxes(p, self.unknown_boxes.as_slice());
        assert(p@ =~= start + self.spec_payload_bytes());
        Ok(())
    }

    #[verifier::spinoff_prover]
    #[verifier::rlimit(40)]
    fn decode_payload(p: &[u8]) -> (r: Result<Self>)
        ensures
            r is Ok <==> Self::spec_payload_ok(p@),
            r matches Ok(v) ==> Self::spec_payload_decoded(p@, v),
    {
        let mut offset: usize = 0;
        let mut mehd_box: Option<MehdBox> = None;
        let mut trex_boxes: Vec<TrexBox> = Vec::new();
        let mut unknown_boxes: Vec<UnknownBox> = Vec::new();
        let ghost mut seen: Set<int> = Set::empty();
        assert(p@.skip(0) =~= p@);
        while offset < p.len()
            invariant
                offset <= p@.len(),
                mvex_scan(p@, Set::empty()) == mvex_scan(p@.skip(offset as int), seen),
                mehd_box is Some <==> seen.contains(0),
                forall|v: MvexBox|
                    #[trigger] mvex_agrees(v, mehd_box, trex_boxes@, unknown_boxes@)
                        ==> (mvex_walk(p@, Set::empty(), 0, 0, v) == mvex_walk(
                        p@.skip(offset as int),
                        seen,
                        trex_boxes@.len() as int,
                        unknown_boxes@.len() as int,
                        v,
                    )),
            decreases p@.len() - offset,
        {
            let ghost o = offset as int;
            let ghost q = p@.skip(o);
            let ghost seen0 = seen;
            let ghost (g0, g1, gu) = (mehd_box, trex_boxes@, unknown_boxes@);
            let ghost k = mvex_child_kind(q);
            let ty = peek_box_type(p, offset)?;
            proof {
                reveal_with_fuel(spec_scan_children, 1);
            }
            if ty.is_same(&MehdBox::TYPE()) && mehd_box.is_none() {
                let b = MehdBox::decode_at(p, &mut offset)?;
                assert(MehdBox::spec_decoded(p@.skip(o), b));
                mehd_box = Some(b);
                proof {
                    seen = seen.insert(0);
                }
            } else if ty.is_same(&TrexBox::TYPE()) {
                let b = TrexBox::decode_at(p, &mut offset)?;
                assert(TrexBox::spec_decoded(p@.skip(o), b));
                trex_boxes.push(b);
                proof {
                    seen = seen.insert(1);
                }
            } else {
                let b = UnknownBox::decode_at(p, &mut offset)?;
                assert(UnknownBox::spec_decoded(p@.skip(o), b));
                unknown_boxes.push(b);
            }
            assert(p@.skip(offset as int) =~= q.skip(spec_box_end(q)));
            proof {
                assert forall|v: MvexBox|
                    #[trigger] mvex_agrees(v, mehd_box, trex_boxes@, unknown_boxes@)
                    implies (mvex_walk(p@, Set::empty(), 0, 0, v) == mvex_walk(
                    p@.skip(offset as int),
                    seen,
                    trex_boxes@.len() as int,
                    unknown_boxes@.len() as int,
                    v,
                )) by {
                    assert(mvex_agrees(v, g0, g1, gu)) by {
                        assert forall|j: int| 0 <= j < g1.len() implies v.trex_boxes@[j] == #[trigger] g1[j] by {
                            assert(g1[j] == trex_boxes@[j]);
                        }
                        assert forall|j: int| 0 <= j < gu.len() implies v.unknown_boxes@[j] == #[trigger] gu[j] by {
                            assert(gu[j] == unknown_boxes@[j]);
                        }
                    }
                    if k == 1 {
                        assert(trex_boxes@[g1.len() as int] == trex_boxes@.last());
                    } else if k < 0 || seen0.contains(k) {
                        assert(unknown_boxes@[gu.len() as int] == unknown_boxes@.last());
                    }
                }
            }
        }
        let ghost (f0, f1, fu) = (mehd_box, trex_boxes@, unknown_boxes@);
        let v = Self {
            mehd_box: mehd_box,
            trex_boxes: trex_boxes,
            unknown_boxes,
        };
        proof {
            assert(mvex_agrees(v, f0, f1, fu));
            assert(p@.skip(offset as int) =~= Seq::<u8>::empty());
        }
        Ok(v)
    }
}

impl Encode for MvexBox {
    open spec fn spec_encodable(&self) -> bool {
        self.spec_children_encodable() && spec_box_fits(self.spec_payload_bytes())
    }

    open spec fn spec_encoding(&self) -> Seq<u8> {
        spec_box_bytes(Self::spec_type().spec_bytes(), self.spec_payload_bytes())
    }

    fn encode_into(&self, out: &mut Vec<u8>) -> (r: Result<()>) {
        let mut p: Vec<u8> = Vec::new();
        self.put_payload(&mut p)?;
        finish_box(out, Self::TYPE(), p)
    }
}

impl Decode for MvexBox {
    open spec fn spec_can_decode(s: Seq<u8>) -> bool {
        &&& spec_can_split(s)
        &&& spec_is_type(s, Self::spec_type().spec_bytes())
        &&& Self::spec_payload_ok(spec_payload(s))
    }

    open spec fn spec_decoded_len(s: Seq<u8>) -> int {
        spec_box_end(s)
    }

    open spec fn spec_decoded(s: Seq<u8>, v: Self) -> bool {
        Self::spec_payload_decoded(spec_payload(s), v)
    }

    fn decode(buf: &[u8]) -> (r: Result<(Self, usize)>) {
        let (header, payload) = BoxHeader::decode_typed(buf, Self::TYPE())?;
        let total = buf.len();
        assert(header.spec_external_size() + payload@.len() <= total);
        let n = header.external_size() + payload.len();
        let v = with_box_type(Self::TYPE(), Self::decode_payload(payload))?;
        Ok((v, n))
    }
}

impl BaseBox for MvexBox {
    open spec fn spec_box_type(&self) -> BoxType {
        Self::spec_type()
    }

    fn box_type(&self) -> (r: BoxType) {
        Self::TYPE()
    }
}

// ---------------------------------------------------------------------------
// moov
// ---------------------------------------------------------------------------

/// The kind of a child of an `moov` box: `mvhd`, `trak`, `mvex` are 0 to 2, other types -1.
pub open spec fn moov_child_kind(q: Seq<u8>) -> int {
    if spec_is_type(q, MvhdBox::spec_type().spec_bytes()) {
        0
    } else if spec_is_type(q, TrakBox::spec_type().spec_bytes()) {
        1
    } else if spec_is_type(q, MvexBox::spec_type().spec_bytes()) {
        2
    } else {
        -1
    }
}

/// Whether a child of an `moov` box of kind `k` can be read.
pub open spec fn moov_child_ok(k: int, q: Seq<u8>) -> bool {
    if k == 0 {
        MvhdBox::spec_can_decode(q)
    } else if k == 1 {
        TrakBox::spec_can_decode(q)
    } else {
        MvexBox::spec_can_decode(q)
    }
}

/// Whether the children of an `moov` box at the start of `q` can be read, given the kinds
/// already seen.
pub open spec fn moov_scan(q: Seq<u8>, seen: Set<int>) -> bool {
    spec_scan_children(
        q,
        seen,
        |q: Seq<u8>| moov_child_kind(q),
        |k: int| k == 0 || k == 2,
        |k: int, q: Seq<u8>| moov_child_ok(k, q),
        |seen: Set<int>| seen.contains(0),
    )
}

/// Whether the child `q` of kind `k` of a `moov` box is the field of `v` it is read into
/// (for the kind with several children, the one at `m`).
pub open spec fn moov_child_matches(k: int, q: Seq<u8>, m: int, v: MoovBox) -> bool {
    if k == 0 {
        MvhdBox::spec_decoded(q, v.mvhd_box)
    } else if k == 1 {
        0 <= m < v.trak_boxes@.len() && TrakBox::spec_decoded(q, v.trak_boxes@[m])
    } else {
        v.mvex_box matches Some(b) && MvexBox::spec_decoded(q, b)
    }
}

/// Whether `v` is what reading the children of a `moov` box at the start of `q` gives, walking
/// them box by box: the first child of each known kind is read into its field, every child of the kind with several is the next of its list (from `m` on), and every other child is the next unknown box (from `u` on); `seen`
/// holds the kinds read before `q`.
pub open spec fn moov_walk(q: Seq<u8>, seen: Set<int>, m: int, u: int, v: MoovBox) -> bool
    decreases q.len(),
{
    if q.len() == 0 {
        &&& u == v.unknown_boxes@.len()
        &&& m == v.trak_boxes@.len()
        &&& (v.mvex_box is Some <==> seen.contains(2))
    } else if !spec_can_split(q) || spec_box_end(q) <= 0 {
        false
    } else {
        let k = moov_child_kind(q);
        if k >= 0 && (k == 1 || !seen.contains(k)) {
            &&& moov_child_matches(k, q, m, v)
            &&& moov_walk(q.skip(spec_box_end(q)), seen.insert(k), if k == 1 { m + 1 } else { m }, u, v)
        } else {
            &&& 0 <= u < v.unknown_boxes@.len()
            &&& UnknownBox::spec_decoded(q, v.unknown_boxes@[u])
            &&& moov_walk(q.skip(spec_box_end(q)), seen, m, u + 1, v)
        }
    }
}

/// Whether `v` holds the children of a `moov` box read so far.
pub open spec fn moov_agrees(v: MoovBox, mvhd_box: Option<MvhdBox>, trak_boxes: Seq<TrakBox>, mvex_box: Option<MvexBox>, unknown: Seq<UnknownBox>) -> bool {
    &&& mvhd_box matches Some(b) ==> v.mvhd_box == b
    &&& trak_boxes.len() <= v.trak_boxes@.len()
    &&& forall|j: int| 0 <= j < trak_boxes.len() ==> v.trak_boxes@[j] == #[trigger] trak_boxes[j]
    &&& mvex_box matches Some(b) ==> v.mvex_box == Some(b)
    &&& unknown.len() <= v.unknown_boxes@.len()
    &&& forall|j: int| 0 <= j < unknown.len() ==> v.unknown_boxes@[j] == #[trigger] unknown[j]
}

/// The movie box (`moov`, ISO/IEC 14496-12 MovieBox).
#[derive(Debug, Clone)]
#[allow(missing_docs)]
pub struct MoovBox {
    pub mvhd_box: MvhdBox,
    pub trak_boxes: Vec<TrakBox>,
    pub mvex_box: Option<MvexBox>,
    pub unknown_boxes: Vec<UnknownBox>,
}

impl MoovBox {
    /// The type of the box.
    pub open spec fn spec_type() -> BoxType {
        fourcc(0x6d, 0x6f, 0x6f, 0x76)
    }

    /// The type of the box: `moov`.
    #[allow(non_snake_case)]
    pub fn TYPE() -> (r: BoxType)
        ensures
            r == Self::spec_type(),
    {
        BoxType::Normal([0x6d, 0x6f, 0x6f, 0x76])
    }

    /// Whether all children can be encoded.
    pub open spec fn spec_children_encodable(&self) -> bool {
        &&& self.mvhd_box.spec_encodable()
        &&& all_encodable(self.trak_boxes@)
        &&& match self.mvex_box {
            Some(b) => b.spec_encodable(),
            None => true,
        }
    }

    /// The payload bytes of the box: the children in a fixed order.
    pub open spec fn spec_payload_bytes(&self) -> Seq<u8> {
        self.mvhd_box.spec_encoding() + encodings(self.trak_boxes@) + (match self.mvex_box {
            Some(b) => b.spec_encoding(),
            None => Seq::empty(),
        }) + unknown_boxes_bytes(self.unknown_boxes@)
    }

    /// Whether `p` is the payload of an `moov` box.
    pub open spec fn spec_payload_ok(p: Seq<u8>) -> bool {
        moov_scan(p, Set::empty())
    }

    /// Whether `v` is the box read from the payload `p`: the children, walked box by box, as
    /// [`moov_walk`] says.
    pub open spec fn spec_payload_decoded(p: Seq<u8>, v: Self) -> bool {
        moov_walk(p, Set::empty(), 0, 0, v)
    }

    #[verifier::rlimit(40)]
    fn put_payload(&self, p: &mut Vec<u8>) -> (r: Result<()>)
        ensures
            r is Ok <==> self.spec_children_encodable(),
            r is Ok ==> final(p)@ == old(p)@ + self.spec_payload_bytes(),
            r matches Err(e) ==> e.kind == ErrorKind::InvalidInput,
    {
        let ghost start = p@;
        let ghost a = self.mvhd_box.spec_encoding();
        let ghost t = encodings(self.trak_boxes@);
        let ghost x = match &self.mvex_box {
            Some(b) => b.spec_encoding(),
            None => Seq::<u8>::empty(),
        };
        let ghost u = unknown_boxes_bytes(self.unknown_boxes@);
        self.mvhd_box.encode_into(p)?;
        let ghost p1 = p@;
        put_all(p, self.trak_boxes.as_slice())?;
        let ghost p2 = p@;
        match &self.mvex_box {
            Some(b) => b.encode_into(p)?,
            None => {
                assert(p@ =~= p2 + x);
            },
        }
        let ghost p3 = p@;
        put_unknown_boxes(p, self.unknown_boxes.as_slice());
        proof {
            assert(p1 == start + a);
            assert(p2 == p1 + t);
            assert(p3 == p2 + x);
            assert(p@ == p3 + u);
            assert(self.spec_payload_bytes() == a + t + x + u);
            assert(p@ =~= start + (a + t + x + u));
        }
        Ok(())
    }

    #[verifier::spinoff_prover]
    #[verifier::rlimit(40)]
    fn decode_payload(p: &[u8]) -> (r: Result<Self>)
        ensures
            r is Ok <==> Self::spec_payload_ok(p@),
            r matches Ok(v) ==> Self::spec_payload_decoded(p@, v),
    {
        let mut offset: usize = 0;
        let mut mvhd_box: Option<MvhdBox> = None;
        let mut trak_boxes: Vec<TrakBox> = Vec::new();
        let mut mvex_box: Option<MvexBox> = None;
        let mut unknown_boxes: Vec<UnknownBox> = Vec::new();
        let ghost mut seen: Set<int> = Set::empty();
        assert(p@.skip(0) =~= p@);
        while offset < p.len()
            invariant
                offset <= p@.len(),
                moov_scan(p@, Set::empty()) == moov_scan(p@.skip(offset as int), seen),
                mvhd_box is Some <==> seen.contains(0),
                mvex_box is Some <==> seen.contains(2),
                forall|v: MoovBox|
                    #[trigger] moov_agrees(v, mvhd_box, trak_boxes@, mvex_box, unknown_boxes@)
                        ==> (moov_walk(p@, Set::empty(), 0, 0, v) == moov_walk(
                        p@.skip(offset as int),
                        seen,
                        trak_boxes@.len() as int,
                        unknown_boxes@.len() as int,
                        v,
                    )),
            decreases p@.len() - offset,
        {
            let ghost o = offset as int;
            let ghost q = p@.skip(o);
            let ghost seen0 = seen;
            let ghost (g0, g1, g2, gu) = (mvhd_box, trak_boxes@, mvex_box, unknown_boxes@);
            let ghost k = moov_child_kind(q);
            let ty = peek_box_type(p, offset)?;
            proof {
                reveal_with_fuel(spec_scan_children, 1);
            }
            if ty.is_same(&MvhdBox::TYPE()) && mvhd_box.is_none() {
                let b = MvhdBox::decode_at(p, &mut offset)?;
                assert(MvhdBox::spec_decoded(p@.skip(o), b));
                mvhd_box = Some(b);
                proof {
                    seen = seen.insert(0);
                }
            } else if ty.is_same(&TrakBox::TYPE()) {
                let b = TrakBox::decode_at(p, &mut offset)?;
                assert(TrakBox::spec_decoded(p@.skip(o), b));
                trak_boxes.push(b);
                proof {
                    seen = seen.insert(1);
                }
            } else if ty.is_same(&MvexBox::TYPE()) && mvex_box.is_none() {
                let b = MvexBox::decode_at(p, &mut offset)?;
                assert(MvexBox::spec_decoded(p@.skip(o), b));
                mvex_box = Some(b);
                proof {
                    seen = seen.insert(2);
                }
            } else {
                let b = UnknownBox::decode_at(p, &mut offset)?;
                assert(UnknownBox::spec_decoded(p@.skip(o), b));
                unknown_boxes.push(b);
            }
            assert(p@.skip(offset as int) =~= q.skip(spec_box_end(q)));
            proof {
                assert forall|v: MoovBox|
                    #[trigger] moov_agrees(v, mvhd_box, trak_boxes@, mvex_box, unknown_boxes@)
                    implies (moov_walk(p@, Set::empty(), 0, 0, v) == moov_walk(
                    p@.skip(offset as int),
                    seen,
                    trak_boxes@.len() as int,
                    unknown_boxes@.len() as int,
                    v,
                )) by {
                    assert(moov_agrees(v, g0, g1, g2, gu)) by {
                        assert forall|j: int| 0 <= j < g1.len() implies v.trak_boxes@[j] == #[trigger] g1[j] by {
                            assert(g1[j] == trak_boxes@[j]);
                        }
                        assert forall|j: int| 0 <= j < gu.len() implies v.unknown_boxes@[j] == #[trigger] gu[j] by {
                            assert(gu[j] == unknown_boxes@[j]);
                        }
                    }
                    if k == 1 {
                        assert(trak_boxes@[g1.len() as int] == trak_boxes@.last());
                    } else if k < 0 || seen0.contains(k) {
                        assert(unknown_boxes@[gu.len() as int] == unknown_boxes@.last());
                    }
                }
            }
        }
        let ghost (f0, f1, f2, fu) = (mvhd_box, trak_boxes@, mvex_box, unknown_boxes@);
        let v = Self {
            mvhd_box: check_mandatory_box(mvhd_box, "mvhd", "moov")?,
            trak_boxes: trak_boxes,
            mvex_box: mvex_box,
            unknown_boxes,
        };
        proof {
            assert(moov_agrees(v, f0, f1, f2, fu));
            assert(p@.skip(offset as int) =~= Seq::<u8>::empty());
        }
        Ok(v)
    }
}

impl Encode for MoovBox {
    open spec fn spec_encodable(&self) -> bool {
        self.spec_children_encodable() && spec_box_fits(self.spec_payload_bytes())
    }

    open spec fn spec_encoding(&self) -> Seq<u8> {
        spec_box_bytes(Self::spec_type().spec_bytes(), self.spec_payload_bytes())
    }

    fn encode_into(&self, out: &mut Vec<u8>) -> (r: Result<()>) {
        let mut p: Vec<u8> = Vec::new();
        self.put_payload(&mut p)?;
        finish_box(out, Self::TYPE(), p)
    }
}

impl Decode for MoovBox {
    open spec fn spec_can_decode(s: Seq<u8>) -> bool {
        &&& spec_can_split(s)
        &&& spec_is_type(s, Self::spec_type().spec_bytes())
        &&& Self::spec_payload_ok(spec_payload(s))
    }

    open spec fn spec_decoded_len(s: Seq<u8>) -> int {
        spec_box_end(s)
    }

    open spec fn spec_decoded(s: Seq<u8>, v: Self) -> bool {
        Self::spec_payload_decoded(spec_payload(s), v)
    }

    fn decode(buf: &[u8]) -> (r: Result<(Self, usize)>) {
        let (header, payload) = BoxHeader::decode_typed(buf, Self::TYPE())?;
        let total = buf.len();
        assert(header.spec_external_size() + payload@.len() <= total);
        let n = header.external_size() + payload.len();
        let v = with_box_type(Self::TYPE(), Self::decode_payload(payload))?;
        Ok((v, n))
    }
}

impl BaseBox for MoovBox {
    open spec fn spec_box_type(&self) -> BoxType {
        Self::spec_type()
    }

    fn box_type(&self) -> (r: BoxType) {
        Self::TYPE()
    }
}

} // verus!
