//! The descriptors of ISO/IEC 14496-1 carried by an `esds` box, and their tag and size header.
use crate::basic_types::{BaseBox, BoxHeader, BoxType, FullBox, FullBoxFlags, string_from_utf8};
use crate::boxes::{
    fourcc, full_header_bytes, put_full_header, spec_box_bytes, spec_box_end, spec_box_fits,
    spec_can_split, spec_is_type, spec_payload, finish_box, with_box_type,
};
use crate::codec::{
    be_u16, be_u32, get_u16, get_u16_at, get_u32, get_u32_at, get_u8_at, put_bytes, put_u16,
    put_u32, put_u8, Decode, Encode, Error, ErrorKind, Result,
};
use vstd::utf8::{encode_utf8, valid_utf8};
use vstd::prelude::*;

verus! {

// ---------------------------------------------------------------------------
// Unsigned integers of a few bits packed in a larger integer
// ---------------------------------------------------------------------------

/// An unsigned integer of `BITS` bits, held in a `T`, that sits `OFFSET` bits up when it is
/// packed with others into one `T`.
#[derive(Debug, Default, Clone, Copy, PartialEq, Eq, Hash, PartialOrd, Ord)]
pub struct Uint<T, const BITS: u32, const OFFSET: u32>(T);

impl<const BITS: u32, const OFFSET: u32> Uint<u8, BITS, OFFSET> {
    /// The number.
    pub closed spec fn spec_get(self) -> u8 {
        self.0
    }

    /// The value whose bits sit at `OFFSET` in `v`.
    pub open spec fn spec_from_bits(v: u8) -> u8 {
        (v >> OFFSET) & (((1u8 << BITS) - 1) as u8)
    }

    /// Creates a value from a number.
    pub fn new(v: u8) -> (r: Self)
        ensures
            r.spec_get() == v,
    {
        Self(v)
    }

    /// Returns the number.
    pub fn get(self) -> (r: u8)
        ensures
            r == self.spec_get(),
    {
        self.0
    }

    /// Takes the `BITS` bits at `OFFSET` of `v`.
    pub fn from_bits(v: u8) -> (r: Self)
        requires
            BITS < 8,
            OFFSET < 8,
        ensures
            r.spec_get() == Self::spec_from_bits(v),
    {
        let bits: u32 = BITS;
        assert((1u8 << bits) >= 1u8) by (bit_vector)
            requires
                bits < 8,
        ;
        Self((v >> OFFSET) & ((1u8 << BITS) - 1))
    }

    /// The number moved to its place in a packed `u8`.
    pub fn to_bits(self) -> (r: u8)
        requires
            OFFSET < 8,
        ensures
            r == self.spec_get() << OFFSET,
    {
        self.0 << OFFSET
    }
}


/// A number of `BITS` bits read back from its place in a packed `u8`.
pub proof fn lemma_uint8_roundtrip<const BITS: u32, const OFFSET: u32>(x: Uint<u8, BITS, OFFSET>)
    requires
        BITS < 8,
        BITS + OFFSET <= 8,
        x.spec_get() < (1u8 << BITS),
    ensures
        Uint::<u8, BITS, OFFSET>::spec_from_bits(x.spec_get() << OFFSET) == x.spec_get(),
{
    let v = x.spec_get();
    let b: u32 = BITS;
    let o: u32 = OFFSET;
    assert((((v << o) >> o) & (((1u8 << b) - 1) as u8)) == v) by (bit_vector)
        requires
            b < 8,
            b + o <= 8,
            v < (1u8 << b),
    ;
}

/// A number of `BITS` bits read back from its place in a packed `u32`.
pub proof fn lemma_uint32_roundtrip<const BITS: u32, const OFFSET: u32>(x: Uint<u32, BITS, OFFSET>)
    requires
        BITS < 32,
        BITS + OFFSET <= 32,
        x.spec_get() < (1u32 << BITS),
    ensures
        Uint::<u32, BITS, OFFSET>::spec_from_bits(x.spec_get() << OFFSET) == x.spec_get(),
{
    let v = x.spec_get();
    let b: u32 = BITS;
    let o: u32 = OFFSET;
    assert((((v << o) >> o) & (((1u32 << b) - 1) as u32)) == v) by (bit_vector)
        requires
            b < 32,
            b + o <= 32,
            v < (1u32 << b),
    ;
}

/// Numbers of a few bits with the same value are the same.
pub proof fn lemma_uint8_eq<const BITS: u32, const OFFSET: u32>(a: Uint<u8, BITS, OFFSET>, b: Uint<u8, BITS, OFFSET>)
    requires
        a.spec_get() == b.spec_get(),
    ensures
        a == b,
{
}

/// Numbers of a few bits with the same value are the same.
pub proof fn lemma_uint32_eq<const BITS: u32, const OFFSET: u32>(a: Uint<u32, BITS, OFFSET>, b: Uint<u32, BITS, OFFSET>)
    requires
        a.spec_get() == b.spec_get(),
    ensures
        a == b,
{
}

impl<const BITS: u32, const OFFSET: u32> Uint<u32, BITS, OFFSET> {
    /// The number.
    pub closed spec fn spec_get(self) -> u32 {
        self.0
    }

    /// The value whose bits sit at `OFFSET` in `v`.
    pub open spec fn spec_from_bits(v: u32) -> u32 {
        (v >> OFFSET) & (((1u32 << BITS) - 1) as u32)
    }

    /// Creates a value from a number.
    pub fn new(v: u32) -> (r: Self)
        ensures
            r.spec_get() == v,
    {
        Self(v)
    }

    /// Returns the number.
    pub fn get(self) -> (r: u32)
        ensures
            r == self.spec_get(),
    {
        self.0
    }

    /// Takes the `BITS` bits at `OFFSET` of `v`.
    pub fn from_bits(v: u32) -> (r: Self)
        requires
            BITS < 32,
            OFFSET < 32,
        ensures
            r.spec_get() == Self::spec_from_bits(v),
    {
        let bits: u32 = BITS;
        assert((1u32 << bits) >= 1u32) by (bit_vector)
            requires
                bits < 32,
        ;
        Self((v >> OFFSET) & ((1u32 << BITS) - 1))
    }

    /// The number moved to its place in a packed `u32`.
    pub fn to_bits(self) -> (r: u32)
        requires
            OFFSET < 32,
        ensures
            r == self.spec_get() << OFFSET,
    {
        self.0 << OFFSET
    }
}

// ---------------------------------------------------------------------------
// The tag and size header of a descriptor
// ---------------------------------------------------------------------------

/// Whether the size read so far, `acc`, has bits that another seven-bit group would push out
/// of 64 bits.
pub open spec fn size_overflows(acc: u64) -> bool {
    acc >= 0x200_0000_0000_0000
}

/// The size read so far, `acc`, extended by the low seven bits of the byte `b`.
pub open spec fn size_step(acc: u64, b: u8) -> u64 {
    (acc * 128 + b % 128) as u64
}

/// Reads the size field that continues at `i` of `s`, with `acc` read so far: each byte gives
/// seven bits, and a byte with its top bit set is followed by another. The size and the
/// offset just past the field, or `None` when `s` ends first or the size outgrows 64 bits.
pub open spec fn tag_size_scan(s: Seq<u8>, i: int, acc: u64) -> Option<(u64, int)>
    decreases s.len() - i,
{
    if i < 0 || i >= s.len() {
        None
    } else if size_overflows(acc) {
        None
    } else if s[i] >= 0x80 {
        tag_size_scan(s, i + 1, size_step(acc, s[i]))
    } else {
        Some((size_step(acc, s[i]), i + 1))
    }
}

/// Whether the size field that continues at `i` of `s`, with `acc` read so far, outgrows 64
/// bits at a byte of `s` (rather than `s` ending first).
pub open spec fn tag_size_overflow(s: Seq<u8>, i: int, acc: u64) -> bool
    decreases s.len() - i,
{
    if i < 0 || i >= s.len() {
        false
    } else if size_overflows(acc) {
        true
    } else if s[i] >= 0x80 {
        tag_size_overflow(s, i + 1, size_step(acc, s[i]))
    } else {
        false
    }
}

/// Whether `s` starts with a whole tag and size header.
pub open spec fn header_ok(s: Seq<u8>) -> bool {
    s.len() >= 1 && tag_size_scan(s, 1, 0) is Some
}

/// The size announced by the header at the start of `s`.
pub open spec fn header_size(s: Seq<u8>) -> u64 {
    match tag_size_scan(s, 1, 0) {
        Some((v, _)) => v,
        None => 0,
    }
}

/// The length of the header at the start of `s`.
pub open spec fn header_len(s: Seq<u8>) -> int {
    match tag_size_scan(s, 1, 0) {
        Some((_, n)) => n,
        None => 0,
    }
}

/// The size field of a size `n`: seven bits per byte, the most significant first, every byte
/// but the last with its top bit set. `last` says whether these are the last bits.
pub open spec fn size_groups(n: nat, last: bool) -> Seq<u8>
    decreases n,
{
    let b = (n % 128 + if last {
        0int
    } else {
        128
    }) as u8;
    if n < 128 {
        seq![b]
    } else {
        size_groups(n / 128, false).push(b)
    }
}

/// The header of a descriptor with the given tag and payload size.
pub open spec fn tag_size_bytes(tag: u8, size: nat) -> Seq<u8> {
    seq![tag] + size_groups(size, true)
}

/// The bytes of a descriptor: its header and its payload.
pub open spec fn descriptor_bytes(tag: u8, payload: Seq<u8>) -> Seq<u8> {
    tag_size_bytes(tag, payload.len()) + payload
}

/// Reads the tag and size header at the start of `buf`: the tag, the size and the length of
/// the header.
///
/// Fails with [`ErrorKind::InvalidData`] when the size outgrows 64 bits (then taken to the
/// width of `usize`), and with [`ErrorKind::InsufficientBuffer`] when `buf` ends first.
pub fn decode_tag_and_size(buf: &[u8]) -> (r: Result<(u8, usize, usize)>)
    ensures
        r is Ok <==> header_ok(buf@),
        r matches Ok((tag, size, n)) ==> tag == buf@[0] && size == header_size(buf@) as usize
            && n == header_len(buf@) && n <= buf@.len(),
        r matches Err(e) ==> if tag_size_overflow(buf@, 1, 0) {
            e.kind == ErrorKind::InvalidData
        } else {
            e.kind == ErrorKind::InsufficientBuffer
        },
{
    let mut offset: usize = 0;
    let tag = get_u8_at(buf, &mut offset)?;
    let mut acc: u64 = 0;
    loop
        invariant
            1 <= offset <= buf@.len(),
            tag == buf@[0],
            tag_size_scan(buf@, 1, 0) == tag_size_scan(buf@, offset as int, acc),
            tag_size_overflow(buf@, 1, 0) == tag_size_overflow(buf@, offset as int, acc),
        decreases buf@.len() - offset,
    {
        let b = get_u8_at(buf, &mut offset)?;
        if acc >= 0x200_0000_0000_0000 {
            return Err(Error::invalid_data("descriptor size overflow"));
        }
        acc = acc * 128 + (b % 128) as u64;
        if b < 0x80 {
            return Ok((tag, acc as usize, offset));
        }
    }
}

fn put_size_groups(out: &mut Vec<u8>, n: u64, last: bool)
    ensures
        final(out)@ == old(out)@ + size_groups(n as nat, last),
    decreases n,
{
    let b: u8 = (n % 128) as u8 + if last {
        0
    } else {
        128
    };
    if n >= 128 {
        put_size_groups(out, n / 128, false);
    }
    put_u8(out, b);
    assert(out@ =~= old(out)@ + size_groups(n as nat, last));
}

/// Writes the header of a descriptor with the given tag and payload size at the start of
/// `buf`, and returns its length.
///
/// Fails with [`ErrorKind::InsufficientBuffer`] when `buf` is too small.
pub fn encode_tag_and_size(buf: &mut [u8], tag: u8, size: usize) -> (r: Result<usize>)
    ensures
        r is Ok <==> tag_size_bytes(tag, size as nat).len() <= old(buf)@.len(),
        final(buf)@.len() == old(buf)@.len(),
        r matches Ok(n) ==> n == tag_size_bytes(tag, size as nat).len() && final(buf)@
            == tag_size_bytes(tag, size as nat) + old(buf)@.skip(n as int),
        r matches Err(e) ==> e.kind == ErrorKind::InsufficientBuffer && final(buf)@ == old(buf)@,
{
    let mut bytes: Vec<u8> = Vec::new();
    bytes.push(tag);
    put_size_groups(&mut bytes, size as u64, true);
    assert(bytes@ =~= tag_size_bytes(tag, size as nat));
    copy_to_front(buf, &bytes)
}

/// Copies `bytes` to the start of `buf` and returns their length.
fn copy_to_front(buf: &mut [u8], bytes: &Vec<u8>) -> (r: Result<usize>)
    ensures
        r is Ok <==> bytes@.len() <= old(buf)@.len(),
        final(buf)@.len() == old(buf)@.len(),
        r matches Ok(n) ==> n == bytes@.len() && final(buf)@ == bytes@ + old(buf)@.skip(n as int),
        r matches Err(e) ==> e.kind == ErrorKind::InsufficientBuffer && final(buf)@ == old(buf)@,
{
    if buf.len() < bytes.len() {
        return Err(Error::insufficient_buffer());
    }
    let ghost original = buf@;
    let n = bytes.len();
    let mut i: usize = 0;
    while i < n
        invariant
            n == bytes@.len(),
            n <= buf@.len(),
            i <= n,
            buf@.len() == original.len(),
            forall|j: int| 0 <= j < i ==> buf@[j] == bytes@[j],
            forall|j: int| n <= j < buf@.len() ==> buf@[j] == original[j],
        decreases n - i,
    {
        buf[i] = bytes[i];
        i += 1;
    }
    assert(buf@ =~= bytes@ + original.skip(n as int));
    Ok(n)
}

/// Appends a descriptor with the given tag and payload to `out`.
fn put_descriptor(out: &mut Vec<u8>, tag: u8, payload: &Vec<u8>)
    ensures
        final(out)@ == old(out)@ + descriptor_bytes(tag, payload@),
{
    let ghost start = out@;
    put_u8(out, tag);
    put_size_groups(out, payload.len() as u64, true);
    put_bytes(out, payload.as_slice());
    assert(out@ =~= start + descriptor_bytes(tag, payload@));
}

/// Whether `s` starts with a descriptor of the given tag.
pub open spec fn spec_starts_with_tag(s: Seq<u8>, tag: u8) -> bool {
    s.len() > 0 && s[0] == tag
}

/// Whether `buf` starts with a descriptor of the given tag.
fn starts_with_tag(buf: &[u8], expected_tag: u8) -> (r: bool)
    ensures
        r == spec_starts_with_tag(buf@, expected_tag),
{
    buf.len() > 0 && buf[0] == expected_tag
}


/// `128` to the power `k`.
pub open spec fn pow128(k: nat) -> nat
    decreases k,
{
    if k == 0 {
        1
    } else {
        128 * pow128((k - 1) as nat)
    }
}

/// Reading a run of size bytes written by [`size_groups`] from `acc` gives `acc` shifted by
/// the run's seven-bit groups plus `n`; the last run ends the field, another lets it go on.
proof fn lemma_scan_groups(s: Seq<u8>, i: int, n: nat, acc: u64, last: bool)
    requires
        0 <= i,
        i + size_groups(n, last).len() <= s.len(),
        s.subrange(i, i + size_groups(n, last).len()) == size_groups(n, last),
        acc * pow128(size_groups(n, last).len()) + n < 0x1_0000_0000_0000_0000,
    ensures
        ({
            let k = size_groups(n, last).len();
            let v = (acc * pow128(k) + n) as u64;
            if last {
                tag_size_scan(s, i, acc) == Some((v, i + k))
            } else {
                tag_size_scan(s, i, acc) == tag_size_scan(s, i + k, v)
            }
        }),
    decreases n,
{
    let g = size_groups(n, last);
    let k = g.len();
    let b = (n % 128 + if last {
        0int
    } else {
        128
    }) as u8;
    if n < 128 {
        assert(g == seq![b]);
        assert(s[i] == g[0]);
        assert(pow128(1) == 128) by {
            assert(pow128(0) == 1);
        }
        assert(acc < 0x200_0000_0000_0000);
        assert(size_step(acc, b) == acc * 128 + n);
    } else {
        let h = size_groups(n / 128, false);
        let m = h.len();
        assert(g == h.push(b));
        assert(k == m + 1);
        assert(pow128(k) == 128 * pow128(m));
        let a = acc * pow128(m) + n / 128;
        assert(acc * pow128(k) + n == a * 128 + n % 128) by (nonlinear_arith)
            requires
                pow128(k) == 128 * pow128(m),
                a == acc * pow128(m) + n / 128,
        ;
        assert(a < 0x200_0000_0000_0000);
        assert(acc * pow128(m) + n / 128 < 0x1_0000_0000_0000_0000);
        assert(s.subrange(i, i + m) =~= h) by {
            assert(s.subrange(i, i + m) =~= s.subrange(i, i + k).subrange(0, m as int));
        }
        lemma_scan_groups(s, i, n / 128, acc, false);
        assert(s[i + m] == g[m as int]);
        assert(size_step(a as u64, b) == a * 128 + n % 128);
    }
}

/// A header written by [`encode_tag_and_size`] reads back with its tag and size, whatever
/// bytes follow it.
pub proof fn lemma_tag_and_size_roundtrip(tag: u8, size: usize, rest: Seq<u8>)
    ensures
        ({
            let s = tag_size_bytes(tag, size as nat) + rest;
            &&& header_ok(s)
            &&& s[0] == tag
            &&& header_size(s) == size
            &&& header_len(s) == tag_size_bytes(tag, size as nat).len()
        }),
{
    let g = size_groups(size as nat, true);
    let s = tag_size_bytes(tag, size as nat) + rest;
    assert(s.subrange(1, 1 + g.len() as int) =~= g);
    assert(0 * pow128(g.len()) == 0);
    lemma_scan_groups(s, 1, size as nat, 0, true);
}


// ---------------------------------------------------------------------------
// DecoderSpecificInfo
// ---------------------------------------------------------------------------

/// The decoder specific information (ISO/IEC 14496-1 DecoderSpecificInfo): bytes whose
/// meaning depends on the codec, such as an AAC AudioSpecificConfig.
#[derive(Debug, Clone)]
#[allow(missing_docs)]
pub struct DecoderSpecificInfo {
    pub payload: Vec<u8>,
}

impl DecoderSpecificInfo {
    const TAG: u8 = 5;
}

impl Encode for DecoderSpecificInfo {
    open spec fn spec_encodable(&self) -> bool {
        true
    }

    open spec fn spec_encoding(&self) -> Seq<u8> {
        descriptor_bytes(5, self.payload@)
    }

    fn encode_into(&self, out: &mut Vec<u8>) -> (r: Result<()>) {
        put_descriptor(out, Self::TAG, &self.payload);
        Ok(())
    }
}

impl Decode for DecoderSpecificInfo {
    /// The tag must be 5, and the payload must lie within `s`.
    open spec fn spec_can_decode(s: Seq<u8>) -> bool {
        &&& header_ok(s)
        &&& s[0] == 5
        &&& (header_size(s) as usize) <= s.len() - header_len(s)
    }

    open spec fn spec_decoded_len(s: Seq<u8>) -> int {
        header_len(s) + (header_size(s) as usize)
    }

    open spec fn spec_decoded(s: Seq<u8>, v: Self) -> bool {
        v.payload@ == s.subrange(header_len(s), header_len(s) + (header_size(s) as usize))
    }

    fn decode(buf: &[u8]) -> (r: Result<(Self, usize)>) {
        let (tag, size, offset) = decode_tag_and_size(buf)?;
        if tag != Self::TAG {
            return Err(Error::invalid_data("Unexpected descriptor tag"));
        }
        if size > buf.len() - offset {
            return Err(Error::invalid_data("DecoderSpecificInfo payload exceeds buffer boundary"));
        }
        let bytes = vstd::slice::slice_subrange(buf, offset, offset + size);
        let mut payload: Vec<u8> = Vec::new();
        put_bytes(&mut payload, bytes);
        assert(payload@ =~= buf@.subrange(offset as int, offset + size));
        Ok((Self { payload }, offset + size))
    }
}

// ---------------------------------------------------------------------------
// SLConfigDescriptor
// ---------------------------------------------------------------------------

/// The sync layer configuration (ISO/IEC 14496-1 SLConfigDescriptor). Only the predefined
/// configuration 2, the one of MP4 files, is supported.
#[derive(Debug, Clone, Copy, PartialEq, Eq, Hash, Structural)]
pub struct SlConfigDescriptor;

impl SlConfigDescriptor {
    const TAG: u8 = 6;
}

impl Encode for SlConfigDescriptor {
    open spec fn spec_encodable(&self) -> bool {
        true
    }

    open spec fn spec_encoding(&self) -> Seq<u8> {
        descriptor_bytes(6, seq![2u8])
    }

    fn encode_into(&self, out: &mut Vec<u8>) -> (r: Result<()>) {
        let mut payload: Vec<u8> = Vec::new();
        payload.push(2);
        assert(payload@ =~= seq![2u8]);
        put_descriptor(out, Self::TAG, &payload);
        Ok(())
    }
}

impl Decode for SlConfigDescriptor {
    /// The tag must be 6 and the predefined configuration 2.
    open spec fn spec_can_decode(s: Seq<u8>) -> bool {
        &&& header_ok(s)
        &&& s[0] == 6
        &&& s.len() > header_len(s)
        &&& s[header_len(s)] == 2
    }

    open spec fn spec_decoded_len(s: Seq<u8>) -> int {
        header_len(s) + 1
    }

    open spec fn spec_decoded(s: Seq<u8>, v: Self) -> bool {
        true
    }

    fn decode(buf: &[u8]) -> (r: Result<(Self, usize)>) {
        let (tag, _size, mut offset) = decode_tag_and_size(buf)?;
        if tag != Self::TAG {
            return Err(Error::invalid_data("Unexpected descriptor tag"));
        }
        let predefined = get_u8_at(buf, &mut offset)?;
        if predefined != 2 {
            return Err(Error::unsupported("Unsupported `SLConfigDescriptor.predefined` value"));
        }
        Ok((Self, offset))
    }
}

// ---------------------------------------------------------------------------
// DecoderConfigDescriptor
// ---------------------------------------------------------------------------

/// The decoder configuration (ISO/IEC 14496-1 DecoderConfigDescriptor).
#[derive(Debug, Clone)]
#[allow(missing_docs)]
pub struct DecoderConfigDescriptor {
    pub object_type_indication: u8,
    pub stream_type: Uint<u8, 6, 2>,
    pub up_stream: Uint<u8, 1, 1>,
    pub buffer_size_db: Uint<u32, 24, 0>,
    pub max_bitrate: u32,
    pub avg_bitrate: u32,
    pub dec_specific_info: Option<DecoderSpecificInfo>,
}

/// The byte that packs the stream type, the up-stream bit and the reserved bit 1.
pub open spec fn dcd_flags_byte(stream_type: u8, up_stream: u8) -> u8 {
    (stream_type << 2u32) | (up_stream << 1u32) | 1u8
}

/// The 24-bit buffer size held in the three bytes at `o` of `s`.
pub open spec fn get_u24(s: Seq<u8>, o: int) -> u32 {
    (s[o] * 0x1_0000 + s[o + 1] * 0x100 + s[o + 2]) as u32
}

impl DecoderConfigDescriptor {
    const TAG: u8 = 4;

    /// The object type of ISO/IEC 14496-3 audio (AAC).
    pub const OBJECT_TYPE_INDICATION_AUDIO_ISO_IEC_14496_3: u8 = 0x40;

    /// The stream type of audio streams.
    #[allow(non_snake_case)]
    pub fn STREAM_TYPE_AUDIO() -> (r: Uint<u8, 6, 2>)
        ensures
            r.spec_get() == 5,
    {
        Uint::<u8, 6, 2>::new(0x05)
    }

    /// The up-stream value of files meant for playback.
    #[allow(non_snake_case)]
    pub fn UP_STREAM_FALSE() -> (r: Uint<u8, 1, 1>)
        ensures
            r.spec_get() == 0,
    {
        Uint::<u8, 1, 1>::new(0)
    }

    /// The payload bytes of the descriptor.
    pub open spec fn spec_payload(&self) -> Seq<u8> {
        seq![self.object_type_indication, dcd_flags_byte(
            self.stream_type.spec_get(),
            self.up_stream.spec_get(),
        )] + be_u32(self.buffer_size_db.spec_get()).skip(1) + be_u32(self.max_bitrate) + be_u32(
            self.avg_bitrate,
        ) + match self.dec_specific_info {
            Some(d) => d.spec_encoding(),
            None => Seq::empty(),
        }
    }

    /// Whether a decoder specific information follows the fixed fields of `s`.
    pub open spec fn spec_has_info(s: Seq<u8>) -> bool {
        spec_starts_with_tag(s.skip(header_len(s) + 13), 5)
    }
}

impl Encode for DecoderConfigDescriptor {
    open spec fn spec_encodable(&self) -> bool {
        true
    }

    open spec fn spec_encoding(&self) -> Seq<u8> {
        descriptor_bytes(4, self.spec_payload())
    }

    fn encode_into(&self, out: &mut Vec<u8>) -> (r: Result<()>) {
        let mut p: Vec<u8> = Vec::new();
        put_u8(&mut p, self.object_type_indication);
        let reserved = Uint::<u8, 1, 0>::new(1);
        let rb = reserved.to_bits();
        let ghost r0 = reserved.spec_get();
        assert(rb == 1u8) by (bit_vector)
            requires
                rb == r0 << 0u32,
                r0 == 1u8,
        ;
        let flags = self.stream_type.to_bits() | self.up_stream.to_bits() | rb;
        put_u8(&mut p, flags);
        let v = self.buffer_size_db.to_bits();
        let ghost v0 = self.buffer_size_db.spec_get();
        assert(v == v0) by (bit_vector)
            requires
                v == v0 << 0u32,
        ;
        put_u8(&mut p, ((v / 0x1_0000) % 0x100) as u8);
        put_u8(&mut p, ((v / 0x100) % 0x100) as u8);
        put_u8(&mut p, (v % 0x100) as u8);
        put_u32(&mut p, self.max_bitrate);
        put_u32(&mut p, self.avg_bitrate);
        match &self.dec_specific_info {
            Some(d) => {
                let _ = d.encode_into(&mut p);
            },
            None => {},
        }
        assert(p@ =~= self.spec_payload());
        put_descriptor(out, Self::TAG, &p);
        Ok(())
    }
}

impl Decode for DecoderConfigDescriptor {
    /// The tag must be 4, the fixed fields must lie within `s`, and a descriptor with the tag
    /// of a decoder specific information after them must be one.
    open spec fn spec_can_decode(s: Seq<u8>) -> bool {
        &&& header_ok(s)
        &&& s[0] == 4
        &&& s.len() >= header_len(s) + 13
        &&& Self::spec_has_info(s) ==> DecoderSpecificInfo::spec_can_decode(
            s.skip(header_len(s) + 13),
        )
    }

    open spec fn spec_decoded_len(s: Seq<u8>) -> int {
        header_len(s) + 13 + if Self::spec_has_info(s) {
            DecoderSpecificInfo::spec_decoded_len(s.skip(header_len(s) + 13))
        } else {
            0
        }
    }

    open spec fn spec_decoded(s: Seq<u8>, v: Self) -> bool {
        let o = header_len(s);
        &&& v.object_type_indication == s[o]
        &&& v.stream_type.spec_get() == Uint::<u8, 6, 2>::spec_from_bits(s[o + 1])
        &&& v.up_stream.spec_get() == Uint::<u8, 1, 1>::spec_from_bits(s[o + 1])
        &&& v.buffer_size_db.spec_get() == Uint::<u32, 24, 0>::spec_from_bits(get_u24(s, o + 2))
        &&& v.max_bitrate == get_u32(s, o + 5)
        &&& v.avg_bitrate == get_u32(s, o + 9)
        &&& v.dec_specific_info is Some <==> Self::spec_has_info(s)
        &&& v.dec_specific_info matches Some(d) ==> DecoderSpecificInfo::spec_decoded(
            s.skip(o + 13),
            d,
        )
    }

    fn decode(buf: &[u8]) -> (r: Result<(Self, usize)>) {
        let (tag, _size, mut offset) = decode_tag_and_size(buf)?;
        if tag != Self::TAG {
            return Err(Error::invalid_data("Unexpected descriptor tag"));
        }
        let object_type_indication = get_u8_at(buf, &mut offset)?;
        let b = get_u8_at(buf, &mut offset)?;
        let stream_type = Uint::<u8, 6, 2>::from_bits(b);
        let up_stream = Uint::<u8, 1, 1>::from_bits(b);
        if buf.len() - offset < 3 {
            return Err(Error::invalid_data("buffer_size_db exceeds buffer boundary"));
        }
        let raw: u32 = (buf[offset] as u32) * 0x1_0000 + (buf[offset + 1] as u32) * 0x100
            + buf[offset + 2] as u32;
        offset = offset + 3;
        let buffer_size_db = Uint::<u32, 24, 0>::from_bits(raw);
        let max_bitrate = get_u32_at(buf, &mut offset)?;
        let avg_bitrate = get_u32_at(buf, &mut offset)?;
        let ghost o = offset;
        let rest = vstd::slice::slice_subrange(buf, offset, buf.len());
        assert(rest@ =~= buf@.skip(offset as int));
        let dec_specific_info = if starts_with_tag(rest, DecoderSpecificInfo::TAG) {
            Some(DecoderSpecificInfo::decode_at(buf, &mut offset)?)
        } else {
            None
        };
        Ok(
            (
                Self {
                    object_type_indication,
                    stream_type,
                    up_stream,
                    buffer_size_db,
                    max_bitrate,
                    avg_bitrate,
                    dec_specific_info,
                },
                offset,
            ),
        )
    }
}


// ---------------------------------------------------------------------------
// ES_Descriptor
// ---------------------------------------------------------------------------

/// The elementary stream descriptor (ISO/IEC 14496-1 ES_Descriptor).
#[derive(Debug, Clone)]
#[allow(missing_docs)]
pub struct EsDescriptor {
    pub es_id: u16,
    pub stream_priority: Uint<u8, 5, 0>,
    pub depends_on_es_id: Option<u16>,
    pub url_string: Option<String>,
    pub ocr_es_id: Option<u16>,
    pub dec_config_descr: DecoderConfigDescriptor,
    pub sl_config_descr: SlConfigDescriptor,
}

/// The bytes of an optional 16-bit field: nothing when absent.
pub open spec fn opt_u16_bytes(o: Option<u16>) -> Seq<u8> {
    match o {
        Some(v) => be_u16(v),
        None => Seq::empty(),
    }
}

/// The bytes of an optional URL: its length in one byte (modulo 256), then its UTF-8 bytes.
pub open spec fn url_bytes(o: Option<String>) -> Seq<u8> {
    match o {
        Some(u) => seq![encode_utf8(u@).len() as u8] + encode_utf8(u@),
        None => Seq::empty(),
    }
}

/// `n` when `present`, else 0.
pub open spec fn when(present: bool, n: int) -> int {
    if present {
        n
    } else {
        0
    }
}

impl EsDescriptor {
    const TAG: u8 = 3;

    /// The smallest usable `es_id` (0 is reserved).
    pub const MIN_ES_ID: u16 = 1;

    /// The stream priority of the lowest priority.
    #[allow(non_snake_case)]
    pub fn LOWEST_STREAM_PRIORITY() -> (r: Uint<u8, 5, 0>)
        ensures
            r.spec_get() == 0,
    {
        Uint::<u8, 5, 0>::new(0)
    }

    /// The byte that packs the three presence flags and the stream priority.
    pub open spec fn spec_flags_byte(&self) -> u8 {
        (when(self.depends_on_es_id is Some, 0x80) + when(self.url_string is Some, 0x40) + when(
            self.ocr_es_id is Some,
            0x20,
        )) as u8 | self.stream_priority.spec_get()
    }

    /// The payload bytes of the descriptor.
    pub open spec fn spec_payload(&self) -> Seq<u8> {
        be_u16(self.es_id) + seq![self.spec_flags_byte()] + opt_u16_bytes(self.depends_on_es_id)
            + url_bytes(self.url_string) + opt_u16_bytes(self.ocr_es_id)
            + self.dec_config_descr.spec_encoding() + self.sl_config_descr.spec_encoding()
    }

    /// The flags byte of the descriptor at the start of `s`.
    pub open spec fn spec_b(s: Seq<u8>) -> u8 {
        s[header_len(s) + 2]
    }

    /// Whether the descriptor at the start of `s` depends on another stream.
    pub open spec fn spec_has_dep(s: Seq<u8>) -> bool {
        Uint::<u8, 1, 7>::spec_from_bits(Self::spec_b(s)) == 1
    }

    /// Whether the descriptor at the start of `s` has a URL.
    pub open spec fn spec_has_url(s: Seq<u8>) -> bool {
        Uint::<u8, 1, 6>::spec_from_bits(Self::spec_b(s)) == 1
    }

    /// Whether the descriptor at the start of `s` has an OCR stream.
    pub open spec fn spec_has_ocr(s: Seq<u8>) -> bool {
        Uint::<u8, 1, 5>::spec_from_bits(Self::spec_b(s)) == 1
    }

    /// Where the URL length of the descriptor at the start of `s` is.
    pub open spec fn spec_url_at(s: Seq<u8>) -> int {
        header_len(s) + 3 + when(Self::spec_has_dep(s), 2)
    }

    /// Where the OCR stream id of the descriptor at the start of `s` is.
    pub open spec fn spec_ocr_at(s: Seq<u8>) -> int {
        Self::spec_url_at(s) + when(Self::spec_has_url(s), 1 + s[Self::spec_url_at(s)])
    }

    /// Where the decoder configuration of the descriptor at the start of `s` is.
    pub open spec fn spec_config_at(s: Seq<u8>) -> int {
        Self::spec_ocr_at(s) + when(Self::spec_has_ocr(s), 2)
    }

    /// Where the sync layer configuration of the descriptor at the start of `s` is.
    pub open spec fn spec_sl_at(s: Seq<u8>) -> int {
        Self::spec_config_at(s) + DecoderConfigDescriptor::spec_decoded_len(
            s.skip(Self::spec_config_at(s)),
        )
    }
}

impl Encode for EsDescriptor {
    open spec fn spec_encodable(&self) -> bool {
        true
    }

    open spec fn spec_encoding(&self) -> Seq<u8> {
        descriptor_bytes(3, self.spec_payload())
    }

    fn encode_into(&self, out: &mut Vec<u8>) -> (r: Result<()>) {
        let mut p: Vec<u8> = Vec::new();
        let ghost start = p@;
        put_u16(&mut p, self.es_id);
        let hi: u8 = (if self.depends_on_es_id.is_some() {
            0x80u8
        } else {
            0
        }) + (if self.url_string.is_some() {
            0x40u8
        } else {
            0
        }) + (if self.ocr_es_id.is_some() {
            0x20u8
        } else {
            0
        });
        put_u8(&mut p, hi | self.stream_priority.get());
        match self.depends_on_es_id {
            Some(v) => put_u16(&mut p, v),
            None => {},
        }
        match &self.url_string {
            Some(u) => {
                let bytes = u.as_str().as_bytes();
                put_u8(&mut p, bytes.len() as u8);
                put_bytes(&mut p, bytes);
            },
            None => {},
        }
        match self.ocr_es_id {
            Some(v) => put_u16(&mut p, v),
            None => {},
        }
        let _ = self.dec_config_descr.encode_into(&mut p);
        let _ = self.sl_config_descr.encode_into(&mut p);
        assert(p@ =~= self.spec_payload());
        put_descriptor(out, Self::TAG, &p);
        Ok(())
    }
}

impl Decode for EsDescriptor {
    /// The tag must be 3, every field that the flags announce must lie within `s`, a URL must
    /// be UTF-8, and the two configurations must follow.
    open spec fn spec_can_decode(s: Seq<u8>) -> bool {
        &&& header_ok(s)
        &&& s[0] == 3
        &&& s.len() >= header_len(s) + 3
        &&& s.len() >= Self::spec_url_at(s)
        &&& Self::spec_has_url(s) ==> {
            &&& s.len() >= Self::spec_url_at(s) + 1
            &&& Self::spec_ocr_at(s) <= s.len()
            &&& valid_utf8(s.subrange(Self::spec_url_at(s) + 1, Self::spec_ocr_at(s)))
        }
        &&& s.len() >= Self::spec_config_at(s)
        &&& DecoderConfigDescriptor::spec_can_decode(s.skip(Self::spec_config_at(s)))
        &&& SlConfigDescriptor::spec_can_decode(s.skip(Self::spec_sl_at(s)))
    }

    open spec fn spec_decoded_len(s: Seq<u8>) -> int {
        Self::spec_sl_at(s) + SlConfigDescriptor::spec_decoded_len(s.skip(Self::spec_sl_at(s)))
    }

    open spec fn spec_decoded(s: Seq<u8>, v: Self) -> bool {
        let o = header_len(s);
        &&& v.es_id == get_u16(s, o)
        &&& v.stream_priority.spec_get() == Uint::<u8, 5, 0>::spec_from_bits(Self::spec_b(s))
        &&& v.depends_on_es_id == if Self::spec_has_dep(s) {
            Some(get_u16(s, o + 3))
        } else {
            None
        }
        &&& v.url_string is Some <==> Self::spec_has_url(s)
        &&& v.url_string matches Some(u) ==> encode_utf8(u@) == s.subrange(
            Self::spec_url_at(s) + 1,
            Self::spec_ocr_at(s),
        )
        &&& v.ocr_es_id == if Self::spec_has_ocr(s) {
            Some(get_u16(s, Self::spec_ocr_at(s)))
        } else {
            None
        }
        &&& DecoderConfigDescriptor::spec_decoded(s.skip(Self::spec_config_at(s)), v.dec_config_descr)
    }

    fn decode(buf: &[u8]) -> (r: Result<(Self, usize)>) {
        let (tag, _size, mut offset) = decode_tag_and_size(buf)?;
        if tag != Self::TAG {
            return Err(Error::invalid_data("Unexpected descriptor tag"));
        }
        let es_id = get_u16_at(buf, &mut offset)?;
        let b = get_u8_at(buf, &mut offset)?;
        let has_dep = Uint::<u8, 1, 7>::from_bits(b).get() == 1;
        let has_url = Uint::<u8, 1, 6>::from_bits(b).get() == 1;
        let has_ocr = Uint::<u8, 1, 5>::from_bits(b).get() == 1;
        let stream_priority = Uint::<u8, 5, 0>::from_bits(b);
        let depends_on_es_id = if has_dep {
            Some(get_u16_at(buf, &mut offset)?)
        } else {
            None
        };
        let url_string = if has_url {
            let len = get_u8_at(buf, &mut offset)? as usize;
            if len > buf.len() - offset {
                return Err(Error::invalid_data("URL string exceeds buffer boundary"));
            }
            let slice = vstd::slice::slice_subrange(buf, offset, offset + len);
            let mut bytes: Vec<u8> = Vec::new();
            put_bytes(&mut bytes, slice);
            assert(bytes@ =~= buf@.subrange(offset as int, offset + len));
            let s = match string_from_utf8(bytes) {
                Some(s) => s,
                None => {
                    return Err(Error::invalid_data("Invalid UTF-8 in URL string"));
                },
            };
            offset = offset + len;
            Some(s)
        } else {
            None
        };
        let ocr_es_id = if has_ocr {
            Some(get_u16_at(buf, &mut offset)?)
        } else {
            None
        };
        let ghost c = offset as int;
        let dec_config_descr = DecoderConfigDescriptor::decode_at(buf, &mut offset)?;
        let sl_config_descr = SlConfigDescriptor::decode_at(buf, &mut offset)?;
        Ok(
            (
                Self {
                    es_id,
                    stream_priority,
                    depends_on_es_id,
                    url_string,
                    ocr_es_id,
                    dec_config_descr,
                    sl_config_descr,
                },
                offset,
            ),
        )
    }
}


// ---------------------------------------------------------------------------
// esds
// ---------------------------------------------------------------------------

/// The elementary stream descriptor box (`esds`, ISO/IEC 14496-14 ESDBox): the
/// [`EsDescriptor`] of an MPEG-4 audio or video track.
#[derive(Debug, Clone)]
#[allow(missing_docs)]
pub struct EsdsBox {
    pub es: EsDescriptor,
}

impl EsdsBox {
    /// The type of the box.
    pub open spec fn spec_type() -> BoxType {
        fourcc(0x65, 0x73, 0x64, 0x73)
    }

    /// The type of the box: `esds`.
    #[allow(non_snake_case)]
    pub fn TYPE() -> (r: BoxType)
        ensures
            r == Self::spec_type(),
    {
        BoxType::Normal([0x65, 0x73, 0x64, 0x73])
    }

    /// The payload bytes of the box.
    pub open spec fn spec_payload_bytes(&self) -> Seq<u8> {
        full_header_bytes(0, 0) + self.es.spec_encoding()
    }

    /// Whether `p` is the payload of an `esds` box.
    pub open spec fn spec_payload_ok(p: Seq<u8>) -> bool {
        p.len() >= 4 && EsDescriptor::spec_can_decode(p.skip(4))
    }

    /// Whether `v` is the box read from the payload `p`.
    pub open spec fn spec_payload_decoded(p: Seq<u8>, v: Self) -> bool {
        EsDescriptor::spec_decoded(p.skip(4), v.es)
    }

    fn put_payload(&self, p: &mut Vec<u8>)
        ensures
            final(p)@ == old(p)@ + self.spec_payload_bytes(),
    {
        let ghost start = p@;
        put_full_header(p, 0, 0);
        let _ = self.es.encode_into(p);
        assert(p@ =~= start + self.spec_payload_bytes());
    }

    fn decode_payload(p: &[u8]) -> (r: Result<Self>)
        ensures
            r is Ok <==> Self::spec_payload_ok(p@),
            r matches Ok(v) ==> Self::spec_payload_decoded(p@, v),
    {
        if p.len() < 4 {
            return Err(Error::insufficient_buffer());
        }
        let mut offset: usize = 4;
        let es = EsDescriptor::decode_at(p, &mut offset)?;
        Ok(Self { es })
    }
}

impl Encode for EsdsBox {
    open spec fn spec_encodable(&self) -> bool {
        spec_box_fits(self.spec_payload_bytes())
    }

    open spec fn spec_encoding(&self) -> Seq<u8> {
        spec_box_bytes(Self::spec_type().spec_bytes(), self.spec_payload_bytes())
    }

    fn encode_into(&self, out: &mut Vec<u8>) -> (r: Result<()>) {
        let mut p: Vec<u8> = Vec::new();
        self.put_payload(&mut p);
        finish_box(out, Self::TYPE(), p)
    }
}

impl Decode for EsdsBox {
    open spec fn spec_can_decode(s: Seq<u8>) -> bool {
        &&& spec_can_split(s)
        &&& spec_is_type(s, Self::spec_type().spec_bytes())
        &&& Self::spec_payload_ok(spec_payload(s))
    }

    open spec fn spec_decoded_len(s: Seq<u8>) -> int {
        spec_box_end(s)
    }

    open spec fn spec_decoded(s: Seq<u8>, v: Self) -> bool {
        Self::spec_payload_decoded(spec_payload(s), v)
    }

    fn decode(buf: &[u8]) -> (r: Result<(Self, usize)>) {
        let (header, payload) = BoxHeader::decode_typed(buf, Self::TYPE())?;
        let total = buf.len();
        assert(header.spec_external_size() + payload@.len() <= total);
        let n = header.external_size() + payload.len();
        let v = with_box_type(Self::TYPE(), Self::decode_payload(payload))?;
        Ok((v, n))
    }
}

impl BaseBox for EsdsBox {
    open spec fn spec_box_type(&self) -> BoxType {
        Self::spec_type()
    }

    fn box_type(&self) -> (r: BoxType) {
        Self::TYPE()
    }
}


impl FullBox for EsdsBox {
    open spec fn spec_full_box_version(&self) -> u8 {
        0
    }

    open spec fn spec_full_box_flags(&self) -> FullBoxFlags {
        FullBoxFlags::spec_new(0)
    }

    fn full_box_version(&self) -> (r: u8) {
        0
    }

    fn full_box_flags(&self) -> (r: FullBoxFlags) {
        FullBoxFlags::new(0)
    }
}


} // verus!
