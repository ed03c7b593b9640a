//! Box framing shared by all boxes, and the top-level boxes.
use crate::basic_types::{bytes_eq, uuid_tag, BaseBox, BoxHeader, BoxSize, BoxType};
use vstd::std_specs::cmp::PartialEqSpecImpl;
use crate::basic_types::FullBoxFlags;
use crate::codec::{
    be_u32, be_u64, get_bytes_at, get_u32, get_u32_at, get_u64, get_u64_at, lemma_be_u32,
    lemma_be_u64, put_bytes, put_u32, put_u64, put_u8, Decode, Encode, Error, ErrorKind, Result,
};
pub use crate::boxes_moov_tree::{
    Co64Box, DinfBox, DrefBox, EdtsBox, ElstBox, ElstEntry, HdlrBox, MdhdBox, MdiaBox, MinfBox, MoovBox,
    MvexBox, TrakBox, UrlBox, MehdBox, MvhdBox, SmhdBox, StblBox, TkhdBox, TrexBox, VmhdBox, StcoBox, StscBox, StscEntry, StsdBox, StssBox, StszBox, SttsBox, SttsEntry,
};
pub use crate::descriptors::EsdsBox;
pub use crate::boxes_fmp4::{
    MfhdBox, MfraBox, MfroBox, MoofBox, SidxBox, SidxReference, TfdtBox, TfhdBox, TfraBox,
    TfraEntry, TrafBox, TrunBox, TrunSample,
};
use vstd::prelude::*;

verus! {

// ---------------------------------------------------------------------------
// Framing: a box is a header followed by its payload
// ---------------------------------------------------------------------------

/// The offset just past the box at the start of `s`: its announced size, or the end of `s`
/// when the size is zero.
pub open spec fn spec_box_end(s: Seq<u8>) -> int {
    if BoxHeader::spec_size_value(s) == 0 {
        s.len() as int
    } else {
        BoxHeader::spec_size_value(s) as int
    }
}

/// Whether `s` starts with a box header whose box lies entirely within `s`.
pub open spec fn spec_can_split(s: Seq<u8>) -> bool {
    &&& BoxHeader::spec_can_decode(s)
    &&& spec_box_end(s) <= s.len()
}

/// The payload of the box at the start of `s`.
pub open spec fn spec_payload(s: Seq<u8>) -> Seq<u8> {
    s.subrange(BoxHeader::spec_decoded_len(s), spec_box_end(s))
}

/// Whether the box at the start of `s` has the ordinary four-byte type `t`.
pub open spec fn spec_is_type(s: Seq<u8>, t: Seq<u8>) -> bool {
    &&& !BoxHeader::spec_has_uuid(s)
    &&& s.subrange(4, 8) == t
}

/// Whether a box of type `t` with payload `p` can be framed: its size must fit 32 bits.
pub open spec fn spec_box_fits(p: Seq<u8>) -> bool {
    8 + p.len() <= 0xffff_ffff
}

/// The bytes of a box with the ordinary type `t` and payload `p`, with a 32-bit size field.
pub open spec fn spec_box_bytes(t: Seq<u8>, p: Seq<u8>) -> Seq<u8> {
    be_u32((8 + p.len()) as u32) + t + p
}

/// A box written by [`spec_box_bytes`] reads back as a box of type `t` with payload `p`,
/// whatever bytes follow it.
pub proof fn lemma_box_frame(t: Seq<u8>, p: Seq<u8>, rest: Seq<u8>)
    requires
        t.len() == 4,
        t != uuid_tag(),
        spec_box_fits(p),
    ensures
        ({
            let s = spec_box_bytes(t, p) + rest;
            &&& spec_can_split(s)
            &&& spec_is_type(s, t)
            &&& spec_payload(s) == p
            &&& spec_box_end(s) == 8 + p.len()
            &&& BoxHeader::spec_decoded_len(s) == 8
            &&& s.subrange(0, spec_box_end(s)) == spec_box_bytes(t, p)
        }),
{
    let size = (8 + p.len()) as u32;
    let s = spec_box_bytes(t, p) + rest;
    lemma_be_u32(size);
    assert(s.subrange(0, 4) =~= be_u32(size));
    assert(get_u32(s, 0) == size);
    assert(s.subrange(4, 8) =~= t);
    assert(!BoxHeader::spec_has_uuid(s));
    assert(s.subrange(8, 8 + p.len() as int) =~= p);
    assert(s.subrange(0, 8 + p.len() as int) =~= spec_box_bytes(t, p));
}

/// Appends a box of the ordinary type `ty` with the given payload to `out`.
///
/// Fails with [`ErrorKind::InvalidInput`] when the box size does not fit 32 bits.
pub(crate) fn put_box(out: &mut Vec<u8>, ty: BoxType, payload: &[u8]) -> (r: Result<()>)
    requires
        ty is Normal,
    ensures
        r is Ok <==> spec_box_fits(payload@),
        r is Ok ==> final(out)@ == old(out)@ + spec_box_bytes(ty.spec_bytes(), payload@),
        r matches Err(e) ==> e.kind == ErrorKind::InvalidInput && final(out)@ == old(out)@,
{
    if payload.len() > 0xffff_ffff - 8 {
        return Err(
            Error::invalid_input(
                "box payload too large: header size would require U64, making layout inconsistent",
            ).with_box_type(ty),
        );
    }
    let ghost start = out@;
    let size = (8 + payload.len()) as u32;
    let header = BoxHeader::new(ty, BoxSize::U32(size));
    let _ = header.encode_into(out);
    put_bytes(out, payload);
    assert(out@ =~= start + spec_box_bytes(ty.spec_bytes(), payload@));
    Ok(())
}

/// Fails with [`ErrorKind::InvalidInput`] (recording `ty`) when a box with `payload` does not
/// fit a 32-bit size field, and frames it into `out` otherwise.
pub(crate) fn finish_box(out: &mut Vec<u8>, ty: BoxType, payload: Vec<u8>) -> (r: Result<()>)
    requires
        ty is Normal,
    ensures
        r is Ok <==> spec_box_fits(payload@),
        r is Ok ==> final(out)@ == old(out)@ + spec_box_bytes(ty.spec_bytes(), payload@),
        r matches Err(e) ==> e.kind == ErrorKind::InvalidInput && final(out)@ == old(out)@,
{
    put_box(out, ty, payload.as_slice())
}

impl BoxHeader {
    /// Splits the box at the start of `buf` into its header and its payload.
    ///
    /// A box whose size is zero extends to the end of `buf`.
    pub fn decode_header_and_payload(buf: &[u8]) -> (r: Result<(BoxHeader, &[u8])>)
        ensures
            r is Ok <==> spec_can_split(buf@),
            r matches Ok((h, p)) ==> {
                &&& BoxHeader::spec_decoded(buf@, h)
                &&& p@ == spec_payload(buf@)
                &&& h.spec_external_size() == BoxHeader::spec_decoded_len(buf@)
                &&& h.spec_external_size() + p@.len() == spec_box_end(buf@)
            },
    {
        let (header, header_size) = BoxHeader::decode(buf)?;
        proof {
            assert(header.spec_external_size() == header_size) by {
                if BoxHeader::spec_has_uuid(buf@) {
                } else {
                }
            }
        }
        let size = header.box_size.get();
        let end: usize = if size == 0 {
            buf.len()
        } else {
            if size > buf.len() as u64 {
                return Err(Error::insufficient_buffer().with_box_type(header.box_type));
            }
            size as usize
        };
        let payload = vstd::slice::slice_subrange(buf, header_size, end);
        Ok((header, payload))
    }

    /// Splits the box at the start of `buf`, and checks that it has the ordinary type `ty`.
    pub(crate) fn decode_typed(buf: &[u8], ty: BoxType) -> (r: Result<(BoxHeader, &[u8])>)
        requires
            ty is Normal,
        ensures
            r is Ok <==> spec_can_split(buf@) && spec_is_type(buf@, ty.spec_bytes()),
            r matches Ok((h, p)) ==> {
                &&& p@ == spec_payload(buf@)
                &&& h.spec_external_size() + p@.len() == spec_box_end(buf@)
                &&& h.spec_external_size() == BoxHeader::spec_decoded_len(buf@)
            },
    {
        let (header, payload) = Self::decode_header_and_payload(buf)?;
        proof {
            if BoxHeader::spec_has_uuid(buf@) {
                assert(!header.box_type.spec_same(ty));
            } else {
                assert(header.box_type.spec_same(ty) == (buf@.subrange(4, 8) == ty.spec_bytes()));
            }
        }
        match header.box_type.expect(ty) {
            Ok(()) => Ok((header, payload)),
            Err(e) => Err(e.with_box_type(ty)),
        }
    }
}

/// Returns the box, or an [`ErrorKind::InvalidData`] error when a mandatory child box is missing.
pub(crate) fn check_mandatory_box<T>(maybe_box: Option<T>, expected: &str, parent: &str) -> (r:
    Result<T>)
    ensures
        r is Ok <==> maybe_box is Some,
        r matches Ok(b) ==> maybe_box == Some(b),
        r matches Err(e) ==> e.kind == ErrorKind::InvalidData,
{
    match maybe_box {
        Some(b) => Ok(b),
        None => Err(Error::invalid_data("Missing mandatory box")),
    }
}

/// Records `ty` as the box of an error that has no box recorded yet.
pub(crate) fn with_box_type<T>(ty: BoxType, r: Result<T>) -> (out: Result<T>)
    ensures
        out is Ok <==> r is Ok,
        r matches Ok(v) ==> out == Ok::<T, Error>(v),
        out matches Err(e) ==> r matches Err(e0) && e.kind == e0.kind,
{
    match r {
        Ok(v) => Ok(v),
        Err(e) => Err(e.with_box_type(ty)),
    }
}

// ---------------------------------------------------------------------------
// Fixed-width tables
// ---------------------------------------------------------------------------

/// The concatenation of `items`, in order.
pub open spec fn concat(items: Seq<Seq<u8>>) -> Seq<u8>
    decreases items.len(),
{
    if items.len() == 0 {
        Seq::empty()
    } else {
        concat(items.drop_last()) + items.last()
    }
}

/// Appending an item appends its bytes.
pub proof fn lemma_concat_push(items: Seq<Seq<u8>>, x: Seq<u8>)
    ensures
        concat(items.push(x)) == concat(items) + x,
{
    assert(items.push(x).drop_last() =~= items);
}

/// When every item has `k` bytes, item `i` sits at bytes `k * i .. k * i + k`.
pub proof fn lemma_concat_fixed(items: Seq<Seq<u8>>, k: int)
    requires
        k >= 0,
        forall|j: int| 0 <= j < items.len() ==> (#[trigger] items[j]).len() == k,
    ensures
        concat(items).len() == k * items.len(),
        forall|i: int|
            0 <= i < items.len() ==> concat(items).subrange(k * i, k * i + k) == #[trigger] items[i],
    decreases items.len(),
{
    if items.len() > 0 {
        let init = items.drop_last();
        lemma_concat_fixed(init, k);
        let n = init.len();
        assert(k * (n + 1) == k * n + k) by (nonlinear_arith);
        assert forall|i: int| 0 <= i < items.len() implies concat(items).subrange(k * i, k * i + k)
            == #[trigger] items[i] by {
            if i < n {
                assert(k * i + k <= k * n) by (nonlinear_arith)
                    requires
                        i < n,
                        k >= 0,
                ;
                assert(0 <= k * i) by (nonlinear_arith)
                    requires
                        i >= 0,
                        k >= 0,
                ;
                assert(init[i] == items[i]);
                assert(concat(items).subrange(k * i, k * i + k) =~= concat(init).subrange(
                    k * i,
                    k * i + k,
                ));
            } else {
                assert(concat(items).subrange(k * i, k * i + k) =~= items.last());
            }
        }
    }
}

// ---------------------------------------------------------------------------
// Boxes whose payload is kept as bytes
// ---------------------------------------------------------------------------

/// A box whose payload is not interpreted: the payload is kept as bytes.
#[derive(Debug, Clone)]
pub struct UnknownBox {
    /// The type of the box.
    pub box_type: BoxType,
    /// The size of the box.
    pub box_size: BoxSize,
    /// The payload.
    pub payload: Vec<u8>,
}

impl Encode for UnknownBox {
    open spec fn spec_encodable(&self) -> bool {
        true
    }

    open spec fn spec_encoding(&self) -> Seq<u8> {
        BoxHeader::new_spec(self.box_type, self.box_size).spec_encoding() + self.payload@
    }

    fn encode_into(&self, out: &mut Vec<u8>) -> (r: Result<()>) {
        let ghost start = out@;
        let header = BoxHeader::new(self.box_type, self.box_size);
        let _ = header.encode_into(out);
        put_bytes(out, self.payload.as_slice());
        assert(out@ =~= start + self.spec_encoding());
        Ok(())
    }
}

impl Decode for UnknownBox {
    open spec fn spec_can_decode(s: Seq<u8>) -> bool {
        spec_can_split(s)
    }

    open spec fn spec_decoded_len(s: Seq<u8>) -> int {
        spec_box_end(s)
    }

    open spec fn spec_decoded(s: Seq<u8>, v: Self) -> bool {
        &&& BoxHeader::spec_decoded(s, BoxHeader::new_spec(v.box_type, v.box_size))
        &&& v.payload@ == spec_payload(s)
    }

    fn decode(buf: &[u8]) -> (r: Result<(Self, usize)>) {
        let r = BoxHeader::decode_header_and_payload(buf);
        let (header, payload) = match r {
            Ok(hp) => hp,
            Err(e) => return Err(e),
        };
        let total = buf.len();
        assert(header.spec_external_size() + payload@.len() <= total);
        let n = header.external_size() + payload.len();
        let mut bytes: Vec<u8> = Vec::new();
        put_bytes(&mut bytes, payload);
        Ok((Self { box_type: header.box_type, box_size: header.box_size, payload: bytes }, n))
    }
}

impl BaseBox for UnknownBox {
    open spec fn spec_box_type(&self) -> BoxType {
        self.box_type
    }

    fn box_type(&self) -> (r: BoxType) {
        self.box_type
    }

    fn is_unknown_box(&self) -> (r: bool) {
        true
    }
}


/// The ordinary box type with the given four bytes.
pub open spec fn fourcc(a: u8, b: u8, c: u8, d: u8) -> BoxType {
    BoxType::Normal([a, b, c, d])
}

/// The ordinary box types are not the `uuid` tag, so a box of such a type reads back with it.
pub proof fn lemma_fourcc(a: u8, b: u8, c: u8, d: u8)
    requires
        a != 0x75 || b != 0x75 || c != 0x69 || d != 0x64,
    ensures
        fourcc(a, b, c, d).spec_bytes() == seq![a, b, c, d],
        fourcc(a, b, c, d).spec_bytes() != uuid_tag(),
        fourcc(a, b, c, d).spec_bytes().len() == 4,
{
    let t = fourcc(a, b, c, d).spec_bytes();
    assert(t =~= seq![a, b, c, d]);
    if t == uuid_tag() {
        assert(t[0] == uuid_tag()[0] && t[1] == uuid_tag()[1] && t[2] == uuid_tag()[2] && t[3]
            == uuid_tag()[3]);
    }
}

/// A brand in a [`FtypBox`]: the requirements for reading a file (the boxes that may appear
/// in it, the flags to handle, and so on).
#[derive(Debug, Clone, Copy, Hash)]
pub struct Brand([u8; 4]);

impl Brand {
    /// The four bytes of the brand.
    pub closed spec fn spec_bytes(self) -> Seq<u8> {
        self.0@
    }

    /// A brand has four bytes.
    pub proof fn lemma_len(self)
        ensures
            self.spec_bytes().len() == 4,
    {
    }

    /// Creates a brand from its four bytes.
    pub fn new(brand: [u8; 4]) -> (r: Self)
        ensures
            r.spec_bytes() == brand@,
    {
        Self(brand)
    }

    /// Returns the four bytes of the brand.
    pub fn get(self) -> (r: [u8; 4])
        ensures
            r@ == self.spec_bytes(),
    {
        self.0
    }

    /// The `isom` brand (ISO/IEC 14496-12).
    #[allow(non_snake_case)]
    pub fn ISOM() -> (r: Self)
        ensures
            r.spec_bytes() == seq![0x69u8, 0x73u8, 0x6fu8, 0x6du8],
    {
        Self([0x69, 0x73, 0x6f, 0x6d])
    }

    /// The `avc1` brand (ISO/IEC 14496-12).
    #[allow(non_snake_case)]
    pub fn AVC1() -> (r: Self)
        ensures
            r.spec_bytes() == seq![0x61u8, 0x76u8, 0x63u8, 0x31u8],
    {
        Self([0x61, 0x76, 0x63, 0x31])
    }

    /// The `iso2` brand (ISO/IEC 14496-12).
    #[allow(non_snake_case)]
    pub fn ISO2() -> (r: Self)
        ensures
            r.spec_bytes() == seq![0x69u8, 0x73u8, 0x6fu8, 0x32u8],
    {
        Self([0x69, 0x73, 0x6f, 0x32])
    }

    /// The `mp71` brand (ISO/IEC 14496-12).
    #[allow(non_snake_case)]
    pub fn MP71() -> (r: Self)
        ensures
            r.spec_bytes() == seq![0x6du8, 0x70u8, 0x37u8, 0x31u8],
    {
        Self([0x6d, 0x70, 0x37, 0x31])
    }

    /// The `iso3` brand (ISO/IEC 14496-12).
    #[allow(non_snake_case)]
    pub fn ISO3() -> (r: Self)
        ensures
            r.spec_bytes() == seq![0x69u8, 0x73u8, 0x6fu8, 0x33u8],
    {
        Self([0x69, 0x73, 0x6f, 0x33])
    }

    /// The `iso4` brand (ISO/IEC 14496-12).
    #[allow(non_snake_case)]
    pub fn ISO4() -> (r: Self)
        ensures
            r.spec_bytes() == seq![0x69u8, 0x73u8, 0x6fu8, 0x34u8],
    {
        Self([0x69, 0x73, 0x6f, 0x34])
    }

    /// The `iso5` brand (ISO/IEC 14496-12).
    #[allow(non_snake_case)]
    pub fn ISO5() -> (r: Self)
        ensures
            r.spec_bytes() == seq![0x69u8, 0x73u8, 0x6fu8, 0x35u8],
    {
        Self([0x69, 0x73, 0x6f, 0x35])
    }

    /// The `iso6` brand (ISO/IEC 14496-12).
    #[allow(non_snake_case)]
    pub fn ISO6() -> (r: Self)
        ensures
            r.spec_bytes() == seq![0x69u8, 0x73u8, 0x6fu8, 0x36u8],
    {
        Self([0x69, 0x73, 0x6f, 0x36])
    }

    /// The `iso7` brand (ISO/IEC 14496-12).
    #[allow(non_snake_case)]
    pub fn ISO7() -> (r: Self)
        ensures
            r.spec_bytes() == seq![0x69u8, 0x73u8, 0x6fu8, 0x37u8],
    {
        Self([0x69, 0x73, 0x6f, 0x37])
    }

    /// The `iso8` brand (ISO/IEC 14496-12).
    #[allow(non_snake_case)]
    pub fn ISO8() -> (r: Self)
        ensures
            r.spec_bytes() == seq![0x69u8, 0x73u8, 0x6fu8, 0x38u8],
    {
        Self([0x69, 0x73, 0x6f, 0x38])
    }

    /// The `iso9` brand (ISO/IEC 14496-12).
    #[allow(non_snake_case)]
    pub fn ISO9() -> (r: Self)
        ensures
            r.spec_bytes() == seq![0x69u8, 0x73u8, 0x6fu8, 0x39u8],
    {
        Self([0x69, 0x73, 0x6f, 0x39])
    }

    /// The `isoa` brand (ISO/IEC 14496-12).
    #[allow(non_snake_case)]
    pub fn ISOA() -> (r: Self)
        ensures
            r.spec_bytes() == seq![0x69u8, 0x73u8, 0x6fu8, 0x61u8],
    {
        Self([0x69, 0x73, 0x6f, 0x61])
    }

    /// The `isob` brand (ISO/IEC 14496-12).
    #[allow(non_snake_case)]
    pub fn ISOB() -> (r: Self)
        ensures
            r.spec_bytes() == seq![0x69u8, 0x73u8, 0x6fu8, 0x62u8],
    {
        Self([0x69, 0x73, 0x6f, 0x62])
    }

    /// The `relo` brand (ISO/IEC 14496-12).
    #[allow(non_snake_case)]
    pub fn RELO() -> (r: Self)
        ensures
            r.spec_bytes() == seq![0x72u8, 0x65u8, 0x6cu8, 0x6fu8],
    {
        Self([0x72, 0x65, 0x6c, 0x6f])
    }

    /// The `mp41` brand (ISO/IEC 14496-14).
    #[allow(non_snake_case)]
    pub fn MP41() -> (r: Self)
        ensures
            r.spec_bytes() == seq![0x6du8, 0x70u8, 0x34u8, 0x31u8],
    {
        Self([0x6d, 0x70, 0x34, 0x31])
    }

    /// The `av01` brand (AV1 in ISOBMFF).
    #[allow(non_snake_case)]
    pub fn AV01() -> (r: Self)
        ensures
            r.spec_bytes() == seq![0x61u8, 0x76u8, 0x30u8, 0x31u8],
    {
        Self([0x61, 0x76, 0x30, 0x31])
    }
}

impl PartialEq for Brand {
    fn eq(&self, other: &Self) -> (r: bool) {
        bytes_eq(self.0.as_slice(), other.0.as_slice())
    }
}

impl PartialEqSpecImpl for Brand {
    open spec fn obeys_eq_spec() -> bool {
        true
    }

    open spec fn eq_spec(&self, other: &Self) -> bool {
        self.spec_bytes() == other.spec_bytes()
    }
}

impl Eq for Brand {

}

impl Encode for Brand {
    open spec fn spec_encodable(&self) -> bool {
        true
    }

    open spec fn spec_encoding(&self) -> Seq<u8> {
        self.spec_bytes()
    }

    fn encode_into(&self, out: &mut Vec<u8>) -> (r: Result<()>) {
        put_bytes(out, self.0.as_slice());
        Ok(())
    }
}

impl Decode for Brand {
    open spec fn spec_can_decode(s: Seq<u8>) -> bool {
        s.len() >= 4
    }

    open spec fn spec_decoded_len(s: Seq<u8>) -> int {
        4
    }

    open spec fn spec_decoded(s: Seq<u8>, v: Self) -> bool {
        v.spec_bytes() == s.subrange(0, 4)
    }

    fn decode(buf: &[u8]) -> (r: Result<(Self, usize)>) {
        if buf.len() < 4 {
            return Err(Error::insufficient_buffer());
        }
        let b = [buf[0], buf[1], buf[2], buf[3]];
        assert(b@ =~= buf@.subrange(0, 4));
        Ok((Self(b), 4))
    }
}

/// The brands of a brand list, four bytes each.
pub open spec fn brands_bytes(brands: Seq<Brand>) -> Seq<u8> {
    concat(brands.map_values(|b: Brand| b.spec_bytes()))
}

/// The file type box (`ftyp`, ISO/IEC 14496-12 FileTypeBox).
#[derive(Debug, Clone)]
#[allow(missing_docs)]
pub struct FtypBox {
    pub major_brand: Brand,
    pub minor_version: u32,
    pub compatible_brands: Vec<Brand>,
}

impl FtypBox {
    /// The type of the box.
    pub open spec fn spec_type() -> BoxType {
        fourcc(0x66, 0x74, 0x79, 0x70)
    }

    /// The type of the box: `ftyp`.
    #[allow(non_snake_case)]
    pub fn TYPE() -> (r: BoxType)
        ensures
            r == Self::spec_type(),
    {
        BoxType::Normal([0x66, 0x74, 0x79, 0x70])
    }

    /// The payload bytes of the box.
    pub open spec fn spec_payload_bytes(&self) -> Seq<u8> {
        self.major_brand.spec_bytes() + be_u32(self.minor_version) + brands_bytes(
            self.compatible_brands@,
        )
    }

    /// Whether `p` is the payload of an `ftyp` box: two fields and whole brands.
    pub open spec fn spec_payload_ok(p: Seq<u8>) -> bool {
        p.len() >= 8 && (p.len() - 8) % 4 == 0
    }

    /// Whether `v` is the box read from the payload `p`.
    pub open spec fn spec_payload_decoded(p: Seq<u8>, v: Self) -> bool {
        &&& v.major_brand.spec_bytes() == p.subrange(0, 4)
        &&& v.minor_version == get_u32(p, 4)
        &&& v.compatible_brands@.len() == (p.len() - 8) / 4
        &&& forall|i: int|
            0 <= i < v.compatible_brands@.len() ==> (#[trigger] v.compatible_brands@[i]).spec_bytes()
                == p.subrange(8 + 4 * i, 12 + 4 * i)
    }
}

impl Encode for FtypBox {
    open spec fn spec_encodable(&self) -> bool {
        spec_box_fits(self.spec_payload_bytes())
    }

    open spec fn spec_encoding(&self) -> Seq<u8> {
        spec_box_bytes(Self::spec_type().spec_bytes(), self.spec_payload_bytes())
    }

    fn encode_into(&self, out: &mut Vec<u8>) -> (r: Result<()>) {
        let mut p: Vec<u8> = Vec::new();
        put_bytes(&mut p, self.major_brand.0.as_slice());
        put_u32(&mut p, self.minor_version);
        let ghost head = p@;
        let mut i: usize = 0;
        while i < self.compatible_brands.len()
            invariant
                i <= self.compatible_brands@.len(),
                p@ == head + brands_bytes(self.compatible_brands@.subrange(0, i as int)),
            decreases self.compatible_brands@.len() - i,
        {
            let b = self.compatible_brands[i];
            put_bytes(&mut p, b.0.as_slice());
            proof {
                let f = |b: Brand| b.spec_bytes();
                let prev = self.compatible_brands@.subrange(0, i as int);
                assert(self.compatible_brands@.subrange(0, i + 1) =~= prev.push(b));
                assert(prev.push(b).map_values(f) =~= prev.map_values(f).push(b.spec_bytes()));
                lemma_concat_push(prev.map_values(f), b.spec_bytes());
            }
            i += 1;
        }
        assert(self.compatible_brands@.subrange(0, i as int) =~= self.compatible_brands@);
        assert(p@ =~= self.spec_payload_bytes());
        finish_box(out, Self::TYPE(), p)
    }
}

impl Decode for FtypBox {
    open spec fn spec_can_decode(s: Seq<u8>) -> bool {
        &&& spec_can_split(s)
        &&& spec_is_type(s, Self::spec_type().spec_bytes())
        &&& Self::spec_payload_ok(spec_payload(s))
    }

    open spec fn spec_decoded_len(s: Seq<u8>) -> int {
        spec_box_end(s)
    }

    open spec fn spec_decoded(s: Seq<u8>, v: Self) -> bool {
        Self::spec_payload_decoded(spec_payload(s), v)
    }

    fn decode(buf: &[u8]) -> (r: Result<(Self, usize)>) {
        let (header, payload) = BoxHeader::decode_typed(buf, Self::TYPE())?;
        let total = buf.len();
        let mut offset: usize = 0;
        if payload.len() < 8 {
            return Err(Error::insufficient_buffer().with_box_type(Self::TYPE()));
        }
        let major = get_bytes_at(payload, &mut offset, 4)?;
        let major_brand = Brand([major[0], major[1], major[2], major[3]]);
        assert(major_brand.spec_bytes() =~= payload@.subrange(0, 4));
        let minor_version = get_u32_at(payload, &mut offset)?;
        let mut compatible_brands: Vec<Brand> = Vec::new();
        while offset < payload.len()
            invariant
                8 <= offset <= payload@.len(),
                payload@ == spec_payload(buf@),
                (offset - 8) % 4 == 0,
                compatible_brands@.len() == (offset - 8) / 4,
                forall|i: int|
                    0 <= i < compatible_brands@.len() ==> (#[trigger] compatible_brands@[i]).spec_bytes()
                        == payload@.subrange(8 + 4 * i, 12 + 4 * i),
            decreases payload@.len() - offset,
        {
            if payload.len() - offset < 4 {
                return Err(Error::insufficient_buffer().with_box_type(Self::TYPE()));
            }
            let o = offset;
            let b = Brand([payload[o], payload[o + 1], payload[o + 2], payload[o + 3]]);
            assert(b.spec_bytes() =~= payload@.subrange(o as int, o + 4));
            compatible_brands.push(b);
            offset = o + 4;
        }
        let n = header.external_size() + payload.len();
        assert(header.spec_external_size() + payload@.len() <= total);
        Ok((Self { major_brand, minor_version, compatible_brands }, n))
    }
}

impl BaseBox for FtypBox {
    open spec fn spec_box_type(&self) -> BoxType {
        Self::spec_type()
    }

    fn box_type(&self) -> (r: BoxType) {
        Self::TYPE()
    }
}

/// A box whose payload is a byte string kept as is: the free space box (`free`) or the media
/// data box (`mdat`).
pub open spec fn spec_raw_box_bytes(ty: BoxType, payload: Seq<u8>) -> Seq<u8> {
    BoxHeader::new_spec(ty, BoxSize::spec_with_payload_size(ty, payload.len() as u64)).spec_encoding()
        + payload
}

/// Appends a box whose header size is chosen by [`BoxSize::with_payload_size`].
fn put_raw_box(out: &mut Vec<u8>, ty: BoxType, payload: &[u8]) -> (r: Result<()>)
    ensures
        r is Ok <==> payload@.len() <= u64::MAX - 32,
        r is Ok ==> final(out)@ == old(out)@ + spec_raw_box_bytes(ty, payload@),
        r matches Err(e) ==> e.kind == ErrorKind::InvalidInput,
{
    if payload.len() as u64 > u64::MAX - 32 {
        return Err(Error::invalid_input("Too large payload"));
    }
    let ghost start = out@;
    let size = BoxSize::with_payload_size(ty, payload.len() as u64);
    let _ = BoxHeader::new(ty, size).encode_into(out);
    put_bytes(out, payload);
    assert(out@ =~= start + spec_raw_box_bytes(ty, payload@));
    Ok(())
}

/// Reads a box of the ordinary type `ty`, keeping its payload as bytes.
fn decode_raw_box(buf: &[u8], ty: BoxType) -> (r: Result<(Vec<u8>, usize)>)
    requires
        ty is Normal,
    ensures
        r is Ok <==> spec_can_split(buf@) && spec_is_type(buf@, ty.spec_bytes()),
        r matches Ok((p, n)) ==> p@ == spec_payload(buf@) && n == spec_box_end(buf@),
{
    let (header, payload) = BoxHeader::decode_typed(buf, ty)?;
    let total = buf.len();
    assert(header.spec_external_size() + payload@.len() <= total);
    let n = header.external_size() + payload.len();
    let mut bytes: Vec<u8> = Vec::new();
    put_bytes(&mut bytes, payload);
    Ok((bytes, n))
}

/// The free space box (`free`, ISO/IEC 14496-12 FreeSpaceBox).
#[derive(Debug, Clone)]
#[allow(missing_docs)]
pub struct FreeBox {
    pub payload: Vec<u8>,
}

impl FreeBox {
    /// The type of the box.
    pub open spec fn spec_type() -> BoxType {
        fourcc(0x66, 0x72, 0x65, 0x65)
    }

    /// The type of the box: `free`.
    #[allow(non_snake_case)]
    pub fn TYPE() -> (r: BoxType)
        ensures
            r == Self::spec_type(),
    {
        BoxType::Normal([0x66, 0x72, 0x65, 0x65])
    }
}

impl Encode for FreeBox {
    open spec fn spec_encodable(&self) -> bool {
        self.payload@.len() <= u64::MAX - 32
    }

    open spec fn spec_encoding(&self) -> Seq<u8> {
        spec_raw_box_bytes(Self::spec_type(), self.payload@)
    }

    fn encode_into(&self, out: &mut Vec<u8>) -> (r: Result<()>) {
        put_raw_box(out, Self::TYPE(), self.payload.as_slice())
    }
}

impl Decode for FreeBox {
    open spec fn spec_can_decode(s: Seq<u8>) -> bool {
        spec_can_split(s) && spec_is_type(s, Self::spec_type().spec_bytes())
    }

    open spec fn spec_decoded_len(s: Seq<u8>) -> int {
        spec_box_end(s)
    }

    open spec fn spec_decoded(s: Seq<u8>, v: Self) -> bool {
        v.payload@ == spec_payload(s)
    }

    fn decode(buf: &[u8]) -> (r: Result<(Self, usize)>) {
        let (payload, n) = decode_raw_box(buf, Self::TYPE())?;
        Ok((Self { payload }, n))
    }
}

impl BaseBox for FreeBox {
    open spec fn spec_box_type(&self) -> BoxType {
        Self::spec_type()
    }

    fn box_type(&self) -> (r: BoxType) {
        Self::TYPE()
    }
}

/// The media data box (`mdat`, ISO/IEC 14496-12 MediaDataBox).
///
/// A payload of a length not known in advance is written with a [`BoxHeader`] instead.
#[derive(Debug, Clone)]
pub struct MdatBox {
    /// The payload.
    pub payload: Vec<u8>,
}

impl MdatBox {
    /// The type of the box.
    pub open spec fn spec_type() -> BoxType {
        fourcc(0x6d, 0x64, 0x61, 0x74)
    }

    /// The type of the box: `mdat`.
    #[allow(non_snake_case)]
    pub fn TYPE() -> (r: BoxType)
        ensures
            r == Self::spec_type(),
    {
        BoxType::Normal([0x6d, 0x64, 0x61, 0x74])
    }
}

impl Encode for MdatBox {
    open spec fn spec_encodable(&self) -> bool {
        self.payload@.len() <= u64::MAX - 32
    }

    open spec fn spec_encoding(&self) -> Seq<u8> {
        spec_raw_box_bytes(Self::spec_type(), self.payload@)
    }

    fn encode_into(&self, out: &mut Vec<u8>) -> (r: Result<()>) {
        put_raw_box(out, Self::TYPE(), self.payload.as_slice())
    }
}

impl Decode for MdatBox {
    open spec fn spec_can_decode(s: Seq<u8>) -> bool {
        spec_can_split(s) && spec_is_type(s, Self::spec_type().spec_bytes())
    }

    open spec fn spec_decoded_len(s: Seq<u8>) -> int {
        spec_box_end(s)
    }

    open spec fn spec_decoded(s: Seq<u8>, v: Self) -> bool {
        v.payload@ == spec_payload(s)
    }

    fn decode(buf: &[u8]) -> (r: Result<(Self, usize)>) {
        let (payload, n) = decode_raw_box(buf, Self::TYPE())?;
        Ok((Self { payload }, n))
    }
}

impl BaseBox for MdatBox {
    open spec fn spec_box_type(&self) -> BoxType {
        Self::spec_type()
    }

    fn box_type(&self) -> (r: BoxType) {
        Self::TYPE()
    }
}


// ---------------------------------------------------------------------------
// Payload helpers of full boxes and tables
// ---------------------------------------------------------------------------

/// The version and flags that start the payload of a full box.
pub open spec fn full_header_bytes(version: u8, flags: u32) -> Seq<u8> {
    seq![version] + be_u32(flags).skip(1)
}

/// Appends the version and flags of a full box.
pub(crate) fn put_full_header(p: &mut Vec<u8>, version: u8, flags: u32)
    ensures
        final(p)@ == old(p)@ + full_header_bytes(version, flags),
{
    let ghost start = p@;
    put_u8(p, version);
    let _ = FullBoxFlags::new(flags).encode_into(p);
    assert(p@ =~= start + full_header_bytes(version, flags));
}

/// The bytes of a list of 32-bit values.
pub open spec fn u32s_bytes(s: Seq<u32>) -> Seq<u8> {
    concat(s.map_values(|x: u32| be_u32(x)))
}

/// The bytes of a list of 64-bit values.
pub open spec fn u64s_bytes(s: Seq<u64>) -> Seq<u8> {
    concat(s.map_values(|x: u64| be_u64(x)))
}

/// Appends a list of 32-bit values.
pub(crate) fn put_u32s(p: &mut Vec<u8>, s: &[u32])
    ensures
        final(p)@ == old(p)@ + u32s_bytes(s@),
{
    let ghost start = p@;
    let mut i: usize = 0;
    while i < s.len()
        invariant
            i <= s@.len(),
            p@ == start + u32s_bytes(s@.subrange(0, i as int)),
        decreases s@.len() - i,
    {
        put_u32(p, s[i]);
        proof {
            let f = |x: u32| be_u32(x);
            let prev = s@.subrange(0, i as int);
            assert(s@.subrange(0, i + 1) =~= prev.push(s@[i as int]));
            assert(prev.push(s@[i as int]).map_values(f) =~= prev.map_values(f).push(be_u32(s@[i as int])));
            lemma_concat_push(prev.map_values(f), be_u32(s@[i as int]));
        }
        i += 1;
    }
    assert(s@.subrange(0, i as int) =~= s@);
}

/// Appends a list of 64-bit values.
pub(crate) fn put_u64s(p: &mut Vec<u8>, s: &[u64])
    ensures
        final(p)@ == old(p)@ + u64s_bytes(s@),
{
    let ghost start = p@;
    let mut i: usize = 0;
    while i < s.len()
        invariant
            i <= s@.len(),
            p@ == start + u64s_bytes(s@.subrange(0, i as int)),
        decreases s@.len() - i,
    {
        put_u64(p, s[i]);
        proof {
            let f = |x: u64| be_u64(x);
            let prev = s@.subrange(0, i as int);
            assert(s@.subrange(0, i + 1) =~= prev.push(s@[i as int]));
            assert(prev.push(s@[i as int]).map_values(f) =~= prev.map_values(f).push(be_u64(s@[i as int])));
            lemma_concat_push(prev.map_values(f), be_u64(s@[i as int]));
        }
        i += 1;
    }
    assert(s@.subrange(0, i as int) =~= s@);
}

/// Reads `n` 32-bit values at the offset.
pub(crate) fn get_u32s_at(buf: &[u8], offset: &mut usize, n: u32) -> (r: Result<Vec<u32>>)
    requires
        *old(offset) <= buf@.len(),
    ensures
        r is Ok <==> *old(offset) + 4 * n <= buf@.len(),
        r matches Ok(v) ==> {
            &&& v@.len() == n
            &&& forall|i: int| 0 <= i < n ==> #[trigger] v@[i] == get_u32(buf@, *old(offset) + 4 * i)
            &&& *final(offset) == *old(offset) + 4 * n
        },
        r matches Err(e) ==> e.kind == ErrorKind::InsufficientBuffer,
{
    let ghost o = *offset;
    let mut v: Vec<u32> = Vec::new();
    let mut i: u32 = 0;
    while i < n
        invariant
            i <= n,
            o == *old(offset),
            o + 4 * i <= buf@.len(),
            *offset == o + 4 * i,
            v@.len() == i,
            forall|k: int| 0 <= k < i ==> #[trigger] v@[k] == get_u32(buf@, o + 4 * k),
        decreases n - i,
    {
        let x = match get_u32_at(buf, offset) {
            Ok(x) => x,
            Err(e) => {
                assert(o + 4 * n > buf@.len());
                return Err(e);
            },
        };
        v.push(x);
        i += 1;
    }
    Ok(v)
}

/// Reads `n` 64-bit values at the offset.
pub(crate) fn get_u64s_at(buf: &[u8], offset: &mut usize, n: u32) -> (r: Result<Vec<u64>>)
    requires
        *old(offset) <= buf@.len(),
    ensures
        r is Ok <==> *old(offset) + 8 * n <= buf@.len(),
        r matches Ok(v) ==> {
            &&& v@.len() == n
            &&& forall|i: int| 0 <= i < n ==> #[trigger] v@[i] == get_u64(buf@, *old(offset) + 8 * i)
            &&& *final(offset) == *old(offset) + 8 * n
        },
        r matches Err(e) ==> e.kind == ErrorKind::InsufficientBuffer,
{
    let ghost o = *offset;
    let mut v: Vec<u64> = Vec::new();
    let mut i: u32 = 0;
    while i < n
        invariant
            i <= n,
            o == *old(offset),
            o + 8 * i <= buf@.len(),
            *offset == o + 8 * i,
            v@.len() == i,
            forall|k: int| 0 <= k < i ==> #[trigger] v@[k] == get_u64(buf@, o + 8 * k),
        decreases n - i,
    {
        let x = match get_u64_at(buf, offset) {
            Ok(x) => x,
            Err(e) => {
                assert(o + 8 * n > buf@.len());
                return Err(e);
            },
        };
        v.push(x);
        i += 1;
    }
    Ok(v)
}

/// The values of a list of 32-bit values read back from its bytes.
pub proof fn lemma_u32s_read(s: Seq<u32>, p: Seq<u8>, off: int)
    requires
        0 <= off,
        off + 4 * s.len() <= p.len(),
        p.subrange(off, off + 4 * s.len()) == u32s_bytes(s),
    ensures
        forall|i: int| 0 <= i < s.len() ==> get_u32(p, off + 4 * i) == #[trigger] s[i],
{
    let items = s.map_values(|x: u32| be_u32(x));
    assert forall|j: int| 0 <= j < items.len() implies (#[trigger] items[j]).len() == 4 by {
        lemma_be_u32(s[j]);
    }
    lemma_concat_fixed(items, 4);
    assert forall|i: int| 0 <= i < s.len() implies get_u32(p, off + 4 * i) == #[trigger] s[i] by {
        lemma_be_u32(s[i]);
        assert(items[i] == be_u32(s[i]));
        assert(p.subrange(off + 4 * i, off + 4 * i + 4) =~= u32s_bytes(s).subrange(4 * i, 4 * i + 4));
    }
}

/// The values of a list of 64-bit values read back from its bytes.
pub proof fn lemma_u64s_read(s: Seq<u64>, p: Seq<u8>, off: int)
    requires
        0 <= off,
        off + 8 * s.len() <= p.len(),
        p.subrange(off, off + 8 * s.len()) == u64s_bytes(s),
    ensures
        forall|i: int| 0 <= i < s.len() ==> get_u64(p, off + 8 * i) == #[trigger] s[i],
{
    let items = s.map_values(|x: u64| be_u64(x));
    assert forall|j: int| 0 <= j < items.len() implies (#[trigger] items[j]).len() == 8 by {
        lemma_be_u64(s[j]);
    }
    lemma_concat_fixed(items, 8);
    assert forall|i: int| 0 <= i < s.len() implies get_u64(p, off + 8 * i) == #[trigger] s[i] by {
        lemma_be_u64(s[i]);
        assert(items[i] == be_u64(s[i]));
        assert(p.subrange(off + 8 * i, off + 8 * i + 8) =~= u64s_bytes(s).subrange(8 * i, 8 * i + 8));
    }
}


/// A sample entry of a [`StsdBox`](crate::boxes::StsdBox).
///
/// Entries are kept as boxes whose payload is not interpreted.
#[derive(Debug, Clone)]
#[allow(missing_docs)]
pub enum SampleEntry {
    Unknown(UnknownBox),
}

/// Whether two sample entries are the same box.
pub open spec fn same_sample_entry(a: SampleEntry, b: SampleEntry) -> bool {
    match (a, b) {
        (SampleEntry::Unknown(x), SampleEntry::Unknown(y)) => x.box_type.spec_same(y.box_type)
            && x.box_size == y.box_size && x.payload@ == y.payload@,
    }
}

impl SampleEntry {
    /// Whether `self` and `other` are the same box.
    pub fn is_same(&self, other: &SampleEntry) -> (r: bool)
        ensures
            r == same_sample_entry(*self, *other),
    {
        match (self, other) {
            (SampleEntry::Unknown(x), SampleEntry::Unknown(y)) => x.box_type.is_same(&y.box_type)
                && x.box_size == y.box_size && bytes_eq(x.payload.as_slice(), y.payload.as_slice()),
        }
    }

    /// A copy of the entry.
    pub fn duplicate(&self) -> (r: SampleEntry)
        ensures
            same_sample_entry(r, *self),
            r.spec_box_type() == self.spec_box_type(),
    {
        match self {
            SampleEntry::Unknown(b) => {
                let mut payload: Vec<u8> = Vec::new();
                put_bytes(&mut payload, b.payload.as_slice());
                assert(payload@ =~= b.payload@);
                SampleEntry::Unknown(
                    UnknownBox { box_type: b.box_type, box_size: b.box_size, payload },
                )
            },
        }
    }

    /// The width and height of the frames of a video sample entry: none for an entry whose
    /// payload is not interpreted.
    pub fn video_resolution(&self) -> (r: Option<(u16, u16)>)
        ensures
            self is Unknown ==> r is None,
    {
        match self {
            SampleEntry::Unknown(_) => None,
        }
    }
}

impl Encode for SampleEntry {
    open spec fn spec_encodable(&self) -> bool {
        match self {
            SampleEntry::Unknown(b) => b.spec_encodable(),
        }
    }

    open spec fn spec_encoding(&self) -> Seq<u8> {
        match self {
            SampleEntry::Unknown(b) => b.spec_encoding(),
        }
    }

    fn encode_into(&self, out: &mut Vec<u8>) -> (r: Result<()>) {
        match self {
            SampleEntry::Unknown(b) => b.encode_into(out),
        }
    }
}

impl Decode for SampleEntry {
    open spec fn spec_can_decode(s: Seq<u8>) -> bool {
        UnknownBox::spec_can_decode(s)
    }

    open spec fn spec_decoded_len(s: Seq<u8>) -> int {
        UnknownBox::spec_decoded_len(s)
    }

    open spec fn spec_decoded(s: Seq<u8>, v: Self) -> bool {
        match v {
            SampleEntry::Unknown(b) => UnknownBox::spec_decoded(s, b),
        }
    }

    fn decode(buf: &[u8]) -> (r: Result<(Self, usize)>) {
        let (b, n) = UnknownBox::decode(buf)?;
        Ok((SampleEntry::Unknown(b), n))
    }
}

impl BaseBox for SampleEntry {
    open spec fn spec_box_type(&self) -> BoxType {
        match self {
            SampleEntry::Unknown(b) => b.spec_box_type(),
        }
    }

    fn box_type(&self) -> (r: BoxType) {
        match self {
            SampleEntry::Unknown(b) => b.box_type(),
        }
    }

    fn is_unknown_box(&self) -> (r: bool) {
        match self {
            SampleEntry::Unknown(b) => b.is_unknown_box(),
        }
    }
}


// ---------------------------------------------------------------------------
// Runs of boxes
// ---------------------------------------------------------------------------

/// The offset of the `k`-th box of a run of boxes that starts at the start of `q`.
pub open spec fn spec_nth_box_offset(q: Seq<u8>, k: nat) -> int
    decreases k,
{
    if k == 0 {
        0
    } else {
        let o = spec_nth_box_offset(q, (k - 1) as nat);
        o + spec_box_end(q.skip(o))
    }
}

/// Whether the first `n` boxes of a run that starts at the start of `q` lie within `q`.
pub open spec fn spec_boxes_split(q: Seq<u8>, n: nat) -> bool {
    forall|k: nat|
        k < n ==> 0 <= #[trigger] spec_nth_box_offset(q, k) <= q.len() && spec_can_split(
            q.skip(spec_nth_box_offset(q, k)),
        )
}

/// Reads the header of the box at the offset and returns its type.
pub(crate) fn peek_box_type(p: &[u8], offset: usize) -> (r: Result<BoxType>)
    requires
        offset <= p@.len(),
    ensures
        r is Ok <==> BoxHeader::spec_can_decode(p@.skip(offset as int)),
        r matches Ok(t) ==> forall|u: BoxType|
            u is Normal ==> (#[trigger] t.spec_same(u) <==> spec_is_type(
                p@.skip(offset as int),
                u.spec_bytes(),
            )),
{
    let rest = vstd::slice::slice_subrange(p, offset, p.len());
    assert(rest@ =~= p@.skip(offset as int));
    let (header, _n) = BoxHeader::decode(rest)?;
    proof {
        assert forall|u: BoxType| u is Normal implies (#[trigger] header.box_type.spec_same(u)
            <==> spec_is_type(rest@, u.spec_bytes())) by {
            if BoxHeader::spec_has_uuid(rest@) {
            } else {
            }
        }
    }
    Ok(header.box_type)
}


/// Whether the run of child boxes at the start of `q` is readable by a container box.
///
/// `kind` classifies a child (a negative kind is a box kept as an [`UnknownBox`]); a child of a
/// `single` kind is read as that kind only the first time, later ones are kept as unknown
/// boxes; `ok` says whether a child of a kind can be read as that kind; `complete` says whether
/// the kinds seen by the end include all mandatory ones.
pub open spec fn spec_scan_children(
    q: Seq<u8>,
    seen: Set<int>,
    kind: spec_fn(Seq<u8>) -> int,
    single: spec_fn(int) -> bool,
    ok: spec_fn(int, Seq<u8>) -> bool,
    complete: spec_fn(Set<int>) -> bool,
) -> bool
    decreases q.len(),
{
    if q.len() == 0 {
        complete(seen)
    } else if !spec_can_split(q) || spec_box_end(q) <= 0 {
        false
    } else {
        let k = kind(q);
        let read = k >= 0 && (!single(k) || !seen.contains(k));
        &&& read ==> ok(k, q)
        &&& spec_scan_children(
            q.skip(spec_box_end(q)),
            if read {
                seen.insert(k)
            } else {
                seen
            },
            kind,
            single,
            ok,
            complete,
        )
    }
}

/// A box that spans the whole rest of `q` leaves nothing behind, and a header gives a positive
/// box length.
pub proof fn lemma_box_end_positive(q: Seq<u8>)
    requires
        q.len() > 0,
        spec_can_split(q),
    ensures
        0 < spec_box_end(q) <= q.len(),
{
}


/// The concatenated encodings of a list of values.
pub open spec fn encodings<T: Encode>(items: Seq<T>) -> Seq<u8> {
    concat(items.map_values(|x: T| x.spec_encoding()))
}

/// Whether every value of a list can be encoded.
pub open spec fn all_encodable<T: Encode>(items: Seq<T>) -> bool {
    forall|k: int| 0 <= k < items.len() ==> (#[trigger] items[k]).spec_encodable()
}

/// Appends the encodings of a list of values.
///
/// Fails with [`ErrorKind::InvalidInput`] when one of them cannot be encoded.
pub(crate) fn put_all<T: Encode>(p: &mut Vec<u8>, items: &[T]) -> (r: Result<()>)
    ensures
        r is Ok <==> all_encodable(items@),
        r is Ok ==> final(p)@ == old(p)@ + encodings(items@),
        r matches Err(e) ==> e.kind == ErrorKind::InvalidInput,
{
    let ghost start = p@;
    let mut i: usize = 0;
    while i < items.len()
        invariant
            i <= items@.len(),
            p@ == start + encodings(items@.subrange(0, i as int)),
            forall|k: int| 0 <= k < i ==> (#[trigger] items@[k]).spec_encodable(),
        decreases items@.len() - i,
    {
        let x = &items[i];
        x.encode_into(p)?;
        proof {
            let f = |x: T| x.spec_encoding();
            let prev = items@.subrange(0, i as int);
            assert(items@.subrange(0, i + 1) =~= prev.push(*x));
            assert(prev.push(*x).map_values(f) =~= prev.map_values(f).push(x.spec_encoding()));
            lemma_concat_push(prev.map_values(f), x.spec_encoding());
        }
        i += 1;
    }
    assert(items@.subrange(0, i as int) =~= items@);
    Ok(())
}


// ---------------------------------------------------------------------------
// Top-level boxes
// ---------------------------------------------------------------------------

/// The kind of a top-level box at the start of `s`: `free`, `mdat`, `moov`, `moof`, `mfra`,
/// `sidx` are 0 to 5, any other type 6.
pub open spec fn root_kind(s: Seq<u8>) -> int {
    if spec_is_type(s, FreeBox::spec_type().spec_bytes()) {
        0
    } else if spec_is_type(s, MdatBox::spec_type().spec_bytes()) {
        1
    } else if spec_is_type(s, MoovBox::spec_type().spec_bytes()) {
        2
    } else if spec_is_type(s, MoofBox::spec_type().spec_bytes()) {
        3
    } else if spec_is_type(s, MfraBox::spec_type().spec_bytes()) {
        4
    } else if spec_is_type(s, SidxBox::spec_type().spec_bytes()) {
        5
    } else {
        6
    }
}

/// The boxes that stand at the top level of a file after its `ftyp` box.
#[derive(Debug, Clone)]
#[allow(missing_docs)]
pub enum RootBox {
    Free(FreeBox),
    Mdat(MdatBox),
    Moov(MoovBox),
    Moof(MoofBox),
    Mfra(MfraBox),
    Sidx(SidxBox),
    Unknown(UnknownBox),
}

impl Encode for RootBox {
    open spec fn spec_encodable(&self) -> bool {
        match self {
            RootBox::Free(b) => b.spec_encodable(),
            RootBox::Mdat(b) => b.spec_encodable(),
            RootBox::Moov(b) => b.spec_encodable(),
            RootBox::Moof(b) => b.spec_encodable(),
            RootBox::Mfra(b) => b.spec_encodable(),
            RootBox::Sidx(b) => b.spec_encodable(),
            RootBox::Unknown(b) => b.spec_encodable(),
        }
    }

    open spec fn spec_encoding(&self) -> Seq<u8> {
        match self {
            RootBox::Free(b) => b.spec_encoding(),
            RootBox::Mdat(b) => b.spec_encoding(),
            RootBox::Moov(b) => b.spec_encoding(),
            RootBox::Moof(b) => b.spec_encoding(),
            RootBox::Mfra(b) => b.spec_encoding(),
            RootBox::Sidx(b) => b.spec_encoding(),
            RootBox::Unknown(b) => b.spec_encoding(),
        }
    }

    fn encode_into(&self, out: &mut Vec<u8>) -> (r: Result<()>) {
        match self {
            RootBox::Free(b) => b.encode_into(out),
            RootBox::Mdat(b) => b.encode_into(out),
            RootBox::Moov(b) => b.encode_into(out),
            RootBox::Moof(b) => b.encode_into(out),
            RootBox::Mfra(b) => b.encode_into(out),
            RootBox::Sidx(b) => b.encode_into(out),
            RootBox::Unknown(b) => b.encode_into(out),
        }
    }
}

impl Decode for RootBox {
    open spec fn spec_can_decode(s: Seq<u8>) -> bool {
        &&& BoxHeader::spec_can_decode(s)
        &&& if root_kind(s) == 0 {
            FreeBox::spec_can_decode(s)
        } else if root_kind(s) == 1 {
            MdatBox::spec_can_decode(s)
        } else if root_kind(s) == 2 {
            MoovBox::spec_can_decode(s)
        } else if root_kind(s) == 3 {
            MoofBox::spec_can_decode(s)
        } else if root_kind(s) == 4 {
            MfraBox::spec_can_decode(s)
        } else if root_kind(s) == 5 {
            SidxBox::spec_can_decode(s)
        } else {
            UnknownBox::spec_can_decode(s)
        }
    }

    open spec fn spec_decoded_len(s: Seq<u8>) -> int {
        spec_box_end(s)
    }

    open spec fn spec_decoded(s: Seq<u8>, v: Self) -> bool {
        match v {
            RootBox::Free(b) => root_kind(s) == 0 && FreeBox::spec_decoded(s, b),
            RootBox::Mdat(b) => root_kind(s) == 1 && MdatBox::spec_decoded(s, b),
            RootBox::Moov(b) => root_kind(s) == 2 && MoovBox::spec_decoded(s, b),
            RootBox::Moof(b) => root_kind(s) == 3 && MoofBox::spec_decoded(s, b),
            RootBox::Mfra(b) => root_kind(s) == 4 && MfraBox::spec_decoded(s, b),
            RootBox::Sidx(b) => root_kind(s) == 5 && SidxBox::spec_decoded(s, b),
            RootBox::Unknown(b) => root_kind(s) == 6 && UnknownBox::spec_decoded(s, b),
        }
    }

    fn decode(buf: &[u8]) -> (r: Result<(Self, usize)>) {
        assert(buf@.skip(0) =~= buf@);
        let ty = peek_box_type(buf, 0)?;
        if ty.is_same(&FreeBox::TYPE()) {
            let (b, n) = FreeBox::decode(buf)?;
            Ok((RootBox::Free(b), n))
        } else if ty.is_same(&MdatBox::TYPE()) {
            let (b, n) = MdatBox::decode(buf)?;
            Ok((RootBox::Mdat(b), n))
        } else if ty.is_same(&MoovBox::TYPE()) {
            let (b, n) = MoovBox::decode(buf)?;
            Ok((RootBox::Moov(b), n))
        } else if ty.is_same(&MoofBox::TYPE()) {
            let (b, n) = MoofBox::decode(buf)?;
            Ok((RootBox::Moof(b), n))
        } else if ty.is_same(&MfraBox::TYPE()) {
            let (b, n) = MfraBox::decode(buf)?;
            Ok((RootBox::Mfra(b), n))
        } else if ty.is_same(&SidxBox::TYPE()) {
            let (b, n) = SidxBox::decode(buf)?;
            Ok((RootBox::Sidx(b), n))
        } else {
            let (b, n) = UnknownBox::decode(buf)?;
            Ok((RootBox::Unknown(b), n))
        }
    }
}

impl BaseBox for RootBox {
    open spec fn spec_box_type(&self) -> BoxType {
        match self {
            RootBox::Free(b) => b.spec_box_type(),
            RootBox::Mdat(b) => b.spec_box_type(),
            RootBox::Moov(b) => b.spec_box_type(),
            RootBox::Moof(b) => b.spec_box_type(),
            RootBox::Mfra(b) => b.spec_box_type(),
            RootBox::Sidx(b) => b.spec_box_type(),
            RootBox::Unknown(b) => b.spec_box_type(),
        }
    }

    fn box_type(&self) -> (r: BoxType) {
        match self {
            RootBox::Free(b) => b.box_type(),
            RootBox::Mdat(b) => b.box_type(),
            RootBox::Moov(b) => b.box_type(),
            RootBox::Moof(b) => b.box_type(),
            RootBox::Mfra(b) => b.box_type(),
            RootBox::Sidx(b) => b.box_type(),
            RootBox::Unknown(b) => b.box_type(),
        }
    }

    fn is_unknown_box(&self) -> (r: bool) {
        match self {
            RootBox::Unknown(_) => true,
            _ => false,
        }
    }
}

/// Whether the run of top-level boxes at the start of `q` can be read to its end.
pub open spec fn root_boxes_scan(q: Seq<u8>) -> bool
    decreases q.len(),
{
    if q.len() == 0 {
        true
    } else {
        &&& RootBox::spec_can_decode(q)
        &&& 0 < spec_box_end(q) <= q.len()
        &&& root_boxes_scan(q.skip(spec_box_end(q)))
    }
}

/// A whole file: an `ftyp` box followed by the top-level boxes.
#[derive(Debug, Clone)]
pub struct Mp4File {
    /// The `ftyp` box at the start of the file.
    pub ftyp_box: FtypBox,
    /// The boxes that follow it.
    pub boxes: Vec<RootBox>,
}

impl Mp4File {
    /// The types of the top-level boxes in file order, the `ftyp` box first.
    pub fn iter(&self) -> (r: Vec<BoxType>)
        ensures
            r@.len() == self.boxes@.len() + 1,
            r@[0] == self.ftyp_box.spec_box_type(),
            forall|i: int| 0 <= i < self.boxes@.len() ==> r@[i + 1] == (#[trigger] self.boxes@[i]).spec_box_type(),
    {
        let mut r: Vec<BoxType> = Vec::new();
        r.push(self.ftyp_box.box_type());
        let mut i: usize = 0;
        while i < self.boxes.len()
            invariant
                i <= self.boxes@.len(),
                r@.len() == i + 1,
                r@[0] == self.ftyp_box.spec_box_type(),
                forall|k: int| 0 <= k < i ==> r@[k + 1] == (#[trigger] self.boxes@[k]).spec_box_type(),
            decreases self.boxes@.len() - i,
        {
            r.push(self.boxes[i].box_type());
            i += 1;
        }
        r
    }
}

impl Decode for Mp4File {
    open spec fn spec_can_decode(s: Seq<u8>) -> bool {
        &&& FtypBox::spec_can_decode(s)
        &&& root_boxes_scan(s.skip(FtypBox::spec_decoded_len(s)))
    }

    open spec fn spec_decoded_len(s: Seq<u8>) -> int {
        s.len() as int
    }

    open spec fn spec_decoded(s: Seq<u8>, v: Self) -> bool {
        let q = s.skip(FtypBox::spec_decoded_len(s));
        &&& FtypBox::spec_decoded(s, v.ftyp_box)
        &&& spec_nth_box_offset(q, v.boxes@.len()) == q.len()
        &&& forall|k: int|
            0 <= k < v.boxes@.len() ==> RootBox::spec_decoded(
                q.skip(spec_nth_box_offset(q, k as nat)),
                #[trigger] v.boxes@[k],
            )
    }

    fn decode(buf: &[u8]) -> (r: Result<(Self, usize)>) {
        let (ftyp_box, start) = FtypBox::decode(buf)?;
        let ghost q = buf@.skip(start as int);
        let mut offset: usize = start;
        let mut boxes: Vec<RootBox> = Vec::new();
        assert(q.skip(0) =~= q);
        while offset < buf.len()
            invariant
                start <= offset <= buf@.len(),
                start == FtypBox::spec_decoded_len(buf@),
                FtypBox::spec_can_decode(buf@),
                q == buf@.skip(start as int),
                offset == start + spec_nth_box_offset(q, boxes@.len()),
                root_boxes_scan(q) == root_boxes_scan(q.skip(offset - start)),
                forall|k: int|
                    0 <= k < boxes@.len() ==> RootBox::spec_decoded(
                        q.skip(spec_nth_box_offset(q, k as nat)),
                        #[trigger] boxes@[k],
                    ),
            decreases buf@.len() - offset,
        {
            let ghost o = offset;
            let ghost rest = q.skip(o - start);
            assert(buf@.skip(o as int) =~= rest);
            let b = match RootBox::decode_at(buf, &mut offset) {
                Ok(b) => b,
                Err(e) => {
                    assert(rest.len() > 0 && !RootBox::spec_can_decode(rest));
                    assert(!root_boxes_scan(rest));
                    return Err(e);
                },
            };
            proof {
                lemma_box_end_positive(rest);
                assert(spec_nth_box_offset(q, (boxes@.len() + 1) as nat) == spec_nth_box_offset(
                    q,
                    boxes@.len(),
                ) + spec_box_end(rest));
                assert(q.skip(offset - start) =~= rest.skip(spec_box_end(rest)));
            }
            boxes.push(b);
        }
        Ok((Self { ftyp_box, boxes }, buf.len()))
    }
}

} // verus!
