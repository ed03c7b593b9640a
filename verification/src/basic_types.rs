//! Basic types shared by all boxes: box types, sizes, headers and small value types.
use vstd::utf8::{encode_utf8, valid_utf8};
use vstd::string::StringSliceAdditionalSpecFns;
use crate::codec::{
    be_u32, be_u64, get_bytes_at, get_u32, get_u64, get_u32_at, get_u64_at, get_u8_at, put_bytes,
    put_u32,
    put_u64, put_u8, Decode, Encode, Error, ErrorKind, Result,
};
use vstd::arithmetic::power2::pow2;
use vstd::prelude::*;

verus! {

/// Whether two byte slices hold the same bytes.
pub(crate) fn bytes_eq(a: &[u8], b: &[u8]) -> (r: bool)
    ensures
        r == (a@ == b@),
{
    if a.len() != b.len() {
        return false;
    }
    let mut i: usize = 0;
    while i < a.len()
        invariant
            a@.len() == b@.len(),
            i <= a@.len(),
            forall|j: int| 0 <= j < i ==> a@[j] == b@[j],
        decreases a@.len() - i,
    {
        if a[i] != b[i] {
            return false;
        }
        i += 1;
    }
    assert(a@ =~= b@);
    true
}

/// The four bytes `uuid` that introduce an extended box type.
pub open spec fn uuid_tag() -> Seq<u8> {
    seq![0x75u8, 0x75u8, 0x69u8, 0x64u8]
}

/// The type of a box.
#[derive(Clone, Copy, Debug, PartialEq, Eq, Hash)]
pub enum BoxType {
    /// An ordinary box type of four bytes.
    Normal([u8; 4]),
    /// An extended box type given by a UUID.
    Uuid([u8; 16]),
}

impl BoxType {
    /// The bytes that name the type (four bytes, or the sixteen of the UUID).
    pub open spec fn spec_bytes(self) -> Seq<u8> {
        match self {
            BoxType::Normal(t) => t@,
            BoxType::Uuid(u) => u@,
        }
    }

    /// The bytes of the type field in a box header.
    pub open spec fn spec_header_bytes(self) -> Seq<u8> {
        match self {
            BoxType::Normal(t) => t@,
            BoxType::Uuid(u) => uuid_tag() + u@,
        }
    }

    /// Whether the two types are the same.
    pub open spec fn spec_same(self, other: BoxType) -> bool {
        match self {
            BoxType::Normal(a) => match other {
                BoxType::Normal(b) => a@ == b@,
                BoxType::Uuid(_) => false,
            },
            BoxType::Uuid(a) => match other {
                BoxType::Normal(_) => false,
                BoxType::Uuid(b) => a@ == b@,
            },
        }
    }

    /// The number of bytes of the type field in a box header.
    pub open spec fn spec_external_size(self) -> nat {
        match self {
            BoxType::Normal(_) => 4,
            BoxType::Uuid(_) => 20,
        }
    }

    /// Returns the bytes that name the type.
    pub fn as_bytes(&self) -> (r: &[u8])
        ensures
            r@ == self.spec_bytes(),
    {
        match self {
            BoxType::Normal(ty) => ty.as_slice(),
            BoxType::Uuid(ty) => ty.as_slice(),
        }
    }

    /// Returns the number of bytes of the type field in a box header.
    pub fn external_size(self) -> (r: usize)
        ensures
            r == self.spec_external_size(),
    {
        match self {
            BoxType::Normal(_) => 4,
            BoxType::Uuid(_) => 4 + 16,
        }
    }

    /// Whether `self` and `other` are the same type.
    pub fn is_same(&self, other: &Self) -> (r: bool)
        ensures
            r == self.spec_same(*other),
    {
        match self {
            BoxType::Normal(a) => match other {
                BoxType::Normal(b) => bytes_eq(a.as_slice(), b.as_slice()),
                BoxType::Uuid(_) => false,
            },
            BoxType::Uuid(a) => match other {
                BoxType::Normal(_) => false,
                BoxType::Uuid(b) => bytes_eq(a.as_slice(), b.as_slice()),
            },
        }
    }

    /// Checks that `self` is the `expected` type.
    pub fn expect(self, expected: Self) -> (r: Result<()>)
        ensures
            r is Ok <==> self.spec_same(expected),
            r matches Err(e) ==> e.kind == ErrorKind::InvalidData,
    {
        if self.is_same(&expected) {
            Ok(())
        } else {
            Err(Error::invalid_data("Unexpected box type"))
        }
    }

    /// Appends the type field of a box header to `out`.
    pub(crate) fn put_header_bytes(&self, out: &mut Vec<u8>)
        ensures
            final(out)@ == old(out)@ + self.spec_header_bytes(),
    {
        match self {
            BoxType::Normal(ty) => {
                put_bytes(out, ty.as_slice());
            },
            BoxType::Uuid(ty) => {
                let ghost start = out@;
                put_u8(out, 0x75);
                put_u8(out, 0x75);
                put_u8(out, 0x69);
                put_u8(out, 0x64);
                put_bytes(out, ty.as_slice());
                assert(out@ =~= start + self.spec_header_bytes());
            },
        }
    }
}



/// The size of a box.
///
/// The size covers the header and the payload. A size of zero marks a box whose payload
/// extends to the end of the file.
#[derive(Debug, Clone, Copy, PartialEq, Eq, Hash, PartialOrd, Ord, Structural)]
#[allow(missing_docs)]
pub enum BoxSize {
    U32(u32),
    U64(u64),
}

/// The largest box size that the 32-bit size field holds.
pub open spec fn max_u32() -> int {
    0xffff_ffff
}

impl BoxSize {
    /// The size of a variable-length box at the end of a file.
    #[allow(non_snake_case)]
    pub fn VARIABLE_SIZE() -> (r: BoxSize)
        ensures
            r == BoxSize::U32(0),
    {
        BoxSize::U32(0)
    }

    /// The size of a variable-length box at the end of a file, with a 64-bit size field.
    #[allow(non_snake_case)]
    pub fn LARGE_VARIABLE_SIZE() -> (r: BoxSize)
        ensures
            r == BoxSize::U64(0),
    {
        BoxSize::U64(0)
    }

    /// The size as a number.
    pub open spec fn spec_get(self) -> nat {
        match self {
            BoxSize::U32(v) => v as nat,
            BoxSize::U64(v) => v as nat,
        }
    }

    /// The number of bytes of the size fields in a box header.
    pub open spec fn spec_external_size(self) -> nat {
        match self {
            BoxSize::U32(_) => 4,
            BoxSize::U64(_) => 12,
        }
    }

    /// The size of a box of the given type and payload size: 32-bit when it fits, else 64-bit.
    pub open spec fn spec_with_payload_size(box_type: BoxType, payload_size: u64) -> BoxSize {
        let size = 4 + box_type.spec_external_size() + payload_size;
        if size <= max_u32() {
            BoxSize::U32(size as u32)
        } else {
            BoxSize::U64((size + 8) as u64)
        }
    }

    /// Returns the size of a box of the given type and payload size.
    pub fn with_payload_size(box_type: BoxType, payload_size: u64) -> (r: Self)
        requires
            payload_size <= u64::MAX - 32,
        ensures
            r == Self::spec_with_payload_size(box_type, payload_size),
            r.spec_get() == r.spec_external_size() + box_type.spec_external_size() + payload_size,
    {
        let size = 4 + box_type.external_size() as u64 + payload_size;
        if size <= 0xffff_ffff {
            BoxSize::U32(size as u32)
        } else {
            BoxSize::U64(size + 8)
        }
    }

    /// Returns the size as a number.
    pub fn get(self) -> (r: u64)
        ensures
            r == self.spec_get(),
    {
        match self {
            BoxSize::U32(v) => v as u64,
            BoxSize::U64(v) => v,
        }
    }

    /// Returns the number of bytes of the size fields in a box header.
    pub fn external_size(self) -> (r: usize)
        ensures
            r == self.spec_external_size(),
    {
        match self {
            BoxSize::U32(_) => 4,
            BoxSize::U64(_) => 4 + 8,
        }
    }
}

/// The header common to all boxes.
#[derive(Debug, Clone, Copy, Hash)]
pub struct BoxHeader {
    /// The type of the box.
    pub box_type: BoxType,
    /// The size of the box.
    pub box_size: BoxSize,
}

/// The size field of a header that announces a 64-bit size after the type.
pub open spec fn large_size_marker() -> u32 {
    1
}

impl BoxHeader {
    /// The smallest encoded header.
    pub const MIN_SIZE: usize = 4 + 4;

    /// The largest encoded header.
    pub const MAX_SIZE: usize = (4 + 8) + (4 + 16);

    /// The number of bytes of the encoded header.
    pub open spec fn spec_external_size(self) -> nat {
        self.box_type.spec_external_size() + self.box_size.spec_external_size()
    }

    /// A header with the given type and size.
    pub open spec fn new_spec(box_type: BoxType, box_size: BoxSize) -> Self {
        BoxHeader { box_type, box_size }
    }

    /// Creates a header.
    pub fn new(box_type: BoxType, box_size: BoxSize) -> (r: Self)
        ensures
            r == Self::new_spec(box_type, box_size),
    {
        Self { box_type, box_size }
    }

    /// Creates a header whose size is not known yet.
    pub fn new_variable_size(box_type: BoxType) -> (r: Self)
        ensures
            r.box_type == box_type,
            r.box_size == BoxSize::U32(0),
    {
        Self { box_type, box_size: BoxSize::VARIABLE_SIZE() }
    }

    /// Fixes the size of a header created with [`BoxHeader::new_variable_size()`].
    ///
    /// `box_bytes` holds the whole box, its header first: the size field at its start is
    /// overwritten with the length of `box_bytes`. The size must fit 32 bits, since a larger
    /// size field would change the layout of the box.
    pub fn finalize_box_size(self, box_bytes: &mut [u8]) -> (r: Result<Self>)
        requires
            old(box_bytes)@.len() >= 4,
        ensures
            r is Ok <==> self.box_size == BoxSize::U32(0) && old(box_bytes)@.len()
                <= max_u32(),
            r matches Ok(h) ==> h.box_type == self.box_type && h.box_size == BoxSize::U32(
                old(box_bytes)@.len() as u32,
            ) && final(box_bytes)@ == be_u32(old(box_bytes)@.len() as u32) + old(
                box_bytes,
            )@.skip(4),
            r matches Err(e) ==> e.kind == ErrorKind::InvalidInput && final(box_bytes)@ == old(
                box_bytes,
            )@,
    {
        if self.box_size != BoxSize::U32(0) {
            return Err(Error::invalid_input("box_size must be VARIABLE_SIZE before finalization"));
        }
        if box_bytes.len() > 0xffff_ffff {
            return Err(
                Error::invalid_input(
                    "box payload too large: header size would require U64, making layout inconsistent",
                ),
            );
        }
        let size = box_bytes.len() as u32;
        let ghost original = box_bytes@;
        box_bytes[0] = (size / 0x100_0000) as u8;
        box_bytes[1] = ((size / 0x1_0000) % 0x100) as u8;
        box_bytes[2] = ((size / 0x100) % 0x100) as u8;
        box_bytes[3] = (size % 0x100) as u8;
        assert(box_bytes@ =~= be_u32(size) + original.skip(4));
        Ok(Self { box_type: self.box_type, box_size: BoxSize::U32(size) })
    }

    /// Returns the number of bytes of the encoded header.
    pub fn external_size(self) -> (r: usize)
        ensures
            r == self.spec_external_size(),
    {
        self.box_type.external_size() + self.box_size.external_size()
    }

    /// Whether the first four bytes of `s` introduce an extended (UUID) box type.
    pub open spec fn spec_has_uuid(s: Seq<u8>) -> bool {
        s.subrange(4, 8) == uuid_tag()
    }

    /// The offset just after the type field of the header at the start of `s`.
    pub open spec fn spec_type_end(s: Seq<u8>) -> int {
        if Self::spec_has_uuid(s) {
            24
        } else {
            8
        }
    }

    /// The size that the header at the start of `s` announces.
    pub open spec fn spec_size_value(s: Seq<u8>) -> nat {
        if get_u32(s, 0) == large_size_marker() {
            get_u64(s, Self::spec_type_end(s)) as nat
        } else {
            get_u32(s, 0) as nat
        }
    }
}

impl Encode for BoxHeader {
    open spec fn spec_encodable(&self) -> bool {
        true
    }

    open spec fn spec_encoding(&self) -> Seq<u8> {
        match self.box_size {
            BoxSize::U32(size) => be_u32(size) + self.box_type.spec_header_bytes(),
            BoxSize::U64(size) => be_u32(large_size_marker()) + self.box_type.spec_header_bytes()
                + be_u64(size),
        }
    }

    fn encode_into(&self, out: &mut Vec<u8>) -> (r: Result<()>) {
        let ghost start = out@;
        match self.box_size {
            BoxSize::U32(size) => {
                put_u32(out, size);
                self.box_type.put_header_bytes(out);
            },
            BoxSize::U64(size) => {
                put_u32(out, 1);
                self.box_type.put_header_bytes(out);
                put_u64(out, size);
            },
        }
        assert(out@ =~= start + self.spec_encoding());
        Ok(())
    }
}

impl Decode for BoxHeader {
    open spec fn spec_can_decode(s: Seq<u8>) -> bool {
        &&& s.len() >= 8
        &&& s.len() >= Self::spec_type_end(s)
        &&& get_u32(s, 0) == large_size_marker() ==> s.len() >= Self::spec_type_end(s) + 8
        &&& Self::spec_decoded_len(s) <= Self::spec_size_value(s) || Self::spec_size_value(s) == 0
    }

    open spec fn spec_decoded_len(s: Seq<u8>) -> int {
        if get_u32(s, 0) == large_size_marker() {
            Self::spec_type_end(s) + 8
        } else {
            Self::spec_type_end(s)
        }
    }

    open spec fn spec_decoded(s: Seq<u8>, v: Self) -> bool {
        &&& if Self::spec_has_uuid(s) {
            v.box_type matches BoxType::Uuid(u) && u@ == s.subrange(8, 24)
        } else {
            v.box_type matches BoxType::Normal(t) && t@ == s.subrange(4, 8)
        }
        &&& if get_u32(s, 0) == large_size_marker() {
            v.box_size == BoxSize::U64(get_u64(s, Self::spec_type_end(s)))
        } else {
            v.box_size == BoxSize::U32(get_u32(s, 0))
        }
    }

    fn decode(buf: &[u8]) -> (r: Result<(Self, usize)>) {
        let mut offset: usize = 0;
        if buf.len() < 8 {
            return Err(Error::insufficient_buffer());
        }
        let size = get_u32_at(buf, &mut offset)?;
        let is_uuid = buf[4] == 0x75 && buf[5] == 0x75 && buf[6] == 0x69 && buf[7] == 0x64;
        proof {
            assert(is_uuid == Self::spec_has_uuid(buf@)) by {
                if is_uuid {
                    assert(buf@.subrange(4, 8) =~= uuid_tag());
                }
                if Self::spec_has_uuid(buf@) {
                    assert(buf@[4] == buf@.subrange(4, 8)[0]);
                    assert(buf@[5] == buf@.subrange(4, 8)[1]);
                    assert(buf@[6] == buf@.subrange(4, 8)[2]);
                    assert(buf@[7] == buf@.subrange(4, 8)[3]);
                }
            }
        }
        let box_type = if is_uuid {
            if buf.len() < 24 {
                return Err(Error::insufficient_buffer());
            }
            let mut ty = [0u8; 16];
            let mut i: usize = 0;
            while i < 16
                invariant
                    i <= 16,
                    buf@.len() >= 24,
                    forall|j: int| 0 <= j < i ==> ty@[j] == buf@[8 + j],
                decreases 16 - i,
            {
                ty[i] = buf[8 + i];
                i += 1;
            }
            assert(ty@ =~= buf@.subrange(8, 24));
            offset = 24;
            BoxType::Uuid(ty)
        } else {
            let ty = [buf[4], buf[5], buf[6], buf[7]];
            assert(ty@ =~= buf@.subrange(4, 8));
            offset = 8;
            BoxType::Normal(ty)
        };
        let box_size = if size == 1 {
            BoxSize::U64(get_u64_at(buf, &mut offset)?)
        } else {
            BoxSize::U32(size)
        };
        if box_size.get() != 0 && box_size.get() < (box_size.external_size()
            + box_type.external_size()) as u64 {
            return Err(
                Error::invalid_data("Too small box size").with_box_type(box_type),
            );
        }
        Ok((Self { box_type, box_size }, offset))
    }
}

/// The header of a full box: a version and flags.
#[derive(Debug, Clone, Copy, PartialEq, Eq, Hash, Structural)]
pub struct FullBoxHeader {
    /// The version.
    pub version: u8,
    /// The flags.
    pub flags: FullBoxFlags,
}

impl FullBoxHeader {
    /// Returns the header of the given full box.
    pub fn from_box<B: FullBox>(b: &B) -> (r: Self)
        ensures
            r.version == b.spec_full_box_version(),
            r.flags == b.spec_full_box_flags(),
    {
        Self { version: b.full_box_version(), flags: b.full_box_flags() }
    }
}

impl Encode for FullBoxHeader {
    open spec fn spec_encodable(&self) -> bool {
        true
    }

    open spec fn spec_encoding(&self) -> Seq<u8> {
        seq![self.version] + self.flags.spec_encoding()
    }

    fn encode_into(&self, out: &mut Vec<u8>) -> (r: Result<()>) {
        let ghost start = out@;
        put_u8(out, self.version);
        self.flags.encode_into(out)?;
        assert(out@ =~= start + self.spec_encoding());
        Ok(())
    }
}

impl Decode for FullBoxHeader {
    open spec fn spec_can_decode(s: Seq<u8>) -> bool {
        s.len() >= 4
    }

    open spec fn spec_decoded_len(s: Seq<u8>) -> int {
        4
    }

    open spec fn spec_decoded(s: Seq<u8>, v: Self) -> bool {
        &&& v.version == s[0]
        &&& v.flags.spec_get() == get_u32(s, 0) % 0x100_0000
    }

    fn decode(buf: &[u8]) -> (r: Result<(Self, usize)>) {
        let mut offset: usize = 0;
        let version = get_u8_at(buf, &mut offset)?;
        let flags = FullBoxFlags::decode_at(buf, &mut offset)?;
        proof {
            assert(buf@.skip(1)[0] == buf@[1]);
            assert(buf@.skip(1)[1] == buf@[2]);
            assert(buf@.skip(1)[2] == buf@[3]);
        }
        Ok((Self { version, flags }, 4))
    }
}

/// The 24-bit flags of a full box header.
#[derive(Debug, Clone, Copy, PartialEq, Eq, Hash, Structural)]
pub struct FullBoxFlags(u32);

/// The flags of a list of `(bit position, is set)` pairs: the bits of the set pairs.
pub open spec fn flags_bits(flags: Seq<(usize, bool)>) -> u32
    decreases flags.len(),
{
    if flags.len() == 0 {
        0
    } else {
        flags_bits(flags.drop_last()) | if flags.last().1 {
            1u32 << (flags.last().0 as u32)
        } else {
            0u32
        }
    }
}

/// Whether the set pairs of a list have bit positions below 32.
pub open spec fn set_positions_fit(flags: Seq<(usize, bool)>) -> bool {
    forall|i: int| 0 <= i < flags.len() && (#[trigger] flags[i]).1 ==> flags[i].0 < 32
}

/// Whether bit `i` of `v` is set.
pub open spec fn bit_is_set(v: u32, i: u32) -> bool {
    (v >> i) & 1u32 == 1u32
}

/// A bit of the flags of a list is set exactly when the list holds a set pair at its position.
pub proof fn lemma_flags_bits_is_set(flags: Seq<(usize, bool)>, i: u32)
    requires
        set_positions_fit(flags),
        i < 32,
    ensures
        bit_is_set(flags_bits(flags), i) <==> exists|k: int| 0 <= k < flags.len() && #[trigger] flags[k] == (
            i as usize,
            true,
        ),
    decreases flags.len(),
{
    if flags.len() > 0 {
        let init = flags.drop_last();
        assert(set_positions_fit(init)) by {
            assert forall|k: int| 0 <= k < init.len() && (#[trigger] init[k]).1 implies init[k].0 < 32 by {
                assert(init[k] == flags[k]);
            }
        }
        lemma_flags_bits_is_set(init, i);
        let a = flags_bits(init);
        let last = flags.last();
        let n = flags.len() - 1;
        assert(flags[n] == last);
        let in_init = exists|k: int| 0 <= k < init.len() && #[trigger] init[k] == (i as usize, true);
        let in_all = exists|k: int| 0 <= k < flags.len() && #[trigger] flags[k] == (i as usize, true);
        assert(in_all == (in_init || last == (i as usize, true))) by {
            if in_all {
                let k = choose|k: int| 0 <= k < flags.len() && #[trigger] flags[k] == (i as usize, true);
                if k < n {
                    assert(init[k] == flags[k]);
                }
            }
            if in_init {
                let k = choose|k: int| 0 <= k < init.len() && #[trigger] init[k] == (i as usize, true);
                assert(flags[k] == init[k]);
            }
        }
        if last.1 {
            let p = last.0 as u32;
            assert(last.0 < 32);
            assert((((a | (1u32 << p)) >> i) & 1u32 == 1u32) == (((a >> i) & 1u32 == 1u32) || p == i)) by (bit_vector)
                requires
                    p < 32,
                    i < 32,
            ;
            assert((p == i) == (last == (i as usize, true)));
            assert(flags_bits(flags) == a | (1u32 << p));
        } else {
            assert((a | 0u32) == a) by (bit_vector);
            assert(flags_bits(flags) == a | 0u32);
        }
    } else {
        assert(((0u32 >> i) & 1u32) == 0u32) by (bit_vector);
    }
}

impl FullBoxFlags {
    /// The flags as a number.
    pub closed spec fn spec_get(self) -> u32 {
        self.0
    }

    /// Empty flags.
    pub fn empty() -> (r: Self)
        ensures
            r.spec_get() == 0,
    {
        Self(0)
    }

    /// Flags with the given number.
    pub closed spec fn spec_new(flags: u32) -> Self {
        Self(flags)
    }

    /// The number of flags made from a number.
    pub proof fn lemma_spec_new(flags: u32)
        ensures
            Self::spec_new(flags).spec_get() == flags,
    {
    }

    /// Creates flags from a number.
    pub fn new(flags: u32) -> (r: Self)
        ensures
            r.spec_get() == flags,
            r == Self::spec_new(flags),
    {
        Self(flags)
    }

    /// Creates flags from `(bit position, is set)` pairs: the bits of the set pairs (a position
    /// given twice is one bit). The positions of the set pairs must be below 32.
    pub fn from_flags(flags: &[(usize, bool)]) -> (r: Self)
        requires
            set_positions_fit(flags@),
        ensures
            r.spec_get() == flags_bits(flags@),
    {
        let mut value: u32 = 0;
        let mut i: usize = 0;
        while i < flags.len()
            invariant
                i <= flags@.len(),
                set_positions_fit(flags@),
                value == flags_bits(flags@.subrange(0, i as int)),
            decreases flags@.len() - i,
        {
            let (pos, set) = flags[i];
            proof {
                let prefix = flags@.subrange(0, i + 1);
                assert(prefix.drop_last() =~= flags@.subrange(0, i as int));
                assert(prefix.last() == flags@[i as int]);
            }
            if set {
                assert(flags@[i as int].1);
                let bit: u32 = 1u32 << (pos as u32);
                value = value | bit;
            } else {
                let v0 = value;
                assert((v0 | 0u32) == v0) by (bit_vector);
            }
            i += 1;
        }
        assert(flags@.subrange(0, i as int) =~= flags@);
        Self(value)
    }

    /// Returns the flags as a number.
    pub fn get(self) -> (r: u32)
        ensures
            r == self.spec_get(),
    {
        self.0
    }

    /// Whether the flag at bit position `i` is set.
    pub fn is_set(self, i: usize) -> (r: bool)
        requires
            i < 32,
        ensures
            r == bit_is_set(self.spec_get(), i as u32),
    {
        (self.0 >> (i as u32)) & 1 == 1
    }
}

impl Encode for FullBoxFlags {
    open spec fn spec_encodable(&self) -> bool {
        true
    }

    open spec fn spec_encoding(&self) -> Seq<u8> {
        be_u32(self.spec_get()).skip(1)
    }

    fn encode_into(&self, out: &mut Vec<u8>) -> (r: Result<()>) {
        let ghost start = out@;
        put_u8(out, ((self.0 / 0x1_0000) % 0x100) as u8);
        put_u8(out, ((self.0 / 0x100) % 0x100) as u8);
        put_u8(out, (self.0 % 0x100) as u8);
        assert(out@ =~= start + self.spec_encoding());
        Ok(())
    }
}

impl Decode for FullBoxFlags {
    open spec fn spec_can_decode(s: Seq<u8>) -> bool {
        s.len() >= 3
    }

    open spec fn spec_decoded_len(s: Seq<u8>) -> int {
        3
    }

    open spec fn spec_decoded(s: Seq<u8>, v: Self) -> bool {
        v.spec_get() == s[0] * 0x1_0000 + s[1] * 0x100 + s[2]
    }

    fn decode(buf: &[u8]) -> (r: Result<(Self, usize)>) {
        if buf.len() < 3 {
            return Err(Error::insufficient_buffer());
        }
        let v: u32 = (buf[0] as u32) * 0x1_0000 + (buf[1] as u32) * 0x100 + buf[2] as u32;
        Ok((Self(v), 3))
    }
}

/// Boxes.
pub trait BaseBox {
    /// The type of the box.
    spec fn spec_box_type(&self) -> BoxType;

    /// Returns the type of the box.
    fn box_type(&self) -> (r: BoxType)
        ensures
            r == self.spec_box_type(),
    ;

    /// Whether the box is of a type whose payload is not interpreted.
    fn is_unknown_box(&self) -> (r: bool) {
        false
    }
}

/// Full boxes: boxes whose payload starts with a version and flags.
pub trait FullBox: BaseBox {
    /// The version of the box.
    spec fn spec_full_box_version(&self) -> u8;

    /// The flags of the box.
    spec fn spec_full_box_flags(&self) -> FullBoxFlags;

    /// Returns the version of the box.
    fn full_box_version(&self) -> (r: u8)
        ensures
            r == self.spec_full_box_version(),
    ;

    /// Returns the flags of the box.
    fn full_box_flags(&self) -> (r: FullBoxFlags)
        ensures
            r == self.spec_full_box_flags(),
    ;
}

/// A time in an MP4 file: seconds since 1904-01-01 00:00:00 UTC.
#[derive(Debug, Default, Clone, Copy, PartialEq, Eq, Hash, PartialOrd, Ord, Structural)]
pub struct Mp4FileTime(u64);

/// Seconds from 1904-01-01 to 1970-01-01.
pub open spec fn unix_epoch_offset() -> u64 {
    2082844800
}

impl Mp4FileTime {
    /// The seconds since 1904-01-01.
    pub closed spec fn spec_secs(self) -> u64 {
        self.0
    }

    /// Creates a time from seconds since 1904-01-01.
    pub fn from_secs(secs: u64) -> (r: Self)
        ensures
            r.spec_secs() == secs,
    {
        Self(secs)
    }

    /// Returns the seconds since 1904-01-01.
    pub fn as_secs(self) -> (r: u64)
        ensures
            r == self.spec_secs(),
    {
        self.0
    }

    /// Creates a time from seconds since the UNIX epoch (1970-01-01 00:00:00 UTC).
    pub fn from_unix_time(unix_time_secs: u64) -> (r: Self)
        requires
            unix_time_secs + unix_epoch_offset() <= u64::MAX,
        ensures
            r.spec_secs() == unix_time_secs + unix_epoch_offset(),
    {
        let delta: u64 = 2082844800;
        Self::from_secs(unix_time_secs + delta)
    }
}

/// A fixed-point number with an integer part and a fraction part.
#[derive(Debug, Default, Clone, Copy, PartialEq, Eq, Hash, PartialOrd, Ord, Structural)]
pub struct FixedPointNumber<I, F = I> {
    /// The integer part.
    pub integer: I,
    /// The fraction part.
    pub fraction: F,
}

impl<I, F> FixedPointNumber<I, F> {
    /// Creates a fixed-point number from its two parts.
    pub fn new(integer: I, fraction: F) -> (r: Self)
        ensures
            r.integer == integer,
            r.fraction == fraction,
    {
        Self { integer, fraction }
    }
}

impl<I: Encode, F: Encode> Encode for FixedPointNumber<I, F> {
    open spec fn spec_encodable(&self) -> bool {
        self.integer.spec_encodable() && self.fraction.spec_encodable()
    }

    open spec fn spec_encoding(&self) -> Seq<u8> {
        self.integer.spec_encoding() + self.fraction.spec_encoding()
    }

    fn encode_into(&self, out: &mut Vec<u8>) -> (r: Result<()>) {
        let ghost start = out@;
        self.integer.encode_into(out)?;
        self.fraction.encode_into(out)?;
        assert(out@ =~= start + self.spec_encoding());
        Ok(())
    }
}

impl<I: Decode, F: Decode> Decode for FixedPointNumber<I, F> {
    open spec fn spec_can_decode(s: Seq<u8>) -> bool {
        &&& I::spec_can_decode(s)
        &&& 0 <= I::spec_decoded_len(s) <= s.len()
        &&& F::spec_can_decode(s.skip(I::spec_decoded_len(s)))
    }

    open spec fn spec_decoded_len(s: Seq<u8>) -> int {
        I::spec_decoded_len(s) + F::spec_decoded_len(s.skip(I::spec_decoded_len(s)))
    }

    open spec fn spec_decoded(s: Seq<u8>, v: Self) -> bool {
        &&& I::spec_decoded(s, v.integer)
        &&& F::spec_decoded(s.skip(I::spec_decoded_len(s)), v.fraction)
    }

    fn decode(buf: &[u8]) -> (r: Result<(Self, usize)>) {
        let mut offset: usize = 0;
        assert(buf@.skip(0) =~= buf@);
        let integer = I::decode_at(buf, &mut offset)?;
        let fraction = F::decode_at(buf, &mut offset)?;
        Ok((Self { integer, fraction }, offset))
    }
}

/// A non-zero unsigned 32-bit integer.
#[derive(Debug, Clone, Copy, PartialEq, Eq, Hash, PartialOrd, Ord, Structural)]
pub struct NonZeroU32(u32);

impl NonZeroU32 {
    #[verifier::type_invariant]
    spec fn nonzero(self) -> bool {
        self.0 != 0
    }

    /// The value.
    pub closed spec fn spec_get(self) -> u32 {
        self.0
    }

    /// The smallest value, one.
    #[allow(non_snake_case)]
    pub fn MIN() -> (r: NonZeroU32)
        ensures
            r.spec_get() == 1,
    {
        NonZeroU32(1)
    }

    /// Returns `Some` with the value when it is not zero.
    pub fn new(v: u32) -> (r: Option<Self>)
        ensures
            r is Some <==> v != 0,
            r matches Some(n) ==> n.spec_get() == v,
    {
        if v == 0 {
            None
        } else {
            Some(NonZeroU32(v))
        }
    }

    /// Returns the value.
    pub fn get(self) -> (r: u32)
        ensures
            r == self.spec_get(),
            r != 0,
    {
        proof {
            use_type_invariant(&self);
        }
        self.0
    }

    /// Adds `other`, saturating at the largest value.
    pub fn saturating_add(self, other: u32) -> (r: Self)
        ensures
            r.spec_get() == if self.spec_get() + other <= u32::MAX {
                (self.spec_get() + other) as u32
            } else {
                u32::MAX
            },
    {
        proof {
            use_type_invariant(&self);
        }
        NonZeroU32(self.0.saturating_add(other))
    }

    /// Adds `other`, or returns `None` on overflow.
    pub fn checked_add(self, other: u32) -> (r: Option<Self>)
        ensures
            r is Some <==> self.spec_get() + other <= u32::MAX,
            r matches Some(n) ==> n.spec_get() == self.spec_get() + other,
    {
        proof {
            use_type_invariant(&self);
        }
        match self.0.checked_add(other) {
            Some(v) => Some(NonZeroU32(v)),
            None => None,
        }
    }
}

impl Encode for NonZeroU32 {
    open spec fn spec_encodable(&self) -> bool {
        true
    }

    open spec fn spec_encoding(&self) -> Seq<u8> {
        be_u32(self.spec_get())
    }

    fn encode_into(&self, out: &mut Vec<u8>) -> (r: Result<()>) {
        put_u32(out, self.get());
        Ok(())
    }
}

impl Decode for NonZeroU32 {
    open spec fn spec_can_decode(s: Seq<u8>) -> bool {
        s.len() >= 4 && get_u32(s, 0) != 0
    }

    open spec fn spec_decoded_len(s: Seq<u8>) -> int {
        4
    }

    open spec fn spec_decoded(s: Seq<u8>, v: Self) -> bool {
        v.spec_get() == get_u32(s, 0)
    }

    fn decode(buf: &[u8]) -> (r: Result<(Self, usize)>) {
        let mut offset: usize = 0;
        let v = get_u32_at(buf, &mut offset)?;
        match NonZeroU32::new(v) {
            Some(n) => Ok((n, 4)),
            None => Err(Error::invalid_input("Expected a non-zero integer, but got 0")),
        }
    }
}

/// Times with the same seconds are the same.
pub proof fn lemma_file_time_eq(a: Mp4FileTime, b: Mp4FileTime)
    requires
        a.spec_secs() == b.spec_secs(),
    ensures
        a == b,
{
}

/// Non-zero values with the same value are the same.
pub proof fn lemma_nonzero_eq(a: NonZeroU32, b: NonZeroU32)
    requires
        a.spec_get() == b.spec_get(),
    ensures
        a == b,
{
}

} // verus!

verus! {

/// A value that is either an `A` or a `B`.
#[derive(Debug, Clone, PartialEq, Eq, Hash)]
#[allow(missing_docs)]
pub enum Either<A, B> {
    A(A),
    B(B),
}

impl<A: BaseBox, B: BaseBox> BaseBox for Either<A, B> {
    open spec fn spec_box_type(&self) -> BoxType {
        match self {
            Either::A(x) => x.spec_box_type(),
            Either::B(x) => x.spec_box_type(),
        }
    }

    fn box_type(&self) -> (r: BoxType) {
        match self {
            Either::A(x) => x.box_type(),
            Either::B(x) => x.box_type(),
        }
    }

    fn is_unknown_box(&self) -> (r: bool) {
        match self {
            Either::A(x) => x.is_unknown_box(),
            Either::B(x) => x.is_unknown_box(),
        }
    }
}

} // verus!

verus! {

/// The flags of a sample in a fragmented file (ISO/IEC 14496-12 `sample_flags`).
///
/// From the most significant bit: four reserved bits, `is_leading` (2 bits),
/// `sample_depends_on` (2), `sample_is_depended_on` (2), `sample_has_redundancy` (2),
/// `sample_padding_value` (3), `sample_is_non_sync_sample` (1) and
/// `sample_degradation_priority` (16).
#[derive(Debug, Clone, Copy, PartialEq, Eq, Hash, Structural)]
pub struct SampleFlags(u32);

impl SampleFlags {
    /// The flags as a number.
    pub closed spec fn spec_get(self) -> u32 {
        self.0
    }

    /// Flags with the given number.
    pub closed spec fn spec_new(flags: u32) -> Self {
        SampleFlags(flags)
    }

    /// The number of flags made from a number.
    pub proof fn lemma_spec_new(flags: u32)
        ensures
            Self::spec_new(flags).spec_get() == flags,
    {
    }

    /// Creates flags from a number.
    pub fn new(flags: u32) -> (r: Self)
        ensures
            r.spec_get() == flags,
            r == Self::spec_new(flags),
    {
        Self(flags)
    }

    /// No flags set.
    pub fn empty() -> (r: Self)
        ensures
            r.spec_get() == 0,
    {
        Self(0)
    }

    /// Returns the flags as a number.
    pub fn get(self) -> (r: u32)
        ensures
            r == self.spec_get(),
    {
        self.0
    }

    /// The number made of the given fields; each field keeps only as many low bits as it has.
    pub open spec fn spec_fields_value(
        is_leading: u8,
        sample_depends_on: u8,
        sample_is_depended_on: u8,
        sample_has_redundancy: u8,
        sample_padding_value: u8,
        sample_is_non_sync_sample: bool,
        sample_degradation_priority: u16,
    ) -> int {
        (is_leading % 4) * 0x400_0000 + (sample_depends_on % 4) * 0x100_0000 + (
        sample_is_depended_on % 4) * 0x40_0000 + (sample_has_redundancy % 4) * 0x10_0000 + (
        sample_padding_value % 8) * 0x2_0000 + (if sample_is_non_sync_sample {
            0x1_0000int
        } else {
            0
        }) + sample_degradation_priority
    }

    /// Creates flags from their fields.
    pub fn from_fields(
        is_leading: u8,
        sample_depends_on: u8,
        sample_is_depended_on: u8,
        sample_has_redundancy: u8,
        sample_padding_value: u8,
        sample_is_non_sync_sample: bool,
        sample_degradation_priority: u16,
    ) -> (r: Self)
        ensures
            r.spec_get() == Self::spec_fields_value(
                is_leading,
                sample_depends_on,
                sample_is_depended_on,
                sample_has_redundancy,
                sample_padding_value,
                sample_is_non_sync_sample,
                sample_degradation_priority,
            ),
    {
        let non_sync: u32 = if sample_is_non_sync_sample {
            1
        } else {
            0
        };
        let v: u32 = (is_leading % 4) as u32 * 0x400_0000 + (sample_depends_on % 4) as u32
            * 0x100_0000 + (sample_is_depended_on % 4) as u32 * 0x40_0000 + (sample_has_redundancy
            % 4) as u32 * 0x10_0000 + (sample_padding_value % 8) as u32 * 0x2_0000 + non_sync
            * 0x1_0000 + sample_degradation_priority as u32;
        Self(v)
    }

    /// Returns `is_leading` (2 bits).
    pub fn is_leading(self) -> (r: u8)
        ensures
            r == (self.spec_get() / 0x400_0000) % 4,
    {
        ((self.0 / 0x400_0000) % 4) as u8
    }

    /// Returns `sample_depends_on` (2 bits).
    pub fn sample_depends_on(self) -> (r: u8)
        ensures
            r == (self.spec_get() / 0x100_0000) % 4,
    {
        ((self.0 / 0x100_0000) % 4) as u8
    }

    /// Returns `sample_is_depended_on` (2 bits).
    pub fn sample_is_depended_on(self) -> (r: u8)
        ensures
            r == (self.spec_get() / 0x40_0000) % 4,
    {
        ((self.0 / 0x40_0000) % 4) as u8
    }

    /// Returns `sample_has_redundancy` (2 bits).
    pub fn sample_has_redundancy(self) -> (r: u8)
        ensures
            r == (self.spec_get() / 0x10_0000) % 4,
    {
        ((self.0 / 0x10_0000) % 4) as u8
    }

    /// Returns `sample_padding_value` (3 bits).
    pub fn sample_padding_value(self) -> (r: u8)
        ensures
            r == (self.spec_get() / 0x2_0000) % 8,
    {
        ((self.0 / 0x2_0000) % 8) as u8
    }

    /// Returns `sample_is_non_sync_sample` (1 bit).
    pub fn sample_is_non_sync_sample(self) -> (r: bool)
        ensures
            r == ((self.spec_get() / 0x1_0000) % 2 == 1),
    {
        (self.0 / 0x1_0000) % 2 == 1
    }

    /// Returns `sample_degradation_priority` (16 bits).
    pub fn sample_degradation_priority(self) -> (r: u16)
        ensures
            r == self.spec_get() % 0x1_0000,
    {
        (self.0 % 0x1_0000) as u16
    }
}

/// Flags with the same number are the same flags.
pub proof fn lemma_sample_flags_eq(a: SampleFlags, b: SampleFlags)
    requires
        a.spec_get() == b.spec_get(),
    ensures
        a == b,
{
}

/// Each field of flags made from fields reads back as given, when it fits its bits.
pub proof fn lemma_sample_flags_fields(
    is_leading: u8,
    sample_depends_on: u8,
    sample_is_depended_on: u8,
    sample_has_redundancy: u8,
    sample_padding_value: u8,
    sample_is_non_sync_sample: bool,
    sample_degradation_priority: u16,
)
    requires
        is_leading < 4,
        sample_depends_on < 4,
        sample_is_depended_on < 4,
        sample_has_redundancy < 4,
        sample_padding_value < 8,
    ensures
        ({
            let v = SampleFlags::spec_fields_value(
                is_leading,
                sample_depends_on,
                sample_is_depended_on,
                sample_has_redundancy,
                sample_padding_value,
                sample_is_non_sync_sample,
                sample_degradation_priority,
            );
            &&& (v / 0x400_0000) % 4 == is_leading
            &&& (v / 0x100_0000) % 4 == sample_depends_on
            &&& (v / 0x40_0000) % 4 == sample_is_depended_on
            &&& (v / 0x10_0000) % 4 == sample_has_redundancy
            &&& (v / 0x2_0000) % 8 == sample_padding_value
            &&& ((v / 0x1_0000) % 2 == 1) == sample_is_non_sync_sample
            &&& v % 0x1_0000 == sample_degradation_priority
        }),
{
    let n: int = if sample_is_non_sync_sample {
        1
    } else {
        0
    };
    let a = is_leading as int;
    let b = sample_depends_on as int;
    let c = sample_is_depended_on as int;
    let d = sample_has_redundancy as int;
    let e = sample_padding_value as int;
    let p = sample_degradation_priority as int;
    let v = a * 0x400_0000 + b * 0x100_0000 + c * 0x40_0000 + d * 0x10_0000 + e * 0x2_0000 + n
        * 0x1_0000 + p;
    assert(v == SampleFlags::spec_fields_value(
        is_leading,
        sample_depends_on,
        sample_is_depended_on,
        sample_has_redundancy,
        sample_padding_value,
        sample_is_non_sync_sample,
        sample_degradation_priority,
    ));
    assert((v / 0x400_0000) % 4 == a && (v / 0x100_0000) % 4 == b && (v / 0x40_0000) % 4 == c
        && (v / 0x10_0000) % 4 == d && (v / 0x2_0000) % 8 == e && (v / 0x1_0000) % 2 == n && v
        % 0x1_0000 == p) by (nonlinear_arith)
        requires
            0 <= a < 4,
            0 <= b < 4,
            0 <= c < 4,
            0 <= d < 4,
            0 <= e < 8,
            0 <= n < 2,
            0 <= p < 0x1_0000,
            v == a * 0x400_0000 + b * 0x100_0000 + c * 0x40_0000 + d * 0x10_0000 + e * 0x2_0000
                + n * 0x1_0000 + p,
    ;
}

impl Encode for SampleFlags {
    open spec fn spec_encodable(&self) -> bool {
        true
    }

    open spec fn spec_encoding(&self) -> Seq<u8> {
        be_u32(self.spec_get())
    }

    fn encode_into(&self, out: &mut Vec<u8>) -> (r: Result<()>) {
        put_u32(out, self.0);
        Ok(())
    }
}

impl Decode for SampleFlags {
    open spec fn spec_can_decode(s: Seq<u8>) -> bool {
        s.len() >= 4
    }

    open spec fn spec_decoded_len(s: Seq<u8>) -> int {
        4
    }

    open spec fn spec_decoded(s: Seq<u8>, v: Self) -> bool {
        v.spec_get() == get_u32(s, 0)
    }

    fn decode(buf: &[u8]) -> (r: Result<(Self, usize)>) {
        let mut offset: usize = 0;
        let v = get_u32_at(buf, &mut offset)?;
        Ok((Self(v), 4))
    }
}

} // verus!

verus! {

/// Converts bytes to a string with `String::from_utf8`.
///
/// Trusted: `String::from_utf8` accepts exactly the valid UTF-8 byte strings, and the string
/// it returns has those bytes.
#[verifier::external_body]
pub(crate) fn string_from_utf8(bytes: Vec<u8>) -> (r: Option<String>)
    ensures
        r is Some <==> valid_utf8(bytes@),
        r matches Some(s) ==> encode_utf8(s@) == bytes@,
{
    String::from_utf8(bytes).ok()
}

/// Whether `s` holds a zero byte.
pub open spec fn has_nul(s: Seq<u8>) -> bool {
    exists|i: int| 0 <= i < s.len() && #[trigger] s[i] == 0
}

/// The position of the first zero byte of `s` (meaningful when there is one).
pub open spec fn first_nul(s: Seq<u8>) -> int {
    choose|i: int| 0 <= i < s.len() && s[i] == 0 && forall|j: int| 0 <= j < i ==> #[trigger] s[j] != 0
}

/// The first zero byte of a byte string that holds one.
pub proof fn lemma_first_nul(s: Seq<u8>, k: int)
    requires
        0 <= k < s.len(),
        s[k] == 0,
        forall|j: int| 0 <= j < k ==> #[trigger] s[j] != 0,
    ensures
        first_nul(s) == k,
{
    let f = first_nul(s);
    assert(0 <= f < s.len() && s[f] == 0 && forall|j: int| 0 <= j < f ==> #[trigger] s[j] != 0);
    if f < k {
        assert(s[f] != 0);
    } else if f > k {
        assert(s[k] != 0);
    }
}

/// A UTF-8 string, written null-terminated in boxes.
#[derive(Debug, Clone)]
pub struct Utf8String(String);

impl Utf8String {
    /// The characters of the string.
    pub closed spec fn spec_chars(self) -> Seq<char> {
        self.0@
    }

    /// The empty string.
    #[allow(non_snake_case)]
    pub fn EMPTY() -> (r: Self)
        ensures
            r.spec_chars() == Seq::<char>::empty(),
    {
        Utf8String(String::new())
    }

    /// Creates a string from characters that hold no null character: `None` when they hold one.
    pub fn new(s: &str) -> (r: Option<Self>)
        ensures
            r is Some <==> !has_nul(s.spec_bytes()),
            r matches Some(u) ==> u.spec_chars() == s@,
    {
        let bytes = s.as_bytes();
        let mut i: usize = 0;
        while i < bytes.len()
            invariant
                bytes@ == s.spec_bytes(),
                i <= bytes@.len(),
                forall|j: int| 0 <= j < i ==> #[trigger] bytes@[j] != 0,
            decreases bytes@.len() - i,
        {
            if bytes[i] == 0 {
                return None;
            }
            i += 1;
        }
        Some(Self(s.to_owned()))
    }

    /// Returns the string, without the terminating null byte.
    pub fn get(&self) -> (r: &str)
        ensures
            r@ == self.spec_chars(),
    {
        self.0.as_str()
    }

    /// Returns the bytes of the string followed by a null byte.
    pub fn into_null_terminated_bytes(self) -> (r: Vec<u8>)
        ensures
            r@ == encode_utf8(self.spec_chars()).push(0),
    {
        let mut v: Vec<u8> = Vec::new();
        put_bytes(&mut v, self.0.as_str().as_bytes());
        v.push(0);
        v
    }
}

impl Encode for Utf8String {
    open spec fn spec_encodable(&self) -> bool {
        true
    }

    open spec fn spec_encoding(&self) -> Seq<u8> {
        encode_utf8(self.spec_chars()).push(0)
    }

    fn encode_into(&self, out: &mut Vec<u8>) -> (r: Result<()>) {
        put_bytes(out, self.0.as_str().as_bytes());
        out.push(0);
        Ok(())
    }
}

impl Decode for Utf8String {
    open spec fn spec_can_decode(s: Seq<u8>) -> bool {
        has_nul(s) && valid_utf8(s.subrange(0, first_nul(s)))
    }

    open spec fn spec_decoded_len(s: Seq<u8>) -> int {
        first_nul(s) + 1
    }

    open spec fn spec_decoded(s: Seq<u8>, v: Self) -> bool {
        encode_utf8(v.spec_chars()) == s.subrange(0, first_nul(s))
    }

    fn decode(buf: &[u8]) -> (r: Result<(Self, usize)>) {
        let mut i: usize = 0;
        while i < buf.len() && buf[i] != 0
            invariant
                i <= buf@.len(),
                forall|j: int| 0 <= j < i ==> #[trigger] buf@[j] != 0,
            decreases buf@.len() - i,
        {
            i += 1;
        }
        if i == buf.len() {
            return Err(Error::insufficient_buffer());
        }
        proof {
            lemma_first_nul(buf@, i as int);
        }
        let mut offset: usize = 0;
        let bytes = get_bytes_at(buf, &mut offset, i)?;
        match string_from_utf8(bytes) {
            Some(s) => Ok((Self(s), i + 1)),
            None => Err(Error::invalid_data("Invalid UTF-8 string")),
        }
    }
}

} // verus!
