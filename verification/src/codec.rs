//! Errors, byte-level primitives and the `Encode` / `Decode` traits.
use crate::basic_types::BoxType;
use vstd::prelude::*;

verus! {

/// Kinds of errors reported by encoding and decoding operations.
#[derive(Debug, Clone, Copy, PartialEq, Eq, Hash, Structural)]
pub enum ErrorKind {
    /// The input value or structure is not valid.
    InvalidInput,
    /// The data is invalid or corrupted.
    InvalidData,
    /// The buffer is too small to hold the result.
    InsufficientBuffer,
    /// The operation or data format is not supported.
    Unsupported,
    /// Any other unexpected error.
    Other,
}

/// The error type of encoding and decoding operations.
#[derive(Debug, Clone)]
pub struct Error {
    /// What kind of error happened.
    pub kind: ErrorKind,
    /// Why the error happened.
    pub reason: String,
    /// The type of the MP4 box in which the error happened, when known.
    pub box_type: Option<BoxType>,
}

/// The result type of this library.
pub type Result<T> = core::result::Result<T, Error>;

impl Error {
    /// A copy of the error.
    pub fn duplicate(&self) -> (e: Self)
        ensures
            e == *self,
    {
        Error { kind: self.kind, reason: self.reason.clone(), box_type: self.box_type }
    }

    /// Creates an error of the given kind without a reason.
    pub fn new(kind: ErrorKind) -> (e: Self)
        ensures
            e.kind == kind,
            e.box_type is None,
    {
        Error { kind, reason: String::new(), box_type: None }
    }

    /// Creates an error of the given kind with a reason.
    pub fn with_reason(kind: ErrorKind, reason: &str) -> (e: Self)
        ensures
            e.kind == kind,
            e.reason@ == reason@,
            e.box_type is None,
    {
        Error { kind, reason: reason.to_owned(), box_type: None }
    }

    pub(crate) fn unsupported(reason: &str) -> (e: Self)
        ensures
            e.kind == ErrorKind::Unsupported,
            e.box_type is None,
    {
        Self::with_reason(ErrorKind::Unsupported, reason)
    }

    pub(crate) fn invalid_input(reason: &str) -> (e: Self)
        ensures
            e.kind == ErrorKind::InvalidInput,
            e.box_type is None,
    {
        Self::with_reason(ErrorKind::InvalidInput, reason)
    }

    pub(crate) fn invalid_data(reason: &str) -> (e: Self)
        ensures
            e.kind == ErrorKind::InvalidData,
            e.box_type is None,
    {
        Self::with_reason(ErrorKind::InvalidData, reason)
    }

    pub(crate) fn insufficient_buffer() -> (e: Self)
        ensures
            e.kind == ErrorKind::InsufficientBuffer,
            e.box_type is None,
    {
        Self::new(ErrorKind::InsufficientBuffer)
    }

    /// Fails with [`ErrorKind::InsufficientBuffer`] when `buf` is shorter than `required_size`.
    pub(crate) fn check_buffer_size(required_size: usize, buf: &[u8]) -> (r: Result<()>)
        ensures
            r is Ok <==> required_size <= buf@.len(),
            r matches Err(e) ==> e.kind == ErrorKind::InsufficientBuffer,
    {
        if buf.len() < required_size {
            Err(Self::insufficient_buffer())
        } else {
            Ok(())
        }
    }

    /// Records the box in which the error happened, unless one is recorded already.
    pub(crate) fn with_box_type(self, ty: BoxType) -> (e: Self)
        ensures
            e.kind == self.kind,
            e.box_type == (if self.box_type is Some {
                self.box_type
            } else {
                Some(ty)
            }),
    {
        let mut e = self;
        if e.box_type.is_none() {
            e.box_type = Some(ty);
        }
        e
    }
}

// ---------------------------------------------------------------------------
// Big-endian integer layouts
// ---------------------------------------------------------------------------

/// Big-endian bytes of a 16-bit value.
pub open spec fn be_u16(v: u16) -> Seq<u8> {
    seq![(v / 0x100) as u8, (v % 0x100) as u8]
}

/// Big-endian bytes of a 32-bit value.
pub open spec fn be_u32(v: u32) -> Seq<u8> {
    seq![
        (v / 0x100_0000) as u8,
        ((v / 0x1_0000) % 0x100) as u8,
        ((v / 0x100) % 0x100) as u8,
        (v % 0x100) as u8,
    ]
}

/// Big-endian bytes of a 64-bit value.
pub open spec fn be_u64(v: u64) -> Seq<u8> {
    be_u32((v / 0x1_0000_0000) as u32) + be_u32((v % 0x1_0000_0000) as u32)
}

/// The 16-bit value held big-endian at `s[i..i + 2]`.
pub open spec fn get_u16(s: Seq<u8>, i: int) -> u16 {
    (s[i] * 0x100 + s[i + 1]) as u16
}

/// The 32-bit value held big-endian at `s[i..i + 4]`.
pub open spec fn get_u32(s: Seq<u8>, i: int) -> u32 {
    (s[i] * 0x100_0000 + s[i + 1] * 0x1_0000 + s[i + 2] * 0x100 + s[i + 3]) as u32
}

/// The 64-bit value held big-endian at `s[i..i + 8]`.
pub open spec fn get_u64(s: Seq<u8>, i: int) -> u64 {
    (get_u32(s, i) * 0x1_0000_0000 + get_u32(s, i + 4)) as u64
}

/// Two's complement bits of a signed 8-bit value.
pub open spec fn i8_bits(v: i8) -> u8 {
    if v >= 0 { v as u8 } else { (v + 0x100) as u8 }
}

/// Two's complement bits of a signed 16-bit value.
pub open spec fn i16_bits(v: i16) -> u16 {
    if v >= 0 { v as u16 } else { (v + 0x1_0000) as u16 }
}

/// Two's complement bits of a signed 32-bit value.
pub open spec fn i32_bits(v: i32) -> u32 {
    if v >= 0 { v as u32 } else { (v + 0x1_0000_0000) as u32 }
}

/// Two's complement bits of a signed 64-bit value.
pub open spec fn i64_bits(v: i64) -> u64 {
    if v >= 0 { v as u64 } else { (v + 0x1_0000_0000_0000_0000) as u64 }
}

/// The signed 8-bit value with the given two's complement bits.
pub open spec fn i8_of(u: u8) -> i8 {
    if u < 0x80 { u as i8 } else { (u - 0x100) as i8 }
}

/// The signed 16-bit value with the given two's complement bits.
pub open spec fn i16_of(u: u16) -> i16 {
    if u < 0x8000 { u as i16 } else { (u - 0x1_0000) as i16 }
}

/// The signed 32-bit value with the given two's complement bits.
pub open spec fn i32_of(u: u32) -> i32 {
    if u < 0x8000_0000 { u as i32 } else { (u - 0x1_0000_0000) as i32 }
}

/// The signed 64-bit value with the given two's complement bits.
pub open spec fn i64_of(u: u64) -> i64 {
    if u < 0x8000_0000_0000_0000 { u as i64 } else { (u - 0x1_0000_0000_0000_0000) as i64 }
}

pub proof fn lemma_be_u16(v: u16)
    ensures
        be_u16(v).len() == 2,
        forall|s: Seq<u8>, i: int|
            0 <= i && i + 2 <= s.len() && s.subrange(i, i + 2) == be_u16(v) ==> get_u16(s, i)
                == v,
{
    assert forall|s: Seq<u8>, i: int|
        0 <= i && i + 2 <= s.len() && s.subrange(i, i + 2) == be_u16(v) implies get_u16(s, i)
        == v by {
        assert(s[i] == s.subrange(i, i + 2)[0]);
        assert(s[i + 1] == s.subrange(i, i + 2)[1]);
    }
}

pub proof fn lemma_be_u32(v: u32)
    ensures
        be_u32(v).len() == 4,
        forall|s: Seq<u8>, i: int|
            0 <= i && i + 4 <= s.len() && s.subrange(i, i + 4) == be_u32(v) ==> get_u32(s, i)
                == v,
{
    assert forall|s: Seq<u8>, i: int|
        0 <= i && i + 4 <= s.len() && s.subrange(i, i + 4) == be_u32(v) implies get_u32(s, i)
        == v by {
        assert(s[i] == s.subrange(i, i + 4)[0]);
        assert(s[i + 1] == s.subrange(i, i + 4)[1]);
        assert(s[i + 2] == s.subrange(i, i + 4)[2]);
        assert(s[i + 3] == s.subrange(i, i + 4)[3]);
    }
}

pub proof fn lemma_be_u64(v: u64)
    ensures
        be_u64(v).len() == 8,
        forall|s: Seq<u8>, i: int|
            0 <= i && i + 8 <= s.len() && s.subrange(i, i + 8) == be_u64(v) ==> get_u64(s, i)
                == v,
{
    let hi = (v / 0x1_0000_0000) as u32;
    let lo = (v % 0x1_0000_0000) as u32;
    lemma_be_u32(hi);
    lemma_be_u32(lo);
    assert forall|s: Seq<u8>, i: int|
        0 <= i && i + 8 <= s.len() && s.subrange(i, i + 8) == be_u64(v) implies get_u64(s, i)
        == v by {
        assert(s.subrange(i, i + 4) =~= s.subrange(i, i + 8).subrange(0, 4));
        assert(s.subrange(i + 4, i + 8) =~= s.subrange(i, i + 8).subrange(4, 8));
        assert(be_u64(v).subrange(0, 4) =~= be_u32(hi));
        assert(be_u64(v).subrange(4, 8) =~= be_u32(lo));
    }
}

/// Signed values round-trip through their two's complement bits.
pub proof fn lemma_signed_bits()
    ensures
        forall|v: i8| #[trigger] i8_of(i8_bits(v)) == v,
        forall|v: i16| #[trigger] i16_of(i16_bits(v)) == v,
        forall|v: i32| #[trigger] i32_of(i32_bits(v)) == v,
        forall|v: i64| #[trigger] i64_of(i64_bits(v)) == v,
{
}

// ---------------------------------------------------------------------------
// Writers (append to a byte vector)
// ---------------------------------------------------------------------------

pub(crate) fn put_u8(out: &mut Vec<u8>, v: u8)
    ensures
        final(out)@ == old(out)@.push(v),
{
    out.push(v);
}

pub(crate) fn put_u16(out: &mut Vec<u8>, v: u16)
    ensures
        final(out)@ == old(out)@ + be_u16(v),
{
    let ghost start = out@;
    out.push((v / 0x100) as u8);
    out.push((v % 0x100) as u8);
    assert(out@ =~= start + be_u16(v));
}

pub(crate) fn put_u32(out: &mut Vec<u8>, v: u32)
    ensures
        final(out)@ == old(out)@ + be_u32(v),
{
    let ghost start = out@;
    out.push((v / 0x100_0000) as u8);
    out.push(((v / 0x1_0000) % 0x100) as u8);
    out.push(((v / 0x100) % 0x100) as u8);
    out.push((v % 0x100) as u8);
    assert(out@ =~= start + be_u32(v));
}

pub(crate) fn put_u64(out: &mut Vec<u8>, v: u64)
    ensures
        final(out)@ == old(out)@ + be_u64(v),
{
    let ghost start = out@;
    put_u32(out, (v / 0x1_0000_0000) as u32);
    put_u32(out, (v % 0x1_0000_0000) as u32);
    assert(out@ =~= start + be_u64(v));
}

pub(crate) fn put_i8(out: &mut Vec<u8>, v: i8)
    ensures
        final(out)@ == old(out)@.push(i8_bits(v)),
{
    let bits: u8 = if v >= 0 { v as u8 } else { (v as i16 + 0x100) as u8 };
    out.push(bits);
}

pub(crate) fn put_i16(out: &mut Vec<u8>, v: i16)
    ensures
        final(out)@ == old(out)@ + be_u16(i16_bits(v)),
{
    let bits: u16 = if v >= 0 { v as u16 } else { (v as i32 + 0x1_0000) as u16 };
    put_u16(out, bits);
}

pub(crate) fn put_i32(out: &mut Vec<u8>, v: i32)
    ensures
        final(out)@ == old(out)@ + be_u32(i32_bits(v)),
{
    let bits: u32 = if v >= 0 { v as u32 } else { (v as i64 + 0x1_0000_0000) as u32 };
    put_u32(out, bits);
}

pub(crate) fn put_i64(out: &mut Vec<u8>, v: i64)
    ensures
        final(out)@ == old(out)@ + be_u64(i64_bits(v)),
{
    let bits: u64 = if v >= 0 {
        v as u64
    } else {
        (v as i128 + 0x1_0000_0000_0000_0000) as u64
    };
    put_u64(out, bits);
}

/// Appends the bytes of `bytes` to `out`.
pub(crate) fn put_bytes(out: &mut Vec<u8>, bytes: &[u8])
    ensures
        final(out)@ == old(out)@ + bytes@,
{
    let ghost start = out@;
    let mut i: usize = 0;
    while i < bytes.len()
        invariant
            i <= bytes@.len(),
            out@ == start + bytes@.subrange(0, i as int),
        decreases bytes@.len() - i,
    {
        out.push(bytes[i]);
        i += 1;
        assert(out@ =~= start + bytes@.subrange(0, i as int));
    }
    assert(bytes@.subrange(0, i as int) =~= bytes@);
}

/// Appends `n` zero bytes to `out`.
pub(crate) fn put_zeros(out: &mut Vec<u8>, n: usize)
    ensures
        final(out)@ == old(out)@ + Seq::new(n as nat, |_i: int| 0u8),
{
    let ghost start = out@;
    let mut i: usize = 0;
    while i < n
        invariant
            i <= n,
            out@ == start + Seq::new(i as nat, |_i: int| 0u8),
        decreases n - i,
    {
        out.push(0);
        i += 1;
        assert(out@ =~= start + Seq::new(i as nat, |_i: int| 0u8));
    }
}

// ---------------------------------------------------------------------------
// Readers (at an offset of a byte slice)
// ---------------------------------------------------------------------------

pub(crate) fn get_u8_at(buf: &[u8], offset: &mut usize) -> (r: Result<u8>)
    requires
        *old(offset) <= buf@.len(),
    ensures
        r is Ok <==> *old(offset) + 1 <= buf@.len(),
        r matches Ok(v) ==> v == buf@[*old(offset) as int] && *final(offset) == *old(offset) + 1,
        r matches Err(e) ==> e.kind == ErrorKind::InsufficientBuffer && *final(offset) == *old(
            offset,
        ),
{
    if buf.len() - *offset < 1 {
        return Err(Error::insufficient_buffer());
    }
    let v = buf[*offset];
    *offset = *offset + 1;
    Ok(v)
}

pub(crate) fn get_u16_at(buf: &[u8], offset: &mut usize) -> (r: Result<u16>)
    requires
        *old(offset) <= buf@.len(),
    ensures
        r is Ok <==> *old(offset) + 2 <= buf@.len(),
        r matches Ok(v) ==> v == get_u16(buf@, *old(offset) as int) && *final(offset) == *old(
            offset,
        ) + 2,
        r matches Err(e) ==> e.kind == ErrorKind::InsufficientBuffer && *final(offset) == *old(
            offset,
        ),
{
    if buf.len() - *offset < 2 {
        return Err(Error::insufficient_buffer());
    }
    let o = *offset;
    let v: u16 = (buf[o] as u16) * 0x100 + buf[o + 1] as u16;
    *offset = o + 2;
    Ok(v)
}

pub(crate) fn get_u32_at(buf: &[u8], offset: &mut usize) -> (r: Result<u32>)
    requires
        *old(offset) <= buf@.len(),
    ensures
        r is Ok <==> *old(offset) + 4 <= buf@.len(),
        r matches Ok(v) ==> v == get_u32(buf@, *old(offset) as int) && *final(offset) == *old(
            offset,
        ) + 4,
        r matches Err(e) ==> e.kind == ErrorKind::InsufficientBuffer && *final(offset) == *old(
            offset,
        ),
{
    if buf.len() - *offset < 4 {
        return Err(Error::insufficient_buffer());
    }
    let o = *offset;
    let v: u32 = (buf[o] as u32) * 0x100_0000 + (buf[o + 1] as u32) * 0x1_0000 + (buf[o + 2]
        as u32) * 0x100 + buf[o + 3] as u32;
    *offset = o + 4;
    Ok(v)
}

pub(crate) fn get_u64_at(buf: &[u8], offset: &mut usize) -> (r: Result<u64>)
    requires
        *old(offset) <= buf@.len(),
    ensures
        r is Ok <==> *old(offset) + 8 <= buf@.len(),
        r matches Ok(v) ==> v == get_u64(buf@, *old(offset) as int) && *final(offset) == *old(
            offset,
        ) + 8,
        r matches Err(e) ==> e.kind == ErrorKind::InsufficientBuffer && *final(offset) == *old(
            offset,
        ),
{
    if buf.len() - *offset < 8 {
        return Err(Error::insufficient_buffer());
    }
    let hi = get_u32_at(buf, offset)?;
    let lo = get_u32_at(buf, offset)?;
    Ok((hi as u64) * 0x1_0000_0000 + lo as u64)
}

pub(crate) fn get_i8_at(buf: &[u8], offset: &mut usize) -> (r: Result<i8>)
    requires
        *old(offset) <= buf@.len(),
    ensures
        r is Ok <==> *old(offset) + 1 <= buf@.len(),
        r matches Ok(v) ==> v == i8_of(buf@[*old(offset) as int]) && *final(offset) == *old(offset)
            + 1,
        r matches Err(e) ==> e.kind == ErrorKind::InsufficientBuffer && *final(offset) == *old(
            offset,
        ),
{
    let u = get_u8_at(buf, offset)?;
    Ok(
        if u < 0x80 {
            u as i8
        } else {
            (u as i16 - 0x100) as i8
        },
    )
}

pub(crate) fn get_i16_at(buf: &[u8], offset: &mut usize) -> (r: Result<i16>)
    requires
        *old(offset) <= buf@.len(),
    ensures
        r is Ok <==> *old(offset) + 2 <= buf@.len(),
        r matches Ok(v) ==> v == i16_of(get_u16(buf@, *old(offset) as int)) && *final(offset)
            == *old(offset) + 2,
        r matches Err(e) ==> e.kind == ErrorKind::InsufficientBuffer && *final(offset) == *old(
            offset,
        ),
{
    let u = get_u16_at(buf, offset)?;
    Ok(
        if u < 0x8000 {
            u as i16
        } else {
            (u as i32 - 0x1_0000) as i16
        },
    )
}

pub(crate) fn get_i32_at(buf: &[u8], offset: &mut usize) -> (r: Result<i32>)
    requires
        *old(offset) <= buf@.len(),
    ensures
        r is Ok <==> *old(offset) + 4 <= buf@.len(),
        r matches Ok(v) ==> v == i32_of(get_u32(buf@, *old(offset) as int)) && *final(offset)
            == *old(offset) + 4,
        r matches Err(e) ==> e.kind == ErrorKind::InsufficientBuffer && *final(offset) == *old(
            offset,
        ),
{
    let u = get_u32_at(buf, offset)?;
    Ok(
        if u < 0x8000_0000 {
            u as i32
        } else {
            (u as i64 - 0x1_0000_0000) as i32
        },
    )
}

pub(crate) fn get_i64_at(buf: &[u8], offset: &mut usize) -> (r: Result<i64>)
    requires
        *old(offset) <= buf@.len(),
    ensures
        r is Ok <==> *old(offset) + 8 <= buf@.len(),
        r matches Ok(v) ==> v == i64_of(get_u64(buf@, *old(offset) as int)) && *final(offset)
            == *old(offset) + 8,
        r matches Err(e) ==> e.kind == ErrorKind::InsufficientBuffer && *final(offset) == *old(
            offset,
        ),
{
    let u = get_u64_at(buf, offset)?;
    Ok(
        if u < 0x8000_0000_0000_0000 {
            u as i64
        } else {
            (u as i128 - 0x1_0000_0000_0000_0000) as i64
        },
    )
}

/// Copies `n` bytes at the offset into a new vector.
pub(crate) fn get_bytes_at(buf: &[u8], offset: &mut usize, n: usize) -> (r: Result<Vec<u8>>)
    requires
        *old(offset) <= buf@.len(),
    ensures
        r is Ok <==> *old(offset) + n <= buf@.len(),
        r matches Ok(v) ==> v@ == buf@.subrange(*old(offset) as int, *old(offset) + n)
            && *final(offset) == *old(offset) + n,
        r matches Err(e) ==> e.kind == ErrorKind::InsufficientBuffer && *final(offset) == *old(
            offset,
        ),
{
    if buf.len() - *offset < n {
        return Err(Error::insufficient_buffer());
    }
    let o = *offset;
    let end = o + n;
    let mut v: Vec<u8> = Vec::new();
    let mut j: usize = o;
    while j < end
        invariant
            o <= j <= end,
            end <= buf@.len(),
            v@ == buf@.subrange(o as int, j as int),
        decreases end - j,
    {
        v.push(buf[j]);
        j += 1;
        assert(v@ =~= buf@.subrange(o as int, j as int));
    }
    *offset = o + n;
    Ok(v)
}

/// Skips `n` bytes (reserved or ignored fields) at the offset.
pub(crate) fn skip_at(buf: &[u8], offset: &mut usize, n: usize) -> (r: Result<()>)
    requires
        *old(offset) <= buf@.len(),
    ensures
        r is Ok <==> *old(offset) + n <= buf@.len(),
        r is Ok ==> *final(offset) == *old(offset) + n,
        r matches Err(e) ==> e.kind == ErrorKind::InsufficientBuffer && *final(offset) == *old(
            offset,
        ),
{
    if buf.len() - *offset < n {
        return Err(Error::insufficient_buffer());
    }
    *offset = *offset + n;
    Ok(())
}

// ---------------------------------------------------------------------------
// Traits
// ---------------------------------------------------------------------------

/// Types that can be turned into bytes.
pub trait Encode {
    /// Whether the value fits the byte format (for example, box sizes that fit 32 bits).
    spec fn spec_encodable(&self) -> bool;

    /// The bytes that encode the value.
    spec fn spec_encoding(&self) -> Seq<u8>;

    /// Appends the bytes of `self` to `out`.
    ///
    /// Fails with [`ErrorKind::InvalidInput`] when the value cannot be encoded.
    fn encode_into(&self, out: &mut Vec<u8>) -> (r: Result<()>)
        ensures
            r is Ok <==> self.spec_encodable(),
            r is Ok ==> final(out)@ == old(out)@ + self.spec_encoding(),
            r matches Err(e) ==> e.kind == ErrorKind::InvalidInput,
    ;

    /// Writes the bytes of `self` at the start of `buf` and returns how many were written.
    ///
    /// Fails with [`ErrorKind::InsufficientBuffer`] when `buf` is too small.
    fn encode(&self, buf: &mut [u8]) -> (r: Result<usize>)
        ensures
            r is Ok <==> self.spec_encodable() && self.spec_encoding().len() <= old(buf)@.len(),
            final(buf)@.len() == old(buf)@.len(),
            r matches Ok(n) ==> n == self.spec_encoding().len() && final(buf)@
                == self.spec_encoding() + old(buf)@.skip(n as int),
            r matches Err(e) ==> if self.spec_encodable() {
                e.kind == ErrorKind::InsufficientBuffer
            } else {
                e.kind == ErrorKind::InvalidInput
            },
    {
        let mut bytes: Vec<u8> = Vec::new();
        self.encode_into(&mut bytes)?;
        assert(bytes@ =~= self.spec_encoding());
        if buf.len() < bytes.len() {
            return Err(Error::insufficient_buffer());
        }
        let ghost original = buf@;
        let n = bytes.len();
        let mut i: usize = 0;
        while i < n
            invariant
                n == bytes@.len(),
                n <= buf@.len(),
                i <= n,
                buf@.len() == original.len(),
                forall|j: int| 0 <= j < i ==> buf@[j] == bytes@[j],
                forall|j: int| n <= j < buf@.len() ==> buf@[j] == original[j],
            decreases n - i,
        {
            buf[i] = bytes[i];
            i += 1;
        }
        assert(buf@ =~= bytes@ + original.skip(n as int));
        Ok(n)
    }

    /// Returns the bytes of `self` as a new vector.
    fn encode_to_vec(&self) -> (r: Result<Vec<u8>>)
        ensures
            r is Ok <==> self.spec_encodable(),
            r matches Ok(v) ==> v@ == self.spec_encoding(),
            r matches Err(e) ==> e.kind == ErrorKind::InvalidInput,
    {
        let mut bytes: Vec<u8> = Vec::new();
        self.encode_into(&mut bytes)?;
        assert(bytes@ =~= self.spec_encoding());
        Ok(bytes)
    }
}

/// Types that can be read back from bytes.
pub trait Decode: Sized {
    /// Whether a value can be read from the start of `s`.
    spec fn spec_can_decode(s: Seq<u8>) -> bool;

    /// How many bytes a read from the start of `s` consumes.
    spec fn spec_decoded_len(s: Seq<u8>) -> int;

    /// Whether `v` is the value read from the start of `s`.
    spec fn spec_decoded(s: Seq<u8>, v: Self) -> bool;

    /// Reads a value from the start of `buf`, and returns it with the number of bytes consumed.
    fn decode(buf: &[u8]) -> (r: Result<(Self, usize)>)
        ensures
            r is Ok <==> Self::spec_can_decode(buf@),
            r matches Ok((v, n)) ==> Self::spec_decoded(buf@, v) && n == Self::spec_decoded_len(
                buf@,
            ) && n <= buf@.len(),
    ;

    /// Reads a value at `*offset` and advances the offset past it.
    fn decode_at(buf: &[u8], offset: &mut usize) -> (r: Result<Self>)
        requires
            *old(offset) <= buf@.len(),
        ensures
            r is Ok <==> Self::spec_can_decode(buf@.skip(*old(offset) as int)),
            r matches Ok(v) ==> Self::spec_decoded(buf@.skip(*old(offset) as int), v)
                && *final(offset) == *old(offset) + Self::spec_decoded_len(
                buf@.skip(*old(offset) as int),
            ) && *final(offset) <= buf@.len(),
            r is Err ==> *final(offset) == *old(offset),
    {
        let rest = vstd::slice::slice_subrange(buf, *offset, buf.len());
        assert(rest@ =~= buf@.skip(*offset as int));
        let (v, n) = Self::decode(rest)?;
        *offset = *offset + n;
        Ok(v)
    }
}

impl Encode for u8 {
    open spec fn spec_encodable(&self) -> bool {
        true
    }

    open spec fn spec_encoding(&self) -> Seq<u8> {
        seq![*self]
    }

    fn encode_into(&self, out: &mut Vec<u8>) -> (r: Result<()>) {
        put_u8(out, *self);
        assert(out@ =~= old(out)@ + seq![*self]);
        Ok(())
    }
}

impl Encode for u16 {
    open spec fn spec_encodable(&self) -> bool {
        true
    }

    open spec fn spec_encoding(&self) -> Seq<u8> {
        be_u16(*self)
    }

    fn encode_into(&self, out: &mut Vec<u8>) -> (r: Result<()>) {
        put_u16(out, *self);
        Ok(())
    }
}

impl Encode for u32 {
    open spec fn spec_encodable(&self) -> bool {
        true
    }

    open spec fn spec_encoding(&self) -> Seq<u8> {
        be_u32(*self)
    }

    fn encode_into(&self, out: &mut Vec<u8>) -> (r: Result<()>) {
        put_u32(out, *self);
        Ok(())
    }
}

impl Encode for u64 {
    open spec fn spec_encodable(&self) -> bool {
        true
    }

    open spec fn spec_encoding(&self) -> Seq<u8> {
        be_u64(*self)
    }

    fn encode_into(&self, out: &mut Vec<u8>) -> (r: Result<()>) {
        put_u64(out, *self);
        Ok(())
    }
}

impl Encode for i16 {
    open spec fn spec_encodable(&self) -> bool {
        true
    }

    open spec fn spec_encoding(&self) -> Seq<u8> {
        be_u16(i16_bits(*self))
    }

    fn encode_into(&self, out: &mut Vec<u8>) -> (r: Result<()>) {
        put_i16(out, *self);
        Ok(())
    }
}

impl Encode for i32 {
    open spec fn spec_encodable(&self) -> bool {
        true
    }

    open spec fn spec_encoding(&self) -> Seq<u8> {
        be_u32(i32_bits(*self))
    }

    fn encode_into(&self, out: &mut Vec<u8>) -> (r: Result<()>) {
        put_i32(out, *self);
        Ok(())
    }
}

impl Encode for i64 {
    open spec fn spec_encodable(&self) -> bool {
        true
    }

    open spec fn spec_encoding(&self) -> Seq<u8> {
        be_u64(i64_bits(*self))
    }

    fn encode_into(&self, out: &mut Vec<u8>) -> (r: Result<()>) {
        put_i64(out, *self);
        Ok(())
    }
}

impl Decode for u8 {
    open spec fn spec_can_decode(s: Seq<u8>) -> bool {
        s.len() >= 1
    }

    open spec fn spec_decoded_len(s: Seq<u8>) -> int {
        1
    }

    open spec fn spec_decoded(s: Seq<u8>, v: Self) -> bool {
        v == s[0]
    }

    fn decode(buf: &[u8]) -> (r: Result<(Self, usize)>) {
        let mut offset: usize = 0;
        let v = get_u8_at(buf, &mut offset)?;
        Ok((v, 1))
    }
}

impl Decode for u16 {
    open spec fn spec_can_decode(s: Seq<u8>) -> bool {
        s.len() >= 2
    }

    open spec fn spec_decoded_len(s: Seq<u8>) -> int {
        2
    }

    open spec fn spec_decoded(s: Seq<u8>, v: Self) -> bool {
        v == get_u16(s, 0)
    }

    fn decode(buf: &[u8]) -> (r: Result<(Self, usize)>) {
        let mut offset: usize = 0;
        let v = get_u16_at(buf, &mut offset)?;
        Ok((v, 2))
    }
}

impl Decode for u32 {
    open spec fn spec_can_decode(s: Seq<u8>) -> bool {
        s.len() >= 4
    }

    open spec fn spec_decoded_len(s: Seq<u8>) -> int {
        4
    }

    open spec fn spec_decoded(s: Seq<u8>, v: Self) -> bool {
        v == get_u32(s, 0)
    }

    fn decode(buf: &[u8]) -> (r: Result<(Self, usize)>) {
        let mut offset: usize = 0;
        let v = get_u32_at(buf, &mut offset)?;
        Ok((v, 4))
    }
}

impl Decode for u64 {
    open spec fn spec_can_decode(s: Seq<u8>) -> bool {
        s.len() >= 8
    }

    open spec fn spec_decoded_len(s: Seq<u8>) -> int {
        8
    }

    open spec fn spec_decoded(s: Seq<u8>, v: Self) -> bool {
        v == get_u64(s, 0)
    }

    fn decode(buf: &[u8]) -> (r: Result<(Self, usize)>) {
        let mut offset: usize = 0;
        let v = get_u64_at(buf, &mut offset)?;
        Ok((v, 8))
    }
}

impl Decode for i16 {
    open spec fn spec_can_decode(s: Seq<u8>) -> bool {
        s.len() >= 2
    }

    open spec fn spec_decoded_len(s: Seq<u8>) -> int {
        2
    }

    open spec fn spec_decoded(s: Seq<u8>, v: Self) -> bool {
        v == i16_of(get_u16(s, 0))
    }

    fn decode(buf: &[u8]) -> (r: Result<(Self, usize)>) {
        let mut offset: usize = 0;
        let v = get_i16_at(buf, &mut offset)?;
        Ok((v, 2))
    }
}

impl Decode for i32 {
    open spec fn spec_can_decode(s: Seq<u8>) -> bool {
        s.len() >= 4
    }

    open spec fn spec_decoded_len(s: Seq<u8>) -> int {
        4
    }

    open spec fn spec_decoded(s: Seq<u8>, v: Self) -> bool {
        v == i32_of(get_u32(s, 0))
    }

    fn decode(buf: &[u8]) -> (r: Result<(Self, usize)>) {
        let mut offset: usize = 0;
        let v = get_i32_at(buf, &mut offset)?;
        Ok((v, 4))
    }
}

impl Decode for i64 {
    open spec fn spec_can_decode(s: Seq<u8>) -> bool {
        s.len() >= 8
    }

    open spec fn spec_decoded_len(s: Seq<u8>) -> int {
        8
    }

    open spec fn spec_decoded(s: Seq<u8>, v: Self) -> bool {
        v == i64_of(get_u64(s, 0))
    }

    fn decode(buf: &[u8]) -> (r: Result<(Self, usize)>) {
        let mut offset: usize = 0;
        let v = get_i64_at(buf, &mut offset)?;
        Ok((v, 8))
    }
}

} // verus!
