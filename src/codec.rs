//! Little-endian encoding of integers, typed values and tuple pointers.
use vstd::prelude::*;
use vstd::utf8::*;

verus! {

/// The type of a key or column value.
#[derive(Clone, Copy, Debug, PartialEq, Eq, Structural)]
pub enum SType {
    INT,
    STRING,
}

/// A typed value: a 4-byte signed integer or a UTF-8 string.
#[derive(Clone, Debug, PartialEq, Eq)]
pub enum SData {
    INT(i32),
    STRING(String),
}

/// The physical location of a tuple: a page number and a byte offset inside it.
#[derive(Clone, Copy, Debug, PartialEq, Eq, Structural)]
pub struct TuplePointer {
    pub page: u32,
    pub offset: u16,
}

/// Width in bytes of an encoded tuple pointer.
pub const TUPLE_POINTER_SIZE: usize = 6;

/// Tag byte that names a value type on disk.
pub open spec fn stype_tag(t: SType) -> u8 {
    match t {
        SType::INT => 0u8,
        SType::STRING => 1u8,
    }
}

pub open spec fn stype_of(d: SData) -> SType {
    match d {
        SData::INT(_) => SType::INT,
        SData::STRING(_) => SType::STRING,
    }
}

/// The two's-complement bit pattern of `v`.
pub open spec fn i32_bits(v: i32) -> u32 {
    if v >= 0 { v as u32 } else { (v + 4294967296int) as u32 }
}

/// The signed integer whose two's-complement bit pattern is `w`.
pub open spec fn i32_of_bits(w: u32) -> i32 {
    if w < 0x8000_0000 { w as i32 } else { (w - 4294967296int) as i32 }
}

pub fn i32_to_bits(v: i32) -> (r: u32)
    ensures
        r == i32_bits(v),
{
    if v >= 0 { v as u32 } else { (v as i64 + 4294967296i64) as u32 }
}

pub fn bits_to_i32(w: u32) -> (r: i32)
    ensures
        r == i32_of_bits(w),
{
    if w < 0x8000_0000 { w as i32 } else { (w as i64 - 4294967296i64) as i32 }
}

/// The encoding of a value: an integer as its 4 two's-complement bytes, a string
/// as its 4-byte byte length followed by its UTF-8 bytes.
pub open spec fn sdata_bytes(d: SData) -> Seq<u8> {
    match d {
        SData::INT(v) => u32_bytes(i32_bits(v)),
        SData::STRING(s) => u32_bytes(encode_utf8(s@).len() as u32) + encode_utf8(s@),
    }
}

/// A value can be encoded when a string's byte length fits the 4-byte prefix.
pub open spec fn sdata_encodable(d: SData) -> bool {
    match d {
        SData::INT(_) => true,
        SData::STRING(s) => encode_utf8(s@).len() + 4 <= u32::MAX,
    }
}

pub open spec fn tuple_pointer_bytes(p: TuplePointer) -> Seq<u8> {
    u32_bytes(p.page) + u16_bytes(p.offset)
}

/// Result of the lossy UTF-8 decoding of a byte sequence.
pub uninterp spec fn lossy_utf8(b: Seq<u8>) -> Seq<char>;

/// Relies on `String::from_utf8_lossy`: its result depends on the bytes alone,
/// and valid UTF-8 is decoded exactly.
#[verifier::external_body]
pub(crate) fn decode_utf8_lossy(b: &[u8]) -> (r: String)
    ensures
        r@ == lossy_utf8(b@),
        valid_utf8(b@) ==> r@ == decode_utf8(b@),
{
    String::from_utf8_lossy(b).into_owned()
}

/// The value of two little-endian bytes.
pub open spec fn le16(b0: u8, b1: u8) -> int {
    b0 as int + 256 * (b1 as int)
}

/// The value of four little-endian bytes.
pub open spec fn le32(b0: u8, b1: u8, b2: u8, b3: u8) -> int {
    b0 as int + 256 * (b1 as int) + 65536 * (b2 as int) + 16777216 * (b3 as int)
}

/// Bytes of `x`, least significant first.
pub open spec fn u16_bytes(x: u16) -> Seq<u8> {
    seq![(x % 256) as u8, (x / 256) as u8]
}

pub open spec fn u32_bytes(x: u32) -> Seq<u8> {
    seq![
        (x % 256) as u8,
        ((x / 256) % 256) as u8,
        ((x / 65536) % 256) as u8,
        (x / 16777216) as u8,
    ]
}

/// Reads a little-endian `u16` at `at`.
pub fn read_u16_le(b: &[u8], at: usize) -> (r: u16)
    requires
        at + 2 <= b@.len(),
    ensures
        r as int == le16(b@[at as int], b@[at + 1]),
{
    let lo = b[at] as u16;
    let hi = b[at + 1] as u16;
    lo + hi * 256
}

/// Reads a little-endian `u32` at `at`.
pub fn read_u32_le(b: &[u8], at: usize) -> (r: u32)
    requires
        at + 4 <= b@.len(),
    ensures
        r as int == le32(b@[at as int], b@[at + 1], b@[at + 2], b@[at + 3]),
{
    let b0 = b[at] as u32;
    let b1 = b[at + 1] as u32;
    let b2 = b[at + 2] as u32;
    let b3 = b[at + 3] as u32;
    b0 + b1 * 256 + b2 * 65536 + b3 * 16777216
}

/// Appends the little-endian bytes of `x`.
pub fn push_u16_le(out: &mut Vec<u8>, x: u16)
    ensures
        final(out)@ == old(out)@ + u16_bytes(x),
{
    out.push((x % 256) as u8);
    out.push((x / 256) as u8);
    assert(final(out)@ =~= old(out)@ + u16_bytes(x));
}

pub fn push_u32_le(out: &mut Vec<u8>, x: u32)
    ensures
        final(out)@ == old(out)@ + u32_bytes(x),
{
    out.push((x % 256) as u8);
    out.push(((x / 256) % 256) as u8);
    out.push(((x / 65536) % 256) as u8);
    out.push((x / 16777216) as u8);
    assert(final(out)@ =~= old(out)@ + u32_bytes(x));
}

pub proof fn lemma_u16_round_trip(x: u16)
    ensures
        le16(u16_bytes(x)[0], u16_bytes(x)[1]) == x as int,
{
}

pub proof fn lemma_u32_round_trip(x: u32)
    ensures
        le32(u32_bytes(x)[0], u32_bytes(x)[1], u32_bytes(x)[2], u32_bytes(x)[3]) == x as int,
{
}


impl SType {
    /// Decodes a type tag byte.
    pub fn from_tag(tag: u8) -> (r: Result<SType, String>)
        ensures
            r is Ok <==> tag <= 1,
            r matches Ok(t) ==> stype_tag(t) == tag,
    {
        if tag == 0 {
            Ok(SType::INT)
        } else if tag == 1 {
            Ok(SType::STRING)
        } else {
            Err("Unknown key type".to_string())
        }
    }

    pub fn tag(&self) -> (r: u8)
        ensures
            r == stype_tag(*self),
    {
        match self {
            SType::INT => 0,
            SType::STRING => 1,
        }
    }
}

impl SData {
    pub fn get_type(&self) -> (r: SType)
        ensures
            r == stype_of(*self),
    {
        match self {
            SData::INT(_) => SType::INT,
            SData::STRING(_) => SType::STRING,
        }
    }

    /// Number of bytes that `serialize` appends.
    pub fn serialized_size(&self) -> (r: u32)
        requires
            sdata_encodable(*self),
        ensures
            r as int == 4 + match *self {
                SData::INT(_) => 0int,
                SData::STRING(s) => encode_utf8(s@).len() as int,
            },
            r as int == sdata_bytes(*self).len(),
    {
        match self {
            SData::INT(_) => 4,
            SData::STRING(s) => 4 + s.as_str().len() as u32,
        }
    }

    /// Appends the encoding of the value to `buffer`.
    pub fn serialize(&self, buffer: &mut Vec<u8>)
        requires
            sdata_encodable(*self),
        ensures
            final(buffer)@ == old(buffer)@ + sdata_bytes(*self),
    {
        match self {
            SData::INT(v) => {
                push_u32_le(buffer, i32_to_bits(*v));
            },
            SData::STRING(s) => {
                let bytes = s.as_str().as_bytes();
                push_u32_le(buffer, bytes.len() as u32);
                let ghost before = buffer@;
                let mut i: usize = 0;
                while i < bytes.len()
                    invariant
                        i <= bytes@.len(),
                        buffer@ == before + bytes@.subrange(0, i as int),
                    decreases bytes@.len() - i,
                {
                    buffer.push(bytes[i]);
                    i += 1;
                    assert(buffer@ =~= before + bytes@.subrange(0, i as int));
                }
                assert(bytes@.subrange(0, bytes@.len() as int) =~= bytes@);
            },
        }
    }

    /// Decodes a value of type `ty` from the front of `buffer`; returns it and the
    /// number of bytes read.
    pub fn deserialize(buffer: &[u8], ty: SType) -> (r: Result<(SData, usize), String>)
        ensures
            r is Ok <==> sdata_decodable(buffer@, ty),
            r matches Ok(p) ==> stype_of(p.0) == ty,
            r matches Ok(p) ==> p.1 == sdata_width(buffer@, ty),
            r matches Ok(p) ==> sdata_view(p.0) == sdata_decode(buffer@, ty),
    {
        if buffer.len() < 4 {
            return Err("Slice with incorrect length".to_string());
        }
        let word = read_u32_le(buffer, 0);
        match ty {
            SType::INT => {
                let v = bits_to_i32(word);
                Ok((SData::INT(v), 4))
            },
            SType::STRING => {
                let len = word as usize;
                if buffer.len() - 4 < len {
                    return Err("Slice with incorrect length".to_string());
                }
                let s = decode_utf8_lossy(&buffer[4..4 + len]);
                Ok((SData::STRING(s), 4 + len))
            },
        }
    }
}

/// The 4-byte word at the front of `b`.
pub open spec fn word_at(b: Seq<u8>, at: int) -> int {
    le32(b[at], b[at + 1], b[at + 2], b[at + 3])
}

pub open spec fn sdata_width(b: Seq<u8>, ty: SType) -> int {
    match ty {
        SType::INT => 4,
        SType::STRING => 4 + word_at(b, 0),
    }
}

pub open spec fn sdata_decodable(b: Seq<u8>, ty: SType) -> bool {
    b.len() >= 4 && sdata_width(b, ty) <= b.len()
}

/// A value with its string seen as characters.
pub ghost enum SDataView {
    Int(i32),
    Str(Seq<char>),
}

pub open spec fn sdata_view(d: SData) -> SDataView {
    match d {
        SData::INT(v) => SDataView::Int(v),
        SData::STRING(s) => SDataView::Str(s@),
    }
}

/// The characters that bytes decode to: exact for valid UTF-8, lossy otherwise.
pub open spec fn utf8_text(b: Seq<u8>) -> Seq<char> {
    if valid_utf8(b) {
        decode_utf8(b)
    } else {
        lossy_utf8(b)
    }
}

/// The value of type `ty` at the front of `b`.
pub open spec fn sdata_decode(b: Seq<u8>, ty: SType) -> SDataView {
    match ty {
        SType::INT => SDataView::Int(i32_of_bits(word_at(b, 0) as u32)),
        SType::STRING => SDataView::Str(utf8_text(b.subrange(4, 4 + word_at(b, 0)))),
    }
}

/// Decoding the encoding of a value, followed by any bytes, gives the value back and
/// consumes exactly its encoding.
pub proof fn lemma_sdata_round_trip(d: SData, rest: Seq<u8>)
    requires
        sdata_encodable(d),
    ensures
        sdata_decodable(sdata_bytes(d) + rest, stype_of(d)),
        sdata_width(sdata_bytes(d) + rest, stype_of(d)) == sdata_bytes(d).len(),
        sdata_decode(sdata_bytes(d) + rest, stype_of(d)) == sdata_view(d),
{
    let b = sdata_bytes(d) + rest;
    match d {
        SData::INT(v) => {
            lemma_u32_round_trip(i32_bits(v));
        },
        SData::STRING(s) => {
            let n = encode_utf8(s@).len() as u32;
            lemma_u32_round_trip(n);
            assert(word_at(b, 0) == n);
            assert(b.subrange(4, 4 + word_at(b, 0)) =~= encode_utf8(s@));
            encode_utf8_valid_utf8(s@);
            encode_utf8_decode_utf8(s@);
        },
    }
}

/// Decoding a tuple pointer's encoding, followed by any bytes, gives it back.
pub proof fn lemma_tuple_pointer_round_trip(p: TuplePointer, rest: Seq<u8>)
    ensures
        tuple_pointer_bytes(p).len() == TUPLE_POINTER_SIZE,
        tuple_pointer_decode(tuple_pointer_bytes(p) + rest, 0) == p,
{
    lemma_u32_round_trip(p.page);
    lemma_u16_round_trip(p.offset);
}

/// The tuple pointer encoded at `at`.
pub open spec fn tuple_pointer_decode(b: Seq<u8>, at: int) -> TuplePointer {
    TuplePointer { page: word_at(b, at) as u32, offset: le16(b[at + 4], b[at + 5]) as u16 }
}

impl TuplePointer {
    /// Appends the 6-byte encoding: page number, then offset, both little-endian.
    pub fn serialize(&self, buffer: &mut Vec<u8>)
        ensures
            final(buffer)@ == old(buffer)@ + tuple_pointer_bytes(*self),
    {
        push_u32_le(buffer, self.page);
        push_u16_le(buffer, self.offset);
        assert(final(buffer)@ =~= old(buffer)@ + tuple_pointer_bytes(*self));
    }

    /// Decodes a tuple pointer at `at`.
    pub fn deserialize(buffer: &[u8], at: usize) -> (r: Result<TuplePointer, String>)
        ensures
            r is Ok <==> at + TUPLE_POINTER_SIZE <= buffer@.len(),
            r matches Ok(p) ==> p == tuple_pointer_decode(buffer@, at as int),
    {
        if buffer.len() < TUPLE_POINTER_SIZE || at > buffer.len() - TUPLE_POINTER_SIZE {
            return Err("Slice with incorrect length".to_string());
        }
        let page = read_u32_le(buffer, at);
        let offset = read_u16_le(buffer, at + 4);
        Ok(TuplePointer { page, offset })
    }
}

} // verus!
