//! Formats and scalar types of PLY data.

use vstd::prelude::*;
use vstd::string::StringSliceAdditionalSpecFns;
use crate::error::{DeserializeCause, DeserializeError};
use crate::words::{
    kw_ascii, kw_ascii_bytes, kw_binary_big_endian, kw_binary_big_endian_bytes,
    kw_binary_little_endian, kw_binary_little_endian_bytes, kw_char, kw_char_bytes, kw_double,
    kw_double_bytes, kw_float, kw_float32, kw_float32_bytes, kw_float64, kw_float64_bytes,
    kw_float_bytes, kw_int, kw_int16, kw_int16_bytes, kw_int32, kw_int32_bytes, kw_int8,
    kw_int8_bytes, kw_int_bytes, kw_short, kw_short_bytes, kw_uchar, kw_uchar_bytes, kw_uint,
    kw_uint16, kw_uint16_bytes, kw_uint32, kw_uint32_bytes, kw_uint8, kw_uint8_bytes,
    kw_uint_bytes, kw_ushort, kw_ushort_bytes,
};
use crate::text::eq_bytes;

verus! {

/// How the body of a PLY file is encoded.
#[derive(Clone, Copy, Debug, PartialEq, Eq, Structural)]
pub enum PlyFormat {
    Ascii,
    BinaryLittleEndian,
    BinaryBigEndian,
}

/// The name of a format in a `format` line.
pub open spec fn format_name(f: PlyFormat) -> Seq<u8> {
    match f {
        PlyFormat::Ascii => kw_ascii(),
        PlyFormat::BinaryLittleEndian => kw_binary_little_endian(),
        PlyFormat::BinaryBigEndian => kw_binary_big_endian(),
    }
}

/// The format that a `format` line names, if any.
pub open spec fn format_named(b: Seq<u8>) -> Option<PlyFormat> {
    if b == kw_ascii() {
        Some(PlyFormat::Ascii)
    } else if b == kw_binary_little_endian() {
        Some(PlyFormat::BinaryLittleEndian)
    } else if b == kw_binary_big_endian() {
        Some(PlyFormat::BinaryBigEndian)
    } else {
        None
    }
}

impl PlyFormat {
    /// The name of the format, as the header writes it.
    pub fn name(&self) -> (r: Vec<u8>)
        ensures
            r@ == format_name(*self),
    {
        match self {
            PlyFormat::Ascii => kw_ascii_bytes(),
            PlyFormat::BinaryLittleEndian => kw_binary_little_endian_bytes(),
            PlyFormat::BinaryBigEndian => kw_binary_big_endian_bytes(),
        }
    }

    /// The format that `b` names.
    pub fn from_name(b: &[u8]) -> (r: Option<PlyFormat>)
        ensures
            r == format_named(b@),
    {
        if eq_bytes(b, kw_ascii_bytes().as_slice()) {
            Some(PlyFormat::Ascii)
        } else if eq_bytes(b, kw_binary_little_endian_bytes().as_slice()) {
            Some(PlyFormat::BinaryLittleEndian)
        } else if eq_bytes(b, kw_binary_big_endian_bytes().as_slice()) {
            Some(PlyFormat::BinaryBigEndian)
        } else {
            None
        }
    }
}

/// The scalar types of PLY properties.
#[derive(Clone, Copy, Debug, PartialEq, Eq, Structural)]
pub enum ScalarType {
    I8,
    U8,
    I16,
    U16,
    I32,
    U32,
    F32,
    F64,
}

/// The type that a header word names: each type has a traditional name
/// (`char`, `uchar`, ...) and a sized one (`int8`, `uint8`, ...).
pub open spec fn scalar_type_named(b: Seq<u8>) -> Option<ScalarType> {
    if b == kw_char() || b == kw_int8() {
        Some(ScalarType::I8)
    } else if b == kw_uchar() || b == kw_uint8() {
        Some(ScalarType::U8)
    } else if b == kw_short() || b == kw_int16() {
        Some(ScalarType::I16)
    } else if b == kw_ushort() || b == kw_uint16() {
        Some(ScalarType::U16)
    } else if b == kw_int() || b == kw_int32() {
        Some(ScalarType::I32)
    } else if b == kw_uint() || b == kw_uint32() {
        Some(ScalarType::U32)
    } else if b == kw_float() || b == kw_float32() {
        Some(ScalarType::F32)
    } else if b == kw_double() || b == kw_float64() {
        Some(ScalarType::F64)
    } else {
        None
    }
}

/// The traditional name of a type, which the header writer uses.
pub open spec fn scalar_keyword(t: ScalarType) -> Seq<u8> {
    match t {
        ScalarType::I8 => kw_char(),
        ScalarType::U8 => kw_uchar(),
        ScalarType::I16 => kw_short(),
        ScalarType::U16 => kw_ushort(),
        ScalarType::I32 => kw_int(),
        ScalarType::U32 => kw_uint(),
        ScalarType::F32 => kw_float(),
        ScalarType::F64 => kw_double(),
    }
}

/// The sized name of a type (`int8`, ..., `float64`).
pub open spec fn scalar_sized_name(t: ScalarType) -> Seq<u8> {
    match t {
        ScalarType::I8 => kw_int8(),
        ScalarType::U8 => kw_uint8(),
        ScalarType::I16 => kw_int16(),
        ScalarType::U16 => kw_uint16(),
        ScalarType::I32 => kw_int32(),
        ScalarType::U32 => kw_uint32(),
        ScalarType::F32 => kw_float32(),
        ScalarType::F64 => kw_float64(),
    }
}

/// The number of bytes a value of the type takes in the binary formats.
pub open spec fn scalar_size(t: ScalarType) -> nat {
    match t {
        ScalarType::I8 | ScalarType::U8 => 1,
        ScalarType::I16 | ScalarType::U16 => 2,
        ScalarType::I32 | ScalarType::U32 | ScalarType::F32 => 4,
        ScalarType::F64 => 8,
    }
}

pub open spec fn is_float_type(t: ScalarType) -> bool {
    t == ScalarType::F32 || t == ScalarType::F64
}

impl ScalarType {
    /// Reads a type name of the header.
    pub fn parse(s: &str) -> (r: Result<ScalarType, DeserializeError>)
        ensures
            r == match scalar_type_named(s.spec_bytes()) {
                Some(t) => Ok::<ScalarType, DeserializeError>(t),
                None => Err(DeserializeError(DeserializeCause::UnknownScalarType)),
            },
    {
        match Self::from_name(s.as_bytes()) {
            Some(t) => Ok(t),
            None => Err(DeserializeError(DeserializeCause::UnknownScalarType)),
        }
    }

    /// The type that the bytes `b` name.
    pub fn from_name(b: &[u8]) -> (r: Option<ScalarType>)
        ensures
            r == scalar_type_named(b@),
    {
        if eq_bytes(b, kw_char_bytes().as_slice()) || eq_bytes(b, kw_int8_bytes().as_slice()) {
            Some(ScalarType::I8)
        } else if eq_bytes(b, kw_uchar_bytes().as_slice()) || eq_bytes(b, kw_uint8_bytes().as_slice()) {
            Some(ScalarType::U8)
        } else if eq_bytes(b, kw_short_bytes().as_slice()) || eq_bytes(b, kw_int16_bytes().as_slice()) {
            Some(ScalarType::I16)
        } else if eq_bytes(b, kw_ushort_bytes().as_slice()) || eq_bytes(b, kw_uint16_bytes().as_slice()) {
            Some(ScalarType::U16)
        } else if eq_bytes(b, kw_int_bytes().as_slice()) || eq_bytes(b, kw_int32_bytes().as_slice()) {
            Some(ScalarType::I32)
        } else if eq_bytes(b, kw_uint_bytes().as_slice()) || eq_bytes(b, kw_uint32_bytes().as_slice()) {
            Some(ScalarType::U32)
        } else if eq_bytes(b, kw_float_bytes().as_slice()) || eq_bytes(b, kw_float32_bytes().as_slice()) {
            Some(ScalarType::F32)
        } else if eq_bytes(b, kw_double_bytes().as_slice()) || eq_bytes(b, kw_float64_bytes().as_slice()) {
            Some(ScalarType::F64)
        } else {
            None
        }
    }

    /// The traditional name of the type (`char`, `uchar`, ...).
    pub fn keyword(&self) -> (r: Vec<u8>)
        ensures
            r@ == scalar_keyword(*self),
    {
        match self {
            ScalarType::I8 => kw_char_bytes(),
            ScalarType::U8 => kw_uchar_bytes(),
            ScalarType::I16 => kw_short_bytes(),
            ScalarType::U16 => kw_ushort_bytes(),
            ScalarType::I32 => kw_int_bytes(),
            ScalarType::U32 => kw_uint_bytes(),
            ScalarType::F32 => kw_float_bytes(),
            ScalarType::F64 => kw_double_bytes(),
        }
    }

    /// The sized name of the type (`int8`, ..., `float64`), which is how it displays.
    pub fn sized_name(&self) -> (r: Vec<u8>)
        ensures
            r@ == scalar_sized_name(*self),
    {
        match self {
            ScalarType::I8 => kw_int8_bytes(),
            ScalarType::U8 => kw_uint8_bytes(),
            ScalarType::I16 => kw_int16_bytes(),
            ScalarType::U16 => kw_uint16_bytes(),
            ScalarType::I32 => kw_int32_bytes(),
            ScalarType::U32 => kw_uint32_bytes(),
            ScalarType::F32 => kw_float32_bytes(),
            ScalarType::F64 => kw_float64_bytes(),
        }
    }

    /// The number of bytes a value of the type takes in the binary formats.
    pub fn size(&self) -> (r: usize)
        ensures
            r == scalar_size(*self),
    {
        match self {
            ScalarType::I8 | ScalarType::U8 => 1,
            ScalarType::I16 | ScalarType::U16 => 2,
            ScalarType::I32 | ScalarType::U32 | ScalarType::F32 => 4,
            ScalarType::F64 => 8,
        }
    }

    /// Whether the type is one of the two floating-point types.
    pub fn is_float(&self) -> (r: bool)
        ensures
            r == is_float_type(*self),
    {
        match self {
            ScalarType::F32 | ScalarType::F64 => true,
            _ => false,
        }
    }
}

/// Every type's traditional and sized names both read back as that type.
pub proof fn lemma_scalar_names(t: ScalarType)
    ensures
        scalar_type_named(scalar_keyword(t)) == Some(t),
        scalar_type_named(scalar_sized_name(t)) == Some(t),
{
    assert(kw_int8()[0] != kw_char()[0]);
    assert(kw_uchar().len() != kw_char().len());
    assert(kw_uchar().len() != kw_int8().len());
    assert(kw_uint8().len() != kw_char().len());
    assert(kw_uint8().len() != kw_int8().len());
    assert(kw_uint8()[1] != kw_uchar()[1]);
    assert(kw_short().len() != kw_char().len());
    assert(kw_short().len() != kw_int8().len());
    assert(kw_short()[0] != kw_uchar()[0]);
    assert(kw_short()[0] != kw_uint8()[0]);
    assert(kw_int16().len() != kw_char().len());
    assert(kw_int16().len() != kw_int8().len());
    assert(kw_int16()[0] != kw_uchar()[0]);
    assert(kw_int16()[0] != kw_uint8()[0]);
    assert(kw_int16()[0] != kw_short()[0]);
    assert(kw_ushort().len() != kw_char().len());
    assert(kw_ushort().len() != kw_int8().len());
    assert(kw_ushort().len() != kw_uchar().len());
    assert(kw_ushort().len() != kw_uint8().len());
    assert(kw_ushort().len() != kw_short().len());
    assert(kw_ushort().len() != kw_int16().len());
    assert(kw_uint16().len() != kw_char().len());
    assert(kw_uint16().len() != kw_int8().len());
    assert(kw_uint16().len() != kw_uchar().len());
    assert(kw_uint16().len() != kw_uint8().len());
    assert(kw_uint16().len() != kw_short().len());
    assert(kw_uint16().len() != kw_int16().len());
    assert(kw_uint16()[1] != kw_ushort()[1]);
    assert(kw_int().len() != kw_char().len());
    assert(kw_int().len() != kw_int8().len());
    assert(kw_int().len() != kw_uchar().len());
    assert(kw_int().len() != kw_uint8().len());
    assert(kw_int().len() != kw_short().len());
    assert(kw_int().len() != kw_int16().len());
    assert(kw_int().len() != kw_ushort().len());
    assert(kw_int().len() != kw_uint16().len());
    assert(kw_int32().len() != kw_char().len());
    assert(kw_int32().len() != kw_int8().len());
    assert(kw_int32()[0] != kw_uchar()[0]);
    assert(kw_int32()[0] != kw_uint8()[0]);
    assert(kw_int32()[0] != kw_short()[0]);
    assert(kw_int32()[3] != kw_int16()[3]);
    assert(kw_int32().len() != kw_ushort().len());
    assert(kw_int32().len() != kw_uint16().len());
    assert(kw_int32().len() != kw_int().len());
    assert(kw_uint()[0] != kw_char()[0]);
    assert(kw_uint()[0] != kw_int8()[0]);
    assert(kw_uint().len() != kw_uchar().len());
    assert(kw_uint().len() != kw_uint8().len());
    assert(kw_uint().len() != kw_short().len());
    assert(kw_uint().len() != kw_int16().len());
    assert(kw_uint().len() != kw_ushort().len());
    assert(kw_uint().len() != kw_uint16().len());
    assert(kw_uint().len() != kw_int().len());
    assert(kw_uint().len() != kw_int32().len());
    assert(kw_uint32().len() != kw_char().len());
    assert(kw_uint32().len() != kw_int8().len());
    assert(kw_uint32().len() != kw_uchar().len());
    assert(kw_uint32().len() != kw_uint8().len());
    assert(kw_uint32().len() != kw_short().len());
    assert(kw_uint32().len() != kw_int16().len());
    assert(kw_uint32()[1] != kw_ushort()[1]);
    assert(kw_uint32()[4] != kw_uint16()[4]);
    assert(kw_uint32().len() != kw_int().len());
    assert(kw_uint32().len() != kw_int32().len());
    assert(kw_uint32().len() != kw_uint().len());
    assert(kw_float().len() != kw_char().len());
    assert(kw_float().len() != kw_int8().len());
    assert(kw_float()[0] != kw_uchar()[0]);
    assert(kw_float()[0] != kw_uint8()[0]);
    assert(kw_float()[0] != kw_short()[0]);
    assert(kw_float()[0] != kw_int16()[0]);
    assert(kw_float().len() != kw_ushort().len());
    assert(kw_float().len() != kw_uint16().len());
    assert(kw_float().len() != kw_int().len());
    assert(kw_float()[0] != kw_int32()[0]);
    assert(kw_float().len() != kw_uint().len());
    assert(kw_float().len() != kw_uint32().len());
    assert(kw_float32().len() != kw_char().len());
    assert(kw_float32().len() != kw_int8().len());
    assert(kw_float32().len() != kw_uchar().len());
    assert(kw_float32().len() != kw_uint8().len());
    assert(kw_float32().len() != kw_short().len());
    assert(kw_float32().len() != kw_int16().len());
    assert(kw_float32().len() != kw_ushort().len());
    assert(kw_float32().len() != kw_uint16().len());
    assert(kw_float32().len() != kw_int().len());
    assert(kw_float32().len() != kw_int32().len());
    assert(kw_float32().len() != kw_uint().len());
    assert(kw_float32().len() != kw_uint32().len());
    assert(kw_float32().len() != kw_float().len());
    assert(kw_double().len() != kw_char().len());
    assert(kw_double().len() != kw_int8().len());
    assert(kw_double().len() != kw_uchar().len());
    assert(kw_double().len() != kw_uint8().len());
    assert(kw_double().len() != kw_short().len());
    assert(kw_double().len() != kw_int16().len());
    assert(kw_double()[0] != kw_ushort()[0]);
    assert(kw_double()[0] != kw_uint16()[0]);
    assert(kw_double().len() != kw_int().len());
    assert(kw_double().len() != kw_int32().len());
    assert(kw_double().len() != kw_uint().len());
    assert(kw_double()[0] != kw_uint32()[0]);
    assert(kw_double().len() != kw_float().len());
    assert(kw_double().len() != kw_float32().len());
    assert(kw_float64().len() != kw_char().len());
    assert(kw_float64().len() != kw_int8().len());
    assert(kw_float64().len() != kw_uchar().len());
    assert(kw_float64().len() != kw_uint8().len());
    assert(kw_float64().len() != kw_short().len());
    assert(kw_float64().len() != kw_int16().len());
    assert(kw_float64().len() != kw_ushort().len());
    assert(kw_float64().len() != kw_uint16().len());
    assert(kw_float64().len() != kw_int().len());
    assert(kw_float64().len() != kw_int32().len());
    assert(kw_float64().len() != kw_uint().len());
    assert(kw_float64().len() != kw_uint32().len());
    assert(kw_float64().len() != kw_float().len());
    assert(kw_float64()[5] != kw_float32()[5]);
    assert(kw_float64().len() != kw_double().len());
}

} // verus!
