//! The values that rows of PLY data hold.

use vstd::prelude::*;
use crate::scalar::{is_float_type, ScalarType};

verus! {

/// One scalar of PLY data. The floating-point types hold the IEEE 754 bits of
/// their value.
#[derive(Clone, Copy, Debug, PartialEq, Eq, Structural)]
pub enum ScalarValue {
    I8(i8),
    U8(u8),
    I16(i16),
    U16(u16),
    I32(i32),
    U32(u32),
    F32(u32),
    F64(u64),
}

/// The type of a scalar.
pub open spec fn value_type(v: ScalarValue) -> ScalarType {
    match v {
        ScalarValue::I8(_) => ScalarType::I8,
        ScalarValue::U8(_) => ScalarType::U8,
        ScalarValue::I16(_) => ScalarType::I16,
        ScalarValue::U16(_) => ScalarType::U16,
        ScalarValue::I32(_) => ScalarType::I32,
        ScalarValue::U32(_) => ScalarType::U32,
        ScalarValue::F32(_) => ScalarType::F32,
        ScalarValue::F64(_) => ScalarType::F64,
    }
}

/// The number that an integer scalar stands for.
pub open spec fn int_value(v: ScalarValue) -> int {
    match v {
        ScalarValue::I8(x) => x as int,
        ScalarValue::U8(x) => x as int,
        ScalarValue::I16(x) => x as int,
        ScalarValue::U16(x) => x as int,
        ScalarValue::I32(x) => x as int,
        ScalarValue::U32(x) => x as int,
        ScalarValue::F32(x) => x as int,
        ScalarValue::F64(x) => x as int,
    }
}

/// The bits of a scalar as an unsigned number (two's complement for the signed types).
pub open spec fn scalar_bits(v: ScalarValue) -> nat {
    match v {
        ScalarValue::I8(x) => (x as u8) as nat,
        ScalarValue::U8(x) => x as nat,
        ScalarValue::I16(x) => (x as u16) as nat,
        ScalarValue::U16(x) => x as nat,
        ScalarValue::I32(x) => (x as u32) as nat,
        ScalarValue::U32(x) => x as nat,
        ScalarValue::F32(x) => x as nat,
        ScalarValue::F64(x) => x as nat,
    }
}

/// The scalar of type `t` whose bits are the low bits of `n`.
pub open spec fn scalar_from_bits(t: ScalarType, n: nat) -> ScalarValue {
    match t {
        ScalarType::I8 => ScalarValue::I8((n as u8) as i8),
        ScalarType::U8 => ScalarValue::U8(n as u8),
        ScalarType::I16 => ScalarValue::I16((n as u16) as i16),
        ScalarType::U16 => ScalarValue::U16(n as u16),
        ScalarType::I32 => ScalarValue::I32((n as u32) as i32),
        ScalarType::U32 => ScalarValue::U32(n as u32),
        ScalarType::F32 => ScalarValue::F32(n as u32),
        ScalarType::F64 => ScalarValue::F64(n as u64),
    }
}

/// The number of elements that a list count of value `v` announces, as the count
/// is converted to `usize`; floating-point counts have none here.
pub open spec fn count_of(v: ScalarValue) -> Option<usize> {
    match v {
        ScalarValue::I8(x) => Some(x as usize),
        ScalarValue::U8(x) => Some(x as usize),
        ScalarValue::I16(x) => Some(x as usize),
        ScalarValue::U16(x) => Some(x as usize),
        ScalarValue::I32(x) => Some(x as usize),
        ScalarValue::U32(x) => Some(x as usize),
        ScalarValue::F32(_) => None,
        ScalarValue::F64(_) => None,
    }
}

/// The largest integer up to which every integer is exactly a value of the
/// floating-point type `t` (2^24 for `float`, 2^53 for `double`).
pub open spec fn float_exact_limit(t: ScalarType) -> nat {
    if t == ScalarType::F32 {
        16777216
    } else {
        9007199254740992
    }
}

/// The number of elements that a list count of a floating-point type `t`, written
/// as the text `tok`, announces, as the count is converted to `usize` (saturating):
/// the text must be an unsigned decimal integer that the type holds exactly.
/// Other text (a fraction, an exponent, a sign, a larger number) has none here:
/// converting it is floating-point arithmetic.
pub open spec fn float_count(t: ScalarType, tok: Seq<u8>) -> Option<usize> {
    match crate::text::unsigned_value(tok) {
        Some(v) => if v <= float_exact_limit(t) {
            Some(if v > usize::MAX { usize::MAX } else { v as usize })
        } else {
            None
        },
        None => None,
    }
}

impl ScalarValue {
    /// The type of the scalar.
    pub fn scalar_type(&self) -> (r: ScalarType)
        ensures
            r == value_type(*self),
    {
        match self {
            ScalarValue::I8(_) => ScalarType::I8,
            ScalarValue::U8(_) => ScalarType::U8,
            ScalarValue::I16(_) => ScalarType::I16,
            ScalarValue::U16(_) => ScalarType::U16,
            ScalarValue::I32(_) => ScalarType::I32,
            ScalarValue::U32(_) => ScalarType::U32,
            ScalarValue::F32(_) => ScalarType::F32,
            ScalarValue::F64(_) => ScalarType::F64,
        }
    }
}

/// The length of a list as a count of the given count type.
pub open spec fn count_scalar(count_type: ScalarType, n: usize) -> ScalarValue {
    match count_type {
        ScalarType::I8 => ScalarValue::I8(n as i8),
        ScalarType::U8 => ScalarValue::U8(n as u8),
        ScalarType::I16 => ScalarValue::I16(n as i16),
        ScalarType::U16 => ScalarValue::U16(n as u16),
        ScalarType::I32 => ScalarValue::I32(n as i32),
        ScalarType::U32 => ScalarValue::U32(n as u32),
        ScalarType::F32 => ScalarValue::F32(0),
        ScalarType::F64 => ScalarValue::F64(0),
    }
}

/// The longest list that a count type can count.
pub open spec fn max_count(count_type: ScalarType) -> nat {
    match count_type {
        ScalarType::I8 => 127,
        ScalarType::U8 => 255,
        ScalarType::I16 => 32767,
        ScalarType::U16 => 65535,
        ScalarType::I32 => 2147483647,
        _ => 4294967295,
    }
}

/// One value of a row as it is read or written: a number, or, for the
/// floating-point types in the ASCII format, the text of the number.
#[derive(Clone, Debug, PartialEq)]
pub enum Cell {
    Num(ScalarValue),
    Text(ScalarType, Vec<u8>),
}

pub enum CellModel {
    Num(ScalarValue),
    Text(ScalarType, Seq<u8>),
}

impl View for Cell {
    type V = CellModel;

    open spec fn view(&self) -> CellModel {
        match self {
            Cell::Num(v) => CellModel::Num(*v),
            Cell::Text(t, b) => CellModel::Text(*t, b@),
        }
    }
}

/// The type of a cell.
pub open spec fn cell_type(c: CellModel) -> ScalarType {
    match c {
        CellModel::Num(v) => value_type(v),
        CellModel::Text(t, _) => t,
    }
}

impl Cell {
    /// The type of the cell.
    pub fn scalar_type(&self) -> (r: ScalarType)
        ensures
            r == cell_type(self@),
    {
        match self {
            Cell::Num(v) => v.scalar_type(),
            Cell::Text(t, _) => *t,
        }
    }
}

/// The value of one property in a row: a scalar, or a list with the type of its count.
#[derive(Clone, Debug, PartialEq)]
pub enum PropertyValue {
    Scalar(Cell),
    List(ScalarType, Vec<Cell>),
}

pub enum ValueModel {
    Scalar(CellModel),
    List(ScalarType, Seq<CellModel>),
}

pub open spec fn cell_models(v: Seq<Cell>) -> Seq<CellModel> {
    v.map_values(|c: Cell| c@)
}

impl View for PropertyValue {
    type V = ValueModel;

    open spec fn view(&self) -> ValueModel {
        match self {
            PropertyValue::Scalar(c) => ValueModel::Scalar(c@),
            PropertyValue::List(t, cs) => ValueModel::List(*t, cell_models(cs@)),
        }
    }
}

pub open spec fn value_models(v: Seq<PropertyValue>) -> Seq<ValueModel> {
    v.map_values(|p: PropertyValue| p@)
}

pub open spec fn row_models(v: Seq<Vec<PropertyValue>>) -> Seq<Seq<ValueModel>> {
    v.map_values(|r: Vec<PropertyValue>| value_models(r@))
}

/// Every byte is an ASCII character.
pub open spec fn ascii_text(b: Seq<u8>) -> bool {
    forall|i: int| 0 <= i < b.len() ==> #[trigger] b[i] < 128
}

/// A cell that can be written in the given format: text only stands for the
/// floating-point types, and only in the ASCII format, where those types are text
/// of ASCII characters.
pub open spec fn cell_writable(ascii: bool, c: CellModel) -> bool {
    match c {
        CellModel::Num(v) => !(ascii && is_float_type(value_type(v))),
        CellModel::Text(t, b) => ascii && is_float_type(t) && ascii_text(b),
    }
}

pub open spec fn value_writable(ascii: bool, v: ValueModel) -> bool {
    match v {
        ValueModel::Scalar(c) => cell_writable(ascii, c),
        ValueModel::List(_, cs) => forall|i: int| 0 <= i < cs.len() ==> cell_writable(ascii, #[trigger] cs[i]),
    }
}

pub open spec fn row_writable(ascii: bool, vs: Seq<ValueModel>) -> bool {
    forall|i: int| 0 <= i < vs.len() ==> value_writable(ascii, #[trigger] vs[i])
}

/// A named value of a row that is written: the name becomes the property's name.
#[derive(Clone, Debug, PartialEq)]
pub struct Field {
    pub name: String,
    pub value: PropertyValue,
}

pub struct FieldModel {
    pub name: Seq<u8>,
    pub value: ValueModel,
}

impl View for Field {
    type V = FieldModel;

    open spec fn view(&self) -> FieldModel {
        FieldModel { name: crate::header::str_bytes(self.name), value: self.value@ }
    }
}

pub open spec fn field_models(v: Seq<Field>) -> Seq<FieldModel> {
    v.map_values(|f: Field| f@)
}

/// The values of the fields, in order.
pub open spec fn field_values(fs: Seq<FieldModel>) -> Seq<ValueModel> {
    fs.map_values(|f: FieldModel| f.value)
}


/// Whether every byte is an ASCII character.
fn bytes_are_ascii(b: &[u8]) -> (r: bool)
    ensures
        r == ascii_text(b@),
{
    let mut i: usize = 0;
    while i < b.len()
        invariant
            i <= b@.len(),
            forall|k: int| 0 <= k < i ==> #[trigger] b@[k] < 128,
        decreases b@.len() - i,
    {
        if b[i] >= 128 {
            assert(!(b@[i as int] < 128));
            return false;
        }
        i = i + 1;
    }
    true
}

/// Whether the format can write the cell; see [`cell_writable`].
pub fn cell_is_writable(ascii: bool, c: &Cell) -> (r: bool)
    ensures
        r == cell_writable(ascii, c@),
{
    match c {
        Cell::Num(v) => {
            let t = v.scalar_type();
            let float = t.is_float();
            !(ascii && float)
        },
        Cell::Text(t, b) => {
            ascii && t.is_float() && bytes_are_ascii(b.as_slice())
        },
    }
}

/// Whether the format can write the value; see [`value_writable`].
pub fn value_is_writable(ascii: bool, v: &PropertyValue) -> (r: bool)
    ensures
        r == value_writable(ascii, v@),
{
    match v {
        PropertyValue::Scalar(c) => cell_is_writable(ascii, c),
        PropertyValue::List(_, cs) => {
            let mut i: usize = 0;
            while i < cs.len()
                invariant
                    i <= cs@.len(),
                    v@ == ValueModel::List(v@->List_0, cell_models(cs@)),
                    forall|k: int| 0 <= k < i ==> cell_writable(ascii, #[trigger] cell_models(cs@)[k]),
                decreases cs@.len() - i,
            {
                if !cell_is_writable(ascii, &cs[i]) {
                    assert(cell_models(cs@)[i as int] == cs@[i as int]@);
                    assert(!cell_writable(ascii, v@->List_1[i as int]));
                    return false;
                }
                i = i + 1;
            }
            true
        },
    }
}

/// Whether the format can write every value of the fields; see [`row_writable`].
pub fn fields_are_writable(ascii: bool, row: &Vec<Field>) -> (r: bool)
    ensures
        r == row_writable(ascii, field_values(field_models(row@))),
{
    let ghost vs = field_values(field_models(row@));
    let mut i: usize = 0;
    while i < row.len()
        invariant
            i <= row@.len(),
            vs == field_values(field_models(row@)),
            forall|k: int| 0 <= k < i ==> value_writable(ascii, #[trigger] vs[k]),
        decreases row@.len() - i,
    {
        assert(vs[i as int] == row@[i as int].value@);
        if !value_is_writable(ascii, &row[i].value) {
            return false;
        }
        i = i + 1;
    }
    true
}

} // verus!
