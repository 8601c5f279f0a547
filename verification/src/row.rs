//! Rows of PLY data: reading them from bytes and writing them as bytes, in the
//! ASCII format and in the two binary formats.

use vstd::prelude::*;
use crate::ascii::{
    ascii_int, ascii_token, int_text, lemma_skip_bounds, lemma_token_end_bounds, parse_int,
    push_int, AsciiValReader,
};
use crate::binary::{read_scalar, scalar_bytes, scalar_from_bytes, write_scalar};
use crate::error::{DeserializeCause, SerializeCause};
use crate::header::{PlyProperty, PropertyType};
use crate::scalar::{is_float_type, scalar_size, PlyFormat, ScalarType};
use crate::text::append_bytes;
use crate::value::{
    field_models, field_values, Field,
    cell_models, cell_writable, count_of, count_scalar, float_count, max_count, row_models, row_writable,
    value_models, value_type, value_writable, Cell, CellModel, PropertyValue, ScalarValue,
    ValueModel,
};

verus! {

pub open spec fn is_big(f: PlyFormat) -> bool {
    f == PlyFormat::BinaryBigEndian
}

/// `r` with `acc` put in front of what it read.
pub open spec fn prepend<A>(acc: Seq<A>, r: Result<(Seq<A>, nat), DeserializeCause>) -> Result<
    (Seq<A>, nat),
    DeserializeCause,
> {
    match r {
        Ok((xs, e)) => Ok((acc + xs, e)),
        Err(c) => Err(c),
    }
}

// ---------------------------------------------------------------------------
// Reading.
/// Reads one scalar of type `t` at `pos`: the cell and the position after it.
pub open spec fn decode_cell(f: PlyFormat, t: ScalarType, s: Seq<u8>, pos: nat) -> Result<
    (CellModel, nat),
    DeserializeCause,
> {
    if f == PlyFormat::Ascii {
        match ascii_token(s, pos) {
            None => Err(DeserializeCause::UnexpectedEof),
            Some((tok, next)) => if is_float_type(t) {
                Ok((CellModel::Text(t, tok), next))
            } else {
                match ascii_int(t, tok) {
                    Some(v) => Ok((CellModel::Num(v), next)),
                    None => Err(DeserializeCause::InvalidNumber),
                }
            },
        }
    } else if pos + scalar_size(t) > s.len() {
        Err(DeserializeCause::UnexpectedEof)
    } else {
        Ok(
            (
                CellModel::Num(
                    scalar_from_bytes(is_big(f), t, s.subrange(pos as int, (pos + scalar_size(t)) as int)),
                ),
                pos + scalar_size(t),
            ),
        )
    }
}

/// Reads `n` scalars of type `t` from `pos` on.
pub open spec fn decode_items(f: PlyFormat, t: ScalarType, s: Seq<u8>, pos: nat, n: nat) -> Result<
    (Seq<CellModel>, nat),
    DeserializeCause,
>
    decreases n,
{
    if n == 0 {
        Ok((seq![], pos))
    } else {
        match decode_cell(f, t, s, pos) {
            Err(c) => Err(c),
            Ok((c, p)) => prepend(seq![c], decode_items(f, t, s, p, (n - 1) as nat)),
        }
    }
}

/// Reads the value of a property of type `pt` at `pos`. A list's count of a
/// floating-point type is read in the ASCII format when it is written as an
/// unsigned decimal integer that the type holds exactly (see [`float_count`]); other
/// floating-point counts, and all of them in the binary formats, are refused with
/// `FloatListCount`, since converting them is floating-point arithmetic.
pub open spec fn decode_value(f: PlyFormat, pt: PropertyType, s: Seq<u8>, pos: nat) -> Result<
    (ValueModel, nat),
    DeserializeCause,
> {
    match pt {
        PropertyType::Scalar(t) => match decode_cell(f, t, s, pos) {
            Ok((c, p)) => Ok((ValueModel::Scalar(c), p)),
            Err(e) => Err(e),
        },
        PropertyType::List { count_type, data_type } => match decode_cell(f, count_type, s, pos) {
            Err(e) => Err(e),
            Ok((CellModel::Text(_, tok), p)) => match float_count(count_type, tok) {
                None => Err(DeserializeCause::FloatListCount),
                Some(n) => match decode_items(f, data_type, s, p, n as nat) {
                    Ok((cs, e)) => Ok((ValueModel::List(count_type, cs), e)),
                    Err(x) => Err(x),
                },
            },
            Ok((CellModel::Num(v), p)) => match count_of(v) {
                None => Err(DeserializeCause::FloatListCount),
                Some(n) => match decode_items(f, data_type, s, p, n as nat) {
                    Ok((cs, e)) => Ok((ValueModel::List(count_type, cs), e)),
                    Err(x) => Err(x),
                },
            },
        },
    }
}

/// Reads one row of properties of the types `props`, in order.
pub open spec fn decode_row(f: PlyFormat, props: Seq<PropertyType>, s: Seq<u8>, pos: nat) -> Result<
    (Seq<ValueModel>, nat),
    DeserializeCause,
>
    decreases props.len(),
{
    if props.len() == 0 {
        Ok((seq![], pos))
    } else {
        match decode_value(f, props[0], s, pos) {
            Err(c) => Err(c),
            Ok((v, p)) => prepend(seq![v], decode_row(f, props.drop_first(), s, p)),
        }
    }
}

/// Reads exactly `n` rows; running out of data is an error.
pub open spec fn decode_rows(f: PlyFormat, props: Seq<PropertyType>, s: Seq<u8>, pos: nat, n: nat) -> Result<
    (Seq<Seq<ValueModel>>, nat),
    DeserializeCause,
>
    decreases n,
{
    if n == 0 {
        Ok((seq![], pos))
    } else {
        match decode_row(f, props, s, pos) {
            Err(c) => Err(c),
            Ok((r, p)) => prepend(seq![r], decode_rows(f, props, s, p, (n - 1) as nat)),
        }
    }
}

/// Reads up to `n` rows, as many as the data holds whole: a row that runs out of
/// data ends the reading before it, without error.
pub open spec fn decode_available(
    f: PlyFormat,
    props: Seq<PropertyType>,
    s: Seq<u8>,
    pos: nat,
    n: nat,
) -> Result<(Seq<Seq<ValueModel>>, nat), DeserializeCause>
    decreases n,
{
    if n == 0 {
        Ok((seq![], pos))
    } else {
        match decode_row(f, props, s, pos) {
            Err(DeserializeCause::UnexpectedEof) => Ok((seq![], pos)),
            Err(c) => Err(c),
            Ok((r, p)) => prepend(seq![r], decode_available(f, props, s, p, (n - 1) as nat)),
        }
    }
}

/// The types of the properties.
pub open spec fn property_types(ps: Seq<PlyProperty>) -> Seq<PropertyType> {
    ps.map_values(|p: PlyProperty| p.property_type)
}

/// A cell read without error lies within the data, past its start.
pub proof fn lemma_decode_cell_advances(f: PlyFormat, t: ScalarType, s: Seq<u8>, pos: nat)
    requires
        pos <= s.len(),
    ensures
        decode_cell(f, t, s, pos) matches Ok((_, p)) ==> pos < p <= s.len(),
{
    if f == PlyFormat::Ascii {
        lemma_skip_bounds(s, pos);
        let i = crate::ascii::skip_ascii_ws(s, pos);
        if i < s.len() {
            lemma_token_end_bounds(s, i);
        }
    }
}

/// Reads one cell.
fn read_cell(f: PlyFormat, t: ScalarType, data: &[u8], pos: usize) -> (r: Result<(Cell, usize), DeserializeCause>)
    requires
        pos <= data@.len(),
    ensures
        match decode_cell(f, t, data@, pos as nat) {
            Ok((c, p)) => r matches Ok((cc, pp)) && cc@ == c && pp == p,
            Err(e) => r == Err::<(Cell, usize), DeserializeCause>(e),
        },
        r matches Ok((_, p)) ==> pos < p <= data@.len(),
{
    proof {
        lemma_decode_cell_advances(f, t, data@, pos as nat);
    }
    match f {
        PlyFormat::Ascii => match AsciiValReader::read_ascii_token(data, pos) {
            Err(e) => Err(e.0),
            Ok((tok, next)) => {
                if t.is_float() {
                    Ok((Cell::Text(t, tok), next))
                } else {
                    match parse_int(t, tok.as_slice()) {
                        Some(v) => Ok((Cell::Num(v), next)),
                        None => Err(DeserializeCause::InvalidNumber),
                    }
                }
            },
        },
        _ => {
            let size = t.size();
            if size > data.len() - pos {
                Err(DeserializeCause::UnexpectedEof)
            } else {
                let big = match f {
                    PlyFormat::BinaryBigEndian => true,
                    _ => false,
                };
                Ok((Cell::Num(read_scalar(big, t, data, pos)), pos + size))
            }
        },
    }
}

/// The number of list elements that a count cell announces.
fn count_value(v: ScalarValue) -> (r: Option<usize>)
    ensures
        r == count_of(v),
{
    match v {
        ScalarValue::I8(x) => Some(x as usize),
        ScalarValue::U8(x) => Some(x as usize),
        ScalarValue::I16(x) => Some(x as usize),
        ScalarValue::U16(x) => Some(x as usize),
        ScalarValue::I32(x) => Some(x as usize),
        ScalarValue::U32(x) => Some(x as usize),
        _ => None,
    }
}

/// The number of list elements that a count of a floating-point type, written as
/// text, announces; see [`float_count`].
fn float_count_value(t: ScalarType, tok: &[u8]) -> (r: Option<usize>)
    ensures
        r == float_count(t, tok@),
{
    let start: usize = if tok.len() > 0 && tok[0] == 43 {
        1
    } else {
        0
    };
    assert(start == 1 ==> tok@.skip(1) =~= tok@.drop_first());
    assert(start == 0 ==> tok@.skip(0) =~= tok@);
    let limit: u64 = match t {
        ScalarType::F32 => 16777216,
        _ => 9007199254740992,
    };
    match crate::text::parse_digits(tok, start, limit) {
        None => None,
        Some(v) => {
            if v > usize::MAX as u64 {
                Some(usize::MAX)
            } else {
                Some(v as usize)
            }
        },
    }
}

/// Reads `n` cells; the reading stops at the first error.
fn read_items(f: PlyFormat, t: ScalarType, data: &[u8], pos: usize, n: usize) -> (r: Result<
    (Vec<Cell>, usize),
    DeserializeCause,
>)
    requires
        pos <= data@.len(),
    ensures
        match decode_items(f, t, data@, pos as nat, n as nat) {
            Ok((cs, p)) => r matches Ok((v, pp)) && cell_models(v@) == cs && pp == p,
            Err(e) => r == Err::<(Vec<Cell>, usize), DeserializeCause>(e),
        },
        r matches Ok((_, p)) ==> pos <= p <= data@.len(),
{
    let mut items: Vec<Cell> = Vec::new();
    let mut i: usize = 0;
    let mut p = pos;
    assert(cell_models(items@) =~= Seq::<CellModel>::empty());
    while i < n
        invariant
            i <= n,
            pos <= p <= data@.len(),
            decode_items(f, t, data@, pos as nat, n as nat) == prepend(
                cell_models(items@),
                decode_items(f, t, data@, p as nat, (n - i) as nat),
            ),
        decreases data@.len() - p,
    {
        match read_cell(f, t, data, p) {
            Err(e) => {
                return Err(e);
            },
            Ok((c, next)) => {
                proof {
                    let rest = decode_items(f, t, data@, next as nat, (n - i - 1) as nat);
                    assert(cell_models(items@.push(c)) =~= cell_models(items@).push(c@));
                    assert(cell_models(items@) + (seq![c@] + match rest {
                        Ok((xs, _)) => xs,
                        Err(_) => seq![],
                    }) =~= cell_models(items@).push(c@) + match rest {
                        Ok((xs, _)) => xs,
                        Err(_) => seq![],
                    });
                }
                items.push(c);
                p = next;
                i = i + 1;
            },
        }
    }
    assert(cell_models(items@) + Seq::<CellModel>::empty() =~= cell_models(items@));
    Ok((items, p))
}

/// Reads the value of one property.
fn read_value(f: PlyFormat, pt: PropertyType, data: &[u8], pos: usize) -> (r: Result<
    (PropertyValue, usize),
    DeserializeCause,
>)
    requires
        pos <= data@.len(),
    ensures
        match decode_value(f, pt, data@, pos as nat) {
            Ok((v, p)) => r matches Ok((vv, pp)) && vv@ == v && pp == p,
            Err(e) => r == Err::<(PropertyValue, usize), DeserializeCause>(e),
        },
        r matches Ok((_, p)) ==> pos <= p <= data@.len(),
{
    match pt {
        PropertyType::Scalar(t) => match read_cell(f, t, data, pos) {
            Ok((c, p)) => Ok((PropertyValue::Scalar(c), p)),
            Err(e) => Err(e),
        },
        PropertyType::List { count_type, data_type } => match read_cell(f, count_type, data, pos) {
            Err(e) => Err(e),
            Ok((Cell::Text(_, tok), p)) => match float_count_value(count_type, tok.as_slice()) {
                None => Err(DeserializeCause::FloatListCount),
                Some(n) => match read_items(f, data_type, data, p, n) {
                    Ok((cs, e)) => Ok((PropertyValue::List(count_type, cs), e)),
                    Err(x) => Err(x),
                },
            },
            Ok((Cell::Num(v), p)) => match count_value(v) {
                None => Err(DeserializeCause::FloatListCount),
                Some(n) => match read_items(f, data_type, data, p, n) {
                    Ok((cs, e)) => Ok((PropertyValue::List(count_type, cs), e)),
                    Err(x) => Err(x),
                },
            },
        },
    }
}

/// Reads one row of the properties `props`; see [`decode_value`] for lists whose
/// count type is a floating-point type.
pub fn read_row(f: PlyFormat, props: &Vec<PlyProperty>, data: &[u8], pos: usize) -> (r: Result<
    (Vec<PropertyValue>, usize),
    DeserializeCause,
>)
    requires
        pos <= data@.len(),
    ensures
        match decode_row(f, property_types(props@), data@, pos as nat) {
            Ok((vs, p)) => r matches Ok((v, pp)) && value_models(v@) == vs && pp == p,
            Err(e) => r == Err::<(Vec<PropertyValue>, usize), DeserializeCause>(e),
        },
        r matches Ok((_, p)) ==> pos <= p <= data@.len(),
{
    let ghost types = property_types(props@);
    let mut values: Vec<PropertyValue> = Vec::new();
    let mut i: usize = 0;
    let mut p = pos;
    assert(types.skip(0) =~= types);
    assert(value_models(values@) =~= Seq::<ValueModel>::empty());
    while i < props.len()
        invariant
            i <= props@.len(),
            types == property_types(props@),
            pos <= p <= data@.len(),
            decode_row(f, types, data@, pos as nat) == prepend(
                value_models(values@),
                decode_row(f, types.skip(i as int), data@, p as nat),
            ),
        decreases props@.len() - i,
    {
        let ghost rest_types = types.skip(i as int);
        assert(rest_types[0] == props@[i as int].property_type);
        assert(rest_types.drop_first() =~= types.skip(i + 1));
        match read_value(f, props[i].property_type, data, p) {
            Err(e) => {
                return Err(e);
            },
            Ok((v, next)) => {
                proof {
                    let rest = decode_row(f, types.skip(i + 1), data@, next as nat);
                    assert(value_models(values@.push(v)) =~= value_models(values@).push(v@));
                    assert(value_models(values@) + (seq![v@] + match rest {
                        Ok((xs, _)) => xs,
                        Err(_) => seq![],
                    }) =~= value_models(values@).push(v@) + match rest {
                        Ok((xs, _)) => xs,
                        Err(_) => seq![],
                    });
                }
                values.push(v);
                p = next;
                i = i + 1;
            },
        }
    }
    assert(types.skip(i as int).len() == 0);
    assert(value_models(values@) + Seq::<ValueModel>::empty() =~= value_models(values@));
    Ok((values, p))
}

/// Reads exactly `n` rows of the properties `props`.
pub fn read_rows(f: PlyFormat, props: &Vec<PlyProperty>, data: &[u8], pos: usize, n: usize) -> (r: Result<
    (Vec<Vec<PropertyValue>>, usize),
    DeserializeCause,
>)
    requires
        pos <= data@.len(),
    ensures
        match decode_rows(f, property_types(props@), data@, pos as nat, n as nat) {
            Ok((rs, p)) => r matches Ok((v, pp)) && row_models(v@) == rs && pp == p,
            Err(e) => r == Err::<(Vec<Vec<PropertyValue>>, usize), DeserializeCause>(e),
        },
        r matches Ok((_, p)) ==> pos <= p <= data@.len(),
{
    let ghost types = property_types(props@);
    let mut rows: Vec<Vec<PropertyValue>> = Vec::new();
    let mut i: usize = 0;
    let mut p = pos;
    assert(row_models(rows@) =~= Seq::<Seq<ValueModel>>::empty());
    while i < n
        invariant
            i <= n,
            types == property_types(props@),
            pos <= p <= data@.len(),
            decode_rows(f, types, data@, pos as nat, n as nat) == prepend(
                row_models(rows@),
                decode_rows(f, types, data@, p as nat, (n - i) as nat),
            ),
        decreases n - i,
    {
        match read_row(f, props, data, p) {
            Err(e) => {
                return Err(e);
            },
            Ok((row, next)) => {
                proof {
                    let rest = decode_rows(f, types, data@, next as nat, (n - i - 1) as nat);
                    assert(row_models(rows@.push(row)) =~= row_models(rows@).push(value_models(row@)));
                    assert(row_models(rows@) + (seq![value_models(row@)] + match rest {
                        Ok((xs, _)) => xs,
                        Err(_) => seq![],
                    }) =~= row_models(rows@).push(value_models(row@)) + match rest {
                        Ok((xs, _)) => xs,
                        Err(_) => seq![],
                    });
                }
                rows.push(row);
                p = next;
                i = i + 1;
            },
        }
    }
    assert(row_models(rows@) + Seq::<Seq<ValueModel>>::empty() =~= row_models(rows@));
    Ok((rows, p))
}

/// Reads up to `n` rows of the properties `props`: as many as the data holds whole.
pub fn read_available(f: PlyFormat, props: &Vec<PlyProperty>, data: &[u8], pos: usize, n: usize) -> (r: Result<
    (Vec<Vec<PropertyValue>>, usize),
    DeserializeCause,
>)
    requires
        pos <= data@.len(),
    ensures
        match decode_available(f, property_types(props@), data@, pos as nat, n as nat) {
            Ok((rs, p)) => r matches Ok((v, pp)) && row_models(v@) == rs && pp == p,
            Err(e) => r == Err::<(Vec<Vec<PropertyValue>>, usize), DeserializeCause>(e),
        },
        r matches Ok((v, p)) ==> pos <= p <= data@.len() && v@.len() <= n,
{
    let ghost types = property_types(props@);
    let mut rows: Vec<Vec<PropertyValue>> = Vec::new();
    let mut i: usize = 0;
    let mut p = pos;
    assert(row_models(rows@) =~= Seq::<Seq<ValueModel>>::empty());
    while i < n
        invariant
            i <= n,
            rows@.len() == i,
            types == property_types(props@),
            pos <= p <= data@.len(),
            decode_available(f, types, data@, pos as nat, n as nat) == prepend(
                row_models(rows@),
                decode_available(f, types, data@, p as nat, (n - i) as nat),
            ),
        decreases n - i,
    {
        match read_row(f, props, data, p) {
            Err(DeserializeCause::UnexpectedEof) => {
                assert(row_models(rows@) + Seq::<Seq<ValueModel>>::empty() =~= row_models(rows@));
                return Ok((rows, p));
            },
            Err(e) => {
                return Err(e);
            },
            Ok((row, next)) => {
                proof {
                    let rest = decode_available(f, types, data@, next as nat, (n - i - 1) as nat);
                    assert(row_models(rows@.push(row)) =~= row_models(rows@).push(value_models(row@)));
                    assert(row_models(rows@) + (seq![value_models(row@)] + match rest {
                        Ok((xs, _)) => xs,
                        Err(_) => seq![],
                    }) =~= row_models(rows@).push(value_models(row@)) + match rest {
                        Ok((xs, _)) => xs,
                        Err(_) => seq![],
                    });
                }
                rows.push(row);
                p = next;
                i = i + 1;
            },
        }
    }
    assert(row_models(rows@) + Seq::<Seq<ValueModel>>::empty() =~= row_models(rows@));
    Ok((rows, p))
}

// ---------------------------------------------------------------------------
// Writing.
/// The bytes of one cell: its text and a space in the ASCII format, its bytes in
/// the binary formats.
pub open spec fn encode_cell(f: PlyFormat, c: CellModel) -> Seq<u8> {
    if f == PlyFormat::Ascii {
        match c {
            CellModel::Num(v) => int_text(v) + seq![32u8],
            CellModel::Text(_, t) => t + seq![32u8],
        }
    } else {
        match c {
            CellModel::Num(v) => scalar_bytes(is_big(f), v),
            CellModel::Text(_, _) => seq![],
        }
    }
}

pub open spec fn encode_cells(f: PlyFormat, cs: Seq<CellModel>) -> Seq<u8>
    decreases cs.len(),
{
    if cs.len() == 0 {
        seq![]
    } else {
        encode_cells(f, cs.drop_last()) + encode_cell(f, cs.last())
    }
}

/// The bytes of one value: a list is its count, of its count type, then its elements.
pub open spec fn encode_value(f: PlyFormat, v: ValueModel) -> Seq<u8> {
    match v {
        ValueModel::Scalar(c) => encode_cell(f, c),
        ValueModel::List(ct, cs) => encode_cell(f, CellModel::Num(count_scalar(ct, cs.len() as usize)))
            + encode_cells(f, cs),
    }
}

pub open spec fn encode_values(f: PlyFormat, vs: Seq<ValueModel>) -> Seq<u8>
    decreases vs.len(),
{
    if vs.len() == 0 {
        seq![]
    } else {
        encode_values(f, vs.drop_last()) + encode_value(f, vs.last())
    }
}

/// What ends a row: a newline in the ASCII format, nothing in the binary ones.
pub open spec fn row_end(f: PlyFormat) -> Seq<u8> {
    if f == PlyFormat::Ascii {
        seq![10u8]
    } else {
        seq![]
    }
}

/// The bytes of a row.
pub open spec fn encode_row(f: PlyFormat, vs: Seq<ValueModel>) -> Seq<u8> {
    encode_values(f, vs) + row_end(f)
}

/// Why a value cannot be written: a list with a floating-point count type (such
/// lists are refused: writing their count is floating-point arithmetic), or one
/// longer than its count type can count.
pub open spec fn value_error(v: ValueModel) -> Option<SerializeCause> {
    match v {
        ValueModel::Scalar(_) => None,
        ValueModel::List(ct, cs) => if is_float_type(ct) {
            Some(SerializeCause::FloatListCount)
        } else if cs.len() > max_count(ct) {
            Some(SerializeCause::ListTooLong)
        } else {
            None
        },
    }
}

/// Why a row cannot be written: the first value, in order, that cannot be.
pub open spec fn row_error(vs: Seq<ValueModel>) -> Option<SerializeCause>
    decreases vs.len(),
{
    if vs.len() == 0 {
        None
    } else {
        match value_error(vs[0]) {
            Some(e) => Some(e),
            None => row_error(vs.drop_first()),
        }
    }
}

pub(crate) fn write_cell(f: PlyFormat, c: &Cell, out: &mut Vec<u8>)
    requires
        cell_writable(f == PlyFormat::Ascii, c@),
    ensures
        final(out)@ == old(out)@ + encode_cell(f, c@),
{
    match f {
        PlyFormat::Ascii => {
            match c {
                Cell::Num(v) => push_int(out, *v),
                Cell::Text(_, t) => append_bytes(out, t.as_slice()),
            }
            out.push(32u8);
            assert(final(out)@ =~= old(out)@ + encode_cell(f, c@));
        },
        _ => {
            let big = match f {
                PlyFormat::BinaryBigEndian => true,
                _ => false,
            };
            match c {
                Cell::Num(v) => write_scalar(big, *v, out),
                Cell::Text(_, _) => {},
            }
        },
    }
}

fn write_cells(f: PlyFormat, cs: &Vec<Cell>, out: &mut Vec<u8>)
    requires
        forall|i: int| 0 <= i < cs@.len() ==> cell_writable(f == PlyFormat::Ascii, #[trigger] cs@[i]@),
    ensures
        final(out)@ == old(out)@ + encode_cells(f, cell_models(cs@)),
{
    let mut i: usize = 0;
    assert(cell_models(cs@).take(0) =~= Seq::<CellModel>::empty());
    while i < cs.len()
        invariant
            i <= cs@.len(),
            forall|j: int| 0 <= j < cs@.len() ==> cell_writable(f == PlyFormat::Ascii, #[trigger] cs@[j]@),
            out@ == old(out)@ + encode_cells(f, cell_models(cs@).take(i as int)),
        decreases cs@.len() - i,
    {
        write_cell(f, &cs[i], out);
        i = i + 1;
        proof {
            let ms = cell_models(cs@).take(i as int);
            assert(ms.drop_last() =~= cell_models(cs@).take(i - 1));
            assert(ms.last() == cs@[i - 1]@);
        }
    }
    assert(cell_models(cs@).take(cs@.len() as int) =~= cell_models(cs@));
}

/// The count of a list of `n` elements, of the count type `ct`.
fn count_cell(ct: ScalarType, n: usize) -> (r: ScalarValue)
    requires
        !is_float_type(ct),
        n <= max_count(ct),
    ensures
        r == count_scalar(ct, n),
{
    match ct {
        ScalarType::I8 => ScalarValue::I8(n as i8),
        ScalarType::U8 => ScalarValue::U8(n as u8),
        ScalarType::I16 => ScalarValue::I16(n as i16),
        ScalarType::U16 => ScalarValue::U16(n as u16),
        ScalarType::I32 => ScalarValue::I32(n as i32),
        _ => ScalarValue::U32(n as u32),
    }
}

/// Why the value cannot be written, if it cannot.
fn check_value(v: &PropertyValue) -> (r: Option<SerializeCause>)
    ensures
        r == value_error(v@),
{
    match v {
        PropertyValue::Scalar(_) => None,
        PropertyValue::List(ct, cs) => {
            let max: u64 = match ct {
                ScalarType::I8 => 127,
                ScalarType::U8 => 255,
                ScalarType::I16 => 32767,
                ScalarType::U16 => 65535,
                ScalarType::I32 => 2147483647,
                _ => 4294967295,
            };
            if ct.is_float() {
                Some(SerializeCause::FloatListCount)
            } else if cs.len() as u64 > max {
                Some(SerializeCause::ListTooLong)
            } else {
                None
            }
        },
    }
}

/// Why the row cannot be written, if it cannot: its first value that cannot be.
pub fn check_row(row: &Vec<Field>) -> (r: Option<SerializeCause>)
    ensures
        r == row_error(field_values(field_models(row@))),
{
    let ghost vs = field_values(field_models(row@));
    let mut i: usize = 0;
    assert(vs.skip(0) =~= vs);
    while i < row.len()
        invariant
            i <= row@.len(),
            vs == field_values(field_models(row@)),
            row_error(vs) == row_error(vs.skip(i as int)),
        decreases row@.len() - i,
    {
        assert(vs.skip(i as int)[0] == row@[i as int].value@);
        assert(vs.skip(i as int).drop_first() =~= vs.skip(i + 1));
        match check_value(&row[i].value) {
            Some(e) => {
                return Some(e);
            },
            None => {},
        }
        i = i + 1;
    }
    None
}

fn write_value(f: PlyFormat, v: &PropertyValue, out: &mut Vec<u8>)
    requires
        value_writable(f == PlyFormat::Ascii, v@),
        value_error(v@) is None,
    ensures
        final(out)@ == old(out)@ + encode_value(f, v@),
{
    match v {
        PropertyValue::Scalar(c) => write_cell(f, c, out),
        PropertyValue::List(ct, cs) => {
            let count = count_cell(*ct, cs.len());
            proof {
                if f == PlyFormat::Ascii {
                    assert(!is_float_type(value_type(count)));
                }
            }
            write_cell(f, &Cell::Num(count), out);
            assert forall|i: int| 0 <= i < cs@.len() implies cell_writable(
                f == PlyFormat::Ascii,
                #[trigger] cs@[i]@,
            ) by {
                assert(cell_models(cs@)[i] == cs@[i]@);
            }
            write_cells(f, cs, out);
            assert(final(out)@ =~= old(out)@ + encode_value(f, v@));
        },
    }
}

/// Appends a row to `out`; nothing is written when the row cannot be.
pub fn write_row(f: PlyFormat, row: &Vec<Field>, out: &mut Vec<u8>) -> (r: Result<(), SerializeCause>)
    requires
        row_writable(f == PlyFormat::Ascii, field_values(field_models(row@))),
    ensures
        match row_error(field_values(field_models(row@))) {
            Some(e) => r == Err::<(), SerializeCause>(e) && final(out)@ == old(out)@,
            None => r is Ok && final(out)@ == old(out)@ + encode_row(f, field_values(field_models(row@))),
        },
{
    match check_row(row) {
        Some(e) => {
            return Err(e);
        },
        None => {},
    }
    proof {
        lemma_row_error_none(field_values(field_models(row@)));
    }
    let ghost vs = field_values(field_models(row@));
    let mut i: usize = 0;
    assert(vs.take(0) =~= Seq::<ValueModel>::empty());
    while i < row.len()
        invariant
            i <= row@.len(),
            vs == field_values(field_models(row@)),
            row_writable(f == PlyFormat::Ascii, vs),
            forall|j: int| 0 <= j < vs.len() ==> value_error(#[trigger] vs[j]) is None,
            out@ == old(out)@ + encode_values(f, vs.take(i as int)),
        decreases row@.len() - i,
    {
        assert(vs[i as int] == row@[i as int].value@);
        write_value(f, &row[i].value, out);
        i = i + 1;
        proof {
            let ms = vs.take(i as int);
            assert(ms.drop_last() =~= vs.take(i - 1));
        }
    }
    assert(vs.take(row@.len() as int) =~= vs);
    match f {
        PlyFormat::Ascii => out.push(10u8),
        _ => {},
    }
    assert(final(out)@ =~= old(out)@ + encode_row(f, vs));
    Ok(())
}

/// A row without error has no value with error.
pub proof fn lemma_row_error_none(vs: Seq<ValueModel>)
    requires
        row_error(vs) is None,
    ensures
        forall|j: int| 0 <= j < vs.len() ==> value_error(#[trigger] vs[j]) is None,
    decreases vs.len(),
{
    if vs.len() > 0 {
        lemma_row_error_none(vs.drop_first());
        assert forall|j: int| 0 <= j < vs.len() implies value_error(#[trigger] vs[j]) is None by {
            if j > 0 {
                assert(vs[j] == vs.drop_first()[j - 1]);
            }
        }
    }
}

/// Rows read from the data lie within it, and are no more than were asked for.
pub proof fn lemma_available_bounds(f: PlyFormat, props: Seq<PropertyType>, s: Seq<u8>, pos: nat, n: nat)
    requires
        pos <= s.len(),
    ensures
        decode_available(f, props, s, pos, n) matches Ok((rs, p)) ==> pos <= p <= s.len() && rs.len() <= n,
    decreases n,
{
    if n > 0 {
        lemma_row_bounds(f, props, s, pos);
        if let Ok((r, p)) = decode_row(f, props, s, pos) {
            lemma_available_bounds(f, props, s, p, (n - 1) as nat);
        }
    }
}

/// A row read from the data lies within it.
pub proof fn lemma_row_bounds(f: PlyFormat, props: Seq<PropertyType>, s: Seq<u8>, pos: nat)
    requires
        pos <= s.len(),
    ensures
        decode_row(f, props, s, pos) matches Ok((_, p)) ==> pos <= p <= s.len(),
    decreases props.len(),
{
    if props.len() > 0 {
        lemma_value_bounds(f, props[0], s, pos);
        if let Ok((v, p)) = decode_value(f, props[0], s, pos) {
            lemma_row_bounds(f, props.drop_first(), s, p);
        }
    }
}

pub proof fn lemma_value_bounds(f: PlyFormat, pt: PropertyType, s: Seq<u8>, pos: nat)
    requires
        pos <= s.len(),
    ensures
        decode_value(f, pt, s, pos) matches Ok((_, p)) ==> pos <= p <= s.len(),
{
    match pt {
        PropertyType::Scalar(t) => {
            lemma_decode_cell_advances(f, t, s, pos);
        },
        PropertyType::List { count_type, data_type } => {
            lemma_decode_cell_advances(f, count_type, s, pos);
            if let Ok((CellModel::Num(v), p)) = decode_cell(f, count_type, s, pos) {
                if let Some(n) = count_of(v) {
                    lemma_items_bounds(f, data_type, s, p, n as nat);
                }
            }
            if let Ok((CellModel::Text(_, tok), p)) = decode_cell(f, count_type, s, pos) {
                if let Some(n) = float_count(count_type, tok) {
                    lemma_items_bounds(f, data_type, s, p, n as nat);
                }
            }
        },
    }
}

pub proof fn lemma_items_bounds(f: PlyFormat, t: ScalarType, s: Seq<u8>, pos: nat, n: nat)
    requires
        pos <= s.len(),
    ensures
        decode_items(f, t, s, pos, n) matches Ok((_, p)) ==> pos <= p <= s.len(),
    decreases n,
{
    if n > 0 {
        lemma_decode_cell_advances(f, t, s, pos);
        if let Ok((c, p)) = decode_cell(f, t, s, pos) {
            lemma_items_bounds(f, t, s, p, (n - 1) as nat);
        }
    }
}

/// Writes ASCII values: each value's text and a space, and a newline after each row.
pub struct AsciiValWriter {
    out: Vec<u8>,
}

impl AsciiValWriter {
    pub fn new() -> (r: AsciiValWriter)
        ensures
            r.written() == Seq::<u8>::empty(),
    {
        AsciiValWriter { out: Vec::new() }
    }

    pub closed spec fn written(&self) -> Seq<u8> {
        self.out@
    }

    /// Writes one value and a space.
    pub fn write_value(&mut self, c: &Cell)
        requires
            cell_writable(true, c@),
        ensures
            final(self).written() == old(self).written() + encode_cell(PlyFormat::Ascii, c@),
    {
        write_cell(PlyFormat::Ascii, c, &mut self.out);
    }

    /// Ends a row.
    pub fn write_row_end(&mut self)
        ensures
            final(self).written() == old(self).written() + row_end(PlyFormat::Ascii),
    {
        self.out.push(10u8);
        assert(self.out@ =~= old(self).written() + row_end(PlyFormat::Ascii));
    }

    /// The bytes written.
    pub fn into_bytes(self) -> (r: Vec<u8>)
        ensures
            r@ == self.written(),
    {
        self.out
    }
}

} // verus!
