//! A serializer that writes values as they come: scalars, struct fields separated
//! by spaces in the ASCII format, and lists preceded by a one-byte count in the
//! binary formats, which holds at most 255.

use vstd::prelude::*;
use crate::ascii::{int_text, push_int};
use crate::error::{SerializeCause, SerializeError};
use crate::binary::{scalar_bytes, write_scalar};
use crate::header::{header_text, HeaderModel, PlyHeader};
use crate::row::is_big;
use crate::scalar::PlyFormat;
use crate::text::{append_bytes, decimal, push_decimal};
use crate::value::{
    cell_models, cell_writable, field_models, field_values, value_writable, Cell, CellModel, Field,
    FieldModel, PropertyValue, ScalarValue, ValueModel,
};

verus! {

/// The bytes of one scalar: its text in the ASCII format, its bytes in the binary ones.
pub open spec fn scalar_out(f: PlyFormat, c: CellModel) -> Seq<u8> {
    if f == PlyFormat::Ascii {
        match c {
            CellModel::Num(v) => int_text(v),
            CellModel::Text(_, t) => t,
        }
    } else {
        match c {
            CellModel::Num(v) => scalar_bytes(is_big(f), v),
            CellModel::Text(_, _) => seq![],
        }
    }
}

/// What separates values in the ASCII format: a space; nothing in the binary ones.
pub open spec fn separator(f: PlyFormat) -> Seq<u8> {
    if f == PlyFormat::Ascii {
        seq![32u8]
    } else {
        seq![]
    }
}

/// A list of `n` elements can be started: any length in the ASCII format; in the
/// binary ones, a length that its one-byte count holds.
pub open spec fn seq_fits(f: PlyFormat, n: nat) -> bool {
    f == PlyFormat::Ascii || n <= 255
}

/// The lists of a value can be started.
pub open spec fn value_seq_fits(f: PlyFormat, v: ValueModel) -> bool {
    match v {
        ValueModel::Scalar(_) => true,
        ValueModel::List(_, cs) => seq_fits(f, cs.len()),
    }
}

/// The lists of every row can be started.
pub open spec fn rows_seq_fit(f: PlyFormat, rows: Seq<Seq<FieldModel>>) -> bool {
    forall|i: int, j: int|
        0 <= i < rows.len() && 0 <= j < rows[i].len() ==> value_seq_fits(f, #[trigger] rows[i][j].value)
}

/// What starts a list of `n` elements: its length and a space in the ASCII format,
/// its length as one byte in the binary ones.
pub open spec fn seq_start(f: PlyFormat, n: nat) -> Seq<u8> {
    if f == PlyFormat::Ascii {
        decimal(n) + seq![32u8]
    } else {
        seq![n as u8]
    }
}

/// The elements of a list, each followed by a separator.
pub open spec fn seq_items(f: PlyFormat, cs: Seq<CellModel>) -> Seq<u8>
    decreases cs.len(),
{
    if cs.len() == 0 {
        seq![]
    } else {
        seq_items(f, cs.drop_last()) + scalar_out(f, cs.last()) + separator(f)
    }
}

/// The bytes of a value: a scalar, or a list with its start.
pub open spec fn value_out(f: PlyFormat, v: ValueModel) -> Seq<u8> {
    match v {
        ValueModel::Scalar(c) => scalar_out(f, c),
        ValueModel::List(_, cs) => seq_start(f, cs.len()) + seq_items(f, cs),
    }
}

/// The bytes of a struct field: a separator before all but the first, then the value.
pub open spec fn field_out(f: PlyFormat, first: bool, v: ValueModel) -> Seq<u8> {
    (if first {
        seq![]
    } else {
        separator(f)
    }) + value_out(f, v)
}

/// The bytes of the fields of a struct, from the `start`-th field on.
pub open spec fn fields_out(f: PlyFormat, start: nat, vs: Seq<ValueModel>) -> Seq<u8>
    decreases vs.len(),
{
    if vs.len() == 0 {
        seq![]
    } else {
        fields_out(f, start, vs.drop_last()) + field_out(f, start + vs.len() - 1 == 0, vs.last())
    }
}

/// The bytes of a row: its fields, then a newline in the ASCII format.
pub open spec fn row_out(f: PlyFormat, vs: Seq<ValueModel>) -> Seq<u8> {
    fields_out(f, 0, vs) + (if f == PlyFormat::Ascii {
        seq![10u8]
    } else {
        seq![]
    })
}

pub open spec fn rows_out(f: PlyFormat, rows: Seq<Seq<FieldModel>>) -> Seq<u8>
    decreases rows.len(),
{
    if rows.len() == 0 {
        seq![]
    } else {
        rows_out(f, rows.drop_last()) + row_out(f, field_values(rows.last()))
    }
}

pub struct PlySerializerModel {
    pub out: Seq<u8>,
    pub header: Option<HeaderModel>,
    pub format: PlyFormat,
    pub current_field: nat,
}

/// Writes PLY data value by value, with an optional header.
pub struct PlySerializer {
    out: Vec<u8>,
    header: Option<PlyHeader>,
    format: PlyFormat,
    current_field: usize,
}

impl View for PlySerializer {
    type V = PlySerializerModel;

    closed spec fn view(&self) -> PlySerializerModel {
        PlySerializerModel {
            out: self.out@,
            header: match self.header {
                Some(h) => Some(h@),
                None => None,
            },
            format: self.format,
            current_field: self.current_field as nat,
        }
    }
}

/// Whether the format can start the lists of the value.
fn value_fits(f: PlyFormat, v: &PropertyValue) -> (r: bool)
    ensures
        r == value_seq_fits(f, v@),
{
    match v {
        PropertyValue::Scalar(_) => true,
        PropertyValue::List(_, cs) => match f {
            PlyFormat::Ascii => true,
            _ => cs.len() <= 255,
        },
    }
}

/// Whether the format can start the lists of every row.
fn rows_fit(f: PlyFormat, rows: &Vec<Vec<Field>>) -> (r: bool)
    ensures
        r == rows_seq_fit(f, crate::writer::field_rows_models(rows@)),
{
    let ghost rs = crate::writer::field_rows_models(rows@);
    let mut i: usize = 0;
    while i < rows.len()
        invariant
            i <= rows@.len(),
            rs == crate::writer::field_rows_models(rows@),
            forall|a: int, b: int| 0 <= a < i && 0 <= b < rs[a].len() ==> value_seq_fits(f, #[trigger] rs[a][b].value),
        decreases rows@.len() - i,
    {
        let row = &rows[i];
        assert(rs[i as int] == field_models(row@));
        let mut j: usize = 0;
        while j < row.len()
            invariant
                i < rows@.len(),
                row == &rows@[i as int],
                j <= row@.len(),
                rs == crate::writer::field_rows_models(rows@),
                rs[i as int] == field_models(row@),
                forall|a: int, b: int| 0 <= a < i && 0 <= b < rs[a].len() ==> value_seq_fits(f, #[trigger] rs[a][b].value),
                forall|b: int| 0 <= b < j ==> value_seq_fits(f, #[trigger] rs[i as int][b].value),
            decreases row@.len() - j,
        {
            assert(rs[i as int][j as int].value == row@[j as int].value@);
            if !value_fits(f, &row[j].value) {
                return false;
            }
            j = j + 1;
        }
        i = i + 1;
    }
    true
}

impl PlySerializer {
    /// A serializer of the format, without header.
    pub fn new(format: PlyFormat) -> (r: PlySerializer)
        ensures
            r@ == (PlySerializerModel { out: seq![], header: None, format, current_field: 0 }),
    {
        let r = PlySerializer { out: Vec::new(), header: None, format, current_field: 0 };
        assert(r@.out =~= Seq::<u8>::empty());
        r
    }

    /// A serializer that writes the header, in its format.
    pub fn with_header(header: PlyHeader) -> (r: PlySerializer)
        ensures
            r@ == (PlySerializerModel {
                out: seq![],
                header: Some(header@),
                format: header@.format,
                current_field: 0,
            }),
    {
        let format = header.format;
        let r = PlySerializer { out: Vec::new(), header: Some(header), format, current_field: 0 };
        assert(r@.out =~= Seq::<u8>::empty());
        r
    }

    /// Sets the header, and takes its format.
    pub fn set_header(&mut self, header: PlyHeader)
        ensures
            final(self)@ == (PlySerializerModel {
                header: Some(header@),
                format: header@.format,
                ..old(self)@
            }),
    {
        self.format = header.format;
        self.header = Some(header);
    }

    /// Writes the header, if there is one.
    pub fn write_header(&mut self)
        ensures
            final(self)@ == (PlySerializerModel {
                out: old(self)@.out + match old(self)@.header {
                    Some(h) => header_text(h),
                    None => seq![],
                },
                ..old(self)@
            }),
    {
        match &self.header {
            Some(h) => {
                h.write_to(&mut self.out);
            },
            None => {
                assert(self.out@ =~= self.out@ + Seq::<u8>::empty());
            },
        }
    }

    /// Writes one scalar.
    pub fn write_scalar(&mut self, c: &Cell)
        requires
            cell_writable(old(self)@.format == PlyFormat::Ascii, c@),
        ensures
            final(self)@ == (PlySerializerModel { out: old(self)@.out + scalar_out(old(self)@.format, c@), ..old(self)@ }),
    {
        match self.format {
            PlyFormat::Ascii => match c {
                Cell::Num(v) => push_int(&mut self.out, *v),
                Cell::Text(_, t) => append_bytes(&mut self.out, t.as_slice()),
            },
            _ => self.write_binary_scalar(c),
        }
    }

    /// Writes one scalar in a binary format.
    fn write_binary_scalar(&mut self, c: &Cell)
        requires
            old(self)@.format != PlyFormat::Ascii,
        ensures
            final(self)@ == (PlySerializerModel { out: old(self)@.out + scalar_out(old(self)@.format, c@), ..old(self)@ }),
    {
        let big = match self.format {
            PlyFormat::BinaryBigEndian => true,
            _ => false,
        };
        match c {
            Cell::Num(v) => write_scalar(big, *v, &mut self.out),
            Cell::Text(_, _) => {
                assert(self.out@ =~= self.out@ + Seq::<u8>::empty());
            },
        }
    }

    /// Starts a list of `len` elements; in a binary format, a list longer than its
    /// one-byte count holds is refused and nothing is written.
    pub fn serialize_seq(&mut self, len: usize) -> (r: Result<(), SerializeError>)
        ensures
            seq_fits(old(self)@.format, len as nat) ==> r is Ok && final(self)@ == (PlySerializerModel {
                out: old(self)@.out + seq_start(old(self)@.format, len as nat),
                ..old(self)@
            }),
            !seq_fits(old(self)@.format, len as nat) ==> r == Err::<(), SerializeError>(
                SerializeError(SerializeCause::ListTooLong),
            ) && final(self)@ == old(self)@,
    {
        match self.format {
            PlyFormat::Ascii => {
                push_decimal(&mut self.out, len as u64);
                self.out.push(32u8);
            },
            _ => {
                if len > 255 {
                    return Err(SerializeError(SerializeCause::ListTooLong));
                }
                self.out.push(len as u8);
            },
        }
        assert(self.out@ =~= old(self)@.out + seq_start(old(self)@.format, len as nat));
        Ok(())
    }

    /// Writes one element of a list, and a separator.
    pub fn serialize_seq_element(&mut self, c: &Cell)
        requires
            cell_writable(old(self)@.format == PlyFormat::Ascii, c@),
        ensures
            final(self)@ == (PlySerializerModel {
                out: old(self)@.out + scalar_out(old(self)@.format, c@) + separator(old(self)@.format),
                ..old(self)@
            }),
    {
        self.write_scalar(c);
        match self.format {
            PlyFormat::Ascii => self.out.push(32u8),
            _ => {},
        }
        assert(self.out@ =~= old(self)@.out + scalar_out(old(self)@.format, c@) + separator(old(self)@.format));
    }

    /// Writes one value.
    fn write_value(&mut self, v: &PropertyValue)
        requires
            value_writable(old(self)@.format == PlyFormat::Ascii, v@),
            value_seq_fits(old(self)@.format, v@),
        ensures
            final(self)@ == (PlySerializerModel { out: old(self)@.out + value_out(old(self)@.format, v@), ..old(self)@ }),
    {
        match v {
            PropertyValue::Scalar(c) => self.write_scalar(c),
            PropertyValue::List(_, cs) => {
                let started = self.serialize_seq(cs.len());
                let ghost start = self@.out;
                let ghost ms = cell_models(cs@);
                let mut i: usize = 0;
                assert(ms.take(0) =~= Seq::<CellModel>::empty());
                while i < cs.len()
                    invariant
                        i <= cs@.len(),
                        ms == cell_models(cs@),
                        value_writable(self@.format == PlyFormat::Ascii, v@),
                        v@ == ValueModel::List(v@->List_0, ms),
                        self@ == (PlySerializerModel { out: self@.out, ..old(self)@ }),
                        self@.out == start + seq_items(self@.format, ms.take(i as int)),
                    decreases cs@.len() - i,
                {
                    assert(ms[i as int] == cs@[i as int]@);
                    assert(v@->List_1[i as int] == ms[i as int]);
                    assert(cell_writable(self@.format == PlyFormat::Ascii, ms[i as int]));
                    self.serialize_seq_element(&cs[i]);
                    i = i + 1;
                    assert(ms.take(i as int).drop_last() =~= ms.take(i - 1));
                }
                assert(ms.take(cs@.len() as int) =~= ms);
                assert(self@.out =~= old(self)@.out + value_out(old(self)@.format, v@));
            },
        }
    }

    /// Writes the next field of a struct: after a separator unless it is the first.
    /// A list that its format cannot start is refused, and nothing is written.
    pub fn serialize_field(&mut self, v: &PropertyValue) -> (r: Result<(), SerializeError>)
        requires
            value_writable(old(self)@.format == PlyFormat::Ascii, v@),
            old(self)@.current_field < usize::MAX,
        ensures
            value_seq_fits(old(self)@.format, v@) ==> r is Ok && final(self)@ == (PlySerializerModel {
                out: old(self)@.out + field_out(old(self)@.format, old(self)@.current_field == 0, v@),
                current_field: old(self)@.current_field + 1,
                ..old(self)@
            }),
            !value_seq_fits(old(self)@.format, v@) ==> r == Err::<(), SerializeError>(
                SerializeError(SerializeCause::ListTooLong),
            ) && final(self)@ == old(self)@,
    {
        if !value_fits(self.format, v) {
            return Err(SerializeError(SerializeCause::ListTooLong));
        }
        if self.current_field > 0 {
            match self.format {
                PlyFormat::Ascii => self.out.push(32u8),
                _ => {},
            }
        }
        let ghost mid = self@.out;
        self.write_value(v);
        self.current_field = self.current_field + 1;
        assert(self@.out =~= old(self)@.out + field_out(old(self)@.format, old(self)@.current_field == 0, v@));
        Ok(())
    }

    /// Writes the header, then each row as a struct of its fields, with a newline
    /// after each in the ASCII format. Rows with a list that the format cannot start
    /// are refused, and nothing is written.
    pub fn serialize_element(&mut self, rows: &Vec<Vec<Field>>) -> (r: Result<(), SerializeError>)
        requires
            forall|i: int|
                0 <= i < rows@.len() ==> crate::value::row_writable(
                    old(self)@.format == PlyFormat::Ascii,
                    #[trigger] field_values(field_models(rows@[i]@)),
                ),
        ensures
            rows_seq_fit(old(self)@.format, crate::writer::field_rows_models(rows@)) ==> r is Ok
                && final(self)@.out == old(self)@.out + match old(self)@.header {
                Some(h) => header_text(h),
                None => seq![],
            } + rows_out(old(self)@.format, crate::writer::field_rows_models(rows@))
                && final(self)@.header == old(self)@.header && final(self)@.format == old(
                self,
            )@.format,
            !rows_seq_fit(old(self)@.format, crate::writer::field_rows_models(rows@)) ==> r
                == Err::<(), SerializeError>(SerializeError(SerializeCause::ListTooLong))
                && final(self)@ == old(self)@,
    {
        if !rows_fit(self.format, rows) {
            return Err(SerializeError(SerializeCause::ListTooLong));
        }
        self.write_header();
        let ghost start = self@.out;
        let ghost rs = crate::writer::field_rows_models(rows@);
        let mut i: usize = 0;
        assert(rs.take(0) =~= Seq::<Seq<FieldModel>>::empty());
        while i < rows.len()
            invariant
                i <= rows@.len(),
                rs == crate::writer::field_rows_models(rows@),
                self@.format == old(self)@.format,
                self@.header == old(self)@.header,
                forall|k: int|
                    0 <= k < rows@.len() ==> crate::value::row_writable(
                        old(self)@.format == PlyFormat::Ascii,
                        #[trigger] field_values(field_models(rows@[k]@)),
                    ),
                self@.out == start + rows_out(self@.format, rs.take(i as int)),
                rows_seq_fit(self@.format, rs),
            decreases rows@.len() - i,
        {
            let row = &rows[i];
            let ghost vs = field_values(field_models(row@));
            let ghost row_start = self@.out;
            self.current_field = 0;
            let mut j: usize = 0;
            assert(vs.take(0) =~= Seq::<ValueModel>::empty());
            while j < row.len()
                invariant
                    j <= row@.len(),
                    vs == field_values(field_models(row@)),
                    crate::value::row_writable(self@.format == PlyFormat::Ascii, vs),
                    self@.format == old(self)@.format,
                    self@.header == old(self)@.header,
                    self@.current_field == j,
                    self@.out == row_start + fields_out(self@.format, 0, vs.take(j as int)),
                    rs[i as int] == field_models(row@),
                    rows_seq_fit(self@.format, rs),
                    i < rs.len(),
                decreases row@.len() - j,
            {
                assert(vs[j as int] == row@[j as int].value@);
                assert(rs[i as int][j as int].value == vs[j as int]);
                let _ = self.serialize_field(&row[j].value);
                j = j + 1;
                assert(vs.take(j as int).drop_last() =~= vs.take(j - 1));
            }
            assert(vs.take(row@.len() as int) =~= vs);
            match self.format {
                PlyFormat::Ascii => self.out.push(10u8),
                _ => {},
            }
            i = i + 1;
            proof {
                assert(rs.take(i as int).drop_last() =~= rs.take(i - 1));
                assert(rs.take(i as int).last() == field_models(row@));
                assert(self@.out =~= start + rows_out(self@.format, rs.take(i as int)));
            }
        }
        assert(rs.take(rows@.len() as int) =~= rs);
        Ok(())
    }

    /// The bytes written so far.
    pub fn output(&self) -> (r: &Vec<u8>)
        ensures
            r@ == self@.out,
    {
        &self.out
    }

    /// The bytes written.
    pub fn into_output(self) -> (r: Vec<u8>)
        ensures
            r@ == self@.out,
    {
        self.out
    }
}

} // verus!
