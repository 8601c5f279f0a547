use serde_ply::ascii::{parse_int, push_int, AsciiValReader};
use serde_ply::binary::{read_scalar, write_scalar};
use serde_ply::error::{DeserializeCause, SerializeCause};
use serde_ply::header::{PlyProperty, PropertyType};
use serde_ply::list_count::{ListCountType, ListCountU16, ListCountU32, ListCountU8};
use serde_ply::row::{read_available, read_row, read_rows, write_row, AsciiValWriter};
use serde_ply::scalar::{PlyFormat, ScalarType};
use serde_ply::value::{Cell, Field, PropertyValue, ScalarValue};

fn prop(name: &str, t: PropertyType) -> PlyProperty {
    PlyProperty { name: name.to_string(), property_type: t }
}

fn field(name: &str, value: PropertyValue) -> Field {
    Field { name: name.to_string(), value }
}

#[test]
fn binary_scalars_have_their_byte_order() {
    let mut out = Vec::new();
    write_scalar(true, ScalarValue::U16(0x0102), &mut out);
    write_scalar(false, ScalarValue::U16(0x0102), &mut out);
    write_scalar(true, ScalarValue::I32(-2), &mut out);
    write_scalar(false, ScalarValue::F64(1.5f64.to_bits()), &mut out);
    write_scalar(true, ScalarValue::I8(-1), &mut out);
    assert_eq!(&out[..8], &[1, 2, 2, 1, 0xff, 0xff, 0xff, 0xfe]);
    assert_eq!(&out[8..16], &1.5f64.to_le_bytes());
    assert_eq!(out[16], 0xff);
    assert_eq!(read_scalar(true, ScalarType::U16, &out, 0), ScalarValue::U16(0x0102));
    assert_eq!(read_scalar(false, ScalarType::U16, &out, 2), ScalarValue::U16(0x0102));
    assert_eq!(read_scalar(true, ScalarType::I32, &out, 4), ScalarValue::I32(-2));
    assert_eq!(read_scalar(false, ScalarType::F64, &out, 8), ScalarValue::F64(1.5f64.to_bits()));
    assert_eq!(read_scalar(true, ScalarType::I8, &out, 16), ScalarValue::I8(-1));
    assert_eq!(read_scalar(false, ScalarType::U32, &[4, 3, 2, 1], 0), ScalarValue::U32(0x01020304));
    assert_eq!(read_scalar(true, ScalarType::F32, &[0x3f, 0xc0, 0, 0], 0), ScalarValue::F32(1.5f32.to_bits()));
}

#[test]
fn every_scalar_reads_back_in_both_orders() {
    let values = [
        ScalarValue::I8(-128),
        ScalarValue::U8(200),
        ScalarValue::I16(-12345),
        ScalarValue::U16(54321),
        ScalarValue::I32(i32::MIN),
        ScalarValue::U32(u32::MAX),
        ScalarValue::F32((-0.25f32).to_bits()),
        ScalarValue::F64(std::f64::consts::PI.to_bits()),
    ];
    for big in [false, true] {
        for v in values {
            let mut out = vec![9u8];
            write_scalar(big, v, &mut out);
            assert_eq!(out.len(), 1 + v.scalar_type().size());
            assert_eq!(read_scalar(big, v.scalar_type(), &out, 1), v);
        }
    }
}

#[test]
fn integers_read_back_from_their_text() {
    for v in [
        ScalarValue::I8(-128),
        ScalarValue::U8(255),
        ScalarValue::I16(0),
        ScalarValue::U16(65535),
        ScalarValue::I32(-2147483648),
        ScalarValue::U32(4294967295),
    ] {
        let mut out = Vec::new();
        push_int(&mut out, v);
        assert_eq!(parse_int(v.scalar_type(), &out), Some(v));
    }
    let mut out = Vec::new();
    push_int(&mut out, ScalarValue::I16(-305));
    assert_eq!(out, b"-305".to_vec());
}

#[test]
fn integer_text_is_checked() {
    assert_eq!(parse_int(ScalarType::U8, b"+5"), Some(ScalarValue::U8(5)));
    assert_eq!(parse_int(ScalarType::U8, b"256"), None);
    assert_eq!(parse_int(ScalarType::U8, b"-1"), None);
    assert_eq!(parse_int(ScalarType::U8, b"-0"), None);
    assert_eq!(parse_int(ScalarType::I8, b"-0"), Some(ScalarValue::I8(0)));
    assert_eq!(parse_int(ScalarType::I8, b"-129"), None);
    assert_eq!(parse_int(ScalarType::I32, b"1.0"), None);
    assert_eq!(parse_int(ScalarType::I32, b"+"), None);
    assert_eq!(parse_int(ScalarType::U32, b""), None);
}

#[test]
fn tokens_need_whitespace_after_them() {
    assert_eq!(AsciiValReader::read_ascii_token(b"  12 x", 0).unwrap(), (b"12".to_vec(), 5));
    assert_eq!(AsciiValReader::read_ascii_token(b"\t\r\n7\n", 0).unwrap(), (b"7".to_vec(), 5));
    assert_eq!(AsciiValReader::read_ascii_token(b"12", 0).err().unwrap().0, DeserializeCause::UnexpectedEof);
    assert_eq!(AsciiValReader::read_ascii_token(b"   ", 0).err().unwrap().0, DeserializeCause::UnexpectedEof);
    let _reader = AsciiValReader::new();
}

#[test]
fn rows_read_back_as_written() {
    let props = vec![
        prop("a", PropertyType::Scalar(ScalarType::I16)),
        prop("b", PropertyType::List { count_type: ScalarType::U8, data_type: ScalarType::U32 }),
        prop("c", PropertyType::Scalar(ScalarType::F32)),
    ];
    for format in [PlyFormat::Ascii, PlyFormat::BinaryLittleEndian, PlyFormat::BinaryBigEndian] {
        let c = match format {
            PlyFormat::Ascii => Cell::Text(ScalarType::F32, b"-2.5".to_vec()),
            _ => Cell::Num(ScalarValue::F32((-2.5f32).to_bits())),
        };
        let row = vec![
            field("a", PropertyValue::Scalar(Cell::Num(ScalarValue::I16(-3)))),
            field(
                "b",
                PropertyValue::List(ScalarType::U8, vec![Cell::Num(ScalarValue::U32(7)), Cell::Num(ScalarValue::U32(8))]),
            ),
            field("c", PropertyValue::Scalar(c)),
        ];
        let mut out = Vec::new();
        write_row(format, &row, &mut out).unwrap();
        write_row(format, &row, &mut out).unwrap();
        let values: Vec<PropertyValue> = row.iter().map(|f| f.value.clone()).collect();
        let (back, _) = read_row(format, &props, &out, 0).unwrap();
        assert_eq!(back, values);
        let (both, end) = read_rows(format, &props, &out, 0, 2).unwrap();
        assert_eq!(both, vec![values.clone(), values.clone()]);
        assert!(end <= out.len());
        if format == PlyFormat::Ascii {
            assert_eq!(out, b"-3 2 7 8 -2.5 \n-3 2 7 8 -2.5 \n".to_vec());
        }
    }
}

#[test]
fn rows_that_end_early_are_left_for_later() {
    let props = vec![prop("a", PropertyType::Scalar(ScalarType::U16))];
    let data = [1u8, 0, 2, 0, 3];
    let (rows, used) = read_available(PlyFormat::BinaryLittleEndian, &props, &data, 0, 5).unwrap();
    assert_eq!(rows.len(), 2);
    assert_eq!(used, 4);
    assert_eq!(
        read_rows(PlyFormat::BinaryLittleEndian, &props, &data, 0, 3).err(),
        Some(DeserializeCause::UnexpectedEof)
    );
}

#[test]
fn negative_counts_run_out_of_data() {
    let props = vec![prop("a", PropertyType::List { count_type: ScalarType::I8, data_type: ScalarType::U8 })];
    let data = [0xffu8, 1, 2, 3];
    assert_eq!(
        read_row(PlyFormat::BinaryLittleEndian, &props, &data, 0).err(),
        Some(DeserializeCause::UnexpectedEof)
    );
}

#[test]
fn float_counts_read_when_integral() {
    let list = |ct: ScalarType, dt: ScalarType| vec![prop("a", PropertyType::List { count_type: ct, data_type: dt })];
    let props = list(ScalarType::F32, ScalarType::U8);
    let (row, end) = read_row(PlyFormat::Ascii, &props, b"2 1 1 ", 0).unwrap();
    assert_eq!(end, 6);
    assert_eq!(
        row,
        vec![PropertyValue::List(ScalarType::F32, vec![Cell::Num(ScalarValue::U8(1)), Cell::Num(ScalarValue::U8(1))])]
    );
    let props = list(ScalarType::F32, ScalarType::I32);
    let (row, _) = read_row(PlyFormat::Ascii, &props, b"3 1 2 3\n", 0).unwrap();
    match &row[0] {
        PropertyValue::List(_, cs) => assert_eq!(cs.len(), 3),
        _ => panic!("a list"),
    }
    let props = list(ScalarType::F64, ScalarType::U8);
    assert!(read_row(PlyFormat::Ascii, &props, b"+1 7 ", 0).is_ok());
    // Fractions, exponents and counts beyond what the type holds exactly are refused.
    for text in [&b"2.5 1 1 "[..], b"1e1 1 ", b"-1 1 ", b"9007199254740993 1 "] {
        assert_eq!(read_row(PlyFormat::Ascii, &props, text, 0).err(), Some(DeserializeCause::FloatListCount));
    }
    assert_eq!(
        read_row(PlyFormat::Ascii, &list(ScalarType::F32, ScalarType::U8), b"16777217 1 ", 0).err(),
        Some(DeserializeCause::FloatListCount)
    );
    // In the binary formats a floating-point count is refused.
    let data = 2.0f32.to_le_bytes();
    assert_eq!(
        read_row(PlyFormat::BinaryLittleEndian, &list(ScalarType::F32, ScalarType::U8), &data, 0).err(),
        Some(DeserializeCause::FloatListCount)
    );
    let row = vec![field("a", PropertyValue::List(ScalarType::F64, vec![]))];
    let mut out = vec![1u8];
    assert_eq!(write_row(PlyFormat::BinaryLittleEndian, &row, &mut out), Err(SerializeCause::FloatListCount));
    assert_eq!(out, vec![1u8]);
}

#[test]
fn ascii_writer_separates_values() {
    let mut w = AsciiValWriter::new();
    w.write_value(&Cell::Num(ScalarValue::U8(1)));
    w.write_value(&Cell::Text(ScalarType::F64, b"0.5".to_vec()));
    w.write_row_end();
    assert_eq!(w.into_bytes(), b"1 0.5 \n".to_vec());
}

#[test]
fn list_count_wrappers_name_their_count_type() {
    assert_eq!(<ListCountU8<Vec<u32>> as ListCountType>::count_scalar_type(), ScalarType::U8);
    assert_eq!(<ListCountU16<Vec<u32>> as ListCountType>::count_scalar_type(), ScalarType::U16);
    assert_eq!(<ListCountU32<Vec<u32>> as ListCountType>::count_scalar_type(), ScalarType::U32);
    let wrapped = ListCountU8(vec![1u32]);
    assert_eq!(wrapped.0, vec![1u32]);
}
