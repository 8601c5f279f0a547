use serde_ply::error::SerializeCause;
use serde_ply::header::{ElementDef, PlyHeader, PlyProperty, PropertyType};
use serde_ply::reader::from_bytes;
use serde_ply::scalar::{PlyFormat, ScalarType};
use serde_ply::serializer::PlySerializer;
use serde_ply::value::{Cell, Field, PropertyValue, ScalarValue};
use serde_ply::writer::{
    to_bytes, to_string, ElementData, ElementSeqSerializer, HeaderCollector, SerializeOptions,
};

fn options(format: PlyFormat) -> SerializeOptions {
    SerializeOptions::new(format)
}

fn f32_cell(format: PlyFormat, v: f32) -> Cell {
    match format {
        PlyFormat::Ascii => Cell::Text(ScalarType::F32, format!("{}", v).into_bytes()),
        _ => Cell::Num(ScalarValue::F32(v.to_bits())),
    }
}

fn f64_cell(format: PlyFormat, v: f64) -> Cell {
    match format {
        PlyFormat::Ascii => Cell::Text(ScalarType::F64, format!("{}", v).into_bytes()),
        _ => Cell::Num(ScalarValue::F64(v.to_bits())),
    }
}

fn number(c: &Cell) -> f64 {
    match c {
        Cell::Num(ScalarValue::I8(x)) => *x as f64,
        Cell::Num(ScalarValue::U8(x)) => *x as f64,
        Cell::Num(ScalarValue::I16(x)) => *x as f64,
        Cell::Num(ScalarValue::U16(x)) => *x as f64,
        Cell::Num(ScalarValue::I32(x)) => *x as f64,
        Cell::Num(ScalarValue::U32(x)) => *x as f64,
        Cell::Num(ScalarValue::F32(b)) => f32::from_bits(*b) as f64,
        Cell::Num(ScalarValue::F64(b)) => f64::from_bits(*b),
        Cell::Text(_, t) => std::str::from_utf8(t).unwrap().parse::<f64>().unwrap(),
    }
}

fn numbers(v: &PropertyValue) -> Vec<f64> {
    match v {
        PropertyValue::Scalar(c) => vec![number(c)],
        PropertyValue::List(_, cs) => cs.iter().map(number).collect(),
    }
}

fn field(name: &str, value: PropertyValue) -> Field {
    Field { name: name.to_string(), value }
}

fn vertex(format: PlyFormat, x: f32, y: f32, z: f32) -> Vec<Field> {
    vec![
        field("x", PropertyValue::Scalar(f32_cell(format, x))),
        field("y", PropertyValue::Scalar(f32_cell(format, y))),
        field("z", PropertyValue::Scalar(f32_cell(format, z))),
    ]
}

fn face(indices: &[u32]) -> Vec<Field> {
    vec![field(
        "vertex_indices",
        PropertyValue::List(ScalarType::U8, indices.iter().map(|i| Cell::Num(ScalarValue::U32(*i))).collect()),
    )]
}

fn test_mesh(format: PlyFormat) -> Vec<ElementData> {
    vec![
        ElementData {
            name: "vertex".to_string(),
            rows: vec![
                vertex(format, 0.0, 0.0, 0.0),
                vertex(format, 1.0, 0.0, 0.0),
                vertex(format, 0.0, 1.0, 0.0),
            ],
        },
        ElementData { name: "face".to_string(), rows: vec![face(&[0, 1, 2])] },
    ]
}

fn all_types(format: PlyFormat) -> Vec<ElementData> {
    let row = |a: i8, b: u8, c: i16, d: u16, e: i32, f: u32, g: f32, h: f64| {
        vec![
            field("i8_val", PropertyValue::Scalar(Cell::Num(ScalarValue::I8(a)))),
            field("u8_val", PropertyValue::Scalar(Cell::Num(ScalarValue::U8(b)))),
            field("i16_val", PropertyValue::Scalar(Cell::Num(ScalarValue::I16(c)))),
            field("u16_val", PropertyValue::Scalar(Cell::Num(ScalarValue::U16(d)))),
            field("i32_val", PropertyValue::Scalar(Cell::Num(ScalarValue::I32(e)))),
            field("u32_val", PropertyValue::Scalar(Cell::Num(ScalarValue::U32(f)))),
            field("f32_val", PropertyValue::Scalar(f32_cell(format, g))),
            field("f64_val", PropertyValue::Scalar(f64_cell(format, h))),
        ]
    };
    vec![ElementData {
        name: "row".to_string(),
        rows: vec![
            row(-42, 255, -1000, 65000, -100000, 4000000000, 3.0, 2.5),
            row(127, 0, 32767, 0, 2147483647, 0, -1.5, 1e-10),
        ],
    }]
}

/// Writes the data, reads it back, and compares every number.
fn roundtrip(data: &[ElementData], format: PlyFormat) {
    let bytes = to_bytes(&data.to_vec(), options(format)).unwrap();
    let parsed = from_bytes(&bytes).unwrap();
    assert_eq!(parsed.header.format, format);
    assert_eq!(parsed.elements.len(), data.len());
    for (element, rows) in data.iter().zip(parsed.elements.iter()) {
        assert_eq!(element.rows.len(), rows.len());
        for (written, read) in element.rows.iter().zip(rows.iter()) {
            let a: Vec<Vec<f64>> = written.iter().map(|f| numbers(&f.value)).collect();
            let b: Vec<Vec<f64>> = read.iter().map(numbers).collect();
            assert_eq!(a, b);
        }
    }
}

#[test]
fn roundtrip_ascii() {
    let mesh = test_mesh(PlyFormat::Ascii);
    let bytes = to_bytes(&mesh, options(PlyFormat::Ascii)).unwrap();
    let str = String::from_utf8(bytes.clone()).unwrap();
    println!("Output: {str}");
    roundtrip(&mesh, PlyFormat::Ascii);
}

#[test]
fn roundtrip_binary_little_endian() {
    roundtrip(&test_mesh(PlyFormat::BinaryLittleEndian), PlyFormat::BinaryLittleEndian);
}

#[test]
fn roundtrip_binary_big_endian() {
    roundtrip(&test_mesh(PlyFormat::BinaryBigEndian), PlyFormat::BinaryBigEndian);
}

#[test]
fn roundtrip_all_types_ascii() {
    roundtrip(&all_types(PlyFormat::Ascii), PlyFormat::Ascii);
}

#[test]
fn roundtrip_all_types_binary_le() {
    roundtrip(&all_types(PlyFormat::BinaryLittleEndian), PlyFormat::BinaryLittleEndian);
}

#[test]
fn roundtrip_all_types_binary_be() {
    roundtrip(&all_types(PlyFormat::BinaryBigEndian), PlyFormat::BinaryBigEndian);
}

#[test]
fn roundtrip_empty_elements() {
    let empty = vec![
        ElementData { name: "vertex".to_string(), rows: vec![] },
        ElementData { name: "face".to_string(), rows: vec![] },
    ];
    roundtrip(&empty, PlyFormat::Ascii);
}

#[test]
fn test_binary_round_trip() {
    let format = PlyFormat::BinaryLittleEndian;
    let data = vec![ElementData {
        name: "vertex".to_string(),
        rows: vec![vertex(format, 1.0, 2.0, 3.0), vertex(format, 4.0, 5.0, 6.0)],
    }];
    roundtrip(&data, format);
}

#[test]
fn test_ascii_round_trip() {
    let format = PlyFormat::Ascii;
    let data = vec![ElementData {
        name: "vertex".to_string(),
        rows: vec![vertex(format, 1.0, 2.0, 3.0), vertex(format, 4.0, 5.0, 6.0)],
    }];
    roundtrip(&data, format);
}

fn xyz_header(format: PlyFormat, count: usize, comments: Vec<String>) -> PlyHeader {
    let prop = |name: &str| PlyProperty {
        name: name.to_string(),
        property_type: PropertyType::Scalar(ScalarType::F32),
    };
    PlyHeader {
        format,
        version: "1.0".to_string(),
        elem_defs: vec![ElementDef {
            name: "vertex".to_string(),
            count,
            properties: vec![prop("x"), prop("y"), prop("z")],
        }],
        comments,
        obj_info: vec![],
    }
}

#[test]
fn test_header_serialization() {
    let header = xyz_header(PlyFormat::Ascii, 3, vec!["Test PLY file".to_string()]);
    let mut serializer = PlySerializer::with_header(header);
    serializer.write_header();
    let result = String::from_utf8(serializer.into_output()).unwrap();
    assert!(result.contains("ply"));
    assert!(result.contains("format ascii 1.0"));
    assert!(result.contains("comment Test PLY file"));
    assert!(result.contains("element vertex 3"));
    assert!(result.contains("property float x"));
    assert!(result.contains("end_header"));
}

#[test]
fn test_simple_ascii_output() {
    let format = PlyFormat::Ascii;
    let vertices = vec![vertex(format, 1.0, 2.0, 3.0), vertex(format, 4.0, 5.0, 6.0)];
    let mut serializer = PlySerializer::with_header(xyz_header(format, vertices.len(), vec![]));
    serializer.serialize_element(&vertices).unwrap();
    let ply_string = String::from_utf8(serializer.into_output()).unwrap();
    assert!(ply_string.contains("ply"));
    assert!(ply_string.contains("format ascii 1.0"));
    assert!(ply_string.contains("element vertex 2"));
    assert!(ply_string.contains("1 2 3"));
    assert!(ply_string.contains("4 5 6"));
}

#[test]
fn test_complete_binary_ply_file() {
    let format = PlyFormat::BinaryLittleEndian;
    let vertices = vec![vertex(format, 1.0, 2.0, 3.0), vertex(format, 4.0, 5.0, 6.0)];
    let mut serializer =
        PlySerializer::with_header(xyz_header(format, vertices.len(), vec!["Generated test file".to_string()]));
    serializer.serialize_element(&vertices).unwrap();
    let result = serializer.into_output();
    assert!(!result.is_empty());
    let header_str = String::from_utf8_lossy(&result[..result.len().min(200)]);
    assert!(header_str.contains("ply"));
    assert!(header_str.contains("binary_little_endian"));
    assert!(header_str.contains("vertex 2"));
}

#[test]
fn test_to_string_rejects_binary_format() {
    let format = PlyFormat::BinaryLittleEndian;
    let data = vec![ElementData { name: "vertex".to_string(), rows: vec![vertex(format, 1.0, 2.0, 3.0)] }];
    let result = to_string(&data, options(format));
    assert!(result.is_err());
    assert_eq!(result.err().unwrap().0, SerializeCause::NotAscii);
}

#[test]
fn ascii_text_has_the_expected_lines() {
    let format = PlyFormat::Ascii;
    let data = vec![
        ElementData { name: "vertex".to_string(), rows: vec![vertex(format, 1.0, 2.5, -3.0)] },
        ElementData { name: "face".to_string(), rows: vec![face(&[0, 1, 2])] },
    ];
    let text = to_string(
        &data,
        SerializeOptions::ascii()
            .with_comments(vec!["made here".to_string()])
            .with_obj_info(vec!["info".to_string()]),
    )
    .unwrap();
    assert_eq!(
        text,
        "ply\nformat ascii 1.0\ncomment made here\nobj_info info\nelement vertex 1\nproperty float x\nproperty float y\nproperty float z\nelement face 1\nproperty list uchar uint32 vertex_indices\nend_header\n1 2.5 -3 \n3 0 1 2 \n"
    );
}

#[test]
fn comments_are_added_in_order() {
    let opts = SerializeOptions::binary_be()
        .with_comments(vec!["a".to_string()])
        .with_comments(vec!["b".to_string(), "c".to_string()]);
    assert_eq!(opts.format(), PlyFormat::BinaryBigEndian);
    let data = vec![ElementData { name: "e".to_string(), rows: vec![] }];
    let header = HeaderCollector::from_options(opts).collect(&data).unwrap();
    assert_eq!(header.comments, vec!["a".to_string(), "b".to_string(), "c".to_string()]);
    assert_eq!(header.elem_defs[0].count, 0);
    assert!(header.elem_defs[0].properties.is_empty());
}

#[test]
fn list_longer_than_its_count_type_is_refused() {
    let rows = vec![vec![field(
        "v",
        PropertyValue::List(ScalarType::U8, (0..256).map(|i| Cell::Num(ScalarValue::U32(i))).collect()),
    )]];
    let data = vec![ElementData { name: "e".to_string(), rows }];
    let err = to_bytes(&data, SerializeOptions::binary_le()).err().unwrap();
    assert_eq!(err.0, SerializeCause::ListTooLong);
}

#[test]
fn list_of_doubles_cannot_be_declared() {
    let rows = vec![vec![field(
        "v",
        PropertyValue::List(ScalarType::U8, vec![Cell::Num(ScalarValue::F64(0))]),
    )]];
    let data = vec![ElementData { name: "e".to_string(), rows }];
    let err = to_bytes(&data, SerializeOptions::binary_le()).err().unwrap();
    assert_eq!(err.0, SerializeCause::UnsupportedType);
}

#[test]
fn wider_count_types_write_their_count() {
    let rows = vec![vec![field(
        "v",
        PropertyValue::List(ScalarType::U16, (0..300).map(|i| Cell::Num(ScalarValue::U8((i % 256) as u8))).collect()),
    )]];
    let data = vec![ElementData { name: "e".to_string(), rows }];
    let bytes = to_bytes(&data, SerializeOptions::binary_le()).unwrap();
    let text = String::from_utf8_lossy(&bytes);
    assert!(text.contains("property list ushort uint8 v\n"));
    let parsed = from_bytes(&bytes).unwrap();
    match &parsed.elements[0][0][0] {
        PropertyValue::List(ct, cs) => {
            assert_eq!(*ct, ScalarType::U16);
            assert_eq!(cs.len(), 300);
        }
        _ => panic!("a list"),
    }
}

#[test]
fn element_writer_checks_the_row_count() {
    let row = vertex(PlyFormat::BinaryLittleEndian, 1.0, 2.0, 3.0);
    let mut ser = ElementSeqSerializer::new(PlyFormat::BinaryLittleEndian, 1);
    ser.serialize_element(&row).unwrap();
    assert_eq!(ser.serialize_element(&row).err().unwrap().0, SerializeCause::TooManyRows);
    assert_eq!(ser.end().unwrap().len(), 12);
    let ser = ElementSeqSerializer::new(PlyFormat::Ascii, 2);
    assert_eq!(ser.end().err().unwrap().0, SerializeCause::RowCountMismatch);
}

#[test]
fn legacy_serializer_writes_ascii_lists_with_their_length() {
    let mut serializer = PlySerializer::new(PlyFormat::Ascii);
    serializer.serialize_field(&PropertyValue::Scalar(Cell::Num(ScalarValue::I16(-7)))).unwrap();
    serializer.serialize_field(&PropertyValue::List(
        ScalarType::U8,
        vec![Cell::Num(ScalarValue::U32(4)), Cell::Num(ScalarValue::U32(5))],
    )).unwrap();
    assert_eq!(serializer.output().as_slice(), b"-7 2 4 5 ");
}

#[test]
fn set_header_takes_the_header_format() {
    let mut serializer = PlySerializer::new(PlyFormat::Ascii);
    serializer.set_header(xyz_header(PlyFormat::BinaryBigEndian, 1, vec![]));
    serializer.write_scalar(&Cell::Num(ScalarValue::U16(0x0102)));
    assert_eq!(serializer.output().as_slice(), &[1u8, 2]);
}

#[test]
fn test_big_endian_format() {
    let header = xyz_header(PlyFormat::BinaryBigEndian, 2, vec!["Big endian test".to_string()]);
    let mut serializer = PlySerializer::with_header(header.clone());
    serializer.set_header(header.clone());
    assert_eq!(header.format, PlyFormat::BinaryBigEndian);
    assert_eq!(header.elem_defs[0].properties.len(), 3);
}

#[test]
fn ascii_string_is_the_written_bytes() {
    let format = PlyFormat::Ascii;
    let data = vec![
        ElementData { name: "vértice".to_string(), rows: vec![vertex(format, -1.5, 2.0, 1e-3)] },
        ElementData { name: "face".to_string(), rows: vec![face(&[0, 1, 2])] },
    ];
    let opts = || SerializeOptions::ascii().with_comments(vec!["hé ✓".to_string()]);
    let bytes = to_bytes(&data, opts()).unwrap();
    let text = to_string(&data, opts()).unwrap();
    assert_eq!(text.into_bytes(), bytes);
}

#[test]
fn writability_can_be_tested() {
    let ascii = vec![ElementData { name: "v".to_string(), rows: vec![vertex(PlyFormat::Ascii, 1.0, 2.0, 3.0)] }];
    let binary = vec![ElementData { name: "v".to_string(), rows: vec![vertex(PlyFormat::BinaryLittleEndian, 1.0, 2.0, 3.0)] }];
    assert!(serde_ply::writer::data_is_writable(true, &ascii));
    assert!(!serde_ply::writer::data_is_writable(false, &ascii));
    assert!(serde_ply::writer::data_is_writable(false, &binary));
    assert!(!serde_ply::writer::data_is_writable(true, &binary));
    let odd = vec![ElementData {
        name: "v".to_string(),
        rows: vec![vec![field("x", PropertyValue::Scalar(Cell::Text(ScalarType::F32, "é".as_bytes().to_vec())))]],
    }];
    assert!(!serde_ply::writer::data_is_writable(true, &odd));
}
