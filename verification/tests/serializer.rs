use serde_ply::scalar::{PlyFormat, ScalarType};
use serde_ply::serializer::PlySerializer;
use serde_ply::value::{Cell, Field, PropertyValue, ScalarValue};
use serde_ply::writer::{ElementData, HeaderCollector};

fn float_text(v: f32) -> Cell {
    Cell::Text(ScalarType::F32, format!("{}", v).into_bytes())
}

fn field(name: &str, value: PropertyValue) -> Field {
    Field { name: name.to_string(), value }
}

#[test]
fn test_serialize_scalar() {
    let mut serializer = PlySerializer::new(PlyFormat::Ascii);
    serializer.write_scalar(&Cell::Num(ScalarValue::I32(42)));
    assert_eq!(String::from_utf8(serializer.into_output()).unwrap(), "42");
}

#[test]
fn test_serialize_vertex() {
    let mut serializer = PlySerializer::new(PlyFormat::Ascii);
    serializer.serialize_field(&PropertyValue::Scalar(float_text(1.0))).unwrap();
    serializer.serialize_field(&PropertyValue::Scalar(float_text(2.0))).unwrap();
    serializer.serialize_field(&PropertyValue::Scalar(float_text(3.0))).unwrap();
    let result = String::from_utf8(serializer.into_output()).unwrap();
    assert_eq!(result.trim(), "1 2 3");
}

#[test]
fn test_binary_scalar_serialization() {
    let mut serializer = PlySerializer::new(PlyFormat::BinaryLittleEndian);
    serializer.write_scalar(&Cell::Num(ScalarValue::F32(1.5f32.to_bits())));
    assert_eq!(serializer.into_output(), 1.5f32.to_le_bytes());

    let mut serializer = PlySerializer::new(PlyFormat::BinaryLittleEndian);
    serializer.write_scalar(&Cell::Num(ScalarValue::U32(42)));
    assert_eq!(serializer.into_output(), 42u32.to_le_bytes());

    let mut serializer = PlySerializer::new(PlyFormat::BinaryLittleEndian);
    serializer.write_scalar(&Cell::Num(ScalarValue::U8(255)));
    assert_eq!(serializer.into_output(), [255]);
}

#[test]
fn test_binary_vertex_serialization() {
    let mut serializer = PlySerializer::new(PlyFormat::BinaryLittleEndian);
    let values = [
        ScalarValue::F32(1.0f32.to_bits()),
        ScalarValue::F32(2.0f32.to_bits()),
        ScalarValue::F32(3.0f32.to_bits()),
        ScalarValue::U8(255),
        ScalarValue::U8(128),
        ScalarValue::U8(0),
    ];
    for v in values {
        serializer.serialize_field(&PropertyValue::Scalar(Cell::Num(v))).unwrap();
    }
    let expected = [
        1.0f32.to_le_bytes().as_ref(),
        2.0f32.to_le_bytes().as_ref(),
        3.0f32.to_le_bytes().as_ref(),
        &[255u8],
        &[128u8],
        &[0u8],
    ]
    .concat();
    assert_eq!(serializer.into_output(), expected);
}

#[test]
fn test_binary_list_serialization() {
    let mut serializer = PlySerializer::new(PlyFormat::BinaryLittleEndian);
    let indices = vec![
        Cell::Num(ScalarValue::U32(0)),
        Cell::Num(ScalarValue::U32(1)),
        Cell::Num(ScalarValue::U32(2)),
    ];
    serializer.serialize_field(&PropertyValue::List(ScalarType::U8, indices)).unwrap();
    let expected = [
        &[3u8],
        0u32.to_le_bytes().as_ref(),
        1u32.to_le_bytes().as_ref(),
        2u32.to_le_bytes().as_ref(),
    ]
    .concat();
    assert_eq!(serializer.into_output(), expected);
}

#[test]
fn test_header_collector() {
    let vertex = vec![
        field("x", PropertyValue::Scalar(float_text(0.0))),
        field("y", PropertyValue::Scalar(float_text(0.0))),
        field("z", PropertyValue::Scalar(float_text(0.0))),
    ];
    let data = vec![ElementData { name: "vertices".to_string(), rows: vec![vertex.clone(), vertex] }];
    let output = HeaderCollector::new(PlyFormat::Ascii).write_header(&data).unwrap();
    let result = String::from_utf8(output).unwrap();
    assert_eq!(
        result,
        "ply\nformat ascii 1.0\nelement vertices 2\nproperty float x\nproperty float y\nproperty float z\nend_header\n"
    );
}

#[test]
fn binary_list_count_must_fit_one_byte() {
    let mut serializer = PlySerializer::new(PlyFormat::BinaryLittleEndian);
    assert!(serializer.serialize_seq(255).is_ok());
    assert_eq!(serializer.output().as_slice(), &[255u8]);
    let err = serializer.serialize_seq(256).err().unwrap();
    assert_eq!(err.0, serde_ply::error::SerializeCause::ListTooLong);
    assert_eq!(serializer.output().as_slice(), &[255u8]);
    let long: Vec<Cell> = (0..256).map(|i| Cell::Num(ScalarValue::U32(i))).collect();
    let err = serializer.serialize_field(&PropertyValue::List(ScalarType::U8, long.clone())).err().unwrap();
    assert_eq!(err.0, serde_ply::error::SerializeCause::ListTooLong);
    assert_eq!(serializer.output().as_slice(), &[255u8]);
    let mut ascii = PlySerializer::new(PlyFormat::Ascii);
    ascii.serialize_seq(256).unwrap();
    assert_eq!(ascii.output().as_slice(), b"256 ");
    let rows = vec![vec![field("v", PropertyValue::List(ScalarType::U8, long))]];
    let mut binary = PlySerializer::new(PlyFormat::BinaryBigEndian);
    assert_eq!(binary.serialize_element(&rows).err().unwrap().0, serde_ply::error::SerializeCause::ListTooLong);
    assert!(binary.output().is_empty());
}
