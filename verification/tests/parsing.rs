use serde_ply::reader::{from_bytes, PlyReader};
use serde_ply::scalar::PlyFormat;
use serde_ply::value::{Cell, PropertyValue, ScalarValue};

/// The number that a cell holds, whatever its type.
fn number(c: &Cell) -> f64 {
    match c {
        Cell::Num(ScalarValue::I8(x)) => *x as f64,
        Cell::Num(ScalarValue::U8(x)) => *x as f64,
        Cell::Num(ScalarValue::I16(x)) => *x as f64,
        Cell::Num(ScalarValue::U16(x)) => *x as f64,
        Cell::Num(ScalarValue::I32(x)) => *x as f64,
        Cell::Num(ScalarValue::U32(x)) => *x as f64,
        Cell::Num(ScalarValue::F32(b)) => f32::from_bits(*b) as f64,
        Cell::Num(ScalarValue::F64(b)) => f64::from_bits(*b),
        Cell::Text(_, t) => std::str::from_utf8(t).unwrap().parse::<f64>().unwrap(),
    }
}

fn scalar(v: &PropertyValue) -> f64 {
    match v {
        PropertyValue::Scalar(c) => number(c),
        PropertyValue::List(_, _) => panic!("a list"),
    }
}

fn list(v: &PropertyValue) -> Vec<f64> {
    match v {
        PropertyValue::List(_, cs) => cs.iter().map(number).collect(),
        PropertyValue::Scalar(_) => panic!("a scalar"),
    }
}

fn xyz(row: &[PropertyValue]) -> [f64; 3] {
    [scalar(&row[0]), scalar(&row[1]), scalar(&row[2])]
}

fn reader(data: &[u8]) -> PlyReader {
    PlyReader::from_reader(data.to_vec()).unwrap()
}

#[test]
fn test_basic_ascii_parsing() {
    let ply_data = "ply\nformat ascii 1.0\nelement vertex 3\nproperty float x\nproperty float y\nproperty float z\nend_header\n0.0 0.0 0.0\n1.0 0.0 0.0\n0.5 1.0 0.0\n";
    let mut reader = reader(ply_data.as_bytes());
    assert_eq!(reader.header().format, PlyFormat::Ascii);
    assert_eq!(reader.header().elem_defs.len(), 1);
    let vertices = reader.next_element().unwrap();
    assert_eq!(vertices.len(), 3);
    assert_eq!(xyz(&vertices[0]), [0.0, 0.0, 0.0]);
}

#[test]
fn test_ascii_incomplete() {
    let ply_data = "ply\nformat ascii 1.0\nelement vertex 3\nproperty float x\nproperty float y\nproperty float z\nend_header\n0.0 0.0 0.0\n1.0 0.0\n0.5 1.0 0.0\n";
    let mut reader = reader(ply_data.as_bytes());
    assert_eq!(reader.header().format, PlyFormat::Ascii);
    assert_eq!(reader.header().elem_defs.len(), 1);
    assert!(reader.next_element().is_err());
}

#[test]
fn parsing_test_greg_turk_cube() {
    let ply_data = "ply\nformat ascii 1.0\ncomment made by Greg Turk\ncomment this file is a cube\nelement vertex 8\nproperty float x\nproperty float y\nproperty float z\nelement face 6\nproperty list uchar int vertex_index\nend_header\n0 0 0\n0 0 1\n0 1 1\n0 1 0\n1 0 0\n1 0 1\n1 1 1\n1 1 0\n4 0 1 2 3\n4 7 6 5 4\n4 0 4 5 1\n4 1 5 6 2\n4 2 6 7 3\n4 3 7 4 0\n";
    let mut reader = reader(ply_data.as_bytes());
    assert_eq!(reader.header().format, PlyFormat::Ascii);
    assert_eq!(reader.header().elem_defs.len(), 2);
    let vertices = reader.next_element().unwrap();
    let faces = reader.next_element().unwrap();
    assert_eq!(vertices.len(), 8);
    assert_eq!(faces.len(), 6);
    assert_eq!(list(&faces[0][0]), vec![0.0, 1.0, 2.0, 3.0]);
}

#[test]
fn test_all_scalar_types() {
    let ply_data = "ply\nformat ascii 1.0\nelement point 1\nproperty char a\nproperty int8 b\nproperty uchar c\nproperty uint8 d\nproperty short e\nproperty int16 f\nproperty uint16 g\nproperty ushort h\nproperty int32 i\nproperty int j\nproperty uint32 k\nproperty uint l\nproperty float32 m\nproperty float n\nproperty float64 o\nproperty double p\nend_header\n1 1 2 2 3 3 4 4 5 5 6 6 7 7 8 8\n";
    let mut reader = reader(ply_data.as_bytes());
    let points = reader.next_element().unwrap();
    assert_eq!(points.len(), 1);
    let point = &points[0];
    assert_eq!(point[0], PropertyValue::Scalar(Cell::Num(ScalarValue::I8(1))));
    assert_eq!(point[2], PropertyValue::Scalar(Cell::Num(ScalarValue::U8(2))));
    assert_eq!(point[4], PropertyValue::Scalar(Cell::Num(ScalarValue::I16(3))));
    assert_eq!(point[6], PropertyValue::Scalar(Cell::Num(ScalarValue::U16(4))));
    assert_eq!(point[8], PropertyValue::Scalar(Cell::Num(ScalarValue::I32(5))));
    assert_eq!(point[10], PropertyValue::Scalar(Cell::Num(ScalarValue::U32(6))));
    assert_eq!(scalar(&point[12]), 7.0);
    assert_eq!(scalar(&point[14]), 8.0);
}

#[test]
fn parsing_test_house_with_normals() {
    let ply_data = "ply\nformat ascii 1.0\nelement vertex 5\nproperty float x\nproperty float y\nproperty float z\nproperty float nx\nproperty float ny\nproperty float nz\nelement face 3\nproperty list uchar uint vertex_indices\nend_header\n1.000000 -1.000000 0.000000 -0.000000 0.000000 1.000000\n-1.000000 1.000000 0.000000 -0.000000 0.000000 1.000000\n-1.000000 -1.000000 0.000000 -0.000000 0.000000 1.000000\n1.000000 1.000000 0.000000 -0.000000 0.000000 1.000000\n0.000000 2.000000 0.000000 0.000000 0.000000 1.000000\n3 0 1 2\n3 0 3 1\n3 1 3 4\n";
    let mut reader = reader(ply_data.as_bytes());
    let vertices = reader.next_element().unwrap();
    let faces = reader.next_element().unwrap();
    assert_eq!(vertices.len(), 5);
    assert_eq!(faces.len(), 3);
    assert_eq!(scalar(&vertices[0][3]), 0.0);
    assert_eq!(scalar(&vertices[0][5]), 1.0);
}

#[test]
fn test_empty_elements() {
    let ply_data = "ply\nformat ascii 1.0\nelement vertex 0\nproperty float x\nproperty float y\nproperty float z\nelement face 0\nproperty list uchar uint vertex_indices\nend_header\n";
    let mut reader = reader(ply_data.as_bytes());
    let vertices = reader.next_element().unwrap();
    let faces = reader.next_element().unwrap();
    assert_eq!(vertices.len(), 0);
    assert_eq!(faces.len(), 0);
}

#[test]
fn test_scientific_notation() {
    let ply_data = "ply\nformat ascii 1.0\nelement vertex 2\nproperty float x\nproperty float y\nproperty float z\nend_header\n1.5e2 -2.3e-1 4.7E+3\n6.8e-4 9.1E2 -3.2e+1\n";
    let mut reader = reader(ply_data.as_bytes());
    let vertices = reader.next_element().unwrap();
    assert_eq!(vertices.len(), 2);
    assert_eq!(scalar(&vertices[0][0]), 150.0);
    assert!((scalar(&vertices[0][1]) - (-0.23)).abs() < 0.001);
    assert_eq!(scalar(&vertices[0][2]), 4700.0);
}

#[test]
fn test_binary_little_endian() {
    let mut binary_data = b"ply\nformat binary_little_endian 1.0\nelement vertex 2\nproperty float x\nproperty float y\nproperty float z\nend_header\n".to_vec();
    for v in [1.0f32, 2.0, 3.0, 4.0, 5.0, 6.0] {
        binary_data.extend_from_slice(&v.to_le_bytes());
    }
    let mut reader = reader(&binary_data);
    assert_eq!(reader.header().format, PlyFormat::BinaryLittleEndian);
    let vertices = reader.next_element().unwrap();
    assert_eq!(vertices.len(), 2);
    assert_eq!(xyz(&vertices[0]), [1.0, 2.0, 3.0]);
    assert_eq!(xyz(&vertices[1]), [4.0, 5.0, 6.0]);
}

#[test]
fn parsing_test_binary_big_endian() {
    let mut binary_data = b"ply\nformat binary_big_endian 1.0\nelement vertex 1\nproperty float x\nproperty float y\nproperty float z\nend_header\n".to_vec();
    for v in [1.5f32, 2.5, 3.5] {
        binary_data.extend_from_slice(&v.to_be_bytes());
    }
    let mut reader = reader(&binary_data);
    assert_eq!(reader.header().format, PlyFormat::BinaryBigEndian);
    let vertices = reader.next_element().unwrap();
    assert_eq!(vertices.len(), 1);
    assert_eq!(xyz(&vertices[0]), [1.5, 2.5, 3.5]);
}

#[test]
fn test_lists() {
    let ply_data = "ply\nformat ascii 1.0\nelement face 2\nproperty list uchar uint vertex_indices\nend_header\n3 0 1 2\n4 0 1 2 3\n";
    let mut reader = reader(ply_data.as_bytes());
    let faces = reader.next_element().unwrap();
    assert_eq!(faces.len(), 2);
    assert_eq!(list(&faces[0][0]), vec![0.0, 1.0, 2.0]);
    assert_eq!(list(&faces[1][0]), vec![0.0, 1.0, 2.0, 3.0]);
}

#[test]
fn test_mixed_scalar_and_list() {
    let ply_data = "ply\nformat ascii 1.0\nelement vertex 1\nproperty float x\nproperty float y\nproperty float z\nproperty list uchar uint indices\nend_header\n1.0 2.0 3.0 2 10 20\n";
    let mut reader = reader(ply_data.as_bytes());
    let vertices = reader.next_element().unwrap();
    assert_eq!(vertices.len(), 1);
    assert_eq!(xyz(&vertices[0]), [1.0, 2.0, 3.0]);
    assert_eq!(list(&vertices[0][3]), vec![10.0, 20.0]);
}

#[test]
fn test_leading_whitespace() {
    let ply_data = "ply\nformat ascii 1.0\nelement vertex 2\nproperty float x\nproperty float y\nproperty float z\nend_header\n   1.0    2.0    3.0\n4.0 5.0 6.0\n";
    let mut reader = reader(ply_data.as_bytes());
    let vertices = reader.next_element().unwrap();
    assert_eq!(vertices.len(), 2);
    assert_eq!(xyz(&vertices[0]), [1.0, 2.0, 3.0]);
}

#[test]
fn test_error_incomplete_data() {
    let ply_data = "ply\nformat ascii 1.0\nelement vertex 2\nproperty float x\nproperty float y\nproperty float z\nend_header\n1.0 2.0 3.0\n4.0 5.0\n";
    let mut reader = reader(ply_data.as_bytes());
    assert!(reader.next_element().is_err());
}

#[test]
fn reader_walks_elements_in_order() {
    let ply_data = "ply\nformat ascii 1.0\nelement a 1\nproperty uchar v\nelement b 2\nproperty short w\nend_header\n7\n-1 2\n";
    let mut reader = reader(ply_data.as_bytes());
    assert_eq!(reader.current_element().unwrap().name, "a");
    assert_eq!(reader.next_element().unwrap(), vec![vec![PropertyValue::Scalar(Cell::Num(ScalarValue::U8(7)))]]);
    assert_eq!(reader.current_element().unwrap().name, "b");
    let b = reader.next_element().unwrap();
    assert_eq!(b[0], vec![PropertyValue::Scalar(Cell::Num(ScalarValue::I16(-1)))]);
    assert_eq!(b[1], vec![PropertyValue::Scalar(Cell::Num(ScalarValue::I16(2)))]);
    assert!(reader.current_element().is_none());
}

#[test]
fn whole_file_reads_every_element() {
    let ply_data = "ply\nformat ascii 1.0\nelement a 1\nproperty uchar v\nelement b 1\nproperty list uchar int w\nend_header\n7\n2 -3 4\n";
    let data = from_bytes(ply_data.as_bytes()).unwrap();
    assert_eq!(data.elements.len(), 2);
    assert_eq!(data.elements[0], vec![vec![PropertyValue::Scalar(Cell::Num(ScalarValue::U8(7)))]]);
    assert_eq!(list(&data.elements[1][0][0]), vec![-3.0, 4.0]);
}

#[test]
fn out_of_range_integer_is_invalid() {
    let ply_data = "ply\nformat ascii 1.0\nelement a 1\nproperty uchar v\nend_header\n256\n";
    let err = from_bytes(ply_data.as_bytes()).err().unwrap();
    assert_eq!(err.0, serde_ply::error::DeserializeCause::InvalidNumber);
    assert_eq!(err.kind(), serde_ply::error::ErrorKind::InvalidData);
}

#[test]
fn missing_data_is_unexpected_eof() {
    let ply_data = "ply\nformat binary_little_endian 1.0\nelement a 1\nproperty int v\nend_header\n\x01\x02";
    let err = from_bytes(ply_data.as_bytes()).err().unwrap();
    assert_eq!(err.0, serde_ply::error::DeserializeCause::UnexpectedEof);
    assert_eq!(err.kind(), serde_ply::error::ErrorKind::UnexpectedEof);
}

#[test]
fn test_deserializer_debug() {
    let simple_ply = "ply\nformat ascii 1.0\nelement vertex 2\nproperty float x\nproperty float y\nproperty float z\nend_header\n1.0 2.0 3.0\n4.0 5.0 6.0\n";
    let data = from_bytes(simple_ply.as_bytes()).unwrap();
    let at = data.header.elem_defs.iter().position(|e| e.name == "vertex").unwrap();
    let vertices = &data.elements[at];
    assert_eq!(vertices.len(), 2);
    assert_eq!(scalar(&vertices[0][0]), 1.0);
    assert_eq!(scalar(&vertices[0][1]), 2.0);
    assert_eq!(scalar(&vertices[0][2]), 3.0);
}
