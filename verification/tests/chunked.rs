use serde_ply::chunked::{ChunkPlyFile, PlyChunkedReader, PlyFile};
use serde_ply::error::DeserializeCause;
use serde_ply::value::{Cell, PropertyValue, ScalarValue};

fn number(c: &Cell) -> f64 {
    match c {
        Cell::Num(ScalarValue::I8(x)) => *x as f64,
        Cell::Num(ScalarValue::U8(x)) => *x as f64,
        Cell::Num(ScalarValue::I16(x)) => *x as f64,
        Cell::Num(ScalarValue::U16(x)) => *x as f64,
        Cell::Num(ScalarValue::I32(x)) => *x as f64,
        Cell::Num(ScalarValue::U32(x)) => *x as f64,
        Cell::Num(ScalarValue::F32(b)) => f32::from_bits(*b) as f64,
        Cell::Num(ScalarValue::F64(b)) => f64::from_bits(*b),
        Cell::Text(_, t) => std::str::from_utf8(t).unwrap().parse::<f64>().unwrap(),
    }
}

fn scalar(v: &PropertyValue) -> f64 {
    match v {
        PropertyValue::Scalar(c) => number(c),
        PropertyValue::List(_, _) => panic!("a list"),
    }
}

fn list(v: &PropertyValue) -> Vec<f64> {
    match v {
        PropertyValue::List(_, cs) => cs.iter().map(number).collect(),
        PropertyValue::Scalar(_) => panic!("a scalar"),
    }
}

fn xyz(row: &[PropertyValue]) -> [f64; 3] {
    [scalar(&row[0]), scalar(&row[1]), scalar(&row[2])]
}

#[test]
fn chunked_test_ascii_basic() {
    let ply_data = "ply\nformat ascii 1.0\nelement vertex 3\nproperty float x\nproperty float y\nproperty float z\nend_header\n0.0 0.0 0.0\n2.0 0.0 0.0\n0.5 1.0 0.0\n";
    let mut ply_file = ChunkPlyFile::new();
    ply_file.buffer_mut().extend_from_slice(ply_data.as_bytes());
    let vertices = ply_file.next_chunk().unwrap();
    assert_eq!(vertices.len(), 3);
    assert_eq!(xyz(&vertices[0]), [0.0, 0.0, 0.0]);
    assert_eq!(xyz(&vertices[2]), [0.5, 1.0, 0.0]);
}

#[test]
fn chunked_test_binary_basic() {
    let header = "ply\nformat binary_little_endian 1.0\nelement vertex 2\nproperty float x\nproperty float y\nproperty float z\nend_header\n";
    let mut binary_data = Vec::new();
    binary_data.extend_from_slice(header.as_bytes());
    for coord in [1.0f32, 2.0, 3.0, 4.0, 5.0, 6.0] {
        binary_data.extend_from_slice(&coord.to_le_bytes());
    }
    let mut ply_file = ChunkPlyFile::new();
    ply_file.buffer_mut().extend_from_slice(&binary_data);
    let parsed = ply_file.next_chunk().unwrap();
    assert_eq!(parsed.len(), 2);
    assert_eq!(xyz(&parsed[0]), [1.0, 2.0, 3.0]);
    assert_eq!(xyz(&parsed[1]), [4.0, 5.0, 6.0]);
}

#[test]
fn chunked_test_ascii_incomplete_data() {
    let ply_data = "ply\nformat ascii 1.0\nelement vertex 2\nproperty float x\nproperty float y\nproperty float z\nend_header\n1.0 2.0 3.0\n";
    let mut ply_file = ChunkPlyFile::new();
    ply_file.buffer_mut().extend_from_slice(ply_data.as_bytes());
    let chunk1 = ply_file.next_chunk().unwrap();
    assert_eq!(chunk1.len(), 1);
    assert_eq!(xyz(&chunk1[0]), [1.0, 2.0, 3.0]);
    let chunk2 = ply_file.next_chunk().unwrap();
    assert!(chunk2.is_empty());
    ply_file.buffer_mut().extend_from_slice(b"4.0 5.0 6.0\n");
    let chunk3 = ply_file.next_chunk().unwrap();
    assert_eq!(chunk3.len(), 1);
    assert_eq!(xyz(&chunk3[0]), [4.0, 5.0, 6.0]);
    assert!(ply_file.next_chunk().is_err());
}

#[test]
fn chunked_test_binary_incomplete_elements() {
    let header = "ply\nformat binary_little_endian 1.0\nelement vertex 2\nproperty float x\nproperty float y\nproperty float z\nend_header\n";
    let mut binary_data = Vec::new();
    binary_data.extend_from_slice(header.as_bytes());
    for coord in [1.0f32, 2.0, 3.0, 4.0, 5.0, 6.0] {
        binary_data.extend_from_slice(&coord.to_le_bytes());
    }
    let mut ply_file = ChunkPlyFile::new();
    let header_size = header.len();
    let first_vertex_size = 12;
    ply_file.buffer_mut().extend_from_slice(&binary_data[..header_size + first_vertex_size]);
    let chunk1 = ply_file.next_chunk().unwrap();
    assert_eq!(chunk1.len(), 1);
    assert_eq!(xyz(&chunk1[0]), [1.0, 2.0, 3.0]);
    assert!(ply_file.next_chunk().unwrap().is_empty());
    ply_file.buffer_mut().extend_from_slice(
        &binary_data[header_size + first_vertex_size..header_size + first_vertex_size + 8],
    );
    assert!(ply_file.next_chunk().unwrap().is_empty());
    ply_file.buffer_mut().extend_from_slice(&binary_data[header_size + first_vertex_size + 8..]);
    let chunk2 = ply_file.next_chunk().unwrap();
    assert_eq!(chunk2.len(), 1);
    assert_eq!(xyz(&chunk2[0]), [4.0, 5.0, 6.0]);
}

#[test]
fn chunked_test_multiple_element_types() {
    let ply_data = "ply\nformat ascii 1.0\nelement vertex 2\nproperty float x\nproperty float y\nproperty float z\nelement color 2\nproperty uchar red\nproperty uchar green\nproperty uchar blue\nend_header\n0.0 0.0 0.0\n1.0 0.0 0.0\n255 128 64\n32 16 8\n";
    let mut ply_file = ChunkPlyFile::new();
    ply_file.buffer_mut().extend_from_slice(ply_data.as_bytes());
    let vertices = ply_file.next_chunk().unwrap();
    assert_eq!(vertices.len(), 2);
    let colors = ply_file.next_chunk().unwrap();
    assert_eq!(colors.len(), 2);
    let u8s = |row: &Vec<PropertyValue>| -> Vec<PropertyValue> { row.clone() };
    assert_eq!(
        u8s(&colors[0]),
        vec![
            PropertyValue::Scalar(Cell::Num(ScalarValue::U8(255))),
            PropertyValue::Scalar(Cell::Num(ScalarValue::U8(128))),
            PropertyValue::Scalar(Cell::Num(ScalarValue::U8(64))),
        ]
    );
    assert_eq!(
        u8s(&colors[1]),
        vec![
            PropertyValue::Scalar(Cell::Num(ScalarValue::U8(32))),
            PropertyValue::Scalar(Cell::Num(ScalarValue::U8(16))),
            PropertyValue::Scalar(Cell::Num(ScalarValue::U8(8))),
        ]
    );
}

#[test]
fn chunked_test_ascii_lists() {
    let ply_data = "ply\nformat ascii 1.0\nelement face 2\nproperty list uchar int vertex_indices\nend_header\n3 0 1 2\n4 0 1 2 3\n";
    let mut ply_file = ChunkPlyFile::new();
    ply_file.buffer_mut().extend_from_slice(ply_data.as_bytes());
    let faces = ply_file.next_chunk().unwrap();
    assert_eq!(faces.len(), 2);
    assert_eq!(list(&faces[0][0]), vec![0.0, 1.0, 2.0]);
    assert_eq!(list(&faces[1][0]), vec![0.0, 1.0, 2.0, 3.0]);
}

#[test]
fn chunked_test_small_chunks() {
    let ply_data = "ply\nformat ascii 1.0\nelement vertex 2\nproperty float x\nproperty float y\nproperty float z\nend_header\n1.0 2.0 3.0\n4.0 5.0 6.0\n";
    let mut ply_file = ChunkPlyFile::new();
    let mut vertices = vec![];
    for chunk in ply_data.as_bytes().chunks(3) {
        ply_file.buffer_mut().extend_from_slice(chunk);
        vertices.extend(ply_file.next_chunk().unwrap());
    }
    assert_eq!(vertices.len(), 2);
    assert_eq!(xyz(&vertices[0]), [1.0, 2.0, 3.0]);
    assert_eq!(xyz(&vertices[1]), [4.0, 5.0, 6.0]);
}

#[test]
fn chunked_test_zero_elements() {
    let ply_data = "ply\nformat ascii 1.0\nelement vertex 0\nproperty float x\nproperty float y\nproperty float z\nend_header\n";
    let mut ply_file = ChunkPlyFile::new();
    ply_file.buffer_mut().extend_from_slice(ply_data.as_bytes());
    assert!(ply_file.next_chunk().unwrap().is_empty());
}

#[test]
fn test_binary_incomplete_lists() {
    let header = "ply\nformat binary_little_endian 1.0\nelement face 2\nproperty list uchar int vertex_indices\nend_header\n";
    let mut binary_data = Vec::new();
    binary_data.extend_from_slice(header.as_bytes());
    binary_data.push(3u8);
    for i in [0i32, 1, 2] {
        binary_data.extend_from_slice(&i.to_le_bytes());
    }
    binary_data.push(4u8);
    for i in [0i32, 1] {
        binary_data.extend_from_slice(&i.to_le_bytes());
    }
    let mut ply_file = ChunkPlyFile::new();
    ply_file.buffer_mut().extend_from_slice(&binary_data);
    let faces1 = ply_file.next_chunk().unwrap();
    assert_eq!(faces1.len(), 1);
    assert_eq!(list(&faces1[0][0]), vec![0.0, 1.0, 2.0]);
    assert!(ply_file.next_chunk().unwrap().is_empty());
    ply_file.buffer_mut().extend_from_slice(&2i32.to_le_bytes());
    ply_file.buffer_mut().extend_from_slice(&3i32.to_le_bytes());
    let faces2 = ply_file.next_chunk().unwrap();
    assert_eq!(faces2.len(), 1);
    assert_eq!(list(&faces2[0][0]), vec![0.0, 1.0, 2.0, 3.0]);
}

#[test]
fn test_binary_lists() {
    let header = "ply\nformat binary_little_endian 1.0\nelement face 2\nproperty list uchar int vertex_indices\nend_header\n";
    let mut binary_data = Vec::new();
    binary_data.extend_from_slice(header.as_bytes());
    binary_data.push(3u8);
    for i in [0i32, 1, 2] {
        binary_data.extend_from_slice(&i.to_le_bytes());
    }
    binary_data.push(4u8);
    for i in [0i32, 1, 2, 3] {
        binary_data.extend_from_slice(&i.to_le_bytes());
    }
    let mut ply_file = ChunkPlyFile::new();
    let mut faces = vec![];
    for chunk in binary_data.chunks(6) {
        ply_file.buffer_mut().extend_from_slice(chunk);
        faces.extend(ply_file.next_chunk().unwrap());
    }
    assert_eq!(faces.len(), 2);
    assert_eq!(list(&faces[0][0]), vec![0.0, 1.0, 2.0]);
    assert_eq!(list(&faces[1][0]), vec![0.0, 1.0, 2.0, 3.0]);
}

#[test]
fn test_header_across_chunks() {
    let ply_data = "ply\nformat ascii 1.0\nelement vertex 1\nproperty float x\nproperty float y\nproperty float z\nend_header\n1.0 2.0 3.0\n";
    let mut ply_file = PlyFile::new();
    let header_end = ply_data.find("end_header\n").unwrap() + "end_header\n".len();
    let header_part = &ply_data.as_bytes()[..header_end];
    let data_part = &ply_data.as_bytes()[header_end..];
    ply_file.buffer_mut().extend_from_slice(header_part);
    assert!(ply_file.header().is_some());
    ply_file.buffer_mut().extend_from_slice(data_part);
    let vertices = ply_file.next_chunk().unwrap();
    assert_eq!(vertices.len(), 1);
    assert_eq!(xyz(&vertices[0]), [1.0, 2.0, 3.0]);
}

#[test]
fn test_incremental_feeding() {
    let ply_data = "ply\nformat ascii 1.0\nelement vertex 3\nproperty float x\nproperty float y\nproperty float z\nend_header\n1.0 2.0 3.0\n4.0 5.0 6.0\n7.0 8.0 9.0\n";
    let mut ply_file = PlyFile::new();
    let mut all_vertices = Vec::new();
    for chunk in ply_data.as_bytes().chunks(20) {
        ply_file.buffer_mut().extend_from_slice(chunk);
        if ply_file.header().is_some() {
            all_vertices.extend(ply_file.next_chunk().unwrap());
        }
    }
    assert_eq!(all_vertices.len(), 3);
    assert_eq!(xyz(&all_vertices[0]), [1.0, 2.0, 3.0]);
    assert_eq!(xyz(&all_vertices[2]), [7.0, 8.0, 9.0]);
}

#[test]
fn chunked_reader_header_waits_for_data() {
    let mut reader = PlyChunkedReader::new();
    assert!(reader.header().is_none());
    reader.buffer_mut().extend_from_slice(b"ply\nformat ascii 1.0\nelement vertex 1\nproperty float x\nend_header\n");
    assert!(reader.header().is_some());
    let element = reader.current_element().unwrap();
    assert_eq!(element.name, "vertex");
    assert_eq!(element.count, 1);
}

#[test]
fn chunked_reader_counts_rows_and_runs_out() {
    let mut reader = PlyChunkedReader::new();
    assert!(reader.next_chunk().unwrap().is_empty());
    reader.buffer_mut().extend_from_slice(b"ply\nformat ascii 1.0\nelement v 3\nproperty uchar a\nend_header\n1 2 ");
    assert_eq!(reader.next_chunk().unwrap().len(), 2);
    assert_eq!(reader.rows_done(), 2);
    reader.buffer_mut().extend_from_slice(b"3\n");
    assert_eq!(reader.next_chunk().unwrap().len(), 1);
    assert_eq!(reader.rows_done(), 0);
    assert!(reader.current_element().is_none());
    assert_eq!(reader.next_chunk().err().unwrap().0, DeserializeCause::OutOfElements);
}

#[test]
fn chunked_reading_in_pieces_matches_reading_at_once() {
    let ply_data = "ply\nformat ascii 1.0\nelement face 3\nproperty list uchar int v\nend_header\n3 0 1 2\n2 -4 5\n1 9\n";
    let mut whole = PlyChunkedReader::new();
    whole.buffer_mut().extend_from_slice(ply_data.as_bytes());
    let at_once = whole.next_chunk().unwrap();
    for size in 1..12 {
        let mut reader = PlyChunkedReader::new();
        let mut rows = Vec::new();
        for chunk in ply_data.as_bytes().chunks(size) {
            reader.buffer_mut().extend_from_slice(chunk);
            rows.extend(reader.next_chunk().unwrap());
        }
        assert_eq!(rows, at_once);
    }
}

#[test]
fn peek_then_advance_is_next_chunk() {
    let ply_data = b"ply\nformat ascii 1.0\nelement v 2\nproperty uchar a\nend_header\n5\n6\n";
    let mut reader = PlyChunkedReader::new();
    reader.buffer_mut().extend_from_slice(ply_data);
    let (rows, consumed) = reader.peek_chunk().unwrap();
    assert_eq!(rows.len(), 2);
    assert_eq!(consumed, 4);
    reader.advance(rows.len(), consumed);
    assert!(reader.current_element().is_none());
    assert!(reader.buffer_mut().is_empty());
}

#[test]
fn ply_file_needs_header_before_rows() {
    let mut ply_file = PlyFile::new();
    ply_file.buffer_mut().extend_from_slice(b"ply\nformat ascii 1.0\n");
    assert_eq!(ply_file.next_chunk().err().unwrap().0, DeserializeCause::HeaderNotReady);
}

#[test]
fn invalid_token_is_an_error_and_keeps_the_buffer() {
    let mut reader = PlyChunkedReader::new();
    reader.buffer_mut().extend_from_slice(b"ply\nformat ascii 1.0\nelement v 2\nproperty uchar a\nend_header\n5\nx\n");
    assert_eq!(reader.next_chunk().err().unwrap().0, DeserializeCause::InvalidNumber);
    assert_eq!(reader.rows_done(), 0);
    assert_eq!(reader.buffer_mut().as_slice(), b"5\nx\n");
}

#[test]
fn chunked_loading_test_ascii_basic() {
    let ply_data = "ply\nformat ascii 1.0\nelement vertex 3\nproperty float x\nproperty float y\nproperty float z\nend_header\n0.0 0.0 0.0\n1.0 0.0 0.0\n0.5 1.0 0.0\n";
    let mut ply_file = PlyFile::new();
    ply_file.buffer_mut().extend_from_slice(ply_data.as_bytes());
    let vertices = ply_file.next_chunk().unwrap();
    assert_eq!(vertices.len(), 3);
    assert_eq!(xyz(&vertices[0]), [0.0, 0.0, 0.0]);
    assert_eq!(xyz(&vertices[2]), [0.5, 1.0, 0.0]);
}

#[test]
fn chunked_loading_test_binary_basic() {
    let header = "ply\nformat binary_little_endian 1.0\nelement vertex 2\nproperty float x\nproperty float y\nproperty float z\nend_header\n";
    let mut binary_data = Vec::new();
    binary_data.extend_from_slice(header.as_bytes());
    for coord in [1.0f32, 2.0, 3.0, 4.0, 5.0, 6.0] {
        binary_data.extend_from_slice(&coord.to_le_bytes());
    }
    let mut ply_file = PlyFile::new();
    ply_file.buffer_mut().extend_from_slice(&binary_data);
    let parsed = ply_file.next_chunk().unwrap();
    assert_eq!(parsed.len(), 2);
    assert_eq!(xyz(&parsed[0]), [1.0, 2.0, 3.0]);
    assert_eq!(xyz(&parsed[1]), [4.0, 5.0, 6.0]);
}

#[test]
fn chunked_loading_test_binary_big_endian() {
    let header = "ply\nformat binary_big_endian 1.0\nelement vertex 1\nproperty float x\nproperty float y\nproperty float z\nend_header\n";
    let mut binary_data = Vec::new();
    binary_data.extend_from_slice(header.as_bytes());
    for coord in [42.5f32, -17.25, 100.0] {
        binary_data.extend_from_slice(&coord.to_be_bytes());
    }
    let mut ply_file = PlyFile::new();
    ply_file.buffer_mut().extend_from_slice(&binary_data);
    let parsed = ply_file.next_chunk().unwrap();
    assert_eq!(parsed.len(), 1);
    assert_eq!(xyz(&parsed[0]), [42.5, -17.25, 100.0]);
}

#[test]
fn chunked_loading_test_ascii_incomplete_data() {
    let ply_data = "ply\nformat ascii 1.0\nelement vertex 2\nproperty float x\nproperty float y\nproperty float z\nend_header\n1.0 2.0 3.0\n";
    let mut ply_file = PlyFile::new();
    ply_file.buffer_mut().extend_from_slice(ply_data.as_bytes());
    let chunk1 = ply_file.next_chunk().unwrap();
    assert_eq!(chunk1.len(), 1);
    assert_eq!(xyz(&chunk1[0]), [1.0, 2.0, 3.0]);
    let chunk2 = ply_file.next_chunk().unwrap();
    assert!(chunk2.is_empty());
    ply_file.buffer_mut().extend_from_slice(b"4.0 5.0 6.0\n");
    let chunk3 = ply_file.next_chunk().unwrap();
    assert_eq!(chunk3.len(), 1);
    assert_eq!(xyz(&chunk3[0]), [4.0, 5.0, 6.0]);
    assert!(ply_file.next_chunk().unwrap().is_empty());
}

#[test]
fn chunked_loading_test_binary_incomplete_elements() {
    let header = "ply\nformat binary_little_endian 1.0\nelement vertex 2\nproperty float x\nproperty float y\nproperty float z\nend_header\n";
    let mut binary_data = Vec::new();
    binary_data.extend_from_slice(header.as_bytes());
    for coord in [1.0f32, 2.0, 3.0, 4.0, 5.0, 6.0] {
        binary_data.extend_from_slice(&coord.to_le_bytes());
    }
    let mut ply_file = PlyFile::new();
    let header_size = header.len();
    let first_vertex_size = 12;
    ply_file.buffer_mut().extend_from_slice(&binary_data[..header_size + first_vertex_size]);
    let chunk1 = ply_file.next_chunk().unwrap();
    assert_eq!(chunk1.len(), 1);
    assert_eq!(xyz(&chunk1[0]), [1.0, 2.0, 3.0]);
    assert!(ply_file.next_chunk().unwrap().is_empty());
    ply_file.buffer_mut().extend_from_slice(
        &binary_data[header_size + first_vertex_size..header_size + first_vertex_size + 8],
    );
    assert!(ply_file.next_chunk().unwrap().is_empty());
    ply_file.buffer_mut().extend_from_slice(&binary_data[header_size + first_vertex_size + 8..]);
    let chunk2 = ply_file.next_chunk().unwrap();
    assert_eq!(chunk2.len(), 1);
    assert_eq!(xyz(&chunk2[0]), [4.0, 5.0, 6.0]);
}

#[test]
fn chunked_loading_test_multiple_element_types() {
    let ply_data = "ply\nformat ascii 1.0\nelement vertex 2\nproperty float x\nproperty float y\nproperty float z\nelement color 2\nproperty uchar red\nproperty uchar green\nproperty uchar blue\nend_header\n0.0 0.0 0.0\n1.0 0.0 0.0\n255 128 64\n32 16 8\n";
    let mut ply_file = PlyFile::new();
    ply_file.buffer_mut().extend_from_slice(ply_data.as_bytes());
    let vertices = ply_file.next_chunk().unwrap();
    assert_eq!(vertices.len(), 2);
    let colors = ply_file.next_chunk().unwrap();
    assert_eq!(colors.len(), 2);
    assert_eq!(xyz(&colors[0]), [255.0, 128.0, 64.0]);
    assert_eq!(xyz(&colors[1]), [32.0, 16.0, 8.0]);
}

#[test]
fn chunked_loading_test_ascii_lists() {
    let ply_data = "ply\nformat ascii 1.0\nelement face 2\nproperty list uchar int vertex_indices\nend_header\n3 0 1 2\n4 0 1 2 3\n";
    let mut ply_file = PlyFile::new();
    ply_file.buffer_mut().extend_from_slice(ply_data.as_bytes());
    let faces = ply_file.next_chunk().unwrap();
    assert_eq!(faces.len(), 2);
    assert_eq!(list(&faces[0][0]), vec![0.0, 1.0, 2.0]);
    assert_eq!(list(&faces[1][0]), vec![0.0, 1.0, 2.0, 3.0]);
}

#[test]
fn chunked_loading_test_small_chunks() {
    let ply_data = "ply\nformat ascii 1.0\nelement vertex 2\nproperty float x\nproperty float y\nproperty float z\nend_header\n1.0 2.0 3.0\n4.0 5.0 6.0\n";
    let mut ply_file = PlyFile::new();
    for chunk in ply_data.as_bytes().chunks(3) {
        ply_file.buffer_mut().extend_from_slice(chunk);
    }
    let vertices = ply_file.next_chunk().unwrap();
    assert_eq!(vertices.len(), 2);
    assert_eq!(xyz(&vertices[0]), [1.0, 2.0, 3.0]);
    assert_eq!(xyz(&vertices[1]), [4.0, 5.0, 6.0]);
}

#[test]
fn chunked_loading_test_zero_elements() {
    let ply_data = "ply\nformat ascii 1.0\nelement vertex 0\nproperty float x\nproperty float y\nproperty float z\nend_header\n";
    let mut ply_file = PlyFile::new();
    ply_file.buffer_mut().extend_from_slice(ply_data.as_bytes());
    assert!(ply_file.next_chunk().unwrap().is_empty());
}

#[test]
fn defaults_read_nothing_yet() {
    let mut a = ChunkPlyFile::default();
    assert!(a.header().is_none());
    let mut b = PlyFile::default();
    assert!(b.header().is_none());
    assert!(b.buffer_mut().is_empty());
}

#[test]
fn whole_file_in_pieces_gives_every_row_in_order() {
    let mut ascii = b"ply\nformat ascii 1.0\nelement a 2\nproperty uchar v\nelement b 2\nproperty list uchar int w\nend_header\n7\n8\n2 -3 4\n1 9\n".to_vec();
    let mut binary = b"ply\nformat binary_big_endian 1.0\nelement a 2\nproperty short v\nelement b 1\nproperty list uchar uint w\nend_header\n".to_vec();
    binary.extend_from_slice(&(-5i16).to_be_bytes());
    binary.extend_from_slice(&6i16.to_be_bytes());
    binary.push(2);
    binary.extend_from_slice(&10u32.to_be_bytes());
    binary.extend_from_slice(&11u32.to_be_bytes());
    for data in [std::mem::take(&mut ascii), std::mem::take(&mut binary)] {
        let whole = serde_ply::reader::from_bytes(&data).unwrap();
        let expected: Vec<Vec<PropertyValue>> = whole.elements.concat();
        for size in 1..data.len() + 1 {
            let mut reader = PlyChunkedReader::new();
            let mut rows = Vec::new();
            for piece in data.chunks(size) {
                reader.buffer_mut().extend_from_slice(piece);
                if reader.header().is_none() || reader.current_element().is_some() {
                    rows.extend(reader.next_chunk().unwrap());
                }
            }
            while reader.current_element().is_some() {
                rows.extend(reader.next_chunk().unwrap());
            }
            assert_eq!(rows, expected);
        }
    }
}
