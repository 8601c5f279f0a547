use serde_ply::error::{DeserializeCause, ErrorKind};
use serde_ply::header::{find_header_end, parse_usize, ElementDef, PlyHeader, PlyProperty, PropertyType};
use serde_ply::scalar::{PlyFormat, ScalarType};

fn parse(text: &str) -> Result<(PlyHeader, usize), DeserializeCause> {
    PlyHeader::parse(text.as_bytes()).map_err(|e| e.0)
}

#[test]
fn header_reads_elements_properties_and_texts() {
    let text = "ply\nformat binary_big_endian 1.0\ncomment  made   by  me\nobj_info x y\nelement vertex 3\nproperty float x\nproperty uint8 c\nelement face 1\nproperty list uchar int vertex_indices\nend_header\nREST";
    let (h, n) = parse(text).unwrap();
    assert_eq!(n, text.len() - 4);
    assert_eq!(h.format, PlyFormat::BinaryBigEndian);
    assert_eq!(h.version, "1.0");
    assert_eq!(h.comments, vec!["made by me".to_string()]);
    assert_eq!(h.obj_info, vec!["x y".to_string()]);
    assert_eq!(h.elem_defs.len(), 2);
    assert_eq!(h.elem_defs[0].name, "vertex");
    assert_eq!(h.elem_defs[0].count, 3);
    assert_eq!(h.elem_defs[0].properties[0].property_type, PropertyType::Scalar(ScalarType::F32));
    assert_eq!(h.elem_defs[0].properties[1].property_type, PropertyType::Scalar(ScalarType::U8));
    assert_eq!(
        h.elem_defs[1].properties[0].property_type,
        PropertyType::List { count_type: ScalarType::U8, data_type: ScalarType::I32 }
    );
    assert!(h.has_element("face"));
    assert!(!h.has_element("edge"));
    assert_eq!(h.get_element("face").unwrap().count, 1);
    assert!(h.elem_defs[0].has_property("c"));
    assert_eq!(h.elem_defs[0].get_property("x").unwrap().name, "x");
    assert!(h.elem_defs[0].get_property("q").is_none());
}

#[test]
fn header_errors() {
    assert_eq!(parse("plx\nformat ascii 1.0\nend_header\n").err(), Some(DeserializeCause::NotPly));
    assert_eq!(parse("ply\nelement v 1\nend_header\n").err(), Some(DeserializeCause::MissingFormat));
    assert_eq!(parse("ply\nformat ascii\nend_header\n").err(), Some(DeserializeCause::InvalidFormatLine));
    assert_eq!(parse("ply\nformat text 1.0\nend_header\n").err(), Some(DeserializeCause::UnknownFormat));
    assert_eq!(parse("ply\nformat ascii 1.0\nelement v\nend_header\n").err(), Some(DeserializeCause::InvalidElementLine));
    assert_eq!(parse("ply\nformat ascii 1.0\nelement v -1\nend_header\n").err(), Some(DeserializeCause::InvalidElementCount));
    assert_eq!(parse("ply\nformat ascii 1.0\nproperty float x\nend_header\n").err(), Some(DeserializeCause::PropertyWithoutElement));
    assert_eq!(parse("ply\nformat ascii 1.0\nelement v 1\nproperty float\nend_header\n").err(), Some(DeserializeCause::InvalidPropertyLine));
    assert_eq!(parse("ply\nformat ascii 1.0\nelement v 1\nproperty list uchar int\nend_header\n").err(), Some(DeserializeCause::InvalidListPropertyLine));
    assert_eq!(parse("ply\nformat ascii 1.0\nelement v 1\nproperty half x\nend_header\n").err(), Some(DeserializeCause::UnknownScalarType));
    assert_eq!(parse("ply\nformat ascii 1.0\nelement v 1\n").err(), Some(DeserializeCause::UnexpectedEof));
    assert_eq!(PlyHeader::parse(b"ply\nformat ascii 1.0\ncomment \xff\nend_header\n").err().unwrap().0, DeserializeCause::InvalidUtf8);
    let e = PlyHeader::parse(b"ply\n").err().unwrap();
    assert_eq!(e.kind(), ErrorKind::UnexpectedEof);
    let e = PlyHeader::parse(b"nope\n").err().unwrap();
    assert_eq!(e.kind(), ErrorKind::InvalidData);
}

#[test]
fn end_header_must_be_the_whole_line() {
    assert_eq!(parse("ply\nformat ascii 1.0\nend_header \n").err(), Some(DeserializeCause::UnexpectedEof));
    assert!(parse("ply\nformat ascii 1.0\n\nfoo bar\nend_header\n").is_ok());
}

#[test]
fn written_header_reads_back() {
    let header = PlyHeader {
        format: PlyFormat::Ascii,
        version: "1.0".to_string(),
        elem_defs: vec![
            ElementDef {
                name: "vertex".to_string(),
                count: 12,
                properties: vec![PlyProperty { name: "x".to_string(), property_type: PropertyType::Scalar(ScalarType::F64) }],
            },
            ElementDef {
                name: "face".to_string(),
                count: 0,
                properties: vec![PlyProperty {
                    name: "idx".to_string(),
                    property_type: PropertyType::List { count_type: ScalarType::U16, data_type: ScalarType::I8 },
                }],
            },
        ],
        comments: vec!["two words".to_string()],
        obj_info: vec!["one".to_string()],
    };
    let mut bytes = header.to_bytes();
    let len = bytes.len();
    bytes.extend_from_slice(b"\x00\x01");
    let (back, n) = PlyHeader::parse(&bytes).unwrap();
    assert_eq!(n, len);
    assert_eq!(back.to_bytes(), header.to_bytes());
    assert_eq!(back.elem_defs[1].properties[0].property_type, header.elem_defs[1].properties[0].property_type);
    assert_eq!(back.comments, header.comments);
}

#[test]
fn header_end_is_found_first() {
    assert_eq!(find_header_end(b"end_header"), None);
    assert_eq!(find_header_end(b"ply\nend_header\n"), Some(14));
    assert_eq!(find_header_end(b"xend_header\nend_header\n"), Some(11));
}

#[test]
fn scalar_type_names() {
    for (name, t) in [
        ("char", ScalarType::I8),
        ("int8", ScalarType::I8),
        ("uchar", ScalarType::U8),
        ("uint8", ScalarType::U8),
        ("short", ScalarType::I16),
        ("int16", ScalarType::I16),
        ("ushort", ScalarType::U16),
        ("uint16", ScalarType::U16),
        ("int", ScalarType::I32),
        ("int32", ScalarType::I32),
        ("uint", ScalarType::U32),
        ("uint32", ScalarType::U32),
        ("float", ScalarType::F32),
        ("float32", ScalarType::F32),
        ("double", ScalarType::F64),
        ("float64", ScalarType::F64),
    ] {
        assert_eq!(ScalarType::parse(name).unwrap(), t);
        assert_eq!(ScalarType::parse(std::str::from_utf8(&t.keyword()).unwrap()).unwrap(), t);
        assert_eq!(ScalarType::parse(std::str::from_utf8(&t.sized_name()).unwrap()).unwrap(), t);
    }
    assert_eq!(ScalarType::parse("int64").err().unwrap().0, DeserializeCause::UnknownScalarType);
    assert_eq!(ScalarType::F64.size(), 8);
    assert!(ScalarType::F32.is_float());
    assert!(!ScalarType::U32.is_float());
    assert_eq!(PlyFormat::from_name(b"binary_little_endian"), Some(PlyFormat::BinaryLittleEndian));
    assert_eq!(PlyFormat::BinaryBigEndian.name(), b"binary_big_endian".to_vec());
}

#[test]
fn usize_counts() {
    assert_eq!(parse_usize(b"+12"), Some(12));
    assert_eq!(parse_usize(b"007"), Some(7));
    assert_eq!(parse_usize(b"-1"), None);
    assert_eq!(parse_usize(b""), None);
    assert_eq!(parse_usize(b"99999999999999999999999"), None);
}

#[test]
fn header_words_split_at_unicode_whitespace() {
    let text = "\u{3000}ply\u{a0}\nformat\u{2003}ascii 1.0\ncomment a\u{85}b\u{2029}c\u{1680}\nelement\u{202f}v\u{205f}2\nproperty int x\nend_header\n";
    let (h, n) = parse(text).unwrap();
    assert_eq!(n, text.len());
    assert_eq!(h.format, PlyFormat::Ascii);
    assert_eq!(h.comments, vec!["a b c".to_string()]);
    assert_eq!(h.elem_defs[0].name, "v");
    assert_eq!(h.elem_defs[0].count, 2);
    // U+200B is not whitespace: it stays inside the word.
    let (h, _) = parse("ply\nformat ascii 1.0\ncomment a\u{200b}b\nend_header\n").unwrap();
    assert_eq!(h.comments, vec!["a\u{200b}b".to_string()]);
}
