use splatrs::loader::{
    ascii_vertex_words, parse_binary_vertices, parse_header, read_array, row_layout,
    validate_required_properties, LoadError, PlyFormat, Property, RawScalar, ScalarType,
};

const SCHEMA: &str = "property float x\nproperty float y\nproperty float z\n\
property float f_dc_0\nproperty float f_dc_1\nproperty float f_dc_2\n\
property float opacity\n\
property float scale_0\nproperty float scale_1\nproperty float scale_2\n\
property float rot_0\nproperty float rot_1\nproperty float rot_2\nproperty float rot_3\n";

fn ascii_file(count: usize, rows: &str) -> Vec<u8> {
    format!("ply\nformat ascii 1.0\nelement vertex {count}\n{SCHEMA}end_header\n{rows}").into_bytes()
}

fn words_as_f32(row: &[String]) -> Vec<f32> {
    row.iter().map(|w| w.parse::<f32>().unwrap()).collect()
}

#[test]
fn ascii_loader_accepts_minimal_graphdeco_schema() {
    let bytes = ascii_file(1, "1 2 3 0 0 0 0 -2 -2 -2 1 0 0 0\n");
    let header = parse_header(&bytes).unwrap();
    assert_eq!(header.format, PlyFormat::Ascii);
    let rows = ascii_vertex_words(&bytes[header.data_start..], header.vertex_count).unwrap();
    assert_eq!(rows.len(), 1);
    let values = words_as_f32(&rows[0]);
    let layout = row_layout(&header.vertex_properties);
    let position = [values[layout.position[0]], values[layout.position[1]], values[layout.position[2]]];
    assert_eq!(position, [1.0, 2.0, 3.0]);
}

#[test]
fn binary_loader_accepts_minimal_graphdeco_schema() {
    let mut bytes = format!("ply\nformat binary_little_endian 1.0\nelement vertex 1\n{SCHEMA}end_header\n")
        .into_bytes();
    for value in [1.0_f32, 2.0, 3.0, 0.0, 0.0, 0.0, 0.0, -2.0, -2.0, -2.0, 1.0, 0.0, 0.0, 0.0] {
        bytes.extend_from_slice(&value.to_le_bytes());
    }
    let header = parse_header(&bytes).unwrap();
    assert_eq!(header.format, PlyFormat::BinaryLittleEndian);
    let rows = parse_binary_vertices(&bytes[header.data_start..], &header).unwrap();
    assert_eq!(rows.len(), 1);
    let layout = row_layout(&header.vertex_properties);
    let coord = |i: usize| match rows[0][layout.position[i]] {
        RawScalar::F32Bits(bits) => f32::from_bits(bits),
        other => panic!("unexpected {other:?}"),
    };
    assert_eq!([coord(0), coord(1), coord(2)], [1.0, 2.0, 3.0]);
}

#[test]
fn loader_rejects_missing_required_property() {
    let bytes = b"ply\nformat ascii 1.0\nelement vertex 1\n\
property float x\nproperty float y\nproperty float z\n\
end_header\n0 0 0\n";
    let error = parse_header(bytes).unwrap_err().message();
    assert!(error.contains("f_dc_0"));
}

#[test]
fn header_reports_each_refusal() {
    assert!(matches!(parse_header(b"ply\nformat ascii 1.0\n"), Err(LoadError::MissingEndHeader)));
    assert!(matches!(parse_header(b"ply\xff\nend_header\n"), Err(LoadError::HeaderNotUtf8)));
    let no_format = format!("ply\nelement vertex 1\n{SCHEMA}end_header\n");
    assert!(matches!(parse_header(no_format.as_bytes()), Err(LoadError::MissingFormatLine)));
    let no_vertex = "ply\nformat ascii 1.0\nend_header\n";
    assert!(matches!(parse_header(no_vertex.as_bytes()), Err(LoadError::MissingVertexElement)));
    let big_endian = "ply\nformat binary_big_endian 1.0\nend_header\n";
    match parse_header(big_endian.as_bytes()) {
        Err(LoadError::UnsupportedFormat(name)) => assert_eq!(name, "binary_big_endian"),
        other => panic!("unexpected {:?}", other.map(|h| h.vertex_count)),
    }
    let bad_count = "ply\nformat ascii 1.0\nelement vertex -1\nend_header\n";
    assert!(matches!(parse_header(bad_count.as_bytes()), Err(LoadError::InvalidVertexCount)));
    let bad_type = "ply\nformat ascii 1.0\nelement vertex 1\nproperty half x\nend_header\n";
    match parse_header(bad_type.as_bytes()) {
        Err(LoadError::UnsupportedPropertyType(name)) => assert_eq!(name, "half"),
        other => panic!("unexpected {:?}", other.map(|h| h.vertex_count)),
    }
    let list = "ply\nformat ascii 1.0\nelement vertex 1\nproperty list uchar int idx\nend_header\n";
    assert!(matches!(parse_header(list.as_bytes()), Err(LoadError::ListProperty)));
}

#[test]
fn load_error_messages_read_as_the_cli_prints_them() {
    assert_eq!(
        LoadError::MissingProperty("f_dc_0".to_string()).message(),
        "missing required PLY property `f_dc_0`"
    );
    assert_eq!(LoadError::UnsupportedFormat("x".to_string()).message(), "unsupported PLY format `x`");
    assert_eq!(LoadError::MissingVertexElement.message(), "PLY file does not contain a vertex element");
    assert_eq!(LoadError::MissingEndHeader.message(), "PLY header is missing end_header");
    assert_eq!(LoadError::TruncatedBinaryData.message(), "binary PLY ended unexpectedly while reading vertex data");
}

#[test]
fn header_skips_line_breaks_after_end_header() {
    let bytes = ascii_file(0, "");
    let crlf = format!("ply\r\nformat ascii 1.0\r\nelement vertex 0\r\n{}end_header\r\n\r\n7", SCHEMA.replace('\n', "\r\n"));
    let header = parse_header(crlf.as_bytes()).unwrap();
    assert_eq!(&crlf.as_bytes()[header.data_start..], b"7");
    assert_eq!(parse_header(&bytes).unwrap().data_start, bytes.len());
}

#[test]
fn properties_of_other_elements_are_ignored() {
    let text = format!("ply\nformat ascii 1.0\nelement vertex 2\n{SCHEMA}element face 1\nproperty list uchar int idx\nend_header\n");
    let header = parse_header(text.as_bytes()).unwrap();
    assert_eq!(header.vertex_count, 2);
    assert_eq!(header.vertex_properties.len(), 14);
}

#[test]
fn binary_rows_refuse_truncated_data() {
    let mut bytes = format!("ply\nformat binary_little_endian 1.0\nelement vertex 2\n{SCHEMA}end_header\n").into_bytes();
    bytes.extend_from_slice(&[0u8; 14 * 4 + 3]);
    let header = parse_header(&bytes).unwrap();
    assert!(matches!(
        parse_binary_vertices(&bytes[header.data_start..], &header),
        Err(LoadError::TruncatedBinaryData)
    ));
}

#[test]
fn ascii_rows_stop_at_the_vertex_count() {
    let bytes = ascii_file(1, "1 2 3\n4 5 6\n");
    let header = parse_header(&bytes).unwrap();
    let rows = ascii_vertex_words(&bytes[header.data_start..], header.vertex_count).unwrap();
    assert_eq!(rows, vec![vec!["1".to_string(), "2".to_string(), "3".to_string()]]);
}

#[test]
fn ascii_rows_refuse_a_non_utf8_line() {
    assert!(matches!(ascii_vertex_words(b"1 2\n\xff\n", 2), Err(LoadError::UnreadableAsciiLine)));
}

#[test]
fn read_array_moves_the_cursor() {
    let bytes = [1u8, 2, 3, 4, 5];
    let mut cursor = 1;
    assert_eq!(read_array(&bytes, &mut cursor, 3).unwrap(), &[2, 3, 4]);
    assert_eq!(cursor, 4);
    assert!(matches!(read_array(&bytes, &mut cursor, 2), Err(LoadError::TruncatedBinaryData)));
    assert_eq!(cursor, 4);
}

#[test]
fn scalar_types_parse_both_spellings() {
    assert_eq!(ScalarType::parse("float"), Some(ScalarType::F32));
    assert_eq!(ScalarType::parse("float32"), Some(ScalarType::F32));
    assert_eq!(ScalarType::parse("uchar"), Some(ScalarType::U8));
    assert_eq!(ScalarType::parse("int16"), Some(ScalarType::I16));
    assert_eq!(ScalarType::parse("double"), Some(ScalarType::F64));
    assert_eq!(ScalarType::parse("half"), None);
}

#[test]
fn scalar_decoding_is_little_endian() {
    assert_eq!(ScalarType::I16.decode(&[0xfe, 0xff]), RawScalar::I16(-2));
    assert_eq!(ScalarType::U16.decode(&[0x34, 0x12]), RawScalar::U16(0x1234));
    assert_eq!(ScalarType::I8.decode(&[0x80]), RawScalar::I8(-128));
    assert_eq!(ScalarType::F32.decode(&1.5f32.to_le_bytes()), RawScalar::F32Bits(1.5f32.to_bits()));
    assert_eq!(ScalarType::F64.decode(&2.5f64.to_le_bytes()), RawScalar::F64Bits(2.5f64.to_bits()));
}

#[test]
fn validation_reports_the_first_missing_property() {
    let props: Vec<Property> = ["x", "y", "z", "f_dc_0"]
        .iter()
        .map(|name| Property { name: name.to_string(), scalar_type: ScalarType::F32 })
        .collect();
    match validate_required_properties(&props) {
        Err(LoadError::MissingProperty(name)) => assert_eq!(name, "f_dc_1"),
        _ => panic!("expected a missing property"),
    }
}

#[test]
fn row_layout_orders_rest_coefficients_by_index() {
    let mut names: Vec<String> = ["x", "y", "z", "f_dc_0", "f_dc_1", "f_dc_2", "opacity", "scale_0", "scale_1", "scale_2", "rot_0", "rot_1", "rot_2", "rot_3"]
        .iter()
        .map(|s| s.to_string())
        .collect();
    names.push("f_rest_10".to_string());
    names.push("f_rest_2".to_string());
    names.push("f_rest_0".to_string());
    let props: Vec<Property> = names
        .into_iter()
        .map(|name| Property { name, scalar_type: ScalarType::F32 })
        .collect();
    let layout = row_layout(&props);
    assert_eq!(layout.f_rest, vec![16, 15, 14]);
    assert_eq!(layout.opacity, 6);
    assert_eq!(layout.rotation, [10, 11, 12, 13]);
}
