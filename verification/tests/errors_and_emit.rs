//! Error taxonomy and output emission behaviour.

use savegame_reader::{
    emit_item, parse_record, read_table, read_table_header, ByteReader, DataType, DecodeError,
    Field, OutputValue, ParsedField, ParsedFieldContent, ParsedFieldData, TableItem, VarType,
};

#[test]
fn truncated_header_fails_with_end_of_stream() {
    // tag promises a key, but the stream ends
    let mut r = ByteReader::new(vec![0x05]);
    assert_eq!(
        read_table_header(&mut r),
        Err(DecodeError::UnexpectedEndOfStream)
    );
    // missing terminator after a complete field
    let mut r = ByteReader::new(vec![0x05, 0x01, b'a']);
    assert_eq!(
        read_table_header(&mut r),
        Err(DecodeError::UnexpectedEndOfStream)
    );
}

#[test]
fn header_with_invalid_nibble_fails() {
    let mut r = ByteReader::new(vec![0x0c, 0x01, b'a', 0x00]);
    assert_eq!(
        read_table_header(&mut r),
        Err(DecodeError::InvalidPrimitiveKind)
    );
}

#[test]
fn truncated_record_fails_with_end_of_stream() {
    let fields = vec![Field {
        key: b"a".to_vec(),
        var_type: VarType::Scalar(DataType::I32),
        children: None,
    }];
    let mut r = ByteReader::new(vec![0x00, 0x01]); // two of four bytes
    assert_eq!(
        parse_record(&fields, &mut r),
        Err(DecodeError::UnexpectedEndOfStream)
    );
}

#[test]
fn table_without_sentinel_fails_not_partial() {
    let fields = vec![Field {
        key: b"v".to_vec(),
        var_type: VarType::Scalar(DataType::U8),
        children: None,
    }];
    // one good record, then truncation instead of a sentinel: no partial table
    let mut r = ByteReader::new(vec![0x01, 0x07]);
    assert_eq!(
        read_table(&mut r, &fields),
        Err(DecodeError::UnexpectedEndOfStream)
    );
}

#[test]
fn string_kind_value_decode_is_unimplemented() {
    let fields = vec![Field {
        key: b"s".to_vec(),
        var_type: VarType::Scalar(DataType::String),
        children: None,
    }];
    let mut r = ByteReader::new(vec![0x01, 0x02, 0x03]);
    assert_eq!(
        parse_record(&fields, &mut r),
        Err(DecodeError::UnimplementedPrimitiveKind)
    );
    let fields = vec![Field {
        key: b"s".to_vec(),
        var_type: VarType::Scalar(DataType::StringId),
        children: None,
    }];
    let mut r = ByteReader::new(vec![0x01, 0x02, 0x03]);
    assert_eq!(
        parse_record(&fields, &mut r),
        Err(DecodeError::UnimplementedPrimitiveKind)
    );
}

#[test]
fn file_end_kind_as_value_is_invariant_violation() {
    let fields = vec![Field {
        key: b"x".to_vec(),
        var_type: VarType::Scalar(DataType::FileEnd),
        children: None,
    }];
    let mut r = ByteReader::new(vec![0x01]);
    assert_eq!(
        parse_record(&fields, &mut r),
        Err(DecodeError::InternalInvariantViolation)
    );
}

fn one_field_item(content: ParsedFieldContent) -> TableItem {
    TableItem(vec![ParsedField {
        key: b"k".to_vec(),
        data: ParsedFieldData::Scalar(content),
    }])
}

#[test]
fn emit_string_id_fails_never_a_placeholder() {
    let item = one_field_item(ParsedFieldContent::StringId);
    assert_eq!(
        emit_item(&item),
        Err(DecodeError::UnimplementedPrimitiveKind)
    );
}

#[test]
fn emit_string_fails_never_a_placeholder() {
    let item = one_field_item(ParsedFieldContent::String);
    assert_eq!(
        emit_item(&item),
        Err(DecodeError::UnimplementedPrimitiveKind)
    );
}

#[test]
fn emit_string_inside_list_fails_too() {
    let item = TableItem(vec![ParsedField {
        key: b"k".to_vec(),
        data: ParsedFieldData::List(vec![
            ParsedFieldContent::U8(1),
            ParsedFieldContent::String,
        ]),
    }]);
    assert_eq!(
        emit_item(&item),
        Err(DecodeError::UnimplementedPrimitiveKind)
    );
}

#[test]
fn emit_file_end_is_invariant_violation() {
    let item = one_field_item(ParsedFieldContent::FileEnd);
    assert_eq!(
        emit_item(&item),
        Err(DecodeError::InternalInvariantViolation)
    );
}

#[test]
fn emit_decoded_record_as_object_in_schema_order() {
    let header: Vec<u8> = vec![
        0x05, 0x01, b'a', // a: I32
        0x12, 0x01, b'b', // b: List U8
        0x0b, 0x01, b'c', // c: Struct
        0x00, 0x03, 0x01, b'd', 0x00, // c's child d: I16
    ];
    let mut r = ByteReader::new(header);
    let fields = read_table_header(&mut r).unwrap();
    let mut data: Vec<u8> = Vec::new();
    data.extend_from_slice(&7i32.to_be_bytes());
    data.push(0x03);
    data.extend_from_slice(&[1, 2, 3]);
    data.extend_from_slice(&(-5i16).to_be_bytes());
    let mut r = ByteReader::new(data);
    let item = parse_record(&fields, &mut r).unwrap();
    let out = emit_item(&item).unwrap();
    let want = OutputValue::Object(vec![
        (b"a".to_vec(), OutputValue::Signed(7)),
        (
            b"b".to_vec(),
            OutputValue::Array(vec![
                OutputValue::Unsigned(1),
                OutputValue::Unsigned(2),
                OutputValue::Unsigned(3),
            ]),
        ),
        (
            b"c".to_vec(),
            OutputValue::Object(vec![(b"d".to_vec(), OutputValue::Signed(-5))]),
        ),
    ]);
    assert_eq!(out, want);
}

#[test]
fn gamma_five_byte_form() {
    let mut r = ByteReader::new(vec![0xf1, 0x00, 0x00, 0x00, 0x02]);
    assert_eq!(r.read_gamma(), Ok((1u64 << 32) + 2));
    let mut r = ByteReader::new(vec![0x7f]);
    assert_eq!(r.read_gamma(), Ok(0x7f));
    let mut r = ByteReader::new(vec![0xc1, 0x02, 0x03]);
    assert_eq!(r.read_gamma(), Ok((1 << 16) + (2 << 8) + 3));
    let mut r = ByteReader::new(vec![0x81]);
    assert_eq!(r.read_gamma(), Err(DecodeError::UnexpectedEndOfStream));
}

#[test]
fn empty_schema_level_is_valid() {
    let mut r = ByteReader::new(vec![0x00]);
    let fields = read_table_header(&mut r).unwrap();
    assert!(fields.is_empty());
    // a record over an empty schema consumes nothing
    let mut r = ByteReader::new(vec![]);
    let item = parse_record(&fields, &mut r).unwrap();
    assert!(item.0.is_empty());
}

#[test]
fn declared_size_is_advisory_not_authoritative() {
    // size+1 = 6 claims five bytes, but the schema says one: the schema wins
    let fields = vec![Field {
        key: b"v".to_vec(),
        var_type: VarType::Scalar(DataType::U8),
        children: None,
    }];
    let mut r = ByteReader::new(vec![0x06, 0x07, 0x00]);
    let items = read_table(&mut r, &fields).unwrap();
    assert_eq!(items.len(), 1);
    assert_eq!(
        items[0].0[0].data,
        ParsedFieldData::Scalar(ParsedFieldContent::U8(0x07))
    );
}

#[test]
fn empty_field_name_is_allowed() {
    // a field whose length-prefixed name has zero bytes
    let mut r = ByteReader::new(vec![0x02, 0x00, 0x00]);
    let fields = read_table_header(&mut r).unwrap();
    assert_eq!(fields.len(), 1);
    assert_eq!(fields[0].key, Vec::<u8>::new());
    assert_eq!(fields[0].var_type, VarType::Scalar(DataType::U8));
}
