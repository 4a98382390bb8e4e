//! End-to-end decoding: headers, records, nested structs, lists, tables.

use savegame_reader::{
    parse_record, read_sparse_table, read_table, read_table_header, ByteReader, DataType,
    DecodeError, Field, ParsedFieldContent, ParsedFieldData, VarType,
};

/// Header bytes for: a (Scalar I32), b (List U8), c (Struct of d: Scalar I16).
fn abc_header() -> Vec<u8> {
    vec![
        0x05, 0x01, b'a', // tag I32, key "a"
        0x12, 0x01, b'b', // tag U8 | list bit, key "b"
        0x0b, 0x01, b'c', // tag Struct, key "c"
        0x00, // end of the outer level
        0x03, 0x01, b'd', // child level for c: tag I16, key "d"
        0x00, // end of the child level
    ]
}

#[test]
fn header_shape_flat_then_children() {
    let mut r = ByteReader::new(abc_header());
    let fields = read_table_header(&mut r).unwrap();
    assert_eq!(fields.len(), 3);
    assert_eq!(fields[0].key, b"a".to_vec());
    assert_eq!(fields[0].var_type, VarType::Scalar(DataType::I32));
    assert!(fields[0].children.is_none());
    assert_eq!(fields[1].key, b"b".to_vec());
    assert_eq!(fields[1].var_type, VarType::List(DataType::U8));
    assert!(fields[1].children.is_none());
    assert_eq!(fields[2].key, b"c".to_vec());
    assert_eq!(fields[2].var_type, VarType::Scalar(DataType::Struct));
    let kids = fields[2].children.as_ref().unwrap();
    assert_eq!(kids.len(), 1);
    assert_eq!(kids[0].key, b"d".to_vec());
    assert_eq!(kids[0].var_type, VarType::Scalar(DataType::I16));
}

#[test]
fn record_round_trip_scalar_list_struct() {
    let mut r = ByteReader::new(abc_header());
    let fields = read_table_header(&mut r).unwrap();

    // a = 7, b = [1, 2, 3], c.d = -5
    let mut data: Vec<u8> = Vec::new();
    data.extend_from_slice(&7i32.to_be_bytes());
    data.push(0x03); // list count 3
    data.extend_from_slice(&[1, 2, 3]);
    data.extend_from_slice(&(-5i16).to_be_bytes());
    let mut r = ByteReader::new(data);
    let item = parse_record(&fields, &mut r).unwrap();
    assert_eq!(r.pos, r.data.len());

    assert_eq!(item.0.len(), 3);
    assert_eq!(item.0[0].key, b"a".to_vec());
    assert_eq!(
        item.0[0].data,
        ParsedFieldData::Scalar(ParsedFieldContent::I32(7))
    );
    assert_eq!(item.0[1].key, b"b".to_vec());
    assert_eq!(
        item.0[1].data,
        ParsedFieldData::List(vec![
            ParsedFieldContent::U8(1),
            ParsedFieldContent::U8(2),
            ParsedFieldContent::U8(3),
        ])
    );
    assert_eq!(item.0[2].key, b"c".to_vec());
    match &item.0[2].data {
        ParsedFieldData::Scalar(ParsedFieldContent::Struct(inner)) => {
            assert_eq!(inner.0.len(), 1);
            assert_eq!(inner.0[0].key, b"d".to_vec());
            assert_eq!(
                inner.0[0].data,
                ParsedFieldData::Scalar(ParsedFieldContent::I16(-5))
            );
        }
        other => panic!("c decoded as {:?}", other),
    }
}

#[test]
fn two_level_nesting_keeps_leaves_on_direct_parent() {
    // outer: s (Struct); s's level: t (Struct), u (U8); t's level: x (I8), y (I8)
    let header: Vec<u8> = vec![
        0x0b, 0x01, b's', 0x00, // outer level: s, end
        0x0b, 0x01, b't', 0x02, 0x01, b'u', 0x00, // s's level: t, u, end
        0x01, 0x01, b'x', 0x01, 0x01, b'y', 0x00, // t's level: x, y, end
    ];
    let mut r = ByteReader::new(header);
    let fields = read_table_header(&mut r).unwrap();
    assert_eq!(fields.len(), 1);
    let s_kids = fields[0].children.as_ref().unwrap();
    assert_eq!(s_kids.len(), 2);
    assert_eq!(s_kids[0].key, b"t".to_vec());
    assert_eq!(s_kids[1].key, b"u".to_vec());
    assert!(s_kids[1].children.is_none());
    let t_kids = s_kids[0].children.as_ref().unwrap();
    assert_eq!(t_kids.len(), 2);
    assert_eq!(t_kids[0].key, b"x".to_vec());
    assert_eq!(t_kids[1].key, b"y".to_vec());

    // data: x = -1, y = 2, u = 9
    let data: Vec<u8> = vec![0xff, 0x02, 0x09];
    let mut r = ByteReader::new(data);
    let item = parse_record(&fields, &mut r).unwrap();
    match &item.0[0].data {
        ParsedFieldData::Scalar(ParsedFieldContent::Struct(s_rec)) => {
            assert_eq!(s_rec.0.len(), 2);
            match &s_rec.0[0].data {
                ParsedFieldData::Scalar(ParsedFieldContent::Struct(t_rec)) => {
                    assert_eq!(t_rec.0.len(), 2);
                    assert_eq!(
                        t_rec.0[0].data,
                        ParsedFieldData::Scalar(ParsedFieldContent::I8(-1))
                    );
                    assert_eq!(
                        t_rec.0[1].data,
                        ParsedFieldData::Scalar(ParsedFieldContent::I8(2))
                    );
                }
                other => panic!("t decoded as {:?}", other),
            }
            assert_eq!(
                s_rec.0[1].data,
                ParsedFieldData::Scalar(ParsedFieldContent::U8(9))
            );
        }
        other => panic!("s decoded as {:?}", other),
    }
}

#[test]
fn list_of_structs_consumes_three_full_records() {
    // l (List Struct of p: U8, q: U8), then z (U8)
    let header: Vec<u8> = vec![
        0x1b, 0x01, b'l', 0x02, 0x01, b'z', 0x00, // outer: l, z, end
        0x02, 0x01, b'p', 0x02, 0x01, b'q', 0x00, // l's level: p, q, end
    ];
    let mut r = ByteReader::new(header);
    let fields = read_table_header(&mut r).unwrap();

    // three (p, q) pairs, then z = 0x77
    let data: Vec<u8> = vec![0x03, 1, 2, 3, 4, 5, 6, 0x77];
    let mut r = ByteReader::new(data);
    let item = parse_record(&fields, &mut r).unwrap();
    match &item.0[0].data {
        ParsedFieldData::List(elems) => {
            assert_eq!(elems.len(), 3);
            for (i, e) in elems.iter().enumerate() {
                match e {
                    ParsedFieldContent::Struct(rec) => {
                        assert_eq!(rec.0.len(), 2);
                        assert_eq!(
                            rec.0[0].data,
                            ParsedFieldData::Scalar(ParsedFieldContent::U8(
                                (2 * i + 1) as u8
                            ))
                        );
                        assert_eq!(
                            rec.0[1].data,
                            ParsedFieldData::Scalar(ParsedFieldContent::U8(
                                (2 * i + 2) as u8
                            ))
                        );
                    }
                    other => panic!("element decoded as {:?}", other),
                }
            }
        }
        other => panic!("l decoded as {:?}", other),
    }
    // z was read only after all three nested records
    assert_eq!(
        item.0[1].data,
        ParsedFieldData::Scalar(ParsedFieldContent::U8(0x77))
    );
}

fn u8_field() -> Vec<Field> {
    vec![Field {
        key: b"v".to_vec(),
        var_type: VarType::Scalar(DataType::U8),
        children: None,
    }]
}

#[test]
fn dense_table_two_records_until_sentinel() {
    // [size+1 = 1 (size 0, advisory), record, again, terminator]
    let data: Vec<u8> = vec![0x01, 0x07, 0x01, 0x09, 0x00];
    let fields = u8_field();
    let mut r = ByteReader::new(data);
    let items = read_table(&mut r, &fields).unwrap();
    assert_eq!(items.len(), 2);
    assert_eq!(
        items[0].0[0].data,
        ParsedFieldData::Scalar(ParsedFieldContent::U8(0x07))
    );
    assert_eq!(
        items[1].0[0].data,
        ParsedFieldData::Scalar(ParsedFieldContent::U8(0x09))
    );
    assert_eq!(r.pos, r.data.len());
}

#[test]
fn sparse_table_one_record_index_discarded() {
    // [size+1 = 1, index = 5, record, terminator]
    let data: Vec<u8> = vec![0x01, 0x05, 0x07, 0x00];
    let fields = u8_field();
    let mut r = ByteReader::new(data);
    let items = read_sparse_table(&mut r, &fields).unwrap();
    assert_eq!(items.len(), 1);
    assert_eq!(
        items[0].0[0].data,
        ParsedFieldData::Scalar(ParsedFieldContent::U8(0x07))
    );
}

#[test]
fn all_integer_widths_big_endian_signed() {
    let header: Vec<u8> = vec![
        0x01, 0x01, b'a', // I8
        0x03, 0x01, b'b', // I16
        0x05, 0x01, b'c', // I32
        0x07, 0x01, b'd', // I64
        0x04, 0x01, b'e', // U16
        0x06, 0x01, b'f', // U32
        0x08, 0x01, b'g', // U64
        0x00,
    ];
    let mut r = ByteReader::new(header);
    let fields = read_table_header(&mut r).unwrap();
    let mut data: Vec<u8> = Vec::new();
    data.extend_from_slice(&(-2i8).to_be_bytes());
    data.extend_from_slice(&(-300i16).to_be_bytes());
    data.extend_from_slice(&(-70000i32).to_be_bytes());
    data.extend_from_slice(&(-5_000_000_000i64).to_be_bytes());
    data.extend_from_slice(&40000u16.to_be_bytes());
    data.extend_from_slice(&3_000_000_000u32.to_be_bytes());
    data.extend_from_slice(&10_000_000_000u64.to_be_bytes());
    let mut r = ByteReader::new(data);
    let item = parse_record(&fields, &mut r).unwrap();
    let expect = [
        ParsedFieldContent::I8(-2),
        ParsedFieldContent::I16(-300),
        ParsedFieldContent::I32(-70000),
        ParsedFieldContent::I64(-5_000_000_000),
        ParsedFieldContent::U16(40000),
        ParsedFieldContent::U32(3_000_000_000),
        ParsedFieldContent::U64(10_000_000_000),
    ];
    for (pf, want) in item.0.iter().zip(expect.iter()) {
        assert_eq!(pf.data, ParsedFieldData::Scalar(want.clone_value()));
    }
}

trait CloneValue {
    fn clone_value(&self) -> ParsedFieldContent;
}

impl CloneValue for ParsedFieldContent {
    fn clone_value(&self) -> ParsedFieldContent {
        match self {
            ParsedFieldContent::I8(v) => ParsedFieldContent::I8(*v),
            ParsedFieldContent::U8(v) => ParsedFieldContent::U8(*v),
            ParsedFieldContent::I16(v) => ParsedFieldContent::I16(*v),
            ParsedFieldContent::U16(v) => ParsedFieldContent::U16(*v),
            ParsedFieldContent::I32(v) => ParsedFieldContent::I32(*v),
            ParsedFieldContent::U32(v) => ParsedFieldContent::U32(*v),
            ParsedFieldContent::I64(v) => ParsedFieldContent::I64(*v),
            ParsedFieldContent::U64(v) => ParsedFieldContent::U64(*v),
            _ => panic!("only integer kinds are cloned here"),
        }
    }
}

#[test]
fn gamma_multi_byte_lengths() {
    // list of U8 with a two-byte gamma count: 10000001 00101100 -> 300
    let fields = vec![Field {
        key: b"l".to_vec(),
        var_type: VarType::List(DataType::U8),
        children: None,
    }];
    let mut data: Vec<u8> = vec![0x81, 0x2c];
    for i in 0..300u32 {
        data.push((i % 251) as u8);
    }
    let mut r = ByteReader::new(data);
    let item = parse_record(&fields, &mut r).unwrap();
    match &item.0[0].data {
        ParsedFieldData::List(elems) => {
            assert_eq!(elems.len(), 300);
            assert_eq!(elems[299], ParsedFieldContent::U8((299 % 251) as u8));
        }
        other => panic!("decoded as {:?}", other),
    }
    assert_eq!(r.pos, r.data.len());
}
