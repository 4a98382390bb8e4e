//! Tag-byte decoding behaviour over the full byte range.

use savegame_reader::{DataType, DecodeError, VarType};

fn expected_kind(nibble: u8) -> Option<DataType> {
    match nibble {
        0 => Some(DataType::FileEnd),
        1 => Some(DataType::I8),
        2 => Some(DataType::U8),
        3 => Some(DataType::I16),
        4 => Some(DataType::U16),
        5 => Some(DataType::I32),
        6 => Some(DataType::U32),
        7 => Some(DataType::I64),
        8 => Some(DataType::U64),
        9 => Some(DataType::StringId),
        10 => Some(DataType::String),
        11 => Some(DataType::Struct),
        _ => None,
    }
}

#[test]
fn zero_byte_is_terminator() {
    assert_eq!(VarType::from_byte(0), Ok(None));
}

#[test]
fn every_nonzero_byte_decodes_by_nibble_and_bit4() {
    for b in 1..=255u8 {
        let nibble = b & 0x0f;
        let is_list = (b >> 4) & 1 == 1;
        let got = VarType::from_byte(b);
        match expected_kind(nibble) {
            Some(kind) => {
                let want = if is_list {
                    VarType::List(kind)
                } else {
                    VarType::Scalar(kind)
                };
                assert_eq!(got, Ok(Some(want)), "byte {:#04x}", b);
            }
            None => {
                assert_eq!(got, Err(DecodeError::InvalidPrimitiveKind), "byte {:#04x}", b);
            }
        }
    }
}

#[test]
fn reserved_high_bits_are_ignored() {
    // bits 5-7 differ, low five bits agree: same decode
    assert_eq!(VarType::from_byte(0x05), VarType::from_byte(0xe5));
    assert_eq!(VarType::from_byte(0x12), VarType::from_byte(0x32));
}

#[test]
fn nibbles_twelve_through_fifteen_fail() {
    for b in [0x0cu8, 0x0d, 0x0e, 0x0f, 0x1c, 0x2d, 0x3e, 0x7f, 0xfc, 0xff] {
        assert_eq!(
            VarType::from_byte(b),
            Err(DecodeError::InvalidPrimitiveKind),
            "byte {:#04x}",
            b
        );
        assert_eq!(DataType::from_byte(b & 0x0f), Err(DecodeError::InvalidPrimitiveKind));
    }
}

#[test]
fn data_type_of_either_cardinality() {
    assert_eq!(VarType::Scalar(DataType::I32).data_type(), DataType::I32);
    assert_eq!(VarType::List(DataType::U8).data_type(), DataType::U8);
}
