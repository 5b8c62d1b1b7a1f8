use db::row::{
    byte_array_to_bytes, bytes_to_actions, bytes_to_id, bytes_to_values, from_bytes_bool,
    from_bytes_string, schema_from_bytes, schema_to_bytes, split_row, to_bytes_bool,
    to_bytes_string, try_bytes_to_values, try_schema_from_bytes, valid_schema, valid_values,
    values_to_bytes, verify_insert, RowType, RowVal,
};
use db::utils::{bytes_to_u16, bytes_to_u32, bytes_to_u8, u16_to_bytes, u32_to_bytes};
use db::wal::WALRecord;

#[test]
fn serde_string() {
    let s = "example";

    assert_eq!(from_bytes_string(&to_bytes_string(s)), s);
}

#[test]
fn to_wal() {
    let id: u32 = 36;
    let byte_str = b"example";
    let b = false;
    let n: u32 = 600;

    let vals = vec![RowVal::Bytes(byte_str.to_vec()), RowVal::Bool(b), RowVal::U32(n)];

    let actions = vec![WALRecord::Insert(id, vals), WALRecord::Delete(1)];

    let action_bytes: Vec<_> = actions.iter().flat_map(|x| x.to_bytes()).collect();
    let schema = &[RowType::Id, RowType::Bytes, RowType::Bool, RowType::U32];

    let deserialized_actions: Vec<_> = bytes_to_actions(&action_bytes, schema);

    assert_eq!(actions, deserialized_actions);
}

#[test]
fn serde_schema() {
    let schema = vec![RowType::Id, RowType::U32, RowType::Bytes, RowType::Bool];

    assert_eq!(schema, schema_from_bytes(&schema_to_bytes(&schema)));
}

#[test]
fn serialize_row() {
    let id: u32 = 36;
    let byte_str = b"example";
    let b = false;
    let n: u32 = 600;

    let mut bytes = vec![];
    bytes.extend(id.to_le_bytes());
    bytes.extend(byte_array_to_bytes(byte_str));
    bytes.extend(to_bytes_bool(b));
    bytes.extend(n.to_le_bytes());

    let schema = [RowType::Id, RowType::Bytes, RowType::Bool, RowType::U32];

    assert_eq!(bytes, values_to_bytes(&bytes_to_values(&bytes, &schema).0));
}

#[test]
fn little_endian_numbers() {
    assert_eq!(bytes_to_u32(&[0x58, 0x02, 0, 0]), 600);
    assert_eq!(bytes_to_u32(&[1, 2, 3, 4]), 0x0403_0201);
    assert_eq!(bytes_to_u32(&[255, 255, 255, 255]), u32::MAX);
    assert_eq!(bytes_to_u16(&[0x34, 0x12]), 0x1234);
    assert_eq!(bytes_to_u8(&[7]), 7);
    assert_eq!(u32_to_bytes(600), vec![0x58, 0x02, 0, 0]);
    assert_eq!(u32_to_bytes(u32::MAX), vec![255, 255, 255, 255]);
    assert_eq!(u16_to_bytes(0x1234), vec![0x34, 0x12]);
    for x in [0u32, 1, 255, 256, 65535, 65536, 16777215, 16777216, u32::MAX] {
        assert_eq!(u32_to_bytes(x), x.to_le_bytes().to_vec());
        assert_eq!(bytes_to_u32(&x.to_le_bytes()), x);
    }
    for x in [0u16, 1, 255, 256, u16::MAX] {
        assert_eq!(u16_to_bytes(x), x.to_le_bytes().to_vec());
        assert_eq!(bytes_to_u16(&x.to_le_bytes()), x);
    }
}

#[test]
fn cell_encodings() {
    assert_eq!(RowVal::Id(36).to_bytes(), vec![36, 0, 0, 0]);
    assert_eq!(RowVal::U32(600).to_bytes(), vec![0x58, 0x02, 0, 0]);
    assert_eq!(RowVal::Bytes(b"hi".to_vec()).to_bytes(), vec![2, 0, b'h', b'i']);
    assert_eq!(RowVal::Bytes(vec![]).to_bytes(), vec![0, 0]);
    assert_eq!(RowVal::Bool(true).to_bytes(), vec![1]);
    assert_eq!(RowVal::Bool(false).to_bytes(), vec![0]);
    assert_eq!(to_bytes_bool(true), [1]);
    assert_eq!(to_bytes_bool(false), [0]);
    assert!(from_bytes_bool(&[1]));
    assert!(!from_bytes_bool(&[0]));
    assert_eq!(byte_array_to_bytes(b"abc"), vec![3, 0, b'a', b'b', b'c']);
}

#[test]
fn cell_sizes() {
    assert_eq!(RowVal::Id(1).size(), 4);
    assert_eq!(RowVal::U32(0).size(), 4);
    assert_eq!(RowVal::Bool(true).size(), 1);
    assert_eq!(RowVal::Bytes(vec![]).size(), 2);
    assert_eq!(RowVal::Bytes(b"example".to_vec()).size(), 9);
}

#[test]
fn cell_decoding() {
    assert_eq!(RowVal::from_bytes(&[36, 0, 0, 0], RowType::Id), RowVal::Id(36));
    assert_eq!(RowVal::from_bytes(&[0x58, 0x02, 0, 0], RowType::U32), RowVal::U32(600));
    assert_eq!(
        RowVal::from_bytes(&[2, 0, b'h', b'i', 9, 9], RowType::Bytes),
        RowVal::Bytes(b"hi".to_vec())
    );
    assert_eq!(RowVal::from_bytes(&[1], RowType::Bool), RowVal::Bool(true));
    assert_eq!(RowVal::from_bytes(&[0], RowType::Bool), RowVal::Bool(false));
    assert_eq!(
        RowVal::try_from_bytes(&[2, 0, b'h', b'i', 9, 9], RowType::Bytes),
        Some((RowVal::Bytes(b"hi".to_vec()), 4))
    );
    assert_eq!(RowVal::try_from_bytes(&[7, 0, 0, 0, 5], RowType::U32), Some((RowVal::U32(7), 4)));
}

#[test]
fn cell_decoding_rejects_malformed_bytes() {
    assert_eq!(RowVal::try_from_bytes(&[0, 0, 0, 0], RowType::Id), None);
    assert_eq!(RowVal::try_from_bytes(&[1, 0, 0], RowType::Id), None);
    assert_eq!(RowVal::try_from_bytes(&[1, 0, 0], RowType::U32), None);
    assert_eq!(RowVal::try_from_bytes(&[], RowType::Bool), None);
    assert_eq!(RowVal::try_from_bytes(&[2], RowType::Bool), None);
    assert_eq!(RowVal::try_from_bytes(&[3], RowType::Bytes), None);
    assert_eq!(RowVal::try_from_bytes(&[3, 0, 1, 2], RowType::Bytes), None);
    assert_eq!(RowVal::try_from_bytes(&[0, 0, 0, 0], RowType::U32), Some((RowVal::U32(0), 4)));
}

#[test]
fn cell_validity() {
    assert!(RowVal::Id(1).is_valid());
    assert!(!RowVal::Id(0).is_valid());
    assert!(RowVal::Bytes(vec![0; 65535]).is_valid());
    assert!(!RowVal::Bytes(vec![0; 65536]).is_valid());
    assert!(valid_values(&[RowVal::U32(0), RowVal::Bool(false)]));
    assert!(!valid_values(&[RowVal::U32(0), RowVal::Id(0)]));
}

#[test]
fn kind_codes() {
    assert_eq!(RowType::Id.to_bytes(), [0]);
    assert_eq!(RowType::U32.to_bytes(), [1]);
    assert_eq!(RowType::Bytes.to_bytes(), [2]);
    assert_eq!(RowType::Bool.to_bytes(), [3]);
    assert_eq!(RowType::from_bytes(&[0]), RowType::Id);
    assert_eq!(RowType::from_bytes(&[1]), RowType::U32);
    assert_eq!(RowType::from_bytes(&[2]), RowType::Bytes);
    assert_eq!(RowType::from_bytes(&[3]), RowType::Bool);
    assert_eq!(RowType::try_from_code(3), Some(RowType::Bool));
    assert_eq!(RowType::try_from_code(4), None);
}

#[test]
fn schema_files() {
    let schema = vec![RowType::Id, RowType::U32, RowType::Bytes, RowType::Bool];
    assert_eq!(schema_to_bytes(&schema), vec![0, 1, 2, 3]);
    assert_eq!(try_schema_from_bytes(&[0, 1, 2, 3]), Some(schema));
    assert_eq!(try_schema_from_bytes(&[0, 4]), None);
    assert_eq!(try_schema_from_bytes(&[]), Some(vec![]));
    assert!(valid_schema(&[RowType::Id]));
    assert!(valid_schema(&[RowType::Id, RowType::Bool]));
    assert!(!valid_schema(&[]));
    assert!(!valid_schema(&[RowType::U32, RowType::Id]));
}

#[test]
fn row_decoding_counts_the_bytes() {
    let schema = [RowType::Id, RowType::Bytes, RowType::Bool, RowType::U32];
    let bytes = [36, 0, 0, 0, 2, 0, b'h', b'i', 1, 0x58, 0x02, 0, 0, 0xAA, 0xBB];
    let (row, used) = bytes_to_values(&bytes, &schema);
    assert_eq!(
        row,
        vec![RowVal::Id(36), RowVal::Bytes(b"hi".to_vec()), RowVal::Bool(true), RowVal::U32(600)]
    );
    assert_eq!(used, 13);
    assert_eq!(values_to_bytes(&row), bytes[..13].to_vec());
    assert_eq!(try_bytes_to_values(&bytes[..12], &schema), None);
    assert_eq!(try_bytes_to_values(&[], &[]), Some((vec![], 0)));
}

#[test]
fn row_decoding_rejects_a_zero_identifier() {
    let schema = [RowType::Id, RowType::U32];
    assert_eq!(try_bytes_to_values(&[0, 0, 0, 0, 1, 0, 0, 0], &schema), None);
    assert_eq!(
        try_bytes_to_values(&[1, 0, 0, 0, 0, 0, 0, 0], &schema),
        Some((vec![RowVal::Id(1), RowVal::U32(0)], 8))
    );
}

#[test]
fn rows_are_parted_at_the_identifier() {
    let row = vec![RowVal::Id(9), RowVal::U32(1), RowVal::Bool(true)];
    let (id, tail) = split_row(&row);
    assert_eq!(id, 9);
    assert_eq!(tail, &[RowVal::U32(1), RowVal::Bool(true)]);
    assert_eq!(bytes_to_id(&[9, 0, 0, 0, 77]), 9);
}

#[test]
fn rows_are_held_against_the_schema() {
    let schema = [RowType::Id, RowType::U32, RowType::Bytes, RowType::Bool];
    assert!(verify_insert(
        &[RowVal::U32(1), RowVal::Bytes(vec![]), RowVal::Bool(true)],
        &schema
    ));
    assert!(!verify_insert(&[RowVal::U32(1), RowVal::Bytes(vec![])], &schema));
    assert!(!verify_insert(
        &[RowVal::U32(1), RowVal::Bool(true), RowVal::Bytes(vec![])],
        &schema
    ));
    assert!(!verify_insert(
        &[RowVal::U32(1), RowVal::Bytes(vec![]), RowVal::Bool(true), RowVal::U32(2)],
        &schema
    ));
    assert!(verify_insert(&[], &[RowType::Id]));
    assert!(verify_insert(&[RowVal::Id(4)], &[RowType::Id, RowType::Id]));
}

#[test]
fn strings_keep_their_text() {
    assert_eq!(to_bytes_string("hi"), vec![2, 0, b'h', b'i']);
    assert_eq!(to_bytes_string(""), vec![0, 0]);
    assert_eq!(to_bytes_string("é"), vec![2, 0, 0xC3, 0xA9]);
    assert_eq!(from_bytes_string(&[2, 0, 0xC3, 0xA9]), "é");
    assert_eq!(from_bytes_string(&[0, 0]), "");
    assert_eq!(from_bytes_string(&[1, 0, 0xFF]), "\u{FFFD}");
}

#[test]
fn cells_are_shown_as_text() {
    assert_eq!(RowVal::Id(36).to_string(), "36");
    assert_eq!(RowVal::U32(0).to_string(), "0");
    assert_eq!(RowVal::U32(7).to_string(), "7");
    assert_eq!(RowVal::U32(10).to_string(), "10");
    assert_eq!(RowVal::U32(1203405).to_string(), "1203405");
    assert_eq!(RowVal::U32(u32::MAX).to_string(), "4294967295");
    assert_eq!(RowVal::Bool(true).to_string(), "true");
    assert_eq!(RowVal::Bool(false).to_string(), "false");
    assert_eq!(RowVal::Bytes(b"hi".to_vec()).to_string(), "\"hi\"");
    assert_eq!(RowVal::Bytes(vec![]).to_string(), "\"\"");
    assert_eq!(RowVal::Bytes(vec![0xFF]).to_string(), "\"\u{FFFD}\"");
}
