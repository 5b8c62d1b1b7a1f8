use db::record::Record;
use db::row::RowVal;
use db::transaction::{
    deserialize_bytes, serialize_rows, try_deserialize_bytes, try_read_tagged, TransactionItem,
};

#[test]
fn records_take_eight_bytes() {
    let record = Record { id: 36, val: 600 };
    assert_eq!(record.to_bytes(), vec![36, 0, 0, 0, 0x58, 0x02, 0, 0]);
    assert_eq!(Record::from_bytes(&[36, 0, 0, 0, 0x58, 0x02, 0, 0]), record);
    assert_eq!(Record::from_bytes(&[0, 0, 0, 0, 7, 0, 0, 0]), Record { id: 1, val: 7 });
    for (id, val) in [(1u32, 0u32), (u32::MAX, u32::MAX), (256, 65536)] {
        let record = Record { id, val };
        let bytes: [u8; 8] = record.to_bytes().try_into().unwrap();
        assert_eq!(Record::from_bytes(&bytes), record);
    }
}

#[test]
fn item_encodings() {
    assert_eq!(TransactionItem::Start(600).to_bytes(), vec![0, 0x58, 0x02, 0, 0]);
    assert_eq!(TransactionItem::Rollback(1).to_bytes(), vec![1, 1, 0, 0, 0]);
    assert_eq!(TransactionItem::Commit(2).to_bytes(), vec![2, 2, 0, 0, 0]);
    assert_eq!(TransactionItem::Checkpoint.to_bytes(), vec![3]);
    assert_eq!(
        TransactionItem::Insert(vec![RowVal::Id(7), RowVal::Bool(true)]).to_bytes(),
        vec![4, 2, 0, 0, 7, 0, 0, 0, 3, 1]
    );
    assert_eq!(
        TransactionItem::Delete(vec![RowVal::Bytes(b"hi".to_vec()), RowVal::U32(9)]).to_bytes(),
        vec![5, 2, 0, 2, 2, 0, b'h', b'i', 1, 9, 0, 0, 0]
    );
    assert_eq!(TransactionItem::Insert(vec![]).to_bytes(), vec![4, 0, 0]);
}

#[test]
fn items_are_read_back() {
    let items = vec![
        TransactionItem::Start(0),
        TransactionItem::Start(u32::MAX),
        TransactionItem::Rollback(77),
        TransactionItem::Commit(600),
        TransactionItem::Checkpoint,
        TransactionItem::Insert(vec![]),
        TransactionItem::Insert(vec![
            RowVal::Id(7),
            RowVal::U32(42),
            RowVal::Bytes(b"example".to_vec()),
            RowVal::Bool(false),
            RowVal::Bool(true),
        ]),
        TransactionItem::Delete(vec![RowVal::Bytes(vec![]), RowVal::Id(u32::MAX)]),
    ];
    for item in items {
        assert_eq!(TransactionItem::from_bytes(&item.to_bytes()), item);
        assert_eq!(TransactionItem::try_from_bytes(&item.to_bytes()), Some(item));
    }
}

#[test]
fn malformed_items_are_not_read() {
    assert_eq!(TransactionItem::try_from_bytes(&[]), None);
    assert_eq!(TransactionItem::try_from_bytes(&[6]), None);
    assert_eq!(TransactionItem::try_from_bytes(&[0, 1, 2, 3]), None);
    assert_eq!(TransactionItem::try_from_bytes(&[4]), None);
    assert_eq!(TransactionItem::try_from_bytes(&[4, 1, 0]), None);
    assert_eq!(TransactionItem::try_from_bytes(&[4, 1, 0, 9, 0]), None);
    assert_eq!(TransactionItem::try_from_bytes(&[4, 1, 0, 0, 0, 0, 0, 0]), None);
    assert_eq!(TransactionItem::try_from_bytes(&[5, 1, 0, 2, 5, 0, 1]), None);
    assert_eq!(TransactionItem::try_from_bytes(&[3, 9, 9]), Some(TransactionItem::Checkpoint));
}

#[test]
fn lists_of_cells() {
    let row = vec![RowVal::U32(1), RowVal::Bool(true)];
    assert_eq!(serialize_rows(&row), vec![2, 0, 1, 1, 0, 0, 0, 3, 1]);
    assert_eq!(deserialize_bytes(&serialize_rows(&row)), row);
    assert_eq!(try_deserialize_bytes(&[1, 0, 3, 7]), Some(vec![RowVal::Bool(false)]));
    assert_eq!(try_deserialize_bytes(&[1, 0, 3]), None);
    assert_eq!(try_deserialize_bytes(&[0]), None);
    assert_eq!(try_read_tagged(&[1, 9, 0, 0, 0, 5]), Some((RowVal::U32(9), 5)));
    assert_eq!(try_read_tagged(&[2, 1, 0, 65]), Some((RowVal::Bytes(vec![65]), 4)));
    assert_eq!(try_read_tagged(&[4, 0]), None);
}
