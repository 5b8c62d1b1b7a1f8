use db::row::{RowType, RowVal};
use db::wal::{deserialize_wal, WALRecord, WAL};

fn schema() -> Vec<RowType> {
    vec![RowType::Id, RowType::U32]
}

fn log_of(records: &[WALRecord]) -> Vec<u8> {
    records.iter().flat_map(|r| r.to_bytes()).collect()
}

#[test]
fn record_encodings() {
    assert_eq!(
        WALRecord::Insert(36, vec![RowVal::U32(600)]).to_bytes(),
        vec![36, 0, 0, 0, 0x58, 0x02, 0, 0]
    );
    assert_eq!(WALRecord::Delete(36).to_bytes(), vec![0, 0, 0, 0, 36, 0, 0, 0]);
    assert_eq!(WALRecord::Insert(5, vec![]).to_bytes(), vec![5, 0, 0, 0]);
}

#[test]
fn records_are_read_with_their_length() {
    let bytes = [36, 0, 0, 0, 0x58, 0x02, 0, 0, 0xAA];
    assert_eq!(
        WALRecord::from_bytes(&bytes, &schema()),
        (WALRecord::Insert(36, vec![RowVal::U32(600)]), 8)
    );
    let bytes = [0, 0, 0, 0, 36, 0, 0, 0, 0xAA];
    assert_eq!(WALRecord::from_bytes(&bytes, &schema()), (WALRecord::Delete(36), 8));
    let wide = [RowType::Id, RowType::Bytes, RowType::Bool];
    let bytes = [7, 0, 0, 0, 2, 0, b'h', b'i', 1];
    assert_eq!(
        WALRecord::from_bytes(&bytes, &wide),
        (WALRecord::Insert(7, vec![RowVal::Bytes(b"hi".to_vec()), RowVal::Bool(true)]), 9)
    );
}

#[test]
fn malformed_records_are_not_read() {
    assert_eq!(WALRecord::try_from_bytes(&[1, 0, 0], &schema()), None);
    assert_eq!(WALRecord::try_from_bytes(&[1, 0, 0, 0, 1, 0, 0], &schema()), None);
    assert_eq!(WALRecord::try_from_bytes(&[0, 0, 0, 0, 1, 0, 0], &schema()), None);
    assert_eq!(WALRecord::try_from_bytes(&[0, 0, 0, 0, 0, 0, 0, 0], &schema()), None);
    assert_eq!(WALRecord::try_from_bytes(&[1, 0, 0, 0, 9], &[RowType::Id, RowType::Bool]), None);
    assert_eq!(WALRecord::try_from_bytes(&[1, 0, 0, 0, 1, 0, 0, 0], &[]), None);
}

#[test]
fn a_log_is_read_back_record_by_record() {
    let records = vec![
        WALRecord::Insert(1, vec![RowVal::U32(10)]),
        WALRecord::Insert(2, vec![RowVal::U32(20)]),
        WALRecord::Delete(1),
        WALRecord::Insert(1, vec![RowVal::U32(11)]),
        WALRecord::Delete(7),
    ];
    assert_eq!(deserialize_wal(&log_of(&records), &schema()), records);
    assert_eq!(deserialize_wal(&[], &schema()), vec![]);
}

#[test]
fn a_log_of_rows_without_cells_is_read_back() {
    let records = vec![WALRecord::Insert(1, vec![]), WALRecord::Insert(2, vec![])];
    assert_eq!(deserialize_wal(&log_of(&records), &[RowType::Id]), records);
}

#[test]
fn a_record_cut_short_ends_the_log() {
    let records = vec![
        WALRecord::Insert(1, vec![RowVal::U32(10)]),
        WALRecord::Insert(2, vec![RowVal::U32(20)]),
    ];
    let bytes = log_of(&records);
    for cut in 8..16 {
        assert_eq!(deserialize_wal(&bytes[..cut], &schema()), records[..1].to_vec());
    }
    for cut in 0..8 {
        assert_eq!(deserialize_wal(&bytes[..cut], &schema()), vec![]);
    }
    let mut delete = log_of(&[WALRecord::Delete(3)]);
    delete.truncate(6);
    assert_eq!(deserialize_wal(&delete, &schema()), vec![]);
}

#[test]
fn pending_writes() {
    let mut wal = WAL::new();
    assert_eq!(wal.get(1), None);
    assert!(wal.insert(1, &[RowVal::U32(10)]));
    assert!(wal.insert(2, &[RowVal::U32(20)]));
    assert!(wal.insert(1, &[RowVal::U32(11)]));
    assert_eq!(wal.get(1), Some(vec![RowVal::U32(11)]));
    assert_eq!(wal.get(2), Some(vec![RowVal::U32(20)]));
    assert_eq!(wal.remove(1), Some(vec![RowVal::U32(11)]));
    assert_eq!(wal.remove(1), None);
    assert_eq!(wal.get(1), None);
    assert_eq!(wal.records.len(), 1);
}

#[test]
fn every_write_leaves_its_record() {
    let mut wal = WAL::new();
    assert_eq!(wal.unwritten, vec![]);
    assert!(wal.insert(1, &[RowVal::U32(10)]));
    assert_eq!(wal.unwritten, vec![1, 0, 0, 0, 10, 0, 0, 0]);
    assert_eq!(wal.remove(1), Some(vec![RowVal::U32(10)]));
    assert_eq!(wal.remove(7), None);
    assert_eq!(
        wal.unwritten,
        vec![1, 0, 0, 0, 10, 0, 0, 0, 0, 0, 0, 0, 1, 0, 0, 0, 0, 0, 0, 0, 7, 0, 0, 0]
    );
    let log = wal.take_unwritten();
    assert_eq!(log.len(), 24);
    assert_eq!(wal.unwritten, vec![]);
    assert_eq!(wal.take_unwritten(), vec![]);
    assert_eq!(
        deserialize_wal(&log, &schema()),
        vec![
            WALRecord::Insert(1, vec![RowVal::U32(10)]),
            WALRecord::Delete(1),
            WALRecord::Delete(7),
        ]
    );
    assert_eq!(WAL::from_records(&deserialize_wal(&log, &schema())).records, wal.records);
}

#[test]
fn records_add_up_in_file_order() {
    let records = vec![
        WALRecord::Insert(2, vec![RowVal::U32(20)]),
        WALRecord::Insert(1, vec![RowVal::U32(10)]),
        WALRecord::Delete(2),
        WALRecord::Insert(3, vec![RowVal::U32(30)]),
        WALRecord::Insert(1, vec![RowVal::U32(11)]),
        WALRecord::Delete(9),
    ];
    let wal = WAL::from_records(&records);
    assert_eq!(
        wal.records.entries,
        vec![(1, vec![RowVal::U32(11)]), (3, vec![RowVal::U32(30)])]
    );
    assert_eq!(records[0].clone(), records[0]);
}
