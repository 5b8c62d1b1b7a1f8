use db::db::{deserialize, file_names, try_deserialize, DB};
use db::image::Image;
use db::page::{Page, PageHeader, PAGE_SIZE};
use db::row::{RowType, RowVal};
use db::wal::WALRecord;

fn schema() -> Vec<RowType> {
    vec![RowType::Id, RowType::U32]
}

fn wide_schema() -> Vec<RowType> {
    vec![RowType::Id, RowType::Bytes]
}

fn wide(fill: u8) -> Vec<RowVal> {
    vec![RowVal::Bytes(vec![fill; 1000])]
}

fn wide_row(id: u32, fill: u8) -> Vec<RowVal> {
    vec![RowVal::Id(id), RowVal::Bytes(vec![fill; 1000])]
}

/// The data file after the image's blocks are written to it.
fn written(mut file: Vec<u8>, image: &Image) -> Vec<u8> {
    let mut by_hand = file.clone();
    by_hand.resize(image.slots * PAGE_SIZE, 0);
    for (slot, block) in &image.writes {
        by_hand[slot * PAGE_SIZE..(slot + 1) * PAGE_SIZE].copy_from_slice(block);
    }
    image.apply(&mut file);
    assert_eq!(file, by_hand);
    file
}

fn extents(db: &DB) -> Vec<(u32, u32, u32)> {
    db.pages().iter().map(|(p, _)| (p.header.start, p.header.end, p.header.count)).collect()
}

#[test]
fn read_write() {
    let mut db = DB::new(&schema());

    for i in 1..=5 {
        db.insert(i, &[RowVal::U32(i)]);
    }

    db.serialize();
    let image = db.sync().unwrap();

    let bytes = written(vec![], &image);

    let deserialized = deserialize(bytes, &schema());

    let rows: Vec<_> = (1..=5).map(|i| vec![RowVal::Id(i), RowVal::U32(i)]).collect();
    assert_eq!(deserialized, vec![(Page::new(&rows, &schema()), Some(0))]);
    assert_eq!(deserialized[0].0.header, PageHeader { end: 5, start: 1, count: 5 });
    assert_eq!(deserialized[0].0.size(), 52);
    assert!(!deserialized[0].0.dirty);
}

#[test]
fn insert_loop() {
    let mut db = DB::new(&schema());

    for i in 1..=510 {
        db.insert(i, &[RowVal::U32(i)]);
    }

    db.sync();

    let pages = db.pages();
    assert_eq!(pages.len(), 1);
    assert_eq!(pages[0].0.header, PageHeader { end: 510, start: 1, count: 510 });
    assert_eq!(pages[0].1, None);
    assert!(pages[0].0.dirty);
    assert_eq!(pages[0].0.size(), 4092);
    for i in 1..=510 {
        assert_eq!(pages[0].0.get(i), Some(vec![RowVal::U32(i)]));
    }
}

#[test]
fn five_rows_make_one_block() {
    let mut db = DB::new(&schema());
    for i in 1..=5 {
        assert!(db.insert(i, &[RowVal::U32(i)]));
    }
    let image = db.sync().unwrap();
    assert_eq!(image.slots, 1);
    assert_eq!(image.writes.len(), 1);
    assert_eq!(image.writes[0].0, 0);
    let file = written(vec![], &image);
    assert_eq!(file.len(), PAGE_SIZE);

    let pages = deserialize(file.clone(), &schema());
    assert_eq!(pages.len(), 1);
    assert_eq!(pages[0].1, Some(0));
    assert_eq!(pages[0].0.header, PageHeader { end: 5, start: 1, count: 5 });

    let (again, image) = DB::open(&file, &[], &schema()).unwrap();
    for i in 1..=5 {
        assert_eq!(again.get(i), Some(vec![RowVal::U32(i)]));
    }
    assert_eq!(again.get(6), None);
    assert_eq!(image, Some(Image { writes: vec![], slots: 1 }));
}

#[test]
fn a_page_that_overflows_is_parted_in_two() {
    let page = Page::new(
        &[wide_row(1, 1), wide_row(2, 2), wide_row(4, 4), wide_row(5, 5)],
        &wide_schema(),
    );
    assert!(page.fits());
    let mut db = DB::new_with_pages(vec![(page, Some(0))], &wide_schema()).unwrap();
    assert!(db.insert(3, &wide(3)));
    let image = db.sync().unwrap();

    let pages = db.pages();
    assert_eq!(pages.len(), 2);
    assert_eq!(pages[0].0.header, PageHeader { end: 2, start: 1, count: 2 });
    assert_eq!(pages[1].0.header, PageHeader { end: 5, start: 3, count: 3 });
    assert!(pages[0].0.dirty && pages[1].0.dirty);
    assert_eq!(pages[0].1, None);
    assert_eq!(pages[1].1, None);
    assert!(pages[0].0.header.end < pages[1].0.header.start);
    assert_eq!(image.slots, 2);
    assert_eq!(image.writes.len(), 2);
    for id in 1..=5u32 {
        assert_eq!(db.get(id), Some(wide(id as u8)));
    }
}

#[test]
fn a_row_of_the_wrong_shape_is_rejected() {
    let mut db = DB::new(&schema());
    assert!(!db.insert(1, &[RowVal::Bool(true)]));
    assert!(!db.insert(1, &[RowVal::U32(1), RowVal::U32(2)]));
    assert!(!db.insert(1, &[]));
    assert!(!db.insert(0, &[RowVal::U32(1)]));
    assert_eq!(db.get(1), None);
    assert_eq!(db.get(0), None);
    assert_eq!(db.wal.records.len(), 0);
    assert_eq!(db.pages().len(), 0);

    let mut db = DB::new(&[RowType::Id, RowType::Bytes]);
    assert!(!db.insert(1, &[RowVal::Bytes(vec![0; 65536])]));
    assert!(db.insert(1, &[RowVal::Bytes(vec![0; 65535])]));
}

#[test]
fn every_kind_of_cell_survives_sync_and_open() {
    let schema = [RowType::Id, RowType::U32, RowType::Bytes, RowType::Bool];
    let tail = vec![RowVal::U32(42), RowVal::Bytes(b"hi".to_vec()), RowVal::Bool(true)];
    let mut db = DB::new(&schema);
    assert!(db.insert(7, &tail));
    let image = db.sync().unwrap();
    let file = written(vec![], &image);
    let (again, _) = DB::open(&file, &[], &schema).unwrap();
    assert_eq!(again.get(7), Some(tail));
}

#[test]
fn writes_that_were_not_synced_come_back_from_the_log() {
    let mut db = DB::new(&schema());
    let mut log: Vec<u8> = vec![];
    let mut by_hand: Vec<u8> = vec![];
    for i in 1..=20u32 {
        assert!(db.insert(i, &[RowVal::U32(i * 10)]));
        log.extend(db.wal.take_unwritten());
        by_hand.extend(WALRecord::Insert(i, vec![RowVal::U32(i * 10)]).to_bytes());
    }
    assert_eq!(log.len(), 160);
    assert_eq!(log, by_hand);

    let (again, image) = DB::open(&[], &log, &schema()).unwrap();
    for i in 1..=20u32 {
        assert_eq!(again.get(i), Some(vec![RowVal::U32(i * 10)]));
    }
    assert_eq!(again.wal.records.len(), 0);
    let image = image.unwrap();
    let file = written(vec![], &image);
    assert_eq!(file.len(), PAGE_SIZE);
    let pages = deserialize(file, &schema());
    assert_eq!(pages[0].0.header, PageHeader { end: 20, start: 1, count: 20 });
}

#[test]
fn deletes_in_the_log_undo_its_inserts() {
    let mut log: Vec<u8> = vec![];
    log.extend(WALRecord::Insert(1, vec![RowVal::U32(10)]).to_bytes());
    log.extend(WALRecord::Insert(2, vec![RowVal::U32(20)]).to_bytes());
    log.extend(WALRecord::Delete(1).to_bytes());
    log.extend([3, 0, 0]);
    let (db, _) = DB::open(&[], &log, &schema()).unwrap();
    assert_eq!(db.get(1), None);
    assert_eq!(db.get(2), Some(vec![RowVal::U32(20)]));
    assert_eq!(db.get(3), None);
}

#[test]
fn reads_see_writes_before_and_after_sync() {
    let mut db = DB::new(&schema());
    assert!(db.insert(5, &[RowVal::U32(50)]));
    assert_eq!(db.get(5), Some(vec![RowVal::U32(50)]));
    assert_eq!(db.pages().len(), 0);
    db.sync().unwrap();
    assert_eq!(db.get(5), Some(vec![RowVal::U32(50)]));
    assert_eq!(db.wal.records.len(), 0);
    assert!(db.insert(5, &[RowVal::U32(51)]));
    assert_eq!(db.get(5), Some(vec![RowVal::U32(51)]));
    db.sync().unwrap();
    assert_eq!(db.get(5), Some(vec![RowVal::U32(51)]));
}

#[test]
fn remove_then_get_finds_nothing() {
    let mut db = DB::new(&schema());
    assert!(db.insert(5, &[RowVal::U32(50)]));
    assert_eq!(db.remove(5), Some(vec![RowVal::U32(50)]));
    assert_eq!(db.get(5), None);
    assert_eq!(db.remove(5), None);
}

#[test]
fn remove_of_a_pending_row_leaves_the_pages_alone() {
    let mut db = DB::new(&schema());
    assert!(db.insert(5, &[RowVal::U32(50)]));
    db.sync().unwrap();
    assert!(db.insert(5, &[RowVal::U32(51)]));
    assert_eq!(db.remove(5), Some(vec![RowVal::U32(51)]));
    assert_eq!(db.get(5), Some(vec![RowVal::U32(50)]));
    assert_eq!(db.remove(5), Some(vec![RowVal::U32(50)]));
    assert_eq!(db.get(5), None);
}

#[test]
fn remove_from_a_page() {
    let mut db = DB::new(&schema());
    for i in [2u32, 4, 6] {
        assert!(db.insert(i, &[RowVal::U32(i)]));
    }
    db.sync().unwrap();
    assert_eq!(db.remove(1), None);
    assert_eq!(db.remove(3), None);
    assert_eq!(db.remove(7), None);
    assert_eq!(db.remove(6), Some(vec![RowVal::U32(6)]));
    assert_eq!(extents(&db), vec![(2, 4, 2)]);
    assert_eq!(db.remove(2), Some(vec![RowVal::U32(2)]));
    assert_eq!(extents(&db), vec![(4, 4, 1)]);
    assert_eq!(db.remove(4), Some(vec![RowVal::U32(4)]));
    assert_eq!(extents(&db), vec![]);
    assert_eq!(db.get(4), None);
    let image = db.sync().unwrap();
    assert_eq!(image, Image { writes: vec![], slots: 0 });
}

#[test]
fn rows_go_to_the_page_they_belong_to() {
    let low = Page::new(&[wide_row(10, 1), wide_row(20, 2)], &wide_schema());
    let high = Page::new(&[wide_row(40, 4), wide_row(50, 5)], &wide_schema());
    let mut db = DB::new_with_pages(vec![(high, Some(1)), (low, Some(0))], &wide_schema()).unwrap();
    assert_eq!(extents(&db), vec![(10, 20, 2), (40, 50, 2)]);
    assert_eq!(db.find_page(5), Some(20));
    assert_eq!(db.find_page(20), Some(20));
    assert_eq!(db.find_page(21), Some(50));
    assert_eq!(db.find_page(50), Some(50));
    assert_eq!(db.find_page(51), None);

    db.insert_to_page(5, &wide(0));
    assert_eq!(extents(&db), vec![(5, 20, 3), (40, 50, 2)]);
    db.insert_to_page(60, &wide(6));
    assert_eq!(extents(&db), vec![(5, 20, 3), (40, 60, 3)]);
    db.insert_to_page(30, &wide(3));
    assert_eq!(extents(&db), vec![(5, 20, 3), (30, 60, 4)]);
    db.insert_to_page(15, &wide(9));
    assert_eq!(extents(&db), vec![(5, 20, 4), (30, 60, 4)]);
    db.insert_to_page(17, &wide(9));
    assert_eq!(extents(&db), vec![(5, 10, 2), (15, 20, 3), (30, 60, 4)]);
    db.insert_to_page(15, &wide(8));
    assert_eq!(extents(&db), vec![(5, 10, 2), (15, 20, 3), (30, 60, 4)]);
    assert_eq!(db.get(15), Some(wide(8)));
    assert_eq!(db.get(16), None);
    assert_eq!(db.get(25), None);
}

#[test]
fn pages_stay_apart_and_in_order() {
    let mut db = DB::new(&wide_schema());
    let ids: Vec<u32> = (1..=60).map(|i| (i * 37) % 61 + 1).collect();
    for (n, id) in ids.iter().enumerate() {
        assert!(db.insert(*id, &wide(*id as u8)));
        if n % 7 == 0 {
            db.sync().unwrap();
        }
    }
    db.sync().unwrap();
    let pages = db.pages();
    assert!(pages.len() > 10);
    for (page, _) in &pages {
        assert!(page.len() > 0);
        assert!(page.header.start <= page.header.end);
        assert_eq!(page.header.count as usize, page.len());
        assert!(page.size() <= PAGE_SIZE);
        assert_eq!(page.to_page_bytes().len(), PAGE_SIZE);
    }
    for pair in pages.windows(2) {
        assert!(pair[0].0.header.end < pair[1].0.header.start);
    }
    for id in &ids {
        assert_eq!(db.get(*id), Some(wide(*id as u8)));
    }
}

#[test]
fn an_image_is_read_back_after_close() {
    let mut db = DB::new(&wide_schema());
    for id in 1..=30u32 {
        assert!(db.insert(id, &wide(id as u8)));
    }
    let image = db.sync().unwrap();
    let file = written(vec![], &image);
    assert_eq!(file.len(), image.slots * PAGE_SIZE);

    let (mut again, first) = DB::open(&file, &[], &wide_schema()).unwrap();
    assert_eq!(first, Some(Image { writes: vec![], slots: image.slots }));
    for id in 1..=30u32 {
        assert_eq!(again.get(id), Some(wide(id as u8)));
    }
    assert_eq!(again.get(31), None);
    assert_eq!(extents(&again), extents(&db));

    assert_eq!(again.remove(1), Some(wide(1)));
    assert!(again.insert(31, &wide(31)));
    let second = again.sync().unwrap();
    let file = written(file, &second);
    let (third, _) = DB::open(&file, &[], &wide_schema()).unwrap();
    assert_eq!(third.get(1), None);
    for id in 2..=31u32 {
        assert_eq!(third.get(id), Some(wide(id as u8)));
    }
}

#[test]
fn only_dirty_or_moved_pages_are_written() {
    let a = Page::new(&[wide_row(1, 1)], &wide_schema());
    let b = Page::new(&[wide_row(5, 5)], &wide_schema());
    let c = Page::new_dirty(&[wide_row(9, 9)], &wide_schema());
    let db = DB::new_with_pages(
        vec![(a, Some(0)), (b.clone(), Some(2)), (c.clone(), Some(2))],
        &wide_schema(),
    )
    .unwrap();
    let image = db.serialize().unwrap();
    assert_eq!(image.slots, 3);
    assert_eq!(
        image.writes,
        vec![(1, b.to_page_bytes()), (2, c.to_page_bytes())]
    );
}

#[test]
fn a_page_that_cannot_fit_stops_the_sync() {
    let mut db = DB::new(&wide_schema());
    assert!(db.insert(1, &[RowVal::Bytes(vec![7; 5000])]));
    assert_eq!(db.sync(), None);
    assert_eq!(db.serialize(), None);
    assert_eq!(db.get(1), Some(vec![RowVal::Bytes(vec![7; 5000])]));
    assert_eq!(db.wal.records.len(), 1);
    assert_eq!(db.pages().len(), 1);
}

#[test]
fn pages_that_overlap_make_no_database() {
    let a = Page::new(&[wide_row(1, 1), wide_row(5, 5)], &wide_schema());
    let b = Page::new(&[wide_row(3, 3)], &wide_schema());
    assert!(DB::new_with_pages(vec![(a.clone(), None), (b.clone(), None)], &wide_schema()).is_none());
    let empty = Page::new(&[], &wide_schema());
    let db = DB::new_with_pages(vec![(a, None), (empty, None)], &wide_schema()).unwrap();
    assert_eq!(db.pages().len(), 1);

    let mut file = Page::new(&[wide_row(1, 1), wide_row(5, 5)], &wide_schema()).to_page_bytes();
    file.extend(b.to_page_bytes());
    assert!(try_deserialize(&file, &wide_schema()).is_some());
    assert!(DB::open(&file, &[], &wide_schema()).is_none());
}

#[test]
fn data_files_are_read_block_by_block() {
    let a = Page::new(&[wide_row(1, 1)], &wide_schema());
    let b = Page::new(&[wide_row(5, 5)], &wide_schema());
    let mut file = b.to_page_bytes();
    file.extend(a.to_page_bytes());
    let pages = deserialize(file.clone(), &wide_schema());
    assert_eq!(pages, vec![(b, Some(0)), (a, Some(1))]);
    assert_eq!(deserialize(vec![], &wide_schema()), vec![]);
    assert_eq!(try_deserialize(&file[..PAGE_SIZE + 1], &wide_schema()), None);
    assert_eq!(try_deserialize(&file[..PAGE_SIZE - 1], &wide_schema()), None);
    assert_eq!(try_deserialize(&vec![0; PAGE_SIZE], &wide_schema()), None);
    assert_eq!(try_deserialize(&file, &[RowType::Bytes]), None);
    assert!(DB::open(&file, &[], &[]).is_none());
}

#[test]
fn a_page_with_the_greatest_identifier_is_found() {
    let low = Page::new(&[wide_row(10, 1)], &wide_schema());
    let top = Page::new(&[wide_row(u32::MAX - 1, 2), wide_row(u32::MAX, 3)], &wide_schema());
    let mut db = DB::new_with_pages(vec![(low, None), (top, None)], &wide_schema()).unwrap();
    assert_eq!(db.find_page(11), Some(u32::MAX));
    assert_eq!(db.find_page(u32::MAX), Some(u32::MAX));
    assert_eq!(db.get(u32::MAX), Some(wide(3)));
    assert_eq!(db.get(500), None);
    db.insert_to_page(500, &wide(5));
    assert_eq!(extents(&db), vec![(10, 10, 1), (500, u32::MAX, 3)]);
    assert_eq!(db.remove(u32::MAX), Some(wide(3)));
    assert_eq!(extents(&db), vec![(10, 10, 1), (500, u32::MAX - 1, 2)]);
}

#[test]
fn an_image_cuts_the_file_to_its_slots() {
    let image = Image { writes: vec![(1, vec![7; PAGE_SIZE])], slots: 2 };
    let mut file = vec![9; 3 * PAGE_SIZE + 5];
    image.apply(&mut file);
    assert_eq!(file.len(), 2 * PAGE_SIZE);
    assert!(file[..PAGE_SIZE].iter().all(|b| *b == 9));
    assert!(file[PAGE_SIZE..].iter().all(|b| *b == 7));

    let mut short = vec![9; 10];
    image.apply(&mut short);
    assert_eq!(short.len(), 2 * PAGE_SIZE);
    assert!(short[..10].iter().all(|b| *b == 9));
    assert!(short[10..PAGE_SIZE].iter().all(|b| *b == 0));
    assert!(short[PAGE_SIZE..].iter().all(|b| *b == 7));

    let mut gone = vec![1; PAGE_SIZE];
    Image { writes: vec![], slots: 0 }.apply(&mut gone);
    assert_eq!(gone, vec![]);
}

#[test]
fn clean_pages_at_their_slots_are_left_on_disk() {
    let mut db = DB::new(&wide_schema());
    for id in 1..=12u32 {
        assert!(db.insert(id, &wide(id as u8)));
    }
    let file = written(vec![], &db.sync().unwrap());
    let (mut db, _) = DB::open(&file, &[], &wide_schema()).unwrap();
    assert!(db.insert(12, &wide(99)));
    let image = db.sync().unwrap();
    assert_eq!(image.writes.len(), 1);
    assert_eq!(image.writes[0].0, image.slots - 1);
    let file = written(file, &image);
    let (again, _) = DB::open(&file, &[], &wide_schema()).unwrap();
    for id in 1..=11u32 {
        assert_eq!(again.get(id), Some(wide(id as u8)));
    }
    assert_eq!(again.get(12), Some(wide(99)));
}

#[test]
fn rows_of_one_width_never_overflow_a_page() {
    let mut db = DB::new(&schema());
    for i in 1..=3000u32 {
        assert!(db.insert((i * 7919) % 3001 + 1, &[RowVal::U32(i)]));
        if i % 500 == 0 {
            assert!(db.sync().is_some());
        }
    }
    let pages = db.pages();
    assert!(pages.len() >= 6);
    for (page, _) in &pages {
        assert!(page.size() <= PAGE_SIZE);
    }
    for pair in pages.windows(2) {
        assert!(pair[0].0.header.end < pair[1].0.header.start);
    }
}

#[test]
fn an_index_of_thousands_of_pages_keeps_its_order() {
    let big = |id: u32| vec![RowVal::Bytes(vec![(id % 251) as u8; 3000])];
    let mut db = DB::new(&wide_schema());
    let count: u32 = 2600;
    for i in 0..count {
        let id = (i * 1009) % count + 1;
        assert!(db.insert(id * 10, &big(id)));
    }
    assert!(db.sync().is_some());
    let pages = db.pages();
    assert_eq!(pages.len(), count as usize);
    for (place, (page, _)) in pages.iter().enumerate() {
        let id = (place as u32 + 1) * 10;
        assert_eq!(page.header, PageHeader { end: id, start: id, count: 1 });
    }
    for id in 1..=count {
        assert_eq!(db.find_page(id * 10), Some(id * 10));
        assert_eq!(db.find_page(id * 10 - 9), Some(id * 10));
        assert_eq!(db.get(id * 10), Some(big(id)));
        assert_eq!(db.get(id * 10 - 1), None);
    }
    assert_eq!(db.find_page(count * 10 + 1), None);
    for id in (1..=count).filter(|id| id % 3 != 0) {
        assert_eq!(db.remove(id * 10), Some(big(id)));
    }
    let left = db.pages();
    assert_eq!(left.len(), (count / 3) as usize);
    for (place, (page, _)) in left.iter().enumerate() {
        assert_eq!(page.header.end, (place as u32 + 1) * 30);
    }
    for id in 1..=count {
        let want = if id % 3 == 0 { Some(big(id)) } else { None };
        assert_eq!(db.get(id * 10), want);
        let next = (id + 2) / 3 * 3;
        let found = if next <= count { Some(next * 10) } else { None };
        assert_eq!(db.find_page(id * 10), found);
    }
}

#[test]
fn the_three_files_of_a_database() {
    assert_eq!(
        file_names("test", 1),
        ("test.1.db".to_string(), "test.1.wal".to_string(), "test.1.schema".to_string())
    );
    assert_eq!(file_names("", 120).0, ".120.db");
    assert_eq!(file_names("a.b", u64::MAX).1, "a.b.18446744073709551615.wal");
    assert_eq!(DB::new(&schema()).epoch, 1);
}

#[test]
fn the_log_file_keeps_up_with_what_a_reader_sees() {
    let mut db = DB::new(&schema());
    let mut log: Vec<u8> = vec![];
    let steps: [(u32, Option<u32>); 9] = [
        (3, Some(30)),
        (1, Some(10)),
        (3, None),
        (2, Some(20)),
        (1, Some(11)),
        (9, None),
        (2, None),
        (2, Some(22)),
        (0, None),
    ];
    for (id, val) in steps {
        match val {
            Some(val) => assert!(db.insert(id, &[RowVal::U32(val)])),
            None => {
                db.remove(id);
            }
        }
        log.extend(db.wal.take_unwritten());
        let (again, _) = DB::open(&[], &log, &schema()).unwrap();
        for probe in 0..12 {
            assert_eq!(again.get(probe), db.get(probe));
        }
    }
    assert_eq!(log.len(), 8 * 8);
    assert!(!db.insert(5, &[]));
    assert_eq!(db.wal.unwritten, vec![]);
    assert!(db.insert(5, &[RowVal::U32(50)]));
    assert!(db.sync().is_some());
    assert_eq!(db.wal.unwritten, vec![]);
}
