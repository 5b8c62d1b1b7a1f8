use db::page::{Page, PageHeader, PAGE_SIZE};
use db::row::{RowType, RowVal};
use db::table::RowMap;

fn schema() -> Vec<RowType> {
    vec![RowType::Id, RowType::U32]
}

fn row(id: u32, val: u32) -> Vec<RowVal> {
    vec![RowVal::Id(id), RowVal::U32(val)]
}

fn entry(id: u32, val: u32) -> (u32, Vec<RowVal>) {
    (id, vec![RowVal::U32(val)])
}

#[test]
fn split() {
    let data = &[row(3, 30), row(4, 40), row(1, 10), row(2, 20)];

    let page = Page::new(data, &schema());
    let (head, tail) = page.split();
    assert_eq!(
        head,
        Page {
            header: PageHeader { end: 2, start: 1, count: 2 },
            data: RowMap { entries: vec![entry(1, 10), entry(2, 20)] },
            dirty: true,
            size: 28,
            schema: schema(),
        }
    );
    assert_eq!(
        tail,
        Page {
            header: PageHeader { end: 4, start: 3, count: 2 },
            data: RowMap { entries: vec![entry(3, 30), entry(4, 40)] },
            dirty: true,
            size: 28,
            schema: schema(),
        }
    );
}

#[test]
fn merge() {
    let data = &[row(3, 30), row(4, 40), row(1, 10), row(2, 20)];

    let (head, tail) = data.split_at(data.len() / 2);

    let mut head = Page::new_dirty(head, &schema());
    head.merge(Page::new(tail, &schema()));
    assert_eq!(
        head,
        Page {
            header: PageHeader { end: 4, start: 1, count: 4 },
            data: RowMap { entries: vec![entry(1, 10), entry(2, 20), entry(3, 30), entry(4, 40)] },
            dirty: true,
            size: 44,
            schema: schema(),
        }
    );
}

#[test]
fn get() {
    let data = &[row(3, 30), row(1, 10), row(2, 20)];
    let id_to_get = 3;

    let page = Page::new(data, &schema());
    let item = page.get(id_to_get);
    assert_eq!(item, Some(vec![RowVal::U32(30)]));
}

#[test]
fn insert() {
    let mut data = vec![row(3, 30), row(1, 10), row(2, 20)];

    let record_to_add = row(4, 40);

    let mut head = Page::new(&data, &schema());
    head.insert(&record_to_add);
    data.push(record_to_add);

    assert_eq!(
        head,
        Page {
            header: PageHeader { end: 4, start: 1, count: 4 },
            data: RowMap { entries: vec![entry(1, 10), entry(2, 20), entry(3, 30), entry(4, 40)] },
            dirty: true,
            size: 44,
            schema: schema(),
        }
    );
    assert_eq!(head, Page::new_dirty(&data, &schema()));
}

#[test]
fn remove() {
    let mut data = vec![row(3, 30), row(4, 40), row(1, 10), row(2, 20)];

    let id_to_remove = 4;

    let mut head = Page::new(&data, &schema());
    head.remove(id_to_remove);
    data.pop();
    assert_eq!(
        head,
        Page {
            header: PageHeader { end: 3, start: 1, count: 3 },
            data: RowMap { entries: vec![entry(1, 10), entry(2, 20), entry(3, 30)] },
            dirty: true,
            size: 36,
            schema: schema(),
        }
    );
}

#[test]
fn serde() {
    let data = &[row(3, 30), row(4, 40), row(1, 10), row(2, 20)];

    let page = Page::new(data, &schema());

    assert_eq!(Page::from_bytes(&page.to_bytes(), &schema()), page);
}

#[test]
fn page_bytes_are_header_then_rows() {
    let page = Page::new(&[row(2, 20), row(1, 10)], &schema());
    assert_eq!(
        page.to_bytes(),
        vec![
            2, 0, 0, 0, 1, 0, 0, 0, 2, 0, 0, 0, // end, start, count
            1, 0, 0, 0, 10, 0, 0, 0, // row 1
            2, 0, 0, 0, 20, 0, 0, 0, // row 2
        ]
    );
    assert_eq!(page.header.to_bytes(), vec![2, 0, 0, 0, 1, 0, 0, 0, 2, 0, 0, 0]);
    assert_eq!(PageHeader::size(), 12);
    assert_eq!(
        PageHeader::from_bytes(&[2, 0, 0, 0, 1, 0, 0, 0, 2, 0, 0, 0]),
        PageHeader { end: 2, start: 1, count: 2 }
    );
}

#[test]
fn page_blocks_are_padded_with_zeros() {
    let page = Page::new(&[row(2, 20), row(1, 10)], &schema());
    let block = page.to_page_bytes();
    assert_eq!(PAGE_SIZE, 4096);
    assert_eq!(block.len(), PAGE_SIZE);
    assert_eq!(block[..28], page.to_bytes()[..]);
    assert!(block[28..].iter().all(|b| *b == 0));
    assert_eq!(Page::from_bytes(&block, &schema()), page);
    assert_eq!(Page::try_from_bytes(&block, &schema()), Some(page));
}

#[test]
fn a_new_page_is_clean_and_sized() {
    let page = Page::new(&[row(7, 70)], &schema());
    assert!(!page.dirty);
    assert_eq!(page.size(), 20);
    assert_eq!(page.len(), 1);
    assert!(!page.is_empty());
    assert!(page.fits());
    assert_eq!(page.header, PageHeader { end: 7, start: 7, count: 1 });
    let dirty = Page::new_dirty(&[row(7, 70)], &schema());
    assert!(dirty.dirty);
    assert_eq!(dirty.data, page.data);
}

#[test]
fn an_empty_page_has_the_sentinel_header() {
    let page = Page::new(&[], &schema());
    assert!(page.is_empty());
    assert_eq!(page.header, PageHeader { end: 1, start: 1, count: 0 });
    assert_eq!(page.size(), 12);
    assert_eq!(page.to_bytes(), vec![1, 0, 0, 0, 1, 0, 0, 0, 0, 0, 0, 0]);

    let mut one = Page::new(&[row(9, 90)], &schema());
    assert_eq!(one.remove(9), Some(vec![RowVal::U32(90)]));
    assert!(one.is_empty());
    assert!(one.dirty);
    assert_eq!(one.header, PageHeader { end: 1, start: 1, count: 0 });
    assert_eq!(one.size(), 12);
}

#[test]
fn a_later_row_takes_the_place_of_an_earlier_one() {
    let page = Page::new(&[row(1, 10), row(2, 20), row(1, 11)], &schema());
    assert_eq!(page.len(), 2);
    assert_eq!(page.get(1), Some(vec![RowVal::U32(11)]));
    assert_eq!(page.size(), 28);

    let mut page = page;
    page.insert(&row(2, 22));
    assert_eq!(page.len(), 2);
    assert_eq!(page.get(2), Some(vec![RowVal::U32(22)]));
    assert_eq!(page.header, PageHeader { end: 2, start: 1, count: 2 });
}

#[test]
fn insert_moves_start_and_end() {
    let mut page = Page::new(&[row(5, 50)], &schema());
    page.insert(&row(2, 20));
    assert_eq!(page.header, PageHeader { end: 5, start: 2, count: 2 });
    page.insert(&row(9, 90));
    assert_eq!(page.header, PageHeader { end: 9, start: 2, count: 3 });
    assert!(page.dirty);
    assert_eq!(page.size(), 36);
}

#[test]
fn remove_of_a_missing_row_changes_nothing() {
    let mut page = Page::new(&[row(1, 10), row(3, 30)], &schema());
    let before = page.clone();
    assert_eq!(page.remove(2), None);
    assert_eq!(page, before);
    assert!(!page.dirty);
    assert_eq!(page.get(2), None);
}

#[test]
fn remove_recomputes_start_and_end() {
    let mut page = Page::new(&[row(1, 10), row(3, 30), row(5, 50)], &schema());
    assert_eq!(page.remove(1), Some(vec![RowVal::U32(10)]));
    assert_eq!(page.header, PageHeader { end: 5, start: 3, count: 2 });
    assert_eq!(page.remove(5), Some(vec![RowVal::U32(50)]));
    assert_eq!(page.header, PageHeader { end: 3, start: 3, count: 1 });
}

#[test]
fn split_of_one_row_leaves_the_head_empty() {
    let page = Page::new(&[row(4, 40)], &schema());
    let (head, tail) = page.split();
    assert!(head.is_empty());
    assert_eq!(tail.data, page.data);
    assert!(head.dirty && tail.dirty);
}

#[test]
fn split_of_five_rows_gives_two_and_three() {
    let page = Page::new(&[row(1, 1), row(2, 2), row(3, 3), row(4, 4), row(5, 5)], &schema());
    let (head, tail) = page.split();
    assert_eq!(head.data.entries, vec![entry(1, 1), entry(2, 2)]);
    assert_eq!(tail.data.entries, vec![entry(3, 3), entry(4, 4), entry(5, 5)]);
}

#[test]
fn split_then_merge_gives_the_rows_again() {
    for n in 0u32..9 {
        let rows: Vec<_> = (1..=n).map(|i| row(i * 3, i)).collect();
        let page = Page::new_dirty(&rows, &schema());
        let (mut head, tail) = page.split();
        head.merge(tail);
        assert_eq!(head, page);
    }
}

#[test]
fn merge_lets_the_other_page_win() {
    let mut page = Page::new(&[row(1, 10), row(2, 20)], &schema());
    page.merge(Page::new(&[row(2, 99), row(0x10, 7)], &schema()));
    assert_eq!(page.data.entries, vec![entry(1, 10), entry(2, 99), entry(16, 7)]);
    assert_eq!(page.header, PageHeader { end: 16, start: 1, count: 3 });
    assert!(page.dirty);
}

#[test]
fn pages_of_every_kind_of_cell_are_read_back() {
    let schema = vec![RowType::Id, RowType::U32, RowType::Bytes, RowType::Bool];
    let rows = vec![
        vec![RowVal::Id(7), RowVal::U32(42), RowVal::Bytes(b"hi".to_vec()), RowVal::Bool(true)],
        vec![RowVal::Id(3), RowVal::U32(0), RowVal::Bytes(vec![]), RowVal::Bool(false)],
    ];
    let page = Page::new(&rows, &schema);
    assert_eq!(page.size(), 12 + (4 + 4 + 2 + 1) + (4 + 4 + 4 + 1));
    assert_eq!(Page::from_bytes(&page.to_page_bytes(), &schema), page);
}

#[test]
fn malformed_pages_are_not_read() {
    let good = Page::new(&[row(1, 10)], &schema()).to_bytes();
    assert!(Page::try_from_bytes(&good, &schema()).is_some());
    assert_eq!(Page::try_from_bytes(&good[..11], &schema()), None);
    assert_eq!(Page::try_from_bytes(&good[..19], &schema()), None);
    let mut zero_end = good.clone();
    zero_end[0] = 0;
    assert_eq!(Page::try_from_bytes(&zero_end, &schema()), None);
    let mut zero_start = good.clone();
    zero_start[4] = 0;
    assert_eq!(Page::try_from_bytes(&zero_start, &schema()), None);
    let mut zero_id = good.clone();
    zero_id[12] = 0;
    assert_eq!(Page::try_from_bytes(&zero_id, &schema()), None);
    let mut two_rows = good.clone();
    two_rows[8] = 2;
    assert_eq!(Page::try_from_bytes(&two_rows, &schema()), None);
    assert_eq!(Page::try_from_bytes(&good, &[RowType::U32, RowType::U32]), None);
    assert_eq!(PageHeader::try_from_slice(&[0; 12]), None);
}

#[test]
fn a_page_of_510_rows_fits_and_one_of_511_does_not() {
    let rows: Vec<_> = (1..=510).map(|i| row(i, i)).collect();
    let mut page = Page::new(&rows, &schema());
    assert_eq!(page.size(), 12 + 510 * 8);
    assert!(page.fits());
    assert_eq!(page.to_page_bytes().len(), PAGE_SIZE);
    page.insert(&row(511, 511));
    assert_eq!(page.size(), 12 + 511 * 8);
    assert!(!page.fits());
}

#[test]
fn row_maps_keep_their_order() {
    let mut map = RowMap::new();
    assert!(map.is_empty());
    assert_eq!(map.insert(5, vec![RowVal::U32(50)]), None);
    assert_eq!(map.insert(1, vec![RowVal::U32(10)]), None);
    assert_eq!(map.insert(3, vec![RowVal::U32(30)]), None);
    assert_eq!(map.insert(3, vec![RowVal::U32(31)]), Some(vec![RowVal::U32(30)]));
    assert_eq!(map.entries, vec![entry(1, 10), entry(3, 31), entry(5, 50)]);
    assert_eq!(map.len(), 3);
    assert_eq!(map.first_key(), Some(1));
    assert_eq!(map.last_key(), Some(5));
    assert_eq!(map.lower_bound(0), 0);
    assert_eq!(map.lower_bound(3), 1);
    assert_eq!(map.lower_bound(4), 2);
    assert_eq!(map.lower_bound(6), 3);
    assert_eq!(map.key_at(1), 3);
    assert_eq!(map.row_at(1), &vec![RowVal::U32(31)]);
    assert!(map.contains_key(5));
    assert!(!map.contains_key(4));
    assert_eq!(map.get(5), Some(vec![RowVal::U32(50)]));
    assert_eq!(map.get(4), None);
    assert_eq!(map.range(1, 3).entries, vec![entry(3, 31), entry(5, 50)]);
    assert_eq!(map.remove(1), Some(vec![RowVal::U32(10)]));
    assert_eq!(map.remove(1), None);
    assert_eq!(map.entries, vec![entry(3, 31), entry(5, 50)]);
    assert_eq!(map.clone(), map);
}
