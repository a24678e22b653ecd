use heapstore::heap_file::{HeapFile, HeapFileError, ValueId, MAX_VALUE_SIZE};
use heapstore::heap_page::HeapPage;
use heapstore::page::Page;

fn vid(page: u32, slot: u16) -> ValueId {
    ValueId { container_id: 7, segment_id: None, page_id: Some(page), slot_id: Some(slot) }
}

fn collect(hf: &HeapFile) -> Vec<(Vec<u8>, ValueId)> {
    let mut it = hf.iter();
    let mut out = Vec::new();
    while let Some(x) = it.next() {
        out.push(x);
    }
    out
}

#[test]
fn new_file_has_only_header_page() {
    let hf = HeapFile::new(7).unwrap();
    assert_eq!(hf.num_pages(), 1);
    assert_eq!(hf.get_val(0, 0), Err(HeapFileError::SlotIdNotFound(0)));
    assert_eq!(hf.get_val(1, 0), Err(HeapFileError::PageIdOutOfBounds(1)));
    assert!(collect(&hf).is_empty());
}

#[test]
fn add_val_then_get_val_gives_value_back() {
    let mut hf = HeapFile::new(7).unwrap();
    assert_eq!(hf.add_val(&[1, 2, 3]), Ok(vid(1, 0)));
    assert_eq!(hf.add_val(&[4]), Ok(vid(1, 1)));
    assert_eq!(hf.num_pages(), 2);
    assert_eq!(hf.get_val(1, 0), Ok(vec![1, 2, 3]));
    assert_eq!(hf.get_val(1, 1), Ok(vec![4]));
    assert_eq!(hf.get_val(1, 2), Err(HeapFileError::SlotIdNotFound(2)));
}

#[test]
fn full_page_moves_on_to_new_page() {
    let mut hf = HeapFile::new(7).unwrap();
    let big = vec![5u8; 2000];
    assert_eq!(hf.add_val(&big), Ok(vid(1, 0)));
    assert_eq!(hf.add_val(&big), Ok(vid(1, 1)));
    assert_eq!(hf.add_val(&big), Ok(vid(2, 0)));
    assert_eq!(hf.add_val(&[1]), Ok(vid(2, 1)));
    assert_eq!(hf.num_pages(), 3);
    let largest = vec![6u8; MAX_VALUE_SIZE];
    assert_eq!(hf.add_val(&largest), Ok(vid(3, 0)));
    assert_eq!(hf.get_val(3, 0), Ok(largest));
}

#[test]
fn delete_then_get_fails() {
    let mut hf = HeapFile::new(7).unwrap();
    hf.add_val(&[1]).unwrap();
    hf.add_val(&[2]).unwrap();
    assert_eq!(hf.delete_val(1, 0), Ok(()));
    assert_eq!(hf.get_val(1, 0), Err(HeapFileError::SlotIdNotFound(0)));
    assert_eq!(hf.get_val(1, 1), Ok(vec![2]));
    assert_eq!(hf.delete_val(1, 0), Err(HeapFileError::SlotIdNotFound(0)));
    assert_eq!(hf.delete_val(9, 0), Err(HeapFileError::PageIdOutOfBounds(9)));
    // The freed slot is taken by the next value.
    assert_eq!(hf.add_val(&[3]), Ok(vid(1, 0)));
}

#[test]
fn update_in_place_or_moved() {
    let mut hf = HeapFile::new(7).unwrap();
    hf.add_val(&vec![1u8; 2000]).unwrap();
    hf.add_val(&vec![2u8; 2000]).unwrap();
    assert_eq!(hf.update_val(1, 0, &[9, 9]), Ok(vid(1, 0)));
    assert_eq!(hf.get_val(1, 0), Ok(vec![9, 9]));
    // Too big for page 1 even with the old value's space: moves to page 2.
    assert_eq!(hf.update_val(1, 1, &vec![3u8; 4065]), Ok(vid(2, 0)));
    assert_eq!(hf.get_val(1, 1), Err(HeapFileError::SlotIdNotFound(1)));
    assert_eq!(hf.get_val(2, 0), Ok(vec![3u8; 4065]));
    assert_eq!(hf.update_val(1, 5, &[1]), Err(HeapFileError::SlotIdNotFound(5)));
    assert_eq!(hf.update_val(0, 0, &[1]), Err(HeapFileError::SlotIdNotFound(0)));
    assert_eq!(hf.update_val(8, 0, &[1]), Err(HeapFileError::PageIdOutOfBounds(8)));
}

#[test]
fn add_vals_returns_each_id() {
    let mut hf = HeapFile::new(7).unwrap();
    let vals = vec![vec![1u8; 10], vec![2u8; 3000], vec![3u8; 2000]];
    let ids = hf.add_vals(vals).unwrap();
    assert_eq!(ids, vec![vid(1, 0), vid(1, 1), vid(2, 0)]);
    assert_eq!(hf.get_val(2, 0), Ok(vec![3u8; 2000]));
}

#[test]
fn iter_visits_values_in_order() {
    let mut hf = HeapFile::new(7).unwrap();
    hf.add_val(&vec![1u8; 3000]).unwrap();
    hf.add_val(&vec![2u8; 3000]).unwrap();
    hf.add_val(&[3]).unwrap();
    hf.add_val(&[4]).unwrap();
    hf.delete_val(2, 1).unwrap();
    let all = collect(&hf);
    assert_eq!(
        all,
        vec![(vec![1u8; 3000], vid(1, 0)), (vec![2u8; 3000], vid(2, 0)), (vec![4], vid(2, 2))]
    );
    let mut it = hf.iter_from(2, 1);
    assert_eq!(it.next(), Some((vec![4], vid(2, 2))));
    assert_eq!(it.next(), None);
    assert_eq!(it.next(), None);
}

#[test]
fn load_reads_existing_pages() {
    let header = Page::new();
    let mut data = Page::new();
    data.init_heap_page();
    data.add_value(&[8, 8]);
    let mut hf = HeapFile::load(3, vec![header, data]).unwrap();
    assert_eq!(hf.num_pages(), 2);
    assert_eq!(hf.get_val(1, 0), Ok(vec![8, 8]));
    // New values go to the last page.
    assert_eq!(
        hf.add_val(&[1]),
        Ok(ValueId { container_id: 3, segment_id: None, page_id: Some(1), slot_id: Some(1) })
    );
}

#[test]
fn into_pages_then_load_keeps_values() {
    let mut hf = HeapFile::new(7).unwrap();
    hf.add_val(&vec![1u8; 3000]).unwrap();
    hf.add_val(&vec![2u8; 3000]).unwrap();
    hf.delete_val(1, 0).unwrap();
    let n = hf.num_pages();
    let mut hf1 = HeapFile::load(7, hf.into_pages()).unwrap();
    assert_eq!(hf1.num_pages(), n);
    assert_eq!(hf1.get_val(1, 0), Err(HeapFileError::SlotIdNotFound(0)));
    assert_eq!(hf1.get_val(2, 0), Ok(vec![2u8; 3000]));
    assert_eq!(hf1.add_val(&[5]), Ok(vid(2, 1)));
}

#[test]
fn update_val_on_missing_value_fails_for_any_value() {
    let mut hf = HeapFile::new(7).unwrap();
    let huge = vec![0u8; 10000];
    assert_eq!(hf.update_val(3, 0, &huge), Err(HeapFileError::PageIdOutOfBounds(3)));
    assert_eq!(hf.update_val(0, 0, &huge), Err(HeapFileError::SlotIdNotFound(0)));
    assert_eq!(hf.num_pages(), 1);
}

#[test]
fn empty_value_is_stored_in_file() {
    let mut hf = HeapFile::new(7).unwrap();
    assert_eq!(hf.add_val(&[]), Ok(vid(1, 0)));
    assert_eq!(hf.get_val(1, 0), Ok(vec![]));
    assert_eq!(hf.add_val(&[1]), Ok(vid(1, 1)));
    assert_eq!(collect(&hf), vec![(vec![], vid(1, 0)), (vec![1], vid(1, 1))]);
}
