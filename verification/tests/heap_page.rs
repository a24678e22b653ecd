use heapstore::heap_page::{HeapPage, SlotId};
use heapstore::page::{Page, PAGE_SIZE};

fn heap_page() -> Page {
    let mut p = Page::new();
    p.init_heap_page();
    p
}

fn bytes(n: usize, b: u8) -> Vec<u8> {
    vec![b; n]
}

#[test]
fn init_gives_empty_page() {
    let p = heap_page();
    assert_eq!(p.get_num_slots(), 0);
    assert_eq!(p.get_free_ptr() as usize, PAGE_SIZE);
    assert_eq!(p.get_header_size(), 24);
    assert_eq!(p.get_free_space(), PAGE_SIZE - 24);
    assert_eq!(p.get_value(0), None);
}

#[test]
fn metadata_is_little_endian() {
    let mut p = heap_page();
    p.set_num_slots(0x0102);
    assert_eq!(p.byte_at(16), 0x02);
    assert_eq!(p.byte_at(17), 0x01);
    p.set_slot_metadata(2, 0x1234, 0x0056);
    assert_eq!(p.byte_at(24 + 8), 0x34);
    assert_eq!(p.byte_at(24 + 9), 0x12);
    assert_eq!(p.byte_at(24 + 10), 0x56);
    assert_eq!(p.byte_at(24 + 11), 0x00);
    assert_eq!(p.get_slot_offset(2), 0x1234);
    assert_eq!(p.get_slot_length(2), 0x56);
    p.set_free_ptr(4000);
    assert_eq!(p.get_free_ptr(), 4000);
}

#[test]
fn add_then_get_gives_value_back() {
    let mut p = heap_page();
    let a = vec![1u8, 2, 3];
    let b = vec![9u8; 10];
    assert_eq!(p.add_value(&a), Some(0));
    assert_eq!(p.add_value(&b), Some(1));
    assert_eq!(p.get_value(0), Some(&a[..]));
    assert_eq!(p.get_value(1), Some(&b[..]));
    assert_eq!(p.get_value(2), None);
    assert_eq!(p.get_num_slots(), 2);
    assert_eq!(p.get_header_size(), 24 + 8);
    assert_eq!(p.get_free_space(), PAGE_SIZE - 32 - 13);
    // Values are stored from the end of the page towards the front.
    assert_eq!(p.get_slot_offset(0) as usize, PAGE_SIZE - 3);
    assert_eq!(p.get_slot_offset(1) as usize, PAGE_SIZE - 13);
}

#[test]
fn delete_frees_slot_for_next_add() {
    let mut p = heap_page();
    for i in 0..4u8 {
        assert_eq!(p.add_value(&bytes(5, i)), Some(i as SlotId));
    }
    assert_eq!(p.delete_value(2), Some(()));
    assert_eq!(p.get_value(2), None);
    assert_eq!(p.delete_value(2), None);
    assert_eq!(p.delete_value(7), None);
    assert_eq!(p.delete_value(1), Some(()));
    // The lowest free slot is taken first; the header does not shrink.
    assert_eq!(p.get_num_slots(), 4);
    assert_eq!(p.add_value(&bytes(6, 7)), Some(1));
    assert_eq!(p.add_value(&bytes(6, 8)), Some(2));
    assert_eq!(p.add_value(&bytes(6, 9)), Some(4));
    assert_eq!(p.get_value(0), Some(&bytes(5, 0)[..]));
    assert_eq!(p.get_value(1), Some(&bytes(6, 7)[..]));
    assert_eq!(p.get_value(3), Some(&bytes(5, 3)[..]));
}

#[test]
fn add_fails_exactly_when_no_space() {
    let mut p = heap_page();
    // An empty page holds one value of PAGE_SIZE - 24 - 4 bytes.
    assert_eq!(p.add_value(&bytes(PAGE_SIZE - 27, 1)), None);
    assert_eq!(p.add_value(&bytes(PAGE_SIZE - 28, 1)), Some(0));
    assert_eq!(p.get_free_space(), 0);
    assert_eq!(p.add_value(&bytes(1, 1)), None);
    assert_eq!(p.add_value(&[]), None);
}

#[test]
fn deleted_space_is_reused_through_compaction() {
    let mut p = heap_page();
    assert_eq!(p.add_value(&bytes(1000, 1)), Some(0));
    assert_eq!(p.add_value(&bytes(1000, 2)), Some(1));
    assert_eq!(p.add_value(&bytes(1000, 3)), Some(2));
    assert_eq!(p.add_value(&bytes(1000, 4)), Some(3));
    assert_eq!(p.delete_value(1), Some(()));
    assert_eq!(p.delete_value(2), Some(()));
    // 2000 bytes are free, but not in one piece.
    assert_eq!(p.get_free_space(), PAGE_SIZE - 40 - 2000);
    assert_eq!(p.add_value(&bytes(1800, 5)), Some(1));
    assert_eq!(p.get_value(0), Some(&bytes(1000, 1)[..]));
    assert_eq!(p.get_value(1), Some(&bytes(1800, 5)[..]));
    assert_eq!(p.get_value(2), None);
    assert_eq!(p.get_value(3), Some(&bytes(1000, 4)[..]));
    assert_eq!(p.get_free_space(), PAGE_SIZE - 40 - 3800);
}

#[test]
fn compact_packs_values_at_the_end() {
    let mut p = heap_page();
    p.add_value(&bytes(10, 1));
    p.add_value(&bytes(20, 2));
    p.add_value(&bytes(30, 3));
    p.delete_value(1);
    let free = p.get_free_space();
    p.compact();
    assert_eq!(p.get_free_space(), free);
    assert_eq!(p.get_free_ptr() as usize, PAGE_SIZE - 40);
    assert_eq!(p.get_slot_offset(0) as usize, PAGE_SIZE - 10);
    assert_eq!(p.get_slot_offset(2) as usize, PAGE_SIZE - 40);
    assert_eq!(p.get_value(0), Some(&bytes(10, 1)[..]));
    assert_eq!(p.get_value(1), None);
    assert_eq!(p.get_value(2), Some(&bytes(30, 3)[..]));
}

#[test]
fn update_in_place_and_elsewhere() {
    let mut p = heap_page();
    p.add_value(&bytes(100, 1));
    p.add_value(&bytes(100, 2));
    // Shorter: stays where it was.
    let off = p.get_slot_offset(0);
    assert_eq!(p.update_value(0, &bytes(50, 7)), Some(()));
    assert_eq!(p.get_slot_offset(0), off);
    assert_eq!(p.get_value(0), Some(&bytes(50, 7)[..]));
    // Longer: moves.
    assert_eq!(p.update_value(1, &bytes(300, 8)), Some(()));
    assert_eq!(p.get_value(1), Some(&bytes(300, 8)[..]));
    assert_eq!(p.get_value(0), Some(&bytes(50, 7)[..]));
    assert_eq!(p.get_free_space(), PAGE_SIZE - 32 - 350);
    // Not a value.
    assert_eq!(p.update_value(2, &bytes(3, 3)), None);
}

#[test]
fn failed_update_leaves_page_unchanged() {
    let mut p = heap_page();
    p.add_value(&bytes(2000, 1));
    p.add_value(&bytes(2000, 2));
    let free = p.get_free_space();
    assert_eq!(free, PAGE_SIZE - 32 - 4000);
    assert_eq!(p.update_value(0, &bytes(2000 + free + 1, 3)), None);
    assert_eq!(p.get_value(0), Some(&bytes(2000, 1)[..]));
    assert_eq!(p.get_value(1), Some(&bytes(2000, 2)[..]));
    // Exactly the old value's space plus the free space fits.
    assert_eq!(p.update_value(0, &bytes(2000 + free, 3)), Some(()));
    assert_eq!(p.get_free_space(), 0);
    assert_eq!(p.get_value(0), Some(&bytes(2000 + free, 3)[..]));
    assert_eq!(p.get_value(1), Some(&bytes(2000, 2)[..]));
}

#[test]
fn empty_value_is_stored() {
    let mut p = heap_page();
    assert_eq!(p.add_value(&[]), Some(0));
    assert_eq!(p.get_num_slots(), 1);
    assert_eq!(p.get_value(0), Some(&[][..]));
    assert_eq!(p.add_value(&[9]), Some(1));
    assert_eq!(p.get_value(1), Some(&[9u8][..]));
    // Replacing a value by an empty one keeps the slot.
    assert_eq!(p.update_value(1, &[]), Some(()));
    assert_eq!(p.get_value(1), Some(&[][..]));
    assert_eq!(p.add_value(&[5]), Some(2));
    // Only a delete frees a slot.
    assert_eq!(p.delete_value(0), Some(()));
    assert_eq!(p.get_value(0), None);
    assert_eq!(p.add_value(&[7]), Some(0));
}

#[test]
fn iter_yields_values_in_slot_order() {
    let mut p = heap_page();
    for i in 0..5u8 {
        p.add_value(&bytes(i as usize + 1, i));
    }
    p.delete_value(1);
    p.delete_value(3);
    let mut it = p.iter();
    let mut seen = Vec::new();
    while let Some((v, slot)) = it.next() {
        seen.push((v.to_vec(), slot));
    }
    assert_eq!(
        seen,
        vec![(bytes(1, 0), 0), (bytes(3, 2), 2), (bytes(5, 4), 4)]
    );
    assert!(it.next().is_none());
    let empty = heap_page();
    assert!(empty.iter().next().is_none());
}
