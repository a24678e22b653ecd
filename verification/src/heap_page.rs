//! The slotted heap page: a slot directory that grows from the front of the
//! page and variable-length values that grow from the back.
//!
//! Layout after the fixed page header (`PAGE_FIXED_HEADER_LEN` bytes):
//! the number of slots (`u16`), the free-space pointer (`u16`), four unused
//! bytes, then four bytes per slot: the value's offset and its length (both
//! `u16`). A slot whose offset and length are both zero is free.
use vstd::prelude::*;
use crate::page::{
    Page, PAGE_SIZE, PAGE_FIXED_HEADER_LEN, OFFSET_NUM_BYTES, spec_u16_at, spec_set_u16,
    spec_write_bytes, lemma_set_u16, lemma_page_len,
};

verus! {

broadcast use lemma_page_len;

/// Identifies a value inside a page.
pub type SlotId = u16;

/// The size of a slot id.
pub const SLOT_ID_SIZE: usize = 2;

/// The metadata stored per slot: offset and length.
pub const SLOT_METADATA_SIZE: usize = 4;

/// The heap page's own metadata, in addition to the page header.
pub const HEAP_PAGE_FIXED_METADATA_SIZE: usize = 8;

/// Where the number of slots is stored.
pub const NUM_SLOTS_OFFSET: usize = PAGE_FIXED_HEADER_LEN;

/// Where the free-space pointer is stored.
pub const FREE_PTR_OFFSET: usize = NUM_SLOTS_OFFSET + OFFSET_NUM_BYTES;

/// Where the slot directory starts.
pub const SLOTS_START: usize = PAGE_FIXED_HEADER_LEN + HEAP_PAGE_FIXED_METADATA_SIZE;

/// The number of slots whose metadata fits in a page.
pub const MAX_SLOTS: usize = 1018;

// ---------------------------------------------------------------------------
// The byte layout.

/// Size of the header of a heap page with `n` slots.
pub open spec fn header_size(n: int) -> int {
    SLOTS_START + SLOT_METADATA_SIZE * n
}

/// Where the metadata of slot `i` starts.
pub open spec fn meta_pos(i: int) -> int {
    SLOTS_START + SLOT_METADATA_SIZE * i
}

pub open spec fn num_slots_of(s: Seq<u8>) -> int {
    spec_u16_at(s, NUM_SLOTS_OFFSET as int)
}

pub open spec fn free_ptr_of(s: Seq<u8>) -> int {
    spec_u16_at(s, FREE_PTR_OFFSET as int)
}

pub open spec fn slot_offset_of(s: Seq<u8>, i: int) -> int {
    spec_u16_at(s, meta_pos(i))
}

pub open spec fn slot_length_of(s: Seq<u8>, i: int) -> int {
    spec_u16_at(s, meta_pos(i) + 2)
}

/// Slot `i` is free: its offset and its length are both zero. A value,
/// even an empty one, always lies at or after the end of the slot directory,
/// so its offset is never zero.
pub open spec fn slot_free_of(s: Seq<u8>, i: int) -> bool {
    slot_offset_of(s, i) == 0 && slot_length_of(s, i) == 0
}

/// Slot `i` is in the directory and holds a value.
pub open spec fn slot_live_of(s: Seq<u8>, i: int) -> bool {
    0 <= i < num_slots_of(s) && !slot_free_of(s, i)
}

/// The value held by slot `i`, if any.
pub open spec fn slot_value_of(s: Seq<u8>, i: int) -> Option<Seq<u8>> {
    if slot_live_of(s, i) {
        Some(s.subrange(slot_offset_of(s, i), slot_offset_of(s, i) + slot_length_of(s, i)))
    } else {
        None
    }
}

/// The values of a heap page by slot id; `None` marks a free slot.
pub open spec fn records_of(s: Seq<u8>) -> Seq<Option<Seq<u8>>> {
    Seq::new(num_slots_of(s) as nat, |i: int| slot_value_of(s, i))
}

/// The sum of the lengths of slots `0..k`.
pub open spec fn sum_slot_lengths(s: Seq<u8>, k: int) -> int
    decreases k,
{
    if k <= 0 {
        0
    } else {
        sum_slot_lengths(s, k - 1) + slot_length_of(s, k - 1)
    }
}

/// The slot directory fits in the page and every value lies inside it.
pub open spec fn slots_readable(s: Seq<u8>) -> bool {
    &&& s.len() == PAGE_SIZE
    &&& header_size(num_slots_of(s)) <= PAGE_SIZE
    &&& forall|i: int|
        0 <= i < num_slots_of(s) && !(slot_offset_of(s, i) == 0 && #[trigger] slot_length_of(s, i) == 0) ==> slot_offset_of(s, i)
            + slot_length_of(s, i) <= PAGE_SIZE
}

/// The header and all slot lengths together fit in the page.
pub open spec fn space_accounted(s: Seq<u8>) -> bool {
    &&& s.len() == PAGE_SIZE
    &&& header_size(num_slots_of(s)) + sum_slot_lengths(s, num_slots_of(s)) <= PAGE_SIZE
}

/// A well-formed heap page: the directory ends before the free-space
/// pointer, every value lies between the free-space pointer and the end of
/// the page, and no two values overlap.
pub open spec fn heap_wf(s: Seq<u8>) -> bool {
    &&& slots_readable(s)
    &&& space_accounted(s)
    &&& header_size(num_slots_of(s)) <= free_ptr_of(s) <= PAGE_SIZE
    &&& forall|i: int|
        0 <= i < num_slots_of(s) && !(slot_offset_of(s, i) == 0 && #[trigger] slot_length_of(s, i) == 0) ==> free_ptr_of(s)
            <= slot_offset_of(s, i)
    &&& forall|i: int, j: int|
        0 <= i < num_slots_of(s) && 0 <= j < num_slots_of(s) && i != j && !(slot_offset_of(s, i) == 0 && #[trigger] slot_length_of(s, i) == 0) && !(slot_offset_of(s, j) == 0 && #[trigger] slot_length_of(s, j) == 0) ==> slot_offset_of(s, i) + slot_length_of(
            s,
            i,
        ) <= slot_offset_of(s, j) || slot_offset_of(s, j) + slot_length_of(s, j) <= slot_offset_of(
            s,
            i,
        )
}

// ---------------------------------------------------------------------------
// The abstract records and what each operation does to them.

pub open spec fn value_len(v: Option<Seq<u8>>) -> int {
    match v {
        Some(b) => b.len() as int,
        None => 0,
    }
}

/// The sum of the lengths of the values in slots `0..k`.
pub open spec fn total_len_prefix(r: Seq<Option<Seq<u8>>>, k: int) -> int
    decreases k,
{
    if k <= 0 {
        0
    } else {
        total_len_prefix(r, k - 1) + value_len(r[k - 1])
    }
}

pub open spec fn total_len(r: Seq<Option<Seq<u8>>>) -> int {
    total_len_prefix(r, r.len() as int)
}

/// The free space of a page holding `r`: what is neither header nor value,
/// wherever it lies.
pub open spec fn free_space(r: Seq<Option<Seq<u8>>>) -> int {
    PAGE_SIZE - header_size(r.len() as int) - total_len(r)
}

/// The first free slot at or after `i`, or `r.len()` where there is none.
pub open spec fn lowest_free_from(r: Seq<Option<Seq<u8>>>, i: int) -> int
    decreases r.len() - i,
{
    if i >= r.len() {
        r.len() as int
    } else if r[i] is None {
        i
    } else {
        lowest_free_from(r, i + 1)
    }
}

/// The slot that the next insertion takes: the lowest free one, or a new one.
pub open spec fn lowest_free(r: Seq<Option<Seq<u8>>>) -> int {
    lowest_free_from(r, 0)
}

/// The bytes an insertion of `len` bytes takes from the free space.
pub open spec fn add_needed(r: Seq<Option<Seq<u8>>>, len: int) -> int {
    len + if lowest_free(r) == r.len() {
        SLOT_METADATA_SIZE as int
    } else {
        0
    }
}

pub open spec fn add_fits(r: Seq<Option<Seq<u8>>>, len: int) -> bool {
    add_needed(r, len) <= free_space(r)
}

pub open spec fn records_after_add(r: Seq<Option<Seq<u8>>>, b: Seq<u8>) -> Seq<Option<Seq<u8>>> {
    let k = lowest_free(r);
    if k < r.len() {
        r.update(k, Some(b))
    } else {
        r.push(Some(b))
    }
}

/// Slot `k` holds a value.
pub open spec fn slot_is_live(r: Seq<Option<Seq<u8>>>, k: int) -> bool {
    0 <= k < r.len() && r[k] is Some
}

/// Replacing the value in slot `k` by `len` bytes fits: the old value's space
/// is counted as free.
pub open spec fn update_fits(r: Seq<Option<Seq<u8>>>, k: int, len: int) -> bool {
    len <= free_space(r) + value_len(r[k])
}

// ---------------------------------------------------------------------------
// Lemmas on the abstract records.

pub proof fn lemma_lowest_free_from(r: Seq<Option<Seq<u8>>>, i: int)
    requires
        0 <= i <= r.len(),
    ensures
        i <= lowest_free_from(r, i) <= r.len(),
        forall|j: int| i <= j < lowest_free_from(r, i) ==> #[trigger] r[j] is Some,
        lowest_free_from(r, i) < r.len() ==> r[lowest_free_from(r, i)] is None,
    decreases r.len() - i,
{
    if i < r.len() && r[i] is Some {
        lemma_lowest_free_from(r, i + 1);
    }
}

/// The lowest free slot: every slot before it holds a value, and it is free
/// or past the last slot.
pub proof fn lemma_lowest_free(r: Seq<Option<Seq<u8>>>)
    ensures
        0 <= lowest_free(r) <= r.len(),
        forall|j: int| 0 <= j < lowest_free(r) ==> #[trigger] r[j] is Some,
        lowest_free(r) < r.len() ==> r[lowest_free(r)] is None,
{
    lemma_lowest_free_from(r, 0);
}

pub proof fn lemma_total_len_prefix_nonneg(r: Seq<Option<Seq<u8>>>, k: int)
    ensures
        total_len_prefix(r, k) >= 0,
    decreases k,
{
    if k > 0 {
        lemma_total_len_prefix_nonneg(r, k - 1);
    }
}

/// Replacing one value changes the total length by the difference.
pub proof fn lemma_total_len_update(r: Seq<Option<Seq<u8>>>, k: int, v: Option<Seq<u8>>, m: int)
    requires
        0 <= k < r.len(),
        0 <= m <= r.len(),
    ensures
        total_len_prefix(r.update(k, v), m) == total_len_prefix(r, m) + if k < m {
            value_len(v) - value_len(r[k])
        } else {
            0
        },
    decreases m,
{
    if m > 0 {
        lemma_total_len_update(r, k, v, m - 1);
    }
}

/// Prefix sums only look at the prefix.
pub proof fn lemma_total_len_prefix_agree(r1: Seq<Option<Seq<u8>>>, r2: Seq<Option<Seq<u8>>>, m: int)
    requires
        0 <= m <= r1.len(),
        m <= r2.len(),
        forall|j: int| 0 <= j < m ==> r1[j] == r2[j],
    ensures
        total_len_prefix(r1, m) == total_len_prefix(r2, m),
    decreases m,
{
    if m > 0 {
        lemma_total_len_prefix_agree(r1, r2, m - 1);
    }
}

pub proof fn lemma_total_len_push(r: Seq<Option<Seq<u8>>>, v: Option<Seq<u8>>)
    ensures
        total_len(r.push(v)) == total_len(r) + value_len(v),
{
    lemma_total_len_prefix_agree(r, r.push(v), r.len() as int);
}

// ---------------------------------------------------------------------------
// Lemmas relating the bytes to the records.

/// A slot's value depends only on the slot count, the slot's metadata and
/// the bytes of its value.
pub proof fn lemma_slot_value_eq(s1: Seq<u8>, s2: Seq<u8>, i: int)
    requires
        (0 <= i < num_slots_of(s1)) == (0 <= i < num_slots_of(s2)),
        slot_offset_of(s1, i) == slot_offset_of(s2, i),
        slot_length_of(s1, i) == slot_length_of(s2, i),
        slot_live_of(s1, i) ==> slot_offset_of(s1, i) + slot_length_of(s1, i) <= s1.len(),
        slot_live_of(s1, i) ==> slot_offset_of(s1, i) + slot_length_of(s1, i) <= s2.len(),
        slot_live_of(s1, i) ==> forall|j: int|
            slot_offset_of(s1, i) <= j < slot_offset_of(s1, i) + slot_length_of(s1, i) ==> #[trigger] s1[j]
                == s2[j],
    ensures
        slot_value_of(s1, i) == slot_value_of(s2, i),
{
    if slot_live_of(s1, i) {
        let a = slot_offset_of(s1, i);
        let b = a + slot_length_of(s1, i);
        assert(s1.subrange(a, b) =~= s2.subrange(a, b));
    }
}

/// Changing slot lengths other than `k` leaves the prefix sums unchanged.
pub proof fn lemma_sum_slot_lengths_change(s1: Seq<u8>, s2: Seq<u8>, k: int, m: int)
    requires
        0 <= m,
        forall|i: int| 0 <= i < m && i != k ==> slot_length_of(s1, i) == slot_length_of(s2, i),
    ensures
        sum_slot_lengths(s2, m) == sum_slot_lengths(s1, m) + if 0 <= k < m {
            slot_length_of(s2, k) - slot_length_of(s1, k)
        } else {
            0
        },
    decreases m,
{
    if m > 0 {
        lemma_sum_slot_lengths_change(s1, s2, k, m - 1);
    }
}

pub proof fn lemma_sum_slot_lengths_nonneg(s: Seq<u8>, m: int)
    requires
        0 <= m,
    ensures
        sum_slot_lengths(s, m) >= 0,
    decreases m,
{
    if m > 0 {
        assert(slot_length_of(s, m - 1) >= 0);
        lemma_sum_slot_lengths_nonneg(s, m - 1);
    }
}

/// On a readable page, the slot lengths add up to the total length of the
/// records.
pub proof fn lemma_records_total_len(s: Seq<u8>, m: int)
    requires
        slots_readable(s),
        0 <= m <= num_slots_of(s),
    ensures
        total_len_prefix(records_of(s), m) == sum_slot_lengths(s, m),
    decreases m,
{
    if m > 0 {
        lemma_records_total_len(s, m - 1);
        let i = m - 1;
        assert(slot_length_of(s, i) >= 0);
        if !slot_free_of(s, i) {
            assert(slot_offset_of(s, i) + slot_length_of(s, i) <= PAGE_SIZE);
            assert(slot_offset_of(s, i) >= 0);
        }
        assert(value_len(records_of(s)[i]) == slot_length_of(s, i));
    }
}

/// The free space of a readable page in terms of its bytes.
pub proof fn lemma_free_space_bytes(s: Seq<u8>)
    requires
        slots_readable(s),
    ensures
        free_space(records_of(s)) == PAGE_SIZE - header_size(num_slots_of(s)) - sum_slot_lengths(
            s,
            num_slots_of(s),
        ),
{
    lemma_records_total_len(s, num_slots_of(s));
}

/// Writing bytes between the slot directory and the free-space pointer
/// changes neither the directory nor any value.
pub proof fn lemma_write_free_area(s1: Seq<u8>, s2: Seq<u8>, a: int, b: int)
    requires
        heap_wf(s1),
        s2.len() == PAGE_SIZE,
        header_size(num_slots_of(s1)) <= a <= b <= free_ptr_of(s1),
        forall|j: int| 0 <= j < PAGE_SIZE && !(a <= j < b) ==> #[trigger] s2[j] == s1[j],
    ensures
        num_slots_of(s2) == num_slots_of(s1),
        free_ptr_of(s2) == free_ptr_of(s1),
        forall|i: int|
            0 <= i < num_slots_of(s1) ==> #[trigger] slot_offset_of(s2, i) == slot_offset_of(s1, i)
                && slot_length_of(s2, i) == slot_length_of(s1, i),
        records_of(s2) == records_of(s1),
        sum_slot_lengths(s2, num_slots_of(s1)) == sum_slot_lengths(s1, num_slots_of(s1)),
        heap_wf(s2),
{
    let n = num_slots_of(s1);
    assert(s2[NUM_SLOTS_OFFSET as int] == s1[NUM_SLOTS_OFFSET as int]);
    assert(s2[NUM_SLOTS_OFFSET as int + 1] == s1[NUM_SLOTS_OFFSET as int + 1]);
    assert(s2[FREE_PTR_OFFSET as int] == s1[FREE_PTR_OFFSET as int]);
    assert(s2[FREE_PTR_OFFSET as int + 1] == s1[FREE_PTR_OFFSET as int + 1]);
    assert forall|i: int| 0 <= i < n implies #[trigger] slot_offset_of(s2, i) == slot_offset_of(
        s1,
        i,
    ) && slot_length_of(s2, i) == slot_length_of(s1, i) by {
        assert(s2[meta_pos(i)] == s1[meta_pos(i)]);
        assert(s2[meta_pos(i) + 1] == s1[meta_pos(i) + 1]);
        assert(s2[meta_pos(i) + 2] == s1[meta_pos(i) + 2]);
        assert(s2[meta_pos(i) + 3] == s1[meta_pos(i) + 3]);
    }
    assert forall|i: int| 0 <= i < n implies #[trigger] slot_value_of(s2, i) == slot_value_of(
        s1,
        i,
    ) by {
        lemma_slot_value_eq(s1, s2, i);
    }
    assert(records_of(s2) =~= records_of(s1));
    lemma_sum_slot_lengths_change(s1, s2, -1, n);
}

/// Storing a slot's offset and length changes only those four bytes.
pub proof fn lemma_set_slot_meta(s1: Seq<u8>, k: int, off: int, len: int)
    requires
        s1.len() == PAGE_SIZE,
        0 <= k,
        meta_pos(k) + SLOT_METADATA_SIZE <= PAGE_SIZE,
        0 <= off < 0x10000,
        0 <= len < 0x10000,
    ensures
        ({
            let s2 = spec_set_u16(spec_set_u16(s1, meta_pos(k), off), meta_pos(k) + 2, len);
            &&& s2.len() == PAGE_SIZE
            &&& forall|j: int|
                0 <= j < PAGE_SIZE && !(meta_pos(k) <= j < meta_pos(k) + SLOT_METADATA_SIZE)
                    ==> #[trigger] s2[j] == s1[j]
            &&& slot_offset_of(s2, k) == off
            &&& slot_length_of(s2, k) == len
            &&& num_slots_of(s2) == num_slots_of(s1)
            &&& free_ptr_of(s2) == free_ptr_of(s1)
            &&& forall|i: int|
                0 <= i && i != k && meta_pos(i) + SLOT_METADATA_SIZE <= PAGE_SIZE
                    ==> #[trigger] slot_offset_of(s2, i) == slot_offset_of(s1, i)
                    && slot_length_of(s2, i) == slot_length_of(s1, i)
        }),
{
    let s_mid = spec_set_u16(s1, meta_pos(k), off);
    let s2 = spec_set_u16(s_mid, meta_pos(k) + 2, len);
    lemma_set_u16(s1, meta_pos(k), off);
    lemma_set_u16(s_mid, meta_pos(k) + 2, len);
    assert forall|i: int|
        0 <= i && i != k && meta_pos(i) + SLOT_METADATA_SIZE <= PAGE_SIZE
            implies #[trigger] slot_offset_of(s2, i) == slot_offset_of(s1, i)
            && slot_length_of(s2, i) == slot_length_of(s1, i) by {
        assert(s2[meta_pos(i)] == s1[meta_pos(i)]);
        assert(s2[meta_pos(i) + 1] == s1[meta_pos(i) + 1]);
        assert(s2[meta_pos(i) + 2] == s1[meta_pos(i) + 2]);
        assert(s2[meta_pos(i) + 3] == s1[meta_pos(i) + 3]);
    }
    assert(s2[NUM_SLOTS_OFFSET as int] == s1[NUM_SLOTS_OFFSET as int]);
    assert(s2[NUM_SLOTS_OFFSET as int + 1] == s1[NUM_SLOTS_OFFSET as int + 1]);
    assert(s2[FREE_PTR_OFFSET as int] == s1[FREE_PTR_OFFSET as int]);
    assert(s2[FREE_PTR_OFFSET as int + 1] == s1[FREE_PTR_OFFSET as int + 1]);
}

/// Storing the metadata of slot `k` (an existing slot, or the next new one)
/// leaves every other value where it was.
pub proof fn lemma_set_slot_meta_records(s1: Seq<u8>, k: int, off: int, len: int)
    requires
        heap_wf(s1),
        0 <= k <= num_slots_of(s1),
        meta_pos(k) + SLOT_METADATA_SIZE <= free_ptr_of(s1),
        0 <= off < 0x10000,
        0 <= len < 0x10000,
    ensures
        ({
            let s2 = spec_set_u16(spec_set_u16(s1, meta_pos(k), off), meta_pos(k) + 2, len);
            &&& forall|i: int|
                0 <= i < num_slots_of(s1) && i != k ==> #[trigger] slot_value_of(s2, i)
                    == slot_value_of(s1, i)
            &&& sum_slot_lengths(s2, num_slots_of(s1)) == sum_slot_lengths(s1, num_slots_of(s1))
                + if k < num_slots_of(s1) {
                len - slot_length_of(s1, k)
            } else {
                0
            }
        }),
{
    let n = num_slots_of(s1);
    let s2 = spec_set_u16(spec_set_u16(s1, meta_pos(k), off), meta_pos(k) + 2, len);
    lemma_set_slot_meta(s1, k, off, len);
    assert forall|i: int| 0 <= i < n && i != k implies #[trigger] slot_value_of(s2, i)
        == slot_value_of(s1, i) by {
        assert(meta_pos(i) + SLOT_METADATA_SIZE <= header_size(n));
        assert(slot_offset_of(s2, i) == slot_offset_of(s1, i));
        if slot_live_of(s1, i) {
            assert(free_ptr_of(s1) <= slot_offset_of(s1, i));
        }
        lemma_slot_value_eq(s1, s2, i);
    }
    assert forall|i: int| 0 <= i < n && i != k implies slot_length_of(s1, i) == slot_length_of(
        s2,
        i,
    ) by {
        assert(meta_pos(i) + SLOT_METADATA_SIZE <= header_size(n));
    }
    lemma_sum_slot_lengths_change(s1, s2, k, n);
}

pub proof fn lemma_sum_slot_lengths_mono(s: Seq<u8>, i: int, m: int)
    requires
        0 <= i <= m,
    ensures
        sum_slot_lengths(s, i) <= sum_slot_lengths(s, m),
    decreases m - i,
{
    if i < m {
        assert(slot_length_of(s, m - 1) >= 0);
        lemma_sum_slot_lengths_mono(s, i, m - 1);
    }
}

pub proof fn lemma_total_len_prefix_mono(r: Seq<Option<Seq<u8>>>, i: int, m: int)
    requires
        0 <= i <= m,
    ensures
        total_len_prefix(r, i) <= total_len_prefix(r, m),
    decreases m - i,
{
    if i < m {
        assert(value_len(r[m - 1]) >= 0);
        lemma_total_len_prefix_mono(r, i, m - 1);
    }
}

/// The length of the value a slot holds is the slot's length.
pub proof fn lemma_value_len_of_slot(s: Seq<u8>, i: int)
    requires
        slots_readable(s),
        0 <= i < num_slots_of(s),
    ensures
        value_len(slot_value_of(s, i)) == slot_length_of(s, i),
{
    if slot_live_of(s, i) {
        assert(slot_offset_of(s, i) >= 0);
    }
}

/// Part way through a compaction of `s0`: slots `0..i` hold their values,
/// packed from the end of the page down to `fp`, and the metadata of slots
/// `i..` is untouched.
pub open spec fn compact_inv(s: Seq<u8>, s0: Seq<u8>, i: int, fp: int) -> bool {
    let r0 = records_of(s0);
    let n = num_slots_of(s0);
    &&& s.len() == PAGE_SIZE
    &&& 0 <= i <= n
    &&& fp == PAGE_SIZE - total_len_prefix(r0, i)
    &&& num_slots_of(s) == n
    &&& forall|j: int|
        i <= j < n ==> #[trigger] slot_offset_of(s, j) == slot_offset_of(s0, j) && slot_length_of(
            s,
            j,
        ) == slot_length_of(s0, j)
    &&& forall|j: int| 0 <= j < i ==> #[trigger] slot_length_of(s, j) == value_len(r0[j])
    &&& forall|j: int|
        0 <= j < i && r0[j] is Some ==> #[trigger] slot_offset_of(s, j) == PAGE_SIZE
            - total_len_prefix(r0, j + 1)
    &&& forall|j: int| 0 <= j < i ==> #[trigger] slot_value_of(s, j) == r0[j]
}

proof fn lemma_compact_start(s0: Seq<u8>)
    requires
        heap_wf(s0),
    ensures
        compact_inv(s0, s0, 0, PAGE_SIZE as int),
{
}

proof fn lemma_compact_bounds(s: Seq<u8>, s0: Seq<u8>, i: int, fp: int)
    requires
        heap_wf(s0),
        compact_inv(s, s0, i, fp),
    ensures
        header_size(num_slots_of(s0)) + total_len(records_of(s0)) <= PAGE_SIZE,
        header_size(num_slots_of(s0)) <= PAGE_SIZE - total_len(records_of(s0)) <= fp <= PAGE_SIZE,
        i < num_slots_of(s0) ==> fp - value_len(records_of(s0)[i]) >= PAGE_SIZE - total_len(
            records_of(s0),
        ),
{
    let r0 = records_of(s0);
    let n = num_slots_of(s0);
    lemma_records_total_len(s0, n);
    lemma_total_len_prefix_nonneg(r0, i);
    lemma_total_len_prefix_mono(r0, i, n);
    if i < n {
        lemma_total_len_prefix_mono(r0, i + 1, n);
    }
}

proof fn lemma_compact_skip(s: Seq<u8>, s0: Seq<u8>, i: int, fp: int)
    requires
        heap_wf(s0),
        compact_inv(s, s0, i, fp),
        i < num_slots_of(s0),
        records_of(s0)[i] is None,
    ensures
        compact_inv(s, s0, i + 1, fp),
{
    let r0 = records_of(s0);
    assert(slot_value_of(s, i) == slot_value_of(s0, i));
    lemma_value_len_of_slot(s0, i);
}

proof fn lemma_compact_step(s1: Seq<u8>, s0: Seq<u8>, i: int, fp: int, v: Seq<u8>)
    requires
        heap_wf(s0),
        compact_inv(s1, s0, i, fp),
        i < num_slots_of(s0),
        Some(v) == records_of(s0)[i],
    ensures
        ({
            let fp2 = fp - v.len();
            let s2 = spec_write_bytes(s1, fp2, v);
            let s3 = spec_set_u16(spec_set_u16(s2, meta_pos(i), fp2), meta_pos(i) + 2, v.len() as int);
            compact_inv(s3, s0, i + 1, fp2)
        }),
{
    let r0 = records_of(s0);
    let n = num_slots_of(s0);
    let fp2 = fp - v.len();
    let s2 = spec_write_bytes(s1, fp2, v);
    let s3 = spec_set_u16(spec_set_u16(s2, meta_pos(i), fp2), meta_pos(i) + 2, v.len() as int);
    lemma_compact_bounds(s1, s0, i, fp);
    assert(value_len(r0[i]) == v.len());
    assert(fp2 >= header_size(n));
    // The write lies below every value placed so far and above the directory.
    assert(s2[NUM_SLOTS_OFFSET as int] == s1[NUM_SLOTS_OFFSET as int]);
    assert(s2[NUM_SLOTS_OFFSET as int + 1] == s1[NUM_SLOTS_OFFSET as int + 1]);
    assert forall|j: int| 0 <= j < n implies #[trigger] slot_offset_of(s2, j) == slot_offset_of(
        s1,
        j,
    ) && slot_length_of(s2, j) == slot_length_of(s1, j) by {
        assert(s2[meta_pos(j)] == s1[meta_pos(j)]);
        assert(s2[meta_pos(j) + 1] == s1[meta_pos(j) + 1]);
        assert(s2[meta_pos(j) + 2] == s1[meta_pos(j) + 2]);
        assert(s2[meta_pos(j) + 3] == s1[meta_pos(j) + 3]);
    }
    assert forall|j: int| 0 <= j < i implies #[trigger] slot_value_of(s2, j) == slot_value_of(
        s1,
        j,
    ) by {
        if slot_live_of(s1, j) {
            assert(r0[j] is Some);
            lemma_total_len_prefix_mono(r0, j + 1, i);
            lemma_total_len_prefix_nonneg(r0, j);
        }
        lemma_slot_value_eq(s1, s2, j);
    }
    lemma_set_slot_meta(s2, i, fp2, v.len() as int);
    assert forall|j: int| 0 <= j < i implies #[trigger] slot_value_of(s3, j) == slot_value_of(
        s2,
        j,
    ) by {
        assert(meta_pos(j) + SLOT_METADATA_SIZE <= header_size(n));
        if slot_live_of(s2, j) {
            assert(r0[j] is Some);
            lemma_total_len_prefix_mono(r0, j + 1, i);
            lemma_total_len_prefix_nonneg(r0, j);
        }
        lemma_slot_value_eq(s2, s3, j);
    }
    assert forall|j: int| i < j < n implies #[trigger] slot_offset_of(s3, j) == slot_offset_of(
        s0,
        j,
    ) && slot_length_of(s3, j) == slot_length_of(s0, j) by {
        assert(meta_pos(j) + SLOT_METADATA_SIZE <= header_size(n));
        assert(slot_offset_of(s3, j) == slot_offset_of(s2, j));
        assert(slot_offset_of(s2, j) == slot_offset_of(s1, j));
        assert(slot_offset_of(s1, j) == slot_offset_of(s0, j));
    }
    assert forall|j: int| 0 <= j < i + 1 implies #[trigger] slot_length_of(s3, j) == value_len(
        r0[j],
    ) by {
        assert(meta_pos(j) + SLOT_METADATA_SIZE <= header_size(n));
        if j < i {
            assert(slot_offset_of(s3, j) == slot_offset_of(s2, j));
            assert(slot_offset_of(s2, j) == slot_offset_of(s1, j));
        }
    }
    assert forall|j: int| 0 <= j < i + 1 && r0[j] is Some implies #[trigger] slot_offset_of(s3, j)
        == PAGE_SIZE - total_len_prefix(r0, j + 1) by {
        assert(meta_pos(j) + SLOT_METADATA_SIZE <= header_size(n));
        if j < i {
            assert(slot_offset_of(s3, j) == slot_offset_of(s2, j));
            assert(slot_offset_of(s2, j) == slot_offset_of(s1, j));
        }
    }
    assert(s3.subrange(fp2, fp2 + v.len()) =~= v);
    assert forall|j: int| 0 <= j < i + 1 implies #[trigger] slot_value_of(s3, j) == r0[j] by {
        if j < i {
            assert(slot_value_of(s3, j) == slot_value_of(s2, j));
        }
    }
}

proof fn lemma_compact_end(s1: Seq<u8>, s0: Seq<u8>, fp: int)
    requires
        heap_wf(s0),
        compact_inv(s1, s0, num_slots_of(s0), fp),
    ensures
        ({
            let s2 = spec_set_u16(s1, FREE_PTR_OFFSET as int, fp);
            &&& heap_wf(s2)
            &&& records_of(s2) == records_of(s0)
            &&& free_ptr_of(s2) == PAGE_SIZE - total_len(records_of(s0))
            &&& forall|j: int|
                0 <= j < num_slots_of(s0) && records_of(s0)[j] is Some ==> #[trigger] slot_offset_of(
                    s2,
                    j,
                ) == PAGE_SIZE - total_len_prefix(records_of(s0), j + 1)
        }),
{
    let r0 = records_of(s0);
    let n = num_slots_of(s0);
    let s2 = spec_set_u16(s1, FREE_PTR_OFFSET as int, fp);
    lemma_compact_bounds(s1, s0, n, fp);
    lemma_set_u16(s1, FREE_PTR_OFFSET as int, fp);
    assert(num_slots_of(s2) == n);
    assert forall|j: int| 0 <= j < n implies #[trigger] slot_offset_of(s2, j) == slot_offset_of(
        s1,
        j,
    ) && slot_length_of(s2, j) == slot_length_of(s1, j) by {
        assert(s2[meta_pos(j)] == s1[meta_pos(j)]);
        assert(s2[meta_pos(j) + 1] == s1[meta_pos(j) + 1]);
        assert(s2[meta_pos(j) + 2] == s1[meta_pos(j) + 2]);
        assert(s2[meta_pos(j) + 3] == s1[meta_pos(j) + 3]);
    }
    // Each value ends where the one before it in slot order begins.
    assert forall|j: int| 0 <= j < n && !(slot_offset_of(s2, j) == 0 && #[trigger] slot_length_of(s2, j) == 0) implies r0[j] is Some
        && slot_offset_of(s2, j) == PAGE_SIZE - total_len_prefix(r0, j + 1) && slot_offset_of(s2, j)
        + slot_length_of(s2, j) == PAGE_SIZE - total_len_prefix(r0, j) by {
        assert(slot_offset_of(s2, j) == slot_offset_of(s1, j));
        assert(slot_value_of(s1, j) == r0[j]);
    }
    assert forall|j: int| 0 <= j < n implies #[trigger] slot_value_of(s2, j) == slot_value_of(
        s1,
        j,
    ) by {
        assert(slot_offset_of(s2, j) == slot_offset_of(s1, j));
        if slot_live_of(s1, j) {
            lemma_total_len_prefix_mono(r0, j + 1, n);
            lemma_total_len_prefix_nonneg(r0, j);
        }
        lemma_slot_value_eq(s1, s2, j);
    }
    assert(records_of(s2) =~= r0);
    assert forall|j: int| 0 <= j < n && !(slot_offset_of(s2, j) == 0 && #[trigger] slot_length_of(s2, j) == 0) implies slot_offset_of(
        s2,
        j,
    ) + slot_length_of(s2, j) <= PAGE_SIZE && free_ptr_of(s2) <= slot_offset_of(s2, j) by {
        lemma_total_len_prefix_mono(r0, j + 1, n);
        lemma_total_len_prefix_nonneg(r0, j);
    }
    assert forall|a: int, b: int|
        0 <= a < n && 0 <= b < n && a != b && !(slot_offset_of(s2, a) == 0 && #[trigger] slot_length_of(s2, a) == 0)
            && !(slot_offset_of(s2, b) == 0 && #[trigger] slot_length_of(s2, b) == 0) implies slot_offset_of(s2, a) + slot_length_of(
        s2,
        a,
    ) <= slot_offset_of(s2, b) || slot_offset_of(s2, b) + slot_length_of(s2, b) <= slot_offset_of(
        s2,
        a,
    ) by {
        if a < b {
            lemma_total_len_prefix_mono(r0, a + 1, b);
        } else {
            lemma_total_len_prefix_mono(r0, b + 1, a);
        }
    }
    lemma_records_total_len(s2, n);
    assert(heap_wf(s2));
}

pub proof fn lemma_lowest_free_unique(r: Seq<Option<Seq<u8>>>, k: int)
    requires
        0 <= k <= r.len(),
        forall|j: int| 0 <= j < k ==> #[trigger] r[j] is Some,
        k < r.len() ==> r[k] is None,
    ensures
        lowest_free(r) == k,
{
    lemma_lowest_free(r);
    let l = lowest_free(r);
    if l < k {
        assert(r[l] is Some);
    } else if k < l {
        assert(r[k] is Some);
    }
}

/// Moving the free-space pointer down, but not below the directory, changes
/// no value.
pub proof fn lemma_lower_free_ptr(s1: Seq<u8>, p: int)
    requires
        heap_wf(s1),
        header_size(num_slots_of(s1)) <= p <= free_ptr_of(s1),
    ensures
        ({
            let s2 = spec_set_u16(s1, FREE_PTR_OFFSET as int, p);
            &&& heap_wf(s2)
            &&& free_ptr_of(s2) == p
            &&& num_slots_of(s2) == num_slots_of(s1)
            &&& records_of(s2) == records_of(s1)
            &&& sum_slot_lengths(s2, num_slots_of(s1)) == sum_slot_lengths(s1, num_slots_of(s1))
            &&& forall|j: int|
                0 <= j < num_slots_of(s1) ==> #[trigger] slot_offset_of(s2, j) == slot_offset_of(
                    s1,
                    j,
                ) && slot_length_of(s2, j) == slot_length_of(s1, j)
            &&& forall|j: int|
                0 <= j < PAGE_SIZE && j != FREE_PTR_OFFSET && j != FREE_PTR_OFFSET + 1
                    ==> #[trigger] s2[j] == s1[j]
        }),
{
    let s2 = spec_set_u16(s1, FREE_PTR_OFFSET as int, p);
    let n = num_slots_of(s1);
    lemma_set_u16(s1, FREE_PTR_OFFSET as int, p);
    assert(num_slots_of(s2) == n);
    assert forall|j: int| 0 <= j < n implies #[trigger] slot_offset_of(s2, j) == slot_offset_of(
        s1,
        j,
    ) && slot_length_of(s2, j) == slot_length_of(s1, j) by {
        assert(s2[meta_pos(j)] == s1[meta_pos(j)]);
        assert(s2[meta_pos(j) + 1] == s1[meta_pos(j) + 1]);
        assert(s2[meta_pos(j) + 2] == s1[meta_pos(j) + 2]);
        assert(s2[meta_pos(j) + 3] == s1[meta_pos(j) + 3]);
    }
    assert forall|j: int| 0 <= j < n implies #[trigger] slot_value_of(s2, j) == slot_value_of(
        s1,
        j,
    ) by {
        lemma_slot_value_eq(s1, s2, j);
    }
    assert(records_of(s2) =~= records_of(s1));
    lemma_sum_slot_lengths_change(s1, s2, -1, n);
}

/// What storing `v` at `p` in slot `k` does to the bytes: the value, the
/// free-space pointer, the slot's metadata and, for a new slot, the count.
pub open spec fn spec_place(s: Seq<u8>, k: int, v: Seq<u8>, p: int) -> Seq<u8> {
    let s1 = spec_write_bytes(s, p, v);
    let s2 = spec_set_u16(s1, FREE_PTR_OFFSET as int, p);
    let s3 = spec_set_u16(spec_set_u16(s2, meta_pos(k), p), meta_pos(k) + 2, v.len() as int);
    if k == num_slots_of(s) {
        spec_set_u16(s3, NUM_SLOTS_OFFSET as int, k + 1)
    } else {
        s3
    }
}

/// Storing a value just below the free-space pointer, in a free slot or a
/// new one, keeps the page well formed and changes only that slot.
pub proof fn lemma_place(s0: Seq<u8>, k: int, v: Seq<u8>)
    requires
        heap_wf(s0),
        0 <= k <= num_slots_of(s0),
        k < num_slots_of(s0) ==> slot_free_of(s0, k),
        header_size(num_slots_of(s0) + if k == num_slots_of(s0) { 1int } else { 0 }) + v.len()
            <= free_ptr_of(s0),
        v.len() + (if k == num_slots_of(s0) { SLOT_METADATA_SIZE as int } else { 0 }) <= free_space(
            records_of(s0),
        ),
    ensures
        ({
            let s4 = spec_place(s0, k, v, free_ptr_of(s0) - v.len());
            let r0 = records_of(s0);
            &&& heap_wf(s4)
            &&& records_of(s4) == if k < r0.len() {
                r0.update(k, Some(v))
            } else {
                r0.push(Some(v))
            }
            &&& free_ptr_of(s4) == free_ptr_of(s0) - v.len()
            &&& slot_offset_of(s4, k) == free_ptr_of(s0) - v.len()
        }),
{
    let n = num_slots_of(s0);
    let r0 = records_of(s0);
    let fp = free_ptr_of(s0);
    let p = fp - v.len();
    let s1 = spec_write_bytes(s0, p, v);
    let s2 = spec_set_u16(s1, FREE_PTR_OFFSET as int, p);
    let s3 = spec_set_u16(spec_set_u16(s2, meta_pos(k), p), meta_pos(k) + 2, v.len() as int);
    let s4 = spec_place(s0, k, v, p);
    lemma_write_free_area(s0, s1, p, fp);
    lemma_lower_free_ptr(s1, p);
    lemma_set_slot_meta(s2, k, p, v.len() as int);
    lemma_set_slot_meta_records(s2, k, p, v.len() as int);
    lemma_free_space_bytes(s0);
    lemma_sum_slot_lengths_nonneg(s0, n);
    // The new value's bytes are in place.
    assert forall|j: int| p <= j < p + v.len() implies #[trigger] s3[j] == v[j - p] by {
        assert(s2[j] == s1[j]);
    }
    assert(s3.subrange(p, p + v.len()) =~= v);
    assert(slot_length_of(s3, k) == v.len());
    assert(slot_offset_of(s3, k) == p);
    assert(num_slots_of(s3) == n);
    assert(free_ptr_of(s3) == p);
    if k < n {
        assert(s4 == s3);
        assert(slot_value_of(s3, k) == Some(v));
        assert(records_of(s4) =~= r0.update(k, Some(v)));
        assert forall|i: int| 0 <= i < n && i != k implies #[trigger] slot_offset_of(s3, i)
            == slot_offset_of(s0, i) && slot_length_of(s3, i) == slot_length_of(s0, i) by {
            assert(meta_pos(i) + SLOT_METADATA_SIZE <= header_size(n));
        }
        assert forall|i: int|
            0 <= i < n && !(slot_offset_of(s3, i) == 0 && #[trigger] slot_length_of(s3, i) == 0) implies slot_offset_of(s3, i)
            + slot_length_of(s3, i) <= PAGE_SIZE && p <= slot_offset_of(s3, i) by {
            if i != k {
                assert(slot_offset_of(s3, i) == slot_offset_of(s0, i));
            }
        }
        assert forall|a: int, b: int|
            0 <= a < n && 0 <= b < n && a != b && !(slot_offset_of(s3, a) == 0 && #[trigger] slot_length_of(s3, a) == 0)
                && !(slot_offset_of(s3, b) == 0 && #[trigger] slot_length_of(s3, b) == 0) implies slot_offset_of(s3, a)
            + slot_length_of(s3, a) <= slot_offset_of(s3, b) || slot_offset_of(s3, b)
            + slot_length_of(s3, b) <= slot_offset_of(s3, a) by {
            if a != k {
                assert(slot_offset_of(s3, a) == slot_offset_of(s0, a));
            }
            if b != k {
                assert(slot_offset_of(s3, b) == slot_offset_of(s0, b));
            }
        }
        assert(heap_wf(s4));
    } else {
        lemma_set_u16(s3, NUM_SLOTS_OFFSET as int, n + 1);
        assert(num_slots_of(s4) == n + 1);
        assert forall|i: int| 0 <= i <= n implies #[trigger] slot_offset_of(s4, i)
            == slot_offset_of(s3, i) && slot_length_of(s4, i) == slot_length_of(s3, i) by {
            assert(s4[meta_pos(i)] == s3[meta_pos(i)]);
            assert(s4[meta_pos(i) + 1] == s3[meta_pos(i) + 1]);
            assert(s4[meta_pos(i) + 2] == s3[meta_pos(i) + 2]);
            assert(s4[meta_pos(i) + 3] == s3[meta_pos(i) + 3]);
        }
        assert(free_ptr_of(s4) == p);
        assert forall|i: int| 0 <= i < n implies #[trigger] slot_offset_of(s4, i)
            == slot_offset_of(s0, i) && slot_length_of(s4, i) == slot_length_of(s0, i) by {
            assert(slot_offset_of(s4, i) == slot_offset_of(s3, i));
            assert(meta_pos(i) + SLOT_METADATA_SIZE <= header_size(n));
        }
        assert forall|i: int| 0 <= i <= n implies #[trigger] slot_value_of(s4, i) == (if i < n {
            r0[i]
        } else {
            Some(v)
        }) by {
            assert(slot_offset_of(s4, i) == slot_offset_of(s3, i));
            if i < n {
                assert(slot_value_of(s3, i) == slot_value_of(s2, i));
                if slot_live_of(s3, i) {
                    assert(slot_offset_of(s3, i) == slot_offset_of(s0, i));
                    assert(slot_live_of(s0, i));
                    assert forall|j: int|
                        slot_offset_of(s3, i) <= j < slot_offset_of(s3, i) + slot_length_of(s3, i)
                            implies #[trigger] s3[j] == s4[j] by {}
                }
                lemma_slot_value_eq(s3, s4, i);
            } else {
                assert forall|j: int| p <= j < p + v.len() implies #[trigger] s4[j] == s3[j] by {}
                assert(s4.subrange(p, p + v.len()) =~= v);
            }
        }
        assert(records_of(s4) =~= r0.push(Some(v)));
        lemma_sum_slot_lengths_change(s0, s4, n, n + 1);
        assert(sum_slot_lengths(s0, n + 1) == sum_slot_lengths(s0, n) + slot_length_of(s0, n));
        assert forall|i: int|
            0 <= i < n + 1 && !(slot_offset_of(s4, i) == 0 && #[trigger] slot_length_of(s4, i) == 0) implies slot_offset_of(s4, i)
            + slot_length_of(s4, i) <= PAGE_SIZE && p <= slot_offset_of(s4, i) by {}
        assert forall|a: int, b: int|
            0 <= a < n + 1 && 0 <= b < n + 1 && a != b && !(slot_offset_of(s4, a) == 0 && #[trigger] slot_length_of(s4, a) == 0)
                && !(slot_offset_of(s4, b) == 0 && #[trigger] slot_length_of(s4, b) == 0) implies slot_offset_of(s4, a)
            + slot_length_of(s4, a) <= slot_offset_of(s4, b) || slot_offset_of(s4, b)
            + slot_length_of(s4, b) <= slot_offset_of(s4, a) by {}
        assert(heap_wf(s4));
    }
}

/// Overwriting a value with one no longer than it, in its own place, keeps
/// the page well formed and changes only that slot.
pub proof fn lemma_update_in_place(s0: Seq<u8>, k: int, v: Seq<u8>)
    requires
        heap_wf(s0),
        0 <= k < num_slots_of(s0),
        !slot_free_of(s0, k),
        v.len() <= slot_length_of(s0, k),
    ensures
        ({
            let off = slot_offset_of(s0, k);
            let s1 = spec_write_bytes(s0, off, v);
            let s2 = spec_set_u16(spec_set_u16(s1, meta_pos(k), off), meta_pos(k) + 2, v.len() as int);
            &&& heap_wf(s2)
            &&& records_of(s2) == records_of(s0).update(k, Some(v))
            &&& free_ptr_of(s2) == free_ptr_of(s0)
            &&& slot_offset_of(s2, k) == slot_offset_of(s0, k)
        }),
{
    let n = num_slots_of(s0);
    let r0 = records_of(s0);
    let off = slot_offset_of(s0, k);
    let s1 = spec_write_bytes(s0, off, v);
    let s2 = spec_set_u16(spec_set_u16(s1, meta_pos(k), off), meta_pos(k) + 2, v.len() as int);
    assert(s1[NUM_SLOTS_OFFSET as int] == s0[NUM_SLOTS_OFFSET as int]);
    assert(s1[NUM_SLOTS_OFFSET as int + 1] == s0[NUM_SLOTS_OFFSET as int + 1]);
    assert(s1[FREE_PTR_OFFSET as int] == s0[FREE_PTR_OFFSET as int]);
    assert(s1[FREE_PTR_OFFSET as int + 1] == s0[FREE_PTR_OFFSET as int + 1]);
    assert forall|j: int| 0 <= j < n implies #[trigger] slot_offset_of(s1, j) == slot_offset_of(
        s0,
        j,
    ) && slot_length_of(s1, j) == slot_length_of(s0, j) by {
        assert(s1[meta_pos(j)] == s0[meta_pos(j)]);
        assert(s1[meta_pos(j) + 1] == s0[meta_pos(j) + 1]);
        assert(s1[meta_pos(j) + 2] == s0[meta_pos(j) + 2]);
        assert(s1[meta_pos(j) + 3] == s0[meta_pos(j) + 3]);
    }
    assert forall|j: int| 0 <= j < n && j != k implies #[trigger] slot_value_of(s1, j)
        == slot_value_of(s0, j) by {
        lemma_slot_value_eq(s0, s1, j);
    }
    lemma_sum_slot_lengths_change(s0, s1, -1, n);
    assert(heap_wf(s1));
    lemma_set_slot_meta(s1, k, off, v.len() as int);
    lemma_set_slot_meta_records(s1, k, off, v.len() as int);
    assert forall|j: int| off <= j < off + v.len() implies #[trigger] s2[j] == v[j - off] by {}
    assert(s2.subrange(off, off + v.len()) =~= v);
    assert(slot_value_of(s2, k) == Some(v));
    assert forall|j: int| 0 <= j < n && j != k implies #[trigger] slot_value_of(s2, j)
        == slot_value_of(s0, j) by {
        assert(slot_value_of(s2, j) == slot_value_of(s1, j));
    }
    assert(records_of(s2) =~= r0.update(k, Some(v)));
    assert forall|i: int| 0 <= i < n && i != k implies #[trigger] slot_offset_of(s2, i)
        == slot_offset_of(s0, i) && slot_length_of(s2, i) == slot_length_of(s0, i) by {
        assert(meta_pos(i) + SLOT_METADATA_SIZE <= header_size(n));
        assert(slot_offset_of(s2, i) == slot_offset_of(s1, i));
    }
    assert forall|i: int|
        0 <= i < n && !(slot_offset_of(s2, i) == 0 && #[trigger] slot_length_of(s2, i) == 0) implies slot_offset_of(s2, i)
        + slot_length_of(s2, i) <= PAGE_SIZE && free_ptr_of(s2) <= slot_offset_of(s2, i) by {
        if i != k {
            assert(slot_offset_of(s2, i) == slot_offset_of(s0, i));
        }
    }
    assert forall|a: int, b: int|
        0 <= a < n && 0 <= b < n && a != b && !(slot_offset_of(s2, a) == 0 && #[trigger] slot_length_of(s2, a) == 0)
            && !(slot_offset_of(s2, b) == 0 && #[trigger] slot_length_of(s2, b) == 0) implies slot_offset_of(s2, a) + slot_length_of(
        s2,
        a,
    ) <= slot_offset_of(s2, b) || slot_offset_of(s2, b) + slot_length_of(s2, b) <= slot_offset_of(
        s2,
        a,
    ) by {
        if a != k {
            assert(slot_offset_of(s2, a) == slot_offset_of(s0, a));
        }
        if b != k {
            assert(slot_offset_of(s2, b) == slot_offset_of(s0, b));
        }
        assert(!slot_free_of(s0, a));
        assert(!slot_free_of(s0, b));
    }
    assert(heap_wf(s2));
}

/// The first slot at or after `i` that holds a value, or `r.len()` where
/// there is none.
pub open spec fn next_live_from(r: Seq<Option<Seq<u8>>>, i: int) -> int
    decreases r.len() - i,
{
    if i >= r.len() {
        r.len() as int
    } else if i >= 0 && r[i] is Some {
        i
    } else {
        next_live_from(r, i + 1)
    }
}

pub proof fn lemma_next_live_from(r: Seq<Option<Seq<u8>>>, i: int)
    requires
        0 <= i,
    ensures
        next_live_from(r, i) == r.len() || (i <= next_live_from(r, i) < r.len() && r[next_live_from(
            r,
            i,
        )] is Some),
        forall|j: int| i <= j < next_live_from(r, i) ==> #[trigger] r[j] is None,
    decreases r.len() - i,
{
    if i < r.len() && r[i] is None {
        lemma_next_live_from(r, i + 1);
    }
}

/// Where the space for a new value of `len` bytes in slot `k` ends: at the
/// free-space pointer where the value and the directory fit below it, else at
/// the free-space pointer after a compaction.
pub open spec fn placement_end(s: Seq<u8>, k: int, len: int) -> int {
    let n = num_slots_of(s);
    let header_after = header_size(
        n + if k == n {
            1int
        } else {
            0
        },
    );
    if header_after + len <= free_ptr_of(s) {
        free_ptr_of(s)
    } else {
        PAGE_SIZE - total_len(records_of(s))
    }
}

/// Freeing a slot that holds a value keeps the page well formed and empties
/// only that slot.
pub proof fn lemma_free_slot(s1: Seq<u8>, k: int)
    requires
        heap_wf(s1),
        0 <= k < num_slots_of(s1),
        !slot_free_of(s1, k),
    ensures
        ({
            let s2 = spec_set_u16(spec_set_u16(s1, meta_pos(k), 0), meta_pos(k) + 2, 0);
            &&& heap_wf(s2)
            &&& records_of(s2) == records_of(s1).update(k, None)
            &&& free_ptr_of(s2) == free_ptr_of(s1)
            &&& slot_free_of(s2, k)
        }),
{
    let s2 = spec_set_u16(spec_set_u16(s1, meta_pos(k), 0), meta_pos(k) + 2, 0);
    let n = num_slots_of(s1);
    lemma_set_slot_meta(s1, k, 0, 0);
    lemma_set_slot_meta_records(s1, k, 0, 0);
    assert(records_of(s2) =~= records_of(s1).update(k, None));
    assert forall|i: int|
        0 <= i < n && !(slot_offset_of(s2, i) == 0 && #[trigger] slot_length_of(s2, i) == 0)
            implies slot_offset_of(s2, i) + slot_length_of(s2, i) <= PAGE_SIZE && free_ptr_of(s2)
        <= slot_offset_of(s2, i) by {
        assert(i != k);
        assert(!slot_free_of(s1, i));
    }
    lemma_sum_slot_lengths_nonneg(s1, n);
    assert(heap_wf(s2));
}

/// Slot `i`'s metadata, and its value if it holds one, lie inside the page.
pub open spec fn slot_readable_of(s: Seq<u8>, i: int) -> bool {
    &&& meta_pos(i) + SLOT_METADATA_SIZE <= PAGE_SIZE
    &&& !slot_free_of(s, i) ==> slot_offset_of(s, i) + slot_length_of(s, i) <= PAGE_SIZE
}

/// The value in slot `k` of `r`, or `None` past the last slot.
pub open spec fn record_at(r: Seq<Option<Seq<u8>>>, k: int) -> Option<Seq<u8>> {
    if 0 <= k < r.len() {
        r[k]
    } else {
        None
    }
}

pub open spec fn slice_opt_view(v: Option<&[u8]>) -> Option<Seq<u8>> {
    match v {
        Some(b) => Some(b@),
        None => None,
    }
}

/// The heap-page operations on a page.
///
/// A heap page uses the page header (`PAGE_FIXED_HEADER_LEN` bytes), 8 bytes
/// of heap-page metadata and 4 bytes per slot; the rest of the page holds
/// values. Deleting a value does not shrink the slot directory, but its
/// bytes become free for later values.
pub trait HeapPage: Sized {
    /// The number of slots recorded in the page.
    spec fn slot_count(&self) -> int;

    /// Slot `i`'s metadata, and its value if it holds one, lie in the page.
    spec fn slot_readable(&self, i: int) -> bool;

    /// The directory fits in the page and every value lies inside it.
    spec fn readable(&self) -> bool;

    /// The header and all values together fit in the page.
    spec fn accounted(&self) -> bool;

    /// The page is a well-formed heap page.
    spec fn well_formed(&self) -> bool;

    fn get_num_slots(&self) -> u16;

    fn set_num_slots(&mut self, n: u16);

    fn get_free_ptr(&self) -> u16;

    fn set_free_ptr(&mut self, ptr: u16);

    fn set_slot_metadata(&mut self, slot_id: SlotId, offset: u16, length: u16)
        requires
            (slot_id as int) < MAX_SLOTS,
    ;

    fn get_slot_offset(&self, slot_id: SlotId) -> u16
        requires
            (slot_id as int) < MAX_SLOTS,
    ;

    fn get_slot_length(&self, slot_id: SlotId) -> u16
        requires
            (slot_id as int) < MAX_SLOTS,
    ;

    /// Initialize the page as an empty heap page.
    fn init_heap_page(&mut self);

    /// Return the bytes of slot `slot_id`, or `None` where the slot does not
    /// exist or is free.
    fn get_value(&self, slot_id: SlotId) -> Option<&[u8]>
        requires
            (slot_id as int) < self.slot_count() ==> self.slot_readable(slot_id as int),
    ;

    /// Free slot `slot_id`; `None` where it does not exist or is free
    /// already. The slot id goes to the next added value and the bytes of
    /// the value become free space.
    fn delete_value(&mut self, slot_id: SlotId) -> Option<()>
        requires
            (slot_id as int) < old(self).slot_count() ==> old(self).slot_readable(slot_id as int),
    ;

    /// Add a value to the page if there is space for it, and return its slot
    /// id; `None` where there is not enough space. The value takes the
    /// lowest free slot id, or a new slot; existing values keep their slot
    /// ids. Free space left by deleted or shrunk values is reused.
    fn add_value(&mut self, bytes: &[u8]) -> Option<SlotId>
        requires
            old(self).well_formed(),
    ;

    /// Replace the value in slot `slot_id`. `None` where the slot does not
    /// hold a value or the new value does not fit, and then the page is
    /// unchanged; the old value's space counts as free.
    fn update_value(&mut self, slot_id: SlotId, bytes: &[u8]) -> Option<()>
        requires
            old(self).well_formed(),
    ;

    /// Move all values to the end of the page, in slot order, so that the free
    /// space between the slot directory and the values is contiguous.
    fn compact(&mut self)
        requires
            old(self).well_formed(),
    ;

    /// An iterator over the values of the page and their slot ids.
    fn iter(&self) -> HeapPageIter<'_>;

    /// The current size of the header: page header, heap metadata and the
    /// slot directory.
    fn get_header_size(&self) -> usize;

    /// The total free space of the page, counting the bytes of deleted or
    /// shrunk values that a compaction reclaims.
    fn get_free_space(&self) -> usize
        requires
            self.accounted(),
    ;
}

impl HeapPage for Page {
    open spec fn slot_count(&self) -> int {
        num_slots_of(self@)
    }

    open spec fn slot_readable(&self, i: int) -> bool {
        slot_readable_of(self@, i)
    }

    open spec fn readable(&self) -> bool {
        slots_readable(self@)
    }

    open spec fn accounted(&self) -> bool {
        space_accounted(self@)
    }

    open spec fn well_formed(&self) -> bool {
        heap_wf(self@)
    }

    fn get_num_slots(&self) -> (n: u16)
        ensures
            n == num_slots_of(self@),
    {
        self.read_u16(NUM_SLOTS_OFFSET)
    }

    fn set_num_slots(&mut self, n: u16)
        ensures
            final(self)@ == spec_set_u16(old(self)@, NUM_SLOTS_OFFSET as int, n as int),
            num_slots_of(final(self)@) == n,
    {
        self.write_u16(NUM_SLOTS_OFFSET, n);
        proof { lemma_set_u16(old(self)@, NUM_SLOTS_OFFSET as int, n as int); }
    }

    fn get_free_ptr(&self) -> (p: u16)
        ensures
            p == free_ptr_of(self@),
    {
        self.read_u16(FREE_PTR_OFFSET)
    }

    fn set_free_ptr(&mut self, ptr: u16)
        ensures
            final(self)@ == spec_set_u16(old(self)@, FREE_PTR_OFFSET as int, ptr as int),
            free_ptr_of(final(self)@) == ptr,
    {
        self.write_u16(FREE_PTR_OFFSET, ptr);
        proof { lemma_set_u16(old(self)@, FREE_PTR_OFFSET as int, ptr as int); }
    }

    fn set_slot_metadata(&mut self, slot_id: SlotId, offset: u16, length: u16)
        ensures
            final(self)@ == spec_set_u16(
                spec_set_u16(old(self)@, meta_pos(slot_id as int), offset as int),
                meta_pos(slot_id as int) + 2,
                length as int,
            ),
            slot_offset_of(final(self)@, slot_id as int) == offset,
            slot_length_of(final(self)@, slot_id as int) == length,
    {
        let start = SLOTS_START + slot_id as usize * SLOT_METADATA_SIZE;
        self.write_u16(start, offset);
        self.write_u16(start + OFFSET_NUM_BYTES, length);
        proof { lemma_set_slot_meta(old(self)@, slot_id as int, offset as int, length as int); }
    }

    fn get_slot_offset(&self, slot_id: SlotId) -> (o: u16)
        ensures
            o == slot_offset_of(self@, slot_id as int),
    {
        let start = SLOTS_START + slot_id as usize * SLOT_METADATA_SIZE;
        self.read_u16(start)
    }

    fn get_slot_length(&self, slot_id: SlotId) -> (l: u16)
        ensures
            l == slot_length_of(self@, slot_id as int),
    {
        let start = SLOTS_START + slot_id as usize * SLOT_METADATA_SIZE;
        self.read_u16(start + OFFSET_NUM_BYTES)
    }

    fn init_heap_page(&mut self)
        ensures
            final(self)@ == spec_set_u16(
                spec_set_u16(old(self)@, NUM_SLOTS_OFFSET as int, 0),
                FREE_PTR_OFFSET as int,
                PAGE_SIZE as int,
            ),
            heap_wf(final(self)@),
            records_of(final(self)@) == Seq::<Option<Seq<u8>>>::empty(),
            free_ptr_of(final(self)@) == PAGE_SIZE,
    {
        self.set_num_slots(0);
        self.set_free_ptr(PAGE_SIZE as u16);
        proof {
            let s1 = spec_set_u16(old(self)@, NUM_SLOTS_OFFSET as int, 0);
            lemma_set_u16(s1, FREE_PTR_OFFSET as int, PAGE_SIZE as int);
            assert(num_slots_of(self@) == 0);
            assert(records_of(self@) =~= Seq::<Option<Seq<u8>>>::empty());
        }
    }

    fn get_value(&self, slot_id: SlotId) -> (r: Option<&[u8]>)
        ensures
            slice_opt_view(r) == record_at(records_of(self@), slot_id as int),
    {
        let num_slots = self.get_num_slots();
        if slot_id >= num_slots {
            return None;
        }
        let slot_offset = self.get_slot_offset(slot_id) as usize;
        let slot_length = self.get_slot_length(slot_id) as usize;
        if slot_offset == 0 && slot_length == 0 {
            return None;
        }
        Some(self.slice(slot_offset, slot_offset + slot_length))
    }

    fn delete_value(&mut self, slot_id: SlotId) -> (r: Option<()>)
        ensures
            r is Some <==> slot_is_live(records_of(old(self)@), slot_id as int),
            r is None ==> final(self)@ == old(self)@,
            r is Some ==> final(self)@ == spec_set_u16(
                spec_set_u16(old(self)@, meta_pos(slot_id as int), 0),
                meta_pos(slot_id as int) + 2,
                0,
            ),
            r is Some && heap_wf(old(self)@) ==> heap_wf(final(self)@) && records_of(final(self)@)
                == records_of(old(self)@).update(slot_id as int, None),
    {
        let num_slots = self.get_num_slots();
        if slot_id >= num_slots || (self.get_slot_offset(slot_id) == 0 && self.get_slot_length(
            slot_id,
        ) == 0) {
            return None;
        }
        self.set_slot_metadata(slot_id, 0, 0);
        proof {
            lemma_set_slot_meta(old(self)@, slot_id as int, 0, 0);
            if heap_wf(old(self)@) {
                lemma_free_slot(old(self)@, slot_id as int);
            }
        }
        Some(())
    }

    fn add_value(&mut self, bytes: &[u8]) -> (res: Option<SlotId>)
        ensures
            match res {
                None => !add_fits(records_of(old(self)@), bytes@.len() as int) && final(self)@ == old(
                    self,
                )@,
                Some(k) => {
                    &&& add_fits(records_of(old(self)@), bytes@.len() as int)
                    &&& k == lowest_free(records_of(old(self)@))
                    &&& heap_wf(final(self)@)
                    &&& records_of(final(self)@) == records_after_add(records_of(old(self)@), bytes@)
                    &&& free_ptr_of(final(self)@) == placement_end(old(self)@, k as int, bytes@.len() as int)
                        - bytes@.len()
                    &&& slot_offset_of(final(self)@, k as int) == free_ptr_of(final(self)@)
                },
            },
    {
        let ghost r0 = records_of(self@);
        let data_len = bytes.len();
        let num_slots = self.get_num_slots();
        // Look for the lowest free slot.
        let mut slot_id: u16 = 0;
        while slot_id < num_slots && !(self.get_slot_offset(slot_id) == 0 && self.get_slot_length(
            slot_id,
        ) == 0)
            invariant
                heap_wf(self@),
                r0 == records_of(self@),
                num_slots == num_slots_of(self@),
                slot_id <= num_slots,
                forall|j: int| 0 <= j < slot_id ==> #[trigger] r0[j] is Some,
            decreases num_slots - slot_id,
        {
            slot_id = slot_id + 1;
        }
        let new_slot_flag = slot_id == num_slots;
        proof {
            lemma_lowest_free_unique(r0, slot_id as int);
        }
        let free_space = self.get_free_space();
        proof {
            lemma_free_space_bytes(self@);
        }
        // Room for the value, and for a new slot's metadata where one is needed.
        if data_len > free_space || (new_slot_flag && free_space - data_len < SLOT_METADATA_SIZE) {
            return None;
        }
        self.place_value(slot_id, bytes);
        Some(slot_id)
    }

    fn update_value(&mut self, slot_id: SlotId, bytes: &[u8]) -> (res: Option<()>)
        ensures
            res is Some <==> slot_is_live(records_of(old(self)@), slot_id as int) && update_fits(
                records_of(old(self)@),
                slot_id as int,
                bytes@.len() as int,
            ),
            res is None ==> final(self)@ == old(self)@,
            res is Some ==> heap_wf(final(self)@) && records_of(final(self)@) == records_of(
                old(self)@,
            ).update(slot_id as int, Some(bytes@)),
            res is Some && bytes@.len() <= value_len(records_of(old(self)@)[slot_id as int])
                ==> free_ptr_of(final(self)@) == free_ptr_of(old(self)@) && slot_offset_of(
                final(self)@,
                slot_id as int,
            ) == slot_offset_of(old(self)@, slot_id as int),
            res is Some && bytes@.len() > value_len(records_of(old(self)@)[slot_id as int])
                ==> free_ptr_of(final(self)@) == (if header_size(num_slots_of(old(self)@))
                + bytes@.len() <= free_ptr_of(old(self)@) {
                free_ptr_of(old(self)@)
            } else {
                PAGE_SIZE - total_len(records_of(old(self)@)) + value_len(
                    records_of(old(self)@)[slot_id as int],
                )
            }) - bytes@.len() && slot_offset_of(final(self)@, slot_id as int) == free_ptr_of(
                final(self)@,
            ),
    {
        let ghost s0 = self@;
        let ghost r0 = records_of(s0);
        let num_slots = self.get_num_slots();
        if slot_id >= num_slots {
            return None;
        }
        let old_len = self.get_slot_length(slot_id) as usize;
        if self.get_slot_offset(slot_id) == 0 && old_len == 0 {
            return None;
        }
        proof {
            lemma_value_len_of_slot(s0, slot_id as int);
            lemma_free_space_bytes(s0);
        }
        let data_len = bytes.len();
        if data_len <= old_len {
            // The new value fits where the old one was.
            let offset = self.get_slot_offset(slot_id) as usize;
            self.write_bytes(offset, bytes);
            self.set_slot_metadata(slot_id, offset as u16, data_len as u16);
            proof {
                lemma_update_in_place(s0, slot_id as int, bytes@);
            }
            return Some(());
        }
        if data_len - old_len > self.get_free_space() {
            return None;
        }
        // Free the old value's space, then store the new value elsewhere.
        self.set_slot_metadata(slot_id, 0, 0);
        proof {
            let s1 = self@;
            let n = num_slots_of(s0);
            lemma_free_slot(s0, slot_id as int);
            lemma_free_space_bytes(s0);
            lemma_free_space_bytes(s1);
            lemma_total_len_update(r0, slot_id as int, None, n);
            assert(free_ptr_of(s1) == free_ptr_of(s0));
        }
        self.place_value(slot_id, bytes);
        proof {
            assert(records_of(self@) =~= r0.update(slot_id as int, Some(bytes@)));
        }
        Some(())
    }

    fn compact(&mut self)
        ensures
            heap_wf(final(self)@),
            records_of(final(self)@) == records_of(old(self)@),
            free_ptr_of(final(self)@) == PAGE_SIZE - total_len(records_of(old(self)@)),
            forall|j: int|
                0 <= j < num_slots_of(old(self)@) && records_of(old(self)@)[j] is Some
                    ==> #[trigger] slot_offset_of(final(self)@, j) == PAGE_SIZE - total_len_prefix(
                    records_of(old(self)@),
                    j + 1,
                ),
    {
        let ghost s0 = self@;
        let ghost r0 = records_of(s0);
        let n = self.get_num_slots();
        proof {
            lemma_records_total_len(s0, n as int);
        }
        // Save every value, in slot order; free slots save nothing.
        let mut saved: Vec<Vec<u8>> = Vec::new();
        let mut slot_id: u16 = 0;
        while slot_id < n
            invariant
                self@ == s0,
                heap_wf(s0),
                r0 == records_of(s0),
                n == num_slots_of(s0),
                slot_id <= n,
                saved@.len() == slot_id,
                forall|j: int| 0 <= j < slot_id && r0[j] is Some ==> Some(#[trigger] saved@[j]@) == r0[j],
            decreases n - slot_id,
        {
            proof {
                lemma_value_len_of_slot(s0, slot_id as int);
            }
            match self.get_value(slot_id) {
                Some(data) => {
                    saved.push(vstd::slice::slice_to_vec(data));
                },
                None => {
                    saved.push(Vec::new());
                },
            }
            slot_id = slot_id + 1;
        }
        // Rewrite the values from the end of the page towards the front.
        let mut free_ptr: usize = PAGE_SIZE;
        let mut slot_id: u16 = 0;
        proof {
            lemma_compact_start(s0);
        }
        while slot_id < n
            invariant
                heap_wf(s0),
                r0 == records_of(s0),
                n == num_slots_of(s0),
                saved@.len() == n,
                forall|j: int| 0 <= j < n && r0[j] is Some ==> Some(#[trigger] saved@[j]@) == r0[j],
                compact_inv(self@, s0, slot_id as int, free_ptr as int),
            decreases n - slot_id,
        {
            let ghost s1 = self@;
            let ghost i = slot_id as int;
            proof {
                lemma_compact_bounds(s1, s0, i, free_ptr as int);
                lemma_value_len_of_slot(s0, i);
            }
            let free = self.get_slot_offset(slot_id) == 0 && self.get_slot_length(slot_id) == 0;
            if !free {
                let vlen = saved[slot_id as usize].len();
                free_ptr = free_ptr - vlen;
                self.write_bytes(free_ptr, saved[slot_id as usize].as_slice());
                self.set_slot_metadata(slot_id, free_ptr as u16, vlen as u16);
                proof {
                    lemma_compact_step(s1, s0, i, free_ptr + vlen, saved@[i]@);
                }
            } else {
                proof {
                    lemma_compact_skip(s1, s0, i, free_ptr as int);
                }
            }
            slot_id = slot_id + 1;
        }
        let ghost s1 = self@;
        proof {
            lemma_compact_bounds(s1, s0, n as int, free_ptr as int);
        }
        self.set_free_ptr(free_ptr as u16);
        proof {
            lemma_compact_end(s1, s0, free_ptr as int);
        }
    }

    fn iter(&self) -> (it: HeapPageIter<'_>)
        ensures
            it.page_bytes() == self@,
            it.cursor() == 0,
    {
        HeapPageIter { page: self, next_slot: 0 }
    }

    fn get_header_size(&self) -> (h: usize)
        ensures
            h == header_size(num_slots_of(self@)),
    {
        PAGE_FIXED_HEADER_LEN + HEAP_PAGE_FIXED_METADATA_SIZE + (SLOT_METADATA_SIZE
            * self.get_num_slots() as usize)
    }

    fn get_free_space(&self) -> (f: usize)
        ensures
            f == PAGE_SIZE - header_size(num_slots_of(self@)) - sum_slot_lengths(
                self@,
                num_slots_of(self@),
            ),
            slots_readable(self@) ==> f == free_space(records_of(self@)),
    {
        let mut data_bytes: u16 = 0;
        let n = self.get_num_slots();
        let mut slot_id: u16 = 0;
        while slot_id < n
            invariant
                space_accounted(self@),
                n == num_slots_of(self@),
                slot_id <= n,
                data_bytes == sum_slot_lengths(self@, slot_id as int),
            decreases n - slot_id,
        {
            proof {
                lemma_sum_slot_lengths_mono(self@, slot_id + 1, n as int);
                lemma_sum_slot_lengths_nonneg(self@, slot_id as int);
            }
            data_bytes = data_bytes + self.get_slot_length(slot_id);
            slot_id = slot_id + 1;
        }
        proof {
            if slots_readable(self@) {
                lemma_free_space_bytes(self@);
            }
        }
        PAGE_SIZE - self.get_header_size() - data_bytes as usize
    }
}

/// An iterator over the values of a page, in slot order, with their slot ids.
pub struct HeapPageIter<'a> {
    page: &'a Page,
    next_slot: u16,
}

impl<'a> HeapPageIter<'a> {
    /// The bytes of the page being iterated.
    pub closed spec fn page_bytes(&self) -> Seq<u8> {
        self.page@
    }

    /// The slot the iterator looks at next.
    pub closed spec fn cursor(&self) -> int {
        self.next_slot as int
    }

    /// The next value and its slot id; `None` when no slot at or after the
    /// cursor holds a value.
    pub fn next(&mut self) -> (res: Option<(&'a [u8], SlotId)>)
        requires
            slots_readable(old(self).page_bytes()),
        ensures
            final(self).page_bytes() == old(self).page_bytes(),
            ({
                let r = records_of(old(self).page_bytes());
                let k = next_live_from(r, old(self).cursor());
                &&& k < r.len() ==> (res matches Some((v, id)) && id == k && r[k] == Some(v@)
                    && final(self).cursor() == k + 1)
                &&& k >= r.len() ==> res is None && final(self).cursor() >= r.len()
            }),
            // What the remaining calls yield: this slot, then the rest.
            res matches Some((v, id)) ==> live_slots_from(
                records_of(old(self).page_bytes()),
                old(self).cursor(),
            ) == seq![id as int] + live_slots_from(
                records_of(old(self).page_bytes()),
                final(self).cursor(),
            ),
            res is None ==> live_slots_from(records_of(old(self).page_bytes()), old(self).cursor()).len()
                == 0 && live_slots_from(records_of(final(self).page_bytes()), final(self).cursor()).len()
                == 0,
    {
        let page: &'a Page = self.page;
        let ghost r = records_of(page@);
        let ghost start = self.next_slot as int;
        let n = page.get_num_slots();
        proof {
            lemma_next_live_from(r, start);
        }
        let mut slot: u16 = self.next_slot;
        while slot < n && page.get_slot_offset(slot) == 0 && page.get_slot_length(slot) == 0
            invariant
                r == records_of(page@),
                slots_readable(page@),
                n == r.len(),
                start <= slot,
                forall|j: int| start <= j < slot ==> #[trigger] r[j] is None,
                next_live_from(r, start) == r.len() || (start <= next_live_from(r, start) < r.len()
                    && r[next_live_from(r, start)] is Some),
                forall|j: int| start <= j < next_live_from(r, start) ==> #[trigger] r[j] is None,
            decreases n - slot,
        {
            slot = slot + 1;
        }
        if slot < n {
            self.next_slot = slot + 1;
            proof {
                if next_live_from(r, start) < slot {
                    assert(r[next_live_from(r, start)] is None);
                }
                if slot < next_live_from(r, start) {
                    assert(r[slot as int] is None);
                }
            }
            match page.get_value(slot) {
                Some(v) => Some((v, slot)),
                None => None,
            }
        } else {
            self.next_slot = slot;
            proof {
                if next_live_from(r, start) < r.len() {
                    assert(r[next_live_from(r, start)] is None);
                }
            }
            None
        }
    }
}

// ---------------------------------------------------------------------------
// Laws of the heap page, stated over the records that the operations'
// contracts speak of.

/// Reading a slot right after a value was added to it gives the value back;
/// the slot directory grows by one slot only where no slot was free.
pub proof fn law_get_after_add(r: Seq<Option<Seq<u8>>>, b: Seq<u8>)
    ensures
        record_at(records_after_add(r, b), lowest_free(r)) == Some(b),
        records_after_add(r, b).len() == r.len() + (if exists|j: int|
            0 <= j < r.len() && #[trigger] r[j] is None {
            0int
        } else {
            1int
        }),
{
    lemma_lowest_free(r);
    if exists|j: int| 0 <= j < r.len() && #[trigger] r[j] is None {
        let j = choose|j: int| 0 <= j < r.len() && #[trigger] r[j] is None;
        assert(lowest_free(r) <= j);
    } else {
        if lowest_free(r) < r.len() {
            assert(r[lowest_free(r)] is None);
        }
    }
}

/// Adding a value changes no other slot: existing values keep their slot
/// ids, and the slot directory never shrinks.
pub proof fn law_add_keeps_other_slots(r: Seq<Option<Seq<u8>>>, b: Seq<u8>, j: int)
    requires
        0 <= j < r.len(),
        j != lowest_free(r),
    ensures
        records_after_add(r, b)[j] == r[j],
        records_after_add(r, b).len() >= r.len(),
{
    lemma_lowest_free(r);
}

/// The slot an insertion takes is the lowest free one: every lower slot holds
/// a value, and a new slot is used only when no slot is free.
pub proof fn law_add_takes_lowest_free_slot(r: Seq<Option<Seq<u8>>>, j: int)
    requires
        0 <= j < lowest_free(r),
    ensures
        r[j] is Some,
        lowest_free(r) == r.len() || r[lowest_free(r)] is None,
{
    lemma_lowest_free(r);
}

/// After a delete, the next insertion takes the deleted slot unless a lower
/// slot is free.
pub proof fn law_delete_then_add_reuses_slot(r: Seq<Option<Seq<u8>>>, k: int)
    requires
        slot_is_live(r, k),
    ensures
        lowest_free(r.update(k, None)) == if lowest_free(r) < k {
            lowest_free(r)
        } else {
            k
        },
{
    lemma_lowest_free(r);
    let r2 = r.update(k, None);
    let l = if lowest_free(r) < k {
        lowest_free(r)
    } else {
        k
    };
    assert forall|j: int| 0 <= j < l implies #[trigger] r2[j] is Some by {
        assert(r[j] is Some);
    }
    lemma_lowest_free_unique(r2, l);
}

/// Reading a deleted slot gives nothing.
pub proof fn law_get_after_delete(r: Seq<Option<Seq<u8>>>, k: int)
    requires
        0 <= k < r.len(),
    ensures
        record_at(r.update(k, None), k) is None,
{
}

/// Deleting a value frees all of its bytes: the free space grows by its
/// length, and a value of the same length fits again.
pub proof fn law_delete_frees_space(r: Seq<Option<Seq<u8>>>, k: int)
    requires
        slot_is_live(r, k),
    ensures
        free_space(r.update(k, None)) == free_space(r) + value_len(r[k]),
        free_space(r) >= 0 ==> add_fits(r.update(k, None), value_len(r[k])),
{
    lemma_total_len_update(r, k, None, r.len() as int);
    law_delete_then_add_reuses_slot(r, k);
    lemma_lowest_free(r.update(k, None));
}

/// An insertion takes exactly the bytes of the value, plus a slot's metadata
/// where no slot was free.
pub proof fn law_add_free_space(r: Seq<Option<Seq<u8>>>, b: Seq<u8>)
    ensures
        free_space(records_after_add(r, b)) == free_space(r) - add_needed(r, b.len() as int),
{
    lemma_lowest_free(r);
    if lowest_free(r) < r.len() {
        lemma_total_len_update(r, lowest_free(r), Some(b), r.len() as int);
    } else {
        lemma_total_len_push(r, Some(b));
    }
}

/// A value fits exactly when the page has room for its bytes and, where no
/// slot is free, for one more slot's metadata: an insertion is refused only
/// where it would leave the page over-full.
pub proof fn law_add_fits_exactly(r: Seq<Option<Seq<u8>>>, b: Seq<u8>)
    ensures
        add_fits(r, b.len() as int) <==> b.len() + (if exists|j: int|
            0 <= j < r.len() && #[trigger] r[j] is None {
            0
        } else {
            SLOT_METADATA_SIZE as int
        }) <= free_space(r),
        add_fits(r, b.len() as int) <==> free_space(records_after_add(r, b)) >= 0,
{
    lemma_lowest_free(r);
    law_add_free_space(r, b);
    if exists|j: int| 0 <= j < r.len() && #[trigger] r[j] is None {
        let j = choose|j: int| 0 <= j < r.len() && #[trigger] r[j] is None;
        assert(lowest_free(r) <= j);
        assert(lowest_free(r) != r.len());
    } else {
        if lowest_free(r) < r.len() {
            assert(r[lowest_free(r)] is None);
        }
        assert(lowest_free(r) == r.len());
    }
}

/// Replacing a value fits exactly when the new bytes fit in the free space
/// together with the old value's bytes, wherever the free slots lie: an
/// update is refused only where it would leave the page over-full.
pub proof fn law_update_fits_exactly(r: Seq<Option<Seq<u8>>>, k: int, b: Seq<u8>)
    requires
        slot_is_live(r, k),
    ensures
        update_fits(r, k, b.len() as int) <==> b.len() <= free_space(r) + value_len(r[k]),
        update_fits(r, k, b.len() as int) <==> free_space(r.update(k, Some(b))) >= 0,
{
    law_update_free_space(r, k, b);
}

/// Reading a slot right after its value was replaced gives the new value.
pub proof fn law_get_after_update(r: Seq<Option<Seq<u8>>>, k: int, b: Seq<u8>)
    requires
        slot_is_live(r, k),
    ensures
        record_at(r.update(k, Some(b)), k) == Some(b),
{
}

/// Replacing a value changes the free space by the difference in length.
pub proof fn law_update_free_space(r: Seq<Option<Seq<u8>>>, k: int, b: Seq<u8>)
    requires
        slot_is_live(r, k),
    ensures
        free_space(r.update(k, Some(b))) == free_space(r) + value_len(r[k]) - b.len(),
{
    lemma_total_len_update(r, k, Some(b), r.len() as int);
}

/// The slots that iteration from slot `i` visits, in order.
pub open spec fn live_slots_from(r: Seq<Option<Seq<u8>>>, i: int) -> Seq<int>
    decreases r.len() - i,
{
    let k = next_live_from(r, i);
    if i < 0 || k >= r.len() {
        Seq::empty()
    } else {
        proof {
            lemma_next_live_from(r, i);
        }
        seq![k].add(live_slots_from(r, k + 1))
    }
}

/// Iteration visits every slot that holds a value, each once, in increasing
/// order of slot id, and no other slot.
pub proof fn law_iteration_visits_each_value_once(r: Seq<Option<Seq<u8>>>, i: int)
    requires
        0 <= i,
    ensures
        forall|j: int| #[trigger] live_slots_from(r, i).contains(j) <==> (i <= j < r.len() && r[j] is Some),
        forall|a: int, b: int|
            0 <= a < b < live_slots_from(r, i).len() ==> live_slots_from(r, i)[a] < live_slots_from(
                r,
                i,
            )[b],
        forall|a: int|
            0 <= a < live_slots_from(r, i).len() ==> i <= #[trigger] live_slots_from(r, i)[a],
    decreases r.len() - i,
{
    lemma_next_live_from(r, i);
    let k = next_live_from(r, i);
    if k < r.len() {
        law_iteration_visits_each_value_once(r, k + 1);
        let tail = live_slots_from(r, k + 1);
        let all = live_slots_from(r, i);
        assert(all == seq![k].add(tail));
        assert forall|j: int| #[trigger] all.contains(j) <==> (i <= j < r.len() && r[j] is Some) by {
            if all.contains(j) {
                let a = choose|a: int| 0 <= a < all.len() && all[a] == j;
                if a > 0 {
                    assert(all[a] == tail[a - 1]);
                    assert(tail.contains(j));
                }
            }
            if i <= j < r.len() && r[j] is Some {
                if j == k {
                    assert(all[0] == j);
                } else {
                    assert(j > k);
                    assert(tail.contains(j));
                    let a = choose|a: int| 0 <= a < tail.len() && tail[a] == j;
                    assert(all[a + 1] == j);
                }
            }
        }
        assert forall|a: int| 0 <= a < all.len() implies i <= #[trigger] all[a] by {
            if a > 0 {
                assert(all[a] == tail[a - 1]);
            }
        }
        assert forall|a: int, b: int| 0 <= a < b < all.len() implies all[a] < all[b] by {
            assert(all[b] == tail[b - 1]);
            if a > 0 {
                assert(all[a] == tail[a - 1]);
            }
        }
    } else {
        assert forall|j: int| #[trigger] live_slots_from(r, i).contains(j) <==> (i <= j < r.len()
            && r[j] is Some) by {
            if i <= j < r.len() && r[j] is Some {
                assert(r[j] is None);
            }
        }
    }
}

impl Page {
    /// Store `bytes` in slot `slot_id`, which is free or the next new slot,
    /// just below the free-space pointer; compact first where the free space
    /// there is too small.
    fn place_value(&mut self, slot_id: SlotId, bytes: &[u8])
        requires
            heap_wf(old(self)@),
            slot_id as int <= num_slots_of(old(self)@),
            (slot_id as int) < num_slots_of(old(self)@) ==> slot_free_of(old(self)@, slot_id as int),
            bytes@.len() + (if slot_id as int == num_slots_of(old(self)@) {
                SLOT_METADATA_SIZE as int
            } else {
                0
            }) <= free_space(records_of(old(self)@)),
        ensures
            heap_wf(final(self)@),
            records_of(final(self)@) == if (slot_id as int) < num_slots_of(old(self)@) {
                records_of(old(self)@).update(slot_id as int, Some(bytes@))
            } else {
                records_of(old(self)@).push(Some(bytes@))
            },
            free_ptr_of(final(self)@) == placement_end(old(self)@, slot_id as int, bytes@.len() as int)
                - bytes@.len(),
            slot_offset_of(final(self)@, slot_id as int) == free_ptr_of(final(self)@),
    {
        let ghost r0 = records_of(self@);
        let num_slots = self.get_num_slots();
        let data_len = bytes.len();
        let new_slot = slot_id == num_slots;
        proof {
            lemma_free_space_bytes(self@);
            lemma_sum_slot_lengths_nonneg(self@, num_slots as int);
        }
        let header_after = self.get_header_size() + if new_slot {
            SLOT_METADATA_SIZE
        } else {
            0
        };
        if (self.get_free_ptr() as usize) < header_after + data_len {
            self.compact();
            proof {
                lemma_records_total_len(self@, num_slots as int);
                assert(records_of(self@).len() == num_slots);
            }
        }
        let ghost s0 = self@;
        proof {
            assert(num_slots_of(s0) == num_slots);
            if (slot_id as int) < num_slots {
                lemma_value_len_of_slot(s0, slot_id as int);
                assert(records_of(s0)[slot_id as int] is None);
            }
            lemma_place(s0, slot_id as int, bytes@);
        }
        let free_ptr = self.get_free_ptr() as usize;
        let new_free_ptr = free_ptr - data_len;
        self.write_bytes(new_free_ptr, bytes);
        self.set_free_ptr(new_free_ptr as u16);
        self.set_slot_metadata(slot_id, new_free_ptr as u16, data_len as u16);
        if new_slot {
            self.set_num_slots(num_slots + 1);
        }
    }
}

} // verus!
