//! A heap file: a container of heap pages. Page 0 is the header page; values
//! live on the data pages from page 1 on, and new values go to the last page
//! until it is full.
use vstd::prelude::*;
use crate::page::{Page, PAGE_SIZE, lemma_page_len};
use crate::heap_page::{
    HeapPage, SlotId, SLOT_METADATA_SIZE, SLOTS_START, heap_wf, slots_readable, num_slots_of,
    records_of, record_at, lowest_free, add_fits, records_after_add, update_fits,
    next_live_from, lemma_next_live_from, lemma_lowest_free,
};

verus! {

broadcast use lemma_page_len;

/// Identifies a page within a container.
pub type PageId = u32;

/// Identifies a container.
pub type ContainerId = u16;

/// Identifies a segment within a container.
pub type SegmentId = u8;

/// The largest value that fits in an empty heap page.
pub const MAX_VALUE_SIZE: usize = PAGE_SIZE - SLOTS_START - SLOT_METADATA_SIZE;

/// Where a value is stored.
#[derive(Clone, Copy, Debug, PartialEq, Eq)]
pub struct ValueId {
    pub container_id: ContainerId,
    pub segment_id: Option<SegmentId>,
    pub page_id: Option<PageId>,
    pub slot_id: Option<SlotId>,
}

/// Why a heap file operation failed.
#[derive(Clone, Copy, Debug, PartialEq, Eq)]
pub enum HeapFileError {
    /// The page id is not below the number of pages.
    PageIdOutOfBounds(PageId),
    /// The slot does not hold a value.
    SlotIdNotFound(SlotId),
}

/// The value id of slot `s` of page `p` in container `c`.
pub open spec fn value_id_at(c: ContainerId, p: int, s: int) -> ValueId {
    ValueId { container_id: c, segment_id: None, page_id: Some(p as PageId), slot_id: Some(s as SlotId) }
}

/// A page of a heap file: a well-formed heap page, or one with no slots
/// (such as the header page).
pub open spec fn page_usable(s: Seq<u8>) -> bool {
    heap_wf(s) || (slots_readable(s) && num_slots_of(s) == 0)
}

/// The records of every page.
pub type FileRecords = Seq<Seq<Option<Seq<u8>>>>;

/// The value at slot `s` of page `p`, if any.
pub open spec fn file_value_at(f: FileRecords, p: int, s: int) -> Option<Seq<u8>> {
    if 0 <= p < f.len() {
        record_at(f[p], s)
    } else {
        None
    }
}

/// A value of `len` bytes fits on page `last` where it is a data page.
pub open spec fn fits_last_page(f: FileRecords, last: int, len: int) -> bool {
    last > 0 && last < f.len() && add_fits(f[last], len)
}

/// Where `add_val` stores a value of `len` bytes: on the last page where it
/// fits, else in slot 0 of a new page.
pub open spec fn add_location(f: FileRecords, last: int, len: int) -> (int, int) {
    if fits_last_page(f, last, len) {
        (last, lowest_free(f[last]))
    } else {
        (f.len() as int, 0)
    }
}

/// The records of all pages after `add_val` stored `b`.
pub open spec fn file_after_add(f: FileRecords, last: int, b: Seq<u8>) -> FileRecords {
    if fits_last_page(f, last, b.len() as int) {
        f.update(last, records_after_add(f[last], b))
    } else {
        f.push(seq![Some(b)])
    }
}

/// The last page after `add_val` stored a value of `len` bytes.
pub open spec fn last_after_add(f: FileRecords, last: int, len: int) -> int {
    add_location(f, last, len).0
}

/// The records of all pages, and the last page, after `add_val` stored each
/// of `vals` in turn.
pub open spec fn file_after_adds(f: FileRecords, last: int, vals: Seq<Seq<u8>>) -> (FileRecords, int)
    decreases vals.len(),
{
    if vals.len() == 0 {
        (f, last)
    } else {
        let prev = file_after_adds(f, last, vals.drop_last());
        (
            file_after_add(prev.0, prev.1, vals.last()),
            last_after_add(prev.0, prev.1, vals.last().len() as int),
        )
    }
}

/// Where `add_val` stored each of `vals`, stored in turn.
pub open spec fn add_locations(f: FileRecords, last: int, vals: Seq<Seq<u8>>) -> Seq<(int, int)>
    decreases vals.len(),
{
    if vals.len() == 0 {
        Seq::empty()
    } else {
        let prev = file_after_adds(f, last, vals.drop_last());
        add_locations(f, last, vals.drop_last()).push(
            add_location(prev.0, prev.1, vals.last().len() as int),
        )
    }
}

pub proof fn lemma_add_locations_len(f: FileRecords, last: int, vals: Seq<Seq<u8>>)
    ensures
        add_locations(f, last, vals).len() == vals.len(),
    decreases vals.len(),
{
    if vals.len() > 0 {
        lemma_add_locations_len(f, last, vals.drop_last());
    }
}

/// `add_val` stores a value where there was none.
pub proof fn lemma_add_location_free(f: FileRecords, last: int, len: int)
    ensures
        file_value_at(f, add_location(f, last, len).0, add_location(f, last, len).1) is None,
{
    if fits_last_page(f, last, len) {
        lemma_lowest_free(f[last]);
    }
}

/// `add_vals` returns a different value id for each value, and at the end
/// each of them holds its value.
pub proof fn law_add_vals_hold_values(f: FileRecords, last: int, vals: Seq<Seq<u8>>)
    ensures
        add_locations(f, last, vals).len() == vals.len(),
        forall|i: int|
            0 <= i < vals.len() ==> file_value_at(
                file_after_adds(f, last, vals).0,
                (#[trigger] add_locations(f, last, vals)[i]).0,
                add_locations(f, last, vals)[i].1,
            ) == Some(vals[i]),
        forall|i: int, j: int|
            0 <= i < j < vals.len() ==> #[trigger] add_locations(f, last, vals)[i]
                != #[trigger] add_locations(f, last, vals)[j],
    decreases vals.len(),
{
    lemma_add_locations_len(f, last, vals);
    if vals.len() > 0 {
        let pv = vals.drop_last();
        law_add_vals_hold_values(f, last, pv);
        let prev = file_after_adds(f, last, pv);
        let pl = add_locations(f, last, pv);
        let b = vals.last();
        let loc = add_location(prev.0, prev.1, b.len() as int);
        let locs = add_locations(f, last, vals);
        let after = file_after_adds(f, last, vals);
        assert(locs == pl.push(loc));
        assert(after.0 == file_after_add(prev.0, prev.1, b));
        lemma_add_location_free(prev.0, prev.1, b.len() as int);
        law_get_after_add_val(prev.0, prev.1, b);
        assert forall|i: int| 0 <= i < vals.len() - 1 implies #[trigger] locs[i] != loc && file_value_at(
            after.0,
            locs[i].0,
            locs[i].1,
        ) == Some(vals[i]) by {
            assert(locs[i] == pl[i]);
            assert(pv[i] == vals[i]);
            assert(file_value_at(prev.0, pl[i].0, pl[i].1) == Some(pv[i]));
            law_add_val_keeps_other_values(prev.0, prev.1, b, pl[i].0, pl[i].1);
        }
        assert forall|i: int| 0 <= i < vals.len() implies file_value_at(
            after.0,
            (#[trigger] locs[i]).0,
            locs[i].1,
        ) == Some(vals[i]) by {
            if i < vals.len() - 1 {
                assert(locs[i] != loc);
            }
        }
        assert forall|i: int, j: int| 0 <= i < j < vals.len() implies #[trigger] locs[i]
            != #[trigger] locs[j] by {
            assert(locs[i] == pl[i]);
            if j < vals.len() - 1 {
                assert(locs[j] == pl[j]);
            } else {
                assert(locs[i] != loc);
            }
        }
    }
}

/// `add_vals` changes no value id but those it returns: every other value
/// id holds what it held before, so no other value appears or goes.
pub proof fn law_add_vals_keep_other_values(f: FileRecords, last: int, vals: Seq<Seq<u8>>, p: int, s: int)
    requires
        forall|i: int| 0 <= i < vals.len() ==> #[trigger] add_locations(f, last, vals)[i] != (p, s),
    ensures
        file_value_at(file_after_adds(f, last, vals).0, p, s) == file_value_at(f, p, s),
    decreases vals.len(),
{
    lemma_add_locations_len(f, last, vals);
    if vals.len() > 0 {
        let pv = vals.drop_last();
        let prev = file_after_adds(f, last, pv);
        let pl = add_locations(f, last, pv);
        let b = vals.last();
        let loc = add_location(prev.0, prev.1, b.len() as int);
        let locs = add_locations(f, last, vals);
        lemma_add_locations_len(f, last, pv);
        assert(locs == pl.push(loc));
        assert forall|i: int| 0 <= i < pv.len() implies #[trigger] pl[i] != (p, s) by {
            assert(locs[i] == pl[i]);
        }
        law_add_vals_keep_other_values(f, last, pv, p, s);
        assert(locs[vals.len() - 1] == loc);
        law_add_val_keeps_other_values(prev.0, prev.1, b, p, s);
    }
}

/// The records of all pages after slot `s` of page `p` became free.
pub open spec fn file_after_delete(f: FileRecords, p: int, s: int) -> FileRecords {
    f.update(p, f[p].update(s, None))
}

/// The first value at or after slot `s` of page `p`, in page order and then
/// slot order.
pub open spec fn next_value_pos(f: FileRecords, p: int, s: int) -> Option<(int, int)>
    decreases f.len() - p,
{
    if p < 0 || p >= f.len() || s < 0 {
        None
    } else {
        let k = next_live_from(f[p], s);
        if k < f[p].len() {
            Some((p, k))
        } else {
            next_value_pos(f, p + 1, 0)
        }
    }
}

/// Position `(q, t)` comes at or after `(p, s)`, page first.
pub open spec fn pos_le(p: int, s: int, q: int, t: int) -> bool {
    p < q || (p == q && s <= t)
}

/// A scan from a position finds the first value at or after it: what it
/// finds holds a value, no position between the start and it does, and where
/// it finds nothing no position from the start on holds a value.
pub proof fn law_scan_finds_next_value(f: FileRecords, p: int, s: int)
    requires
        0 <= p,
        0 <= s,
    ensures
        match next_value_pos(f, p, s) {
            Some((q, t)) => {
                &&& p <= q < f.len()
                &&& pos_le(p, s, q, t)
                &&& file_value_at(f, q, t) is Some
                &&& forall|a: int, b: int|
                    pos_le(p, s, a, b) && !pos_le(q, t, a, b) && 0 <= b ==> #[trigger] file_value_at(
                        f,
                        a,
                        b,
                    ) is None
            },
            None => forall|a: int, b: int|
                pos_le(p, s, a, b) && 0 <= b ==> #[trigger] file_value_at(f, a, b) is None,
        },
    decreases f.len() - p,
{
    if p < f.len() {
        lemma_next_live_from(f[p], s);
        let k = next_live_from(f[p], s);
        if k >= f[p].len() {
            law_scan_finds_next_value(f, p + 1, 0);
            assert forall|a: int, b: int| a == p && s <= b && 0 <= b implies #[trigger] file_value_at(
                f,
                a,
                b,
            ) is None by {
                if b < f[p].len() {
                    assert(f[p][b] is None);
                }
            }
        }
    }
}

/// Position `(q, t)` comes strictly after `(p, s)`.
pub open spec fn pos_lt(p: int, s: int, q: int, t: int) -> bool {
    p < q || (p == q && s < t)
}

/// The positions a scan from `(p, s)` visits, in order.
pub open spec fn values_from(f: FileRecords, p: int, s: int) -> Seq<(int, int)>
    decreases f.len() - p, (if 0 <= p < f.len() {
        f[p].len() as int
    } else {
        0
    }) - s,
{
    if p < 0 || s < 0 {
        Seq::empty()
    } else {
        match next_value_pos(f, p, s) {
            Some((q, t)) => {
                proof {
                    law_scan_finds_next_value(f, p, s);
                }
                seq![(q, t)] + values_from(f, q, t + 1)
            },
            None => Seq::empty(),
        }
    }
}

/// A scan from `(p, s)` visits every position at or after it that holds a
/// value, each once, in increasing order, and no other position.
pub proof fn law_scan_visits_each_value_once(f: FileRecords, p: int, s: int)
    requires
        0 <= p,
        0 <= s,
    ensures
        forall|q: int, t: int|
            #[trigger] values_from(f, p, s).contains((q, t)) <==> (pos_le(p, s, q, t) && 0 <= t
                && file_value_at(f, q, t) is Some),
        forall|a: int, b: int|
            0 <= a < b < values_from(f, p, s).len() ==> pos_lt(
                values_from(f, p, s)[a].0,
                values_from(f, p, s)[a].1,
                values_from(f, p, s)[b].0,
                values_from(f, p, s)[b].1,
            ),
        forall|a: int|
            0 <= a < values_from(f, p, s).len() ==> pos_le(
                p,
                s,
                (#[trigger] values_from(f, p, s)[a]).0,
                values_from(f, p, s)[a].1,
            ),
    decreases f.len() - p, (if 0 <= p < f.len() {
        f[p].len() as int
    } else {
        0
    }) - s,
{
    law_scan_finds_next_value(f, p, s);
    let all = values_from(f, p, s);
    match next_value_pos(f, p, s) {
        Some((q0, t0)) => {
            law_scan_visits_each_value_once(f, q0, t0 + 1);
            let tail = values_from(f, q0, t0 + 1);
            assert(all == seq![(q0, t0)] + tail);
            assert forall|q: int, t: int| #[trigger] all.contains((q, t)) <==> (pos_le(p, s, q, t)
                && 0 <= t && file_value_at(f, q, t) is Some) by {
                if all.contains((q, t)) {
                    let a = choose|a: int| 0 <= a < all.len() && all[a] == (q, t);
                    if a > 0 {
                        assert(all[a] == tail[a - 1]);
                        assert(tail.contains((q, t)));
                    }
                }
                if pos_le(p, s, q, t) && 0 <= t && file_value_at(f, q, t) is Some {
                    if (q, t) == (q0, t0) {
                        assert(all[0] == (q, t));
                    } else {
                        assert(pos_le(q0, t0 + 1, q, t));
                        assert(tail.contains((q, t)));
                        let a = choose|a: int| 0 <= a < tail.len() && tail[a] == (q, t);
                        assert(all[a + 1] == (q, t));
                    }
                }
            }
            assert forall|a: int| 0 <= a < all.len() implies pos_le(
                p,
                s,
                (#[trigger] all[a]).0,
                all[a].1,
            ) by {
                if a > 0 {
                    assert(all[a] == tail[a - 1]);
                }
            }
            assert forall|a: int, b: int| 0 <= a < b < all.len() implies pos_lt(
                all[a].0,
                all[a].1,
                all[b].0,
                all[b].1,
            ) by {
                assert(all[b] == tail[b - 1]);
                if a > 0 {
                    assert(all[a] == tail[a - 1]);
                }
            }
        },
        None => {
            assert(all.len() == 0);
            assert forall|q: int, t: int| #[trigger] all.contains((q, t)) <==> (pos_le(p, s, q, t)
                && 0 <= t && file_value_at(f, q, t) is Some) by {}
        },
    }
}

/// A scan from a later position visits the tail of a scan from an earlier
/// one: what the earlier scan visits first are the positions before the
/// later start. So `iter_from` yields what `iter` yields from that position
/// on.
pub proof fn law_scan_from_later_is_suffix(f: FileRecords, p: int, s: int, p2: int, s2: int)
    requires
        0 <= p,
        0 <= s,
        0 <= s2,
        pos_le(p, s, p2, s2),
    ensures
        exists|k: int|
            0 <= k <= values_from(f, p, s).len() && values_from(f, p, s).skip(k) == values_from(
                f,
                p2,
                s2,
            ) && forall|a: int|
                0 <= a < k ==> pos_lt(
                    (#[trigger] values_from(f, p, s)[a]).0,
                    values_from(f, p, s)[a].1,
                    p2,
                    s2,
                ),
    decreases f.len() - p, (if 0 <= p < f.len() {
        f[p].len() as int
    } else {
        0
    }) - s,
{
    law_scan_finds_next_value(f, p, s);
    law_scan_finds_next_value(f, p2, s2);
    let all = values_from(f, p, s);
    match next_value_pos(f, p, s) {
        Some((q0, t0)) => {
            if pos_le(p2, s2, q0, t0) {
                match next_value_pos(f, p2, s2) {
                    Some((q1, t1)) => {
                        assert(!pos_lt(q1, t1, q0, t0));
                        assert(!pos_lt(q0, t0, q1, t1));
                        assert(q0 == q1 && t0 == t1);
                    },
                    None => {
                        assert(file_value_at(f, q0, t0) is None);
                    },
                }
                assert(all.skip(0) =~= all);
            } else {
                law_scan_from_later_is_suffix(f, q0, t0 + 1, p2, s2);
                let tail = values_from(f, q0, t0 + 1);
                assert(all == seq![(q0, t0)] + tail);
                let k = choose|k: int|
                    0 <= k <= tail.len() && tail.skip(k) == values_from(f, p2, s2) && forall|a: int|
                        0 <= a < k ==> pos_lt((#[trigger] tail[a]).0, tail[a].1, p2, s2);
                assert(all.skip(k + 1) =~= tail.skip(k));
                assert forall|a: int| 0 <= a < k + 1 implies pos_lt(
                    (#[trigger] all[a]).0,
                    all[a].1,
                    p2,
                    s2,
                ) by {
                    if a > 0 {
                        assert(all[a] == tail[a - 1]);
                    }
                }
            }
        },
        None => {
            match next_value_pos(f, p2, s2) {
                Some((q1, t1)) => {
                    assert(file_value_at(f, q1, t1) is Some);
                },
                None => {},
            }
            assert(all.skip(0) =~= all);
        },
    }
}

/// Reading the value id that `add_val` returned gives the value back.
pub proof fn law_get_after_add_val(f: FileRecords, last: int, b: Seq<u8>)
    ensures
        ({
            let loc = add_location(f, last, b.len() as int);
            file_value_at(file_after_add(f, last, b), loc.0, loc.1) == Some(b)
        }),
{
    if fits_last_page(f, last, b.len() as int) {
        crate::heap_page::law_get_after_add(f[last], b);
    }
}

/// `add_val` changes no value at any other value id.
pub proof fn law_add_val_keeps_other_values(f: FileRecords, last: int, b: Seq<u8>, p: int, s: int)
    requires
        (p, s) != add_location(f, last, b.len() as int),
    ensures
        file_value_at(file_after_add(f, last, b), p, s) == file_value_at(f, p, s),
{
    if fits_last_page(f, last, b.len() as int) && p == last && 0 <= s < f[last].len() {
        crate::heap_page::law_add_keeps_other_slots(f[last], b, s);
    }
    if fits_last_page(f, last, b.len() as int) && p == last && s >= f[last].len() {
        lemma_lowest_free(f[last]);
    }
}

/// `add_val` stores a value at a value id that held nothing, on a page that
/// exists afterwards; the page count grows by at most one; and where the
/// file has its header page, the value goes to a data page. It takes the
/// lowest free slot of the last page where the value fits there, and slot 0
/// of a new page otherwise.
pub proof fn law_add_val_location(f: FileRecords, last: int, b: Seq<u8>)
    ensures
        ({
            let loc = add_location(f, last, b.len() as int);
            let after = file_after_add(f, last, b);
            &&& file_value_at(f, loc.0, loc.1) is None
            &&& 0 <= loc.0 < after.len() <= f.len() + 1
            &&& f.len() >= 1 ==> loc.0 >= 1
            &&& (0 < last < f.len() && add_fits(f[last], b.len() as int)) ==> loc == (
                last,
                lowest_free(f[last]),
            )
            &&& !(0 < last < f.len() && add_fits(f[last], b.len() as int)) ==> loc == (f.len() as int, 0int)
                && after.len() == f.len() + 1
        }),
{
    lemma_add_location_free(f, last, b.len() as int);
}

/// After `delete_val`, the value id holds nothing, and every other value id
/// holds what it held.
pub proof fn law_delete_val(f: FileRecords, p: int, s: int, q: int, t: int)
    requires
        file_value_at(f, p, s) is Some,
    ensures
        file_value_at(file_after_delete(f, p, s), p, s) is None,
        (q, t) != (p, s) ==> file_value_at(file_after_delete(f, p, s), q, t) == file_value_at(f, q, t),
{
}

/// After `update_val`, the value id it returned holds the new value; where
/// the value moved, the old value id holds nothing.
pub proof fn law_get_after_update_val(f: FileRecords, last: int, p: int, s: int, b: Seq<u8>)
    requires
        file_value_at(f, p, s) is Some,
    ensures
        update_fits(f[p], s, b.len() as int) ==> file_value_at(f.update(p, f[p].update(s, Some(b))), p, s)
            == Some(b),
        !update_fits(f[p], s, b.len() as int) ==> ({
            let f1 = file_after_delete(f, p, s);
            let loc = add_location(f1, last, b.len() as int);
            &&& file_value_at(file_after_add(f1, last, b), loc.0, loc.1) == Some(b)
            &&& loc != (p, s) ==> file_value_at(file_after_add(f1, last, b), p, s) is None
        }),
{
    let f1 = file_after_delete(f, p, s);
    law_get_after_add_val(f1, last, b);
    if add_location(f1, last, b.len() as int) != (p, s) {
        law_add_val_keeps_other_values(f1, last, b, p, s);
    }
}

/// `update_val` changes no value other than at the updated value id and,
/// where the value moved, at its new value id.
pub proof fn law_update_val_keeps_other_values(
    f: FileRecords,
    last: int,
    p: int,
    s: int,
    b: Seq<u8>,
    q: int,
    t: int,
)
    requires
        file_value_at(f, p, s) is Some,
        (q, t) != (p, s),
    ensures
        update_fits(f[p], s, b.len() as int) ==> file_value_at(f.update(p, f[p].update(s, Some(b))), q, t)
            == file_value_at(f, q, t),
        !update_fits(f[p], s, b.len() as int) && (q, t) != add_location(
            file_after_delete(f, p, s),
            last,
            b.len() as int,
        ) ==> file_value_at(file_after_add(file_after_delete(f, p, s), last, b), q, t)
            == file_value_at(f, q, t),
{
    let f1 = file_after_delete(f, p, s);
    if (q, t) != add_location(f1, last, b.len() as int) {
        law_add_val_keeps_other_values(f1, last, b, q, t);
    }
}

/// The last page of a file of `n` pages; 0 where there is none.
pub open spec fn last_page_of(n: int) -> int {
    if n == 0 {
        0
    } else {
        n - 1
    }
}

/// The pages of a well-formed heap file meet what `load` asks of them, and
/// `load` picks the same last page: a heap file handed out by `into_pages`
/// and loaded again holds the same values and goes on as before.
pub proof fn law_load_round_trip(hf: HeapFile)
    requires
        hf.wf(),
    ensures
        hf.page_bytes().len() <= u32::MAX,
        forall|i: int| 0 <= i < hf.page_bytes().len() ==> page_usable(#[trigger] hf.page_bytes()[i]),
        hf.page_bytes().len() >= 2 ==> heap_wf(hf.page_bytes()[hf.page_bytes().len() - 1]),
        hf.last() == last_page_of(hf.page_bytes().len() as int),
{
}

/// A heap file of container `c_id`, holding its pages.
pub struct HeapFile {
    c_id: ContainerId,
    pages: Vec<Page>,
    last_page: PageId,
}

impl HeapFile {
    /// The container id.
    pub closed spec fn container(&self) -> ContainerId {
        self.c_id
    }

    /// The bytes of every page.
    pub closed spec fn page_bytes(&self) -> Seq<Seq<u8>> {
        self.pages@.map_values(|p: Page| p@)
    }

    /// The records of every page.
    pub open spec fn records(&self) -> FileRecords {
        self.page_bytes().map_values(|s: Seq<u8>| records_of(s))
    }

    /// The page that new values go to.
    pub closed spec fn last(&self) -> int {
        self.last_page as int
    }

    /// Every page is usable, new values go to the last page, and that page
    /// is a heap page unless it is page 0.
    pub open spec fn wf(&self) -> bool {
        &&& self.page_bytes().len() <= u32::MAX
        &&& forall|i: int| 0 <= i < self.page_bytes().len() ==> page_usable(#[trigger] self.page_bytes()[i])
        &&& self.last() == last_page_of(self.page_bytes().len() as int)
        &&& self.last() > 0 ==> heap_wf(self.page_bytes()[self.last()])
    }

    /// The value at slot `s` of page `p`, if any.
    pub open spec fn value_at(&self, p: int, s: int) -> Option<Seq<u8>> {
        file_value_at(self.records(), p, s)
    }

    /// Create a heap file with only its header page, page 0.
    pub fn new(c_id: ContainerId) -> (res: Result<Self, HeapFileError>)
        ensures
            res matches Ok(hf) && hf.wf() && hf.container() == c_id && hf.page_bytes() == seq![
                Seq::new(PAGE_SIZE as nat, |i: int| 0u8),
            ] && hf.records().len() == 1 && hf.records()[0].len() == 0 && hf.last() == 0,
    {
        let mut pages: Vec<Page> = Vec::new();
        pages.push(Page::new());
        let hf = HeapFile { c_id, pages, last_page: 0 };
        proof {
            assert(hf.page_bytes() =~= seq![Seq::new(PAGE_SIZE as nat, |i: int| 0u8)]);
            let s = hf.page_bytes()[0];
            assert(s[16] == 0u8 && s[17] == 0u8);
            assert(num_slots_of(s) == 0);
            assert(page_usable(s));
        }
        Ok(hf)
    }

    /// Open a heap file over existing pages.
    pub fn load(c_id: ContainerId, pages: Vec<Page>) -> (res: Result<Self, HeapFileError>)
        requires
            pages@.len() <= u32::MAX,
            forall|i: int| 0 <= i < pages@.len() ==> page_usable(#[trigger] pages@[i]@),
            pages@.len() >= 2 ==> heap_wf(pages@[pages@.len() - 1]@),
        ensures
            res matches Ok(hf) && hf.wf() && hf.container() == c_id && hf.page_bytes()
                == pages@.map_values(|p: Page| p@) && hf.last() == last_page_of(pages@.len() as int),
    {
        let n = pages.len() as PageId;
        let last_page = if n == 0 {
            0
        } else {
            n - 1
        };
        let hf = HeapFile { c_id, pages, last_page };
        Ok(hf)
    }

    /// Give up the heap file and hand out its pages, for `load` to open again.
    pub fn into_pages(self) -> (pages: Vec<Page>)
        ensures
            pages@.map_values(|p: Page| p@) == self.page_bytes(),
    {
        self.pages
    }

    /// An iterator over the values of the data pages, from page 1 on.
    pub fn iter(&self) -> (it: HeapFileIter<'_>)
        ensures
            it.file_records() == self.records(),
            it.file_wf() == self.wf(),
            it.file_container() == self.container(),
            it.position() == (1int, 0int),
            !it.is_finished(),
    {
        HeapFileIter::new_from(self, 1, 0)
    }

    /// An iterator over the values from slot `slot_id` of page `page_id` on.
    pub fn iter_from(&self, page_id: PageId, slot_id: SlotId) -> (it: HeapFileIter<'_>)
        ensures
            it.file_records() == self.records(),
            it.file_wf() == self.wf(),
            it.file_container() == self.container(),
            it.position() == (page_id as int, slot_id as int),
            !it.is_finished(),
    {
        HeapFileIter::new_from(self, page_id, slot_id)
    }

    /// The number of pages.
    pub fn num_pages(&self) -> (n: PageId)
        requires
            self.wf(),
        ensures
            n == self.records().len(),
    {
        self.pages.len() as PageId
    }

    /// `Ok` where `page_id` is a page of the file.
    fn check_page_id(&self, page_id: PageId) -> (res: Result<(), HeapFileError>)
        requires
            self.wf(),
        ensures
            res is Ok <==> (page_id as int) < self.records().len(),
            res is Err ==> res == Err::<(), HeapFileError>(HeapFileError::PageIdOutOfBounds(page_id)),
    {
        if page_id >= self.num_pages() {
            Err(HeapFileError::PageIdOutOfBounds(page_id))
        } else {
            Ok(())
        }
    }

    /// Read the value at (`page_id`, `slot_id`).
    pub fn get_val(&self, page_id: PageId, slot_id: SlotId) -> (res: Result<Vec<u8>, HeapFileError>)
        requires
            self.wf(),
        ensures
            (page_id as int) >= self.records().len() ==> res == Err::<Vec<u8>, HeapFileError>(
                HeapFileError::PageIdOutOfBounds(page_id),
            ),
            (page_id as int) < self.records().len() ==> match self.value_at(
                page_id as int,
                slot_id as int,
            ) {
                Some(v) => res matches Ok(bytes) && bytes@ == v,
                None => res == Err::<Vec<u8>, HeapFileError>(HeapFileError::SlotIdNotFound(slot_id)),
            },
    {
        self.check_page_id(page_id)?;
        let page = &self.pages[page_id as usize];
        proof {
            assert(page_usable(self.page_bytes()[page_id as int]));
        }
        match page.get_value(slot_id) {
            Some(slice) => Ok(vstd::slice::slice_to_vec(slice)),
            None => Err(HeapFileError::SlotIdNotFound(slot_id)),
        }
    }

    /// Delete the value at (`page_id`, `slot_id`).
    pub fn delete_val(&mut self, page_id: PageId, slot_id: SlotId) -> (res: Result<(), HeapFileError>)
        requires
            old(self).wf(),
        ensures
            final(self).wf(),
            final(self).container() == old(self).container(),
            final(self).last() == old(self).last(),
            (page_id as int) >= old(self).records().len() ==> res == Err::<(), HeapFileError>(
                HeapFileError::PageIdOutOfBounds(page_id),
            ),
            (page_id as int) < old(self).records().len() && old(self).value_at(
                page_id as int,
                slot_id as int,
            ) is None ==> res == Err::<(), HeapFileError>(HeapFileError::SlotIdNotFound(slot_id)),
            res is Err ==> final(self).records() == old(self).records(),
            old(self).value_at(page_id as int, slot_id as int) is Some ==> res is Ok
                && final(self).records() == old(self).records().update(
                page_id as int,
                old(self).records()[page_id as int].update(slot_id as int, None),
            ),
    {
        self.check_page_id(page_id)?;
        let ghost old_bytes = self.page_bytes();
        let page = &mut self.pages[page_id as usize];
        let r = page.delete_value(slot_id);
        proof {
            assert(self.page_bytes() =~= old_bytes.update(page_id as int, self.pages@[page_id as int]@));
            assert(self.records() =~= old(self).records().update(page_id as int, records_of(self.pages@[page_id as int]@)));
        }
        match r {
            Some(()) => Ok(()),
            None => Err(HeapFileError::SlotIdNotFound(slot_id)),
        }
    }

    /// Replace the value at (`page_id`, `slot_id`) by `val`. Where `val` does
    /// not fit on that page, the old value is deleted and `val` is added as by
    /// `add_val`; the result says where it went.
    pub fn update_val(&mut self, page_id: PageId, slot_id: SlotId, val: &[u8]) -> (res: Result<
        ValueId,
        HeapFileError,
    >)
        requires
            old(self).wf(),
            old(self).value_at(page_id as int, slot_id as int) is Some ==> val@.len() <= MAX_VALUE_SIZE,
            old(self).value_at(page_id as int, slot_id as int) is Some ==> old(self).records().len()
                < u32::MAX,
        ensures
            final(self).wf(),
            final(self).container() == old(self).container(),
            (page_id as int) >= old(self).records().len() ==> res == Err::<ValueId, HeapFileError>(
                HeapFileError::PageIdOutOfBounds(page_id),
            ),
            (page_id as int) < old(self).records().len() && old(self).value_at(
                page_id as int,
                slot_id as int,
            ) is None ==> res == Err::<ValueId, HeapFileError>(
                HeapFileError::SlotIdNotFound(slot_id),
            ),
            res is Err ==> final(self).records() == old(self).records() && final(self).last() == old(
                self,
            ).last(),
            ({
                let f = old(self).records();
                let p = page_id as int;
                let k = slot_id as int;
                let len = val@.len() as int;
                old(self).value_at(p, k) is Some ==> if update_fits(f[p], k, len) {
                    &&& res == Ok::<ValueId, HeapFileError>(value_id_at(old(self).container(), p, k))
                    &&& final(self).records() == f.update(p, f[p].update(k, Some(val@)))
                    &&& final(self).last() == old(self).last()
                } else {
                    let f1 = file_after_delete(f, p, k);
                    let loc = add_location(f1, old(self).last(), len);
                    &&& res == Ok::<ValueId, HeapFileError>(value_id_at(old(self).container(), loc.0, loc.1))
                    &&& final(self).records() == file_after_add(f1, old(self).last(), val@)
                    &&& final(self).last() == last_after_add(f1, old(self).last(), len)
                }
            }),
    {
        self.check_page_id(page_id)?;
        let ghost f = self.records();
        let ghost old_bytes = self.page_bytes();
        {
            let page = &self.pages[page_id as usize];
            if slot_id >= page.get_num_slots() || page.get_num_slots() == 0 || (page.get_slot_offset(
                slot_id,
            ) == 0 && page.get_slot_length(slot_id) == 0) {
                return Err(HeapFileError::SlotIdNotFound(slot_id));
            }
        }
        {
            let page = &mut self.pages[page_id as usize];
            if page.update_value(slot_id, val).is_some() {
                proof {
                    assert(self.page_bytes() =~= old_bytes.update(page_id as int, self.pages@[page_id as int]@));
                    assert(self.records() =~= f.update(page_id as int, records_of(self.pages@[page_id as int]@)));
                }
                return Ok(
                    ValueId {
                        container_id: self.c_id,
                        segment_id: None,
                        page_id: Some(page_id),
                        slot_id: Some(slot_id),
                    },
                );
            }
            page.delete_value(slot_id);
        }
        proof {
            assert(self.page_bytes() =~= old_bytes.update(page_id as int, self.pages@[page_id as int]@));
            assert(self.records() =~= file_after_delete(f, page_id as int, slot_id as int));
        }
        self.add_val(val)
    }

    /// Add each of `vals` in turn, as by `add_val`, and return where each
    /// went.
    pub fn add_vals(&mut self, vals: Vec<Vec<u8>>) -> (res: Result<Vec<ValueId>, HeapFileError>)
        requires
            old(self).wf(),
            forall|i: int| 0 <= i < vals@.len() ==> (#[trigger] vals@[i])@.len() <= MAX_VALUE_SIZE,
            old(self).records().len() + vals@.len() <= u32::MAX,
        ensures
            final(self).wf(),
            final(self).container() == old(self).container(),
            ({
                let vs = vals@.map_values(|v: Vec<u8>| v@);
                let after = file_after_adds(old(self).records(), old(self).last(), vs);
                let locs = add_locations(old(self).records(), old(self).last(), vs);
                &&& res matches Ok(ids) && ids@.len() == vals@.len() && forall|i: int|
                    0 <= i < ids@.len() ==> #[trigger] ids@[i] == value_id_at(
                        old(self).container(),
                        locs[i].0,
                        locs[i].1,
                    )
                &&& final(self).records() == after.0
                &&& final(self).last() == after.1
            }),
    {
        let ghost f0 = self.records();
        let ghost l0 = self.last();
        let ghost vs = vals@.map_values(|v: Vec<u8>| v@);
        let mut val_ids: Vec<ValueId> = Vec::new();
        let mut i: usize = 0;
        while i < vals.len()
            invariant
                self.wf(),
                self.container() == old(self).container(),
                vs == vals@.map_values(|v: Vec<u8>| v@),
                forall|j: int| 0 <= j < vals@.len() ==> (#[trigger] vals@[j])@.len() <= MAX_VALUE_SIZE,
                f0.len() + vals@.len() <= u32::MAX,
                i <= vals@.len(),
                self.records().len() <= f0.len() + i,
                val_ids@.len() == i,
                ({
                    let after = file_after_adds(f0, l0, vs.take(i as int));
                    let locs = add_locations(f0, l0, vs.take(i as int));
                    &&& self.records() == after.0
                    &&& self.last() == after.1
                    &&& forall|j: int|
                        0 <= j < i ==> #[trigger] val_ids@[j] == value_id_at(
                            self.container(),
                            locs[j].0,
                            locs[j].1,
                        )
                }),
            decreases vals@.len() - i,
        {
            let ghost f1 = self.records();
            let ghost l1 = self.last();
            let val_id = self.add_val(vals[i].as_slice());
            proof {
                assert(vs.take(i + 1).drop_last() =~= vs.take(i as int));
                assert(vs.take(i + 1).last() == vals@[i as int]@);
                lemma_add_locations_len(f0, l0, vs.take(i as int));
                assert(add_locations(f0, l0, vs.take(i + 1)) == add_locations(f0, l0, vs.take(i as int)).push(
                    add_location(f1, l1, vals@[i as int]@.len() as int),
                ));
            }
            match val_id {
                Ok(id) => {
                    val_ids.push(id);
                },
                Err(e) => {
                    return Err(e);
                },
            }
            i = i + 1;
        }
        proof {
            assert(vs.take(vals@.len() as int) =~= vs);
        }
        Ok(val_ids)
    }

    /// Store `val` on the last page where it fits, else on a new page, and
    /// return where it went.
    pub fn add_val(&mut self, val: &[u8]) -> (res: Result<ValueId, HeapFileError>)
        requires
            old(self).wf(),
            val@.len() <= MAX_VALUE_SIZE,
            old(self).records().len() < u32::MAX,
        ensures
            final(self).wf(),
            final(self).container() == old(self).container(),
            ({
                let f = old(self).records();
                let last = old(self).last();
                let loc = add_location(f, last, val@.len() as int);
                &&& res == Ok::<ValueId, HeapFileError>(value_id_at(old(self).container(), loc.0, loc.1))
                &&& final(self).records() == file_after_add(f, last, val@)
                &&& final(self).last() == last_after_add(f, last, val@.len() as int)
            }),
    {
        let ghost f = self.records();
        let ghost old_bytes = self.page_bytes();
        let last = self.last_page;
        if last > 0 {
            let page = &mut self.pages[last as usize];
            let r = page.add_value(val);
            proof {
                assert(self.page_bytes() =~= old_bytes.update(last as int, self.pages@[last as int]@));
                assert(self.records() =~= f.update(last as int, records_of(self.pages@[last as int]@)));
            }
            if let Some(slot_id) = r {
                return Ok(
                    ValueId {
                        container_id: self.c_id,
                        segment_id: None,
                        page_id: Some(last),
                        slot_id: Some(slot_id),
                    },
                );
            }
        }
        // No room on the last page: start a new one.

        let page_id = self.pages.len() as PageId;
        let mut page = Page::new();
        page.init_heap_page();
        proof {
            lemma_lowest_free(records_of(page@));
        }
        let slot_id = page.add_value(val).unwrap();
        let ghost new_page = page@;
        self.pages.push(page);
        self.last_page = page_id;
        proof {
            assert(self.page_bytes() =~= old_bytes.push(new_page));
            assert(self.records() =~= f.push(records_of(new_page)));
            assert(records_of(new_page) =~= seq![Some(val@)]);
        }
        Ok(
            ValueId {
                container_id: self.c_id,
                segment_id: None,
                page_id: Some(page_id),
                slot_id: Some(slot_id),
            },
        )
    }
}

/// An iterator over the values of a heap file, in page order and then slot
/// order, with their value ids.
pub struct HeapFileIter<'a> {
    heapfile: &'a HeapFile,
    initialized: bool,
    finished: bool,
    #[allow(dead_code)]
    first_page: PageId,
    current_slot_id: SlotId,
    current_page_id: PageId,
}

impl<'a> HeapFileIter<'a> {
    pub closed spec fn file_records(&self) -> FileRecords {
        self.heapfile.records()
    }

    pub closed spec fn file_wf(&self) -> bool {
        self.heapfile.wf()
    }

    pub closed spec fn file_container(&self) -> ContainerId {
        self.heapfile.container()
    }

    /// The page and slot the iterator looks at next.
    pub closed spec fn position(&self) -> (int, int) {
        (self.current_page_id as int, self.current_slot_id as int)
    }

    /// The iterator has reported its end.
    pub closed spec fn is_finished(&self) -> bool {
        self.finished
    }

    /// The iterator has done its setup for the first value.
    pub closed spec fn is_initialized(&self) -> bool {
        self.initialized
    }

    fn new_from(heapfile: &'a HeapFile, page_id: PageId, slot_id: SlotId) -> (it: Self)
        ensures
            it.file_records() == heapfile.records(),
            it.file_wf() == heapfile.wf(),
            it.file_container() == heapfile.container(),
            it.position() == (page_id as int, slot_id as int),
            !it.is_finished(),
            !it.is_initialized(),
    {
        HeapFileIter {
            heapfile,
            initialized: false,
            finished: false,
            first_page: page_id,
            current_slot_id: slot_id,
            current_page_id: page_id,
        }
    }

    fn initialize(&mut self)
        ensures
            final(self).file_records() == old(self).file_records(),
            final(self).file_wf() == old(self).file_wf(),
            final(self).file_container() == old(self).file_container(),
            final(self).position() == old(self).position(),
            final(self).is_finished() == old(self).is_finished(),
            final(self).is_initialized(),
    {
        if self.initialized {
            return;
        }
        self.initialized = true;
    }

    /// The next value and its value id, or `None` at the end; after the end
    /// it stays `None`.
    pub fn next(&mut self) -> (res: Option<(Vec<u8>, ValueId)>)
        requires
            old(self).file_wf(),
        ensures
            final(self).file_records() == old(self).file_records(),
            final(self).file_wf() == old(self).file_wf(),
            final(self).file_container() == old(self).file_container(),
            old(self).is_finished() ==> res is None && final(self).is_finished(),
            !old(self).is_finished() ==> match next_value_pos(
                old(self).file_records(),
                old(self).position().0,
                old(self).position().1,
            ) {
                Some((p, k)) => {
                    &&& res matches Some((v, id)) && Some(v@) == file_value_at(
                        old(self).file_records(),
                        p,
                        k,
                    ) && id == value_id_at(old(self).file_container(), p, k)
                    &&& final(self).position() == (p, k + 1)
                    &&& !final(self).is_finished()
                    &&& values_from(old(self).file_records(), old(self).position().0, old(self).position().1)
                        == seq![(p, k)] + values_from(old(self).file_records(), p, k + 1)
                },
                None => res is None && final(self).is_finished() && values_from(
                    old(self).file_records(),
                    old(self).position().0,
                    old(self).position().1,
                ).len() == 0,
            },
    {
        if !self.initialized {
            self.initialize();
        }
        if self.finished {
            return None;
        }
        let hf: &'a HeapFile = self.heapfile;
        let ghost f = hf.records();
        let ghost target = next_value_pos(f, self.current_page_id as int, self.current_slot_id as int);
        let n = hf.num_pages();
        let mut cp = self.current_page_id;
        let mut cs = self.current_slot_id;
        let mut found: Option<(Vec<u8>, ValueId)> = None;
        while cp < n
            invariant_except_break
                hf.wf(),
                f == hf.records(),
                n == f.len(),
                next_value_pos(f, cp as int, cs as int) == target,
                found is None,
            ensures
                cp >= n ==> found is None && target is None,
                cp < n ==> target == Some((cp as int, (cs - 1) as int)) && cs >= 1,
                cp < n ==> (found matches Some((v, id)) && Some(v@) == file_value_at(f, cp as int, cs - 1)
                    && id == value_id_at(hf.container(), cp as int, cs - 1)),
            decreases n - cp, 0x10000 - cs,
        {
            let page = &hf.pages[cp as usize];
            proof {
                assert(page_usable(hf.page_bytes()[cp as int]));
                assert(hf.page_bytes()[cp as int] == page@);
            }
            let num_slots = page.get_num_slots();
            if cs < num_slots {
                let slot_id = cs;
                cs = cs + 1;
                if let Some(val) = page.get_value(slot_id) {
                    found = Some(
                        (
                            vstd::slice::slice_to_vec(val),
                            ValueId {
                                container_id: hf.c_id,
                                segment_id: None,
                                page_id: Some(cp),
                                slot_id: Some(slot_id),
                            },
                        ),
                    );
                    proof {
                        assert(f[cp as int][slot_id as int] is Some);
                        assert(next_live_from(f[cp as int], slot_id as int) == slot_id);
                    }
                    break;
                }
                proof {
                    assert(f[cp as int][slot_id as int] is None);
                    assert(next_live_from(f[cp as int], slot_id as int) == next_live_from(
                        f[cp as int],
                        slot_id + 1,
                    ));
                }
            } else {
                proof {
                    assert(next_live_from(f[cp as int], cs as int) == f[cp as int].len());
                }
                cp = cp + 1;
                cs = 0;
            }
        }
        if cp < n {
            self.current_page_id = cp;
            self.current_slot_id = cs;
            found
        } else {
            self.current_page_id = cp;
            self.current_slot_id = cs;
            self.finished = true;
            None
        }
    }
}

} // verus!
