//! The grace hash equi-join: both inputs are split into partitions by the
//! hash of their join key, then each pair of partitions is joined in turn by
//! building a hash map of the left partition and probing it with every right
//! tuple of the same partition.
//!
//! Tuples are carried as their bytes, with the bytes of their join key; the
//! caller evaluates the key expressions and merges the pairs that come out.
//! Keys are hashed with `DefaultHasher`.
use vstd::prelude::*;
use std::collections::HashMap;
use std::collections::hash_map::DefaultHasher;
use std::hash::Hasher;
use vstd::multiset::Multiset;
use vstd::std_specs::hash::DefaultHasherAdditionalSpecFns;

verus! {

broadcast use vstd::std_specs::hash::group_hash_axioms;

/// The number of partitions where none is given.
pub const DEFAULT_NUM_PARTITIONS: usize = 10;

/// A tuple of a partition: its join key and its bytes.
pub type PartTuple = (Vec<u8>, Vec<u8>);

/// The view of a partition: join keys and tuple bytes.
pub type Part = Seq<(Seq<u8>, Seq<u8>)>;

/// A joined pair: the left tuple's bytes and the right tuple's bytes.
pub type Pair = (Seq<u8>, Seq<u8>);

/// An input tuple: the bytes its join key hashes as, and its own bytes.
/// Equal keys have equal bytes.
pub struct JoinInput {
    pub key: Vec<u8>,
    pub bytes: Vec<u8>,
}

pub open spec fn part_view(v: Seq<PartTuple>) -> Part {
    v.map_values(|e: PartTuple| (e.0@, e.1@))
}

pub open spec fn parts_view(v: Seq<Vec<PartTuple>>) -> Seq<Part> {
    v.map_values(|p: Vec<PartTuple>| part_view(p@))
}

/// The hash of a join key: what a `DefaultHasher` gives after being fed the
/// key's bytes.
pub open spec fn key_hash(k: Seq<u8>) -> u64 {
    <DefaultHasher as DefaultHasherAdditionalSpecFns>::spec_finish(seq![k])
}

/// The input tuples as (key, hash of the key, bytes).
pub open spec fn inputs_view(v: Seq<JoinInput>) -> Seq<(Seq<u8>, u64, Seq<u8>)> {
    v.map_values(|t: JoinInput| (t.key@, key_hash(t.key@), t.bytes@))
}

/// Equal join keys carry equal hashes across the two inputs: the hash is a
/// function of the key.
pub open spec fn hashes_agree(left: Seq<(Seq<u8>, u64, Seq<u8>)>, right: Seq<(Seq<u8>, u64, Seq<u8>)>) -> bool {
    forall|i: int, j: int|
        0 <= i < left.len() && 0 <= j < right.len() && #[trigger] left[i].0 == #[trigger] right[j].0
            ==> left[i].1 == right[j].1
}

/// The partition a key hash goes to.
pub open spec fn spec_partition_id(key_hash: u64, n: int) -> int {
    (key_hash as usize) as int % n
}

/// Partition `p` of `input`: the tuples whose key hash goes to `p`, in input
/// order.
pub open spec fn partition_of(input: Seq<(Seq<u8>, u64, Seq<u8>)>, n: int, p: int) -> Part
    decreases input.len(),
{
    if input.len() == 0 {
        Seq::empty()
    } else {
        let prev = partition_of(input.drop_last(), n, p);
        let t = input.last();
        if spec_partition_id(t.1, n) == p {
            prev.push((t.0, t.2))
        } else {
            prev
        }
    }
}

/// All `n` partitions of `input`.
pub open spec fn partitions_of(input: Seq<(Seq<u8>, u64, Seq<u8>)>, n: int) -> Seq<Part> {
    Seq::new(n as nat, |p: int| partition_of(input, n, p))
}

/// The positions in `lp` of the tuples with key `k`, in order.
pub open spec fn matches_of(lp: Part, k: Seq<u8>) -> Seq<int>
    decreases lp.len(),
{
    if lp.len() == 0 {
        Seq::empty()
    } else {
        let prev = matches_of(lp.drop_last(), k);
        if lp.last().0 == k {
            prev.push(lp.len() - 1)
        } else {
            prev
        }
    }
}

/// The pairs that right tuple `r` forms with the tuples of `lp`.
pub open spec fn pairs_for(lp: Part, r: (Seq<u8>, Seq<u8>)) -> Seq<Pair> {
    matches_of(lp, r.0).map_values(|i: int| (lp[i].1, r.1))
}

/// The pairs that right tuples `j..` of `rp` form with `lp`, right tuple by
/// right tuple.
pub open spec fn probe_output(lp: Part, rp: Part, j: int) -> Seq<Pair>
    decreases rp.len() - j,
{
    if j < 0 || j >= rp.len() {
        Seq::empty()
    } else {
        pairs_for(lp, rp[j]) + probe_output(lp, rp, j + 1)
    }
}

/// The pairs of partitions `p..`, partition by partition.
pub open spec fn parts_output(left: Seq<Part>, right: Seq<Part>, p: int) -> Seq<Pair>
    decreases left.len() - p,
{
    if p < 0 || p >= left.len() || p >= right.len() {
        Seq::empty()
    } else {
        probe_output(left[p], right[p], 0) + parts_output(left, right, p + 1)
    }
}

/// The positions in `lp` of the tuples whose key hashes to `h`, in order: the
/// bucket of `h` in the join map.
pub open spec fn bucket_of(lp: Part, h: u64) -> Seq<int>
    decreases lp.len(),
{
    if lp.len() == 0 {
        Seq::empty()
    } else {
        let prev = bucket_of(lp.drop_last(), h);
        if key_hash(lp.last().0) == h {
            prev.push(lp.len() - 1)
        } else {
            prev
        }
    }
}

/// The pairs that right tuple `r` forms with the tuples at positions
/// `b[m..]` of `lp` that have its key.
pub open spec fn bucket_pairs(lp: Part, r: (Seq<u8>, Seq<u8>), b: Seq<int>, m: int) -> Seq<Pair>
    decreases b.len() - m,
{
    if m < 0 || m >= b.len() {
        Seq::empty()
    } else if lp[b[m]].0 == r.0 {
        seq![(lp[b[m]].1, r.1)] + bucket_pairs(lp, r, b, m + 1)
    } else {
        bucket_pairs(lp, r, b, m + 1)
    }
}

/// The pairs that right tuple `r` forms from position `m` of its key's bucket
/// in `lp` on.
pub open spec fn pairs_from(lp: Part, r: (Seq<u8>, Seq<u8>), m: int) -> Seq<Pair> {
    bucket_pairs(lp, r, bucket_of(lp, key_hash(r.0)), m)
}

/// The pairs still to come from partition `p`, right tuple `j`, bucket
/// position `m` on.
pub open spec fn remaining_output(left: Seq<Part>, right: Seq<Part>, p: int, j: int, m: int) -> Seq<
    Pair,
> {
    if p < 0 || p >= left.len() || p >= right.len() {
        Seq::empty()
    } else if j < 0 || j >= right[p].len() {
        parts_output(left, right, p + 1)
    } else {
        pairs_from(left[p], right[p][j], m) + probe_output(left[p], right[p], j + 1)
            + parts_output(left, right, p + 1)
    }
}

/// The pairs of the whole join of `left` and `right` over `n` partitions.
pub open spec fn join_output(
    left: Seq<(Seq<u8>, u64, Seq<u8>)>,
    right: Seq<(Seq<u8>, u64, Seq<u8>)>,
    n: int,
) -> Seq<Pair> {
    parts_output(partitions_of(left, n), partitions_of(right, n), 0)
}

pub proof fn lemma_matches_of(lp: Part, k: Seq<u8>)
    ensures
        forall|a: int| 0 <= a < matches_of(lp, k).len() ==> 0 <= #[trigger] matches_of(lp, k)[a] < lp.len()
            && lp[matches_of(lp, k)[a]].0 == k,
    decreases lp.len(),
{
    if lp.len() > 0 {
        let prev = lp.drop_last();
        lemma_matches_of(prev, k);
        assert forall|a: int| 0 <= a < matches_of(lp, k).len() implies 0 <= #[trigger] matches_of(
            lp,
            k,
        )[a] < lp.len() && lp[matches_of(lp, k)[a]].0 == k by {
            if a < matches_of(prev, k).len() {
                assert(matches_of(lp, k)[a] == matches_of(prev, k)[a]);
                assert(lp[matches_of(prev, k)[a]] == prev[matches_of(prev, k)[a]]);
            }
        }
    }
}

pub proof fn lemma_bucket_of(lp: Part, h: u64)
    ensures
        forall|a: int| 0 <= a < bucket_of(lp, h).len() ==> 0 <= #[trigger] bucket_of(lp, h)[a] < lp.len()
            && key_hash(lp[bucket_of(lp, h)[a]].0) == h,
    decreases lp.len(),
{
    if lp.len() > 0 {
        let prev = lp.drop_last();
        lemma_bucket_of(prev, h);
        assert forall|a: int| 0 <= a < bucket_of(lp, h).len() implies 0 <= #[trigger] bucket_of(
            lp,
            h,
        )[a] < lp.len() && key_hash(lp[bucket_of(lp, h)[a]].0) == h by {
            if a < bucket_of(prev, h).len() {
                assert(bucket_of(lp, h)[a] == bucket_of(prev, h)[a]);
                assert(lp[bucket_of(prev, h)[a]] == prev[bucket_of(prev, h)[a]]);
            }
        }
    }
}

/// A bucket that grew by one position gives the pairs it gave, then that
/// position's pair where the key matches.
pub proof fn lemma_bucket_pairs_push(lp: Part, r: (Seq<u8>, Seq<u8>), b: Seq<int>, x: int, m: int)
    requires
        0 <= m <= b.len(),
    ensures
        bucket_pairs(lp, r, b.push(x), m) == bucket_pairs(lp, r, b, m) + if lp[x].0 == r.0 {
            seq![(lp[x].1, r.1)]
        } else {
            Seq::<Pair>::empty()
        },
    decreases b.len() - m,
{
    if m < b.len() {
        lemma_bucket_pairs_push(lp, r, b, x, m + 1);
        assert(b.push(x)[m] == b[m]);
        assert(bucket_pairs(lp, r, b.push(x), m) =~= bucket_pairs(lp, r, b, m) + if lp[x].0 == r.0 {
            seq![(lp[x].1, r.1)]
        } else {
            Seq::<Pair>::empty()
        });
    } else {
        assert(bucket_pairs(lp, r, b.push(x), m + 1) =~= Seq::<Pair>::empty());
        assert(bucket_pairs(lp, r, b.push(x), m) =~= bucket_pairs(lp, r, b, m) + if lp[x].0 == r.0 {
            seq![(lp[x].1, r.1)]
        } else {
            Seq::<Pair>::empty()
        });
    }
}

/// The pairs of a bucket depend only on the tuples at its positions.
pub proof fn lemma_bucket_pairs_prefix(lp: Part, r: (Seq<u8>, Seq<u8>), b: Seq<int>, m: int)
    requires
        lp.len() > 0,
        0 <= m,
        forall|a: int| 0 <= a < b.len() ==> 0 <= #[trigger] b[a] < lp.len() - 1,
    ensures
        bucket_pairs(lp, r, b, m) == bucket_pairs(lp.drop_last(), r, b, m),
    decreases b.len() - m,
{
    if m < b.len() {
        lemma_bucket_pairs_prefix(lp, r, b, m + 1);
        assert(lp[b[m]] == lp.drop_last()[b[m]]);
    }
}

/// The whole bucket of a right tuple's key gives exactly its pairs.
pub proof fn lemma_pairs_from_start(lp: Part, r: (Seq<u8>, Seq<u8>))
    ensures
        pairs_from(lp, r, 0) == pairs_for(lp, r),
    decreases lp.len(),
{
    let h = key_hash(r.0);
    if lp.len() == 0 {
        assert(pairs_for(lp, r) =~= Seq::<Pair>::empty());
    } else {
        let prev = lp.drop_last();
        lemma_pairs_from_start(prev, r);
        lemma_pairs_for_push(lp, r);
        lemma_bucket_of(prev, h);
        let bp = bucket_of(prev, h);
        assert forall|a: int| 0 <= a < bp.len() implies 0 <= #[trigger] bp[a] < lp.len() - 1 by {}
        lemma_bucket_pairs_prefix(lp, r, bp, 0);
        let x = lp.len() - 1;
        if key_hash(lp.last().0) == h {
            lemma_bucket_pairs_push(lp, r, bp, x, 0);
        } else {
            assert(lp.last().0 != r.0);
        }
    }
}

/// Where the right tuple's bucket is used up, the output goes on with the
/// following right tuple.
pub proof fn lemma_remaining_next_right(left: Seq<Part>, right: Seq<Part>, p: int, j: int, m: int)
    requires
        0 <= p < left.len(),
        p < right.len(),
        0 <= j < right[p].len(),
        m == bucket_of(left[p], key_hash(right[p][j].0)).len(),
    ensures
        remaining_output(left, right, p, j, m) == remaining_output(left, right, p, j + 1, 0),
{
    let lp = left[p];
    let rp = right[p];
    assert(pairs_from(lp, rp[j], m) =~= Seq::<Pair>::empty());
    if j + 1 < rp.len() {
        lemma_pairs_from_start(lp, rp[j + 1]);
        assert(probe_output(lp, rp, j + 1) == pairs_for(lp, rp[j + 1]) + probe_output(lp, rp, j + 2));
        assert(remaining_output(left, right, p, j, m) =~= remaining_output(left, right, p, j + 1, 0));
    } else {
        assert(probe_output(lp, rp, j + 1) =~= Seq::<Pair>::empty());
        assert(remaining_output(left, right, p, j, m) =~= remaining_output(left, right, p, j + 1, 0));
    }
}

/// The output of partitions `p..` is what remains at the start of partition
/// `p`.
pub proof fn lemma_parts_output_start(left: Seq<Part>, right: Seq<Part>, p: int)
    requires
        0 <= p,
    ensures
        parts_output(left, right, p) == remaining_output(left, right, p, 0, 0),
{
    if p < left.len() && p < right.len() {
        let lp = left[p];
        let rp = right[p];
        if rp.len() > 0 {
            lemma_pairs_from_start(lp, rp[0]);
            assert(probe_output(lp, rp, 0) == pairs_for(lp, rp[0]) + probe_output(lp, rp, 1));
            assert(parts_output(left, right, p) =~= remaining_output(left, right, p, 0, 0));
        } else {
            assert(probe_output(lp, rp, 0) =~= Seq::<Pair>::empty());
            assert(parts_output(left, right, p) =~= remaining_output(left, right, p, 0, 0));
        }
    }
}

/// Where the bucket position holds a tuple with the right tuple's key, their
/// pair is the next one.
pub proof fn lemma_remaining_take(left: Seq<Part>, right: Seq<Part>, p: int, j: int, m: int)
    requires
        0 <= p < left.len(),
        p < right.len(),
        0 <= j < right[p].len(),
        0 <= m < bucket_of(left[p], key_hash(right[p][j].0)).len(),
        left[p][bucket_of(left[p], key_hash(right[p][j].0))[m]].0 == right[p][j].0,
    ensures
        remaining_output(left, right, p, j, m).len() > 0,
        remaining_output(left, right, p, j, m)[0] == (
            left[p][bucket_of(left[p], key_hash(right[p][j].0))[m]].1,
            right[p][j].1,
        ),
        remaining_output(left, right, p, j, m).drop_first() == remaining_output(
            left,
            right,
            p,
            j,
            m + 1,
        ),
{
    let r = right[p][j];
    let b = bucket_of(left[p], key_hash(r.0));
    let head = pairs_from(left[p], r, m);
    let rest = probe_output(left[p], right[p], j + 1) + parts_output(left, right, p + 1);
    assert(head == seq![(left[p][b[m]].1, r.1)] + pairs_from(left[p], r, m + 1));
    assert(remaining_output(left, right, p, j, m) =~= head + rest);
    assert(remaining_output(left, right, p, j, m + 1) =~= pairs_from(left[p], r, m + 1) + rest);
    assert((head + rest).drop_first() =~= pairs_from(left[p], r, m + 1) + rest);
}

/// A bucket position whose tuple has another key gives no pair.
pub proof fn lemma_remaining_skip(left: Seq<Part>, right: Seq<Part>, p: int, j: int, m: int)
    requires
        0 <= p < left.len(),
        p < right.len(),
        0 <= j < right[p].len(),
        0 <= m < bucket_of(left[p], key_hash(right[p][j].0)).len(),
        left[p][bucket_of(left[p], key_hash(right[p][j].0))[m]].0 != right[p][j].0,
    ensures
        remaining_output(left, right, p, j, m) == remaining_output(left, right, p, j, m + 1),
{
}

// ---------------------------------------------------------------------------
// Laws of the join output.

/// A tuple goes to the partition of its key hash.
pub proof fn lemma_partition_of_member(input: Seq<(Seq<u8>, u64, Seq<u8>)>, n: int, i: int)
    requires
        0 <= i < input.len(),
    ensures
        partition_of(input, n, spec_partition_id(input[i].1, n)).contains((input[i].0, input[i].2)),
    decreases input.len(),
{
    let p = spec_partition_id(input[i].1, n);
    let prev = input.drop_last();
    if i < input.len() - 1 {
        lemma_partition_of_member(prev, n, i);
        assert(prev[i] == input[i]);
        let part = partition_of(prev, n, p);
        let a = choose|a: int| 0 <= a < part.len() && part[a] == (input[i].0, input[i].2);
        if spec_partition_id(input.last().1, n) == p {
            assert(partition_of(input, n, p)[a] == part[a]);
        }
        assert(partition_of(input, n, p).contains((input[i].0, input[i].2)));
    } else {
        let part = partition_of(input, n, p);
        assert(part[part.len() - 1] == (input[i].0, input[i].2));
    }
}

/// Every tuple of a partition comes from the input.
pub proof fn lemma_partition_of_source(input: Seq<(Seq<u8>, u64, Seq<u8>)>, n: int, p: int, a: int)
    requires
        0 <= a < partition_of(input, n, p).len(),
    ensures
        exists|i: int|
            0 <= i < input.len() && #[trigger] input[i].0 == partition_of(input, n, p)[a].0 && input[i].2
                == partition_of(input, n, p)[a].1 && spec_partition_id(input[i].1, n) == p,
    decreases input.len(),
{
    let prev = input.drop_last();
    let part = partition_of(prev, n, p);
    if a < part.len() {
        lemma_partition_of_source(prev, n, p, a);
        let i = choose|i: int|
            0 <= i < prev.len() && #[trigger] prev[i].0 == part[a].0 && prev[i].2 == part[a].1
                && spec_partition_id(prev[i].1, n) == p;
        assert(input[i] == prev[i]);
        assert(partition_of(input, n, p)[a] == part[a]);
    } else {
        assert(input[input.len() - 1].0 == partition_of(input, n, p)[a].0);
    }
}

/// A tuple whose key is `k` is among the matches of `k`.
pub proof fn lemma_matches_of_contains(lp: Part, a: int)
    requires
        0 <= a < lp.len(),
    ensures
        matches_of(lp, lp[a].0).contains(a),
    decreases lp.len(),
{
    let prev = lp.drop_last();
    let k = lp[a].0;
    if a < lp.len() - 1 {
        lemma_matches_of_contains(prev, a);
        assert(prev[a] == lp[a]);
        let x = choose|x: int| 0 <= x < matches_of(prev, k).len() && matches_of(prev, k)[x] == a;
        if lp.last().0 == k {
            assert(matches_of(lp, k)[x] == a);
        }
        assert(matches_of(lp, k).contains(a));
    } else {
        let m = matches_of(lp, k);
        assert(m[m.len() - 1] == a);
    }
}

/// The pairs of right tuple `b` are in the probe output from `j` on, `j <= b`.
pub proof fn lemma_probe_output_contains(lp: Part, rp: Part, j: int, b: int, x: Pair)
    requires
        0 <= j <= b < rp.len(),
        pairs_for(lp, rp[b]).contains(x),
    ensures
        probe_output(lp, rp, j).contains(x),
    decreases b - j,
{
    let head = pairs_for(lp, rp[j]);
    let tail = probe_output(lp, rp, j + 1);
    assert(probe_output(lp, rp, j) == head + tail);
    if j == b {
        let y = choose|y: int| 0 <= y < head.len() && head[y] == x;
        assert((head + tail)[y] == x);
    } else {
        lemma_probe_output_contains(lp, rp, j + 1, b, x);
        let y = choose|y: int| 0 <= y < tail.len() && tail[y] == x;
        assert((head + tail)[head.len() + y] == x);
    }
}

/// The probe output of partition `q` is in the output from partition `p` on,
/// `p <= q`.
pub proof fn lemma_parts_output_contains(left: Seq<Part>, right: Seq<Part>, p: int, q: int, x: Pair)
    requires
        0 <= p <= q < left.len(),
        q < right.len(),
        probe_output(left[q], right[q], 0).contains(x),
    ensures
        parts_output(left, right, p).contains(x),
    decreases q - p,
{
    let head = probe_output(left[p], right[p], 0);
    let tail = parts_output(left, right, p + 1);
    assert(parts_output(left, right, p) == head + tail);
    if p == q {
        let y = choose|y: int| 0 <= y < head.len() && head[y] == x;
        assert((head + tail)[y] == x);
    } else {
        lemma_parts_output_contains(left, right, p + 1, q, x);
        let y = choose|y: int| 0 <= y < tail.len() && tail[y] == x;
        assert((head + tail)[head.len() + y] == x);
    }
}

/// A left tuple and a right tuple with equal join keys come out as a pair,
/// where equal keys hash alike.
pub proof fn lemma_join_finds_every_match(
    left: Seq<(Seq<u8>, u64, Seq<u8>)>,
    right: Seq<(Seq<u8>, u64, Seq<u8>)>,
    n: int,
    i: int,
    j: int,
)
    requires
        n > 0,
        0 <= i < left.len(),
        0 <= j < right.len(),
        hashes_agree(left, right),
        left[i].0 == right[j].0,
    ensures
        join_output(left, right, n).contains((left[i].2, right[j].2)),
{
    assert(left[i].1 == right[j].1);
    let p = spec_partition_id(left[i].1, n);
    assert(0 <= p < n);
    let lv = partitions_of(left, n);
    let rv = partitions_of(right, n);
    let lp = lv[p];
    let rp = rv[p];
    lemma_partition_of_member(left, n, i);
    lemma_partition_of_member(right, n, j);
    let a = choose|a: int| 0 <= a < lp.len() && lp[a] == (left[i].0, left[i].2);
    let b = choose|b: int| 0 <= b < rp.len() && rp[b] == (right[j].0, right[j].2);
    lemma_matches_of_contains(lp, a);
    let ms = matches_of(lp, rp[b].0);
    let y = choose|y: int| 0 <= y < ms.len() && ms[y] == a;
    let x = (left[i].2, right[j].2);
    assert(pairs_for(lp, rp[b])[y] == x);
    lemma_probe_output_contains(lp, rp, 0, b, x);
    lemma_parts_output_contains(lv, rv, 0, p, x);
}

/// Every element of the pairs of right tuple `r` is a left tuple with the
/// same key, paired with `r`.
pub proof fn lemma_pairs_for_source(lp: Part, r: (Seq<u8>, Seq<u8>), x: Pair)
    requires
        pairs_for(lp, r).contains(x),
    ensures
        exists|a: int| 0 <= a < lp.len() && #[trigger] lp[a].0 == r.0 && x == (lp[a].1, r.1),
{
    lemma_matches_of(lp, r.0);
    let pr = pairs_for(lp, r);
    let y = choose|y: int| 0 <= y < pr.len() && pr[y] == x;
    let a = matches_of(lp, r.0)[y];
    assert(lp[a].0 == r.0);
}

pub proof fn lemma_probe_output_source(lp: Part, rp: Part, j: int, x: Pair)
    requires
        0 <= j,
        probe_output(lp, rp, j).contains(x),
    ensures
        exists|b: int| j <= b < rp.len() && #[trigger] pairs_for(lp, rp[b]).contains(x),
    decreases rp.len() - j,
{
    let head = pairs_for(lp, rp[j]);
    let tail = probe_output(lp, rp, j + 1);
    assert(probe_output(lp, rp, j) == head + tail);
    let y = choose|y: int| 0 <= y < (head + tail).len() && (head + tail)[y] == x;
    if y < head.len() {
        assert(head[y] == x);
        assert(pairs_for(lp, rp[j]).contains(x));
    } else {
        assert(tail[y - head.len()] == x);
        lemma_probe_output_source(lp, rp, j + 1, x);
    }
}

pub proof fn lemma_parts_output_source(left: Seq<Part>, right: Seq<Part>, p: int, x: Pair)
    requires
        0 <= p,
        parts_output(left, right, p).contains(x),
    ensures
        exists|q: int|
            p <= q < left.len() && q < right.len() && #[trigger] probe_output(left[q], right[q], 0).contains(
                x,
            ),
    decreases left.len() - p,
{
    let head = probe_output(left[p], right[p], 0);
    let tail = parts_output(left, right, p + 1);
    assert(parts_output(left, right, p) == head + tail);
    let y = choose|y: int| 0 <= y < (head + tail).len() && (head + tail)[y] == x;
    if y < head.len() {
        assert(head[y] == x);
        assert(probe_output(left[p], right[p], 0).contains(x));
    } else {
        assert(tail[y - head.len()] == x);
        lemma_parts_output_source(left, right, p + 1, x);
    }
}

/// The join finds only matches: every pair is a left tuple and a right tuple
/// with equal join keys.
pub proof fn law_join_pairs_only_matches(
    left: Seq<(Seq<u8>, u64, Seq<u8>)>,
    right: Seq<(Seq<u8>, u64, Seq<u8>)>,
    n: int,
    x: Pair,
)
    requires
        n > 0,
        join_output(left, right, n).contains(x),
    ensures
        exists|i: int, j: int|
            0 <= i < left.len() && 0 <= j < right.len() && #[trigger] left[i].0 == #[trigger] right[j].0
                && x == (left[i].2, right[j].2),
{
    let lv = partitions_of(left, n);
    let rv = partitions_of(right, n);
    lemma_parts_output_source(lv, rv, 0, x);
    let q = choose|q: int| 0 <= q < lv.len() && q < rv.len() && #[trigger] probe_output(lv[q], rv[q], 0).contains(x);
    lemma_probe_output_source(lv[q], rv[q], 0, x);
    let b = choose|b: int| 0 <= b < rv[q].len() && #[trigger] pairs_for(lv[q], rv[q][b]).contains(x);
    lemma_pairs_for_source(lv[q], rv[q][b], x);
    let a = choose|a: int| 0 <= a < lv[q].len() && #[trigger] lv[q][a].0 == rv[q][b].0 && x == (lv[q][a].1, rv[q][b].1);
    lemma_partition_of_source(left, n, q, a);
    lemma_partition_of_source(right, n, q, b);
    let i = choose|i: int| 0 <= i < left.len() && #[trigger] left[i].0 == lv[q][a].0 && left[i].2 == lv[q][a].1;
    let j = choose|j: int| 0 <= j < right.len() && #[trigger] right[j].0 == rv[q][b].0 && right[j].2 == rv[q][b].1;
    assert(left[i].0 == right[j].0);
}

// ---------------------------------------------------------------------------
// The join as a multiset of pairs.

/// The input tuples as (key, bytes).
pub open spec fn keyed(input: Seq<(Seq<u8>, u64, Seq<u8>)>) -> Part {
    input.map_values(|t: (Seq<u8>, u64, Seq<u8>)| (t.0, t.2))
}

/// The pairs of the nested-loop equi-join: for each right tuple in order,
/// the left tuples with the same key, in order.
pub open spec fn nested_loop_output(left: Seq<(Seq<u8>, u64, Seq<u8>)>, right: Seq<(Seq<u8>, u64, Seq<u8>)>) -> Seq<
    Pair,
> {
    probe_output(keyed(left), keyed(right), 0)
}

/// The pairs of a right tuple with a part that grew by one tuple: those with
/// the part before, then the new tuple where its key matches.
pub proof fn lemma_pairs_for_push(lp: Part, r: (Seq<u8>, Seq<u8>))
    requires
        lp.len() > 0,
    ensures
        pairs_for(lp, r) == pairs_for(lp.drop_last(), r) + if lp.last().0 == r.0 {
            seq![(lp.last().1, r.1)]
        } else {
            Seq::<Pair>::empty()
        },
{
    let prev = lp.drop_last();
    lemma_matches_of(prev, r.0);
    let mp = matches_of(prev, r.0);
    assert forall|a: int| 0 <= a < mp.len() implies lp[#[trigger] mp[a]] == prev[mp[a]] by {}
    assert(pairs_for(lp, r) =~= pairs_for(prev, r) + if lp.last().0 == r.0 {
        seq![(lp.last().1, r.1)]
    } else {
        Seq::<Pair>::empty()
    });
}

/// Where every left tuple with `r`'s key goes to partition `p`, `r` forms the
/// same pairs with left partition `p` as with the whole left input.
pub proof fn lemma_pairs_for_partition(left: Seq<(Seq<u8>, u64, Seq<u8>)>, n: int, p: int, r: (Seq<u8>, Seq<u8>))
    requires
        forall|i: int|
            0 <= i < left.len() && #[trigger] left[i].0 == r.0 ==> spec_partition_id(left[i].1, n)
                == p,
    ensures
        pairs_for(partition_of(left, n, p), r) == pairs_for(keyed(left), r),
    decreases left.len(),
{
    if left.len() == 0 {
        assert(keyed(left) =~= Seq::<(Seq<u8>, Seq<u8>)>::empty());
    } else {
        let prev = left.drop_last();
        assert forall|i: int| 0 <= i < prev.len() && #[trigger] prev[i].0 == r.0 implies spec_partition_id(
            prev[i].1,
            n,
        ) == p by {
            assert(prev[i] == left[i]);
        }
        lemma_pairs_for_partition(prev, n, p, r);
        let kl = keyed(left);
        assert(kl.drop_last() =~= keyed(prev));
        lemma_pairs_for_push(kl, r);
        let t = left.last();
        assert(left[left.len() - 1] == t);
        let part = partition_of(left, n, p);
        if spec_partition_id(t.1, n) == p {
            assert(part.drop_last() =~= partition_of(prev, n, p));
            lemma_pairs_for_push(part, r);
        } else {
            assert(t.0 != r.0);
        }
    }
}

/// Right part `rp` probes left partition `p` exactly as it would probe the
/// whole left input, where every tuple of `rp` has its key's left tuples in
/// partition `p`.
pub proof fn lemma_probe_output_partition(
    left: Seq<(Seq<u8>, u64, Seq<u8>)>,
    n: int,
    p: int,
    rp: Part,
    j: int,
)
    requires
        0 <= j,
        forall|b: int, i: int|
            0 <= b < rp.len() && 0 <= i < left.len() && #[trigger] left[i].0 == #[trigger] rp[b].0
                ==> spec_partition_id(left[i].1, n) == p,
    ensures
        probe_output(partition_of(left, n, p), rp, j) == probe_output(keyed(left), rp, j),
    decreases rp.len() - j,
{
    if j < rp.len() {
        lemma_probe_output_partition(left, n, p, rp, j + 1);
        assert forall|i: int| 0 <= i < left.len() && #[trigger] left[i].0 == rp[j].0 implies spec_partition_id(
            left[i].1,
            n,
        ) == p by {}
        lemma_pairs_for_partition(left, n, p, rp[j]);
    }
}

/// With equal keys hashing alike, each pair of partitions yields what the
/// right partition yields against the whole left input.
pub proof fn lemma_parts_output_whole_left(
    left: Seq<(Seq<u8>, u64, Seq<u8>)>,
    right: Seq<(Seq<u8>, u64, Seq<u8>)>,
    n: int,
    p: int,
)
    requires
        n > 0,
        0 <= p <= n,
        hashes_agree(left, right),
    ensures
        parts_output(partitions_of(left, n), partitions_of(right, n), p) == parts_output(
            Seq::new(n as nat, |q: int| keyed(left)),
            partitions_of(right, n),
            p,
        ),
    decreases n - p,
{
    if p < n {
        lemma_parts_output_whole_left(left, right, n, p + 1);
        let rp = partition_of(right, n, p);
        assert forall|b: int, i: int|
            0 <= b < rp.len() && 0 <= i < left.len() && #[trigger] left[i].0 == #[trigger] rp[b].0
                implies spec_partition_id(left[i].1, n) == p by {
            lemma_partition_of_source(right, n, p, b);
            let j = choose|j: int|
                0 <= j < right.len() && #[trigger] right[j].0 == rp[b].0 && right[j].2 == rp[b].1
                    && spec_partition_id(right[j].1, n) == p;
            assert(left[i].1 == right[j].1);
        }
        lemma_probe_output_partition(left, n, p, rp, 0);
    }
}

/// Probing with one more right tuple adds its pairs at the end.
pub proof fn lemma_probe_output_push(lp: Part, rp: Part, x: (Seq<u8>, Seq<u8>), j: int)
    requires
        0 <= j <= rp.len(),
    ensures
        probe_output(lp, rp.push(x), j) == probe_output(lp, rp, j) + pairs_for(lp, x),
    decreases rp.len() - j,
{
    if j == rp.len() {
        assert(probe_output(lp, rp.push(x), j + 1) =~= Seq::<Pair>::empty());
        assert(probe_output(lp, rp, j) =~= Seq::<Pair>::empty());
        assert(probe_output(lp, rp.push(x), j) =~= probe_output(lp, rp, j) + pairs_for(lp, x));
    } else {
        lemma_probe_output_push(lp, rp, x, j + 1);
        assert(rp.push(x)[j] == rp[j]);
        assert(probe_output(lp, rp.push(x), j) =~= probe_output(lp, rp, j) + pairs_for(lp, x));
    }
}

/// One more right tuple adds its pairs, as a multiset, to the output of the
/// partitions from its own on.
pub proof fn lemma_parts_output_push_right(
    lp: Part,
    right: Seq<(Seq<u8>, u64, Seq<u8>)>,
    n: int,
    p: int,
)
    requires
        n > 0,
        0 <= p <= n,
        right.len() > 0,
    ensures
        ({
            let x = right.last();
            let q = spec_partition_id(x.1, n);
            let lrep = Seq::new(n as nat, |i: int| lp);
            parts_output(lrep, partitions_of(right, n), p).to_multiset() == parts_output(
                lrep,
                partitions_of(right.drop_last(), n),
                p,
            ).to_multiset().add(
                if p <= q {
                    pairs_for(lp, (x.0, x.2)).to_multiset()
                } else {
                    Multiset::<Pair>::empty()
                },
            )
        }),
    decreases n - p,
{
    broadcast use vstd::seq_lib::lemma_multiset_commutative;

    let x = right.last();
    let q = spec_partition_id(x.1, n);
    let lrep = Seq::new(n as nat, |i: int| lp);
    let prev = right.drop_last();
    let ps = partitions_of(right, n);
    let pps = partitions_of(prev, n);
    let xs = pairs_for(lp, (x.0, x.2));
    if p < n {
        lemma_parts_output_push_right(lp, right, n, p + 1);
        let head = probe_output(lp, ps[p], 0);
        let phead = probe_output(lp, pps[p], 0);
        let tail = parts_output(lrep, ps, p + 1);
        let ptail = parts_output(lrep, pps, p + 1);
        assert(parts_output(lrep, ps, p) == head + tail);
        assert(parts_output(lrep, pps, p) == phead + ptail);
        if q == p {
            assert(ps[p] == pps[p].push((x.0, x.2)));
            lemma_probe_output_push(lp, pps[p], (x.0, x.2), 0);
            assert(head == phead + xs);
            assert((head + tail).to_multiset() =~= (phead + ptail).to_multiset().add(xs.to_multiset()));
        } else {
            assert(ps[p] == pps[p]);
            assert((head + tail).to_multiset() =~= (phead + ptail).to_multiset().add(
                if p <= q {
                    xs.to_multiset()
                } else {
                    Multiset::<Pair>::empty()
                },
            ));
        }
    } else {
        assert(parts_output(lrep, ps, p) =~= Seq::<Pair>::empty());
        assert(parts_output(lrep, pps, p) =~= Seq::<Pair>::empty());
        assert(parts_output(lrep, ps, p).to_multiset() =~= parts_output(lrep, pps, p).to_multiset().add(
            Multiset::<Pair>::empty(),
        ));
    }
}

/// Probing each right partition against the same left part gives the pairs
/// of probing the whole right input, as a multiset.
pub proof fn lemma_parts_output_whole_right(lp: Part, right: Seq<(Seq<u8>, u64, Seq<u8>)>, n: int)
    requires
        n > 0,
    ensures
        parts_output(Seq::new(n as nat, |i: int| lp), partitions_of(right, n), 0).to_multiset()
            == probe_output(lp, keyed(right), 0).to_multiset(),
    decreases right.len(),
{
    broadcast use vstd::seq_lib::lemma_multiset_commutative;

    let lrep = Seq::new(n as nat, |i: int| lp);
    if right.len() == 0 {
        assert forall|p: int| 0 <= p < n implies #[trigger] partitions_of(right, n)[p].len() == 0 by {}
        lemma_parts_output_empty(lrep, partitions_of(right, n), 0);
        assert(probe_output(lp, keyed(right), 0) =~= Seq::<Pair>::empty());
    } else {
        let prev = right.drop_last();
        let x = right.last();
        lemma_parts_output_whole_right(lp, prev, n);
        lemma_parts_output_push_right(lp, right, n, 0);
        assert(keyed(right) =~= keyed(prev).push((x.0, x.2)));
        lemma_probe_output_push(lp, keyed(prev), (x.0, x.2), 0);
    }
}

/// Partitions with no right tuples yield nothing.
pub proof fn lemma_parts_output_empty(left: Seq<Part>, right: Seq<Part>, p: int)
    requires
        0 <= p,
        forall|q: int| 0 <= q < right.len() ==> (#[trigger] right[q]).len() == 0,
    ensures
        parts_output(left, right, p) == Seq::<Pair>::empty(),
    decreases left.len() - p,
{
    if p < left.len() && p < right.len() {
        lemma_parts_output_empty(left, right, p + 1);
        assert(probe_output(left[p], right[p], 0) =~= Seq::<Pair>::empty());
        assert(parts_output(left, right, p) =~= Seq::<Pair>::empty());
    }
}

/// With equal keys hashing alike, the pairs of partitioned tuples are those
/// of the nested-loop equi-join, each as often.
pub proof fn lemma_join_is_nested_loop_join(
    left: Seq<(Seq<u8>, u64, Seq<u8>)>,
    right: Seq<(Seq<u8>, u64, Seq<u8>)>,
    n: int,
)
    requires
        n > 0,
        hashes_agree(left, right),
    ensures
        join_output(left, right, n).to_multiset() == nested_loop_output(left, right).to_multiset(),
{
    lemma_parts_output_whole_left(left, right, n, 0);
    lemma_parts_output_whole_right(keyed(left), right, n);
}

/// The join's keys always hash alike where they are equal: the library
/// hashes each key's bytes itself.
pub proof fn lemma_inputs_hashes_agree(left: Seq<JoinInput>, right: Seq<JoinInput>)
    ensures
        hashes_agree(inputs_view(left), inputs_view(right)),
{
}

/// Tuples with equal join keys land in partitions of the same index: a left
/// tuple and a right tuple of the same key both go to the partition of that
/// key's hash.
pub proof fn law_matching_keys_share_partition(
    left: Seq<JoinInput>,
    right: Seq<JoinInput>,
    n: int,
    i: int,
    j: int,
)
    requires
        n > 0,
        0 <= i < left.len(),
        0 <= j < right.len(),
        left[i].key@ == right[j].key@,
    ensures
        ({
            let p = spec_partition_id(key_hash(left[i].key@), n);
            &&& 0 <= p < n
            &&& partitions_of(inputs_view(left), n)[p].contains((left[i].key@, left[i].bytes@))
            &&& partitions_of(inputs_view(right), n)[p].contains((right[j].key@, right[j].bytes@))
        }),
{
    lemma_partition_of_member(inputs_view(left), n, i);
    lemma_partition_of_member(inputs_view(right), n, j);
}

/// The join finds every match: a left tuple and a right tuple with equal
/// join keys come out as a pair.
pub proof fn law_join_finds_every_match(
    left: Seq<JoinInput>,
    right: Seq<JoinInput>,
    n: int,
    i: int,
    j: int,
)
    requires
        n > 0,
        0 <= i < left.len(),
        0 <= j < right.len(),
        left[i].key@ == right[j].key@,
    ensures
        join_output(inputs_view(left), inputs_view(right), n).contains((left[i].bytes@, right[j].bytes@)),
{
    lemma_inputs_hashes_agree(left, right);
    lemma_join_finds_every_match(inputs_view(left), inputs_view(right), n, i, j);
}

/// The join outputs the pairs of the nested-loop equi-join, each as often:
/// every left tuple with every right tuple of the same key, once.
pub proof fn law_join_is_nested_loop_join(left: Seq<JoinInput>, right: Seq<JoinInput>, n: int)
    requires
        n > 0,
    ensures
        join_output(inputs_view(left), inputs_view(right), n).to_multiset() == nested_loop_output(
            inputs_view(left),
            inputs_view(right),
        ).to_multiset(),
{
    lemma_inputs_hashes_agree(left, right);
    lemma_join_is_nested_loop_join(inputs_view(left), inputs_view(right), n);
}

/// The join outputs the same pairs, each as often, whatever the number of
/// partitions.
pub proof fn law_join_independent_of_partition_count(
    left: Seq<JoinInput>,
    right: Seq<JoinInput>,
    n1: int,
    n2: int,
)
    requires
        n1 > 0,
        n2 > 0,
    ensures
        join_output(inputs_view(left), inputs_view(right), n1).to_multiset() == join_output(
            inputs_view(left),
            inputs_view(right),
            n2,
        ).to_multiset(),
{
    law_join_is_nested_loop_join(left, right, n1);
    law_join_is_nested_loop_join(left, right, n2);
}

/// The hash of a join key's bytes, by a fresh `DefaultHasher`.
pub fn hash_key(key: &[u8]) -> (h: u64)
    ensures
        h == key_hash(key@),
{
    let mut hasher = DefaultHasher::new();
    hasher.write(key);
    proof {
        assert(hasher@ =~= seq![key@]);
    }
    hasher.finish()
}

/// The partition a join key goes to: the key's hash modulo the number of
/// partitions.
pub fn get_partition_id(key: &[u8], num_partitions: usize) -> (pid: usize)
    requires
        num_partitions > 0,
    ensures
        pid == spec_partition_id(key_hash(key@), num_partitions as int),
        pid < num_partitions,
{
    (hash_key(key) as usize) % num_partitions
}

/// Whether two byte strings are equal.
fn bytes_eq(a: &[u8], b: &[u8]) -> (r: bool)
    ensures
        r == (a@ == b@),
{
    if a.len() != b.len() {
        return false;
    }
    let mut i: usize = 0;
    while i < a.len()
        invariant
            a@.len() == b@.len(),
            i <= a@.len(),
            forall|k: int| 0 <= k < i ==> a@[k] == b@[k],
        decreases a@.len() - i,
    {
        if a[i] != b[i] {
            return false;
        }
        i = i + 1;
    }
    proof {
        assert(a@ =~= b@);
    }
    true
}

/// Split `input` into `n` partitions by the hash of its join keys, keeping
/// input order within each partition.
fn partition_inputs(input: &Vec<JoinInput>, n: usize) -> (parts: Vec<Vec<PartTuple>>)
    requires
        n > 0,
    ensures
        parts@.len() == n,
        parts_view(parts@) == partitions_of(inputs_view(input@), n as int),
{
    let ghost iv = inputs_view(input@);
    let mut parts: Vec<Vec<PartTuple>> = Vec::new();
    let mut p: usize = 0;
    while p < n
        invariant
            p <= n,
            parts@.len() == p,
            forall|q: int| 0 <= q < p ==> (#[trigger] parts@[q])@.len() == 0,
        decreases n - p,
    {
        parts.push(Vec::new());
        p = p + 1;
    }
    proof {
        assert forall|q: int| 0 <= q < n implies #[trigger] parts_view(parts@)[q] == partition_of(
            iv.take(0),
            n as int,
            q,
        ) by {
            assert(part_view(parts@[q]@) =~= Seq::<(Seq<u8>, Seq<u8>)>::empty());
        }
    }
    let mut i: usize = 0;
    while i < input.len()
        invariant
            n > 0,
            iv == inputs_view(input@),
            i <= input@.len(),
            parts@.len() == n,
            forall|q: int|
                0 <= q < n ==> #[trigger] parts_view(parts@)[q] == partition_of(iv.take(i as int), n as int, q),
        decreases input@.len() - i,
    {
        let t = &input[i];
        let pid = get_partition_id(t.key.as_slice(), n);
        let ghost before = parts@;
        let key = vstd::slice::slice_to_vec(t.key.as_slice());
        let bytes = vstd::slice::slice_to_vec(t.bytes.as_slice());
        let part = &mut parts[pid];
        part.push((key, bytes));
        proof {
            assert(iv.take(i + 1).drop_last() =~= iv.take(i as int));
            assert(iv.take(i + 1).last() == (t.key@, key_hash(t.key@), t.bytes@));
            assert forall|q: int| 0 <= q < n implies #[trigger] parts_view(parts@)[q] == partition_of(
                iv.take(i + 1),
                n as int,
                q,
            ) by {
                let prev = partition_of(iv.take(i as int), n as int, q);
                assert(parts_view(before)[q] == prev);
                assert(parts_view(before)[q] == part_view(before[q]@));
                assert(partition_of(iv.take(i + 1), n as int, q) == if spec_partition_id(
                    key_hash(t.key@),
                    n as int,
                ) == q {
                    prev.push((t.key@, t.bytes@))
                } else {
                    prev
                });
                if q == pid {
                    assert(part_view(parts@[q]@) =~= part_view(before[q]@).push((t.key@, t.bytes@)));
                } else {
                    assert(parts@[q] == before[q]);
                }
            }
        }
        i = i + 1;
    }
    proof {
        assert(iv.take(input@.len() as int) =~= iv);
        assert(parts_view(parts@) =~= partitions_of(iv, n as int));
    }
    parts
}

/// The join map of a partition: for each key hash, its bucket: the
/// positions of the tuples whose key has that hash, in order.
pub open spec fn map_matches(m: Map<u64, Vec<usize>>, lp: Part) -> bool {
    forall|k: u64|
        {
            &&& #[trigger] m.contains_key(k) ==> m[k]@.len() == bucket_of(lp, k).len() && forall|
                a: int,
            |
                0 <= a < m[k]@.len() ==> m[k]@[a] as int == #[trigger] bucket_of(lp, k)[a]
            &&& !m.contains_key(k) ==> bucket_of(lp, k).len() == 0
        }
}

/// The state of a grace hash join.
pub struct GraceHashJoin {
    num_partitions: usize,
    open: bool,
    left_partitions: Vec<Vec<PartTuple>>,
    right_partitions: Vec<Vec<PartTuple>>,
    current_partition: usize,
    current_join_map: HashMap<u64, Vec<usize>>,
    current_right_idx: usize,
    current_match_idx: usize,
    partitions_loaded: bool,
}

impl GraceHashJoin {
    pub closed spec fn partitions(&self) -> int {
        self.num_partitions as int
    }

    pub closed spec fn is_open(&self) -> bool {
        self.open
    }

    pub closed spec fn left_parts(&self) -> Seq<Part> {
        parts_view(self.left_partitions@)
    }

    pub closed spec fn right_parts(&self) -> Seq<Part> {
        parts_view(self.right_partitions@)
    }

    /// The pairs that the following calls of `next` return, in order.
    pub closed spec fn remaining(&self) -> Seq<Pair> {
        if !self.open {
            Seq::empty()
        } else if !self.partitions_loaded {
            parts_output(self.left_parts(), self.right_parts(), 0)
        } else {
            remaining_output(
                self.left_parts(),
                self.right_parts(),
                self.current_partition as int,
                self.current_right_idx as int,
                self.current_match_idx as int,
            )
        }
    }

    /// The join's state is consistent.
    pub closed spec fn inv(&self) -> bool {
        let n = self.num_partitions as int;
        let p = self.current_partition as int;
        &&& n > 0
        &&& self.open ==> self.left_partitions@.len() == n && self.right_partitions@.len() == n
        &&& !self.open ==> self.left_partitions@.len() == 0 && self.right_partitions@.len() == 0
            && !self.partitions_loaded
        &&& !self.partitions_loaded ==> p == 0
        &&& self.partitions_loaded ==> self.open && p <= n
        &&& self.partitions_loaded && p < n ==> {
            &&& map_matches(self.current_join_map@, self.left_parts()[p])
            &&& self.current_right_idx <= self.right_parts()[p].len()
            &&& self.current_right_idx < self.right_parts()[p].len() ==> self.current_match_idx
                <= bucket_of(
                self.left_parts()[p],
                key_hash(self.right_parts()[p][self.current_right_idx as int].0),
            ).len()
        }
    }

    /// A join over `num_partitions` partitions, or `DEFAULT_NUM_PARTITIONS`
    /// where none is given.
    pub fn new(num_partitions: Option<usize>) -> (j: Self)
        requires
            num_partitions != Some(0usize),
        ensures
            j.inv(),
            !j.is_open(),
            j.partitions() == match num_partitions {
                Some(n) => n as int,
                None => DEFAULT_NUM_PARTITIONS as int,
            },
    {
        let n = match num_partitions {
            Some(n) => n,
            None => DEFAULT_NUM_PARTITIONS,
        };
        GraceHashJoin {
            num_partitions: n,
            open: false,
            left_partitions: Vec::new(),
            right_partitions: Vec::new(),
            current_partition: 0,
            current_join_map: HashMap::new(),
            current_right_idx: 0,
            current_match_idx: 0,
            partitions_loaded: false,
        }
    }

    /// Split the inputs into partitions by the hash of their join keys. A
    /// join that is open already stays as it is.
    pub fn open(&mut self, left: &Vec<JoinInput>, right: &Vec<JoinInput>)
        requires
            old(self).inv(),
        ensures
            final(self).inv(),
            final(self).is_open(),
            final(self).partitions() == old(self).partitions(),
            old(self).is_open() ==> final(self).left_parts() == old(self).left_parts()
                && final(self).right_parts() == old(self).right_parts() && final(self).remaining()
                == old(self).remaining(),
            !old(self).is_open() ==> {
                &&& final(self).left_parts() == partitions_of(inputs_view(left@), old(self).partitions())
                &&& final(self).right_parts() == partitions_of(inputs_view(right@), old(self).partitions())
                &&& final(self).remaining() == join_output(
                    inputs_view(left@),
                    inputs_view(right@),
                    old(self).partitions(),
                )
                &&& final(self).remaining().to_multiset() == nested_loop_output(
                    inputs_view(left@),
                    inputs_view(right@),
                ).to_multiset()
            },
    {
        if self.open {
            return;
        }
        let n = self.num_partitions;
        let left_partitions = partition_inputs(left, n);
        let right_partitions = partition_inputs(right, n);
        self.left_partitions = left_partitions;
        self.right_partitions = right_partitions;
        self.open = true;
        proof {
            law_join_is_nested_loop_join(left@, right@, n as int);
        }
    }

    /// Build the join map of left partition `pid` and start probing with the
    /// first right tuple of partition `pid`.
    fn load_partition(&mut self, pid: usize)
        requires
            pid < old(self).left_partitions@.len(),
        ensures
            final(self).num_partitions == old(self).num_partitions,
            final(self).open == old(self).open,
            final(self).left_partitions == old(self).left_partitions,
            final(self).right_partitions == old(self).right_partitions,
            final(self).current_partition == old(self).current_partition,
            final(self).partitions_loaded == old(self).partitions_loaded,
            map_matches(final(self).current_join_map@, final(self).left_parts()[pid as int]),
            final(self).current_right_idx == 0,
            final(self).current_match_idx == 0,
    {
        let mut map: HashMap<u64, Vec<usize>> = HashMap::new();
        let ghost lp = self.left_parts()[pid as int];
        let lpart = &self.left_partitions[pid];
        proof {
            assert(lp == part_view(lpart@));
            assert forall|k: u64| #![auto] bucket_of(lp.take(0), k).len() == 0 by {
                assert(lp.take(0).len() == 0);
            }
        }
        let mut i: usize = 0;
        while i < lpart.len()
            invariant
                lp == part_view(lpart@),
                i <= lpart@.len(),
                map_matches(map@, lp.take(i as int)),
            decreases lpart@.len() - i,
        {
            let key = hash_key(lpart[i].0.as_slice());
            let ghost m0 = map@;
            let mut positions = match map.remove(&key) {
                Some(v) => v,
                None => Vec::new(),
            };
            positions.push(i);
            map.insert(key, positions);
            proof {
                let t0 = lp.take(i as int);
                let t1 = lp.take(i + 1);
                assert(t1.drop_last() =~= t0);
                assert(key_hash(t1.last().0) == key);
                assert forall|k: u64| #![auto] true implies {
                    &&& map@.contains_key(k) ==> map@[k]@.len()
                        == bucket_of(t1, k).len() && forall|a: int|
                        0 <= a < map@[k]@.len() ==> map@[k]@[a] as int
                            == #[trigger] bucket_of(t1, k)[a]
                    &&& !map@.contains_key(k) ==> bucket_of(t1, k).len() == 0
                } by {
                    assert(m0.contains_key(k) ==> m0[k]@.len() == bucket_of(t0, k).len());
                    if k == key {
                        assert(bucket_of(t1, k) == bucket_of(t0, k).push(i as int));
                    } else {
                        assert(bucket_of(t1, k) == bucket_of(t0, k));
                    }
                }
            }
            i = i + 1;
        }
        proof {
            assert(lp.take(lpart@.len() as int) =~= lp);
        }
        self.current_join_map = map;
        self.current_right_idx = 0;
        self.current_match_idx = 0;
    }

    /// The next joined pair, or `None` when the join is done.
    pub fn next(&mut self) -> (res: Option<(Vec<u8>, Vec<u8>)>)
        requires
            old(self).inv(),
            old(self).is_open(),
        ensures
            final(self).inv(),
            final(self).is_open(),
            final(self).partitions() == old(self).partitions(),
            final(self).left_parts() == old(self).left_parts(),
            final(self).right_parts() == old(self).right_parts(),
            old(self).remaining().len() > 0 ==> (res matches Some((l, r)) && (l@, r@) == old(
                self,
            ).remaining()[0] && final(self).remaining() == old(self).remaining().drop_first()),
            old(self).remaining().len() == 0 ==> res is None && final(self).remaining().len() == 0,
    {
        let ghost rem0 = self.remaining();
        let ghost lv = self.left_parts();
        let ghost rv = self.right_parts();
        if !self.partitions_loaded {
            self.load_partition(0);
            self.partitions_loaded = true;
            proof {
                lemma_parts_output_start(lv, rv, 0);
            }
        }
        let n = self.num_partitions;
        let mut result: Option<(Vec<u8>, Vec<u8>)> = None;
        loop
            invariant_except_break
                self.inv(),
                self.open,
                self.partitions_loaded,
                n == self.num_partitions,
                lv == self.left_parts(),
                rv == self.right_parts(),
                self.remaining() == rem0,
                result is None,
            ensures
                self.inv(),
                self.open,
                n == self.num_partitions,
                lv == self.left_parts(),
                rv == self.right_parts(),
                rem0.len() > 0 ==> (result matches Some((l, r)) && (l@, r@) == rem0[0]
                    && self.remaining() == rem0.drop_first()),
                rem0.len() == 0 ==> result is None && self.remaining().len() == 0,
            decreases n - self.current_partition, (if self.current_partition < n {
                rv[self.current_partition as int].len() as int
            } else {
                0
            }) - self.current_right_idx, (if self.current_partition < n
                && self.current_right_idx < rv[self.current_partition as int].len() {
                bucket_of(
                    lv[self.current_partition as int],
                    key_hash(rv[self.current_partition as int][self.current_right_idx as int].0),
                ).len() as int
            } else {
                0
            }) - self.current_match_idx,
        {
            if self.current_partition >= n {
                break;
            }
            let p = self.current_partition;
            let j = self.current_right_idx;
            if j < self.right_partitions[p].len() {
                let h = hash_key(self.right_partitions[p][j].0.as_slice());
                let mi = self.current_match_idx;
                proof {
                    assert(rv[p as int] == part_view(self.right_partitions@[p as int]@));
                    assert(lv[p as int] == part_view(self.left_partitions@[p as int]@));
                    assert(rv[p as int][j as int].0 == self.right_partitions@[p as int]@[j as int].0@);
                    lemma_bucket_of(lv[p as int], h);
                }
                let found: Option<usize> = match self.current_join_map.get(&h) {
                    Some(positions) => {
                        if mi < positions.len() {
                            Some(positions[mi])
                        } else {
                            None
                        }
                    },
                    None => None,
                };
                match found {
                    Some(li) => {
                        let same = bytes_eq(
                            self.left_partitions[p][li].0.as_slice(),
                            self.right_partitions[p][j].0.as_slice(),
                        );
                        self.current_match_idx = mi + 1;
                        if same {
                            proof {
                                lemma_remaining_take(lv, rv, p as int, j as int, mi as int);
                            }
                            let l = vstd::slice::slice_to_vec(self.left_partitions[p][li].1.as_slice());
                            let r = vstd::slice::slice_to_vec(self.right_partitions[p][j].1.as_slice());
                            result = Some((l, r));
                            break;
                        } else {
                            proof {
                                lemma_remaining_skip(lv, rv, p as int, j as int, mi as int);
                            }
                        }
                    },
                    None => {
                        proof {
                            lemma_remaining_next_right(lv, rv, p as int, j as int, mi as int);
                        }
                        self.current_right_idx = j + 1;
                        self.current_match_idx = 0;
                    },
                }
            } else {
                self.current_partition = p + 1;
                if self.current_partition >= n {
                    break;
                }
                self.load_partition(self.current_partition);
                proof {
                    lemma_parts_output_start(lv, rv, p + 1);
                }
            }
        }
        result
    }

    /// Start the output over from the first pair.
    pub fn rewind(&mut self)
        requires
            old(self).inv(),
            old(self).is_open(),
        ensures
            final(self).inv(),
            final(self).is_open(),
            final(self).partitions() == old(self).partitions(),
            final(self).left_parts() == old(self).left_parts(),
            final(self).right_parts() == old(self).right_parts(),
            final(self).remaining() == parts_output(old(self).left_parts(), old(self).right_parts(), 0),
    {
        self.current_partition = 0;
        self.current_join_map.clear();
        self.current_right_idx = 0;
        self.current_match_idx = 0;
        self.partitions_loaded = false;
    }

    /// Drop the partitions and every other part of the state.
    pub fn close(&mut self)
        requires
            old(self).inv(),
        ensures
            final(self).inv(),
            !final(self).is_open(),
            final(self).partitions() == old(self).partitions(),
            final(self).remaining().len() == 0,
    {
        self.current_join_map.clear();
        self.left_partitions = Vec::new();
        self.right_partitions = Vec::new();
        self.current_right_idx = 0;
        self.current_partition = 0;
        self.current_match_idx = 0;
        self.partitions_loaded = false;
        self.open = false;
    }
}

} // verus!
