use heapstore::grace_hash_join::{get_partition_id, hash_key, GraceHashJoin, JoinInput};
use std::collections::hash_map::DefaultHasher;
use std::hash::{Hash, Hasher};

// The test table: (a, b, c, d), joined on left(a + b) == right(c).
fn rows() -> Vec<(i64, i64, i64, &'static str)> {
    vec![
        (1, 1, 3, "E"),
        (2, 1, 3, "G"),
        (3, 1, 4, "A"),
        (4, 2, 4, "G"),
        (5, 2, 5, "G"),
        (6, 2, 5, "G"),
    ]
}

fn encode(r: &(i64, i64, i64, &str)) -> Vec<u8> {
    format!("{} {} {} {}", r.0, r.1, r.2, r.3).into_bytes()
}

// Join keys are fields; a key's hash is that of the field holding it.
#[allow(dead_code)]
#[derive(Hash)]
enum Field {
    SmallInt(i16),
    Int(i32),
    BigInt(i64),
    String(String),
}

fn field_hash(k: i64) -> u64 {
    let mut h = DefaultHasher::new();
    Field::BigInt(k).hash(&mut h);
    h.finish()
}

// The bytes a `Field::BigInt` key feeds a hasher: its variant's index, then
// the integer.
fn key_bytes(k: i64) -> Vec<u8> {
    let mut b = (2isize).to_ne_bytes().to_vec();
    b.extend_from_slice(&k.to_ne_bytes());
    b
}

fn input(key: impl Fn(&(i64, i64, i64, &str)) -> i64) -> Vec<JoinInput> {
    rows()
        .iter()
        .map(|r| JoinInput { key: key_bytes(key(r)), bytes: encode(r) })
        .collect()
}

fn run(join: &mut GraceHashJoin) -> Vec<(Vec<u8>, Vec<u8>)> {
    let mut out = Vec::new();
    while let Some(pair) = join.next() {
        out.push(pair);
    }
    out
}

fn opened(num_partitions: usize) -> GraceHashJoin {
    let mut join = GraceHashJoin::new(Some(num_partitions));
    join.open(&input(|r| r.0 + r.1), &input(|r| r.2));
    join
}

#[test]
fn test_join() {
    let mut join = opened(4);
    let t = run(&mut join);
    let r = rows();
    // left(2,1,3,G) matches right(1,1,3,E) and right(2,1,3,G);
    // left(3,1,4,A) matches right(3,1,4,A) and right(4,2,4,G).
    let expected = vec![
        (encode(&r[1]), encode(&r[0])),
        (encode(&r[1]), encode(&r[1])),
        (encode(&r[2]), encode(&r[2])),
        (encode(&r[2]), encode(&r[3])),
    ];
    assert_eq!(t.len(), 4);
    assert_eq!(t[0], expected[0]);
    assert_eq!(t[1], expected[1]);
    assert_eq!(t[2], expected[2]);
    assert_eq!(t[3], expected[3]);
}

#[test]
fn test_open() {
    let mut join = GraceHashJoin::new(Some(4));
    join.open(&input(|r| r.0 + r.1), &input(|r| r.2));
    // Opening again changes nothing.
    join.open(&Vec::new(), &Vec::new());
    assert_eq!(run(&mut join).len(), 4);
}

#[test]
fn test_close() {
    let mut join = opened(4);
    join.close();
}

#[test]
fn test_rewind() {
    let mut join = opened(4);
    let t_before = run(&mut join);
    join.rewind();
    let t_after = run(&mut join);
    assert_eq!(t_before, t_after);
}

#[test]
fn partition_id_is_hash_mod_partitions() {
    for k in [0i64, 1, 3, 4, 5, -7, i64::MAX] {
        let key = key_bytes(k);
        let h = hash_key(&key);
        assert_eq!(h, field_hash(k));
        assert_eq!(get_partition_id(&key, 4), (h % 4) as usize);
        assert_eq!(get_partition_id(&key, 1), 0);
    }
    let mut h = DefaultHasher::new();
    h.write(b"abc");
    assert_eq!(hash_key(b"abc"), h.finish());
    assert_ne!(hash_key(b"abc"), hash_key(b"abd"));
}

#[test]
fn output_is_partition_major_in_right_order() {
    let mk = |key: &[u8], b: u8| JoinInput { key: key.to_vec(), bytes: vec![b] };
    let keys: [&[u8]; 4] = [b"one", b"two", b"three", b"four"];
    let left = vec![mk(keys[0], 10), mk(keys[1], 20), mk(keys[0], 11), mk(keys[3], 12)];
    let right = vec![
        mk(keys[0], 30),
        mk(keys[1], 40),
        mk(keys[2], 50),
        mk(keys[0], 31),
        mk(keys[3], 32),
    ];
    let n = 3;
    // Partition by partition, each right tuple in turn meets the left tuples
    // of its key, in their order.
    let mut expected = Vec::new();
    for p in 0..n {
        for r in right.iter().filter(|r| get_partition_id(&r.key, n) == p) {
            for l in left.iter().filter(|l| get_partition_id(&l.key, n) == p && l.key == r.key) {
                expected.push((l.bytes.clone(), r.bytes.clone()));
            }
        }
    }
    assert_eq!(expected.len(), 6);
    let mut join = GraceHashJoin::new(Some(n));
    join.open(&left, &right);
    let t = run(&mut join);
    assert_eq!(t, expected);
    assert_eq!(join.next(), None);
}

#[test]
fn join_is_nested_loop_join_for_each_partition_count() {
    let left = input(|r| r.0 + r.1);
    let right = input(|r| r.2);
    let mut nested = Vec::new();
    for l in &left {
        for r in &right {
            if l.key == r.key {
                nested.push((l.bytes.clone(), r.bytes.clone()));
            }
        }
    }
    nested.sort();
    for n in [1usize, 2, 3, 4, 7, 10] {
        let mut t = run(&mut opened(n));
        t.sort();
        assert_eq!(t, nested);
    }
}

#[test]
fn reopen_after_close_gives_same_output() {
    let mut join = opened(3);
    let mut first = run(&mut join);
    join.close();
    join.open(&input(|r| r.0 + r.1), &input(|r| r.2));
    let mut second = run(&mut join);
    first.sort();
    second.sort();
    assert_eq!(first, second);
    assert_eq!(first.len(), 4);
}

#[test]
fn default_partitions_and_empty_inputs() {
    let mut join = GraceHashJoin::new(None);
    join.open(&Vec::new(), &input(|r| r.2));
    assert_eq!(join.next(), None);
    join.close();
    join.open(&input(|r| r.2), &input(|r| r.2));
    // Keys 3, 3, 4, 4, 5, 5 on both sides: 2 * 2 pairs per key.
    assert_eq!(run(&mut join).len(), 12);
}

