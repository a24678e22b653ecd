# heapstore

A verified storage layer for a small relational database, written in Verus.

- `src/page.rs`: a page of `PAGE_SIZE` bytes, with little-endian `u16` reads
  and writes.
- `src/heap_page.rs`: the slotted heap page (`HeapPage`). Its contracts speak of
  the page's records: the value held by each slot id, or `None` for a free slot.
  A slot is free when its offset and length are both zero, so an empty value
  is stored like any other. Insertion takes the lowest free slot, deleted
  space is reclaimed by
  compaction, and updates happen in place where the new value is no longer.
  The laws (`law_*`) state what reads give back after writes, how slots are
  reused, how free space is accounted, and that iteration visits every value
  once in slot order.
- `src/heap_file.rs`: a heap file of such pages (`HeapFile`), with page 0 as the
  header page, and its scan (`HeapFileIter`).
- `src/grace_hash_join.rs`: the partition and probe logic of a grace hash
  equi-join over tuples given as bytes, each with the bytes of its join key.
  The library hashes the keys itself with `DefaultHasher`. The laws state
  that every pair it outputs has equal keys and that its output is that of
  the nested-loop equi-join as a multiset, whatever the number of partitions.

`tests/` runs the library on concrete values.
