use grad::heap::EntryHeap;
use grad::occurrences::OccurrenceStore;
use grad::pair_table::{PairSlot, PairTable, COUNT_MASK, EMPTY_PAIR};
use grad::pairs::{mix, pair_ids, pair_key, pair_score};
use grad::token_meta::TokenMeta;

fn meta_with_len(byte_len: u32) -> TokenMeta {
    TokenMeta {
        byte_len,
        word_count: 1,
        starts_non_ws: true,
        ends_non_ws: true,
        mergeable: true,
    }
}

#[test]
fn pair_keys_round_trip() {
    assert_eq!(pair_key(1, 2), 0x0001_0002);
    assert_eq!(pair_key(0xABCD, 0x1234), 0xABCD_1234);
    assert_eq!(pair_ids(0xABCD_1234), (0xABCD, 0x1234));
    assert_eq!(pair_ids(pair_key(300, 7)), (300, 7));
}

#[test]
fn score_is_count_times_root_of_length() {
    let meta = vec![meta_with_len(2), meta_with_len(3)];
    // 4 * sqrt(5) = 8.94...
    assert_eq!(pair_score(pair_key(0, 1), 4, &meta), 8);
    // 3 * sqrt(4) = 6
    assert_eq!(pair_score(pair_key(0, 0), 3, &meta), 6);
    // 1 * sqrt(6) = 2.44...
    assert_eq!(pair_score(pair_key(1, 1), 1, &meta), 2);
    assert_eq!(pair_score(pair_key(1, 1), 0, &meta), 0);
}

#[test]
fn score_rounds_as_double_precision() {
    let meta = vec![meta_with_len(1), meta_with_len(4), meta_with_len(5)];
    // 93222358 * sqrt(2) lies just below 131836323; in doubles it rounds up
    assert_eq!(pair_score(pair_key(0, 0), 93222358, &meta), 131836323);
    assert_eq!(
        pair_score(pair_key(0, 0), 93222358, &meta),
        (93222358f64 * (2f64).sqrt()) as u64
    );
    // 43945441 * sqrt(9) = 131836323 exactly
    assert_eq!(pair_score(pair_key(1, 2), 43945441, &meta), 131836323);
    for (count, a, b) in [(7u32, 0u16, 1u16), (2147483647, 2, 2), (123456789, 1, 2), (99, 0, 2), (1, 0, 0)] {
        let len = meta[a as usize].byte_len + meta[b as usize].byte_len;
        assert_eq!(
            pair_score(pair_key(a, b), count, &meta),
            (count as f64 * (len as f64).sqrt()) as u64
        );
    }
}

#[test]
fn mix_is_the_splitmix_finalizer() {
    assert_eq!(mix(0), 0);
    assert_eq!(mix(1), 0x5692161d100b05e5);
}

#[test]
fn slot_words_keep_count_and_queued_bit() {
    let mut slot = PairSlot { key: 7, count: 0 };
    slot.set_count(5);
    assert_eq!(slot.count(), 5);
    assert!(!slot.queued());
    slot.set_queued(true);
    assert!(slot.queued());
    assert_eq!(slot.count(), 5);
    slot.set_count(COUNT_MASK);
    assert_eq!(slot.count(), COUNT_MASK);
    assert!(slot.queued());
    slot.set_queued(false);
    assert_eq!(slot.count, COUNT_MASK);
}

#[test]
fn table_adds_reads_and_removes_pairs() {
    let mut table = PairTable::with_capacity(4);
    assert_eq!(table.capacity(), 16);
    assert_eq!(table.len(), 0);
    let s = table.get_or_insert(42);
    assert_eq!((s.key, s.count), (42, 0));
    table.set_count_of(42, 3);
    table.set_queued_of(42, true);
    let got = table.get(42).unwrap();
    assert_eq!(got.count(), 3);
    assert!(got.queued());
    assert!(table.get(43).is_none());
    assert_eq!(table.len(), 1);
    table.remove(42);
    assert!(table.get(42).is_none());
    assert_eq!(table.len(), 0);
    assert_eq!(table.slot_at(table.find_slot(42)).key, EMPTY_PAIR);
}

#[test]
fn table_grows_and_keeps_every_pair() {
    let mut table = PairTable::with_capacity(16);
    for k in 0..1000u32 {
        table.get_or_insert(k);
        table.set_count_of(k, k % 97);
    }
    assert_eq!(table.len(), 1000);
    assert!(table.capacity() >= 1000 * 10 / 7);
    for k in 0..1000u32 {
        assert_eq!(table.get(k).unwrap().count(), k % 97);
    }
    for k in (0..1000u32).step_by(2) {
        table.remove(k);
    }
    assert_eq!(table.len(), 500);
    for k in 0..1000u32 {
        assert_eq!(table.get(k).is_some(), k % 2 == 1);
    }
}

#[test]
fn heap_pops_greatest_first() {
    let mut heap = EntryHeap::new();
    heap.push((5, 1, 2));
    heap.push((9, 0, 2));
    heap.push((5, 3, 2));
    heap.push((5, 3, 4));
    heap.push((1, 9, 9));
    assert_eq!(heap.len(), 5);
    assert_eq!(heap.pop(), Some((9, 0, 2)));
    assert_eq!(heap.pop(), Some((5, 3, 4)));
    assert_eq!(heap.pop(), Some((5, 3, 2)));
    assert_eq!(heap.pop(), Some((5, 1, 2)));
    assert_eq!(heap.pop(), Some((1, 9, 9)));
    assert_eq!(heap.pop(), None);
    heap.push((3, 3, 3));
    heap.clear();
    assert_eq!(heap.len(), 0);
    assert_eq!(heap.pop(), None);
}

#[test]
fn occurrence_lists_keep_order_and_count() {
    let mut table = PairTable::with_capacity(16);
    table.get_or_insert(10);
    table.set_count_of(10, 2);
    table.get_or_insert(11);
    table.set_count_of(11, 1);
    table.get_or_insert(12);
    let mut store = OccurrenceStore::from_pairs(&table);
    assert_eq!(store.len(), 3);
    store.append(10, 4).unwrap();
    store.append(10, 1).unwrap();
    store.append(13, 9).unwrap();
    assert_eq!(store.len(), 6);
    assert_eq!(store.take(10), vec![4, 1]);
    assert_eq!(store.len(), 4);
    assert_eq!(store.take(10), Vec::<u32>::new());
    store.remove(13);
    assert_eq!(store.len(), 3);
    assert_eq!(store.take(11), Vec::<u32>::new());
}

#[test]
fn compaction_keeps_live_positions() {
    // tokens a b a b with links 0 -> 1 -> 2 -> 3
    let tokens = vec![1u16, 2, 1, 2];
    let next = vec![1u32, 2, 3, u32::MAX];
    let mut table = PairTable::with_capacity(16);
    let ab = pair_key(1, 2);
    let ba = pair_key(2, 1);
    table.get_or_insert(ab);
    table.set_count_of(ab, 2);
    let mut store = OccurrenceStore::from_pairs(&table);
    store.append(ab, 0).unwrap();
    store.append(ab, 1).unwrap();
    store.append(ab, 2).unwrap();
    store.append(ba, 1).unwrap();
    store.compact(&table, &tokens, &next);
    assert_eq!(store.len(), 2);
    assert_eq!(store.take(ab), vec![0, 2]);
    assert_eq!(store.take(ba), Vec::<u32>::new());
}
