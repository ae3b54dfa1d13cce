use chunky::{
    read_word, write_word, Arena, ArenaIndex, ChunkStorage, HeapStorage, Ident, MultiArena,
    MultiArenaIndex, Queue, StorageError, Value, Vector,
};

fn ident(s: &str) -> Ident {
    Ident(s.to_string())
}

fn u32_at(arena: &Arena, i: usize) -> u32 {
    let b = arena.at(ArenaIndex(i));
    u32::from_le_bytes([b[0], b[1], b[2], b[3]])
}

#[test]
fn ident_sub_joins_with_underscore() {
    let root = ident("world");
    assert_eq!(root.sub("len").0, "world_len");
    assert_eq!(root.sub_index(0).0, "world_0");
    assert_eq!(root.sub_index(1234).0, "world_1234");
    assert_eq!(root.sub("bin_sizes").sub("len").0, "world_bin_sizes_len");
}

#[test]
fn word_codec_round_trips_little_endian() {
    let mut b = vec![0xAAu8; 12];
    write_word(&mut b, 2, 0x0102_0304_0506_0708);
    assert_eq!(read_word(&b, 2), 0x0102_0304_0506_0708);
    assert_eq!(&b[2..10], &[8, 7, 6, 5, 4, 3, 2, 1]);
    assert_eq!(b[0], 0xAA);
    assert_eq!(b[10], 0xAA);
}

#[test]
fn heap_storage_persists_nothing() {
    let s = HeapStorage::new();
    let c = s.create_chunk(ident("c"), 10).unwrap();
    assert_eq!(c.len(), 10);
    let (c2, created) = s.load_or_create_chunk(ident("c"), 4).unwrap();
    assert!(created);
    assert_eq!(c2.len(), 4);
    assert_eq!(s.load_chunk(ident("c")).err(), Some(StorageError::NotPersistent));
}

#[test]
fn value_starts_with_default() {
    let s = HeapStorage::new();
    let mut v = Value::load_or_default(ident("v"), &[7, 9], &s).unwrap();
    assert_eq!(v.len(), 2);
    assert_eq!(v.get(0), 7);
    assert_eq!(v.get(1), 9);
    v.set(1, 42);
    assert_eq!(v.get(0), 7);
    assert_eq!(v.get(1), 42);
}

#[test]
fn arena_five_u32_items_in_two_chunks() {
    let s = HeapStorage::new();
    let mut a = Arena::new(ident("a"), 16, 4, &s).unwrap();
    for x in [10u32, 20, 30, 40, 50] {
        let i = a.push(&s).unwrap();
        a.at_mut(i, &x.to_le_bytes());
    }
    assert_eq!(a.len(), 5);
    assert_eq!(a.chunk_count(), 2);
    assert_eq!(u32_at(&a, 4), 50);
    let moved = a.swap_remove(ArenaIndex(1), &s).unwrap();
    assert_eq!(moved, Some(ArenaIndex(1)));
    assert_eq!(u32_at(&a, 1), 50);
    assert_eq!(a.len(), 4);
    assert_eq!(a.chunk_count(), 1);
}

#[test]
fn arena_reads_back_pushed_bytes() {
    let s = HeapStorage::new();
    let mut a = Arena::new(ident("rt"), 24, 8, &s).unwrap();
    let n = 10usize;
    for k in 0..n {
        let i = a.push(&s).unwrap();
        assert_eq!(i, ArenaIndex(k));
        let pattern: Vec<u8> = (0..8).map(|j| (k * 16 + j) as u8).collect();
        a.at_mut(i, &pattern);
    }
    for k in 0..n {
        let expected: Vec<u8> = (0..8).map(|j| (k * 16 + j) as u8).collect();
        assert_eq!(a.at(ArenaIndex(k)), &expected[..]);
    }
    let last: Vec<u8> = a.at(ArenaIndex(n - 1)).to_vec();
    assert_eq!(a.swap_remove(ArenaIndex(3), &s).unwrap(), Some(ArenaIndex(3)));
    assert_eq!(a.at(ArenaIndex(3)), &last[..]);
    assert_eq!(a.len(), n - 1);
    assert_eq!(a.chunk_count(), 3);
}

#[test]
fn arena_short_write_keeps_rest_of_slot() {
    let s = HeapStorage::new();
    let mut a = Arena::new(ident("sw"), 8, 4, &s).unwrap();
    let i = a.push(&s).unwrap();
    a.at_mut(i, &[1, 2, 3, 4]);
    a.at_mut(i, &[9]);
    assert_eq!(a.at(i), &[9, 2, 3, 4]);
}

#[test]
fn arena_swap_remove_of_last_just_pops() {
    let s = HeapStorage::new();
    let mut a = Arena::new(ident("last"), 8, 4, &s).unwrap();
    a.push(&s).unwrap();
    a.push(&s).unwrap();
    a.push(&s).unwrap();
    assert_eq!(a.chunk_count(), 2);
    assert_eq!(a.swap_remove(ArenaIndex(2), &s).unwrap(), None);
    assert_eq!(a.len(), 2);
    assert_eq!(a.chunk_count(), 1);
    a.pop_away(&s).unwrap();
    a.pop_away(&s).unwrap();
    assert!(a.is_empty());
    assert_eq!(a.chunk_count(), 0);
}

#[test]
fn arena_chunk_count_is_ceiling_of_len() {
    let s = HeapStorage::new();
    let mut a = Arena::new(ident("cc"), 10, 3, &s).unwrap();
    for k in 1..=10usize {
        a.push(&s).unwrap();
        assert_eq!(a.chunk_count(), (k + 2) / 3);
    }
}

#[test]
fn queue_three_payloads_across_chunks() {
    let s = HeapStorage::new();
    let mut q = Queue::new(&ident("q"), 64, &s).unwrap();
    let a = vec![1u8; 8];
    let b: Vec<u8> = (0..40).collect();
    let c = vec![3u8; 8];
    q.enqueue(&a, &s).unwrap();
    assert_eq!(q.chunk_count(), 1);
    q.enqueue(&b, &s).unwrap();
    assert_eq!(q.chunk_count(), 2);
    q.enqueue(&c, &s).unwrap();
    assert_eq!(q.len(), 3);
    assert_eq!(q.dequeue(), Some(a));
    assert_eq!(q.dequeue(), Some(b));
    assert_eq!(q.pending_drop_count(), 1);
    assert_eq!(q.dequeue(), Some(c));
    assert_eq!(q.dequeue(), None);
    assert!(q.is_empty());
    q.drop_old_chunks(&s).unwrap();
    assert_eq!(q.pending_drop_count(), 0);
}

#[test]
fn queue_of_nothing_dequeues_nothing() {
    let s = HeapStorage::new();
    let mut q = Queue::new(&ident("e"), 64, &s).unwrap();
    assert_eq!(q.dequeue(), None);
    assert_eq!(q.len(), 0);
    assert_eq!(q.chunk_count(), 0);
}

#[test]
fn queue_keeps_fifo_order_when_interleaved() {
    let s = HeapStorage::new();
    let mut q = Queue::new(&ident("fifo"), 48, &s).unwrap();
    let mut expected = std::collections::VecDeque::new();
    for round in 0..30usize {
        let p: Vec<u8> = (0..(round % 13)).map(|j| (round + j) as u8).collect();
        q.enqueue(&p, &s).unwrap();
        expected.push_back(p);
        if round % 3 == 2 {
            assert_eq!(q.dequeue(), expected.pop_front());
        }
    }
    while let Some(p) = expected.pop_front() {
        assert_eq!(q.dequeue(), Some(p));
    }
    assert_eq!(q.dequeue(), None);
}

#[test]
fn queue_payload_that_exactly_fills_a_chunk() {
    let s = HeapStorage::new();
    let mut q = Queue::new(&ident("fill"), 32, &s).unwrap();
    let p = vec![5u8; 16];
    q.enqueue(&p, &s).unwrap();
    assert_eq!(q.chunk_count(), 1);
    q.enqueue(&[], &s).unwrap();
    assert_eq!(q.chunk_count(), 2);
    assert_eq!(q.dequeue(), Some(p));
    assert_eq!(q.dequeue(), Some(vec![]));
}

#[test]
fn queue_large_payload_gets_a_larger_chunk() {
    let s = HeapStorage::new();
    let mut q = Queue::new(&ident("big"), 16, &s).unwrap();
    let p: Vec<u8> = (0..100).collect();
    q.enqueue(&p, &s).unwrap();
    assert_eq!(q.dequeue(), Some(p));
}

#[test]
fn multi_arena_sizes_land_in_power_of_two_bins() {
    let s = HeapStorage::new();
    let mut m = MultiArena::new(ident("m"), 128, 8, &s).unwrap();
    let i3 = m.push(3, &s).unwrap();
    let i9 = m.push(9, &s).unwrap();
    let i17 = m.push(17, &s).unwrap();
    assert_eq!(i3, MultiArenaIndex(0, ArenaIndex(0)));
    assert_eq!(i9, MultiArenaIndex(1, ArenaIndex(0)));
    assert_eq!(i17, MultiArenaIndex(2, ArenaIndex(0)));
    assert_eq!(m.at(i3).len(), 8);
    assert_eq!(m.at(i9).len(), 16);
    assert_eq!(m.at(i17).len(), 32);
    assert_eq!(m.populated_bin_indices_and_lens(), vec![(0, 1), (1, 1), (2, 1)]);
}

#[test]
fn multi_arena_size_to_index() {
    let s = HeapStorage::new();
    let m = MultiArena::new(ident("idx"), 128, 8, &s).unwrap();
    assert_eq!(m.size_to_index(0), 0);
    assert_eq!(m.size_to_index(1), 0);
    assert_eq!(m.size_to_index(8), 0);
    assert_eq!(m.size_to_index(9), 1);
    assert_eq!(m.size_to_index(16), 1);
    assert_eq!(m.size_to_index(17), 2);
    assert_eq!(m.size_to_index(33), 3);
    assert_eq!(m.size_to_index(8 * 1024), 10);
    assert_eq!(m.size_to_index(8 * 1024 + 1), 11);
    assert_eq!(m.size_to_index(usize::MAX), 61);
}

#[test]
fn multi_arena_sizes_of_one_bin_share_it() {
    let s = HeapStorage::new();
    let mut m = MultiArena::new(ident("share"), 64, 4, &s).unwrap();
    let a = m.push(5, &s).unwrap();
    let b = m.push(8, &s).unwrap();
    assert_eq!(a.0, 1);
    assert_eq!(b.0, 1);
    assert_eq!(b.1, ArenaIndex(1));
    assert_eq!(m.bin_len(1), 2);
    m.at_mut(a, &[1, 2, 3, 4, 5]);
    m.at_mut(b, &[9, 9, 9, 9, 9, 9, 9, 9]);
    assert_eq!(m.swap_remove_within_bin(a, &s).unwrap(), Some(ArenaIndex(0)));
    assert_eq!(m.at(MultiArenaIndex(1, ArenaIndex(0))), &[9, 9, 9, 9, 9, 9, 9, 9]);
    assert_eq!(m.bin_len(1), 1);
    assert_eq!(m.populated_bin_indices_and_lens(), vec![(1, 1)]);
}

#[test]
fn vector_push_pop_and_overwrite() {
    let s = HeapStorage::new();
    let mut v = Vector::new(ident("vec"), 16, &s).unwrap();
    assert!(v.is_empty());
    for x in [5u64, 6, 7, 8, 9] {
        v.push(x, &s).unwrap();
    }
    assert_eq!(v.len(), 5);
    assert_eq!(v.at(2), Some(7));
    assert_eq!(v.at(5), None);
    assert!(v.at_mut(2, 70));
    assert!(!v.at_mut(9, 1));
    assert_eq!(v.at(2), Some(70));
    assert_eq!(v.pop(&s).unwrap(), Some(9));
    assert_eq!(v.len(), 4);
    for _ in 0..4 {
        v.pop(&s).unwrap();
    }
    assert_eq!(v.pop(&s).unwrap(), None);
}

#[test]
fn value_from_chunk_created_and_loaded() {
    let fresh = chunky::Chunk { ident: ident("v"), bytes: vec![0xFF; 16] };
    let v = Value::from_chunk(fresh, true, &[3, 4]).unwrap();
    assert_eq!((v.get(0), v.get(1)), (3, 4));
    let mut bytes = vec![0u8; 8];
    write_word(&mut bytes, 0, 77);
    let loaded = chunky::Chunk { ident: ident("v"), bytes };
    let v = Value::from_chunk(loaded, false, &[0]).unwrap();
    assert_eq!(v.get(0), 77);
    let short = chunky::Chunk { ident: ident("v"), bytes: vec![0; 7] };
    assert_eq!(Value::from_chunk(short, false, &[0]).err(), Some(StorageError::Corrupt));
}

#[test]
fn arena_from_parts_reads_slots_and_rejects_short_chunks() {
    let mut len_bytes = vec![0u8; 8];
    write_word(&mut len_bytes, 0, 3);
    let len = Value::from_chunk(chunky::Chunk { ident: ident("p_len"), bytes: len_bytes.clone() }, false, &[0]).unwrap();
    let c0 = chunky::Chunk { ident: ident("p_0"), bytes: vec![1, 1, 2, 2] };
    let c1 = chunky::Chunk { ident: ident("p_2"), bytes: vec![3, 3, 0, 0] };
    let a = Arena::from_parts(ident("p"), 4, 2, len, vec![c0, c1]).unwrap();
    assert_eq!(a.len(), 3);
    assert_eq!(a.at(ArenaIndex(1)), &[2, 2]);
    assert_eq!(a.at(ArenaIndex(2)), &[3, 3]);
    let len = Value::from_chunk(chunky::Chunk { ident: ident("p_len"), bytes: len_bytes }, false, &[0]).unwrap();
    let c0 = chunky::Chunk { ident: ident("p_0"), bytes: vec![1, 1, 2, 2] };
    let c1 = chunky::Chunk { ident: ident("p_2"), bytes: vec![3, 3, 0] };
    assert_eq!(Arena::from_parts(ident("p"), 4, 2, len, vec![c0, c1]).err(), Some(StorageError::Corrupt));
}

#[test]
fn bin_sizes_must_be_distinct_slot_sizes() {
    let s = HeapStorage::new();
    let mut v = Vector::new(ident("bs"), 64, &s).unwrap();
    assert!(chunky::multi_arena::check_bin_sizes(&v, 8));
    v.push(8, &s).unwrap();
    v.push(32, &s).unwrap();
    assert!(chunky::multi_arena::check_bin_sizes(&v, 8));
    v.push(32, &s).unwrap();
    assert!(!chunky::multi_arena::check_bin_sizes(&v, 8));
    v.pop(&s).unwrap();
    v.push(24, &s).unwrap();
    assert!(!chunky::multi_arena::check_bin_sizes(&v, 8));
    v.pop(&s).unwrap();
    v.push(16, &s).unwrap();
    assert!(chunky::multi_arena::check_bin_sizes(&v, 8));
    assert!(!chunky::multi_arena::check_bin_sizes(&v, 3));
}

#[test]
fn drop_old_chunks_with_nothing_pending_succeeds() {
    let s = HeapStorage::new();
    let mut q = Queue::new(&ident("nd"), 64, &s).unwrap();
    q.enqueue(&[1, 2, 3], &s).unwrap();
    assert!(q.drop_old_chunks(&s).is_ok());
    assert_eq!(q.len(), 1);
}

fn state_value(words: &[u64]) -> Value {
    let mut bytes = vec![0u8; 8 * words.len()];
    for (i, w) in words.iter().enumerate() {
        write_word(&mut bytes, 8 * i, *w);
    }
    Value::from_chunk(chunky::Chunk { ident: ident("fq_q_state"), bytes }, false, &[0, 0, 0, 0, 0]).unwrap()
}

#[test]
fn queue_from_parts_reads_records_and_rejects_broken_ones() {
    let mut bytes = vec![0u8; 32];
    write_word(&mut bytes, 0, 16);
    bytes[8..16].copy_from_slice(&[4, 5, 6, 7, 8, 9, 10, 11]);
    let chunk = chunky::Chunk { ident: ident("fq_0"), bytes: bytes.clone() };
    let mut q = Queue::from_parts(&ident("fq"), 64, state_value(&[0, 0, 0, 16, 1]), vec![chunk]).unwrap();
    assert_eq!(q.len(), 1);
    assert_eq!(q.dequeue(), Some(vec![4, 5, 6, 7, 8, 9, 10, 11]));
    assert_eq!(q.dequeue(), None);
    // count disagrees with the records
    let chunk = chunky::Chunk { ident: ident("fq_0"), bytes: bytes.clone() };
    let r = Queue::from_parts(&ident("fq"), 64, state_value(&[0, 0, 0, 16, 2]), vec![chunk]);
    assert_eq!(r.err(), Some(StorageError::Corrupt));
    // header does not lead to the write cursor
    write_word(&mut bytes, 0, 20);
    let chunk = chunky::Chunk { ident: ident("fq_0"), bytes };
    let r = Queue::from_parts(&ident("fq"), 64, state_value(&[0, 0, 0, 16, 1]), vec![chunk]);
    assert_eq!(r.err(), Some(StorageError::Corrupt));
}
