use chunky::{
    Arena, ArenaIndex, Chunk, ChunkStorage, Ident, MultiArena, MultiArenaIndex, Queue,
    StorageError, Value, Vector,
};
use std::cell::RefCell;
use std::collections::HashMap;

/// A storage that keeps every chunk's bytes in memory under its name, the way a file-backed
/// storage keeps them in files.
struct MemStorage {
    files: RefCell<HashMap<String, Vec<u8>>>,
}

impl MemStorage {
    fn new() -> MemStorage {
        MemStorage { files: RefCell::new(HashMap::new()) }
    }

    fn has(&self, name: &str) -> bool {
        self.files.borrow().contains_key(name)
    }

    fn names(&self) -> Vec<String> {
        let mut v: Vec<String> = self.files.borrow().keys().cloned().collect();
        v.sort();
        v
    }
}

impl ChunkStorage for MemStorage {
    /// Chunks persist between openings, so this storage is not volatile.
    fn spec_volatile(&self) -> bool {
        false
    }

    fn create_chunk(&self, ident: Ident, size: usize) -> Result<Chunk, StorageError> {
        let mut files = self.files.borrow_mut();
        if files.contains_key(&ident.0) {
            return Err(StorageError::AlreadyExists);
        }
        files.insert(ident.0.clone(), vec![0; size]);
        Ok(Chunk { ident, bytes: vec![0; size] })
    }

    fn load_or_create_chunk(&self, ident: Ident, size: usize) -> Result<(Chunk, bool), StorageError> {
        let existing = self.files.borrow().get(&ident.0).cloned();
        match existing {
            Some(bytes) => Ok((Chunk { ident, bytes }, false)),
            None => self.create_chunk(ident, size).map(|c| (c, true)),
        }
    }

    fn load_chunk(&self, ident: Ident) -> Result<Chunk, StorageError> {
        let existing = self.files.borrow().get(&ident.0).cloned();
        match existing {
            Some(bytes) => Ok(Chunk { ident, bytes }),
            None => Err(StorageError::NotFound),
        }
    }

    fn unload_chunk(&self, chunk: &Chunk) -> Result<(), StorageError> {
        self.files.borrow_mut().insert(chunk.ident.0.clone(), chunk.bytes.clone());
        Ok(())
    }

    fn forget_chunk(&self, chunk: &Chunk) -> Result<(), StorageError> {
        match self.files.borrow_mut().remove(&chunk.ident.0) {
            Some(_) => Ok(()),
            None => Err(StorageError::NotFound),
        }
    }
}

fn ident(s: &str) -> Ident {
    Ident(s.to_string())
}

#[test]
fn value_counter_survives_reload_and_forget_deletes_it() {
    let s = MemStorage::new();
    let mut v = Value::load_or_default(ident("counter"), &[0], &s).unwrap();
    assert_eq!(v.get(0), 0);
    v.set(0, 42);
    v.unload(&s).unwrap();
    drop(v);
    let v = Value::load_or_default(ident("counter"), &[0], &s).unwrap();
    assert_eq!(v.get(0), 42);
    assert!(s.has("counter"));
    v.forget(&s).unwrap();
    assert!(!s.has("counter"));
}

#[test]
fn value_too_short_to_hold_its_words_is_corrupt() {
    let s = MemStorage::new();
    s.files.borrow_mut().insert("short".to_string(), vec![1, 2, 3]);
    let r = Value::load_or_default(ident("short"), &[0], &s);
    assert_eq!(r.err(), Some(StorageError::Corrupt));
}

#[test]
fn arena_of_six_items_reloads_two_chunks() {
    let s = MemStorage::new();
    let mut a = Arena::new(ident("R"), 32, 8, &s).unwrap();
    for k in 0..6u64 {
        let i = a.push(&s).unwrap();
        a.at_mut(i, &(k * 1000 + 7).to_le_bytes());
    }
    a.unload(&s).unwrap();
    drop(a);
    assert_eq!(s.names(), vec!["R_0", "R_4", "R_len"]);
    let a = Arena::new(ident("R"), 32, 8, &s).unwrap();
    assert_eq!(a.len(), 6);
    assert_eq!(a.chunk_count(), 2);
    for k in 0..6u64 {
        assert_eq!(a.at(ArenaIndex(k as usize)), &(k * 1000 + 7).to_le_bytes()[..]);
    }
}

#[test]
fn arena_grows_after_reload_with_new_chunks() {
    let s = MemStorage::new();
    let mut a = Arena::new(ident("G"), 16, 8, &s).unwrap();
    a.push(&s).unwrap();
    a.unload(&s).unwrap();
    drop(a);
    let mut a = Arena::new(ident("G"), 16, 8, &s).unwrap();
    a.push(&s).unwrap();
    a.push(&s).unwrap();
    assert_eq!(a.len(), 3);
    assert!(s.has("G_2"));
    a.pop_away(&s).unwrap();
    assert!(!s.has("G_2"));
}

#[test]
fn arena_missing_chunk_is_reported() {
    let s = MemStorage::new();
    let mut a = Arena::new(ident("M"), 16, 8, &s).unwrap();
    a.push(&s).unwrap();
    a.unload(&s).unwrap();
    drop(a);
    s.files.borrow_mut().remove("M_0");
    assert_eq!(Arena::new(ident("M"), 16, 8, &s).err(), Some(StorageError::NotFound));
}

#[test]
fn queue_drop_old_chunks_deletes_the_first_chunk() {
    let s = MemStorage::new();
    let mut q = Queue::new(&ident("q"), 64, &s).unwrap();
    q.enqueue(&[1; 8], &s).unwrap();
    q.enqueue(&[2; 40], &s).unwrap();
    assert!(s.has("q_0"));
    assert!(s.has("q_64"));
    assert_eq!(q.dequeue(), Some(vec![1; 8]));
    assert_eq!(q.dequeue(), Some(vec![2; 40]));
    assert!(s.has("q_0"));
    q.drop_old_chunks(&s).unwrap();
    assert!(!s.has("q_0"));
    assert!(s.has("q_64"));
}

#[test]
fn queue_reload_continues_after_first_jump() {
    let s = MemStorage::new();
    let mut q = Queue::new(&ident("Q"), 40, &s).unwrap();
    let mut sent: Vec<Vec<u8>> = Vec::new();
    let mut k = 0u8;
    while q.chunk_count() < 3 {
        let p = vec![k; 10];
        q.enqueue(&p, &s).unwrap();
        sent.push(p);
        k += 1;
    }
    // Read everything in the first chunk and step over its jump marker.
    let mut got: Vec<Vec<u8>> = Vec::new();
    while q.pending_drop_count() == 0 {
        got.push(q.dequeue().unwrap());
    }
    q.unload(&s).unwrap();
    drop(q);
    let mut q = Queue::new(&ident("Q"), 40, &s).unwrap();
    assert_eq!(q.chunk_count(), 2);
    assert_eq!(q.len(), sent.len() - got.len());
    while let Some(p) = q.dequeue() {
        got.push(p);
    }
    assert_eq!(got, sent);
    assert!(s.has("Q_0"));
}

#[test]
fn queue_reload_rejects_inconsistent_state() {
    let s = MemStorage::new();
    let mut state = Value::load_or_default(ident("bad_q_state"), &[0, 0, 0, 0, 0], &s).unwrap();
    // read cursor after the write cursor
    state.set(2, 16);
    state.set(3, 8);
    state.unload(&s).unwrap();
    assert_eq!(Queue::new(&ident("bad"), 64, &s).err(), Some(StorageError::Corrupt));
}

#[test]
fn queue_reload_rejects_broken_records() {
    let s = MemStorage::new();
    let mut q = Queue::new(&ident("br"), 64, &s).unwrap();
    q.enqueue(&[1; 8], &s).unwrap();
    q.unload(&s).unwrap();
    drop(q);
    // a header claiming more bytes than the chunk has
    s.files.borrow_mut().get_mut("br_0").unwrap()[0] = 200;
    assert_eq!(Queue::new(&ident("br"), 64, &s).err(), Some(StorageError::Corrupt));
}

#[test]
fn multi_arena_reopens_recorded_bins_once() {
    let s = MemStorage::new();
    let mut m = MultiArena::new(ident("MA"), 128, 8, &s).unwrap();
    let a = m.push(3, &s).unwrap();
    let b = m.push(20, &s).unwrap();
    m.at_mut(a, &[7; 8]);
    m.at_mut(b, &[9; 32]);
    m.unload(&s).unwrap();
    drop(m);
    for _ in 0..2 {
        let m = MultiArena::new(ident("MA"), 128, 8, &s).unwrap();
        assert_eq!(m.populated_bin_indices_and_lens(), vec![(0, 1), (2, 1)]);
        assert_eq!(m.at(MultiArenaIndex(0, ArenaIndex(0))), &[7; 8]);
        assert_eq!(m.at(MultiArenaIndex(2, ArenaIndex(0))), &[9; 32]);
        m.unload(&s).unwrap();
    }
    let sizes = Vector::new(ident("MA_bin_sizes"), 1024, &s).unwrap();
    assert_eq!(sizes.len(), 2);
    assert_eq!(sizes.at(0), Some(8));
    assert_eq!(sizes.at(1), Some(32));
    assert!(s.has("MA_8_0"));
    assert!(s.has("MA_32_0"));
}

#[test]
fn multi_arena_rejects_a_size_that_is_no_slot_size() {
    let s = MemStorage::new();
    let mut sizes = Vector::new(ident("X_bin_sizes"), 1024, &s).unwrap();
    sizes.push(12, &s).unwrap();
    sizes.unload(&s).unwrap();
    assert_eq!(MultiArena::new(ident("X"), 128, 8, &s).err(), Some(StorageError::Corrupt));
}

#[test]
fn create_chunk_refuses_an_existing_name() {
    let s = MemStorage::new();
    s.create_chunk(ident("dup"), 4).unwrap();
    assert_eq!(s.create_chunk(ident("dup"), 4).err(), Some(StorageError::AlreadyExists));
}
