use bitcask::engine::{Engine, LogWrite};
use bitcask::entry::Entry;
use bitcask::error::EngineError;

fn apply(file: &mut Vec<u8>, writes: Vec<LogWrite>) {
    for w in writes {
        let start = w.offset as usize;
        let end = start + w.bytes.len();
        if file.len() < end {
            file.resize(end, 0);
        }
        file[start..end].copy_from_slice(&w.bytes);
    }
}

fn put(engine: &mut Engine, file: &mut Vec<u8>, key: &str, value: &str) -> usize {
    let entry = Entry::new(key.as_bytes().to_vec(), value.as_bytes().to_vec());
    let prior = match engine.locate(&entry.key) {
        Ok(loc) => Some(file[loc.offset as usize..(loc.offset + loc.size) as usize].to_vec()),
        Err(_) => None,
    };
    let writes = engine.insert(entry, prior).unwrap();
    let n = writes.len();
    apply(file, writes);
    n
}

fn get(engine: &Engine, file: &Vec<u8>, key: &str) -> Result<Entry, EngineError> {
    let loc = engine.locate(&key.as_bytes().to_vec())?;
    Entry::from_bytes(&file[loc.offset as usize..(loc.offset + loc.size) as usize].to_vec())
}

#[test]
fn write_then_read() {
    let mut engine = Engine::new();
    let mut file = Vec::new();
    assert_eq!(put(&mut engine, &mut file, "Hello", "Jinkies"), 1);
    let found = get(&engine, &file, "Hello").unwrap();
    assert_eq!(found.value, b"Jinkies".to_vec());
    assert!(found.is_active());
    assert_eq!(engine.next_offset(), 53);
    assert_eq!(file.len(), 53);
}

#[test]
fn write_then_read_empty_key_and_value() {
    let mut engine = Engine::new();
    let mut file = Vec::new();
    put(&mut engine, &mut file, "", "");
    let found = get(&engine, &file, "").unwrap();
    assert!(found.value.is_empty());
    assert!(found.is_active());
}

#[test]
fn supersede_tombstones_the_old_record() {
    let mut engine = Engine::new();
    let mut file = Vec::new();
    put(&mut engine, &mut file, "Hello", "Jinkies");
    let first = engine.locate(&b"Hello".to_vec()).unwrap();
    assert_eq!(put(&mut engine, &mut file, "Hello", "NewValue"), 2);
    let start = first.offset as usize;
    let end = start + first.size as usize;
    let old = Entry::from_bytes(&file[start..end].to_vec()).unwrap();
    assert!(!old.is_active());
    assert_eq!(old.value, b"Jinkies".to_vec());
    let found = get(&engine, &file, "Hello").unwrap();
    assert_eq!(found.value, b"NewValue".to_vec());
    assert!(found.is_active());
    let second = engine.locate(&b"Hello".to_vec()).unwrap();
    assert_eq!(second.offset, first.size);
    assert_eq!(file.len() as u64, first.size + second.size);
}

#[test]
fn multi_key_isolation() {
    let mut engine = Engine::new();
    let mut file = Vec::new();
    put(&mut engine, &mut file, "Hello", "Jinkies");
    put(&mut engine, &mut file, "Yump", "I am new, and I am not old");
    put(&mut engine, &mut file, "Joyous", "I am older, and I am not deeper than new");
    assert_eq!(get(&engine, &file, "Hello").unwrap().value, b"Jinkies".to_vec());
    assert_eq!(get(&engine, &file, "Yump").unwrap().value, b"I am new, and I am not old".to_vec());
    assert_eq!(
        get(&engine, &file, "Joyous").unwrap().value,
        b"I am older, and I am not deeper than new".to_vec()
    );
    put(&mut engine, &mut file, "Yump", "again");
    assert_eq!(get(&engine, &file, "Hello").unwrap().value, b"Jinkies".to_vec());
    assert_eq!(get(&engine, &file, "Yump").unwrap().value, b"again".to_vec());
    assert_eq!(
        get(&engine, &file, "Joyous").unwrap().value,
        b"I am older, and I am not deeper than new".to_vec()
    );
}

#[test]
fn missing_key() {
    let mut engine = Engine::new();
    let mut file = Vec::new();
    assert_eq!(engine.locate(&b"NeverInserted".to_vec()).unwrap_err(), EngineError::KeyNotFound);
    put(&mut engine, &mut file, "Hello", "Jinkies");
    assert_eq!(get(&engine, &file, "NeverInserted").unwrap_err(), EngineError::KeyNotFound);
}

#[test]
fn insert_over_indexed_key_needs_the_prior_bytes() {
    let mut engine = Engine::new();
    let mut file = Vec::new();
    put(&mut engine, &mut file, "Hello", "Jinkies");
    let cursor = engine.next_offset();
    let entry = Entry::new(b"Hello".to_vec(), b"x".to_vec());
    assert_eq!(engine.insert(entry, None).unwrap_err(), EngineError::TruncatedRecord);
    assert_eq!(engine.next_offset(), cursor);
}

#[test]
fn insert_over_corrupt_prior_fails() {
    let mut engine = Engine::new();
    let mut file = Vec::new();
    put(&mut engine, &mut file, "Hello", "Jinkies");
    let loc = engine.locate(&b"Hello".to_vec()).unwrap();
    let mut prior = file[loc.offset as usize..(loc.offset + loc.size) as usize].to_vec();
    let last = prior.len() - 1;
    prior[last] ^= 1;
    let entry = Entry::new(b"Hello".to_vec(), b"x".to_vec());
    assert_eq!(engine.insert(entry, Some(prior)).unwrap_err(), EngineError::ChecksumMismatch);
    assert_eq!(engine.locate(&b"Hello".to_vec()).unwrap(), loc);
}

#[test]
fn insert_keeps_the_entry_timestamp() {
    let mut engine = Engine::new();
    let entry = Entry::with_timestamp(b"k".to_vec(), b"v".to_vec(), 4242);
    let writes = engine.insert(entry, None).unwrap();
    assert_eq!(writes.len(), 1);
    assert_eq!(writes[0].offset, 0);
    let loc = engine.locate(&b"k".to_vec()).unwrap();
    assert_eq!(loc.timestamp, 4242);
    assert_eq!(loc.file_id, 0);
    assert_eq!(loc.size, 43);
    let back = Entry::from_bytes(&writes[0].bytes).unwrap();
    assert_eq!(back.timestamp(), 4242);
}
