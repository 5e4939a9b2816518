//! Save slots.

use kuula::save::{
    path_identity, slot_file, staging_file, valid_identity, MemoryStore, RecordingStore, SaveError,
    SaveStore, WriteThroughStore, SLOT_BYTES,
};

#[test]
fn memory_store_round_trips_and_checks_bounds() {
    let mut m = MemoryStore::new();
    assert_eq!(m.read(0).unwrap(), None);
    m.write(0, b"abc").unwrap();
    assert_eq!(m.read(0).unwrap().as_deref(), Some(&b"abc"[..]));
    assert_eq!(m.read(7).unwrap(), None);
    assert_eq!(m.read(8).unwrap_err().code, "save_slot");
    assert_eq!(m.write(8, b"").unwrap_err().code, "save_slot");
    assert_eq!(
        m.write(1, &vec![0; SLOT_BYTES + 1]).unwrap_err().code,
        "save_size"
    );
    m.write(1, &vec![0; SLOT_BYTES]).unwrap();
}

#[test]
fn write_through_store_keeps_an_unreadable_slot_off_disk() {
    // Slot 0 on disk is oversized, so it cannot be read at start.
    let mut reads: Vec<Result<Option<Vec<u8>>, SaveError>> = (0..8).map(|_| Ok(None)).collect();
    reads[0] = Err(SaveError::new("save_size", "too large"));
    reads[1] = Ok(Some(b"readable".to_vec()));
    let mut store = WriteThroughStore::new(reads);
    let start = store.take_failures();
    assert_eq!(start.len(), 1);
    assert_eq!(start[0].code, "save_size");
    // The cart sees an empty slot 0 and the readable slot 1.
    assert_eq!(store.read(0).unwrap(), None);
    assert_eq!(store.read(1).unwrap().unwrap(), b"readable");
    // A save to slot 0 succeeds for the cart, stays in memory, and
    // is reported; the host is not told to write it.
    assert!(!store.write(0, b"fresh game").unwrap());
    assert_eq!(store.read(0).unwrap().unwrap(), b"fresh game");
    let kept = store.take_failures();
    assert_eq!(kept.len(), 1);
    assert_eq!(kept[0].code, "save_io");
    // A readable slot still writes through.
    assert!(store.write(1, b"still persisted").unwrap());
    assert!(store.take_failures().is_empty());
    assert_eq!(store.all_slots().len(), 2);
    store.disk_failed(SaveError::io("slot1.kuula", "full"));
    assert_eq!(store.take_failures()[0].text(), "save_io: slot1.kuula: full");
}

#[test]
fn a_recording_store_notes_the_last_write_of_each_slot() {
    let mut s = SaveStore::Recording(RecordingStore::new(MemoryStore::new()));
    s.write(1, b"a").unwrap();
    s.write(2, b"b").unwrap();
    s.write(1, b"c").unwrap();
    assert!(s.write(9, b"no").is_err());
    assert_eq!(s.take_writes(), [(2, b"b".to_vec()), (1, b"c".to_vec())]);
    assert!(s.take_writes().is_empty());
    assert_eq!(s.read(1).unwrap().unwrap(), b"c");
}

#[test]
fn slots_from_elsewhere_are_checked() {
    let slots = vec![(3, b"x".to_vec())];
    let m = MemoryStore::from_slots(&slots).unwrap();
    assert_eq!(m.all_slots(), slots);
    let bad = vec![(8, Vec::new())];
    assert_eq!(MemoryStore::from_slots(&bad).unwrap_err().code, "save_slot");
    let big = vec![(0, vec![0; SLOT_BYTES + 1])];
    assert_eq!(MemoryStore::from_slots(&big).unwrap_err().code, "save_size");
}

#[test]
fn identities_are_short_plain_names() {
    for bad in ["", "ABC", "a/b", "..", "a b", &"x".repeat(65)] {
        assert!(!valid_identity(bad), "{bad:?}");
    }
    assert!(valid_identity("abc-123_x"));
    // FNV-1a of the empty text and of "a".
    assert_eq!(path_identity(""), "cbf29ce484222325");
    assert_eq!(path_identity("a"), "af63dc4c8601ec8c");
    assert!(valid_identity(&path_identity("/carts/x")));
    assert_eq!(slot_file(3), "slot3.kuula");
    assert_eq!(staging_file(3), "slot3.kuula.tmp");
}

#[test]
fn an_oversized_read_is_a_failed_one() {
    let mut reads: Vec<Result<Option<Vec<u8>>, SaveError>> = (0..8).map(|_| Ok(None)).collect();
    reads[2] = Ok(Some(vec![1; SLOT_BYTES + 1]));
    reads[3] = Ok(Some(vec![2; SLOT_BYTES]));
    reads[5] = Err(SaveError::new("save_io", "locked"));
    let mut store = WriteThroughStore::new(reads);
    let codes: Vec<&str> = store.take_failures().iter().map(|e| e.code).collect();
    assert_eq!(codes, ["save_size", "save_io"]);
    assert_eq!(store.read(2).unwrap(), None);
    assert_eq!(store.read(3).unwrap().unwrap().len(), SLOT_BYTES);
    assert!(!store.write(2, b"new").unwrap());
    assert!(store.write(3, b"new").unwrap());
}

#[test]
fn a_store_holds_the_last_entry_of_each_slot() {
    let m = MemoryStore::from_slots(&vec![
        (1, b"a".to_vec()),
        (2, b"b".to_vec()),
        (1, b"c".to_vec()),
    ])
    .unwrap();
    assert_eq!(m.read(1).unwrap().unwrap(), b"c");
    assert_eq!(m.read(2).unwrap().unwrap(), b"b");
    assert_eq!(m.read(3).unwrap(), None);
    let big = vec![0; SLOT_BYTES + 1];
    let e = MemoryStore::from_slots(&vec![(1, big.clone()), (9, Vec::new())]).unwrap_err();
    assert_eq!(e.code, "save_size");
    let e = MemoryStore::from_slots(&vec![(9, big), (1, Vec::new())]).unwrap_err();
    assert_eq!(e.code, "save_slot");
}
