use notes::store::{NoteError, NoteStore};

#[test]
fn add_assigns_sequential_ids() {
    let mut store = NoteStore::new();
    let first = store.add("Buy milk").unwrap();
    let second = store.add("Call Bob").unwrap();
    let third = store.add("Water plants").unwrap();
    assert_eq!(first.id, 1);
    assert_eq!(second.id, 2);
    assert_eq!(third.id, 3);
    let listed = store.list();
    assert_eq!(listed.len(), 3);
    assert_eq!(listed[0].id, 1);
    assert_eq!(listed[0].body, "Buy milk");
    assert_eq!(listed[1].id, 2);
    assert_eq!(listed[1].body, "Call Bob");
    assert_eq!(listed[2].id, 3);
    assert_eq!(listed[2].body, "Water plants");
}

#[test]
fn add_trims_the_body() {
    let mut store = NoteStore::new();
    let note = store.add("   hello world \t\n").unwrap();
    assert_eq!(note.body, "hello world");
    assert_eq!(store.list()[0].body, "hello world");
}

#[test]
fn add_blank_body_is_rejected() {
    let mut store = NoteStore::new();
    store.add("kept").unwrap();
    assert_eq!(store.add("").unwrap_err(), NoteError::ValidationError);
    assert_eq!(store.add("   \t  \n").unwrap_err(), NoteError::ValidationError);
    assert_eq!(store.list().len(), 1);
    assert_eq!(store.list()[0].id, 1);
    assert_eq!(store.list()[0].body, "kept");
}

#[test]
fn add_with_timestamp_keeps_the_timestamp() {
    let mut store = NoteStore::new();
    let note = store
        .add_with_timestamp("remember", String::from("2026-01-31 09:15:00"))
        .unwrap();
    assert_eq!(note.timestamp, "2026-01-31 09:15:00");
    assert_eq!(store.list()[0].timestamp, "2026-01-31 09:15:00");
}

#[test]
fn remove_shifts_later_notes_down() {
    let mut store = NoteStore::new();
    store.add("first").unwrap();
    store.add("second").unwrap();
    store.add("third").unwrap();
    let removed = store.remove(2).unwrap();
    assert_eq!(removed.id, 2);
    assert_eq!(removed.body, "second");
    let listed = store.list();
    assert_eq!(listed.len(), 2);
    assert_eq!(listed[0].id, 1);
    assert_eq!(listed[0].body, "first");
    assert_eq!(listed[1].id, 2);
    assert_eq!(listed[1].body, "third");
}

#[test]
fn remove_out_of_range_leaves_store_unchanged() {
    let mut store = NoteStore::new();
    store.add("one").unwrap();
    store.add("two").unwrap();
    assert_eq!(store.remove(0).unwrap_err(), NoteError::NotFoundError);
    assert_eq!(store.remove(3).unwrap_err(), NoteError::NotFoundError);
    assert_eq!(store.remove(99).unwrap_err(), NoteError::NotFoundError);
    let listed = store.list();
    assert_eq!(listed.len(), 2);
    assert_eq!(listed[0].body, "one");
    assert_eq!(listed[1].body, "two");
}

#[test]
fn remove_from_empty_store_fails() {
    let mut store = NoteStore::new();
    assert_eq!(store.remove(1).unwrap_err(), NoteError::NotFoundError);
    assert!(store.list().is_empty());
}

#[test]
fn scenario_buy_milk_call_bob() {
    let mut store = NoteStore::new();
    let first = store.add("Buy milk").unwrap();
    assert_eq!(first.id, 1);
    assert_eq!(store.list().len(), 1);
    assert_eq!(store.list()[0].id, 1);
    assert_eq!(store.list()[0].body, "Buy milk");

    let second = store.add("Call Bob").unwrap();
    assert_eq!(second.id, 2);
    assert_eq!(store.list().len(), 2);
    assert_eq!(store.list()[0].body, "Buy milk");
    assert_eq!(store.list()[1].body, "Call Bob");

    let removed = store.remove(1).unwrap();
    assert_eq!(removed.body, "Buy milk");
    assert_eq!(store.list().len(), 1);
    assert_eq!(store.list()[0].id, 1);
    assert_eq!(store.list()[0].body, "Call Bob");

    assert_eq!(store.remove(5).unwrap_err(), NoteError::NotFoundError);
    assert_eq!(store.list().len(), 1);
    assert_eq!(store.list()[0].id, 1);
    assert_eq!(store.list()[0].body, "Call Bob");
}

#[test]
fn duplicate_copies_every_field() {
    let mut store = NoteStore::new();
    let note = store
        .add_with_timestamp("original", String::from("2026-02-01 10:00:00"))
        .unwrap();
    let copy = note.duplicate();
    assert_eq!(copy.id, note.id);
    assert_eq!(copy.body, note.body);
    assert_eq!(copy.timestamp, note.timestamp);
}
