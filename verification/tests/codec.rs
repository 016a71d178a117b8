use notes::codec::{load, save};
use notes::store::NoteStore;

fn stamped(bodies_and_stamps: &[(&str, &str)]) -> NoteStore {
    let mut store = NoteStore::new();
    for (body, stamp) in bodies_and_stamps {
        store
            .add_with_timestamp(body, String::from(*stamp))
            .unwrap();
    }
    store
}

#[test]
fn save_empty_store_is_empty_array() {
    let store = NoteStore::new();
    assert_eq!(save(&store), "[]");
}

#[test]
fn save_one_note_has_the_documented_shape() {
    let store = stamped(&[("Buy milk", "2026-01-01 00:00:00")]);
    let expected = "[\n  {\n    \"id\": 1,\n    \"body\": \"Buy milk\",\n    \"timestamp\": \"2026-01-01 00:00:00\"\n  }\n]";
    assert_eq!(save(&store), expected);
}

#[test]
fn save_escapes_quotes_and_backslashes() {
    let store = stamped(&[("say \"hi\" \\ wave", "2026-01-01 00:00:00")]);
    let text = save(&store);
    assert!(text.contains("say \\\"hi\\\" \\\\ wave"));
}

#[test]
fn round_trip_two_notes() {
    let store = stamped(&[
        ("Buy milk", "2026-01-01 08:00:00"),
        ("Call Bob", "2026-01-02 09:30:00"),
    ]);
    let reloaded = load(save(&store).as_str());
    let before = store.list();
    let after = reloaded.list();
    assert_eq!(after.len(), before.len());
    for i in 0..before.len() {
        assert_eq!(after[i].id, before[i].id);
        assert_eq!(after[i].body, before[i].body);
        assert_eq!(after[i].timestamp, before[i].timestamp);
    }
}

#[test]
fn round_trip_empty_store() {
    let store = NoteStore::new();
    let reloaded = load(save(&store).as_str());
    assert!(reloaded.list().is_empty());
}

#[test]
fn round_trip_special_characters() {
    let store = stamped(&[
        ("quote \" backslash \\ slash /", "2026-01-01 00:00:00"),
        ("inner\nnewline and\ttab", "2026-01-02 00:00:00"),
        ("control \u{1} char \u{1f} end", "2026-01-03 00:00:00"),
        ("unicode \u{3042} text", "odd stamp \" with \\ escapes"),
    ]);
    let reloaded = load(save(&store).as_str());
    let before = store.list();
    let after = reloaded.list();
    assert_eq!(after.len(), before.len());
    for i in 0..before.len() {
        assert_eq!(after[i].id, before[i].id);
        assert_eq!(after[i].body, before[i].body);
        assert_eq!(after[i].timestamp, before[i].timestamp);
    }
}

#[test]
fn load_of_malformed_text_is_empty() {
    assert!(load("").list().is_empty());
    assert!(load("not json at all").list().is_empty());
    assert!(load("[").list().is_empty());
    assert!(load("[\n").list().is_empty());
    assert!(load("{\"id\": 1}").list().is_empty());
    assert!(load("[\n  {\n    \"id\": 1,\n    \"body\": \"x\"").list().is_empty());
}

#[test]
fn load_of_unexpected_ids_is_empty() {
    let text = "[\n  {\n    \"id\": 2,\n    \"body\": \"x\",\n    \"timestamp\": \"t\"\n  }\n]";
    assert!(load(text).list().is_empty());
}

#[test]
fn load_accepts_what_was_documented() {
    let text = "[\n  {\n    \"id\": 1,\n    \"body\": \"Buy milk\",\n    \"timestamp\": \"2026-01-01 00:00:00\"\n  },\n  {\n    \"id\": 2,\n    \"body\": \"Call Bob\",\n    \"timestamp\": \"2026-01-02 09:30:00\"\n  }\n]";
    let store = load(text);
    let listed = store.list();
    assert_eq!(listed.len(), 2);
    assert_eq!(listed[0].id, 1);
    assert_eq!(listed[0].body, "Buy milk");
    assert_eq!(listed[0].timestamp, "2026-01-01 00:00:00");
    assert_eq!(listed[1].id, 2);
    assert_eq!(listed[1].body, "Call Bob");
    assert_eq!(listed[1].timestamp, "2026-01-02 09:30:00");
}

#[test]
fn load_decodes_escapes() {
    let text = "[\n  {\n    \"id\": 1,\n    \"body\": \"a\\\"b\\\\c\\nd\\te\\rf\\u0001g\",\n    \"timestamp\": \"t\"\n  }\n]";
    let store = load(text);
    assert_eq!(store.list().len(), 1);
    assert_eq!(store.list()[0].body, "a\"b\\c\nd\te\rf\u{1}g");
}

#[test]
fn mutate_after_reload_keeps_ids_contiguous() {
    let store = stamped(&[
        ("one", "2026-01-01 00:00:00"),
        ("two", "2026-01-02 00:00:00"),
        ("three", "2026-01-03 00:00:00"),
    ]);
    let mut reloaded = load(save(&store).as_str());
    reloaded.remove(1).unwrap();
    let listed = reloaded.list();
    assert_eq!(listed.len(), 2);
    assert_eq!(listed[0].id, 1);
    assert_eq!(listed[0].body, "two");
    assert_eq!(listed[1].id, 2);
    assert_eq!(listed[1].body, "three");
}
