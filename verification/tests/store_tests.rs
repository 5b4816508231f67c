use note_store::note::Note;
use note_store::store::NoteStore;

fn chars(s: &str) -> Vec<char> {
    s.chars().collect()
}

fn note(id: u32, content: &str, pinned: bool) -> Note {
    Note { id, content: chars(content), pinned }
}

#[test]
fn empty_store_starts_at_one() {
    let s = NoteStore::new();
    assert_eq!(s.next_id, 1);
    assert!(s.list().is_empty());
}

#[test]
fn add_list_toggle_delete_scenario() {
    let mut s = NoteStore::new();
    s.add(chars("buy milk"));
    let listed = s.list();
    assert_eq!(listed, vec![note(1, "buy milk", false)]);

    s.add(chars("call mom"));
    s.toggle_pin(1);
    let listed = s.list();
    assert_eq!(listed, vec![note(1, "buy milk", true), note(2, "call mom", false)]);

    s.delete(2);
    let listed = s.list();
    assert_eq!(listed, vec![note(1, "buy milk", true)]);
}

#[test]
fn add_assigns_increasing_ids() {
    let mut s = NoteStore::new();
    s.add(chars("a"));
    s.add(chars("b"));
    s.add(chars("c"));
    let ids: Vec<u32> = s.list().iter().map(|n| n.id).collect();
    assert_eq!(ids, vec![1, 2, 3]);
    assert_eq!(s.next_id, 4);
}

#[test]
fn add_after_loading_id_seven_yields_eight() {
    let doc = chars("[{\"id\":7,\"content\":\"old\",\"pinned\":false}]");
    let mut s = NoteStore::startup(Some(&doc));
    assert_eq!(s.next_id, 8);
    s.add(chars("new"));
    let listed = s.list();
    assert_eq!(listed, vec![note(7, "old", false), note(8, "new", false)]);
}

#[test]
fn delete_absent_id_is_a_noop() {
    let mut s = NoteStore::new();
    s.add(chars("keep me"));
    let before = s.list();
    s.delete(99);
    assert_eq!(s.list(), before);
    assert_eq!(s.next_id, 2);
}

#[test]
fn toggle_pin_twice_restores_the_note() {
    let mut s = NoteStore::new();
    s.add(chars("a"));
    s.add(chars("b"));
    let before = s.list();
    s.toggle_pin(2);
    s.toggle_pin(2);
    assert_eq!(s.list(), before);
}

#[test]
fn toggle_pin_absent_id_is_a_noop() {
    let mut s = NoteStore::new();
    s.add(chars("a"));
    let before = s.list();
    s.toggle_pin(42);
    assert_eq!(s.list(), before);
}

#[test]
fn list_puts_pinned_notes_first_stably() {
    let mut s = NoteStore::new();
    s.add(chars("a"));
    s.add(chars("b"));
    s.add(chars("c"));
    s.add(chars("d"));
    s.toggle_pin(2);
    s.toggle_pin(4);
    let ids: Vec<u32> = s.list().iter().map(|n| n.id).collect();
    assert_eq!(ids, vec![2, 4, 1, 3]);
}

#[test]
fn reorder_permutation_example() {
    let mut s = NoteStore::new();
    s.add(chars("a"));
    s.add(chars("b"));
    s.add(chars("c"));
    s.add(chars("d"));
    s.reorder(&vec![3, 1]);
    let ids: Vec<u32> = s.list().iter().map(|n| n.id).collect();
    assert_eq!(ids, vec![3, 1, 2, 4]);
}

#[test]
fn reorder_ignores_unknown_and_repeated_ids() {
    let mut s = NoteStore::new();
    s.add(chars("a"));
    s.add(chars("b"));
    s.add(chars("c"));
    s.reorder(&vec![2, 2, 99]);
    let ids: Vec<u32> = s.list().iter().map(|n| n.id).collect();
    assert_eq!(ids, vec![2, 1, 3]);
}

#[test]
fn reorder_keeps_contents_attached_to_ids() {
    let mut s = NoteStore::new();
    s.add(chars("first"));
    s.add(chars("second"));
    s.reorder(&vec![2]);
    let listed = s.list();
    assert_eq!(listed, vec![note(2, "second", false), note(1, "first", false)]);
}

#[test]
fn startup_without_a_document_starts_empty() {
    let mut s = NoteStore::startup(None);
    assert!(s.list().is_empty());
    assert_eq!(s.next_id, 1);
    s.add(chars("first"));
    assert_eq!(s.list(), vec![note(1, "first", false)]);
}

#[test]
fn startup_with_a_corrupt_document_starts_empty() {
    for bad in ["", "garbage", "[", "[{", "[{\"id\":1}]", "[]x", "[ ]", "{\"id\":1}"] {
        let doc = chars(bad);
        let mut s = NoteStore::startup(Some(&doc));
        assert!(s.list().is_empty(), "document {:?} should be refused", bad);
        assert_eq!(s.next_id, 1);
        s.add(chars("first"));
        assert_eq!(s.list(), vec![note(1, "first", false)]);
    }
}

#[test]
fn startup_refuses_duplicate_ids() {
    let doc = chars(
        "[{\"id\":1,\"content\":\"a\",\"pinned\":false},{\"id\":1,\"content\":\"b\",\"pinned\":false}]",
    );
    let s = NoteStore::startup(Some(&doc));
    assert!(s.list().is_empty());
    assert_eq!(s.next_id, 1);
}

#[test]
fn startup_refuses_an_id_at_the_counter_limit() {
    let doc = chars("[{\"id\":4294967295,\"content\":\"a\",\"pinned\":false}]");
    let s = NoteStore::startup(Some(&doc));
    assert!(s.list().is_empty());
    assert_eq!(s.next_id, 1);
}

#[test]
fn startup_resumes_after_the_largest_id() {
    let doc = chars(
        "[{\"id\":3,\"content\":\"x\",\"pinned\":true},{\"id\":9,\"content\":\"y\",\"pinned\":false},{\"id\":5,\"content\":\"z\",\"pinned\":false}]",
    );
    let s = NoteStore::startup(Some(&doc));
    assert_eq!(s.next_id, 10);
    let ids: Vec<u32> = s.list().iter().map(|n| n.id).collect();
    assert_eq!(ids, vec![3, 9, 5]);
}

#[test]
fn save_and_load_round_trip_through_the_store() {
    let mut s = NoteStore::new();
    s.add(chars("plain"));
    s.add(chars("with \"quotes\" and \\backslash\\"));
    s.add(chars(""));
    s.toggle_pin(2);
    s.reorder(&vec![3, 2, 1]);
    let doc = s.to_document();
    let loaded = NoteStore::startup(Some(&doc));
    assert_eq!(loaded.list(), s.list());
    assert_eq!(loaded.next_id, 4);
}
