use note_store::codec::{encode_notes, parse_notes};
use note_store::note::Note;

fn chars(s: &str) -> Vec<char> {
    s.chars().collect()
}

fn note(id: u32, content: &str, pinned: bool) -> Note {
    Note { id, content: chars(content), pinned }
}

fn text(v: &[char]) -> String {
    v.iter().collect()
}

#[test]
fn encodes_the_empty_collection_as_an_empty_array() {
    let doc = encode_notes(&vec![]);
    assert_eq!(text(&doc), "[]");
}

#[test]
fn encodes_one_note_exactly() {
    let doc = encode_notes(&vec![note(1, "buy milk", false)]);
    assert_eq!(text(&doc), "[{\"id\":1,\"content\":\"buy milk\",\"pinned\":false}]");
}

#[test]
fn encodes_several_notes_with_flags_and_escapes() {
    let doc = encode_notes(&vec![
        note(12, "a\"b", true),
        note(305, "back\\slash", false),
        note(0, "", true),
    ]);
    assert_eq!(
        text(&doc),
        "[{\"id\":12,\"content\":\"a\\\"b\",\"pinned\":true},{\"id\":305,\"content\":\"back\\\\slash\",\"pinned\":false},{\"id\":0,\"content\":\"\",\"pinned\":true}]",
    );
}

#[test]
fn parses_what_it_encodes() {
    let notes = vec![
        note(1, "plain", false),
        note(42, "quote \" backslash \\ end", true),
        note(4294967294, "", false),
    ];
    let doc = encode_notes(&notes);
    let parsed = parse_notes(&doc).expect("an encoded document must parse");
    assert_eq!(parsed, notes);
}

#[test]
fn parses_the_empty_array() {
    let parsed = parse_notes(&chars("[]")).expect("[] is the empty collection");
    assert!(parsed.is_empty());
}

#[test]
fn parses_a_pinned_note() {
    let parsed = parse_notes(&chars("[{\"id\":3,\"content\":\"hi\",\"pinned\":true}]"))
        .expect("a well-formed document must parse");
    assert_eq!(parsed, vec![note(3, "hi", true)]);
}

#[test]
fn refuses_malformed_documents() {
    for bad in [
        "",
        "[",
        "]",
        "[]]",
        "[] ",
        " []",
        "[ ]",
        "[{\"id\":1,\"content\":\"a\",\"pinned\":false}",
        "[{\"id\":1,\"content\":\"a\",\"pinned\":false},]",
        "[{\"id\":1,\"content\":\"a\",\"pinned\":no}]",
        "[{\"id\":1,\"content\":a,\"pinned\":false}]",
        "[{\"id\":,\"content\":\"a\",\"pinned\":false}]",
        "[{\"content\":\"a\",\"id\":1,\"pinned\":false}]",
        "[{\"id\": 1,\"content\":\"a\",\"pinned\":false}]",
        "[{\"id\":1,\"content\":\"a\",\"pinned\":false}]x",
    ] {
        assert!(parse_notes(&chars(bad)).is_none(), "document {:?} should be refused", bad);
    }
}

#[test]
fn refuses_ids_with_leading_zeros() {
    assert!(parse_notes(&chars("[{\"id\":007,\"content\":\"a\",\"pinned\":false}]")).is_none());
    assert!(parse_notes(&chars("[{\"id\":00,\"content\":\"a\",\"pinned\":false}]")).is_none());
}

#[test]
fn accepts_the_id_zero_and_the_largest_id() {
    let parsed = parse_notes(&chars("[{\"id\":0,\"content\":\"a\",\"pinned\":false}]"))
        .expect("id 0 fits the id range");
    assert_eq!(parsed[0].id, 0);
    let parsed = parse_notes(&chars("[{\"id\":4294967295,\"content\":\"a\",\"pinned\":false}]"))
        .expect("the largest id fits the id range");
    assert_eq!(parsed[0].id, 4294967295);
}

#[test]
fn refuses_ids_out_of_range() {
    assert!(
        parse_notes(&chars("[{\"id\":4294967296,\"content\":\"a\",\"pinned\":false}]")).is_none()
    );
    assert!(
        parse_notes(&chars("[{\"id\":99999999999999999999,\"content\":\"a\",\"pinned\":false}]"))
            .is_none()
    );
}

#[test]
fn refuses_unknown_escapes_and_open_strings() {
    assert!(parse_notes(&chars("[{\"id\":1,\"content\":\"a\\n\",\"pinned\":false}]")).is_none());
    assert!(parse_notes(&chars("[{\"id\":1,\"content\":\"a\\\",\"pinned\":false}]")).is_none());
}
