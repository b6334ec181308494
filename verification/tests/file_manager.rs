use synapse::file_manager::{
    get_all_notes, get_field, new_note_text, parse_frontmatter_raw, parse_note, rebuild_file,
    rename_note_text, save_note_text, set_field, strip_frontmatter, NoteError,
};
use synapse::numbers::parse_i64;

fn pair(k: &str, v: &str) -> (String, String) {
    (k.to_string(), v.to_string())
}

const RAW: &str = "---\nid: abc-1\ntitle: My note\ncreated: 100\nmodified: 200\n---\n\nBody text\n";

#[test]
fn parse_i64_reads_decimal_numbers() {
    assert_eq!(parse_i64("0"), Some(0));
    assert_eq!(parse_i64("1700000000"), Some(1700000000));
    assert_eq!(parse_i64("+42"), Some(42));
    assert_eq!(parse_i64("-42"), Some(-42));
    assert_eq!(parse_i64("007"), Some(7));
    assert_eq!(parse_i64("-0"), Some(0));
    assert_eq!(parse_i64("9223372036854775807"), Some(i64::MAX));
    assert_eq!(parse_i64("-9223372036854775808"), Some(i64::MIN));
}

#[test]
fn parse_i64_rejects_what_is_no_number() {
    for text in [
        "", "+", "-", " 1", "1 ", "1.5", "1e3", "--1", "+-1", "12a", "\u{661}\u{662}",
        "9223372036854775808", "-9223372036854775809", "99999999999999999999999",
    ] {
        assert_eq!(parse_i64(text), None, "{:?}", text);
        assert_eq!(text.parse::<i64>().ok(), None, "{:?}", text);
    }
}

#[test]
fn parse_frontmatter_raw_reads_fields_and_body() {
    let (fields, body) = parse_frontmatter_raw(RAW).unwrap();
    assert_eq!(
        fields,
        vec![pair("id", "abc-1"), pair("title", "My note"), pair("created", "100"), pair("modified", "200")]
    );
    assert_eq!(body, "Body text\n");
}

#[test]
fn parse_frontmatter_raw_edge_cases() {
    let raw = "---\n  key : a: b  \nno colon here\n\nkey: again\n: empty key\nlast:\n---";
    let (fields, body) = parse_frontmatter_raw(raw).unwrap();
    assert_eq!(fields, vec![pair("key", "again"), pair("", "empty key"), pair("last", "")]);
    assert_eq!(body, "");
    assert_eq!(parse_frontmatter_raw("just text"), Ok((Vec::new(), "just text".to_string())));
    assert_eq!(parse_frontmatter_raw("---\nid: 1\nno end"), Err(NoteError::Malformed));
}

#[test]
fn strip_frontmatter_gives_the_body() {
    assert_eq!(strip_frontmatter(RAW), "Body text\n");
    assert_eq!(strip_frontmatter("plain"), "plain");
    assert_eq!(strip_frontmatter("---\nopen"), "---\nopen");
}

#[test]
fn rebuild_file_writes_the_known_fields_in_order() {
    let fields = vec![pair("modified", "2"), pair("other", "x"), pair("title", "T"), pair("id", "I")];
    assert_eq!(rebuild_file(&fields, "body"), "---\nid: I\ntitle: T\nmodified: 2\n---\nbody");
    assert_eq!(rebuild_file(&Vec::new(), ""), "---\n---\n");
}

#[test]
fn set_and_get_field() {
    let mut fields = vec![pair("a", "1"), pair("b", "2")];
    set_field(&mut fields, &"a".to_string(), &"3".to_string());
    set_field(&mut fields, &"c".to_string(), &"4".to_string());
    assert_eq!(fields, vec![pair("a", "3"), pair("b", "2"), pair("c", "4")]);
    assert_eq!(get_field(&fields, &"b".to_string()), Some("2".to_string()));
    assert_eq!(get_field(&fields, &"z".to_string()), None);
}

#[test]
fn parse_note_reads_a_note() {
    let note = parse_note(RAW, "/notes/abc-1.md").unwrap();
    assert_eq!(note.id, "abc-1");
    assert_eq!(note.title, "My note");
    assert_eq!(note.file_path, "/notes/abc-1.md");
    assert_eq!(note.created_at, 100);
    assert_eq!(note.modified_at, 200);
}

#[test]
fn parse_note_names_what_is_wrong() {
    let err = |raw: &str| parse_note(raw, "p").err();
    assert_eq!(err("---\nid: 1"), Some(NoteError::Malformed));
    assert_eq!(err("no front matter"), Some(NoteError::MissingId));
    assert_eq!(err("---\ntitle: T\n---"), Some(NoteError::MissingId));
    assert_eq!(err("---\nid: 1\n---"), Some(NoteError::MissingTitle));
    assert_eq!(err("---\nid: 1\ntitle: T\n---"), Some(NoteError::MissingCreated));
    assert_eq!(err("---\nid: 1\ntitle: T\ncreated: x\nmodified: y\n---"), Some(NoteError::InvalidCreated));
    assert_eq!(err("---\nid: 1\ntitle: T\ncreated: 1\n---"), Some(NoteError::MissingModified));
    assert_eq!(err("---\nid: 1\ntitle: T\ncreated: 1\nmodified: 2024-01-01\n---"), Some(NoteError::InvalidModified));
}

#[test]
fn get_all_notes_skips_bad_files_and_sorts() {
    let text = |id: &str, m: &str| format!("---\nid: {}\ntitle: T{}\ncreated: 1\nmodified: {}\n---\n", id, id, m);
    let files = vec![
        pair("a.md", &text("a", "10")),
        pair("bad.md", "garbage"),
        pair("b.md", &text("b", "30")),
        pair("c.md", &text("c", "10")),
        pair("d.md", &text("d", "-5")),
    ];
    let ids: Vec<String> = get_all_notes(&files).iter().map(|n| n.id.clone()).collect();
    assert_eq!(ids, vec!["b", "a", "c", "d"]);
}

#[test]
fn new_note_text_round_trips() {
    let text = new_note_text("id-9", "Fresh", "1700000000");
    assert_eq!(text, "---\nid: id-9\ntitle: Fresh\ncreated: 1700000000\nmodified: 1700000000\n---\n");
    let note = parse_note(&text, "x.md").unwrap();
    assert_eq!((note.id.as_str(), note.created_at, note.modified_at), ("id-9", 1700000000, 1700000000));
}

#[test]
fn save_and_rename_rewrite_the_text() {
    assert_eq!(
        save_note_text(RAW, "New body", "300"),
        Ok("---\nid: abc-1\ntitle: My note\ncreated: 100\nmodified: 300\n---\nNew body".to_string())
    );
    assert_eq!(
        rename_note_text(RAW, "Renamed", "400"),
        Ok("---\nid: abc-1\ntitle: Renamed\ncreated: 100\nmodified: 400\n---\nBody text\n".to_string())
    );
    assert_eq!(save_note_text("---\nopen", "b", "1"), Err(NoteError::Malformed));
    assert_eq!(rename_note_text("---\nopen", "t", "1"), Err(NoteError::Malformed));
    assert_eq!(save_note_text("bare", "b", "5"), Ok("---\nmodified: 5\n---\nb".to_string()));
}
