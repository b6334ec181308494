use synapse::database::{CacheRows, CachedNote, Database, IndexError};
use synapse::indexer::Heading;

fn note(path: &str, title: &str, modified: Option<&str>) -> CachedNote {
    CachedNote {
        path: path.to_string(),
        title: title.to_string(),
        created_at: Some("2024-01-01".to_string()),
        modified_at: modified.map(|m| m.to_string()),
        word_count: 3,
        starred: false,
    }
}

fn strings(items: &[&str]) -> Vec<String> {
    items.iter().map(|s| s.to_string()).collect()
}

fn paths(notes: &[CachedNote]) -> Vec<String> {
    notes.iter().map(|n| n.path.clone()).collect()
}

#[test]
fn new_cache_is_empty() {
    let db = Database::new();
    assert!(db.get_all_notes().is_empty());
    assert!(db.get_all_links().is_empty());
    assert!(db.get_all_tags().is_empty());
    assert_eq!(db.get_setting("theme"), None);
    assert!(!db.has_note("a.md"));
}

#[test]
fn upsert_adds_a_note_and_never_a_second_row() {
    let mut db = Database::new();
    db.upsert_note(&note("a.md", "A", Some("2024-02-01")));
    db.upsert_note(&note("a.md", "A again", Some("2024-03-01")));
    let all = db.get_all_notes();
    assert_eq!(all.len(), 1);
    assert_eq!(all[0].title, "A again");
    assert_eq!(all[0].modified_at, Some("2024-03-01".to_string()));
}

#[test]
fn upsert_keeps_star_and_creation_time() {
    let mut db = Database::new();
    db.upsert_note(&note("a.md", "A", Some("2024-02-01")));
    assert_eq!(db.toggle_star("a.md"), Ok(true));
    let mut changed = note("a.md", "New", Some("2024-05-05"));
    changed.created_at = Some("1999-09-09".to_string());
    changed.word_count = 42;
    changed.starred = false;
    db.upsert_note(&changed);
    let all = db.get_all_notes();
    assert_eq!(all[0].title, "New");
    assert_eq!(all[0].word_count, 42);
    assert_eq!(all[0].created_at, Some("2024-01-01".to_string()));
    assert!(all[0].starred);
}

#[test]
fn toggle_star_flips_and_reports() {
    let mut db = Database::new();
    db.upsert_note(&note("a.md", "A", None));
    assert_eq!(db.toggle_star("a.md"), Ok(true));
    assert_eq!(db.toggle_star("a.md"), Ok(false));
    assert!(!db.get_all_notes()[0].starred);
}

#[test]
fn toggle_star_on_a_missing_note_is_not_found() {
    let mut db = Database::new();
    db.upsert_note(&note("a.md", "A", None));
    assert_eq!(db.toggle_star("b.md"), Err(IndexError::NotFound));
    assert!(!db.get_all_notes()[0].starred);
}

#[test]
fn all_notes_come_most_recent_first() {
    let mut db = Database::new();
    db.upsert_note(&note("old.md", "Old", Some("2023-01-01")));
    db.upsert_note(&note("none.md", "None", None));
    db.upsert_note(&note("new.md", "New", Some("2024-06-01")));
    db.upsert_note(&note("tie.md", "Tie", Some("2023-01-01")));
    db.upsert_note(&note("none2.md", "None2", None));
    assert_eq!(
        paths(&db.get_all_notes()),
        strings(&["new.md", "old.md", "tie.md", "none.md", "none2.md"])
    );
}

#[test]
fn links_are_replaced_and_stored_once() {
    let mut db = Database::new();
    db.upsert_note(&note("a.md", "A", None));
    db.upsert_note(&note("b.md", "B", None));
    assert_eq!(db.update_links("a.md", &strings(&["B", "C", "B"])), Ok(()));
    assert_eq!(db.update_links("b.md", &strings(&["C"])), Ok(()));
    assert_eq!(db.get_outgoing_links("a.md"), strings(&["B", "C"]));
    assert_eq!(db.update_links("a.md", &strings(&["D"])), Ok(()));
    assert_eq!(db.get_outgoing_links("a.md"), strings(&["D"]));
    assert_eq!(
        db.get_all_links(),
        vec![
            ("b.md".to_string(), "C".to_string()),
            ("a.md".to_string(), "D".to_string())
        ]
    );
}

#[test]
fn rows_need_their_note() {
    let mut db = Database::new();
    assert_eq!(db.update_links("ghost.md", &strings(&["B"])), Err(IndexError::NotFound));
    assert_eq!(db.update_tags("ghost.md", &strings(&["#t"])), Err(IndexError::NotFound));
    let headings = vec![Heading { text: "H".to_string(), level: 1, line: 1 }];
    assert_eq!(db.update_headings("ghost.md", &headings), Err(IndexError::NotFound));
    assert!(db.get_all_links().is_empty());
    assert!(db.get_all_tags().is_empty());
    assert!(db.get_headings("ghost.md").is_empty());
}

#[test]
fn backlinks_name_each_source_once() {
    let mut db = Database::new();
    db.upsert_note(&note("a.md", "A", None));
    db.upsert_note(&note("b.md", "B", None));
    db.upsert_note(&note("c.md", "C", None));
    db.update_links("a.md", &strings(&["C", "B"])).unwrap();
    db.update_links("b.md", &strings(&["C"])).unwrap();
    assert_eq!(db.get_backlinks("C"), strings(&["a.md", "b.md"]));
    assert_eq!(db.get_backlinks("B"), strings(&["a.md"]));
    assert!(db.get_backlinks("A").is_empty());
}

#[test]
fn delete_note_takes_its_rows_along() {
    let mut db = Database::new();
    db.upsert_note(&note("a.md", "A", None));
    db.upsert_note(&note("b.md", "B", None));
    db.update_links("a.md", &strings(&["B"])).unwrap();
    db.update_links("b.md", &strings(&["A"])).unwrap();
    db.update_tags("a.md", &strings(&["#x"])).unwrap();
    db.update_tags("b.md", &strings(&["#x"])).unwrap();
    db.update_headings("a.md", &[Heading { text: "H".to_string(), level: 1, line: 1 }]).unwrap();
    db.delete_note("a.md");
    assert!(!db.has_note("a.md"));
    assert!(db.has_note("b.md"));
    assert!(db.get_backlinks("B").is_empty());
    assert_eq!(db.get_all_links(), vec![("b.md".to_string(), "A".to_string())]);
    assert_eq!(db.get_notes_by_tag("#x"), strings(&["b.md"]));
    assert!(db.get_headings("a.md").is_empty());
    db.delete_note("never.md");
    assert_eq!(db.get_all_notes().len(), 1);
}

#[test]
fn tags_are_counted_and_ranked() {
    let mut db = Database::new();
    db.upsert_note(&note("a.md", "A", None));
    db.upsert_note(&note("b.md", "B", None));
    db.upsert_note(&note("c.md", "C", None));
    db.update_tags("a.md", &strings(&["#rare", "#common", "#rare"])).unwrap();
    db.update_tags("b.md", &strings(&["#common", "#mid"])).unwrap();
    db.update_tags("c.md", &strings(&["#common", "#mid", "#late"])).unwrap();
    assert_eq!(
        db.get_all_tags(),
        vec![
            ("#common".to_string(), 3),
            ("#mid".to_string(), 2),
            ("#rare".to_string(), 1),
            ("#late".to_string(), 1)
        ]
    );
    assert_eq!(db.get_notes_by_tag("#mid"), strings(&["b.md", "c.md"]));
    assert!(db.get_notes_by_tag("#none").is_empty());
}

#[test]
fn headings_come_back_in_line_order() {
    let mut db = Database::new();
    db.upsert_note(&note("a.md", "A", None));
    db.upsert_note(&note("b.md", "B", None));
    let given = vec![
        Heading { text: "Third".to_string(), level: 2, line: 9 },
        Heading { text: "First".to_string(), level: 1, line: 1 },
        Heading { text: "Second".to_string(), level: 3, line: 4 },
        Heading { text: "Also first".to_string(), level: 6, line: 1 },
    ];
    db.update_headings("a.md", &given).unwrap();
    db.update_headings("b.md", &[Heading { text: "Other".to_string(), level: 1, line: 2 }]).unwrap();
    let got: Vec<(String, u8, usize)> =
        db.get_headings("a.md").iter().map(|h| (h.text.clone(), h.level, h.line)).collect();
    assert_eq!(
        got,
        vec![
            ("First".to_string(), 1, 1),
            ("Also first".to_string(), 6, 1),
            ("Second".to_string(), 3, 4),
            ("Third".to_string(), 2, 9),
        ]
    );
    db.update_headings("a.md", &[]).unwrap();
    assert!(db.get_headings("a.md").is_empty());
    assert_eq!(db.get_headings("b.md").len(), 1);
}

#[test]
fn settings_are_upserted() {
    let mut db = Database::new();
    db.set_setting("theme", "dark");
    db.set_setting("font", "mono");
    assert_eq!(db.get_setting("theme"), Some("dark".to_string()));
    db.set_setting("theme", "light");
    assert_eq!(db.get_setting("theme"), Some("light".to_string()));
    assert_eq!(db.get_setting("font"), Some("mono".to_string()));
    assert_eq!(db.get_setting("missing"), None);
}

#[test]
fn retain_notes_drops_what_is_not_listed() {
    let mut db = Database::new();
    db.upsert_note(&note("a.md", "A", None));
    db.upsert_note(&note("b.md", "B", None));
    db.upsert_note(&note("c.md", "C", None));
    db.update_links("a.md", &strings(&["B"])).unwrap();
    db.update_links("c.md", &strings(&["B"])).unwrap();
    db.retain_notes(&strings(&["c.md", "a.md", "zzz.md"]));
    assert_eq!(paths(&db.get_all_notes()), strings(&["a.md", "c.md"]));
    assert_eq!(db.get_backlinks("B"), strings(&["a.md", "c.md"]));
    db.retain_notes(&Vec::new());
    assert!(db.get_all_notes().is_empty());
    assert!(db.get_all_links().is_empty());
}

fn rows_of(notes: &[&str], links: &[(&str, &str)], settings: &[(&str, &str)]) -> CacheRows {
    let pairs = |items: &[(&str, &str)]| -> Vec<(String, String)> {
        items.iter().map(|(a, b)| (a.to_string(), b.to_string())).collect()
    };
    CacheRows {
        notes: notes.iter().map(|p| note(p, p, None)).collect(),
        links: pairs(links),
        tags: Vec::new(),
        headings: Vec::new(),
        settings: pairs(settings),
    }
}

#[test]
fn rows_round_trip_through_the_cache() {
    let mut db = Database::new();
    db.upsert_note(&note("a.md", "A", Some("2024-01-02")));
    db.upsert_note(&note("b.md", "B", None));
    db.toggle_star("b.md").unwrap();
    db.update_links("b.md", &strings(&["A"])).unwrap();
    db.update_links("a.md", &strings(&["B", "C"])).unwrap();
    db.update_tags("a.md", &strings(&["#t"])).unwrap();
    db.update_headings("b.md", &[Heading { text: "H".to_string(), level: 2, line: 7 }]).unwrap();
    db.set_setting("k", "v");
    let rows = db.rows();
    assert_eq!(paths(&rows.notes), strings(&["a.md", "b.md"]));
    assert!(rows.notes[1].starred);
    assert_eq!(rows.links, db.get_all_links());
    assert_eq!(rows.tags, vec![("a.md".to_string(), "#t".to_string())]);
    assert_eq!(rows.headings.len(), 1);
    assert_eq!(rows.headings[0].0, "b.md");
    assert_eq!(rows.settings, vec![("k".to_string(), "v".to_string())]);
    let again = Database::from_rows(rows).expect("consistent rows");
    assert_eq!(again.get_all_links(), db.get_all_links());
    assert_eq!(paths(&again.get_all_notes()), paths(&db.get_all_notes()));
    assert_eq!(again.get_all_tags(), db.get_all_tags());
    assert_eq!(again.get_headings("b.md").len(), 1);
    assert_eq!(again.get_setting("k"), Some("v".to_string()));
}

#[test]
fn inconsistent_rows_give_no_cache() {
    assert!(Database::from_rows(rows_of(&["a.md", "b.md"], &[("a.md", "B")], &[("k", "v")])).is_some());
    assert!(Database::from_rows(rows_of(&["a.md", "a.md"], &[], &[])).is_none());
    assert!(Database::from_rows(rows_of(&["a.md"], &[("a.md", "B"), ("a.md", "B")], &[])).is_none());
    assert!(Database::from_rows(rows_of(&["a.md"], &[("ghost.md", "B")], &[])).is_none());
    assert!(Database::from_rows(rows_of(&[], &[], &[("k", "1"), ("k", "2")])).is_none());
    let mut orphan_tag = rows_of(&["a.md"], &[], &[]);
    orphan_tag.tags.push(("b.md".to_string(), "#t".to_string()));
    assert!(Database::from_rows(orphan_tag).is_none());
    let mut twice = rows_of(&["a.md"], &[], &[]);
    twice.tags.push(("a.md".to_string(), "#t".to_string()));
    twice.tags.push(("a.md".to_string(), "#t".to_string()));
    assert!(Database::from_rows(twice).is_none());
    let mut orphan_heading = rows_of(&["a.md"], &[], &[]);
    orphan_heading.headings.push(("b.md".to_string(), Heading { text: "H".to_string(), level: 1, line: 1 }));
    assert!(Database::from_rows(orphan_heading).is_none());
}
