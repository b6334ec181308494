use synapse::commands::get_backlinks;
use synapse::database::{Database, IndexError};
use synapse::reconciler::{NoteFile, NoteSource};
use synapse::vault::Frontmatter;

fn readable(path: &str, content: &str) -> NoteFile {
    NoteFile {
        path: path.to_string(),
        source: Some(NoteSource { content: content.to_string(), frontmatter: Frontmatter::default() }),
    }
}

fn unreadable(path: &str) -> NoteFile {
    NoteFile { path: path.to_string(), source: None }
}

fn cached_paths(db: &Database) -> Vec<String> {
    let mut paths: Vec<String> = db.get_all_notes().iter().map(|n| n.path.clone()).collect();
    paths.sort();
    paths
}

fn sources_for(db: &Database, title: &str, files: &[NoteFile]) -> Vec<NoteFile> {
    db.get_backlinks(title)
        .iter()
        .map(|p| {
            let found = files.iter().find(|f| &f.path == p);
            match found.and_then(|f| f.source.as_ref()) {
                Some(s) => readable(p, &s.content),
                None => unreadable(p),
            }
        })
        .collect()
}

#[test]
fn reindex_reconciles_backlinks_with_the_disk() {
    let mut db = Database::new();
    let disk = vec![readable("A.md", "links to [[B]] here"), readable("B.md", "nothing")];
    db.reindex_vault(&disk);
    let results = get_backlinks("B", &sources_for(&db, "B", &disk));
    assert_eq!(results.len(), 1);
    assert_eq!(results[0].source_path, "A.md");
    assert_eq!(results[0].source_title, "A");
    assert_eq!(results[0].context, "links to [[B]] here");

    let disk = vec![readable("B.md", "nothing")];
    db.reindex_vault(&disk);
    assert!(db.get_backlinks("B").is_empty());
    assert!(get_backlinks("B", &sources_for(&db, "B", &disk)).is_empty());
    assert_eq!(cached_paths(&db), vec!["B.md"]);
}

#[test]
fn star_survives_a_reindex_of_the_note() {
    let mut db = Database::new();
    assert_eq!(db.reindex_note(&readable("p.md", "# Title\ntext")), Ok(()));
    assert_eq!(db.toggle_star("p.md"), Ok(true));
    assert_eq!(db.reindex_note(&readable("p.md", "# Title\ntext")), Ok(()));
    assert!(db.get_all_notes()[0].starred);
    db.reindex_vault(&vec![readable("p.md", "# Other title")]);
    let all = db.get_all_notes();
    assert!(all[0].starred);
    assert_eq!(all[0].title, "Other title");
}

#[test]
fn reindex_note_writes_all_four_tables() {
    let mut db = Database::new();
    let fm = Frontmatter {
        title: Some("From front matter".to_string()),
        tags: vec!["fm".to_string()],
        created: Some("2024-01-01".to_string()),
        modified: Some("2024-02-02".to_string()),
        aliases: Vec::new(),
        extra: Vec::new(),
    };
    let content = "---\ntitle: From front matter\n---\n# Heading\nbody [[X]] [[Y|y]] [[X]] #t\n";
    db.index_source("dir/n.md", content, &fm);
    let all = db.get_all_notes();
    assert_eq!(all.len(), 1);
    assert_eq!(all[0].path, "dir/n.md");
    assert_eq!(all[0].title, "From front matter");
    assert_eq!(all[0].created_at, Some("2024-01-01".to_string()));
    assert_eq!(all[0].modified_at, Some("2024-02-02".to_string()));
    assert_eq!(all[0].word_count, 7);
    assert!(!all[0].starred);
    assert_eq!(db.get_outgoing_links("dir/n.md"), vec!["X", "Y"]);
    assert_eq!(db.get_notes_by_tag("#t"), vec!["dir/n.md"]);
    assert_eq!(db.get_notes_by_tag("#fm"), vec!["dir/n.md"]);
    let headings = db.get_headings("dir/n.md");
    assert_eq!(headings.len(), 1);
    assert_eq!(headings[0].text, "Heading");
    assert_eq!(headings[0].line, 1);
}

#[test]
fn reindex_passes_over_unreadable_files() {
    let mut db = Database::new();
    db.reindex_vault(&vec![readable("a.md", "[[b]]"), readable("b.md", "old text")]);
    db.reindex_vault(&vec![readable("a.md", "[[b]]"), unreadable("b.md"), unreadable("c.md")]);
    assert_eq!(cached_paths(&db), vec!["a.md", "b.md"]);
    let b = db.get_all_notes().into_iter().find(|n| n.path == "b.md").unwrap();
    assert_eq!(b.word_count, 2);
}

#[test]
fn reindex_twice_changes_nothing() {
    let disk = vec![
        readable("a.md", "# A\n[[b]] [[c]] #x #y"),
        readable("b.md", "## B\n[[a]] #x"),
        unreadable("c.md"),
    ];
    let mut db = Database::new();
    db.reindex_vault(&disk);
    let notes: Vec<(String, String, i64)> =
        db.get_all_notes().iter().map(|n| (n.path.clone(), n.title.clone(), n.word_count)).collect();
    let links = db.get_all_links();
    let tags = db.get_all_tags();
    db.reindex_vault(&disk);
    let notes2: Vec<(String, String, i64)> =
        db.get_all_notes().iter().map(|n| (n.path.clone(), n.title.clone(), n.word_count)).collect();
    assert_eq!(notes, notes2);
    assert_eq!(links, db.get_all_links());
    assert_eq!(tags, db.get_all_tags());
}

#[test]
fn reindex_of_an_empty_vault_empties_the_cache() {
    let mut db = Database::new();
    db.reindex_vault(&vec![readable("a.md", "[[b]] #t")]);
    db.set_setting("k", "v");
    db.reindex_vault(&Vec::new());
    assert!(db.get_all_notes().is_empty());
    assert!(db.get_all_links().is_empty());
    assert!(db.get_all_tags().is_empty());
    assert_eq!(db.get_setting("k"), Some("v".to_string()));
}

#[test]
fn reindex_note_fails_on_an_unreadable_file() {
    let mut db = Database::new();
    assert_eq!(db.reindex_note(&readable("a.md", "[[b]] #t")), Ok(()));
    assert_eq!(db.reindex_note(&unreadable("a.md")), Err(IndexError::IoError));
    assert_eq!(db.reindex_note(&unreadable("new.md")), Err(IndexError::IoError));
    assert_eq!(cached_paths(&db), vec!["a.md"]);
    assert_eq!(db.get_outgoing_links("a.md"), vec!["b"]);
    assert_eq!(db.get_notes_by_tag("#t"), vec!["a.md"]);
}
