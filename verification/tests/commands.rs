use synapse::commands::{find_link_context, search_by_title, search_notes, title_tier};
use synapse::database::{CachedNote, Database};

fn titled(path: &str, title: &str, modified: Option<&str>) -> CachedNote {
    CachedNote {
        path: path.to_string(),
        title: title.to_string(),
        created_at: None,
        modified_at: modified.map(|m| m.to_string()),
        word_count: 0,
        starred: false,
    }
}

fn titles(notes: &[CachedNote]) -> Vec<String> {
    notes.iter().map(|n| n.title.clone()).collect()
}

#[test]
fn search_ranks_prefix_before_contains_before_fuzzy() {
    let notes = vec![
        titled("3.md", "Protein Research", None),
        titled("2.md", "My Projects", None),
        titled("1.md", "Projects", None),
    ];
    assert_eq!(titles(&search_by_title(&notes, "Proj", 20)), vec!["Projects", "My Projects"]);
    assert_eq!(
        titles(&search_by_title(&notes, "pr", 20)),
        vec!["Protein Research", "Projects", "My Projects"]
    );
    assert_eq!(
        titles(&search_by_title(&notes, "PROJECTS", 20)),
        vec!["Projects", "My Projects"]
    );
    assert_eq!(
        titles(&search_by_title(&notes, "prts", 20)),
        vec!["Protein Research", "My Projects", "Projects"]
    );
    assert_eq!(titles(&search_by_title(&notes, "mjs", 20)), vec!["My Projects"]);
    assert_eq!(titles(&search_by_title(&notes, "pnr", 20)), vec!["Protein Research"]);
    assert!(search_by_title(&notes, "xyz", 20).is_empty());
}

#[test]
fn search_keeps_the_order_within_a_tier_and_the_limit() {
    let notes = vec![
        titled("a.md", "Alpha one", None),
        titled("b.md", "Alpha two", None),
        titled("c.md", "alpha", None),
        titled("d.md", "Alpha three", None),
    ];
    assert_eq!(
        titles(&search_by_title(&notes, "alpha", 20)),
        vec!["alpha", "Alpha one", "Alpha two", "Alpha three"]
    );
    assert_eq!(titles(&search_by_title(&notes, "alpha", 2)), vec!["alpha", "Alpha one"]);
    assert!(search_by_title(&notes, "alpha", 0).is_empty());
    assert_eq!(search_by_title(&notes, "", 20).len(), 4);
}

#[test]
fn title_tier_names_each_tier() {
    assert_eq!(title_tier("projects", "projects"), Some(0));
    assert_eq!(title_tier("projects", "proj"), Some(1));
    assert_eq!(title_tier("my projects", "proj"), Some(2));
    assert_eq!(title_tier("protein research", "prr"), Some(3));
    assert_eq!(title_tier("protein research", "proj"), None);
    assert_eq!(title_tier("", ""), Some(0));
    assert_eq!(title_tier("abc", ""), Some(1));
    assert_eq!(title_tier("", "a"), None);
    assert_eq!(title_tier("ab", "ba"), None);
}

#[test]
fn search_notes_reads_the_cache_most_recent_first() {
    let mut db = Database::new();
    for i in 0..25 {
        let m = format!("2024-01-{:02}", i + 1);
        db.upsert_note(&titled(&format!("n{}.md", i), &format!("Note {}", i), Some(&m)));
    }
    let found = search_notes(&db, "note");
    assert_eq!(found.len(), 20);
    assert_eq!(found[0].title, "Note 24");
    assert_eq!(found[19].title, "Note 5");
    let exact = search_notes(&db, "NOTE 7");
    assert_eq!(titles(&exact), vec!["Note 7", "Note 17"]);
}

#[test]
fn link_context_is_the_first_line_with_the_link() {
    let text = "intro\n  see [[Target]] first  \nthen [[Target|alias]]";
    assert_eq!(find_link_context(text, "Target"), "see [[Target]] first");
    assert_eq!(find_link_context("a [[T|x]] b\n[[T]]", "T"), "a [[T|x]] b");
    assert_eq!(find_link_context("a [[T#h]] b", "T"), "a [[T#h]] b");
    assert_eq!(find_link_context("a [[T^b]] b\n[[Tx]] [[ T]]", "T"), "");
    assert_eq!(find_link_context("", "T"), "");
}

#[test]
fn link_context_is_cut_after_200_characters() {
    let long = format!("[[T]]{}", "\u{e9}".repeat(300));
    let context = find_link_context(&long, "T");
    assert_eq!(context.chars().count(), 203);
    assert!(context.ends_with("\u{e9}..."));
    let exact = format!("[[T]]{}", "x".repeat(195));
    assert_eq!(find_link_context(&exact, "T"), exact);
}
