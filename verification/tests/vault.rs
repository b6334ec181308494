use synapse::vault::{sanitize_filename, Vault, VaultEntry};

fn entry(path: &str, is_dir: bool) -> VaultEntry {
    VaultEntry {
        path: path.to_string(),
        name: Vault::file_stem(path),
        is_dir,
        size: 0,
        modified: 0,
        created: 0,
    }
}

#[test]
fn strip_frontmatter_removes_the_block() {
    let text = "---\ntitle: T\ntags: [a]\n---\n\n# Body\ntext";
    assert_eq!(Vault::strip_frontmatter(text), "# Body\ntext");
}

#[test]
fn strip_frontmatter_without_block_keeps_the_text() {
    assert_eq!(Vault::strip_frontmatter("# Title\n---\nx"), "# Title\n---\nx");
    assert_eq!(Vault::strip_frontmatter("---\nnever closed"), "---\nnever closed");
    assert_eq!(Vault::strip_frontmatter(""), "");
    assert_eq!(Vault::strip_frontmatter("--"), "--");
}

#[test]
fn strip_frontmatter_edge_cases() {
    assert_eq!(Vault::strip_frontmatter("---\n---"), "");
    assert_eq!(Vault::strip_frontmatter("---\n---\n\n\nbody"), "body");
    assert_eq!(Vault::strip_frontmatter("---\na: 1\n---- rest"), "- rest");
    assert_eq!(Vault::strip_frontmatter("---\na\n---\n---\nb\n---\nc"), "---\nb\n---\nc");
}

#[test]
fn frontmatter_block_is_the_text_between_the_fences() {
    assert_eq!(
        Vault::frontmatter_block("---\ntitle: T\ntags: [a]\n---\nbody"),
        Some("\ntitle: T\ntags: [a]".to_string())
    );
    assert_eq!(Vault::frontmatter_block("---\n---"), Some("".to_string()));
    assert_eq!(Vault::frontmatter_block("no front matter"), None);
    assert_eq!(Vault::frontmatter_block("---\nopen"), None);
}

#[test]
fn list_notes_keeps_markdown_files_in_order() {
    let entries = vec![
        entry("Projects", true),
        entry("b.md", false),
        entry("image.png", false),
        entry("Projects/a.md", false),
        entry("folder.md", true),
        entry("md", false),
    ];
    let notes = Vault::list_notes(&entries);
    let paths: Vec<&str> = notes.iter().map(|e| e.path.as_str()).collect();
    assert_eq!(paths, vec!["b.md", "Projects/a.md"]);
}

#[test]
fn is_note_path_checks_the_extension() {
    assert!(Vault::is_note_path("a.md"));
    assert!(Vault::is_note_path(".md"));
    assert!(!Vault::is_note_path("a.MD"));
    assert!(!Vault::is_note_path("a.md.bak"));
    assert!(!Vault::is_note_path("md"));
}

#[test]
fn file_stem_drops_folder_and_extension() {
    assert_eq!(Vault::file_stem("Projects/Synapse.md"), "Synapse");
    assert_eq!(Vault::file_stem("a.b.md"), "a.b");
    assert_eq!(Vault::file_stem("dir.x/readme"), "readme");
    assert_eq!(Vault::file_stem(".hidden"), ".hidden");
    assert_eq!(Vault::file_stem("x/.hidden.md"), ".hidden");
    assert_eq!(Vault::file_stem(""), "");
}

#[test]
fn file_stem_follows_the_path_rules_of_the_system() {
    for path in [
        "notes/", "notes//", "a/b/.", "a/./", "..", "a/..", "/", ".", "./", "a.md/", "x/y.tar.gz",
        "..a", "a.", "a/b/c.md", ".md", "dir/.hidden.txt", "a//b", "...", "a/...",
    ] {
        let expected = std::path::Path::new(path)
            .file_stem()
            .unwrap_or_default()
            .to_string_lossy()
            .to_string();
        assert_eq!(Vault::file_stem(path), expected, "{:?}", path);
    }
    assert_eq!(Vault::file_stem("notes/"), "notes");
    assert_eq!(Vault::file_stem("a/.."), "");
}

#[test]
fn cache_paths_lie_inside_the_vault() {
    assert_eq!(Vault::cache_dir("/home/me/vault"), "/home/me/vault/.synapse");
    assert_eq!(Vault::cache_dir("/home/me/vault/"), "/home/me/vault/.synapse");
    assert_eq!(Vault::cache_dir(""), ".synapse");
    assert_eq!(Vault::db_path("/home/me/vault"), "/home/me/vault/.synapse/cache.db");
    assert_eq!(Vault::db_path("v/"), "v/.synapse/cache.db");
    for base in ["/home/me/vault", "rel/", "", "/"] {
        let expected = std::path::Path::new(base).join(".synapse").join("cache.db");
        assert_eq!(Vault::db_path(base), expected.to_string_lossy());
    }
}

#[test]
fn hidden_names_begin_with_a_dot() {
    assert!(Vault::is_hidden_name(".synapse"));
    assert!(!Vault::is_hidden_name("notes"));
    assert!(!Vault::is_hidden_name(""));
}

#[test]
fn sanitize_filename_replaces_reserved_characters() {
    assert_eq!(sanitize_filename("a/b\\c:d*e?f\"g<h>i|j"), "a_b_c_d_e_f_g_h_i_j");
    assert_eq!(sanitize_filename("  My Note  "), "My Note");
    assert_eq!(sanitize_filename(" / "), "_");
}

#[test]
fn note_path_joins_folder_and_safe_title() {
    assert_eq!(Vault::note_path("", "Plan: Q3"), "Plan_ Q3.md");
    assert_eq!(Vault::note_path("Projects/2024", "Idea"), "Projects/2024/Idea.md");
}

#[test]
fn entry_takes_name_and_size_from_the_file() {
    let file = Vault::entry("Projects/Plan.md", false, 120, 5, 4);
    assert_eq!(file.path, "Projects/Plan.md");
    assert_eq!(file.name, "Plan");
    assert_eq!((file.is_dir, file.size, file.modified, file.created), (false, 120, 5, 4));
    let dir = Vault::entry("Projects", true, 4096, 1, 1);
    assert_eq!((dir.name.as_str(), dir.size), ("Projects", 0));
}

#[test]
fn sort_entries_puts_folders_first_then_alphabetical() {
    let entries = vec![
        entry("b.md", false),
        entry("Zeta", true),
        entry("A.md", false),
        entry("alpha", true),
        entry("a.md", false),
        entry("Alpha/x.md", false),
    ];
    let sorted = Vault::sort_entries(&entries);
    let paths: Vec<&str> = sorted.iter().map(|e| e.path.as_str()).collect();
    assert_eq!(paths, vec!["alpha", "Zeta", "A.md", "a.md", "Alpha/x.md", "b.md"]);
    assert!(Vault::sort_entries(&Vec::new()).is_empty());
}

#[test]
fn duplicate_path_numbers_the_copy() {
    assert_eq!(Vault::duplicate_path("Projects/Plan.md", "1"), "Projects/Plan 1.md");
    assert_eq!(Vault::duplicate_path("Plan.md", "12"), "Plan 12.md");
    assert_eq!(Vault::duplicate_path("a/b.c/readme", "2"), "a/b.c/readme 2");
    assert_eq!(Vault::duplicate_path("x/.hidden", "3"), "x/.hidden 3");
    assert_eq!(Vault::duplicate_path("archive.tar.gz", "4"), "archive.tar 4.gz");
    assert_eq!(Vault::duplicate_path("a/b/", "5"), "a/b 5");
    assert_eq!(Vault::duplicate_path("a/..", "6"), "a/ 6");
}

#[test]
fn new_note_text_has_front_matter_and_no_body() {
    let text = Vault::new_note_text("Plan: Q3", "2024-05-01");
    assert_eq!(
        text,
        "---\ntitle: Plan: Q3\ncreated: 2024-05-01\nmodified: 2024-05-01\ntags: []\n---\n\n"
    );
    assert_eq!(Vault::strip_frontmatter(&text), "");
}

#[test]
fn welcome_note_carries_the_date_twice() {
    let text = Vault::welcome_note("2024-05-01");
    assert!(text.starts_with("---\ntitle: Welcome to Synapse\ncreated: 2024-05-01\nmodified: 2024-05-01\ntags:\n  - getting-started\n---\n\n# Welcome to Synapse\n"));
    assert!(text.ends_with("Start writing and connecting your ideas!\n"));
    assert!(text.contains("- **Create new notes** \u{2014} Cmd+N\n"));
    assert_eq!(text.matches("2024-05-01").count(), 2);
    let index = synapse::indexer::index_note("Welcome to Synapse.md", &text, &[]);
    assert_eq!(index.title, "Welcome to Synapse");
    assert_eq!(index.outgoing_links, Vec::<String>::new());
}
