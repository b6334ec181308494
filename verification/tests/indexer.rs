use synapse::indexer::{count_words, extract_headings, extract_tags, extract_wikilinks};

#[test]
fn test_extract_wikilinks() {
    let content = "Hello [[World]] and [[Another Note|alias]] stuff [[Note#Heading]]";
    let links = extract_wikilinks(content);
    assert_eq!(links, vec!["World", "Another Note", "Note"]);
}

#[test]
fn test_extract_tags() {
    let content = "This has #tag1 and #nested/tag and #multi-word\nNo #heading here";
    let tags = extract_tags(content);
    assert!(tags.contains(&"#tag1".to_string()));
    assert!(tags.contains(&"#nested/tag".to_string()));
    assert!(tags.contains(&"#multi-word".to_string()));
}

#[test]
fn test_extract_headings() {
    let content = "# Title\n## Section\n### Subsection\nRegular text";
    let headings = extract_headings(content);
    assert_eq!(headings.len(), 3);
    assert_eq!(headings[0].level, 1);
    assert_eq!(headings[0].text, "Title");
}

#[test]
fn wikilinks_with_block_id_and_padding() {
    let links = extract_wikilinks("see [[  Note ^abc ]] and [[#only-heading]] and [[|x]]");
    assert_eq!(links, vec!["Note"]);
}

#[test]
fn wikilinks_nested_brackets_are_balanced() {
    let links = extract_wikilinks("[[a[b]c]] then [[d]]");
    assert_eq!(links, vec!["a[b]c", "d"]);
    assert_eq!(extract_wikilinks("[[a[b]c]] [[D]]"), vec!["a[b]c", "D"]);
    assert_eq!(extract_wikilinks("[[x[[y]]z]]"), vec!["x[[y]]z"]);
    assert_eq!(extract_wikilinks("[[a[b|c]d]]"), vec!["a[b"]);
}

#[test]
fn wikilinks_unterminated_span_gives_nothing() {
    assert_eq!(extract_wikilinks("start [[never closed"), Vec::<String>::new());
    assert_eq!(extract_wikilinks("[[a]] and [[open [[b]] more"), vec!["a"]);
}

#[test]
fn wikilinks_duplicates_are_kept() {
    assert_eq!(extract_wikilinks("[[A]]\n[[A]]"), vec!["A", "A"]);
}

#[test]
fn wikilinks_single_bracket_is_no_link() {
    assert_eq!(extract_wikilinks("[a] [b]"), Vec::<String>::new());
    assert_eq!(extract_wikilinks(""), Vec::<String>::new());
    assert_eq!(extract_wikilinks("["), Vec::<String>::new());
}

#[test]
fn tags_in_order_of_first_occurrence_without_repeats() {
    let tags = extract_tags("#b #a #b\n#c,#a");
    assert_eq!(tags, vec!["#b", "#a", "#c"]);
}

#[test]
fn tags_exact_for_boundary_example() {
    let tags = extract_tags("This has #tag1 and #nested/tag and #multi-word\nNo #heading here");
    assert_eq!(tags, vec!["#tag1", "#nested/tag", "#multi-word", "#heading"]);
}

#[test]
fn tags_heading_marker_is_no_tag() {
    assert_eq!(extract_tags("# Title"), Vec::<String>::new());
    assert_eq!(extract_tags("## Section"), Vec::<String>::new());
    assert_eq!(extract_tags("# Title #real"), vec!["#real"]);
}

#[test]
fn tags_need_a_boundary_and_a_body() {
    assert_eq!(extract_tags("a#b # #- x,#y"), vec!["#-", "#y"]);
    assert_eq!(extract_tags("http://x.org/#frag"), Vec::<String>::new());
}

#[test]
fn tags_skip_code() {
    let text = "```\n#inblock\n```\n`#inline` #out\n  ```rust\n#again\n```";
    assert_eq!(extract_tags(text), vec!["#out"]);
}

#[test]
fn tags_inline_code_ends_with_its_line() {
    assert_eq!(extract_tags("a ` b\n#tag"), vec!["#tag"]);
    assert_eq!(extract_tags("`open #hidden\n#shown ` #hidden2 ` #again"), vec!["#shown", "#again"]);
    assert_eq!(extract_tags("x `#in` #out `#in2"), vec!["#out"]);
}

#[test]
fn wikilinks_need_both_closing_brackets() {
    assert_eq!(extract_wikilinks("[[a]"), Vec::<String>::new());
    assert_eq!(extract_wikilinks("[[a]b [[c]]"), vec!["c"]);
    assert_eq!(extract_wikilinks("[[a] ]] [[d]]"), vec!["d"]);
    assert_eq!(extract_wikilinks("[[a]]]"), vec!["a"]);
    assert_eq!(extract_wikilinks("[[a]][[b]]"), vec!["a", "b"]);
}

#[test]
fn tags_unicode_letters() {
    assert_eq!(extract_tags("#caf\u{e9} #\u{65e5}\u{672c}"), vec!["#caf\u{e9}", "#\u{65e5}\u{672c}"]);
    assert_eq!(extract_tags("x\u{a0}#nbsp"), vec!["#nbsp"]);
}

#[test]
fn headings_levels_lines_and_text() {
    let headings = extract_headings("# Title\n## Section\n### Subsection\nRegular text");
    let levels: Vec<u8> = headings.iter().map(|h| h.level).collect();
    let lines: Vec<usize> = headings.iter().map(|h| h.line).collect();
    let texts: Vec<&str> = headings.iter().map(|h| h.text.as_str()).collect();
    assert_eq!(levels, vec![1, 2, 3]);
    assert_eq!(lines, vec![1, 2, 3]);
    assert_eq!(texts, vec!["Title", "Section", "Subsection"]);
}

#[test]
fn headings_edge_cases() {
    let headings = extract_headings("text\n\n   ###   Deep  \n#######  seven\n#\n#tight\r\n###### six");
    let got: Vec<(String, u8, usize)> =
        headings.iter().map(|h| (h.text.clone(), h.level, h.line)).collect();
    assert_eq!(
        got,
        vec![
            ("Deep".to_string(), 3, 3),
            ("tight".to_string(), 1, 6),
            ("six".to_string(), 6, 7),
        ]
    );
}

#[test]
fn count_words_skips_fenced_blocks() {
    assert_eq!(count_words("one two  three\n```\nnot counted here\n```\nfour"), 4);
    assert_eq!(count_words(""), 0);
    assert_eq!(count_words("   \n\t\n"), 0);
    assert_eq!(count_words("a\u{3000}b\tc\r\nd"), 4);
}

#[test]
fn count_words_unclosed_fence_hides_the_rest() {
    assert_eq!(count_words("a b\n```\nc d\ne"), 2);
}

#[test]
fn index_note_builds_the_whole_record() {
    let content = "---\ntitle: Ignored here\ntags: [x]\n---\n\n# Heading One\nSee [[Other]] and #body-tag.\n```\n#code [[NotCounted]] words\n```\n## Two\n";
    let index = synapse::indexer::index_note(
        "Projects/Plan.md",
        content,
        &["x".to_string(), "#body-tag".to_string(), "#y".to_string()],
    );
    assert_eq!(index.path, "Projects/Plan.md");
    assert_eq!(index.title, "Heading One");
    assert_eq!(index.outgoing_links, vec!["Other", "NotCounted"]);
    assert_eq!(index.tags, vec!["#body-tag", "#x", "#y"]);
    let headings: Vec<(String, u8, usize)> =
        index.headings.iter().map(|h| (h.text.clone(), h.level, h.line)).collect();
    assert_eq!(
        headings,
        vec![
            ("Heading One".to_string(), 1, 1),
            ("code [[NotCounted]] words".to_string(), 1, 4),
            ("Two".to_string(), 2, 6),
        ]
    );
    assert_eq!(index.word_count, 9);
}

#[test]
fn index_note_title_falls_back_to_the_file_name() {
    let index = synapse::indexer::index_note("Inbox/Loose thoughts.md", "just text", &[]);
    assert_eq!(index.title, "Loose thoughts");
    assert_eq!(index.word_count, 2);
    assert!(index.tags.is_empty());
    assert!(index.headings.is_empty());
    assert!(index.outgoing_links.is_empty());
}

#[test]
fn index_note_ignores_front_matter_content() {
    let content = "---\n# not a heading\nnote: #not-a-tag [[NotALink]]\n---\nbody";
    let index = synapse::indexer::index_note("n.md", content, &[]);
    assert!(index.headings.is_empty());
    assert!(index.tags.is_empty());
    assert!(index.outgoing_links.is_empty());
    assert_eq!(index.word_count, 1);
    assert_eq!(index.title, "n");
}

#[test]
fn index_note_twice_gives_the_same_record() {
    let content = "# T\n#a #b #a [[L]] [[L]]\ntext";
    let tags = vec!["b".to_string(), "c".to_string()];
    let one = synapse::indexer::index_note("p.md", content, &tags);
    let two = synapse::indexer::index_note("p.md", content, &tags);
    assert_eq!(one.path, two.path);
    assert_eq!(one.title, two.title);
    assert_eq!(one.outgoing_links, two.outgoing_links);
    assert_eq!(one.tags, two.tags);
    assert_eq!(one.tags, vec!["#a", "#b", "#c"]);
    assert_eq!(one.headings.len(), two.headings.len());
    assert_eq!(one.word_count, two.word_count);
}

#[test]
fn infer_title_prefers_front_matter_then_heading_then_file_name() {
    let headings = extract_headings("intro\n## First\n# Second");
    let none: Vec<synapse::indexer::Heading> = Vec::new();
    assert_eq!(
        synapse::indexer::infer_title("a/b.md", &headings, &Some("From FM".to_string())),
        "From FM"
    );
    assert_eq!(synapse::indexer::infer_title("a/b.md", &headings, &None), "First");
    assert_eq!(synapse::indexer::infer_title("a/b.md", &none, &None), "b");
}

#[test]
fn whitespace_is_what_the_system_calls_whitespace() {
    let listed = |c: char| {
        ('\u{9}'..='\u{d}').contains(&c)
            || c == ' '
            || c == '\u{85}'
            || c == '\u{a0}'
            || c == '\u{1680}'
            || ('\u{2000}'..='\u{200a}').contains(&c)
            || c == '\u{2028}'
            || c == '\u{2029}'
            || c == '\u{202f}'
            || c == '\u{205f}'
            || c == '\u{3000}'
    };
    let mut count = 0;
    for code in 0..=0x10ffffu32 {
        if let Some(c) = char::from_u32(code) {
            assert_eq!(c.is_whitespace(), listed(c), "{:x}", code);
            if listed(c) {
                count += 1;
                assert_eq!(count_words(&format!("a{}b", c)), 2, "{:x}", code);
            }
        }
    }
    assert_eq!(count, 25);
    for c in ['\u{180e}', '\u{200b}', '\u{feff}', '\u{1f}', '_'] {
        assert_eq!(count_words(&format!("a{}b", c)), 1);
    }
}
