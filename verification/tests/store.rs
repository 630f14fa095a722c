use commonplace::store::{
    append_text, count_entries, entry_lines, forget_in, normalize_topic, remove_line, replace_line,
    sort_topics, topic_file_name, topic_of_file_name,
};

#[test]
fn normalize_topic_lowercases() {
    assert_eq!(normalize_topic("Preferences"), "preferences");
}

#[test]
fn normalize_topic_spaces_become_dashes() {
    assert_eq!(normalize_topic("my topic"), "my-topic");
}

#[test]
fn normalize_topic_trims_dashes() {
    assert_eq!(normalize_topic("-foo-"), "foo");
}

#[test]
fn normalize_topic_special_chars() {
    assert_eq!(normalize_topic("foo!bar"), "foo-bar");
}

#[test]
fn normalize_topic_all_separators_is_empty() {
    assert_eq!(normalize_topic("!!! ..."), "");
}

#[test]
fn normalize_topic_keeps_inner_dashes_and_unicode_letters() {
    assert_eq!(normalize_topic("  Über--Notes  "), "über--notes");
}

/// A topic file's text after writing the given entries on one date.
fn written(topic: &str, date: &str, entries: &[&str]) -> String {
    let mut content = String::new();
    for e in entries {
        let is_new = content.is_empty();
        content.push_str(&append_text(is_new, topic, date, e));
    }
    content
}

#[test]
fn write_then_read_roundtrip() {
    let content = written("test", "2026-04-28", &["hello world"]);
    assert!(content.contains("hello world"), "content: {}", content);
}

#[test]
fn write_creates_header() {
    let content = written("mytopic", "2026-04-28", &["some entry"]);
    assert!(content.starts_with("# mytopic"), "expected header, got: {}", content);
}

#[test]
fn write_multiple_entries() {
    let content = written("multi", "2026-04-28", &["entry one", "entry two", "entry three"]);
    assert!(content.contains("entry one"), "missing entry one");
    assert!(content.contains("entry two"), "missing entry two");
    assert!(content.contains("entry three"), "missing entry three");
}

#[test]
fn append_text_exact() {
    assert_eq!(append_text(true, "prefs", "2026-04-28", "hi"), "# prefs\n\n- 2026-04-28: hi\n");
    assert_eq!(append_text(false, "prefs", "2026-04-28", "hi"), "- 2026-04-28: hi\n");
}

#[test]
fn written_entries_read_back_in_order() {
    let content = written("multi", "2026-04-28", &["entry one", "entry two"]);
    assert_eq!(
        entry_lines(&content),
        vec!["- 2026-04-28: entry one".to_string(), "- 2026-04-28: entry two".to_string()]
    );
}

#[test]
fn list_topics_empty() {
    let topics = sort_topics(Vec::new());
    assert!(topics.is_empty(), "expected empty list, got {:?}", topics);
}

#[test]
fn list_topics_counts() {
    let prefs = written("prefs", "2026-04-28", &["pref one", "pref two"]);
    let errors = written("errors", "2026-04-28", &["error one"]);
    let topics = sort_topics(vec![
        ("prefs".to_string(), count_entries(&prefs)),
        ("errors".to_string(), count_entries(&errors)),
    ]);
    assert_eq!(topics.len(), 2);
    assert_eq!(topics[0].0, "errors");
    assert_eq!(topics[1].0, "prefs");
    let errors = topics.iter().find(|(n, _)| n == "errors").unwrap();
    let prefs = topics.iter().find(|(n, _)| n == "prefs").unwrap();
    assert_eq!(errors.1, 1, "errors count");
    assert_eq!(prefs.1, 2, "prefs count");
}

#[test]
fn sort_topics_orders_by_code_point_and_prefix() {
    let topics = sort_topics(vec![
        ("b".to_string(), 1),
        ("ab".to_string(), 2),
        ("a".to_string(), 3),
        ("Z".to_string(), 4),
    ]);
    let names: Vec<&str> = topics.iter().map(|(n, _)| n.as_str()).collect();
    assert_eq!(names, vec!["Z", "a", "ab", "b"]);
}

#[test]
fn forget_removes_matching() {
    let content = written("notes", "2026-04-28", &["keep this one", "remove the apple", "keep this too"]);
    let (after, removed) = forget_in(&content, "apple");
    let entry_lines: Vec<&str> = after.lines().filter(|l| l.starts_with("- ")).collect();
    assert_eq!(entry_lines.len(), 2, "expected 2 remaining entries");
    assert!(!after.contains("remove the apple"), "apple entry should be gone");
    assert_eq!(removed, vec!["- 2026-04-28: remove the apple".to_string()]);
}

#[test]
fn forget_case_insensitive() {
    let content = written("notes", "2026-04-28", &["This has UPPERCASE text", "this stays"]);
    let (after, _) = forget_in(&content, "uppercase");
    let entry_lines: Vec<&str> = after.lines().filter(|l| l.starts_with("- ")).collect();
    assert_eq!(entry_lines.len(), 1, "expected 1 remaining entry");
    assert!(!after.contains("UPPERCASE"), "uppercase entry should be gone");
}

#[test]
fn forget_rewrites_file_exactly() {
    let content = "# notes\n\n- 2026-04-28: a apple\n- 2026-04-28: b\n\n\n";
    let (after, removed) = forget_in(content, "APPLE");
    assert_eq!(after, "# notes\n\n- 2026-04-28: b\n");
    assert_eq!(removed.len(), 1);
}

#[test]
fn forget_never_removes_the_header() {
    let content = "# apple\n\n- 2026-04-28: b\n";
    let (after, removed) = forget_in(content, "apple");
    assert_eq!(after, content);
    assert!(removed.is_empty());
}

#[test]
fn forget_everything_leaves_one_line_break() {
    let (after, removed) = forget_in("- 2026-04-28: x\n", "x");
    assert_eq!(after, "\n");
    assert_eq!(removed.len(), 1);
}

#[test]
fn all_entries_returns_all() {
    let alpha = written("alpha", "2026-04-28", &["alpha entry one"]);
    let beta = written("beta", "2026-04-28", &["beta entry one", "beta entry two"]);
    let mut entries: Vec<(String, String)> = Vec::new();
    for (topic, content) in [("alpha", &alpha), ("beta", &beta)] {
        for line in entry_lines(content) {
            entries.push((topic.to_string(), line));
        }
    }
    assert_eq!(entries.len(), 3, "expected 3 total entries, got {}", entries.len());
    let alpha_count = entries.iter().filter(|(t, _)| t == "alpha").count();
    let beta_count = entries.iter().filter(|(t, _)| t == "beta").count();
    assert_eq!(alpha_count, 1);
    assert_eq!(beta_count, 2);
}

#[test]
fn force_path_skips_consolidation() {
    let content = written("prefs", "2026-04-28", &["loves rust", "loves rust"]);
    let entries: Vec<&str> = content.lines().filter(|l| l.starts_with("- ")).collect();
    assert_eq!(entries.len(), 2);
}

#[test]
fn tombstones_file_not_listed_as_topic() {
    let names = ["prefs.md", ".tombstones.md", ".index", "embeddings.db"];
    let topics: Vec<String> = names.iter().filter_map(|n| topic_of_file_name(n)).collect();
    assert_eq!(topics, vec!["prefs".to_string()], "tombstones file leaked: {:?}", topics);
}

#[test]
fn topic_file_names_round_trip() {
    assert_eq!(topic_file_name("my-topic"), "my-topic.md");
    assert_eq!(topic_of_file_name(&topic_file_name("my-topic")), Some("my-topic".to_string()));
    assert_eq!(topic_of_file_name("notes.MD"), None);
    assert_eq!(topic_of_file_name(".md"), None);
    assert_eq!(topic_of_file_name("a.b.md"), Some("a.b".to_string()));
    assert_eq!(topic_of_file_name(".hidden.md"), Some(".hidden".to_string()));
    assert_eq!(topic_of_file_name("..md"), Some(".".to_string()));
    assert_eq!(topic_of_file_name(".tombstones.md"), None);
}

#[test]
fn count_entries_ignores_header_and_other_lines() {
    let content = "# t\n\n- 2026-04-28: a\nnot an entry\n-no space\n- 2026-04-28: b\r\n";
    assert_eq!(count_entries(content), 2);
    assert_eq!(entry_lines(content)[1], "- 2026-04-28: b");
}

#[test]
fn replace_line_replaces_first_equal_line() {
    let content = "# t\n\n- a\n- a\n";
    assert_eq!(replace_line(content, "- a", "- b"), "# t\n\n- b\n- a\n");
    assert_eq!(replace_line(content, "- z", "- b"), content);
}

#[test]
fn remove_line_removes_first_equal_line() {
    let content = "# t\n\n- a\n- b\n- a\n";
    assert_eq!(remove_line(content, "- a"), "# t\n\n- b\n- a\n");
}

#[test]
fn normalize_topic_twice_is_once() {
    for name in ["My Topic!", "--Foo__Bar--", "a.b.c", "ALL CAPS 42", "x"] {
        let once = normalize_topic(name);
        assert_eq!(normalize_topic(&once), once, "name {:?}", name);
    }
}

#[test]
fn sort_topics_is_stable() {
    let v = vec![
        ("b".to_string(), 1),
        ("a".to_string(), 2),
        ("b".to_string(), 3),
        ("a".to_string(), 4),
    ];
    let r = sort_topics(v);
    assert_eq!(
        r,
        vec![("a".to_string(), 2), ("a".to_string(), 4), ("b".to_string(), 1), ("b".to_string(), 3)]
    );
}

#[test]
fn forget_ascii_matching_ignores_case() {
    let content = "# notes\n\n- 2026-04-28: This has UPPERCASE text\n- 2026-04-28: this stays\n";
    let (out, removed) = forget_in(content, "uppercase");
    assert_eq!(removed, vec!["- 2026-04-28: This has UPPERCASE text".to_string()]);
    assert_eq!(out, "# notes\n\n- 2026-04-28: this stays\n");
}

#[test]
fn normalize_topic_of_a_path() {
    assert_eq!(normalize_topic("../etc/passwd"), "etc-passwd");
    assert_eq!(normalize_topic("\u{00c9}T\u{00c9} Notes"), "\u{00e9}t\u{00e9}-notes");
}
