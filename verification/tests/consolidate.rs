use commonplace::consolidate::{age_and_count, decide, parse_line, render_line, tombstone_record, Closeness, Outcome};
use commonplace::store::{append_text, entry_lines, remove_line, replace_line};

#[test]
fn parse_plain_line() {
    let (d, b, c) = parse_line("- 2026-04-28: hello world").unwrap();
    assert_eq!(d, "2026-04-28");
    assert_eq!(b, "hello world");
    assert_eq!(c, 1);
}

#[test]
fn parse_with_counter() {
    let (d, b, c) = parse_line("- 2026-04-28: prefers TDD [\u{00d7}3]").unwrap();
    assert_eq!(d, "2026-04-28");
    assert_eq!(b, "prefers TDD");
    assert_eq!(c, 3);
}

#[test]
fn render_omits_counter_for_one() {
    assert_eq!(render_line("2026-04-28", "hi", 1), "- 2026-04-28: hi");
}

#[test]
fn render_includes_counter_for_n() {
    assert_eq!(render_line("2026-04-28", "hi", 5), "- 2026-04-28: hi [\u{00d7}5]");
}

#[test]
fn parse_render_roundtrip() {
    let line = "- 2026-04-28: hello [\u{00d7}7]";
    let (d, b, c) = parse_line(line).unwrap();
    assert_eq!(render_line(&d, &b, c), line);
}

#[test]
fn parse_rejects_non_entry() {
    assert!(parse_line("# header").is_none());
    assert!(parse_line("").is_none());
    assert!(parse_line("- not a date: oops").is_none());
}

#[test]
fn parse_counter_that_is_not_a_number_stays_in_body() {
    let (_, b, c) = parse_line("- 2026-04-28: odd [\u{00d7}x]").unwrap();
    assert_eq!(b, "odd [\u{00d7}x]");
    assert_eq!(c, 1);
}

#[test]
fn parse_counter_with_plus_sign() {
    let (_, b, c) = parse_line("- 2026-04-28: noted [\u{00d7}+4]").unwrap();
    assert_eq!(b, "noted");
    assert_eq!(c, 4);
}

#[test]
fn parse_counter_too_large_stays_in_body() {
    let (_, b, c) = parse_line("- 2026-04-28: big [\u{00d7}4294967296]").unwrap();
    assert_eq!(b, "big [\u{00d7}4294967296]");
    assert_eq!(c, 1);
}

#[test]
fn parse_uses_the_last_counter() {
    let (_, b, c) = parse_line("- 2026-04-28: a [\u{00d7}2] b [\u{00d7}9]").unwrap();
    assert_eq!(b, "a [\u{00d7}2] b");
    assert_eq!(c, 9);
}

#[test]
fn render_zero_counter_has_no_suffix() {
    assert_eq!(render_line("2026-04-28", "hi", 0), "- 2026-04-28: hi");
}

#[test]
fn render_then_parse_keeps_fields() {
    let line = render_line("2025-01-02", "uses rust [\u{00d7}x] daily", 12);
    let (d, b, c) = parse_line(&line).unwrap();
    assert_eq!(d, "2025-01-02");
    assert_eq!(b, "uses rust [\u{00d7}x] daily");
    assert_eq!(c, 12);
}

/// Same bag-of-words stand-in for an embedding as the notebook's own tests
/// use: identical text gives cosine 1, disjoint text gives 0.
fn fake_embed(text: &str) -> Vec<f32> {
    const DIM: usize = 64;
    let mut v = vec![0.0f32; DIM];
    for tok in text.to_lowercase().split(|c: char| !c.is_alphanumeric()) {
        if tok.is_empty() {
            continue;
        }
        let mut h: u64 = 1469598103934665603;
        for b in tok.as_bytes() {
            h ^= *b as u64;
            h = h.wrapping_mul(1099511628211);
        }
        let i = (h as usize) % DIM;
        v[i] += 1.0;
    }
    v
}

fn cosine(a: &[f32], b: &[f32]) -> f32 {
    if a.len() != b.len() || a.is_empty() {
        return 0.0;
    }
    let dot: f32 = a.iter().zip(b.iter()).map(|(x, y)| x * y).sum();
    let na: f32 = a.iter().map(|x| x * x).sum::<f32>().sqrt();
    let nb: f32 = b.iter().map(|x| x * x).sum::<f32>().sqrt();
    if na == 0.0 || nb == 0.0 {
        return 0.0;
    }
    dot / (na * nb)
}

/// The most similar existing entry line of a topic file and its closeness,
/// as the write command picks it.
fn best_match(content: &str, new_entry: &str) -> Option<(String, Closeness)> {
    let new_vec = fake_embed(new_entry);
    let mut best: Option<(String, f32)> = None;
    for line in entry_lines(content) {
        let body = match parse_line(&line) {
            Some((_, b, _)) => b,
            None => continue,
        };
        let sim = cosine(&new_vec, &fake_embed(&body));
        if best.as_ref().map_or(true, |(_, s)| sim > *s) {
            best = Some((line, sim));
        }
    }
    best.map(|(l, s)| {
        let c = if s >= 0.95 {
            Closeness::Restates
        } else if s >= 0.85 {
            Closeness::Refines
        } else {
            Closeness::Unrelated
        };
        (l, c)
    })
}

/// Writes an entry into a topic file's text the way the write command does.
fn consolidate_into(content: &mut String, log: &mut String, topic: &str, today: &str, entry: &str) -> Outcome {
    let best = best_match(content, entry);
    let outcome = decide(today, entry, best);
    match &outcome {
        Outcome::Appended => {
            let is_new = content.is_empty();
            content.push_str(&append_text(is_new, topic, today, entry));
        }
        Outcome::Reaffirmed { old, new, .. } => {
            if old != new {
                *content = replace_line(content, old, new);
            }
            log.push_str(&tombstone_record(today, topic, "reaffirm", old, new));
        }
        Outcome::Superseded { old, new } => {
            *content = remove_line(content, old);
            content.push_str(&append_text(false, topic, today, entry));
            log.push_str(&tombstone_record(today, topic, "supersede", old, new));
        }
    }
    outcome
}

#[test]
fn appended_when_no_existing() {
    let mut content = String::new();
    let mut log = String::new();
    let out = consolidate_into(&mut content, &mut log, "prefs", "2026-04-28", "loves rust programming");
    assert!(matches!(out, Outcome::Appended));
    assert!(content.contains("loves rust programming"));
}

#[test]
fn appended_when_dissimilar() {
    let mut content = String::new();
    let mut log = String::new();
    consolidate_into(&mut content, &mut log, "prefs", "2026-04-28", "loves rust programming");
    let out = consolidate_into(
        &mut content,
        &mut log,
        "prefs",
        "2026-04-28",
        "completely different topic about gardening tomatoes",
    );
    assert!(matches!(out, Outcome::Appended), "got {:?}", out);
    assert!(content.contains("loves rust programming"));
    assert!(content.contains("gardening tomatoes"));
}

#[test]
fn reaffirmed_when_identical() {
    let mut content = String::new();
    let mut log = String::new();
    consolidate_into(&mut content, &mut log, "prefs", "2026-04-28", "likes TDD test driven development");
    let out = consolidate_into(&mut content, &mut log, "prefs", "2026-04-28", "likes TDD test driven development");
    match out {
        Outcome::Reaffirmed { count, .. } => assert_eq!(count, 2),
        other => panic!("expected Reaffirmed, got {:?}", other),
    }
    let entries: Vec<String> = entry_lines(&content);
    assert_eq!(entries.len(), 1, "got: {:?}", entries);
    assert!(entries[0].ends_with("[\u{00d7}2]"), "got: {}", entries[0]);

    let out = consolidate_into(&mut content, &mut log, "prefs", "2026-04-28", "likes TDD test driven development");
    match out {
        Outcome::Reaffirmed { count, .. } => assert_eq!(count, 3),
        other => panic!("expected Reaffirmed, got {:?}", other),
    }
    let entries: Vec<String> = entry_lines(&content);
    assert_eq!(entries.len(), 1);
    assert!(entries[0].ends_with("[\u{00d7}3]"));
}

#[test]
fn superseded_when_medium_similarity() {
    let mut content = String::new();
    let mut log = String::new();
    let base = "uses postgres for relational data storage backend";
    consolidate_into(&mut content, &mut log, "decisions", "2026-04-28", base);
    let new_entry = "uses postgres for relational data storage backend system database";
    let out = consolidate_into(&mut content, &mut log, "decisions", "2026-04-28", new_entry);
    match out {
        Outcome::Superseded { old, new } => {
            assert!(old.contains(base));
            assert!(new.contains(new_entry));
        }
        other => panic!("expected Superseded, got {:?}", other),
    }
    let entries: Vec<String> = entry_lines(&content);
    assert_eq!(entries.len(), 1, "old entry should be replaced; got {:?}", entries);
    assert!(entries[0].contains(new_entry));
    assert!(log.contains("supersede"), "got: {}", log);
}

#[test]
fn tombstone_logged_on_reaffirm() {
    let mut content = String::new();
    let mut log = String::new();
    consolidate_into(&mut content, &mut log, "prefs", "2026-04-28", "loves rust");
    consolidate_into(&mut content, &mut log, "prefs", "2026-04-28", "loves rust");
    assert!(log.contains("reaffirm"), "got: {}", log);
    assert!(log.contains("[prefs]"));
}

#[test]
fn reaffirm_bumps_date_and_counter() {
    let out = decide(
        "2026-05-01",
        "loves rust",
        Some(("- 2025-09-01: loves rust [\u{00d7}4]".to_string(), Closeness::Restates)),
    );
    match out {
        Outcome::Reaffirmed { old, new, count } => {
            assert_eq!(old, "- 2025-09-01: loves rust [\u{00d7}4]");
            assert_eq!(new, "- 2026-05-01: loves rust [\u{00d7}5]");
            assert_eq!(count, 5);
        }
        other => panic!("expected Reaffirmed, got {:?}", other),
    }
}

#[test]
fn refined_entry_is_superseded_with_todays_line() {
    let out = decide(
        "2026-05-01",
        "chose hybrid search",
        Some(("- 2025-09-01: chose pure BM25 search".to_string(), Closeness::Refines)),
    );
    match out {
        Outcome::Superseded { old, new } => {
            assert_eq!(old, "- 2025-09-01: chose pure BM25 search");
            assert_eq!(new, "- 2026-05-01: chose hybrid search");
        }
        other => panic!("expected Superseded, got {:?}", other),
    }
}

#[test]
fn unrelated_entry_is_appended() {
    let out = decide("2026-05-01", "x", Some(("- 2025-09-01: y".to_string(), Closeness::Unrelated)));
    assert!(matches!(out, Outcome::Appended));
}

#[test]
fn restating_an_unparsable_line_supersedes_it() {
    let out = decide("2026-05-01", "x", Some(("- yesterday: y".to_string(), Closeness::Restates)));
    match out {
        Outcome::Superseded { old, new } => {
            assert_eq!(old, "- yesterday: y");
            assert_eq!(new, "- 2026-05-01: x");
        }
        other => panic!("expected Superseded, got {:?}", other),
    }
}

#[test]
fn tombstone_record_format() {
    let r = tombstone_record(
        "2026-04-28",
        "decisions",
        "supersede",
        "- 2025-09-01: chose pure BM25 search",
        "- 2026-04-28: chose hybrid search over pure BM25",
    );
    assert_eq!(
        r,
        "## 2026-04-28 [decisions] supersede\nold: - 2025-09-01: chose pure BM25 search\nnew: - 2026-04-28: chose hybrid search over pure BM25\n\n"
    );
}

#[test]
fn parse_rejects_date_field_with_multibyte_character() {
    assert_eq!(parse_line("- 123456789\u{e9}: x"), None);
    assert_eq!(parse_line("- 2026-04-2\u{e9}: split"), None);
    assert_eq!(age_and_count("- 2026-04-2\u{e9}: split", 20571), None);
}

#[test]
fn age_and_count_of_entry_lines() {
    // 2026-04-28 is day 20571 after 1970-01-01.
    assert_eq!(age_and_count("- 2026-04-28: hi [\u{00d7}3]", 20571 + 365), Some((365, 3)));
    assert_eq!(age_and_count("- 2026-04-28: hi", 20571), Some((0, 1)));
    assert_eq!(age_and_count("- 2026-04-28: hi", 20000), Some((0, 1)));
    assert_eq!(age_and_count("- 2026-13-28: hi", 20571), Some((0, 1)));
    assert_eq!(age_and_count("# header", 20571), None);
}
