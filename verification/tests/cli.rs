use commonplace::cli::{forget_request, read_request, search_request, write_request, UsageError};

fn args(items: &[&str]) -> Vec<String> {
    items.iter().map(|s| s.to_string()).collect()
}

#[test]
fn write_request_joins_entry_and_finds_force() {
    let w = write_request(&args(&["My Topic", "likes", "--force", "TDD"])).unwrap();
    assert_eq!(w.topic, "my-topic");
    assert_eq!(w.entry, "likes TDD");
    assert!(w.force);
    let w = write_request(&args(&["prefs", "hi"])).unwrap();
    assert!(!w.force);
}

#[test]
fn write_request_errors() {
    assert_eq!(write_request(&args(&["prefs", "--force"])).err(), Some(UsageError::WriteUsage));
    assert_eq!(write_request(&args(&["!!!", "x"])).err(), Some(UsageError::EmptyTopic));
    assert_eq!(write_request(&args(&["prefs", "  ", "\t"])).err(), Some(UsageError::EmptyEntry));
    assert_eq!(
        UsageError::EmptyTopic.message(),
        "topic name is empty after normalization"
    );
    assert_eq!(UsageError::EmptyEntry.message(), "entry cannot be empty");
}

#[test]
fn search_request_reads_options() {
    let s = search_request(&args(&["testing", "--limit", "3", "approach", "--semantic"])).unwrap();
    assert_eq!(s.query, "testing approach");
    assert_eq!(s.limit, 3);
    assert!(s.semantic);
    let s = search_request(&args(&["a", "--limit", "5", "--limit", "+7"])).unwrap();
    assert_eq!(s.limit, 7);
    let s = search_request(&args(&["a", "--limit"])).unwrap();
    assert_eq!(s.query, "a --limit");
    assert_eq!(s.limit, 10);
    assert!(!s.semantic);
}

#[test]
fn search_request_errors() {
    assert_eq!(search_request(&args(&[])).err(), Some(UsageError::SearchUsage));
    assert_eq!(search_request(&args(&["a", "--limit", "ten"])).err(), Some(UsageError::InvalidLimit));
    assert_eq!(UsageError::InvalidLimit.message(), "invalid --limit value");
}

#[test]
fn read_and_forget_requests() {
    assert_eq!(read_request(&args(&["Errors"])), Ok("errors".to_string()));
    assert_eq!(read_request(&args(&[])), Err(UsageError::ReadUsage));
    assert_eq!(
        forget_request(&args(&["notes", "the", "apple"])),
        Ok(("notes".to_string(), "the apple".to_string()))
    );
    assert_eq!(forget_request(&args(&["notes"])), Err(UsageError::ForgetUsage));
}
