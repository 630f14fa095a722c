use commonplace::bm25::{tokenize, DecodeError, Index};

fn entries(items: &[(&str, &str)]) -> Vec<(String, String)> {
    items.iter().map(|(t, l)| (t.to_string(), l.to_string())).collect()
}

#[test]
fn tokenize_lowercases_and_splits() {
    assert_eq!(
        tokenize("- 2026-04-28: Likes TDD (test-driven development)!"),
        vec!["2026", "04", "28", "likes", "tdd", "test", "driven", "development"]
    );
    assert!(tokenize("  ,;  ").is_empty());
    assert_eq!(tokenize("- 2026-04-28: Rust, is FUN!"), vec!["2026", "04", "28", "rust", "is", "fun"]);
}

#[test]
fn build_counts_terms_per_document() {
    let idx = Index::build(&entries(&[
        ("prefs", "- 2026-04-28: rust rust go"),
        ("errors", "- 2026-04-28: go away"),
    ]));
    assert_eq!(idx.num_docs(), 2);
    let (topic, text, count) = idx.doc(0);
    assert_eq!(topic, "prefs");
    assert_eq!(text, "- 2026-04-28: rust rust go");
    assert_eq!(count, 6);
    assert_eq!(idx.postings("rust"), Some(vec![(0, 2)]));
    assert_eq!(idx.postings("go"), Some(vec![(0, 1), (1, 1)]));
    assert_eq!(idx.postings("2026"), Some(vec![(0, 1), (1, 1)]));
    assert_eq!(idx.postings("python"), None);
    assert_eq!(idx.postings("Rust"), None);
}

#[test]
fn saved_index_reads_back() {
    let idx = Index::build(&entries(&[
        ("prefs", "- 2026-04-28: likes TDD, always write tests first"),
        ("errors", "- 2026-04-28: importlib fails \u{2014} use local_version"),
    ]));
    let bits = 7.5f64.to_bits();
    let bytes = idx.encode(bits);
    assert_eq!(&bytes[0..4], b"CPB1");
    let (back, b) = Index::decode(&bytes).unwrap();
    assert_eq!(b, bits);
    assert_eq!(back.num_docs(), 2);
    assert_eq!(back.doc(1), idx.doc(1));
    for term in ["likes", "tdd", "importlib", "2026", "local_version", "local", "version", "nope"] {
        assert_eq!(back.postings(term), idx.postings(term), "term {}", term);
    }
}

#[test]
fn empty_index_saved_form() {
    let idx = Index::build(&Vec::new());
    let bytes = idx.encode(0);
    assert_eq!(bytes, b"CPB1\0\0\0\0\0\0\0\0\0\0\0\0\0\0\0\0".to_vec());
    let (back, b) = Index::decode(&bytes).unwrap();
    assert_eq!(back.num_docs(), 0);
    assert_eq!(b, 0);
}

#[test]
fn decode_refuses_bad_magic() {
    assert_eq!(Index::decode(b"CPB2xxxx").err(), Some(DecodeError::BadMagic));
    assert_eq!(Index::decode(b"CP").err(), Some(DecodeError::BadMagic));
}

#[test]
fn decode_refuses_truncated() {
    let idx = Index::build(&entries(&[("t", "- 2026-04-28: hello")]));
    let bytes = idx.encode(1);
    for cut in [4usize, 7, 10, 16, 20, bytes.len() - 1] {
        assert_eq!(Index::decode(&bytes[..cut]).err(), Some(DecodeError::Truncated), "cut {}", cut);
    }
}

#[test]
fn decode_refuses_invalid_utf8() {
    let mut bytes = b"CPB1".to_vec();
    bytes.extend_from_slice(&1u32.to_le_bytes());
    bytes.extend_from_slice(&0u64.to_le_bytes());
    bytes.extend_from_slice(&2u32.to_le_bytes());
    bytes.extend_from_slice(&[0xff, 0xfe]);
    assert_eq!(Index::decode(&bytes).err(), Some(DecodeError::InvalidUtf8));
}

#[test]
fn decode_keeps_last_listing_of_a_term() {
    let mut bytes = b"CPB1".to_vec();
    bytes.extend_from_slice(&0u32.to_le_bytes());
    bytes.extend_from_slice(&0u64.to_le_bytes());
    bytes.extend_from_slice(&2u32.to_le_bytes());
    for tf in [3u32, 4u32] {
        bytes.extend_from_slice(&1u32.to_le_bytes());
        bytes.extend_from_slice(b"a");
        bytes.extend_from_slice(&1u32.to_le_bytes());
        bytes.extend_from_slice(&0u32.to_le_bytes());
        bytes.extend_from_slice(&tf.to_le_bytes());
    }
    bytes.extend_from_slice(b"trailing bytes are ignored");
    let (idx, _) = Index::decode(&bytes).unwrap();
    assert_eq!(idx.postings("a"), Some(vec![(0, 4)]));
}

#[test]
fn total_tokens_sums_document_lengths() {
    let idx = Index::build(&entries(&[
        ("prefs", "- 2026-04-28: rust rust go"),
        ("errors", "- 2026-04-28: go away"),
    ]));
    assert_eq!(idx.total_tokens(), 11);
    assert_eq!(Index::build(&Vec::new()).total_tokens(), 0);
}
