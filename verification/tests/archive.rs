use ngram::archive::{doc_contains_word, Archive};

#[test]
fn publish_search_retrieve_end_to_end() {
    let mut archive = Archive::new();
    let id = archive.publish(b"the cat sat".to_vec());
    assert_eq!(id, 0);
    assert_eq!(archive.search(&b"cat".to_vec()), vec![0]);
    assert_eq!(archive.retrieve(0), Some(b"the cat sat".to_vec()));
    assert_eq!(archive.retrieve(99), None);
}

#[test]
fn sequential_publishes_return_increasing_distinct_ids() {
    let mut archive = Archive::new();
    let first = archive.publish(b"one".to_vec());
    let second = archive.publish(b"two".to_vec());
    assert!(first < second);
    assert_eq!(first, 0);
    assert_eq!(second, 1);
}

#[test]
fn search_returns_every_matching_id_in_ascending_order() {
    let mut archive = Archive::new();
    archive.publish(b"the cat sat".to_vec());
    archive.publish(b"a dog ran".to_vec());
    archive.publish(b"cat and dog".to_vec());
    assert_eq!(archive.search(&b"cat".to_vec()), vec![0, 2]);
    assert_eq!(archive.search(&b"dog".to_vec()), vec![1, 2]);
    assert_eq!(archive.search(&b"fox".to_vec()), Vec::<u64>::new());
}

#[test]
fn search_matches_whole_tokens_only() {
    let mut archive = Archive::new();
    archive.publish(b"concatenate cats".to_vec());
    assert_eq!(archive.search(&b"cat".to_vec()), Vec::<u64>::new());
    assert_eq!(archive.search(&b"cats".to_vec()), vec![0]);
}

#[test]
fn word_containment_respects_boundaries() {
    assert!(doc_contains_word(&b"the cat sat".to_vec(), &b"the".to_vec()));
    assert!(doc_contains_word(&b"the cat sat".to_vec(), &b"sat".to_vec()));
    assert!(doc_contains_word(&b"cat".to_vec(), &b"cat".to_vec()));
    assert!(doc_contains_word(&b"a\tcat\nsat".to_vec(), &b"cat".to_vec()));
    assert!(!doc_contains_word(&b"scatter".to_vec(), &b"cat".to_vec()));
    assert!(!doc_contains_word(&b"the cat".to_vec(), &b"".to_vec()));
    // A candidate word that itself holds whitespace is never a token.
    assert!(!doc_contains_word(
        &b"the cat sat".to_vec(),
        &b"cat sat".to_vec()
    ));
}

#[test]
fn retrieve_of_an_empty_archive_is_absent() {
    let archive = Archive::new();
    assert_eq!(archive.retrieve(0), None);
}
