use kv_index::KVIndex;

#[test]
fn duplicate_ingestion_is_ignored() {
    let mut idx = KVIndex::new();
    idx.add_doc("d1".to_string(), "a b".to_string());
    let before = idx.search("a".to_string(), 5);
    idx.add_doc("d1".to_string(), "completely different words".to_string());
    let after = idx.search("a".to_string(), 5);
    assert_eq!(before, after);
    assert_eq!(idx.get_doc("d1".to_string()), Some("a b".to_string()));
    // The second text was never indexed.
    assert_eq!(idx.search("different".to_string(), 5).len(), 0);
}

#[test]
fn search_with_no_matches_returns_empty() {
    let mut idx = KVIndex::new();
    idx.add_doc("d1".to_string(), "the cat sat on the mat".to_string());
    idx.add_doc("d2".to_string(), "the cat sat".to_string());
    assert_eq!(idx.search("zzz_nonexistent".to_string(), 5).len(), 0);
}

#[test]
fn ranking_prefers_shorter_document_with_equal_tf() {
    let mut idx = KVIndex::new();
    idx.add_doc("d1".to_string(), "the cat sat on the mat".to_string());
    idx.add_doc("d2".to_string(), "the cat sat".to_string());
    let r = idx.search("cat".to_string(), 2);
    assert_eq!(r.len(), 2);
    assert_eq!(r[0].0, "d2");
    assert_eq!(r[1].0, "d1");
    assert!(r[0].1 > 0);
    assert!(r[1].1 > 0);
    assert!(r[0].1 >= r[1].1);
    // Exact fixed-point scores (millionths): idf = ln(6/5) ~ 0.182320.
    assert_eq!(r[0].1, 214_494);
    assert_eq!(r[1].1, 158_539);
}

#[test]
fn k_truncation_returns_the_two_highest_of_five() {
    let mut idx = KVIndex::new();
    idx.add_doc("c1".to_string(), "term".to_string());
    idx.add_doc("c2".to_string(), "term pad1".to_string());
    idx.add_doc("c3".to_string(), "term pad1 pad2".to_string());
    idx.add_doc("c4".to_string(), "term pad1 pad2 pad3".to_string());
    idx.add_doc("c5".to_string(), "term pad1 pad2 pad3 pad4".to_string());
    let all = idx.search("term".to_string(), 10);
    assert_eq!(all.len(), 5);
    let r = idx.search("term".to_string(), 2);
    assert_eq!(r.len(), 2);
    // Shorter documents score higher under length normalization.
    assert_eq!(r[0].0, "c1");
    assert_eq!(r[1].0, "c2");
    assert_eq!(r[0].1, all[0].1);
    assert_eq!(r[1].1, all[1].1);
    assert!(r[1].1 >= all[2].1);
}

#[test]
fn k_zero_returns_empty() {
    let mut idx = KVIndex::new();
    idx.add_doc("d1".to_string(), "something here".to_string());
    assert_eq!(idx.search("something".to_string(), 0).len(), 0);
}

#[test]
fn empty_query_returns_empty() {
    let mut idx = KVIndex::new();
    idx.add_doc("d1".to_string(), "something here".to_string());
    assert_eq!(idx.search("".to_string(), 5).len(), 0);
}

#[test]
fn clear_resets_state() {
    let mut idx = KVIndex::new();
    idx.add_doc("d1".to_string(), "alpha beta".to_string());
    idx.add_doc("d2".to_string(), "beta gamma".to_string());
    idx.clear();
    assert_eq!(idx.search("beta".to_string(), 5).len(), 0);
    assert_eq!(idx.get_doc("d1".to_string()), None);
    assert_eq!(idx.get_doc("d2".to_string()), None);
    // The index is usable again after clearing.
    idx.add_doc("d1".to_string(), "delta".to_string());
    assert_eq!(idx.search("delta".to_string(), 5).len(), 1);
}

#[test]
fn fresh_index_search_returns_empty() {
    let idx = KVIndex::new();
    assert_eq!(idx.search("anything".to_string(), 10).len(), 0);
}

#[test]
fn get_doc_returns_stored_text() {
    let mut idx = KVIndex::new();
    idx.add_doc("d1".to_string(), "Some Original Text!".to_string());
    assert_eq!(
        idx.get_doc("d1".to_string()),
        Some("Some Original Text!".to_string())
    );
    assert_eq!(idx.get_doc("other".to_string()), None);
}

#[test]
fn empty_text_document_is_stored_but_matches_nothing() {
    let mut idx = KVIndex::new();
    idx.add_doc("e".to_string(), "".to_string());
    assert_eq!(idx.get_doc("e".to_string()), Some("".to_string()));
    assert_eq!(idx.search("e".to_string(), 5).len(), 0);
}

#[test]
fn query_matches_any_of_its_terms() {
    let mut idx = KVIndex::new();
    idx.add_doc("a".to_string(), "apples only".to_string());
    idx.add_doc("b".to_string(), "bananas only".to_string());
    let r = idx.search("apples bananas".to_string(), 10);
    assert_eq!(r.len(), 2);
}

#[test]
fn case_insensitive_matching_between_query_and_document() {
    let mut idx = KVIndex::new();
    idx.add_doc("d".to_string(), "HELLO world".to_string());
    let r = idx.search("hello".to_string(), 5);
    assert_eq!(r.len(), 1);
    assert_eq!(r[0].0, "d");
    let r2 = idx.search("WORLD".to_string(), 5);
    assert_eq!(r2.len(), 1);
}
