use fts_index::{FTSTree, FtsError, QueryStats};
use std::collections::HashMap;

fn bm25_scores(stats: &QueryStats) -> HashMap<Vec<u8>, f32> {
    let mut ret: HashMap<Vec<u8>, f32> = HashMap::new();
    let num_documents = stats.num_documents as u32;
    let total_dl = stats.total_length as u32;
    let avgdl = total_dl as f32 / num_documents as f32;
    for m in stats.matches.iter() {
        let total_count = m.doc_frequency as u32;
        let frequency = m.term_frequency as u32;
        let dl = m.doc_length as u32;
        let count = m.query_count as u32;
        let k1: f32 = 1.2;
        let b: f32 = 0.75;
        let idf = ((num_documents as f32 - total_count as f32 + 0.5) / (total_count as f32 + 0.5) + 1.0).ln();
        let bm25 = idf * frequency as f32 * (k1 + 1.0)
            / (frequency as f32 + k1 * (1.0 - b + b * dl as f32 / avgdl as f32));
        *ret.entry(m.key.clone()).or_insert(0.0) += bm25 * count as f32;
    }
    ret
}

fn snapshot(t: &FTSTree, keys: &[&[u8]], tokens: &[&str]) -> String {
    let mut out = format!("{} {}", t.corpus_length(), t.corpus_documents());
    for k in keys {
        out.push_str(&format!(" {:?}", t.document_length(k)));
    }
    for tok in tokens {
        let e = t.token_entry(tok);
        out.push_str(&format!(" {:?}", e));
        if let Some(s) = e {
            for k in keys {
                out.push_str(&format!(" {:?}", t.posting_count(s.id, k)));
            }
        }
    }
    out
}

#[test]
fn query() {
    let mut fts_tree = FTSTree::new();
    fts_tree.insert(b"k1", "foo bar").unwrap();
    fts_tree.insert(b"k2", "foo").unwrap();
    fts_tree.insert(b"k3", "bar").unwrap();
    let res = bm25_scores(&fts_tree.query("foo"));
    assert_eq!(res.get(&b"k1".to_vec()), Some(&0.3901917));
    assert_eq!(res.get(&b"k2".to_vec()), Some(&0.52354836));
    assert_eq!(res.get(&b"k3".to_vec()), None);
    let res = bm25_scores(&fts_tree.query("foo bar"));
    assert_eq!(res.get(&b"k1".to_vec()), Some(&0.7803834));
    assert_eq!(res.get(&b"k2".to_vec()), Some(&0.52354836));
    assert_eq!(res.get(&b"k3".to_vec()), Some(&0.52354836));
}

#[test]
fn delete() {
    let keys: [&[u8]; 3] = [b"k1", b"k2", b"k3"];
    let tokens = ["", "foo", "bar"];
    let mut fts_tree = FTSTree::new();
    fts_tree.insert(b"k1", "foo bar").unwrap();
    fts_tree.insert(b"k2", "foo").unwrap();
    let cs = snapshot(&fts_tree, &keys, &tokens);
    let before = bm25_scores(&fts_tree.query("foo bar"));
    fts_tree.insert(b"k3", "bar").unwrap();
    fts_tree.remove(b"k3", "bar").unwrap();
    assert_eq!(cs, snapshot(&fts_tree, &keys, &tokens));
    assert_eq!(before, bm25_scores(&fts_tree.query("foo bar")));
}

#[test]
fn query_stats_of_known_corpus() {
    let mut t = FTSTree::new();
    t.insert(b"k1", "foo bar").unwrap();
    t.insert(b"k2", "foo").unwrap();
    t.insert(b"k3", "bar").unwrap();
    let s = t.query("foo");
    assert_eq!(s.num_documents, 3);
    assert_eq!(s.total_length, 4);
    assert_eq!(s.matches.len(), 2);
    assert_eq!(s.matches[0].key, b"k1".to_vec());
    assert_eq!(s.matches[0].term_frequency, 1);
    assert_eq!(s.matches[0].doc_frequency, 2);
    assert_eq!(s.matches[0].doc_length, 2);
    assert_eq!(s.matches[0].query_count, 1);
    assert_eq!(s.matches[1].key, b"k2".to_vec());
    assert_eq!(s.matches[1].doc_length, 1);
}

#[test]
fn duplicate_insert_changes_nothing() {
    let keys: [&[u8]; 2] = [b"k1", b"k2"];
    let tokens = ["", "foo", "bar", "baz"];
    let mut t = FTSTree::new();
    t.insert(b"k1", "foo bar").unwrap();
    t.insert(b"k2", "foo").unwrap();
    let cs = snapshot(&t, &keys, &tokens);
    assert_eq!(t.insert(b"k1", "baz baz"), Err(FtsError::DuplicateDocument));
    assert_eq!(cs, snapshot(&t, &keys, &tokens));
    assert_eq!(t.token_entry("baz"), None);
}

#[test]
fn unknown_token_gives_no_matches() {
    let mut t = FTSTree::new();
    t.insert(b"k1", "foo bar").unwrap();
    assert!(t.query("qux").matches.is_empty());
    assert!(bm25_scores(&t.query("qux quux")).is_empty());
    let empty = FTSTree::new();
    assert!(empty.query("foo").matches.is_empty());
    assert_eq!(empty.query("foo").num_documents, 0);
}

#[test]
fn inserted_document_is_found_with_positive_score() {
    let mut t = FTSTree::new();
    t.insert(b"doc", "alpha beta gamma").unwrap();
    t.insert(b"other", "delta").unwrap();
    let res = bm25_scores(&t.query("beta"));
    assert!(res[&b"doc".to_vec()] > 0.0);
    assert_eq!(res.len(), 1);
}

#[test]
fn insert_then_remove_restores_aggregates() {
    let mut t = FTSTree::new();
    t.insert(b"a", "one two three").unwrap();
    let len = t.corpus_length();
    let docs = t.corpus_documents();
    t.insert(b"b", "two two four").unwrap();
    assert_eq!(t.corpus_length(), len + 3);
    assert_eq!(t.corpus_documents(), docs + 1);
    t.remove(b"b", "two two four").unwrap();
    assert_eq!(t.corpus_length(), len);
    assert_eq!(t.corpus_documents(), docs);
    assert_eq!(t.document_length(b"b"), None);
    assert_eq!(t.token_entry("four").map(|s| s.docs), Some(0));
    t.insert(b"b", "five").unwrap();
    assert_eq!(t.document_length(b"b"), Some(1));
}

#[test]
fn heavier_term_frequency_scores_higher() {
    let mut t = FTSTree::new();
    t.insert(b"x", "foo foo bar").unwrap();
    t.insert(b"y", "foo baz bar").unwrap();
    let res = bm25_scores(&t.query("foo"));
    assert!(res[&b"x".to_vec()] >= res[&b"y".to_vec()]);
    let s = t.query("foo");
    assert_eq!(s.matches[0].term_frequency, 2);
    assert_eq!(s.matches[1].term_frequency, 1);
}

#[test]
fn two_token_query_adds_single_scores() {
    let mut t = FTSTree::new();
    t.insert(b"k1", "foo bar").unwrap();
    t.insert(b"k2", "foo").unwrap();
    t.insert(b"k3", "bar bar").unwrap();
    let both = bm25_scores(&t.query("foo bar"));
    let foo = bm25_scores(&t.query("foo"));
    let bar = bm25_scores(&t.query("bar"));
    for k in [b"k1", b"k2", b"k3"] {
        let k = k.to_vec();
        let sum = foo.get(&k).copied().unwrap_or(0.0) + bar.get(&k).copied().unwrap_or(0.0);
        assert!((both[&k] - sum).abs() <= 1e-6);
    }
    let m = t.query("foo bar").matches.len();
    assert_eq!(m, t.query("foo").matches.len() + t.query("bar").matches.len());
}

#[test]
fn repeated_query_token_counts_twice() {
    let mut t = FTSTree::new();
    t.insert(b"k1", "foo bar").unwrap();
    t.insert(b"k2", "bar").unwrap();
    let once = bm25_scores(&t.query("foo"));
    let twice = bm25_scores(&t.query("foo foo"));
    assert_eq!(t.query("foo foo").matches[0].query_count, 2);
    assert_eq!(twice[&b"k1".to_vec()], once[&b"k1".to_vec()] * 2.0);
}

#[test]
fn remove_missing_document() {
    let mut t = FTSTree::new();
    t.insert(b"k1", "foo").unwrap();
    assert_eq!(t.remove(b"k2", "foo"), Err(FtsError::DocumentNotFound));
    t.remove(b"k1", "foo").unwrap();
    assert_eq!(t.remove(b"k1", "foo"), Err(FtsError::DocumentNotFound));
}

#[test]
fn remove_with_other_length() {
    let mut t = FTSTree::new();
    t.insert(b"k1", "foo bar").unwrap();
    assert_eq!(t.remove(b"k1", "foo"), Err(FtsError::ValueMismatch));
    assert_eq!(t.document_length(b"k1"), Some(2));
}

#[test]
fn remove_with_unknown_token() {
    let mut t = FTSTree::new();
    t.insert(b"k1", "foo bar").unwrap();
    assert_eq!(t.remove(b"k1", "foo qux"), Err(FtsError::ConsistencyViolation));
    assert_eq!(t.corpus_documents(), 1);
}

#[test]
fn remove_with_other_tokens() {
    let mut t = FTSTree::new();
    t.insert(b"k1", "foo bar").unwrap();
    t.insert(b"k2", "baz").unwrap();
    let before = t.corpus_length();
    assert_eq!(t.remove(b"k1", "foo baz"), Err(FtsError::ValueMismatch));
    assert_eq!(t.remove(b"k1", "foo foo"), Err(FtsError::ValueMismatch));
    assert_eq!(t.corpus_length(), before);
    assert_eq!(t.token_entry("baz").map(|s| s.docs), Some(1));
    t.remove(b"k1", "bar foo").unwrap();
}

#[test]
fn empty_text_counts_as_document() {
    let mut t = FTSTree::new();
    t.insert(b"e", "").unwrap();
    assert_eq!(t.corpus_documents(), 1);
    assert_eq!(t.corpus_length(), 0);
    assert_eq!(t.document_length(b"e"), Some(0));
    t.remove(b"e", " ,, ").unwrap();
    assert_eq!(t.corpus_documents(), 0);
}

#[test]
fn empty_key_is_an_ordinary_document() {
    let mut t = FTSTree::new();
    t.insert(b"", "foo").unwrap();
    t.insert(b"k", "foo foo").unwrap();
    assert_eq!(t.document_length(b""), Some(1));
    assert_eq!(t.corpus_length(), 3);
}

#[test]
fn term_ids_are_distinct_and_kept() {
    let mut t = FTSTree::new();
    t.insert(b"k1", "foo bar").unwrap();
    let foo = t.token_entry("foo").unwrap();
    let bar = t.token_entry("bar").unwrap();
    assert_ne!(foo.id, bar.id);
    t.insert(b"k2", "foo").unwrap();
    assert_eq!(t.token_entry("foo").unwrap().id, foo.id);
    assert_eq!(t.token_entry("foo").unwrap().docs, 2);
    assert_eq!(t.posting_count(foo.id, b"k1"), Some(1));
    assert_eq!(t.posting_count(bar.id, b"k2"), None);
}
