use thermite_core::text::{frequent_words, CountVectorizer, TextError};

fn docs(v: &[&str]) -> Vec<String> {
    v.iter().map(|s| s.to_string()).collect()
}

#[test]
fn count_vectorizer_learns_terms_in_order() {
    let mut cv = CountVectorizer::new(true);
    let d = docs(&["Hello world", "hello  there\tWORLD"]);
    let counts = cv.fit_transform(&d);
    assert_eq!(cv.terms, vec!["hello".to_string(), "world".to_string(), "there".to_string()]);
    assert_eq!(cv.vocabulary.len(), 3);
    assert_eq!(counts.rows, vec![vec![1, 1, 0], vec![1, 1, 1]]);
    let more = cv.transform(&docs(&["HELLO hello unknown"]));
    assert_eq!(more.rows, vec![vec![2, 0, 0]]);
}

#[test]
fn count_vectorizer_keeps_case_when_asked() {
    let mut cv = CountVectorizer::new(false);
    cv.fit(&docs(&["A a A"]));
    assert_eq!(cv.terms, vec!["A".to_string(), "a".to_string()]);
    assert_eq!(cv.transform(&docs(&["A a A"])).rows, vec![vec![2, 1]]);
}

#[test]
fn document_frequencies_count_documents() {
    let mut cv = CountVectorizer::new(true);
    let d = docs(&["a b a", "b c", "d"]);
    cv.fit(&d);
    assert_eq!(cv.document_frequencies(&d), vec![1, 2, 1, 1]);
}

#[test]
fn frequent_words_filters_by_count() {
    let s = vec![docs(&["a", "b", "a"]), docs(&["c", "a", "b"])];
    assert_eq!(frequent_words(&s, 2).unwrap(), docs(&["a", "b"]));
    assert_eq!(frequent_words(&s, 0).unwrap(), docs(&["a", "b", "c"]));
    assert!(matches!(frequent_words(&s, 4), Err(TextError::EmptyVocabulary)));
    assert!(matches!(frequent_words(&[], 1), Err(TextError::EmptyVocabulary)));
}

#[test]
fn tokens_extend_and_count_against_the_vocabulary() {
    let mut cv = CountVectorizer::new(true);
    cv.add_tokens(&docs(&["b", "a", "b"]));
    assert_eq!(cv.terms, docs(&["b", "a"]));
    cv.add_tokens(&docs(&["c", "a"]));
    assert_eq!(cv.terms, docs(&["b", "a", "c"]));
    assert_eq!(cv.count_tokens(&docs(&["a", "a", "z", "c"])), vec![0, 2, 1]);
    assert_eq!(cv.count_tokens(&Vec::new()), vec![0, 0, 0]);
}

#[test]
fn fitting_the_same_documents_again_changes_nothing() {
    let mut cv = CountVectorizer::new(true);
    let d = docs(&["x y", "Y z x"]);
    cv.fit(&d);
    let once = cv.terms.clone();
    cv.fit(&d);
    assert_eq!(cv.terms, once);
    assert_eq!(once, docs(&["x", "y", "z"]));
}
