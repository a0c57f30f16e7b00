use word_embeddings::corpus::{load_imdb_dataset, review_from_record, tokenize_corpus, Review};
use word_embeddings::error::EmbeddingError;

fn record(text: &str, label: &str) -> Vec<String> {
    vec![text.to_string(), label.to_string()]
}

#[test]
fn record_becomes_cleaned_review() {
    let review = review_from_record(&record("A Great film!", "positive")).unwrap();
    assert_eq!(review.review, "a great film ");
    assert!(review.sentiment);
}

#[test]
fn any_other_label_is_not_positive() {
    assert!(!review_from_record(&record("bad", "negative")).unwrap().sentiment);
    assert!(!review_from_record(&record("bad", "Positive")).unwrap().sentiment);
    assert!(!review_from_record(&record("bad", "")).unwrap().sentiment);
}

#[test]
fn record_with_missing_field_is_a_data_error() {
    assert_eq!(review_from_record(&vec!["only text".to_string()]).err(), Some(EmbeddingError::Data));
    assert_eq!(review_from_record(&Vec::new()).err(), Some(EmbeddingError::Data));
}

#[test]
fn extra_fields_are_ignored() {
    let fields = vec!["Fine".to_string(), "positive".to_string(), "extra".to_string()];
    let review = review_from_record(&fields).unwrap();
    assert_eq!(review.review, "fine ");
    assert!(review.sentiment);
}

#[test]
fn all_records_are_loaded_without_a_cap() {
    let records = vec![record("One", "positive"), record("Two", "negative"), record("Three", "positive")];
    let dataset = load_imdb_dataset(&records, None).unwrap();
    let texts: Vec<&str> = dataset.iter().map(|r| r.review.as_str()).collect();
    assert_eq!(texts, vec!["one ", "two ", "three "]);
    let labels: Vec<bool> = dataset.iter().map(|r| r.sentiment).collect();
    assert_eq!(labels, vec![true, false, true]);
}

#[test]
fn cap_limits_the_number_of_reviews() {
    let records = vec![record("One", "positive"), record("Two", "negative"), record("Three", "positive")];
    assert_eq!(load_imdb_dataset(&records, Some(2)).unwrap().len(), 2);
    assert_eq!(load_imdb_dataset(&records, Some(3)).unwrap().len(), 3);
    assert_eq!(load_imdb_dataset(&records, Some(10)).unwrap().len(), 3);
    assert_eq!(load_imdb_dataset(&records, Some(0)).unwrap().len(), 0);
}

#[test]
fn malformed_record_aborts_the_load() {
    let records = vec![record("One", "positive"), vec!["broken".to_string()], record("Three", "positive")];
    assert_eq!(load_imdb_dataset(&records, None).err(), Some(EmbeddingError::Data));
    assert_eq!(load_imdb_dataset(&records, Some(2)).err(), Some(EmbeddingError::Data));
}

#[test]
fn malformed_record_beyond_the_cap_is_not_read() {
    let records = vec![record("One", "positive"), vec!["broken".to_string()]];
    let dataset = load_imdb_dataset(&records, Some(1)).unwrap();
    assert_eq!(dataset.len(), 1);
    assert_eq!(dataset[0].review, "one ");
}

#[test]
fn corpus_is_tokenised_review_by_review() {
    let dataset = vec![
        Review { review: "the cat sat ".to_string(), sentiment: true },
        Review { review: String::new(), sentiment: false },
        Review { review: "ran".to_string(), sentiment: false },
    ];
    let docs = tokenize_corpus(&dataset);
    assert_eq!(docs.len(), 3);
    assert_eq!(docs[0], vec!["the", "cat", "sat"]);
    assert!(docs[1].is_empty());
    assert_eq!(docs[2], vec!["ran"]);
}
