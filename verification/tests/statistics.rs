use word_embeddings::corpus::{load_imdb_dataset, Review};
use word_embeddings::error::EmbeddingError;
use word_embeddings::pipeline::corpus_statistics;

fn corpus(texts: &[&str]) -> Vec<Review> {
    texts.iter().map(|t| Review { review: t.to_string(), sentiment: false }).collect()
}

#[test]
fn two_sentence_corpus_end_to_end() {
    let statistics = corpus_statistics(&corpus(&["the cat sat", "the cat ran"]), 1, 1).unwrap();
    assert_eq!(statistics.vocabulary, vec!["the", "cat", "sat", "ran"]);
    assert_eq!(statistics.matrix.window, 1);
    assert_eq!(
        statistics.matrix.cells,
        vec![vec![2, 0, 0, 0], vec![0, 2, 0, 0], vec![0, 0, 1, 0], vec![0, 0, 0, 1]]
    );
}

#[test]
fn threshold_above_every_count_is_an_empty_vocabulary_error() {
    let result = corpus_statistics(&corpus(&["the cat sat", "the cat ran"]), 3, 1);
    assert_eq!(result.err(), Some(EmbeddingError::EmptyVocabulary));
}

#[test]
fn empty_vocabulary_is_reported_before_the_window_is_looked_at() {
    let result = corpus_statistics(&corpus(&["the cat sat"]), 5, 0);
    assert_eq!(result.err(), Some(EmbeddingError::EmptyVocabulary));
}

#[test]
fn window_zero_with_a_vocabulary_is_numeric_instability() {
    let result = corpus_statistics(&corpus(&["the cat sat"]), 1, 0);
    assert_eq!(result.err(), Some(EmbeddingError::NumericInstability));
}

#[test]
fn statistics_of_raw_records() {
    let records = vec![
        vec!["The cat: it SAT.<br />".to_string(), "positive".to_string()],
        vec!["The cat ran!".to_string(), "negative".to_string()],
    ];
    let dataset = load_imdb_dataset(&records, None).unwrap();
    let statistics = corpus_statistics(&dataset, 2, 2).unwrap();
    assert_eq!(statistics.vocabulary, vec!["the", "cat"]);
    // "the cat it sat" and "the cat ran" filter to "the cat" twice
    assert_eq!(statistics.matrix.cells, vec![vec![4, 2], vec![2, 4]]);
}

#[test]
fn same_input_gives_the_same_statistics() {
    let texts = ["to be or not to be", "that is the question", "to be is to do"];
    let first = corpus_statistics(&corpus(&texts), 2, 3).unwrap();
    let second = corpus_statistics(&corpus(&texts), 2, 3).unwrap();
    assert_eq!(first.vocabulary, second.vocabulary);
    assert_eq!(first.matrix.cells, second.matrix.cells);
}
