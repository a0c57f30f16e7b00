use word_embeddings::cooccurrence::{
    build_co_occurrence_matrix, filter_indices, index_vocabulary, window_weight,
};
use word_embeddings::corpus::Review;
use word_embeddings::error::EmbeddingError;

fn corpus(texts: &[&str]) -> Vec<Review> {
    texts.iter().map(|t| Review { review: t.to_string(), sentiment: false }).collect()
}

fn terms(words: &[&str]) -> Vec<String> {
    words.iter().map(|w| w.to_string()).collect()
}

#[test]
fn window_weight_falls_linearly_to_zero() {
    assert_eq!(window_weight(0, 4), 4);
    assert_eq!(window_weight(1, 4), 3);
    assert_eq!(window_weight(2, 4), 2);
    assert_eq!(window_weight(3, 4), 1);
    assert_eq!(window_weight(4, 4), 0);
    assert_eq!(window_weight(5, 4), 0);
    assert_eq!(window_weight(usize::MAX, 4), 0);
}

#[test]
fn window_weight_is_bounded_by_the_window() {
    for window in 1..8 {
        for distance in 0..12 {
            let weight = window_weight(distance, window);
            assert!(weight <= window);
            assert_eq!(weight == window, distance == 0);
            if distance > window {
                assert_eq!(weight, 0);
            }
        }
    }
}

#[test]
fn window_weight_as_a_fraction_matches_the_formula() {
    let window = 4;
    for distance in 0..5 {
        let fraction = window_weight(distance, window) as f64 / window as f64;
        assert_eq!(fraction, 1.0 - distance as f64 / window as f64);
    }
}

#[test]
fn vocabulary_index_maps_terms_to_positions() {
    let index = index_vocabulary(&terms(&["the", "cat", "sat"]));
    assert_eq!(index.get("the"), Some(&0));
    assert_eq!(index.get("cat"), Some(&1));
    assert_eq!(index.get("sat"), Some(&2));
    assert_eq!(index.get("dog"), None);
    assert_eq!(index.len(), 3);
}

#[test]
fn repeated_term_is_indexed_by_its_last_position() {
    let index = index_vocabulary(&terms(&["a", "b", "a"]));
    assert_eq!(index.get("a"), Some(&2));
    assert_eq!(index.get("b"), Some(&1));
}

#[test]
fn tokens_outside_the_vocabulary_are_dropped() {
    let index = index_vocabulary(&terms(&["the", "cat"]));
    let tokens = terms(&["a", "cat", "and", "the", "other", "cat"]);
    assert_eq!(filter_indices(&index, &tokens), vec![1, 0, 1]);
    assert_eq!(filter_indices(&index, &terms(&["dog"])), Vec::<usize>::new());
}

#[test]
fn window_one_counts_the_terms_on_the_diagonal() {
    let vocab = terms(&["the", "cat", "sat", "ran"]);
    let matrix = build_co_occurrence_matrix(&vocab, &corpus(&["the cat sat", "the cat ran"]), 1).unwrap();
    assert_eq!(matrix.window, 1);
    assert_eq!(
        matrix.cells,
        vec![vec![2, 0, 0, 0], vec![0, 2, 0, 0], vec![0, 0, 1, 0], vec![0, 0, 0, 1]]
    );
}

#[test]
fn window_two_weighs_neighbours_by_half() {
    let vocab = terms(&["the", "cat", "sat", "ran"]);
    let matrix = build_co_occurrence_matrix(&vocab, &corpus(&["the cat sat", "the cat ran"]), 2).unwrap();
    assert_eq!(matrix.window, 2);
    assert_eq!(
        matrix.cells,
        vec![vec![4, 2, 0, 0], vec![2, 4, 1, 1], vec![0, 1, 2, 0], vec![0, 1, 0, 2]]
    );
    assert_eq!(matrix.dimension(), 4);
    assert_eq!(matrix.scaled_weight(1, 2), 1);
    assert_eq!(matrix.scaled_weight(0, 0) as f64 / matrix.window as f64, 2.0);
}

#[test]
fn distance_is_measured_after_filtering() {
    // "x" and "y" stand five places apart, and next to each other once the
    // other tokens are dropped.
    let vocab = terms(&["x", "y"]);
    let matrix = build_co_occurrence_matrix(&vocab, &corpus(&["x a b c d y"]), 2).unwrap();
    assert_eq!(matrix.cells, vec![vec![2, 1], vec![1, 2]]);
}

#[test]
fn repeated_term_adds_to_its_own_cell() {
    let vocab = terms(&["a"]);
    let matrix = build_co_occurrence_matrix(&vocab, &corpus(&["a a a"]), 3).unwrap();
    // three pairs at distance 0, four at distance 1, two at distance 2
    assert_eq!(matrix.cells, vec![vec![3 * 3 + 4 * 2 + 2 * 1]]);
}

#[test]
fn documents_do_not_reach_into_each_other() {
    let vocab = terms(&["a", "b"]);
    let matrix = build_co_occurrence_matrix(&vocab, &corpus(&["a", "b"]), 4).unwrap();
    assert_eq!(matrix.cells, vec![vec![4, 0], vec![0, 4]]);
}

#[test]
fn corpus_without_vocabulary_terms_gives_zeros() {
    let vocab = terms(&["a", "b"]);
    let matrix = build_co_occurrence_matrix(&vocab, &corpus(&["c d", ""]), 4).unwrap();
    assert_eq!(matrix.cells, vec![vec![0, 0], vec![0, 0]]);
}

#[test]
fn matrix_is_symmetric() {
    let texts = ["to be or not to be", "that is the question", "to be is to do", "do be do be do"];
    let vocab = terms(&["to", "be", "or", "not", "is", "do", "question"]);
    for window in 1..6 {
        let matrix = build_co_occurrence_matrix(&vocab, &corpus(&texts), window).unwrap();
        assert_eq!(matrix.cells.len(), vocab.len());
        for i in 0..vocab.len() {
            assert_eq!(matrix.cells[i].len(), vocab.len());
            for j in 0..vocab.len() {
                assert_eq!(matrix.cells[i][j], matrix.cells[j][i]);
            }
        }
    }
}

#[test]
fn empty_vocabulary_is_refused() {
    let result = build_co_occurrence_matrix(&Vec::new(), &corpus(&["the cat"]), 4);
    assert_eq!(result.err(), Some(EmbeddingError::EmptyVocabulary));
}

#[test]
fn window_zero_is_numeric_instability() {
    let result = build_co_occurrence_matrix(&terms(&["the"]), &corpus(&["the cat"]), 0);
    assert_eq!(result.err(), Some(EmbeddingError::NumericInstability));
}

#[test]
fn weight_beyond_the_cell_range_is_numeric_instability() {
    let vocab = terms(&["a"]);
    let result = build_co_occurrence_matrix(&vocab, &corpus(&["a a"]), usize::MAX);
    assert_eq!(result.err(), Some(EmbeddingError::NumericInstability));
    let single = build_co_occurrence_matrix(&vocab, &corpus(&["a"]), usize::MAX).unwrap();
    assert_eq!(single.cells, vec![vec![usize::MAX as u64]]);
}
