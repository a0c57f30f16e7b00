use word_embeddings::cooccurrence::{build_co_occurrence_matrix, CoOccurrenceMatrix};
use word_embeddings::corpus::Review;
use word_embeddings::error::EmbeddingError;
use word_embeddings::variance::{check_rows_vary, first_constant_row, row_has_no_variance};

fn matrix(cells: Vec<Vec<u64>>) -> CoOccurrenceMatrix {
    CoOccurrenceMatrix { window: 4, cells }
}

fn scaled_variance(row: &[u64]) -> i128 {
    let n = row.len() as i128;
    let sum: i128 = row.iter().map(|&x| x as i128).sum();
    row.iter().map(|&x| (n * x as i128 - sum) * (n * x as i128 - sum)).sum()
}

#[test]
fn row_of_equal_cells_has_no_variance() {
    assert!(row_has_no_variance(&vec![3, 3, 3]));
    assert!(row_has_no_variance(&vec![0, 0]));
    assert!(row_has_no_variance(&vec![7]));
    assert!(row_has_no_variance(&Vec::new()));
}

#[test]
fn row_with_one_different_cell_has_variance() {
    assert!(!row_has_no_variance(&vec![3, 3, 4]));
    assert!(!row_has_no_variance(&vec![4, 3, 3]));
    assert!(!row_has_no_variance(&vec![0, u64::MAX]));
}

#[test]
fn no_variance_means_zero_variance() {
    let rows: Vec<Vec<u64>> =
        vec![vec![1, 1, 1], vec![1, 2, 1], vec![5], vec![0, 0, 0, 1], vec![9, 9], vec![2, 4, 6]];
    for row in rows.iter() {
        assert_eq!(row_has_no_variance(row), scaled_variance(row) == 0);
    }
}

#[test]
fn first_constant_row_is_found() {
    let m = matrix(vec![vec![1, 0, 0], vec![2, 2, 2], vec![0, 0, 0]]);
    assert_eq!(first_constant_row(&m), Some(1));
}

#[test]
fn matrix_of_varying_rows_has_no_constant_row() {
    let m = matrix(vec![vec![1, 0], vec![0, 1]]);
    assert_eq!(first_constant_row(&m), None);
    assert_eq!(check_rows_vary(&m), Ok(()));
}

#[test]
fn constant_row_is_numeric_instability() {
    let m = matrix(vec![vec![1, 0], vec![5, 5]]);
    assert_eq!(check_rows_vary(&m), Err(EmbeddingError::NumericInstability));
}

#[test]
fn single_term_vocabulary_cannot_be_standardised() {
    let dataset = vec![Review { review: "a a".to_string(), sentiment: true }];
    let m = build_co_occurrence_matrix(&vec!["a".to_string()], &dataset, 4).unwrap();
    assert_eq!(check_rows_vary(&m), Err(EmbeddingError::NumericInstability));
}

#[test]
fn two_sentence_corpus_can_be_standardised() {
    let dataset = vec![
        Review { review: "the cat sat".to_string(), sentiment: true },
        Review { review: "the cat ran".to_string(), sentiment: false },
    ];
    let vocab: Vec<String> = ["the", "cat", "sat", "ran"].iter().map(|t| t.to_string()).collect();
    let m = build_co_occurrence_matrix(&vocab, &dataset, 1).unwrap();
    assert_eq!(check_rows_vary(&m), Ok(()));
}
