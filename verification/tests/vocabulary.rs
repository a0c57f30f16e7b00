use word_embeddings::corpus::Review;
use word_embeddings::vocab::build_vocab;

fn corpus(texts: &[&str]) -> Vec<Review> {
    texts.iter().map(|t| Review { review: t.to_string(), sentiment: false }).collect()
}

fn occurrences(texts: &[&str], term: &str) -> usize {
    texts.iter().map(|t| t.split_whitespace().filter(|w| *w == term).count()).sum()
}

#[test]
fn threshold_one_keeps_every_term_in_order_of_first_occurrence() {
    let vocab = build_vocab(&corpus(&["the cat sat", "the cat ran"]), 1);
    assert_eq!(vocab, vec!["the", "cat", "sat", "ran"]);
}

#[test]
fn threshold_two_keeps_the_terms_seen_twice() {
    let vocab = build_vocab(&corpus(&["the cat sat", "the cat ran"]), 2);
    assert_eq!(vocab, vec!["the", "cat"]);
}

#[test]
fn terms_enter_where_their_count_reaches_the_threshold() {
    // "b" is seen first, but "a" is the first to be seen twice.
    let vocab = build_vocab(&corpus(&["b a a b"]), 2);
    assert_eq!(vocab, vec!["a", "b"]);
}

#[test]
fn counts_run_across_documents() {
    let vocab = build_vocab(&corpus(&["x y", "y", "x x", "y"]), 3);
    assert_eq!(vocab, vec!["x", "y"]);
}

#[test]
fn term_is_not_inserted_again_after_the_threshold() {
    let vocab = build_vocab(&corpus(&["a a a a a a"]), 2);
    assert_eq!(vocab, vec!["a"]);
}

#[test]
fn threshold_above_every_count_gives_an_empty_vocabulary() {
    assert!(build_vocab(&corpus(&["the cat sat", "the cat ran"]), 3).is_empty());
}

#[test]
fn threshold_zero_gives_an_empty_vocabulary() {
    assert!(build_vocab(&corpus(&["the cat sat"]), 0).is_empty());
}

#[test]
fn empty_corpus_gives_an_empty_vocabulary() {
    assert!(build_vocab(&corpus(&[]), 1).is_empty());
    assert!(build_vocab(&corpus(&["", "  "]), 1).is_empty());
}

#[test]
fn largest_threshold_is_accepted() {
    assert!(build_vocab(&corpus(&["a a a"]), usize::MAX).is_empty());
}

#[test]
fn vocabulary_terms_are_frequent_and_distinct() {
    let texts = ["to be or not to be", "that is the question", "to be is to do", "do be do be do"];
    for threshold in 1..6 {
        let vocab = build_vocab(&corpus(&texts), threshold);
        for (k, term) in vocab.iter().enumerate() {
            assert!(occurrences(&texts, term) >= threshold);
            assert!(!vocab[..k].contains(term));
        }
        for text in texts.iter() {
            for word in text.split_whitespace() {
                if occurrences(&texts, word) >= threshold {
                    assert!(vocab.iter().any(|t| t == word));
                }
            }
        }
    }
}
