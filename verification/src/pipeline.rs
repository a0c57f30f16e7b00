//! The first half of a run: from the corpus to the statistics that the
//! numerical stages work on.

use vstd::prelude::*;
use crate::cooccurrence::{build_co_occurrence_matrix, cooccurrence, CoOccurrenceMatrix};
use crate::corpus::{corpus_tokens, Review};
use crate::error::EmbeddingError;
use crate::text::strings_view;
use crate::vocab::{build_vocab, no_duplicates, vocabulary};

verus! {

/// The vocabulary of a corpus and its co-occurrence matrix.
pub struct CorpusStatistics {
    /// The selected terms; a term's position is its row and column.
    pub vocabulary: Vec<String>,
    /// The co-occurrence matrix over the vocabulary.
    pub matrix: CoOccurrenceMatrix,
}

impl CorpusStatistics {
    /// Whether the statistics are those of `dataset` for the given
    /// threshold and window.
    pub open spec fn describes(&self, dataset: Seq<Review>, threshold: nat, window: nat) -> bool {
        &&& strings_view(self.vocabulary@) == vocabulary(corpus_tokens(dataset), threshold)
        &&& self.vocabulary@.len() > 0
        &&& no_duplicates(strings_view(self.vocabulary@))
        &&& self.matrix.window == window
        &&& self.matrix.wf()
        &&& self.matrix.represents(strings_view(self.vocabulary@), corpus_tokens(dataset))
        &&& self.matrix.is_symmetric()
    }
}

/// Whether some cell of the co-occurrence matrix would not fit its type.
pub open spec fn some_weight_overflows(
    vocab: Seq<Seq<char>>,
    corpus: Seq<Seq<Seq<char>>>,
    window: nat,
) -> bool {
    exists|i: int, j: int|
        0 <= i < vocab.len() && 0 <= j < vocab.len() && #[trigger] cooccurrence(
            vocab,
            corpus,
            window,
            i,
            j,
        ) > u64::MAX
}

/// Selects the vocabulary and builds the co-occurrence matrix over it.
///
/// Where no term reaches the threshold the run ends at once with
/// `EmptyVocabulary`, and no matrix is built. A window of zero or a weight
/// that does not fit a cell ends it with `NumericInstability`.
pub fn corpus_statistics(dataset: &Vec<Review>, threshold: usize, window: usize) -> (result: Result<
    CorpusStatistics,
    EmbeddingError,
>)
    ensures
        match result {
            Ok(statistics) => statistics.describes(dataset@, threshold as nat, window as nat),
            Err(e) => if vocabulary(corpus_tokens(dataset@), threshold as nat).len() == 0 {
                e == EmbeddingError::EmptyVocabulary
            } else {
                &&& e == EmbeddingError::NumericInstability
                &&& window == 0 || some_weight_overflows(
                    vocabulary(corpus_tokens(dataset@), threshold as nat),
                    corpus_tokens(dataset@),
                    window as nat,
                )
            },
        },
{
    let vocab: Vec<String> = build_vocab(dataset, threshold);
    if vocab.len() == 0 {
        return Err(EmbeddingError::EmptyVocabulary);
    }
    match build_co_occurrence_matrix(&vocab, dataset, window) {
        Ok(matrix) => Ok(CorpusStatistics { vocabulary: vocab, matrix }),
        Err(e) => Err(e),
    }
}

} // verus!
