//! Reviews and the corpus they form.

use vstd::prelude::*;
use vstd::string::StringExecFns;
use crate::error::EmbeddingError;
use crate::text::{clean_review, clean_text, split_tokens, strings_view, tokens_of};

verus! {

/// One cleaned review with its label.
pub struct Review {
    /// The cleaned text: lower-case words separated by white space.
    pub review: String,
    /// Whether the review was labelled positive.
    pub sentiment: bool,
}

impl Review {
    /// The tokens of the review, in order.
    pub open spec fn tokens(&self) -> Seq<Seq<char>> {
        tokens_of(self.review@)
    }
}

/// The documents of a corpus, each as its sequence of tokens.
pub open spec fn corpus_tokens(dataset: Seq<Review>) -> Seq<Seq<Seq<char>>> {
    Seq::new(dataset.len(), |d: int| dataset[d].tokens())
}

/// The texts held by a sequence of tokenised documents.
pub open spec fn documents_view(docs: Seq<Vec<String>>) -> Seq<Seq<Seq<char>>> {
    Seq::new(docs.len(), |d: int| strings_view(docs[d]@))
}

/// How many of `available` records are loaded under an optional cap.
pub open spec fn loaded_count(available: nat, cap: Option<usize>) -> nat {
    match cap {
        Some(c) => if (c as nat) < available {
            c as nat
        } else {
            available
        },
        None => available,
    }
}

/// Whether a record has the two fields that a review is made from.
pub open spec fn record_is_complete(record: Seq<String>) -> bool {
    record.len() >= 2
}

/// Whether `review` is what the record `record` yields: its first field
/// cleaned, and whether its second field is the word `positive`.
pub open spec fn review_matches(review: Review, record: Seq<String>) -> bool {
    &&& review.review@ == clean_text(record[0]@)
    &&& review.sentiment == (record[1]@ == "positive"@)
}

/// Turns one record into a review.
pub fn review_from_record(record: &Vec<String>) -> (result: Result<Review, EmbeddingError>)
    ensures
        match result {
            Ok(review) => record_is_complete(record@) && review_matches(review, record@),
            Err(e) => e == EmbeddingError::Data && !record_is_complete(record@),
        },
{
    if record.len() < 2 {
        return Err(EmbeddingError::Data);
    }
    let positive: String = String::from_str("positive");
    let sentiment: bool = record[1] == positive;
    let review: String = clean_review(record[0].clone());
    Ok(Review { review, sentiment })
}

/// Builds the corpus from records that were read already, in their order,
/// and stops after `cap` of them where a cap is given. Records beyond the
/// cap are not looked at.
pub fn load_imdb_dataset(records: &Vec<Vec<String>>, cap: Option<usize>) -> (result: Result<
    Vec<Review>,
    EmbeddingError,
>)
    ensures
        match result {
            Ok(dataset) => {
                &&& dataset@.len() == loaded_count(records@.len(), cap)
                &&& forall|i: int|
                    0 <= i < dataset@.len() ==> record_is_complete(#[trigger] records@[i]@)
                        && review_matches(dataset@[i], records@[i]@)
            },
            Err(e) => {
                &&& e == EmbeddingError::Data
                &&& exists|i: int|
                    0 <= i < loaded_count(records@.len(), cap) && !record_is_complete(
                        #[trigger] records@[i]@,
                    )
            },
        },
{
    let limit: usize = match cap {
        Some(c) => if c < records.len() {
            c
        } else {
            records.len()
        },
        None => records.len(),
    };
    let mut dataset: Vec<Review> = Vec::new();
    let mut i: usize = 0;
    while i < limit
        invariant
            limit == loaded_count(records@.len(), cap),
            limit <= records@.len(),
            i <= limit,
            dataset@.len() == i,
            forall|k: int|
                0 <= k < i ==> record_is_complete(#[trigger] records@[k]@) && review_matches(
                    dataset@[k],
                    records@[k]@,
                ),
        decreases limit - i,
    {
        match review_from_record(&records[i]) {
            Ok(review) => {
                dataset.push(review);
            },
            Err(e) => {
                assert(!record_is_complete(records@[i as int]@));
                return Err(e);
            },
        }
        i = i + 1;
    }
    Ok(dataset)
}

/// Cuts every review of the corpus into its tokens.
pub fn tokenize_corpus(dataset: &Vec<Review>) -> (docs: Vec<Vec<String>>)
    ensures
        documents_view(docs@) == corpus_tokens(dataset@),
{
    let mut docs: Vec<Vec<String>> = Vec::new();
    let mut d: usize = 0;
    while d < dataset.len()
        invariant
            d <= dataset@.len(),
            docs@.len() == d,
            forall|k: int| 0 <= k < d ==> strings_view(#[trigger] docs@[k]@) == dataset@[k].tokens(),
        decreases dataset@.len() - d,
    {
        let tokens: Vec<String> = split_tokens(dataset[d].review.as_str());
        docs.push(tokens);
        d = d + 1;
    }
    assert(documents_view(docs@) =~= corpus_tokens(dataset@));
    docs
}

} // verus!
