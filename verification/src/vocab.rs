//! Vocabulary selection: the terms that reach a frequency threshold, in the
//! order in which they reach it.

use vstd::prelude::*;
use vstd::hash_map::StringHashMap;
use crate::corpus::{corpus_tokens, Review};
use crate::text::{split_tokens, strings_view};

verus! {

/// All tokens of the corpus in scan order: document by document, and in each
/// document from its first token to its last.
pub open spec fn flatten(docs: Seq<Seq<Seq<char>>>) -> Seq<Seq<char>>
    decreases docs.len(),
{
    if docs.len() == 0 {
        Seq::empty()
    } else {
        flatten(docs.drop_last()) + docs.last()
    }
}

/// How often `term` occurs in `stream`.
pub open spec fn occurrences(stream: Seq<Seq<char>>, term: Seq<char>) -> nat
    decreases stream.len(),
{
    if stream.len() == 0 {
        0
    } else if stream.last() == term {
        occurrences(stream.drop_last(), term) + 1
    } else {
        occurrences(stream.drop_last(), term)
    }
}

/// The vocabulary after a scan of `stream`: a term is appended at the
/// position at which its running count equals `threshold`, and never again.
pub open spec fn vocabulary_of_stream(stream: Seq<Seq<char>>, threshold: nat) -> Seq<Seq<char>>
    decreases stream.len(),
{
    if stream.len() == 0 {
        Seq::empty()
    } else if occurrences(stream, stream.last()) == threshold {
        vocabulary_of_stream(stream.drop_last(), threshold).push(stream.last())
    } else {
        vocabulary_of_stream(stream.drop_last(), threshold)
    }
}

/// The vocabulary of a corpus of tokenised documents.
pub open spec fn vocabulary(docs: Seq<Seq<Seq<char>>>, threshold: nat) -> Seq<Seq<char>> {
    vocabulary_of_stream(flatten(docs), threshold)
}

/// Whether no term stands at two positions.
pub open spec fn no_duplicates(terms: Seq<Seq<char>>) -> bool {
    forall|a: int, b: int| 0 <= a < b < terms.len() ==> terms[a] != terms[b]
}

/// The count that the scan keeps for a term: it stops counting at the
/// threshold.
pub open spec fn clamped(count: nat, threshold: nat) -> nat {
    if count < threshold {
        count
    } else {
        threshold
    }
}

/// The count kept for `term`, zero where none is kept.
pub open spec fn kept_count(counts: Map<Seq<char>, usize>, term: Seq<char>) -> nat {
    if counts.contains_key(term) {
        counts[term] as nat
    } else {
        0
    }
}

/// One more token raises the count of that term by one and no other.
pub proof fn lemma_occurrences_push(stream: Seq<Seq<char>>, token: Seq<char>, term: Seq<char>)
    ensures
        occurrences(stream.push(token), term) == occurrences(stream, term) + if token == term {
            1nat
        } else {
            0nat
        },
{
    assert(stream.push(token).drop_last() =~= stream);
}

/// A term of the vocabulary occurs at least `threshold` times in the scan
/// that produced it, the threshold is positive when there is such a term,
/// and every term that occurs that often is in the vocabulary.
pub proof fn lemma_vocabulary_terms_reach_threshold(stream: Seq<Seq<char>>, threshold: nat)
    ensures
        forall|k: int|
            0 <= k < vocabulary_of_stream(stream, threshold).len() ==> occurrences(
                stream,
                #[trigger] vocabulary_of_stream(stream, threshold)[k],
            ) >= threshold,
        vocabulary_of_stream(stream, threshold).len() > 0 ==> threshold >= 1,
        forall|term: Seq<char>|
            threshold >= 1 && #[trigger] occurrences(stream, term) >= threshold
                ==> vocabulary_of_stream(stream, threshold).contains(term),
    decreases stream.len(),
{
    if stream.len() > 0 {
        let before = stream.drop_last();
        let last = stream.last();
        let voc_before = vocabulary_of_stream(before, threshold);
        let voc = vocabulary_of_stream(stream, threshold);
        lemma_vocabulary_terms_reach_threshold(before, threshold);
        assert forall|k: int| 0 <= k < voc.len() implies occurrences(stream, #[trigger] voc[k])
            >= threshold by {
            if k < voc_before.len() {
                assert(voc[k] == voc_before[k]);
                assert(occurrences(before, voc_before[k]) >= threshold);
            }
        }
        assert forall|term: Seq<char>|
            threshold >= 1 && #[trigger] occurrences(stream, term) >= threshold implies voc.contains(
            term,
        ) by {
            if occurrences(before, term) >= threshold {
                let k = choose|k: int| 0 <= k < voc_before.len() && voc_before[k] == term;
                assert(voc[k] == term);
            } else {
                assert(term == last);
                assert(voc == voc_before.push(last));
                assert(voc[voc_before.len() as int] == term);
            }
        }
    }
}

/// No term stands twice in a vocabulary.
pub proof fn lemma_vocabulary_no_duplicates(stream: Seq<Seq<char>>, threshold: nat)
    ensures
        no_duplicates(vocabulary_of_stream(stream, threshold)),
    decreases stream.len(),
{
    if stream.len() > 0 {
        let before = stream.drop_last();
        let last = stream.last();
        let voc_before = vocabulary_of_stream(before, threshold);
        let voc = vocabulary_of_stream(stream, threshold);
        lemma_vocabulary_no_duplicates(before, threshold);
        lemma_vocabulary_terms_reach_threshold(before, threshold);
        assert forall|a: int, b: int| 0 <= a < b < voc.len() implies voc[a] != voc[b] by {
            if b < voc_before.len() {
                assert(voc[a] == voc_before[a] && voc[b] == voc_before[b]);
            } else {
                assert(voc[a] == voc_before[a]);
                assert(occurrences(before, voc_before[a]) >= threshold);
                assert(occurrences(before, last) < threshold);
            }
        }
    }
}

/// Whether `shorter` is the beginning of `longer`.
pub open spec fn is_prefix_of(shorter: Seq<Seq<char>>, longer: Seq<Seq<char>>) -> bool {
    &&& shorter.len() <= longer.len()
    &&& forall|k: int| 0 <= k < shorter.len() ==> #[trigger] shorter[k] == longer[k]
}

/// The vocabulary only grows at its end while the scan goes on: the
/// vocabulary of the first `n` tokens is the beginning of the vocabulary of
/// the whole scan, so a term keeps the position at which it entered.
pub proof fn lemma_vocabulary_positions_are_stable(stream: Seq<Seq<char>>, n: int, threshold: nat)
    requires
        0 <= n <= stream.len(),
    ensures
        is_prefix_of(
            vocabulary_of_stream(stream.take(n), threshold),
            vocabulary_of_stream(stream, threshold),
        ),
    decreases stream.len() - n,
{
    if n == stream.len() {
        assert(stream.take(n) =~= stream);
    } else {
        lemma_vocabulary_positions_are_stable(stream, n + 1, threshold);
        let shorter = vocabulary_of_stream(stream.take(n), threshold);
        let longer = vocabulary_of_stream(stream.take(n + 1), threshold);
        let whole = vocabulary_of_stream(stream, threshold);
        assert(stream.take(n + 1).drop_last() =~= stream.take(n));
        assert(longer == shorter || longer == shorter.push(stream.take(n + 1).last()));
        assert forall|k: int| 0 <= k < shorter.len() implies #[trigger] shorter[k] == whole[k] by {
            assert(shorter[k] == longer[k]);
            assert(longer[k] == whole[k]);
        }
    }
}

/// The vocabulary is empty exactly when the threshold is zero or no term
/// occurs `threshold` times.
pub proof fn lemma_vocabulary_empty_iff(docs: Seq<Seq<Seq<char>>>, threshold: nat)
    ensures
        vocabulary(docs, threshold).len() == 0 <==> (threshold == 0 || forall|term: Seq<char>|
            #[trigger] occurrences(flatten(docs), term) < threshold),
{
    let stream = flatten(docs);
    let voc = vocabulary(docs, threshold);
    lemma_vocabulary_terms_reach_threshold(stream, threshold);
    if voc.len() > 0 {
        assert(occurrences(stream, voc[0]) >= threshold);
    } else if threshold >= 1 {
        assert forall|term: Seq<char>| #[trigger] occurrences(stream, term) < threshold by {
            if occurrences(stream, term) >= threshold {
                assert(voc.contains(term));
            }
        }
    }
}

/// The law of the vocabulary, for every corpus and every threshold: each
/// of its terms occurs at least `threshold` times in the corpus, and none
/// stands in it twice.
pub proof fn lemma_vocabulary_is_sound(docs: Seq<Seq<Seq<char>>>, threshold: nat)
    ensures
        forall|k: int|
            0 <= k < vocabulary(docs, threshold).len() ==> occurrences(
                flatten(docs),
                #[trigger] vocabulary(docs, threshold)[k],
            ) >= threshold,
        no_duplicates(vocabulary(docs, threshold)),
{
    lemma_vocabulary_terms_reach_threshold(flatten(docs), threshold);
    lemma_vocabulary_no_duplicates(flatten(docs), threshold);
}

/// Selects the vocabulary of a corpus. Counts are kept term by term over the
/// whole scan; a term enters the vocabulary at the token with which its
/// count reaches `threshold`. With a threshold of zero no count ever equals
/// it, and the vocabulary is empty.
pub fn build_vocab(dataset: &Vec<Review>, threshold: usize) -> (vocab: Vec<String>)
    ensures
        strings_view(vocab@) == vocabulary(corpus_tokens(dataset@), threshold as nat),
        no_duplicates(strings_view(vocab@)),
        forall|k: int|
            0 <= k < vocab@.len() ==> occurrences(
                flatten(corpus_tokens(dataset@)),
                #[trigger] strings_view(vocab@)[k],
            ) >= threshold,
{
    let ghost corpus = corpus_tokens(dataset@);
    let mut vocab: Vec<String> = Vec::new();
    let mut counts: StringHashMap<usize> = StringHashMap::new();
    let mut d: usize = 0;
    while d < dataset.len()
        invariant
            d <= dataset@.len(),
            corpus == corpus_tokens(dataset@),
            forall|term: Seq<char>| #[trigger]
                kept_count(counts@, term) == clamped(
                    occurrences(flatten(corpus.take(d as int)), term),
                    threshold as nat,
                ),
            strings_view(vocab@) == vocabulary_of_stream(
                flatten(corpus.take(d as int)),
                threshold as nat,
            ),
        decreases dataset@.len() - d,
    {
        let tokens: Vec<String> = split_tokens(dataset[d].review.as_str());
        let ghost scanned = flatten(corpus.take(d as int));
        let mut k: usize = 0;
        while k < tokens.len()
            invariant
                k <= tokens@.len(),
                forall|term: Seq<char>| #[trigger]
                    kept_count(counts@, term) == clamped(
                        occurrences(scanned + strings_view(tokens@).take(k as int), term),
                        threshold as nat,
                    ),
                strings_view(vocab@) == vocabulary_of_stream(
                    scanned + strings_view(tokens@).take(k as int),
                    threshold as nat,
                ),
            decreases tokens@.len() - k,
        {
            let ghost stream = scanned + strings_view(tokens@).take(k as int);
            let ghost token = tokens@[k as int]@;
            let ghost old_counts = counts@;
            let ghost old_vocab = strings_view(vocab@);
            proof {
                assert(scanned + strings_view(tokens@).take(k + 1) =~= stream.push(token));
                assert(stream.push(token).drop_last() =~= stream);
                assert(kept_count(old_counts, token) == clamped(
                    occurrences(stream, token),
                    threshold as nat,
                ));
                lemma_occurrences_push(stream, token, token);
            }
            let seen: usize = match counts.get(tokens[k].as_str()) {
                Some(c) => *c,
                None => 0,
            };
            if seen < threshold {
                counts.insert(tokens[k].clone(), seen + 1);
                if seen + 1 == threshold {
                    vocab.push(tokens[k].clone());
                    assert(strings_view(vocab@) =~= old_vocab.push(token));
                }
            }
            proof {
                assert forall|term: Seq<char>| #[trigger]
                    kept_count(counts@, term) == clamped(
                        occurrences(stream.push(token), term),
                        threshold as nat,
                    ) by {
                    lemma_occurrences_push(stream, token, term);
                    assert(kept_count(old_counts, term) == clamped(
                        occurrences(stream, term),
                        threshold as nat,
                    ));
                }
            }
            k = k + 1;
        }
        proof {
            assert(strings_view(tokens@).take(tokens@.len() as int) =~= strings_view(tokens@));
            assert(corpus.take(d + 1).drop_last() =~= corpus.take(d as int));
            assert(corpus.take(d + 1).last() == strings_view(tokens@));
        }
        d = d + 1;
    }
    proof {
        assert(corpus.take(dataset@.len() as int) =~= corpus);
        lemma_vocabulary_is_sound(corpus, threshold as nat);
    }
    vocab
}

} // verus!
