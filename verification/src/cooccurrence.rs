//! The windowed co-occurrence matrix over a vocabulary.
//!
//! Two tokens of a document that stand `d` places apart, counted after the
//! tokens outside the vocabulary were dropped, weigh `1 - d / window` for
//! `d <= window`. Cells hold these weights times `window`, which are whole
//! numbers, so that what is accumulated is exact.

use vstd::prelude::*;
use vstd::hash_map::StringHashMap;
use crate::corpus::{corpus_tokens, Review};
use crate::error::EmbeddingError;
use crate::text::{split_tokens, strings_view};
use crate::vocab::no_duplicates;

verus! {

/// The position that stands for each term of a vocabulary. Where a term
/// stands more than once, its last position does.
pub open spec fn term_index(vocab: Seq<Seq<char>>) -> Map<Seq<char>, usize>
    decreases vocab.len(),
{
    if vocab.len() == 0 {
        Map::empty()
    } else {
        term_index(vocab.drop_last()).insert(vocab.last(), (vocab.len() - 1) as usize)
    }
}

/// A document with the tokens outside the vocabulary dropped and every
/// other token replaced by its position in the vocabulary.
pub open spec fn indexed(index: Map<Seq<char>, usize>, doc: Seq<Seq<char>>) -> Seq<usize>
    decreases doc.len(),
{
    if doc.len() == 0 {
        Seq::empty()
    } else if index.contains_key(doc.last()) {
        indexed(index, doc.drop_last()).push(index[doc.last()])
    } else {
        indexed(index, doc.drop_last())
    }
}

/// Every document of a corpus, filtered and indexed.
pub open spec fn indexed_corpus(index: Map<Seq<char>, usize>, corpus: Seq<Seq<Seq<char>>>) -> Seq<
    Seq<usize>,
> {
    Seq::new(corpus.len(), |d: int| indexed(index, corpus[d]))
}

/// The distance between two positions.
pub open spec fn gap(p: int, q: int) -> nat {
    if p >= q {
        (p - q) as nat
    } else {
        (q - p) as nat
    }
}

/// The weight of a pair at a given distance, times `window`:
/// `window - distance` inside the window and nothing outside it.
pub open spec fn scaled_window_weight(distance: nat, window: nat) -> nat {
    if distance <= window {
        (window - distance) as nat
    } else {
        0
    }
}

/// What the pair of positions `(p, q)` of a filtered document adds to
/// cell `(i, j)`.
pub open spec fn pair_weight(f: Seq<usize>, window: nat, i: int, j: int, p: int, q: int) -> nat {
    if f[p] == i && f[q] == j {
        scaled_window_weight(gap(p, q), window)
    } else {
        0
    }
}

/// What position `p`, paired with the first `n` positions, adds to cell
/// `(i, j)`.
pub open spec fn row_weight(f: Seq<usize>, window: nat, i: int, j: int, p: int, n: nat) -> nat
    decreases n,
{
    if n == 0 {
        0
    } else {
        row_weight(f, window, i, j, p, (n - 1) as nat) + pair_weight(f, window, i, j, p, n - 1)
    }
}

/// What the first `m` positions, each paired with the first `n` positions,
/// add to cell `(i, j)`.
pub open spec fn block_weight(f: Seq<usize>, window: nat, i: int, j: int, m: nat, n: nat) -> nat
    decreases m,
{
    if m == 0 {
        0
    } else {
        block_weight(f, window, i, j, (m - 1) as nat, n) + row_weight(f, window, i, j, m - 1, n)
    }
}

/// What a whole filtered document adds to cell `(i, j)`: the sum over all
/// ordered pairs of its positions.
pub open spec fn document_weight(f: Seq<usize>, window: nat, i: int, j: int) -> nat {
    block_weight(f, window, i, j, f.len(), f.len())
}

/// What the first `k` documents add to cell `(i, j)`.
pub open spec fn corpus_weight(docs: Seq<Seq<usize>>, window: nat, i: int, j: int, k: nat) -> nat
    decreases k,
{
    if k == 0 {
        0
    } else {
        corpus_weight(docs, window, i, j, (k - 1) as nat) + document_weight(
            docs[k - 1],
            window,
            i,
            j,
        )
    }
}

/// Cell `(i, j)` of the co-occurrence matrix of a corpus over a vocabulary,
/// times `window`.
pub open spec fn cooccurrence(
    vocab: Seq<Seq<char>>,
    corpus: Seq<Seq<Seq<char>>>,
    window: nat,
    i: int,
    j: int,
) -> nat {
    corpus_weight(indexed_corpus(term_index(vocab), corpus), window, i, j, corpus.len())
}

/// Whether `cells` has `n` rows of `n` cells each.
pub open spec fn is_square(cells: Seq<Vec<u64>>, n: nat) -> bool {
    &&& cells.len() == n
    &&& forall|i: int| 0 <= i < n ==> (#[trigger] cells[i])@.len() == n
}

/// The number in cell `(i, j)`.
pub open spec fn cell(cells: Seq<Vec<u64>>, i: int, j: int) -> nat {
    cells[i]@[j] as nat
}

/// Whether every index of a filtered document is below `n`.
pub open spec fn indices_below(f: Seq<usize>, n: nat) -> bool {
    forall|p: int| 0 <= p < f.len() ==> #[trigger] f[p] < n
}

/// The co-occurrence matrix: cell `(i, j)` holds the weight between terms
/// `i` and `j` times `window`.
pub struct CoOccurrenceMatrix {
    /// The window radius, by which every cell is to be divided.
    pub window: usize,
    /// The rows of the matrix.
    pub cells: Vec<Vec<u64>>,
}

impl CoOccurrenceMatrix {
    /// The number of rows, and of columns.
    pub open spec fn dim(&self) -> nat {
        self.cells@.len()
    }

    /// A matrix is well formed when it is square and its window is positive.
    pub open spec fn wf(&self) -> bool {
        &&& self.window >= 1
        &&& is_square(self.cells@, self.dim())
    }

    /// The scaled weight in cell `(i, j)`.
    pub open spec fn at(&self, i: int, j: int) -> nat {
        cell(self.cells@, i, j)
    }

    /// Whether cell `(i, j)` equals cell `(j, i)` everywhere.
    pub open spec fn is_symmetric(&self) -> bool {
        forall|i: int, j: int|
            0 <= i < self.dim() && 0 <= j < self.dim() ==> #[trigger] self.at(i, j) == self.at(
                j,
                i,
            )
    }

    /// Whether the matrix is the one of `corpus` over `vocab` for its window.
    pub open spec fn represents(&self, vocab: Seq<Seq<char>>, corpus: Seq<Seq<Seq<char>>>) -> bool {
        &&& self.dim() == vocab.len()
        &&& forall|i: int, j: int|
            0 <= i < self.dim() && 0 <= j < self.dim() ==> #[trigger] self.at(i, j)
                == cooccurrence(vocab, corpus, self.window as nat, i, j)
    }

    /// The number of rows, and of columns.
    pub fn dimension(&self) -> (n: usize)
        ensures
            n == self.dim(),
    {
        self.cells.len()
    }

    /// The scaled weight in cell `(i, j)`.
    pub fn scaled_weight(&self, i: usize, j: usize) -> (weight: u64)
        requires
            self.wf(),
            i < self.dim(),
            j < self.dim(),
        ensures
            weight == self.at(i as int, j as int),
    {
        self.cells[i][j]
    }
}

/// The weight of a pair of tokens `distance` places apart, times `window`.
/// Divided by `window` it lies between 0 and 1; it is 1 at distance 0 only,
/// and 0 from distance `window` on.
pub fn window_weight(distance: usize, window: usize) -> (weight: usize)
    ensures
        weight == scaled_window_weight(distance as nat, window as nat),
        0 <= weight <= window,
        window >= 1 ==> (weight == window <==> distance == 0),
        distance > window ==> weight == 0,
{
    if distance <= window {
        window - distance
    } else {
        0
    }
}

/// Builds the lookup from term to position.
pub fn index_vocabulary(vocab: &Vec<String>) -> (index: StringHashMap<usize>)
    ensures
        index@ == term_index(strings_view(vocab@)),
{
    let ghost terms = strings_view(vocab@);
    let mut index: StringHashMap<usize> = StringHashMap::new();
    let mut i: usize = 0;
    while i < vocab.len()
        invariant
            i <= vocab@.len(),
            terms == strings_view(vocab@),
            index@ == term_index(terms.take(i as int)),
        decreases vocab@.len() - i,
    {
        assert(terms.take(i + 1).drop_last() =~= terms.take(i as int));
        index.insert(vocab[i].clone(), i);
        i = i + 1;
    }
    assert(terms.take(vocab@.len() as int) =~= terms);
    index
}

/// Drops the tokens outside the vocabulary and replaces the others by
/// their positions, in order.
pub fn filter_indices(index: &StringHashMap<usize>, tokens: &Vec<String>) -> (f: Vec<usize>)
    ensures
        f@ == indexed(index@, strings_view(tokens@)),
{
    let ghost doc = strings_view(tokens@);
    let mut f: Vec<usize> = Vec::new();
    let mut k: usize = 0;
    while k < tokens.len()
        invariant
            k <= tokens@.len(),
            doc == strings_view(tokens@),
            f@ == indexed(index@, doc.take(k as int)),
        decreases tokens@.len() - k,
    {
        assert(doc.take(k + 1).drop_last() =~= doc.take(k as int));
        match index.get(tokens[k].as_str()) {
            Some(position) => {
                f.push(*position);
            },
            None => {},
        }
        k = k + 1;
    }
    assert(doc.take(tokens@.len() as int) =~= doc);
    f
}

/// A row of `n` zeros.
fn zero_row(n: usize) -> (row: Vec<u64>)
    ensures
        row@.len() == n,
        forall|j: int| 0 <= j < n ==> #[trigger] row@[j] == 0,
{
    let mut row: Vec<u64> = Vec::new();
    let mut j: usize = 0;
    while j < n
        invariant
            j <= n,
            row@.len() == j,
            forall|k: int| 0 <= k < j ==> #[trigger] row@[k] == 0,
        decreases n - j,
    {
        row.push(0);
        j = j + 1;
    }
    row
}

/// A square matrix of zeros.
fn zero_cells(n: usize) -> (cells: Vec<Vec<u64>>)
    ensures
        is_square(cells@, n as nat),
        forall|i: int, j: int| 0 <= i < n && 0 <= j < n ==> #[trigger] cell(cells@, i, j) == 0,
{
    let mut cells: Vec<Vec<u64>> = Vec::new();
    let mut i: usize = 0;
    while i < n
        invariant
            i <= n,
            cells@.len() == i,
            forall|a: int| 0 <= a < i ==> (#[trigger] cells@[a])@.len() == n,
            forall|a: int, b: int| 0 <= a < i && 0 <= b < n ==> #[trigger] cell(cells@, a, b) == 0,
        decreases n - i,
    {
        let row: Vec<u64> = zero_row(n);
        let ghost prior = cells@;
        cells.push(row);
        assert forall|a: int, b: int| 0 <= a <= i && 0 <= b < n implies #[trigger] cell(
            cells@,
            a,
            b,
        ) == 0 by {
            if a < i {
                assert(cells@[a] == prior[a]);
                assert(cell(prior, a, b) == 0);
            } else {
                assert(cells@[a]@[b] == 0);
            }
        }
        i = i + 1;
    }
    cells
}

/// Adds `weight` to cell `(i, j)` and leaves every other cell as it is.
fn add_to_cell(cells: &mut Vec<Vec<u64>>, i: usize, j: usize, weight: u64)
    requires
        is_square(old(cells)@, old(cells)@.len()),
        i < old(cells)@.len(),
        j < old(cells)@.len(),
        cell(old(cells)@, i as int, j as int) + weight <= u64::MAX,
    ensures
        final(cells)@.len() == old(cells)@.len(),
        is_square(final(cells)@, old(cells)@.len()),
        forall|a: int, b: int|
            0 <= a < old(cells)@.len() && 0 <= b < old(cells)@.len() ==> #[trigger] cell(
                final(cells)@,
                a,
                b,
            ) == cell(old(cells)@, a, b) + if a == i && b == j {
                weight as nat
            } else {
                0nat
            },
{
    let value: u64 = cells[i][j] + weight;
    cells[i][j] = value;
}

/// Adds to every cell what one filtered document weighs for it. Returns
/// `false`, with the cells in no particular state, when a cell would leave
/// the range of its type.
fn add_document(cells: &mut Vec<Vec<u64>>, f: &Vec<usize>, window: usize) -> (fits: bool)
    requires
        is_square(old(cells)@, old(cells)@.len()),
        indices_below(f@, old(cells)@.len()),
    ensures
        fits ==> is_square(final(cells)@, old(cells)@.len()) && forall|i: int, j: int|
            0 <= i < old(cells)@.len() && 0 <= j < old(cells)@.len() ==> #[trigger] cell(
                final(cells)@,
                i,
                j,
            ) == cell(old(cells)@, i, j) + document_weight(f@, window as nat, i, j),
        !fits ==> exists|i: int, j: int|
            0 <= i < old(cells)@.len() && 0 <= j < old(cells)@.len() && #[trigger] cell(
                old(cells)@,
                i,
                j,
            ) + document_weight(f@, window as nat, i, j) > u64::MAX,
{
    let ghost before = cells@;
    let ghost n = cells@.len();
    let ghost w = window as nat;
    let len: usize = f.len();
    let mut p: usize = 0;
    while p < len
        invariant
            p <= len,
            len == f@.len(),
            n == before.len(),
            w == window as nat,
            before == old(cells)@,
            indices_below(f@, n),
            is_square(cells@, n),
            forall|i: int, j: int|
                0 <= i < n && 0 <= j < n ==> #[trigger] cell(cells@, i, j) == cell(before, i, j)
                    + block_weight(f@, w, i, j, p as nat, len as nat),
        decreases len - p,
    {
        let mut q: usize = 0;
        while q < len
            invariant
                p < len,
                q <= len,
                len == f@.len(),
                n == before.len(),
                w == window as nat,
                before == old(cells)@,
                indices_below(f@, n),
                is_square(cells@, n),
                forall|i: int, j: int|
                    0 <= i < n && 0 <= j < n ==> #[trigger] cell(cells@, i, j) == cell(
                        before,
                        i,
                        j,
                    ) + block_weight(f@, w, i, j, p as nat, len as nat) + row_weight(
                        f@,
                        w,
                        i,
                        j,
                        p as int,
                        q as nat,
                    ),
            decreases len - q,
        {
            let a: usize = f[p];
            let b: usize = f[q];
            let distance: usize = if p >= q {
                p - q
            } else {
                q - p
            };
            let weight: usize = window_weight(distance, window);
            let ghost prior = cells@;
            assert(weight == pair_weight(f@, w, a as int, b as int, p as int, q as int));
            if weight > 0 {
                let current: u64 = cells[a][b];
                if current > u64::MAX - (weight as u64) {
                    proof {
                        lemma_row_weight_monotone(
                            f@,
                            w,
                            a as int,
                            b as int,
                            p as int,
                            (q + 1) as nat,
                            len as nat,
                        );
                        lemma_block_weight_monotone(
                            f@,
                            w,
                            a as int,
                            b as int,
                            (p + 1) as nat,
                            len as nat,
                            len as nat,
                        );
                        assert(cell(prior, a as int, b as int) == current);
                        assert(cell(before, a as int, b as int) + document_weight(
                            f@,
                            w,
                            a as int,
                            b as int,
                        ) > u64::MAX);
                    }
                    return false;
                }
                add_to_cell(cells, a, b, weight as u64);
            }
            assert forall|i: int, j: int| 0 <= i < n && 0 <= j < n implies #[trigger] cell(
                cells@,
                i,
                j,
            ) == cell(prior, i, j) + pair_weight(f@, w, i, j, p as int, q as int) by {}
            q = q + 1;
        }
        p = p + 1;
    }
    true
}

/// Builds the co-occurrence matrix of a corpus over a vocabulary.
///
/// Each review is cut into tokens, the tokens outside the vocabulary are
/// dropped, and every ordered pair of the remaining positions that lie at
/// most `window` apart adds `window` minus their distance to the cell of
/// the two terms. A position paired with itself adds `window` to the
/// diagonal.
///
/// An empty vocabulary is refused. A window of zero, for which the weights
/// are undefined, and a weight that no longer fits in a cell are reported as
/// numeric instability.
pub fn build_co_occurrence_matrix(
    vocab: &Vec<String>,
    imdb_dataset: &Vec<Review>,
    window: usize,
) -> (result: Result<CoOccurrenceMatrix, EmbeddingError>)
    ensures
        match result {
            Ok(matrix) => {
                &&& vocab@.len() > 0
                &&& matrix.window == window
                &&& matrix.wf()
                &&& matrix.represents(strings_view(vocab@), corpus_tokens(imdb_dataset@))
                &&& matrix.is_symmetric()
            },
            Err(e) => if vocab@.len() == 0 {
                e == EmbeddingError::EmptyVocabulary
            } else {
                &&& e == EmbeddingError::NumericInstability
                &&& window == 0 || exists|i: int, j: int|
                    0 <= i < vocab@.len() && 0 <= j < vocab@.len() && #[trigger] cooccurrence(
                        strings_view(vocab@),
                        corpus_tokens(imdb_dataset@),
                        window as nat,
                        i,
                        j,
                    ) > u64::MAX
            },
        },
{
    let n: usize = vocab.len();
    if n == 0 {
        return Err(EmbeddingError::EmptyVocabulary);
    }
    if window == 0 {
        return Err(EmbeddingError::NumericInstability);
    }
    let ghost terms = strings_view(vocab@);
    let ghost corpus = corpus_tokens(imdb_dataset@);
    let ghost w = window as nat;
    let index: StringHashMap<usize> = index_vocabulary(vocab);
    let ghost docs = indexed_corpus(index@, corpus);
    let mut cells: Vec<Vec<u64>> = zero_cells(n);
    let mut d: usize = 0;
    while d < imdb_dataset.len()
        invariant
            d <= imdb_dataset@.len(),
            n == vocab@.len(),
            n > 0,
            w == window as nat,
            terms == strings_view(vocab@),
            corpus == corpus_tokens(imdb_dataset@),
            index@ == term_index(terms),
            docs == indexed_corpus(index@, corpus),
            is_square(cells@, n as nat),
            forall|i: int, j: int|
                0 <= i < n && 0 <= j < n ==> #[trigger] cell(cells@, i, j) == corpus_weight(
                    docs,
                    w,
                    i,
                    j,
                    d as nat,
                ),
        decreases imdb_dataset@.len() - d,
    {
        let tokens: Vec<String> = split_tokens(imdb_dataset[d].review.as_str());
        let f: Vec<usize> = filter_indices(&index, &tokens);
        let ghost prior = cells@;
        proof {
            lemma_indexed_below(terms, corpus[d as int]);
            assert(f@ == docs[d as int]);
        }
        let fits: bool = add_document(&mut cells, &f, window);
        if !fits {
            proof {
                let (i, j) = choose|i: int, j: int|
                    0 <= i < n && 0 <= j < n && #[trigger] cell(prior, i, j) + document_weight(
                        f@,
                        w,
                        i,
                        j,
                    ) > u64::MAX;
                lemma_corpus_weight_monotone(docs, w, i, j, (d + 1) as nat, corpus.len());
                assert(cooccurrence(terms, corpus, w, i, j) > u64::MAX);
            }
            return Err(EmbeddingError::NumericInstability);
        }
        d = d + 1;
    }
    let matrix = CoOccurrenceMatrix { window, cells };
    proof {
        assert forall|i: int, j: int|
            0 <= i < matrix.dim() && 0 <= j < matrix.dim() implies #[trigger] matrix.at(i, j)
            == matrix.at(j, i) by {
            lemma_cooccurrence_symmetric(terms, corpus, w, i, j);
            assert(matrix.at(i, j) == cell(cells@, i, j));
            assert(matrix.at(j, i) == cell(cells@, j, i));
        }
    }
    Ok(matrix)
}

/// Every position that a vocabulary assigns lies inside it.
pub proof fn lemma_term_index_in_range(vocab: Seq<Seq<char>>)
    requires
        vocab.len() <= usize::MAX,
    ensures
        forall|term: Seq<char>| #[trigger]
            term_index(vocab).contains_key(term) ==> term_index(vocab)[term] < vocab.len()
                && vocab[term_index(vocab)[term] as int] == term,
        forall|k: int| 0 <= k < vocab.len() ==> term_index(vocab).contains_key(#[trigger] vocab[k]),
    decreases vocab.len(),
{
    if vocab.len() > 0 {
        let before = vocab.drop_last();
        lemma_term_index_in_range(before);
        assert forall|term: Seq<char>| #[trigger]
            term_index(vocab).contains_key(term) implies term_index(vocab)[term] < vocab.len()
            && vocab[term_index(vocab)[term] as int] == term by {
            if term != vocab.last() {
                assert(term_index(before).contains_key(term));
                assert(before[term_index(before)[term] as int] == term);
            }
        }
        assert forall|k: int| 0 <= k < vocab.len() implies term_index(vocab).contains_key(
            #[trigger] vocab[k],
        ) by {
            if k < vocab.len() - 1 {
                assert(vocab.drop_last()[k] == vocab[k]);
            }
        }
    }
}

/// In a vocabulary without repeated terms every term is indexed by its own
/// position.
pub proof fn lemma_term_index_is_position(vocab: Seq<Seq<char>>, k: int)
    requires
        vocab.len() <= usize::MAX,
        no_duplicates(vocab),
        0 <= k < vocab.len(),
    ensures
        term_index(vocab).contains_key(vocab[k]),
        term_index(vocab)[vocab[k]] == k,
{
    lemma_term_index_in_range(vocab);
    let position = term_index(vocab)[vocab[k]] as int;
    assert(vocab[position] == vocab[k]);
    if position < k {
        assert(vocab[position] != vocab[k]);
    } else if k < position {
        assert(vocab[k] != vocab[position]);
    }
}

/// A filtered document holds positions of the vocabulary only.
pub proof fn lemma_indexed_below(vocab: Seq<Seq<char>>, doc: Seq<Seq<char>>)
    requires
        vocab.len() <= usize::MAX,
    ensures
        indices_below(indexed(term_index(vocab), doc), vocab.len()),
    decreases doc.len(),
{
    if doc.len() > 0 {
        lemma_indexed_below(vocab, doc.drop_last());
        lemma_term_index_in_range(vocab);
    }
}

/// A row's weight grows with the number of positions it is paired with.
pub proof fn lemma_row_weight_monotone(
    f: Seq<usize>,
    window: nat,
    i: int,
    j: int,
    p: int,
    a: nat,
    b: nat,
)
    requires
        a <= b,
    ensures
        row_weight(f, window, i, j, p, a) <= row_weight(f, window, i, j, p, b),
    decreases b,
{
    if a < b {
        lemma_row_weight_monotone(f, window, i, j, p, a, (b - 1) as nat);
    }
}

/// A block's weight grows with the number of rows in it.
pub proof fn lemma_block_weight_monotone(
    f: Seq<usize>,
    window: nat,
    i: int,
    j: int,
    a: nat,
    b: nat,
    n: nat,
)
    requires
        a <= b,
    ensures
        block_weight(f, window, i, j, a, n) <= block_weight(f, window, i, j, b, n),
    decreases b,
{
    if a < b {
        lemma_block_weight_monotone(f, window, i, j, a, (b - 1) as nat, n);
    }
}

/// The corpus weight grows with the number of documents counted.
pub proof fn lemma_corpus_weight_monotone(
    docs: Seq<Seq<usize>>,
    window: nat,
    i: int,
    j: int,
    a: nat,
    b: nat,
)
    requires
        a <= b,
    ensures
        corpus_weight(docs, window, i, j, a) <= corpus_weight(docs, window, i, j, b),
    decreases b,
{
    if a < b {
        lemma_corpus_weight_monotone(docs, window, i, j, a, (b - 1) as nat);
    }
}

/// One more column adds to a block what the mirrored row weighs.
proof fn lemma_block_weight_column(f: Seq<usize>, window: nat, i: int, j: int, m: nat, n: nat)
    ensures
        block_weight(f, window, i, j, m, n + 1) == block_weight(f, window, i, j, m, n)
            + row_weight(f, window, j, i, n as int, m),
    decreases m,
{
    if m > 0 {
        lemma_block_weight_column(f, window, i, j, (m - 1) as nat, n);
        assert(pair_weight(f, window, i, j, m - 1, n as int) == pair_weight(
            f,
            window,
            j,
            i,
            n as int,
            m - 1,
        ));
        assert(row_weight(f, window, i, j, m - 1, n + 1) == row_weight(f, window, i, j, m - 1, n)
            + pair_weight(f, window, i, j, m - 1, n as int));
        assert(row_weight(f, window, j, i, n as int, m) == row_weight(
            f,
            window,
            j,
            i,
            n as int,
            (m - 1) as nat,
        ) + pair_weight(f, window, j, i, n as int, m - 1));
    }
}

/// A block weighs for `(i, j)` what the mirrored block weighs for `(j, i)`.
pub proof fn lemma_block_weight_mirror(f: Seq<usize>, window: nat, i: int, j: int, m: nat, n: nat)
    ensures
        block_weight(f, window, i, j, m, n) == block_weight(f, window, j, i, n, m),
    decreases n,
{
    if n == 0 {
        lemma_block_weight_no_columns(f, window, i, j, m);
    } else {
        lemma_block_weight_mirror(f, window, i, j, m, (n - 1) as nat);
        lemma_block_weight_column(f, window, i, j, m, (n - 1) as nat);
    }
}

/// A block without columns weighs nothing.
proof fn lemma_block_weight_no_columns(f: Seq<usize>, window: nat, i: int, j: int, m: nat)
    ensures
        block_weight(f, window, i, j, m, 0) == 0,
    decreases m,
{
    if m > 0 {
        lemma_block_weight_no_columns(f, window, i, j, (m - 1) as nat);
    }
}

/// The corpus weight of `(i, j)` equals that of `(j, i)`.
pub proof fn lemma_corpus_weight_symmetric(
    docs: Seq<Seq<usize>>,
    window: nat,
    i: int,
    j: int,
    k: nat,
)
    ensures
        corpus_weight(docs, window, i, j, k) == corpus_weight(docs, window, j, i, k),
    decreases k,
{
    if k > 0 {
        lemma_corpus_weight_symmetric(docs, window, i, j, (k - 1) as nat);
        let f = docs[k - 1];
        lemma_block_weight_mirror(f, window, i, j, f.len(), f.len());
    }
}

/// The co-occurrence matrix is symmetric: for every vocabulary, corpus and
/// window, cell `(i, j)` equals cell `(j, i)`.
pub proof fn lemma_cooccurrence_symmetric(
    vocab: Seq<Seq<char>>,
    corpus: Seq<Seq<Seq<char>>>,
    window: nat,
    i: int,
    j: int,
)
    ensures
        cooccurrence(vocab, corpus, window, i, j) == cooccurrence(vocab, corpus, window, j, i),
{
    lemma_corpus_weight_symmetric(
        indexed_corpus(term_index(vocab), corpus),
        window,
        i,
        j,
        corpus.len(),
    );
}

/// The window weight as a fraction of `window` lies between 0 and 1, is 1
/// at distance 0 only, and is 0 beyond the window.
pub proof fn lemma_window_weight_bounds(distance: nat, window: nat)
    requires
        window >= 1,
    ensures
        0 <= scaled_window_weight(distance, window) <= window,
        scaled_window_weight(distance, window) == window <==> distance == 0,
        distance > window ==> scaled_window_weight(distance, window) == 0,
{
}

} // verus!
