//! Text cleaning and tokenisation.
//!
//! A raw review is reduced to lower-case words, each followed by one space;
//! a cleaned text is later cut into tokens at white space.

use vstd::prelude::*;
use vstd::std_specs::iter::IteratorSpec;
use vstd::string::StringExecFns;

verus! {

/// What `char::is_alphanumeric` answers for a character.
pub uninterp spec fn is_alphanumeric_char(c: char) -> bool;

/// What `char::is_whitespace` answers for a character.
pub uninterp spec fn is_whitespace_char(c: char) -> bool;

/// The characters that `str::to_lowercase` returns for a text.
pub uninterp spec fn lowercase_of(s: Seq<char>) -> Seq<char>;

/// `char::is_alphanumeric`: the answer depends on the character alone. Which
/// characters are alphabetic or numeric is left to the standard library.
pub assume_specification[ char::is_alphanumeric ](c: char) -> (b: bool)
    ensures
        b == is_alphanumeric_char(c),
;

/// `char::is_whitespace`: the answer depends on the character alone. Which
/// characters count as white space is left to the standard library.
pub assume_specification[ char::is_whitespace ](c: char) -> (b: bool)
    ensures
        b == is_whitespace_char(c),
;

/// `str::to_lowercase`: the result depends on the characters of the text
/// alone. The mapping itself is left to the standard library.
pub assume_specification[ str::to_lowercase ](s: &str) -> (r: String)
    ensures
        r@ == lowercase_of(s@),
;

/// `String::push` appends the character at the end and changes nothing else.
pub assume_specification[ String::push ](s: &mut String, ch: char)
    ensures
        final(s)@ == old(s)@.push(ch),
;

/// The texts held by a sequence of strings.
pub open spec fn strings_view(v: Seq<String>) -> Seq<Seq<char>> {
    Seq::new(v.len(), |i: int| v[i]@)
}

/// Whether the three characters `<br` start at position `i`.
pub open spec fn break_tag_at(s: Seq<char>, i: int) -> bool {
    &&& 0 <= i
    &&& i + 2 < s.len()
    &&& s[i] == '<'
    &&& s[i + 1] == 'b'
    &&& s[i + 2] == 'r'
}

/// The text from position `i` on, without any `<br`.
pub open spec fn strip_from(s: Seq<char>, i: int) -> Seq<char>
    decreases s.len() - i,
{
    if i < 0 || i >= s.len() {
        Seq::empty()
    } else if break_tag_at(s, i) {
        strip_from(s, i + 3)
    } else {
        seq![s[i]] + strip_from(s, i + 1)
    }
}

/// The text with every occurrence of `<br` taken out.
pub open spec fn strip_break_tags(s: Seq<char>) -> Seq<char> {
    strip_from(s, 0)
}

/// Whether `c` continues (or starts) a word, given the word read so far: an
/// alphanumeric character always does, an apostrophe only inside a word.
pub open spec fn is_word_char(c: char, current: Seq<char>) -> bool {
    is_alphanumeric_char(c) || (c == '\'' && current.len() > 0)
}

/// The word read so far, as a sequence of at most one word.
pub open spec fn flush(current: Seq<char>) -> Seq<Seq<char>> {
    if current.len() > 0 {
        seq![current]
    } else {
        Seq::empty()
    }
}

/// The words of `s` from position `i` on, where `current` is the part of a
/// word already read.
pub open spec fn words_from(s: Seq<char>, i: int, current: Seq<char>) -> Seq<Seq<char>>
    decreases s.len() - i,
{
    if i < 0 || i >= s.len() {
        flush(current)
    } else if is_word_char(s[i], current) {
        words_from(s, i + 1, current.push(s[i]))
    } else {
        flush(current) + words_from(s, i + 1, Seq::empty())
    }
}

/// The words of a text: the longest runs of alphanumeric characters and
/// apostrophes that start with an alphanumeric character.
pub open spec fn words_of(s: Seq<char>) -> Seq<Seq<char>> {
    words_from(s, 0, Seq::empty())
}

/// Each word in lower case, followed by one space.
pub open spec fn join_lowercase(words: Seq<Seq<char>>) -> Seq<char>
    decreases words.len(),
{
    if words.len() == 0 {
        Seq::empty()
    } else {
        join_lowercase(words.drop_last()) + lowercase_of(words.last()).push(' ')
    }
}

/// The cleaned form of a raw text.
pub open spec fn clean_text(s: Seq<char>) -> Seq<char> {
    join_lowercase(words_of(strip_break_tags(s)))
}

/// The tokens of `s` from position `i` on, where `current` is the part of a
/// token already read.
pub open spec fn tokens_from(s: Seq<char>, i: int, current: Seq<char>) -> Seq<Seq<char>>
    decreases s.len() - i,
{
    if i < 0 || i >= s.len() {
        flush(current)
    } else if is_whitespace_char(s[i]) {
        flush(current) + tokens_from(s, i + 1, Seq::empty())
    } else {
        tokens_from(s, i + 1, current.push(s[i]))
    }
}

/// The tokens of a text: its longest runs of characters that are not white
/// space, in order.
pub open spec fn tokens_of(s: Seq<char>) -> Seq<Seq<char>> {
    tokens_from(s, 0, Seq::empty())
}

/// The characters of a text, one by one.
pub fn to_chars(s: &str) -> (v: Vec<char>)
    ensures
        v@ == s@,
{
    broadcast use vstd::string::group_string_axioms;

    let mut v: Vec<char> = Vec::new();
    let mut it = s.chars();
    loop
        invariant
            it.obeys_prophetic_iter_laws(),
            it.decrease() is Some,
            v@ + it.remaining() == s@,
        ensures
            v@ == s@,
        decreases it.decrease()->0,
    {
        match it.next() {
            Some(c) => {
                v.push(c);
            },
            None => {
                assert(v@ =~= s@);
                break ;
            },
        }
    }
    v
}

/// Takes every `<br` out of a text.
pub fn remove_break_tags(chars: &Vec<char>) -> (out: Vec<char>)
    ensures
        out@ == strip_break_tags(chars@),
{
    let n: usize = chars.len();
    let mut out: Vec<char> = Vec::new();
    let mut i: usize = 0;
    while i < n
        invariant
            n == chars.len(),
            i <= n,
            out@ + strip_from(chars@, i as int) == strip_from(chars@, 0),
        decreases n - i,
    {
        if n - i >= 3 && chars[i] == '<' && chars[i + 1] == 'b' && chars[i + 2] == 'r' {
            i = i + 3;
        } else {
            assert(out@.push(chars@[i as int]) + strip_from(chars@, i + 1) =~= out@ + strip_from(
                chars@,
                i as int,
            ));
            out.push(chars[i]);
            i = i + 1;
        }
    }
    assert(out@ + Seq::<char>::empty() =~= out@);
    out
}

/// Cleans a raw review: `<br` is removed, every word is put in lower case
/// and followed by one space, and everything else is dropped.
pub fn clean_review(review: String) -> (cleaned: String)
    ensures
        cleaned@ == clean_text(review@),
{
    let raw: Vec<char> = to_chars(review.as_str());
    let chars: Vec<char> = remove_break_tags(&raw);
    let n: usize = chars.len();
    let mut cleaned: String = String::new();
    let mut current: String = String::new();
    let mut in_word: bool = false;
    let ghost mut done: Seq<Seq<char>> = Seq::empty();
    let mut i: usize = 0;
    while i < n
        invariant
            n == chars.len(),
            i <= n,
            in_word == (current@.len() > 0),
            cleaned@ == join_lowercase(done),
            done + words_from(chars@, i as int, current@) == words_of(chars@),
        decreases n - i,
    {
        let c: char = chars[i];
        if c.is_alphanumeric() || (c == '\'' && in_word) {
            in_word = true;
            current.push(c);
        } else {
            if in_word {
                proof {
                    lemma_join_lowercase_push(done, current@);
                    assert(done.push(current@) + words_from(chars@, i + 1, Seq::empty()) =~= done
                        + words_from(chars@, i as int, current@));
                    done = done.push(current@);
                }
                in_word = false;
                let mut word: String = current.as_str().to_lowercase();
                word.push(' ');
                cleaned.append(word.as_str());
                current = String::new();
            } else {
                assert(current@ =~= Seq::<char>::empty());
                assert(done + words_from(chars@, i + 1, Seq::empty()) =~= done + words_from(
                    chars@,
                    i as int,
                    current@,
                ));
            }
        }
        i = i + 1;
    }
    if in_word {
        proof {
            lemma_join_lowercase_push(done, current@);
            assert(done.push(current@) =~= done + words_from(chars@, i as int, current@));
        }
        let mut word: String = current.as_str().to_lowercase();
        word.push(' ');
        cleaned.append(word.as_str());
    } else {
        assert(done =~= done + words_from(chars@, i as int, current@));
    }
    cleaned
}

/// Cuts a text into its tokens at white space.
pub fn split_tokens(text: &str) -> (tokens: Vec<String>)
    ensures
        strings_view(tokens@) == tokens_of(text@),
{
    let chars: Vec<char> = to_chars(text);
    let n: usize = chars.len();
    let mut tokens: Vec<String> = Vec::new();
    let mut current: String = String::new();
    let mut in_token: bool = false;
    let mut i: usize = 0;
    while i < n
        invariant
            n == chars.len(),
            i <= n,
            chars@ == text@,
            in_token == (current@.len() > 0),
            strings_view(tokens@) + tokens_from(chars@, i as int, current@) == tokens_of(chars@),
        decreases n - i,
    {
        let c: char = chars[i];
        if c.is_whitespace() {
            if in_token {
                assert(strings_view(tokens@.push(current)) + tokens_from(
                    chars@,
                    i + 1,
                    Seq::empty(),
                ) =~= strings_view(tokens@) + tokens_from(chars@, i as int, current@));
                tokens.push(current);
                current = String::new();
                in_token = false;
            } else {
                assert(current@ =~= Seq::<char>::empty());
                assert(strings_view(tokens@) + tokens_from(chars@, i + 1, Seq::empty())
                    =~= strings_view(tokens@) + tokens_from(chars@, i as int, current@));
            }
        } else {
            current.push(c);
            in_token = true;
        }
        i = i + 1;
    }
    if in_token {
        assert(strings_view(tokens@.push(current)) =~= strings_view(tokens@) + tokens_from(
            chars@,
            i as int,
            current@,
        ));
        tokens.push(current);
    } else {
        assert(strings_view(tokens@) =~= strings_view(tokens@) + tokens_from(
            chars@,
            i as int,
            current@,
        ));
    }
    tokens
}

/// Whether a sequence of characters has the shape of a word: it is not
/// empty, starts with an alphanumeric character and holds nothing but
/// alphanumeric characters and apostrophes.
pub open spec fn is_word(word: Seq<char>) -> bool {
    &&& word.len() > 0
    &&& is_alphanumeric_char(word[0])
    &&& forall|k: int|
        0 <= k < word.len() ==> is_alphanumeric_char(#[trigger] word[k]) || word[k] == '\''
}

/// Where the word read so far is empty or has the shape of a word, every
/// word that follows has it.
proof fn lemma_words_from_are_words(s: Seq<char>, i: int, current: Seq<char>)
    requires
        0 <= i,
        current.len() == 0 || is_word(current),
    ensures
        forall|k: int|
            0 <= k < words_from(s, i, current).len() ==> is_word(
                #[trigger] words_from(s, i, current)[k],
            ),
    decreases s.len() - i,
{
    let words = words_from(s, i, current);
    if i < s.len() {
        if is_word_char(s[i], current) {
            let longer = current.push(s[i]);
            assert(is_word(longer)) by {
                assert(longer[0] == if current.len() == 0 {
                    s[i]
                } else {
                    current[0]
                });
                assert forall|k: int| 0 <= k < longer.len() implies is_alphanumeric_char(
                    #[trigger] longer[k],
                ) || longer[k] == '\'' by {
                    if k < current.len() {
                        assert(longer[k] == current[k]);
                    }
                }
            }
            lemma_words_from_are_words(s, i + 1, longer);
            assert(words == words_from(s, i + 1, longer));
        } else {
            let rest = words_from(s, i + 1, Seq::empty());
            lemma_words_from_are_words(s, i + 1, Seq::empty());
            assert(words == flush(current) + rest);
            assert forall|k: int| 0 <= k < words.len() implies is_word(#[trigger] words[k]) by {
                if k < flush(current).len() {
                    assert(words[k] == current);
                } else {
                    assert(words[k] == rest[k - flush(current).len()]);
                }
            }
        }
    } else {
        assert(words == flush(current));
        assert forall|k: int| 0 <= k < words.len() implies is_word(#[trigger] words[k]) by {
            assert(words[k] == current);
        }
    }
}

/// Every word of a text starts with an alphanumeric character and holds
/// alphanumeric characters and apostrophes only.
pub proof fn lemma_words_are_words(s: Seq<char>)
    ensures
        forall|k: int| 0 <= k < words_of(s).len() ==> is_word(#[trigger] words_of(s)[k]),
{
    lemma_words_from_are_words(s, 0, Seq::empty());
}

/// Joining one more word appends its lower-case form and a space.
proof fn lemma_join_lowercase_push(words: Seq<Seq<char>>, word: Seq<char>)
    ensures
        join_lowercase(words.push(word)) == join_lowercase(words) + lowercase_of(word).push(' '),
{
    assert(words.push(word).drop_last() =~= words);
}

} // verus!
