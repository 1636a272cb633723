//! From text to words: a text falls into lines at line feeds, and a line
//! into words at white space.

use crate::text::{chars_of, push_char};
use crate::token::{phrase_of, Phrase, Token};
use vstd::prelude::*;

verus! {

/// What `char::is_whitespace` of the standard library answers for a
/// character: whether Unicode classes it as `White_Space`.
pub uninterp spec fn white_space(c: char) -> bool;

/// `char::is_whitespace` of the standard library.
///
/// Claimed: the answer depends on the character alone.
#[verifier::external_body]
pub(crate) fn is_whitespace(c: char) -> (b: bool)
    ensures
        b == white_space(c),
{
    c.is_whitespace()
}

/// The number of characters before the first line feed.
pub open spec fn line_len(text: Seq<char>) -> nat
    decreases text.len(),
{
    if text.len() == 0 || text[0] == '\n' {
        0
    } else {
        1 + line_len(text.drop_first())
    }
}

/// The line without a carriage return at its end.
pub open spec fn without_return(line: Seq<char>) -> Seq<char> {
    if line.len() > 0 && line.last() == '\r' {
        line.drop_last()
    } else {
        line
    }
}

/// The lines of a text. A line ends at a line feed, or at a carriage return
/// directly followed by one; neither belongs to the line. The last line
/// need not be ended, and a carriage return at its end stays.
pub open spec fn lines_of(text: Seq<char>) -> Seq<Seq<char>>
    decreases text.len(),
    via lines_of_ends
{
    if text.len() == 0 {
        Seq::empty()
    } else if line_len(text) < text.len() {
        seq![without_return(text.take(line_len(text) as int))] + lines_of(
            text.skip(line_len(text) as int + 1),
        )
    } else {
        seq![text]
    }
}

#[via_fn]
proof fn lines_of_ends(text: Seq<char>) {
}

/// The number of characters before the first white space.
pub open spec fn word_len(text: Seq<char>) -> nat
    decreases text.len(),
{
    if text.len() == 0 || white_space(text[0]) {
        0
    } else {
        1 + word_len(text.drop_first())
    }
}

/// The words of a line: its longest runs of characters that are not white
/// space, from left to right.
pub open spec fn words_of(line: Seq<char>) -> Phrase
    decreases line.len(),
    via words_of_ends
{
    if line.len() == 0 {
        Seq::empty()
    } else if white_space(line[0]) {
        words_of(line.drop_first())
    } else {
        seq![line.take(word_len(line) as int)] + words_of(line.skip(word_len(line) as int))
    }
}

#[via_fn]
proof fn words_of_ends(line: Seq<char>) {
    lemma_word_len(line);
}

/// A word is no longer than the line, and not empty where the line begins
/// with a character that is not white space.
pub proof fn lemma_word_len(line: Seq<char>)
    ensures
        word_len(line) <= line.len(),
        line.len() > 0 && !white_space(line[0]) ==> word_len(line) >= 1,
    decreases line.len(),
{
    if line.len() > 0 && !white_space(line[0]) {
        lemma_word_len(line.drop_first());
    }
}

/// A line has no more words than characters.
pub proof fn lemma_words_fit(line: Seq<char>)
    ensures
        words_of(line).len() <= line.len(),
    decreases line.len(),
{
    if line.len() == 0 {
    } else if white_space(line[0]) {
        lemma_words_fit(line.drop_first());
    } else {
        lemma_word_len(line);
        lemma_words_fit(line.skip(word_len(line) as int));
    }
}

/// The words among the characters from `from` up to `to`.
pub(crate) fn words_between(chars: &Vec<char>, from: usize, to: usize) -> (words: Vec<String>)
    requires
        from <= to <= chars@.len(),
    ensures
        words.model() == words_of(chars@.subrange(from as int, to as int)),
        words@.len() <= to - from,
{
    let ghost line = chars@.subrange(from as int, to as int);
    let mut words: Vec<String> = Vec::new();
    let mut i: usize = from;
    assert(words.model() + words_of(line) =~= words_of(line));
    while i < to
        invariant
            from <= i <= to <= chars@.len(),
            line == chars@.subrange(from as int, to as int),
            words.model() + words_of(chars@.subrange(i as int, to as int)) == words_of(line),
            words@.len() <= i - from,
        decreases to - i,
    {
        let ghost rest = chars@.subrange(i as int, to as int);
        if is_whitespace(chars[i]) {
            assert(rest.drop_first() =~= chars@.subrange(i + 1, to as int));
            i += 1;
        } else {
            let mut word = String::new();
            let mut j: usize = i;
            assert(chars@.subrange(i as int, j as int) =~= Seq::empty());
            while j < to && !is_whitespace(chars[j])
                invariant
                    i <= j <= to <= chars@.len(),
                    word@ == chars@.subrange(i as int, j as int),
                    word_len(chars@.subrange(i as int, to as int)) == (j - i) + word_len(
                        chars@.subrange(j as int, to as int),
                    ),
                decreases to - j,
            {
                assert(chars@.subrange(j as int, to as int).drop_first() =~= chars@.subrange(
                    j + 1,
                    to as int,
                ));
                assert(chars@.subrange(i as int, j + 1) =~= chars@.subrange(
                    i as int,
                    j as int,
                ).push(chars@[j as int]));
                push_char(&mut word, chars[j]);
                j += 1;
            }
            proof {
                let ahead = chars@.subrange(j as int, to as int);
                assert(word_len(ahead) == 0);
                assert(rest.take(word_len(rest) as int) =~= word@);
                assert(rest.skip(word_len(rest) as int) =~= ahead);
                assert(words.model().push(word@) + words_of(ahead) =~= words.model() + (seq![
                    word@,
                ] + words_of(ahead)));
                assert(phrase_of(words@.push(word)) =~= words.model().push(word@));
            }
            words.push(word);
            i = j;
        }
    }
    assert(chars@.subrange(to as int, to as int) =~= Seq::empty());
    assert(words.model() + Seq::<Seq<char>>::empty() =~= words.model());
    words
}

/// Splits a line into its words.
pub fn tokenize(line: &str) -> (words: Vec<String>)
    ensures
        words.model() == words_of(line@),
{
    let chars = chars_of(line);
    assert(chars@.subrange(0, chars@.len() as int) =~= line@);
    words_between(&chars, 0, chars.len())
}

} // verus!
