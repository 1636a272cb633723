//! From words to text: joining with spaces and tidying the punctuation.

use crate::token::{Phrase, Token};
use vstd::prelude::*;
use vstd::string::StringExecFns;

verus! {

/// `String::push` of the standard library.
///
/// Claimed: the character is appended to the end of the string and nothing
/// else changes.
#[verifier::external_body]
pub(crate) fn push_char(text: &mut String, c: char)
    ensures
        final(text)@ == old(text)@.push(c),
{
    text.push(c)
}

/// The characters of a text, one by one.
pub fn chars_of(text: &str) -> (chars: Vec<char>)
    ensures
        chars@ == text@,
{
    let mut chars: Vec<char> = Vec::new();
    for c in it: text.chars()
        invariant
            it.seq() == text@,
            chars@.len() == it.index(),
            chars@ == text@.take(chars@.len() as int),
    {
        chars.push(c);
        assert(text@.take(it.index() + 1) =~= text@.take(it.index()).push(c));
    }
    assert(text@.take(text@.len() as int) =~= text@);
    chars
}

/// The words in a row with one space between neighbours.
pub open spec fn joined(words: Phrase) -> Seq<char>
    decreases words.len(),
{
    if words.len() == 0 {
        Seq::empty()
    } else if words.len() == 1 {
        words[0]
    } else {
        joined(words.drop_last()) + seq![' '] + words.last()
    }
}

/// Joins the words with single spaces.
pub fn join(words: &Vec<String>) -> (text: String)
    ensures
        text@ == joined(words.model()),
{
    let mut text = String::new();
    let mut i: usize = 0;
    assert(words.model().take(0) =~= Seq::empty());
    while i < words.len()
        invariant
            i <= words@.len(),
            text@ == joined(words.model().take(i as int)),
        decreases words@.len() - i,
    {
        let ghost sofar = words.model().take(i as int);
        let ghost more = words.model().take(i + 1);
        assert(more.drop_last() =~= sofar);
        assert(more.last() == words@[i as int]@);
        if i > 0 {
            push_char(&mut text, ' ');
            assert(text@ =~= joined(sofar) + seq![' ']);
        } else {
            assert(text@ + words@[i as int]@ =~= words@[i as int]@);
        }
        text.append(words[i].as_str());
        i += 1;
    }
    assert(words.model().take(words@.len() as int) =~= words.model());
    text
}

/// The four marks that take no space before them.
pub open spec fn is_mark(c: char) -> bool {
    c == '.' || c == '!' || c == '?' || c == ','
}

/// The character at `i` is a space and the next one is a mark.
pub open spec fn space_before_mark(text: Seq<char>, i: int) -> bool {
    &&& 0 <= i
    &&& i + 1 < text.len()
    &&& text[i] == ' '
    &&& is_mark(text[i + 1])
}

/// The first `n` characters of `text` without the spaces that stand
/// directly before a mark.
pub open spec fn tidy_upto(text: Seq<char>, n: nat) -> Seq<char>
    decreases n,
{
    if n == 0 {
        Seq::empty()
    } else if space_before_mark(text, n - 1) {
        tidy_upto(text, (n - 1) as nat)
    } else {
        tidy_upto(text, (n - 1) as nat).push(text[n - 1])
    }
}

/// The text without the spaces that stand directly before a mark. Only the
/// one space next to the mark goes: of two spaces before a mark the first
/// stays.
pub open spec fn tidy(text: Seq<char>) -> Seq<char> {
    tidy_upto(text, text.len())
}

fn mark(c: char) -> (b: bool)
    ensures
        b == is_mark(c),
{
    c == '.' || c == '!' || c == '?' || c == ','
}

/// Removes the space before each `.`, `!`, `?` and `,`.
pub fn fix_ponctuation(s: String) -> (text: String)
    ensures
        text@ == tidy(s@),
{
    let chars = chars_of(s.as_str());
    let mut text = String::new();
    let mut i: usize = 0;
    while i < chars.len()
        invariant
            chars@ == s@,
            i <= chars@.len(),
            text@ == tidy_upto(s@, i as nat),
        decreases chars@.len() - i,
    {
        let c: char = chars[i];
        if !(c == ' ' && i + 1 < chars.len() && mark(chars[i + 1])) {
            push_char(&mut text, c);
        }
        i += 1;
    }
    text
}

/// A text that has no space directly before a mark is left as it is.
pub proof fn lemma_tidy_keeps_tidy_text(text: Seq<char>)
    requires
        forall|i: int| !space_before_mark(text, i),
    ensures
        tidy(text) == text,
{
    lemma_tidy_upto_keeps(text, text.len());
    assert(text.take(text.len() as int) =~= text);
}

proof fn lemma_tidy_upto_keeps(text: Seq<char>, n: nat)
    requires
        forall|i: int| !space_before_mark(text, i),
        n <= text.len(),
    ensures
        tidy_upto(text, n) == text.take(n as int),
    decreases n,
{
    if n > 0 {
        lemma_tidy_upto_keeps(text, (n - 1) as nat);
        assert(!space_before_mark(text, n - 1));
        assert(text.take(n as int) =~= text.take(n - 1).push(text[n - 1]));
    } else {
        assert(text.take(0) =~= Seq::empty());
    }
}

} // verus!
