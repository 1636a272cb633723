//! What the frequency tables count: single words, and runs of words.

use vstd::prelude::*;

verus! {

/// The mathematical value of a word: its characters.
pub type Word = Seq<char>;

/// The mathematical value of a run of words.
pub type Phrase = Seq<Seq<char>>;

/// A value that a frequency table can count. Two tokens are the same token
/// exactly when their models are equal.
pub trait Token: Sized {
    /// The mathematical value that stands for the token in contracts.
    type Model;

    spec fn model(&self) -> Self::Model;

    /// Decides whether two tokens have the same model.
    fn same(&self, other: &Self) -> (b: bool)
        ensures
            b == (self.model() == other.model()),
    ;

    /// Makes an independent token with the same model.
    fn duplicate(&self) -> (copy: Self)
        ensures
            copy.model() == self.model(),
    ;
}

/// The words that a sequence of strings stands for.
pub open spec fn phrase_of(words: Seq<String>) -> Phrase {
    Seq::new(words.len(), |i: int| words[i]@)
}

impl Token for String {
    type Model = Word;

    open spec fn model(&self) -> Word {
        self@
    }

    fn same(&self, other: &Self) -> (b: bool) {
        *self == *other
    }

    fn duplicate(&self) -> (copy: Self) {
        self.clone()
    }
}

impl Token for Vec<String> {
    type Model = Phrase;

    open spec fn model(&self) -> Phrase {
        phrase_of(self@)
    }

    fn same(&self, other: &Self) -> (b: bool) {
        if self.len() != other.len() {
            assert(self.model().len() != other.model().len());
            return false;
        }
        let mut i: usize = 0;
        while i < self.len()
            invariant
                i <= self.len(),
                self.len() == other.len(),
                forall|j: int| 0 <= j < i ==> self@[j]@ == other@[j]@,
            decreases self.len() - i,
        {
            if self[i] != other[i] {
                assert(self.model()[i as int] != other.model()[i as int]);
                return false;
            }
            i += 1;
        }
        assert(self.model() =~= other.model());
        true
    }

    fn duplicate(&self) -> (copy: Self) {
        let mut copy: Vec<String> = Vec::new();
        let mut i: usize = 0;
        while i < self.len()
            invariant
                i <= self.len(),
                copy.len() == i,
                forall|j: int| 0 <= j < i ==> copy@[j]@ == self@[j]@,
            decreases self.len() - i,
        {
            copy.push(self[i].clone());
            i += 1;
        }
        assert(copy.model() =~= self.model());
        copy
    }
}

/// Copies the `len` words of `words` that start at `from`.
pub fn window(words: &Vec<String>, from: usize, len: usize) -> (phrase: Vec<String>)
    requires
        from + len <= words@.len(),
    ensures
        phrase.model() == words.model().subrange(from as int, from + len),
{
    let mut phrase: Vec<String> = Vec::new();
    let mut i: usize = 0;
    let end: usize = words.len();
    while i < len
        invariant
            i <= len,
            from + len <= words@.len() == end,
            phrase@.len() == i,
            forall|j: int| 0 <= j < i ==> phrase@[j]@ == words@[from + j]@,
        decreases len - i,
    {
        phrase.push(words[from + i].clone());
        i += 1;
    }
    assert(phrase.model() =~= words.model().subrange(from as int, from + len));
    phrase
}

/// Decides whether the words of `words` from `from` on begin with `phrase`.
pub fn matches_at(phrase: &Vec<String>, words: &Vec<String>, from: usize) -> (b: bool)
    requires
        from + phrase@.len() <= words@.len(),
    ensures
        b == (phrase.model() == words.model().subrange(from as int, from + phrase@.len())),
{
    let ghost there = words.model().subrange(from as int, from + phrase@.len());
    let mut i: usize = 0;
    let end: usize = words.len();
    while i < phrase.len()
        invariant
            i <= phrase@.len(),
            from + phrase@.len() <= words@.len() == end,
            there == words.model().subrange(from as int, from + phrase@.len()),
            forall|j: int| 0 <= j < i ==> phrase@[j]@ == words@[from + j]@,
        decreases phrase@.len() - i,
    {
        if phrase[i] != words[from + i] {
            assert(phrase.model()[i as int] != there[i as int]);
            return false;
        }
        i += 1;
    }
    assert(phrase.model() =~= there);
    true
}

} // verus!
