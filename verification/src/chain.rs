//! The chain itself: training by feeding lines of words, and generation by
//! walking from an opening phrase along words drawn at random.

use crate::model::{lemma_fed_upto, lemma_observe, sums, ChainModel, MAX_WORDS};
use crate::split::{lemma_words_fit, line_len, lines_of, without_return, words_between};
use crate::tally::{lemma_count_within_total, lemma_index_of, record, total, Tally};
use crate::text::{chars_of, fix_ponctuation, join, joined, tidy};
use crate::token::{matches_at, window, Phrase, Token};
use vstd::prelude::*;

verus! {

/// A Markov chain over words, of a fixed order.
pub struct Chain {
    contexts: Vec<Vec<String>>,
    followers: Vec<Tally<String>>,
    frase_start: Tally<Vec<String>>,
    order: usize,
    observed: usize,
}

impl View for Chain {
    type V = ChainModel;

    closed spec fn view(&self) -> ChainModel {
        ChainModel {
            order: self.order as nat,
            starts: self.frase_start@,
            transitions: Seq::new(
                self.contexts@.len(),
                |i: int| (self.contexts@[i].model(), self.followers@[i]@),
            ),
        }
    }
}

impl Chain {
    /// The part of the invariant that concerns the representation: every
    /// context has its table, every table is sound, and the running number
    /// of sightings is the model's weight.
    pub closed spec fn sound(&self) -> bool {
        &&& self.contexts@.len() == self.followers@.len()
        &&& self.frase_start.wf()
        &&& forall|i: int| 0 <= i < self.followers@.len() ==> (#[trigger] self.followers@[i]).wf()
        &&& self.observed == self@.weight()
        &&& total(self@.starts) <= self.observed
    }

    /// The chain's invariant.
    pub open spec fn wf(&self) -> bool {
        self.sound() && self@.wf()
    }

    /// A chain of the given order that has learned nothing.
    pub fn new(order: usize) -> (chain: Chain)
        requires
            order > 0,
        ensures
            chain.wf(),
            chain@ == ChainModel::empty(order as nat),
            chain@.weight() == 0,
    {
        let chain = Chain {
            contexts: Vec::new(),
            followers: Vec::new(),
            frase_start: Tally::new(),
            order,
            observed: 0,
        };
        assert(chain@.transitions =~= Seq::empty());
        assert(sums(chain@.transitions) =~= Seq::empty());
        chain
    }

    /// The number of words in a context.
    pub fn order(&self) -> (order: usize)
        ensures
            order == self@.order,
    {
        self.order
    }

    /// The number of sightings counted so far.
    pub fn observations(&self) -> (count: usize)
        requires
            self.wf(),
        ensures
            count == self@.weight(),
    {
        self.observed
    }

    /// The number of contexts that have a follower.
    pub fn contexts(&self) -> (count: usize)
        ensures
            count == self@.transitions.len(),
    {
        self.contexts.len()
    }

    /// The context at place `i` with the table of its followers. There is
    /// none from `contexts()` on.
    pub fn transition(&self, i: usize) -> (entry: Option<(&Vec<String>, &Tally<String>)>)
        requires
            self.wf(),
        ensures
            match entry {
                Some((context, table)) => {
                    &&& i < self@.transitions.len()
                    &&& context.model() == self@.transitions[i as int].0
                    &&& table@ == self@.transitions[i as int].1
                    &&& table.wf()
                },
                None => i >= self@.transitions.len(),
            },
    {
        if i < self.contexts.len() {
            Some((&self.contexts[i], &self.followers[i]))
        } else {
            None
        }
    }

    /// The table of the phrases that opened a line.
    pub fn starts(&self) -> (table: &Tally<Vec<String>>)
        requires
            self.wf(),
        ensures
            table@ == self@.starts,
            table.wf(),
    {
        &self.frase_start
    }

    /// How often `next` was seen behind `context`.
    pub fn count(&self, context: &Vec<String>, next: &String) -> (count: usize)
        requires
            self.wf(),
        ensures
            count == self@.count(context.model(), next.model()),
    {
        if context.len() != self.order {
            assert forall|i: int| 0 <= i < self@.transitions.len() implies (
            #[trigger] self@.transitions[i]).0 != context.model() by {
                assert(self@.transitions[i].0.len() == self.order);
            }
            return 0;
        }
        assert(context.model().subrange(0, self.order as int) =~= context.model());
        match self.locate(context, 0) {
            Some(i) => {
                proof {
                    lemma_index_of(self@.transitions, context.model(), i as int);
                }
                self.followers[i].count(next)
            },
            None => 0,
        }
    }

    /// How often `context` opened a line.
    pub fn start_count(&self, context: &Vec<String>) -> (count: usize)
        requires
            self.wf(),
        ensures
            count == self@.start_count(context.model()),
    {
        self.frase_start.count(context)
    }

    /// The place of the context that the `order` words of `words` from
    /// `from` on spell, if the chain knows that context.
    fn locate(&self, words: &Vec<String>, from: usize) -> (place: Option<usize>)
        requires
            self.wf(),
            from + self.order <= words@.len(),
        ensures
            match place {
                Some(i) => i < self@.transitions.len() && self@.transitions[i as int].0
                    == words.model().subrange(from as int, from + self.order),
                None => !self@.has_context(
                    words.model().subrange(from as int, from + self.order),
                ),
            },
    {
        let ghost there = words.model().subrange(from as int, from + self.order);
        let mut i: usize = 0;
        while i < self.contexts.len()
            invariant
                self.wf(),
                i <= self.contexts@.len(),
                from + self.order <= words@.len(),
                there == words.model().subrange(from as int, from + self.order),
                forall|j: int| 0 <= j < i ==> (#[trigger] self@.transitions[j]).0 != there,
            decreases self.contexts@.len() - i,
        {
            assert(self@.transitions[i as int].0.len() == self.order);
            if matches_at(&self.contexts[i], words, from) {
                return Some(i);
            }
            i += 1;
        }
        None
    }

    /// Counts the sighting that the window of `words` at `at` shows.
    fn observe(&mut self, words: &Vec<String>, at: usize)
        requires
            old(self).wf(),
            at + old(self).order < words@.len(),
            old(self)@.weight() < usize::MAX,
        ensures
            final(self).wf(),
            final(self)@ == old(self)@.observe(
                words.model().subrange(at as int, at + old(self).order),
                words.model()[at + old(self).order],
                at == 0,
            ),
    {
        let ghost before = self@;
        let ghost context = words.model().subrange(at as int, at + self.order);
        let ghost next = words.model()[at + self.order];
        proof {
            lemma_observe(before, context, next, at == 0, context, next);
        }
        let place = self.locate(words, at);
        assert(words@.len() == words.len());
        let next_word = words[at + self.order].clone();
        if at == 0 {
            self.frase_start.add(window(words, at, self.order));
        }
        match place {
            Some(i) => {
                proof {
                    lemma_index_of(before.transitions, context, i as int);
                    lemma_count_within_total(sums(before.transitions), i as int);
                }
                self.followers[i].add(next_word);
                assert(self@.transitions =~= before.transitions.update(
                    i as int,
                    (context, record(before.transitions[i as int].1, next)),
                ));
            },
            None => {
                let mut table: Tally<String> = Tally::new();
                table.add(next_word);
                self.contexts.push(window(words, at, self.order));
                self.followers.push(table);
                assert(self@.transitions =~= before.transitions.push(
                    (context, record(Seq::empty(), next)),
                ));
            },
        }
        self.observed += 1;
    }

    /// Learns from one line of words: every run of `order` words gets one
    /// more sighting of the word behind it, and the line's first run one
    /// more as an opening. A line of `order` words or fewer teaches nothing.
    pub fn feed(&mut self, words: Vec<String>)
        requires
            old(self).wf(),
            old(self)@.weight() + words@.len() <= usize::MAX,
        ensures
            final(self).wf(),
            final(self)@ == old(self)@.fed(words.model()),
            final(self)@.weight() == old(self)@.weight() + old(self)@.windows(words.model()),
    {
        if words.len() <= self.order {
            return ;
        }
        let windows: usize = words.len() - self.order;
        let mut at: usize = 0;
        while at < windows
            invariant
                self.wf(),
                old(self).wf(),
                at <= windows,
                windows == old(self)@.windows(words.model()),
                windows + self.order == words@.len(),
                self.order == old(self).order,
                old(self)@.weight() + words@.len() <= usize::MAX,
                self@ == old(self)@.fed_upto(words.model(), at as nat),
            decreases windows - at,
        {
            proof {
                lemma_fed_upto(old(self)@, words.model(), at as nat, Seq::empty(), Seq::empty());
            }
            self.observe(&words, at);
            at += 1;
        }
        proof {
            lemma_fed_upto(old(self)@, words.model(), at as nat, Seq::empty(), Seq::empty());
        }
    }

    /// Learns from a whole text: each of its lines is split into words at
    /// white space and fed. Nothing is learned across a line's end.
    pub fn feed_text(&mut self, text: &str)
        requires
            old(self).wf(),
            old(self)@.weight() + text@.len() <= usize::MAX,
        ensures
            final(self).wf(),
            final(self)@ == old(self)@.fed_text(text@),
    {
        let chars = chars_of(text);
        let n: usize = chars.len();
        let mut start: usize = 0;
        assert(chars@.skip(0) =~= chars@);
        while start < n
            invariant
                self.wf(),
                chars@ == text@,
                start <= n == chars@.len(),
                self@.weight() + (n - start) <= usize::MAX,
                old(self)@.fed_text(text@) == self@.fed_lines(
                    lines_of(chars@.skip(start as int)),
                ),
            decreases n - start,
        {
            let ghost rest = chars@.skip(start as int);
            let mut end: usize = start;
            assert(chars@.skip(end as int) =~= rest);
            while end < n && chars[end] != '\n'
                invariant
                    start <= end <= n == chars@.len(),
                    rest == chars@.skip(start as int),
                    line_len(rest) == (end - start) + line_len(chars@.skip(end as int)),
                decreases n - end,
            {
                assert(chars@.skip(end as int).drop_first() =~= chars@.skip(end + 1));
                end += 1;
            }
            assert(line_len(rest) == end - start);
            let ended: bool = end < n;
            let stop: usize = if ended && end > start && chars[end - 1] == '\r' {
                end - 1
            } else {
                end
            };
            let next: usize = if ended {
                end + 1
            } else {
                end
            };
            let words = words_between(&chars, start, stop);
            proof {
                let line = chars@.subrange(start as int, stop as int);
                let whole = rest.take(line_len(rest) as int);
                assert(whole =~= chars@.subrange(start as int, end as int));
                if ended {
                    assert(line =~= without_return(whole));
                    assert(rest.skip(line_len(rest) as int + 1) =~= chars@.skip(next as int));
                } else {
                    assert(line =~= rest);
                    assert(chars@.skip(next as int) =~= Seq::empty());
                    assert(lines_of(rest) =~= seq![rest]);
                }
                assert(lines_of(rest)[0] == line);
                assert(lines_of(rest).drop_first() =~= lines_of(chars@.skip(next as int)));
                lemma_words_fit(line);
            }
            self.feed(words);
            start = next;
        }
        assert(chars@.skip(start as int) =~= Seq::empty());
    }

    /// Makes up a text: an opening phrase drawn in proportion to how often
    /// it opened a line, then word after word, each drawn in proportion to
    /// how often it followed the last `order` words, until those words have
    /// no follower or the text is `MAX_WORDS` words long. The words are
    /// joined with spaces and the punctuation is tidied.
    ///
    /// A chain that has learned nothing gives the empty text. Otherwise the
    /// text spells some walk of the model, whatever was drawn.
    pub fn generate(&self) -> (text: String)
        requires
            self.wf(),
        ensures
            self@.starts.len() == 0 ==> text@ == Seq::<char>::empty(),
            self@.starts.len() > 0 ==> exists|path: Phrase| #[trigger]
                self@.walk(path) && text@ == tidy(joined(path)),
    {
        if self.frase_start.is_empty() {
            return String::new();
        }
        let mut result: Vec<String> = self.frase_start.next();
        let ghost opening = result.model();
        assert(opening.take(self.order as int) =~= opening);
        let mut walking: bool = true;
        while walking && result.len() < MAX_WORDS
            invariant
                self.wf(),
                result@.len() >= self.order,
                self@.opens(result.model().take(self.order as int)),
                forall|i: int|
                    self.order <= i < result@.len() ==> #[trigger] self@.step(result.model(), i),
                !walking ==> !self@.has_context(
                    result.model().subrange(result@.len() - self.order, result@.len() as int),
                ),
            decreases MAX_WORDS - result@.len() + if walking { 1int } else { 0int },
        {
            let ghost path = result.model();
            let from: usize = result.len() - self.order;
            match self.locate(&result, from) {
                None => {
                    walking = false;
                },
                Some(i) => {
                    proof {
                        let tail = path.subrange(from as int, from + self.order);
                        lemma_index_of(self@.transitions, tail, i as int);
                    }
                    let word: String = self.followers[i].next();
                    result.push(word);
                    proof {
                        let longer = result.model();
                        assert(longer.take(self.order as int) =~= path.take(self.order as int));
                        assert forall|j: int| self.order <= j < longer.len() implies #[trigger]
                            self@.step(longer, j) by {
                            assert(longer.subrange(j - self.order, j) =~= path.subrange(
                                j - self.order,
                                j,
                            ));
                            if j < path.len() {
                                assert(self@.step(path, j));
                                assert(longer[j] == path[j]);
                            }
                        }
                    }
                },
            }
        }
        let text = fix_ponctuation(join(&result));
        assert(self@.walk(result.model()));
        text
    }
}

} // verus!
