//! The mathematical model of a chain, and what feeding does to it.
//!
//! A chain of order `n` is a table of opening phrases and, for every phrase
//! of `n` words that was seen with a word behind it, a table of the words
//! that followed. Feeding a line slides a window of `n + 1` words over it:
//! each position counts one more sighting of the window's last word behind
//! its first `n` words, and the first position also counts its phrase as an
//! opening.
//!
//! Generation begins with a phrase that opened a line and goes on along the
//! sightings. This holds for every order, order one included: a chain never
//! begins a text in the middle of a line.

use crate::tally::{
    count_of, distinct_keys, has_key, index_of, lemma_push_new_key, lemma_record_counts,
    lemma_total_push, lemma_total_update, lemma_update_keeps_keys, record, total, well_formed,
    Counts,
};
use crate::split::{lines_of, words_of};
use crate::token::{Phrase, Word};
use vstd::prelude::*;

verus! {

/// The cap on generation: a text that is this many words long gets no
/// further word.
pub const MAX_WORDS: usize = 1000;

/// What a chain has learned.
pub struct ChainModel {
    /// The number of words in a context.
    pub order: nat,
    /// How often each phrase opened a line.
    pub starts: Counts<Phrase>,
    /// For each context, how often each word followed it.
    pub transitions: Seq<(Phrase, Counts<Word>)>,
}

/// Each context with the sum of its followers' counts.
pub open spec fn sums(transitions: Seq<(Phrase, Counts<Word>)>) -> Counts<Phrase> {
    Seq::new(transitions.len(), |i: int| (transitions[i].0, total(transitions[i].1)))
}

/// Whether the window of `order + 1` words at `at` is `context` followed by `next`.
pub open spec fn sighting(words: Phrase, order: nat, at: int, context: Phrase, next: Word) -> bool {
    words.subrange(at, at + order) == context && words[at + order] == next
}

/// The number of the first `n` windows of `words` that are `context`
/// followed by `next`.
pub open spec fn occurrences(words: Phrase, order: nat, context: Phrase, next: Word, n: nat) -> nat
    decreases n,
{
    if n == 0 {
        0
    } else {
        occurrences(words, order, context, next, (n - 1) as nat) + if sighting(
            words,
            order,
            n - 1,
            context,
            next,
        ) {
            1nat
        } else {
            0nat
        }
    }
}

impl ChainModel {
    /// A chain that has learned nothing.
    pub open spec fn empty(order: nat) -> ChainModel {
        ChainModel { order, starts: Seq::empty(), transitions: Seq::empty() }
    }

    /// The model's invariant. Contexts are distinct and `order` words long;
    /// no table is empty or holds a count of zero; every opening phrase is
    /// also a context.
    pub open spec fn wf(self) -> bool {
        &&& self.order >= 1
        &&& well_formed(self.starts)
        &&& distinct_keys(self.transitions)
        &&& forall|i: int|
            0 <= i < self.transitions.len() ==> {
                &&& (#[trigger] self.transitions[i]).0.len() == self.order
                &&& well_formed(self.transitions[i].1)
                &&& self.transitions[i].1.len() >= 1
            }
        &&& forall|i: int|
            0 <= i < self.starts.len() ==> {
                &&& (#[trigger] self.starts[i]).0.len() == self.order
                &&& has_key(self.transitions, self.starts[i].0)
            }
    }

    /// Whether some word was seen behind `context`.
    pub open spec fn has_context(self, context: Phrase) -> bool {
        has_key(self.transitions, context)
    }

    /// The words seen behind `context`, with their counts.
    pub open spec fn followers(self, context: Phrase) -> Counts<Word> {
        if has_key(self.transitions, context) {
            self.transitions[index_of(self.transitions, context)].1
        } else {
            Seq::empty()
        }
    }

    /// How often `next` was seen behind `context`.
    pub open spec fn count(self, context: Phrase, next: Word) -> nat {
        count_of(self.followers(context), next)
    }

    /// How often `context` opened a line.
    pub open spec fn start_count(self, context: Phrase) -> nat {
        count_of(self.starts, context)
    }

    /// The number of sightings counted so far, over all contexts.
    pub open spec fn weight(self) -> nat {
        total(sums(self.transitions))
    }

    /// Whether `phrase` opened some line.
    pub open spec fn opens(self, phrase: Phrase) -> bool {
        has_key(self.starts, phrase)
    }

    /// Whether `word` was seen behind `context`.
    pub open spec fn follows(self, context: Phrase, word: Word) -> bool {
        has_key(self.followers(context), word)
    }

    /// The word at `i` of `path` was appended within the cap, and it was
    /// seen behind the `order` words before it.
    pub open spec fn step(self, path: Phrase, i: int) -> bool {
        &&& i < MAX_WORDS
        &&& self.follows(path.subrange(i - self.order, i), path[i])
    }

    /// What generation may produce: a path that begins with an opening
    /// phrase, goes on word by word along sightings, and ends where its last
    /// `order` words have no follower or where it has reached the cap.
    pub open spec fn walk(self, path: Phrase) -> bool {
        &&& path.len() >= self.order
        &&& self.opens(path.take(self.order as int))
        &&& forall|i: int| self.order <= i < path.len() ==> #[trigger] self.step(path, i)
        &&& (path.len() >= MAX_WORDS || !self.has_context(
            path.subrange(path.len() - self.order, path.len() as int),
        ))
    }

    /// The model after one more sighting of `next` behind `context`, which
    /// also counts as an opening where `opening` is set.
    pub open spec fn observe(self, context: Phrase, next: Word, opening: bool) -> ChainModel {
        ChainModel {
            order: self.order,
            starts: if opening {
                record(self.starts, context)
            } else {
                self.starts
            },
            transitions: if has_key(self.transitions, context) {
                let i = index_of(self.transitions, context);
                self.transitions.update(i, (context, record(self.transitions[i].1, next)))
            } else {
                self.transitions.push((context, record(Seq::empty(), next)))
            },
        }
    }

    /// The number of windows of `order + 1` words in a line.
    pub open spec fn windows(self, words: Phrase) -> nat {
        if words.len() > self.order {
            (words.len() - self.order) as nat
        } else {
            0
        }
    }

    /// The model after the first `n` windows of `words` were observed, from
    /// left to right.
    pub open spec fn fed_upto(self, words: Phrase, n: nat) -> ChainModel
        decreases n,
    {
        if n == 0 {
            self
        } else {
            let at = n - 1;
            self.fed_upto(words, at as nat).observe(
                words.subrange(at, at + self.order),
                words[at + self.order],
                at == 0,
            )
        }
    }

    /// The model after a whole line was fed. A line of `order` words or
    /// fewer has no window and changes nothing.
    pub open spec fn fed(self, words: Phrase) -> ChainModel {
        self.fed_upto(words, self.windows(words))
    }

    /// The model after each of the lines was split into words and fed, the
    /// first line first.
    pub open spec fn fed_lines(self, lines: Seq<Seq<char>>) -> ChainModel
        decreases lines.len(),
    {
        if lines.len() == 0 {
            self
        } else {
            self.fed(words_of(lines[0])).fed_lines(lines.drop_first())
        }
    }

    /// The model after a whole text was fed, line by line.
    pub open spec fn fed_text(self, text: Seq<char>) -> ChainModel {
        self.fed_lines(lines_of(text))
    }

    /// The model after the same line was fed `times` times.
    pub open spec fn fed_repeatedly(self, words: Phrase, times: nat) -> ChainModel
        decreases times,
    {
        if times == 0 {
            self
        } else {
            self.fed_repeatedly(words, (times - 1) as nat).fed(words)
        }
    }
}

/// One sighting keeps the model well formed, adds one to the weight, adds
/// one to the count of the sighted pair and, where it opens a line, to the
/// opening count of its context. Nothing else changes.
pub proof fn lemma_observe(
    model: ChainModel,
    context: Phrase,
    next: Word,
    opening: bool,
    other: Phrase,
    word: Word,
)
    requires
        model.wf(),
        context.len() == model.order,
    ensures
        model.observe(context, next, opening).wf(),
        model.observe(context, next, opening).weight() == model.weight() + 1,
        total(model.observe(context, next, opening).starts) == total(model.starts) + if opening {
            1nat
        } else {
            0nat
        },
        model.observe(context, next, opening).has_context(other) == (other == context
            || model.has_context(other)),
        model.observe(context, next, opening).count(other, word) == model.count(other, word)
            + if other == context && word == next {
            1nat
        } else {
            0nat
        },
        model.observe(context, next, opening).start_count(other) == model.start_count(other)
            + if opening && other == context {
            1nat
        } else {
            0nat
        },
{
    let after = model.observe(context, next, opening);
    let before = model.transitions;
    let grown = record(model.followers(context), next);
    assert(well_formed(Seq::<(Word, nat)>::empty()));
    assert(model.has_context(context) ==> well_formed(model.followers(context)));
    lemma_record_counts(model.followers(context), next, word);
    lemma_record_counts(model.starts, context, other);
    if has_key(before, context) {
        let i = index_of(before, context);
        lemma_update_keeps_keys(before, i, grown, other);
        lemma_update_keeps_keys(before, i, grown, context);
        lemma_total_update(sums(before), i, (context, total(grown)));
        assert(sums(after.transitions) =~= sums(before).update(i, (context, total(grown))));
        assert forall|a: int| 0 <= a < after.transitions.len() implies {
            &&& (#[trigger] after.transitions[a]).0.len() == after.order
            &&& well_formed(after.transitions[a].1)
            &&& after.transitions[a].1.len() >= 1
        } by {
            if a != i {
                assert(after.transitions[a] == before[a]);
            }
        }
    } else {
        lemma_push_new_key(before, context, grown, other);
        lemma_push_new_key(before, context, grown, context);
        lemma_total_push(sums(before), (context, total(grown)));
        assert(sums(after.transitions) =~= sums(before).push((context, total(grown))));
        assert forall|a: int| 0 <= a < after.transitions.len() implies {
            &&& (#[trigger] after.transitions[a]).0.len() == after.order
            &&& well_formed(after.transitions[a].1)
            &&& after.transitions[a].1.len() >= 1
        } by {
            if a < before.len() {
                assert(after.transitions[a] == before[a]);
            }
        }
    }
    assert forall|a: int| 0 <= a < after.starts.len() implies {
        &&& (#[trigger] after.starts[a]).0.len() == after.order
        &&& has_key(after.transitions, after.starts[a].0)
    } by {
        let key = after.starts[a].0;
        if a < model.starts.len() {
            assert(key == model.starts[a].0);
        }
        if has_key(before, context) {
            lemma_update_keeps_keys(before, index_of(before, context), grown, key);
        } else {
            lemma_push_new_key(before, context, grown, key);
        }
    }
}

/// Observing the first `n` windows of a line keeps the model well formed,
/// adds `n` to the weight, and adds to each count the number of those
/// windows that show its pair.
pub proof fn lemma_fed_upto(model: ChainModel, words: Phrase, n: nat, context: Phrase, next: Word)
    requires
        model.wf(),
        n <= model.windows(words),
    ensures
        model.fed_upto(words, n).wf(),
        model.fed_upto(words, n).order == model.order,
        model.fed_upto(words, n).weight() == model.weight() + n,
        total(model.fed_upto(words, n).starts) == total(model.starts) + if n > 0 {
            1nat
        } else {
            0nat
        },
        model.fed_upto(words, n).count(context, next) == model.count(context, next) + occurrences(
            words,
            model.order,
            context,
            next,
            n,
        ),
        model.fed_upto(words, n).start_count(context) == model.start_count(context) + if n > 0
            && words.take(model.order as int) == context {
            1nat
        } else {
            0nat
        },
        model.fed_upto(words, n).has_context(context) == (model.has_context(context)
            || exists|at: int|
            0 <= at < n && #[trigger] words.subrange(at, at + model.order) == context),
    decreases n,
{
    if n > 0 {
        let at = n - 1;
        let earlier = model.fed_upto(words, at as nat);
        lemma_fed_upto(model, words, at as nat, context, next);
        lemma_observe(
            earlier,
            words.subrange(at, at + model.order),
            words[at + model.order],
            at == 0,
            context,
            next,
        );
        if at == 0 {
            assert(words.subrange(0, model.order as int) =~= words.take(model.order as int));
        }
        if earlier.has_context(context) && !model.has_context(context) {
            let seen = choose|a: int|
                0 <= a < at && #[trigger] words.subrange(a, a + model.order) == context;
            assert(0 <= seen < n && words.subrange(seen, seen + model.order) == context);
        }
    }
}

/// Feeding a line of more than `order` words counts exactly one sighting
/// for each of its `len - order` windows, and counts its first `order` words
/// once more as an opening. Each pair's count grows by the number of windows
/// that show the pair.
pub proof fn lemma_feed_counts_each_window(
    model: ChainModel,
    words: Phrase,
    context: Phrase,
    next: Word,
)
    requires
        model.wf(),
        words.len() >= model.order + 1,
    ensures
        model.fed(words).wf(),
        model.fed(words).weight() == model.weight() + (words.len() - model.order),
        model.fed(words).opens(words.take(model.order as int)),
        model.fed(words).start_count(words.take(model.order as int)) == model.start_count(
            words.take(model.order as int),
        ) + 1,
        model.fed(words).count(context, next) == model.count(context, next) + occurrences(
            words,
            model.order,
            context,
            next,
            model.windows(words),
        ),
{
    let opening = words.take(model.order as int);
    lemma_fed_upto(model, words, model.windows(words), context, next);
    lemma_fed_upto(model, words, model.windows(words), opening, next);
}

/// Feeding never forgets: whatever the line, the model stays well formed,
/// no count goes down, and a context that had a follower keeps it.
pub proof fn lemma_feed_never_forgets(
    model: ChainModel,
    words: Phrase,
    context: Phrase,
    next: Word,
)
    requires
        model.wf(),
    ensures
        model.fed(words).wf(),
        model.fed(words).order == model.order,
        model.fed(words).weight() >= model.weight(),
        model.fed(words).count(context, next) >= model.count(context, next),
        model.fed(words).start_count(context) >= model.start_count(context),
        model.has_context(context) ==> model.fed(words).has_context(context),
{
    lemma_fed_upto(model, words, model.windows(words), context, next);
}

/// A line too short to hold a window changes nothing.
pub proof fn lemma_short_line_teaches_nothing(model: ChainModel, words: Phrase)
    requires
        words.len() < model.order + 1,
    ensures
        model.fed(words) == model,
{
}

/// Counts add up over feeds: after a line was fed `times` times, each
/// pair's count has grown by `times` times the number of the line's windows
/// that show the pair.
pub proof fn lemma_counts_accumulate(
    model: ChainModel,
    words: Phrase,
    times: nat,
    context: Phrase,
    next: Word,
)
    requires
        model.wf(),
    ensures
        model.fed_repeatedly(words, times).wf(),
        model.fed_repeatedly(words, times).order == model.order,
        model.fed_repeatedly(words, times).count(context, next) == model.count(context, next)
            + times * occurrences(words, model.order, context, next, model.windows(words)),
    decreases times,
{
    if times > 0 {
        let earlier = model.fed_repeatedly(words, (times - 1) as nat);
        let seen = occurrences(words, model.order, context, next, model.windows(words));
        lemma_counts_accumulate(model, words, (times - 1) as nat, context, next);
        lemma_fed_upto(earlier, words, earlier.windows(words), context, next);
        assert((times - 1) * seen + seen == times * seen) by (nonlinear_arith);
    }
}

/// A pair that was fed `times` times to a chain that knew nothing has the
/// count `times`, no more and no less.
pub proof fn lemma_pair_fed_repeatedly(order: nat, context: Phrase, next: Word, times: nat)
    requires
        order >= 1,
        context.len() == order,
    ensures
        ChainModel::empty(order).fed_repeatedly(context.push(next), times).count(context, next)
            == times,
{
    let model = ChainModel::empty(order);
    let words = context.push(next);
    lemma_counts_accumulate(model, words, times, context, next);
    assert(words.subrange(0, order as int) =~= context);
    assert(sighting(words, order, 0, context, next));
    assert(occurrences(words, order, context, next, 1) == 1) by {
        assert(occurrences(words, order, context, next, 0) == 0);
    }
    assert(times * 1 == times) by (nonlinear_arith);
}

/// A walk is never longer than the cap, unless the opening phrase alone is:
/// generation appends fewer than `MAX_WORDS` words, whatever the chain has
/// learned and however its sightings loop back on themselves.
pub proof fn lemma_walk_is_bounded(model: ChainModel, path: Phrase)
    requires
        model.walk(path),
    ensures
        path.len() == model.order || path.len() <= MAX_WORDS,
{
    if path.len() > model.order {
        assert(model.step(path, path.len() - 1));
    }
}

} // verus!
