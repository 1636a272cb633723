//! A chain's tables as text, for a reader who wants to see what was learned.
//!
//! The layout: a headline, then for each context a line with its words and
//! below it one line for each follower with its count, then a closing
//! bracket. The opening phrases are listed apart, one to a line.

use crate::chain::Chain;
use crate::model::ChainModel;
use crate::tally::{Counts, Tally};
use crate::text::push_char;
use crate::token::{Phrase, Token, Word};
use vstd::prelude::*;
use vstd::string::StringExecFns;

verus! {

/// What the standard library's `Debug` formatting writes for a vector of
/// strings with these words: the words in double quotes, escaped as `Debug`
/// escapes a string, with commas between them and square brackets around.
pub uninterp spec fn debug_form(words: Phrase) -> Seq<char>;

/// `format!("{:?}", words)` of the standard library.
///
/// Claimed: the text depends on the words alone.
#[verifier::external_body]
pub(crate) fn debug_text(words: &Vec<String>) -> (text: String)
    ensures
        text@ == debug_form(words.model()),
{
    format!("{:?}", words)
}

/// The character for a decimal digit.
pub open spec fn digit(d: nat) -> char {
    if d == 0 {
        '0'
    } else if d == 1 {
        '1'
    } else if d == 2 {
        '2'
    } else if d == 3 {
        '3'
    } else if d == 4 {
        '4'
    } else if d == 5 {
        '5'
    } else if d == 6 {
        '6'
    } else if d == 7 {
        '7'
    } else if d == 8 {
        '8'
    } else {
        '9'
    }
}

/// A number in decimal digits, without leading zeros.
pub open spec fn digits(n: nat) -> Seq<char>
    decreases n,
{
    if n < 10 {
        seq![digit(n)]
    } else {
        digits(n / 10).push(digit(n % 10))
    }
}

/// One follower's line: two tabs, the word, a colon and a space, the count.
pub open spec fn row(entry: (Word, nat)) -> Seq<char> {
    "\t\t"@ + entry.0 + ": "@ + digits(entry.1) + "\n"@
}

/// The lines of the first `n` followers of a table.
pub open spec fn rows(table: Counts<Word>, n: nat) -> Seq<char>
    decreases n,
{
    if n == 0 {
        Seq::empty()
    } else {
        rows(table, (n - 1) as nat) + row(table[n - 1])
    }
}

/// One context's part: a tab, its words and a colon, then its followers.
pub open spec fn block(entry: (Phrase, Counts<Word>)) -> Seq<char> {
    "\t"@ + debug_form(entry.0) + ":\n"@ + rows(entry.1, entry.1.len())
}

/// The parts of the first `n` contexts.
pub open spec fn blocks(transitions: Seq<(Phrase, Counts<Word>)>, n: nat) -> Seq<char>
    decreases n,
{
    if n == 0 {
        Seq::empty()
    } else {
        blocks(transitions, (n - 1) as nat) + block(transitions[n - 1])
    }
}

/// The whole dump of a chain's contexts.
pub open spec fn dump_of(model: ChainModel) -> Seq<char> {
    "Chain: [\n"@ + blocks(model.transitions, model.transitions.len()) + "]"@
}

/// One opening phrase's line: its words, a colon and a space, its count.
pub open spec fn opening_line(entry: (Phrase, nat)) -> Seq<char> {
    debug_form(entry.0) + ": "@ + digits(entry.1) + "\n"@
}

/// The lines of the first `n` opening phrases.
pub open spec fn opening_lines(starts: Counts<Phrase>, n: nat) -> Seq<char>
    decreases n,
{
    if n == 0 {
        Seq::empty()
    } else {
        opening_lines(starts, (n - 1) as nat) + opening_line(starts[n - 1])
    }
}

fn digit_char(d: usize) -> (c: char)
    requires
        d < 10,
    ensures
        c == digit(d as nat),
{
    if d == 0 {
        '0'
    } else if d == 1 {
        '1'
    } else if d == 2 {
        '2'
    } else if d == 3 {
        '3'
    } else if d == 4 {
        '4'
    } else if d == 5 {
        '5'
    } else if d == 6 {
        '6'
    } else if d == 7 {
        '7'
    } else if d == 8 {
        '8'
    } else {
        '9'
    }
}

/// Writes a number in decimal digits.
pub fn decimal(n: usize) -> (text: String)
    ensures
        text@ == digits(n as nat),
    decreases n,
{
    if n < 10 {
        let mut text = String::new();
        push_char(&mut text, digit_char(n));
        assert(text@ =~= seq![digit(n as nat)]);
        text
    } else {
        let mut text = decimal(n / 10);
        push_char(&mut text, digit_char(n % 10));
        text
    }
}

/// Writes the lines of a table of followers behind `text`.
fn write_rows(text: &mut String, table: &Tally<String>)
    requires
        table.wf(),
    ensures
        final(text)@ == old(text)@ + rows(table@, table@.len()),
{
    let ghost head = text@;
    let n: usize = table.len();
    let mut j: usize = 0;
    assert(text@ =~= head + rows(table@, 0));
    while j < n
        invariant
            table.wf(),
            j <= n == table@.len(),
            text@ == head + rows(table@, j as nat),
        decreases n - j,
    {
        if let Some((word, count)) = table.entry(j) {
            let ghost before = text@;
            text.append("\t\t");
            text.append(word.as_str());
            text.append(": ");
            text.append(decimal(count).as_str());
            text.append("\n");
            assert(text@ =~= before + row(table@[j as int]));
            assert(text@ =~= head + (rows(table@, j as nat) + row(table@[j as int])));
        }
        j += 1;
    }
}

impl Chain {
    /// The chain's contexts and their followers as text.
    pub fn dump(&self) -> (text: String)
        requires
            self.wf(),
        ensures
            text@ == dump_of(self@),
    {
        let mut text = String::new();
        text.append("Chain: [\n");
        let ghost head = text@;
        let ghost transitions = self@.transitions;
        let n: usize = self.contexts();
        let mut i: usize = 0;
        assert(text@ =~= head + blocks(transitions, 0));
        while i < n
            invariant
                self.wf(),
                transitions == self@.transitions,
                head == "Chain: [\n"@,
                i <= n == transitions.len(),
                text@ == head + blocks(transitions, i as nat),
            decreases n - i,
        {
            if let Some((context, table)) = self.transition(i) {
                let ghost before = text@;
                text.append("\t");
                text.append(debug_text(context).as_str());
                text.append(":\n");
                write_rows(&mut text, table);
                assert(text@ =~= before + block(transitions[i as int]));
                assert(text@ =~= head + (blocks(transitions, i as nat) + block(
                    transitions[i as int],
                )));
            }
            i += 1;
        }
        text.append("]");
        text
    }

    /// The opening phrases with their counts as text, one to a line.
    pub fn frase_start_dump(&self) -> (text: String)
        requires
            self.wf(),
        ensures
            text@ == opening_lines(self@.starts, self@.starts.len()),
    {
        let table = self.starts();
        let mut text = String::new();
        let n: usize = table.len();
        let mut i: usize = 0;
        assert(text@ =~= opening_lines(table@, 0));
        while i < n
            invariant
                table.wf(),
                i <= n == table@.len(),
                text@ == opening_lines(table@, i as nat),
            decreases n - i,
        {
            if let Some((phrase, count)) = table.entry(i) {
                let ghost before = text@;
                text.append(debug_text(phrase).as_str());
                text.append(": ");
                text.append(decimal(count).as_str());
                text.append("\n");
                assert(text@ =~= before + opening_line(table@[i as int]));
            }
            i += 1;
        }
        text
    }
}

} // verus!
