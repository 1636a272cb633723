//! Frequency tables and the weighted choice made from them.
//!
//! A table is modelled by its entries in the order in which their keys first
//! arrived: a sequence of pairs of a key and the number of times it was added.
//! The counts double as weights. A draw `d` below the table's total selects
//! the entry whose share of `0..total` holds `d`, the shares lying one after
//! another in entry order, each as wide as its entry's count.

use crate::random::gen_range;
use crate::token::Token;
use vstd::prelude::*;

verus! {

/// The entries of a table: each key with its count, in order of arrival.
pub type Counts<T> = Seq<(T, nat)>;

/// Some entry is filed under `key`.
pub open spec fn has_key<T, V>(entries: Seq<(T, V)>, key: T) -> bool {
    exists|i: int| 0 <= i < entries.len() && (#[trigger] entries[i]).0 == key
}

/// The place of an entry filed under `key`, where there is one.
pub open spec fn index_of<T, V>(entries: Seq<(T, V)>, key: T) -> int {
    choose|i: int| 0 <= i < entries.len() && (#[trigger] entries[i]).0 == key
}

/// No two entries are filed under the same key.
pub open spec fn distinct_keys<T, V>(entries: Seq<(T, V)>) -> bool {
    forall|i: int, j: int|
        0 <= i < j < entries.len() ==> (#[trigger] entries[i]).0 != (#[trigger] entries[j]).0
}

/// Keys are distinct and every count is at least one.
pub open spec fn well_formed<T>(entries: Counts<T>) -> bool {
    &&& distinct_keys(entries)
    &&& forall|i: int| 0 <= i < entries.len() ==> (#[trigger] entries[i]).1 >= 1
}

/// How often `key` was added: its count, or zero where it has no entry.
pub open spec fn count_of<T>(entries: Counts<T>, key: T) -> nat {
    if has_key(entries, key) {
        entries[index_of(entries, key)].1
    } else {
        0
    }
}

/// The sum of all counts.
pub open spec fn total<T>(entries: Counts<T>) -> nat
    decreases entries.len(),
{
    if entries.len() == 0 {
        0
    } else {
        total(entries.drop_last()) + entries.last().1
    }
}

/// The sum of the counts of the first `n` entries.
pub open spec fn cumulative<T>(entries: Counts<T>, n: int) -> nat {
    total(entries.take(n))
}

/// The draw falls into the share of entry `i`: the counts before it sum to
/// at most `draw`, and together with its own count they exceed `draw`.
pub open spec fn lands_on<T>(entries: Counts<T>, draw: int, i: int) -> bool {
    &&& 0 <= i < entries.len()
    &&& cumulative(entries, i) <= draw < cumulative(entries, i + 1)
}

/// The entry into whose share the draw falls.
pub open spec fn landing<T>(entries: Counts<T>, draw: int) -> int {
    choose|i: int| lands_on(entries, draw, i)
}

/// The entries after one more occurrence of `key`: its count goes up by one,
/// or a new entry with count one is added behind the others.
pub open spec fn record<T>(entries: Counts<T>, key: T) -> Counts<T> {
    if has_key(entries, key) {
        let i = index_of(entries, key);
        entries.update(i, (key, entries[i].1 + 1))
    } else {
        entries.push((key, 1))
    }
}

/// With distinct keys, an entry filed under `key` is the one `index_of` names.
pub proof fn lemma_index_of<T, V>(entries: Seq<(T, V)>, key: T, i: int)
    requires
        distinct_keys(entries),
        0 <= i < entries.len(),
        entries[i].0 == key,
    ensures
        has_key(entries, key),
        index_of(entries, key) == i,
{
    let j = index_of(entries, key);
    assert(0 <= j < entries.len() && entries[j].0 == key);
    if j < i {
        assert(entries[j].0 != entries[i].0);
    } else if i < j {
        assert(entries[i].0 != entries[j].0);
    }
}

/// A new entry adds its count to the total.
pub proof fn lemma_total_push<T>(entries: Counts<T>, entry: (T, nat))
    ensures
        total(entries.push(entry)) == total(entries) + entry.1,
{
    assert(entries.push(entry).drop_last() =~= entries);
}

/// Replacing an entry takes its old count out of the total and puts the
/// new one in.
pub proof fn lemma_total_update<T>(entries: Counts<T>, i: int, entry: (T, nat))
    requires
        0 <= i < entries.len(),
    ensures
        total(entries.update(i, entry)) + entries[i].1 == total(entries) + entry.1,
    decreases entries.len(),
{
    let updated = entries.update(i, entry);
    if i == entries.len() - 1 {
        assert(updated.drop_last() =~= entries.drop_last());
    } else {
        lemma_total_update(entries.drop_last(), i, entry);
        assert(updated.drop_last() =~= entries.drop_last().update(i, entry));
    }
}

/// The running sum grows by each entry's count.
pub proof fn lemma_cumulative_step<T>(entries: Counts<T>, n: int)
    requires
        0 <= n < entries.len(),
    ensures
        cumulative(entries, n + 1) == cumulative(entries, n) + entries[n].1,
{
    assert(entries.take(n + 1).drop_last() =~= entries.take(n));
}

/// The running sum never shrinks, and ends at the total.
pub proof fn lemma_cumulative_grows<T>(entries: Counts<T>, m: int, n: int)
    requires
        0 <= m <= n <= entries.len(),
    ensures
        cumulative(entries, m) <= cumulative(entries, n),
        cumulative(entries, entries.len() as int) == total(entries),
    decreases n - m,
{
    assert(entries.take(entries.len() as int) =~= entries);
    if m < n {
        lemma_cumulative_step(entries, n - 1);
        lemma_cumulative_grows(entries, m, n - 1);
    }
}

/// No count exceeds the total.
pub proof fn lemma_count_within_total<T>(entries: Counts<T>, i: int)
    requires
        0 <= i < entries.len(),
    ensures
        entries[i].1 <= total(entries),
{
    lemma_cumulative_step(entries, i);
    lemma_cumulative_grows(entries, i + 1, entries.len() as int);
}

/// A draw falls into the share of at most one entry.
pub proof fn lemma_landing_unique<T>(entries: Counts<T>, draw: int, i: int, j: int)
    requires
        lands_on(entries, draw, i),
        lands_on(entries, draw, j),
    ensures
        i == j,
        landing(entries, draw) == i,
{
    if i < j {
        lemma_cumulative_grows(entries, i + 1, j);
    } else if j < i {
        lemma_cumulative_grows(entries, j + 1, i);
    }
    let k = landing(entries, draw);
    assert(lands_on(entries, draw, k));
    if i < k {
        lemma_cumulative_grows(entries, i + 1, k);
    } else if k < i {
        lemma_cumulative_grows(entries, k + 1, i);
    }
}

/// Every draw below the total falls into the share of some entry, which
/// `landing` then names.
pub proof fn lemma_every_draw_lands<T>(entries: Counts<T>, draw: int)
    requires
        0 <= draw < total(entries),
    ensures
        lands_on(entries, draw, landing(entries, draw)),
{
    assert(entries.take(0) =~= Seq::<(T, nat)>::empty());
    let i = first_beyond(entries, draw, 0);
    assert(lands_on(entries, draw, i));
}

/// Walks the entries from `from` on and returns the first one at which the
/// running sum exceeds the draw.
proof fn first_beyond<T>(entries: Counts<T>, draw: int, from: int) -> (i: int)
    requires
        0 <= from <= entries.len(),
        cumulative(entries, from) <= draw < total(entries),
    ensures
        lands_on(entries, draw, i),
    decreases entries.len() - from,
{
    lemma_cumulative_grows(entries, from, entries.len() as int);
    if from < entries.len() {
        lemma_cumulative_step(entries, from);
    }
    if draw < cumulative(entries, from + 1) {
        from
    } else {
        first_beyond(entries, draw, from + 1)
    }
}

/// The draws below the total that select entry `i`.
pub open spec fn draws_for<T>(entries: Counts<T>, i: int) -> Set<int> {
    Set::new(|draw: int| 0 <= draw < total(entries) && landing(entries, draw) == i)
}

/// An entry is selected by exactly as many of the draws below the total as
/// its count says. A draw that is uniform over `0..total` therefore selects
/// a key with probability count / total, in whatever order the entries
/// stand.
pub proof fn lemma_fair_shares<T>(entries: Counts<T>, i: int)
    requires
        0 <= i < entries.len(),
    ensures
        draws_for(entries, i).finite(),
        draws_for(entries, i).len() == entries[i].1,
{
    let low = cumulative(entries, i) as int;
    let high = cumulative(entries, i + 1) as int;
    lemma_cumulative_step(entries, i);
    lemma_cumulative_grows(entries, i + 1, entries.len() as int);
    assert forall|draw: int| draws_for(entries, i).contains(draw) <==> low <= draw < high by {
        if low <= draw < high {
            lemma_landing_unique(entries, draw, i, i);
        }
        if 0 <= draw < total(entries) {
            lemma_every_draw_lands(entries, draw);
        }
    }
    assert(draws_for(entries, i) =~= vstd::set_lib::set_int_range(low, high));
    vstd::set_lib::lemma_int_range(low, high);
}

/// Replacing the value of one entry leaves the keys and their places alone.
pub proof fn lemma_update_keeps_keys<T, V>(entries: Seq<(T, V)>, i: int, value: V, key: T)
    requires
        distinct_keys(entries),
        0 <= i < entries.len(),
    ensures
        distinct_keys(entries.update(i, (entries[i].0, value))),
        has_key(entries.update(i, (entries[i].0, value)), key) == has_key(entries, key),
        has_key(entries, key) ==> index_of(entries.update(i, (entries[i].0, value)), key)
            == index_of(entries, key),
{
    let after = entries.update(i, (entries[i].0, value));
    assert forall|a: int, b: int| 0 <= a < b < after.len() implies (#[trigger] after[a]).0 != (
    #[trigger] after[b]).0 by {
        assert(after[a].0 == entries[a].0);
        assert(after[b].0 == entries[b].0);
    }
    if has_key(entries, key) {
        let j = index_of(entries, key);
        assert(after[j].0 == key);
        lemma_index_of(after, key, j);
    } else {
        assert forall|a: int| 0 <= a < after.len() implies (#[trigger] after[a]).0 != key by {
            assert(after[a].0 == entries[a].0);
        }
    }
}

/// A new key goes behind the others, which keep their places.
pub proof fn lemma_push_new_key<T, V>(entries: Seq<(T, V)>, fresh: T, value: V, key: T)
    requires
        distinct_keys(entries),
        !has_key(entries, fresh),
    ensures
        distinct_keys(entries.push((fresh, value))),
        has_key(entries.push((fresh, value)), key) == (key == fresh || has_key(entries, key)),
        index_of(entries.push((fresh, value)), fresh) == entries.len(),
        has_key(entries, key) ==> index_of(entries.push((fresh, value)), key) == index_of(
            entries,
            key,
        ),
{
    let after = entries.push((fresh, value));
    assert forall|a: int, b: int| 0 <= a < b < after.len() implies (#[trigger] after[a]).0 != (
    #[trigger] after[b]).0 by {
        assert(after[a] == entries[a]);
        if b < entries.len() {
            assert(after[b] == entries[b]);
        }
    }
    lemma_index_of(after, fresh, entries.len() as int);
    if has_key(entries, key) {
        let j = index_of(entries, key);
        assert(after[j] == entries[j]);
        lemma_index_of(after, key, j);
    } else if key != fresh {
        assert forall|a: int| 0 <= a < after.len() implies (#[trigger] after[a]).0 != key by {
            if a < entries.len() {
                assert(after[a] == entries[a]);
            }
        }
    }
}

/// Recording a key keeps the entries well formed, adds one to the total,
/// raises the key's count by one and leaves every other count.
pub proof fn lemma_record_counts<T>(entries: Counts<T>, key: T, other: T)
    requires
        well_formed(entries),
    ensures
        well_formed(record(entries, key)),
        total(record(entries, key)) == total(entries) + 1,
        has_key(record(entries, key), other) == (other == key || has_key(entries, other)),
        count_of(record(entries, key), other) == count_of(entries, other) + if other == key {
            1nat
        } else {
            0nat
        },
{
    let after = record(entries, key);
    if has_key(entries, key) {
        let i = index_of(entries, key);
        let raised = (entries[i].1 + 1) as nat;
        lemma_update_keeps_keys(entries, i, raised, other);
        lemma_total_update(entries, i, (key, raised));
        assert forall|a: int| 0 <= a < after.len() implies (#[trigger] after[a]).1 >= 1 by {
            if a != i {
                assert(after[a] == entries[a]);
            }
        }
    } else {
        lemma_push_new_key(entries, key, 1nat, other);
        lemma_total_push(entries, (key, 1nat));
        assert forall|a: int| 0 <= a < after.len() implies (#[trigger] after[a]).1 >= 1 by {
            if a < entries.len() {
                assert(after[a] == entries[a]);
            }
        }
    }
}

/// A frequency table: how many times each token was added.
pub struct Tally<K: Token> {
    keys: Vec<K>,
    counts: Vec<usize>,
}

impl<K: Token> View for Tally<K> {
    type V = Counts<K::Model>;

    closed spec fn view(&self) -> Counts<K::Model> {
        Seq::new(self.keys@.len(), |i: int| (self.keys@[i].model(), self.counts@[i] as nat))
    }
}

impl<K: Token> Tally<K> {
    /// Every key has its count beside it.
    pub closed spec fn aligned(&self) -> bool {
        self.keys@.len() == self.counts@.len()
    }

    /// The table's invariant: distinct keys, counts of at least one, and a
    /// total that fits the machine's word.
    pub open spec fn wf(&self) -> bool {
        &&& self.aligned()
        &&& well_formed(self@)
        &&& total(self@) <= usize::MAX
    }

    /// An empty table.
    pub fn new() -> (table: Self)
        ensures
            table.wf(),
            table@ == Seq::<(K::Model, nat)>::empty(),
    {
        let table = Tally { keys: Vec::new(), counts: Vec::new() };
        assert(table@ =~= Seq::<(K::Model, nat)>::empty());
        table
    }

    /// The number of distinct keys.
    pub fn len(&self) -> (n: usize)
        ensures
            n == self@.len(),
    {
        self.keys.len()
    }

    /// Whether nothing was added yet.
    pub fn is_empty(&self) -> (b: bool)
        ensures
            b == (self@.len() == 0),
    {
        self.keys.len() == 0
    }

    /// The place of the entry filed under `token`, if there is one.
    pub fn position(&self, token: &K) -> (place: Option<usize>)
        ensures
            match place {
                Some(i) => i < self@.len() && self@[i as int].0 == token.model(),
                None => !has_key(self@, token.model()),
            },
    {
        let mut i: usize = 0;
        while i < self.keys.len()
            invariant
                i <= self.keys@.len(),
                forall|j: int| 0 <= j < i ==> (#[trigger] self@[j]).0 != token.model(),
            decreases self.keys@.len() - i,
        {
            if self.keys[i].same(token) {
                return Some(i);
            }
            i += 1;
        }
        None
    }

    /// The entry at place `i`: its key and its count. There is none from
    /// `len()` on.
    pub fn entry(&self, i: usize) -> (entry: Option<(&K, usize)>)
        requires
            self.wf(),
        ensures
            match entry {
                Some((key, count)) => i < self@.len() && key.model() == self@[i as int].0 && count
                    == self@[i as int].1,
                None => i >= self@.len(),
            },
    {
        if i < self.keys.len() {
            Some((&self.keys[i], self.counts[i]))
        } else {
            None
        }
    }

    /// How often `token` was added.
    pub fn count(&self, token: &K) -> (count: usize)
        requires
            self.wf(),
        ensures
            count == count_of(self@, token.model()),
    {
        match self.position(token) {
            Some(i) => {
                proof {
                    lemma_index_of(self@, token.model(), i as int);
                }
                self.counts[i]
            },
            None => 0,
        }
    }

    /// Counts one more occurrence of `token`.
    pub fn add(&mut self, token: K)
        requires
            old(self).wf(),
            total(old(self)@) < usize::MAX,
        ensures
            final(self).wf(),
            final(self)@ == record(old(self)@, token.model()),
            total(final(self)@) == total(old(self)@) + 1,
    {
        let ghost before = self@;
        proof {
            lemma_record_counts(before, token.model(), token.model());
        }
        match self.position(&token) {
            Some(i) => {
                proof {
                    lemma_index_of(before, token.model(), i as int);
                    lemma_count_within_total(before, i as int);
                }
                let count: usize = self.counts[i];
                self.counts.set(i, count + 1);
                assert(self@ =~= before.update(i as int, (token.model(), (count + 1) as nat)));
            },
            None => {
                self.keys.push(token);
                self.counts.push(1);
                assert(self@ =~= before.push((token.model(), 1nat)));
            },
        }
    }

    /// The sum of all counts.
    pub fn total(&self) -> (sum: usize)
        requires
            self.wf(),
        ensures
            sum == total(self@),
    {
        let mut sum: usize = 0;
        let mut i: usize = 0;
        assert(self@.take(0) =~= Seq::<(K::Model, nat)>::empty());
        while i < self.counts.len()
            invariant
                self.wf(),
                i <= self@.len(),
                sum == cumulative(self@, i as int),
            decreases self@.len() - i,
        {
            proof {
                lemma_cumulative_step(self@, i as int);
                lemma_cumulative_grows(self@, i + 1, self@.len() as int);
            }
            sum += self.counts[i];
            i += 1;
        }
        proof {
            lemma_cumulative_grows(self@, 0, self@.len() as int);
        }
        sum
    }

    /// The key that a draw selects: the first one at which the running sum
    /// of the counts exceeds the draw.
    pub fn pick(&self, draw: usize) -> (key: &K)
        requires
            self.wf(),
            draw < total(self@),
        ensures
            lands_on(self@, draw as int, landing(self@, draw as int)),
            key.model() == self@[landing(self@, draw as int)].0,
    {
        let mut sum: usize = 0;
        let mut i: usize = 0;
        let n: usize = self.keys.len();
        proof {
            assert(self@.take(0) =~= Seq::<(K::Model, nat)>::empty());
            lemma_cumulative_grows(self@, 0, n as int);
        }
        loop
            invariant
                self.wf(),
                i < n == self@.len(),
                sum == cumulative(self@, i as int),
                sum <= draw < total(self@),
            decreases self@.len() - i,
        {
            proof {
                lemma_cumulative_step(self@, i as int);
                lemma_cumulative_grows(self@, i + 1, self@.len() as int);
            }
            sum += self.counts[i];
            if sum > draw {
                proof {
                    lemma_landing_unique(self@, draw as int, i as int, i as int);
                }
                return &self.keys[i];
            }
            i += 1;
        }
    }

    /// Draws a key at random, each with a chance in proportion to its count.
    ///
    /// Whatever the generator hands back, the key is the one that some draw
    /// below the total selects, so it is a key of the table.
    pub fn next(&self) -> (key: K)
        requires
            self.wf(),
            self@.len() > 0,
        ensures
            exists|draw: int|
                0 <= draw < total(self@) && key.model() == self@[#[trigger] landing(
                    self@,
                    draw,
                )].0,
            has_key(self@, key.model()),
    {
        proof {
            lemma_count_within_total(self@, 0);
        }
        let sum: usize = self.total();
        let mut rng = rand::thread_rng();
        let draw: usize = gen_range(&mut rng, 0, sum);
        let key = self.pick(draw).duplicate();
        assert(key.model() == self@[landing(self@, draw as int)].0);
        key
    }
}

} // verus!
