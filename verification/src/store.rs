//! The frequency table as it is stored: a list of contexts, each with the
//! list of tokens seen after it and how often, and hash maps that lead from
//! a context or a token to its place in those lists.

use crate::counts::{observe, positive, MAX_CONTEXT_SIZE};
use vstd::hash_map::StringHashMap;
use vstd::prelude::*;

verus! {

/// A token seen after a context, and how many times.
pub(crate) struct Successor {
    pub(crate) token: String,
    pub(crate) count: usize,
}

/// A context and the tokens seen after it. `slots` leads from each of those
/// tokens to its place among the successors.
pub(crate) struct Entry {
    pub(crate) context: Vec<String>,
    pub(crate) successors: Vec<Successor>,
    pub(crate) slots: StringHashMap<usize>,
}

/// The contexts of the table. `places` leads from the text of a context to
/// the places of the entries whose contexts have that text: of one entry,
/// unless contexts that split one text in different ways were seen.
pub(crate) struct Store {
    pub(crate) entries: Vec<Entry>,
    pub(crate) places: StringHashMap<Vec<usize>>,
}

/// Whether `token` stands among the successors.
pub(crate) open spec fn holds(successors: Seq<Successor>, token: Seq<char>) -> bool {
    exists|j: int| 0 <= j < successors.len() && #[trigger] successors[j].token@ == token
}

/// A place of `token` among the successors.
pub(crate) open spec fn slot(successors: Seq<Successor>, token: Seq<char>) -> int {
    choose|j: int| 0 <= j < successors.len() && #[trigger] successors[j].token@ == token
}

/// The successors as a map from token to count.
pub(crate) open spec fn weights(successors: Seq<Successor>) -> Map<Seq<char>, nat> {
    Map::new(
        |token: Seq<char>| holds(successors, token),
        |token: Seq<char>| successors[slot(successors, token)].count as nat,
    )
}

/// The sum of the counts.
pub(crate) open spec fn total(successors: Seq<Successor>) -> nat
    decreases successors.len(),
{
    if successors.len() == 0 {
        0
    } else {
        total(successors.drop_last()) + successors.last().count as nat
    }
}

/// No token stands twice among the successors.
pub(crate) open spec fn distinct_tokens(successors: Seq<Successor>) -> bool {
    forall|j: int, k: int|
        0 <= j < k < successors.len() ==> (#[trigger] successors[j]).token@ != (
        #[trigger] successors[k]).token@
}

/// `slots` holds the place of each successor under its token, and nothing else.
pub(crate) open spec fn slots_ok(successors: Seq<Successor>, slots: Map<Seq<char>, usize>) -> bool {
    &&& forall|j: int|
        0 <= j < successors.len() ==> slots.dom().contains((#[trigger] successors[j]).token@)
            && slots[successors[j].token@] == j
    &&& forall|token: Seq<char>| #[trigger]
        slots.dom().contains(token) ==> slots[token] < successors.len()
            && successors[slots[token] as int].token@ == token
}

/// What holds of every entry: its context has one to five tokens, it has a
/// successor, every count is positive, and the counts add up within `usize`.
pub(crate) open spec fn entry_ok(entry: Entry) -> bool {
    &&& 1 <= entry.context.len() <= MAX_CONTEXT_SIZE
    &&& entry.successors.len() > 0
    &&& forall|j: int|
        0 <= j < entry.successors.len() ==> (#[trigger] entry.successors[j]).count > 0
    &&& slots_ok(entry.successors@, entry.slots@)
    &&& total(entry.successors@) <= usize::MAX
}

pub(crate) proof fn lemma_slots(successors: Seq<Successor>, slots: Map<Seq<char>, usize>)
    requires
        slots_ok(successors, slots),
    ensures
        distinct_tokens(successors),
        forall|token: Seq<char>| holds(successors, token) <==> slots.dom().contains(token),
{
    assert forall|j: int, k: int| 0 <= j < k < successors.len() implies (
    #[trigger] successors[j]).token@ != (#[trigger] successors[k]).token@ by {
        assert(slots[successors[j].token@] == j);
        assert(slots[successors[k].token@] == k);
    }
    assert forall|token: Seq<char>| holds(successors, token) <==> slots.dom().contains(token) by {
        if slots.dom().contains(token) {
            assert(successors[slots[token] as int].token@ == token);
        }
    }
}

pub(crate) proof fn lemma_slot(successors: Seq<Successor>, j: int)
    requires
        distinct_tokens(successors),
        0 <= j < successors.len(),
    ensures
        holds(successors, successors[j].token@),
        slot(successors, successors[j].token@) == j,
        weights(successors)[successors[j].token@] == successors[j].count,
{
    let token = successors[j].token@;
    let k = slot(successors, token);
    assert(0 <= k < successors.len() && successors[k].token@ == token);
    if k < j {
        assert(successors[k].token@ != successors[j].token@);
    } else if j < k {
        assert(successors[j].token@ != successors[k].token@);
    }
}

pub(crate) proof fn lemma_total_push(successors: Seq<Successor>, added: Successor)
    ensures
        total(successors.push(added)) == total(successors) + added.count,
{
    assert(successors.push(added).drop_last() =~= successors);
}

pub(crate) proof fn lemma_total_update(successors: Seq<Successor>, j: int, changed: Successor)
    requires
        0 <= j < successors.len(),
    ensures
        total(successors.update(j, changed)) == total(successors) - successors[j].count
            + changed.count,
    decreases successors.len(),
{
    let after = successors.update(j, changed);
    if j == successors.len() - 1 {
        assert(after.drop_last() =~= successors.drop_last());
    } else {
        lemma_total_update(successors.drop_last(), j, changed);
        assert(after.drop_last() =~= successors.drop_last().update(j, changed));
    }
}

pub(crate) proof fn lemma_count_within_total(successors: Seq<Successor>, j: int)
    requires
        0 <= j < successors.len(),
    ensures
        successors[j].count <= total(successors),
    decreases successors.len(),
{
    if j < successors.len() - 1 {
        lemma_count_within_total(successors.drop_last(), j);
    }
}

pub(crate) proof fn lemma_weights_push(successors: Seq<Successor>, added: Successor)
    requires
        distinct_tokens(successors),
        !holds(successors, added.token@),
    ensures
        distinct_tokens(successors.push(added)),
        weights(successors.push(added)) == weights(successors).insert(
            added.token@,
            added.count as nat,
        ),
{
    let after = successors.push(added);
    assert forall|j: int, k: int| 0 <= j < k < after.len() implies (#[trigger] after[j]).token@ != (
    #[trigger] after[k]).token@ by {
        if k == successors.len() {
            assert(successors[j].token@ != added.token@);
        }
    }
    assert forall|token: Seq<char>| holds(after, token) <==> holds(successors, token) || token
        == added.token@ by {
        if holds(after, token) {
            let k = slot(after, token);
            if k < successors.len() {
                assert(successors[k].token@ == token);
            }
        }
        if holds(successors, token) {
            let k = slot(successors, token);
            assert(after[k].token@ == token);
        }
        if token == added.token@ {
            assert(after[successors.len() as int].token@ == token);
        }
    }
    assert forall|token: Seq<char>| holds(after, token) implies #[trigger] weights(after)[token]
        == weights(successors).insert(added.token@, added.count as nat)[token] by {
        let k = slot(after, token);
        lemma_slot(after, k);
        if k < successors.len() {
            lemma_slot(successors, k);
        }
    }
    assert(weights(after) =~= weights(successors).insert(added.token@, added.count as nat));
}

pub(crate) proof fn lemma_weights_update(successors: Seq<Successor>, j: int, changed: Successor)
    requires
        distinct_tokens(successors),
        0 <= j < successors.len(),
        changed.token@ == successors[j].token@,
    ensures
        distinct_tokens(successors.update(j, changed)),
        weights(successors.update(j, changed)) == weights(successors).insert(
            changed.token@,
            changed.count as nat,
        ),
{
    let after = successors.update(j, changed);
    assert forall|a: int, b: int| 0 <= a < b < after.len() implies (#[trigger] after[a]).token@ != (
    #[trigger] after[b]).token@ by {
        assert(successors[a].token@ != successors[b].token@);
    }
    assert forall|token: Seq<char>| holds(after, token) <==> holds(successors, token) by {
        if holds(after, token) {
            let k = slot(after, token);
            assert(successors[k].token@ == token);
        }
        if holds(successors, token) {
            let k = slot(successors, token);
            assert(after[k].token@ == token);
        }
    }
    lemma_slot(successors, j);
    assert forall|token: Seq<char>| holds(after, token) implies #[trigger] weights(after)[token]
        == weights(successors).insert(changed.token@, changed.count as nat)[token] by {
        let k = slot(after, token);
        lemma_slot(after, k);
        lemma_slot(successors, k);
    }
    assert(weights(after) =~= weights(successors).insert(changed.token@, changed.count as nat));
}

/// The place of `token` among the successors of `entry`.
pub(crate) fn find_successor(entry: &Entry, token: &String) -> (found: Option<usize>)
    requires
        slots_ok(entry.successors@, entry.slots@),
    ensures
        match found {
            Some(j) => j < entry.successors.len() && entry.successors[j as int].token@ == token@,
            None => !holds(entry.successors@, token@),
        },
{
    proof {
        lemma_slots(entry.successors@, entry.slots@);
    }
    match entry.slots.get(token.as_str()) {
        Some(j) => Some(*j),
        None => None,
    }
}

/// The context that an entry stands for.
pub(crate) open spec fn key(entry: Entry) -> Seq<Seq<char>> {
    entry.context.deep_view()
}

/// Whether an entry stands for `context`.
pub(crate) open spec fn known(entries: Seq<Entry>, context: Seq<Seq<char>>) -> bool {
    exists|i: int| 0 <= i < entries.len() && #[trigger] key(entries[i]) == context
}

/// A place of the entry that stands for `context`.
pub(crate) open spec fn place(entries: Seq<Entry>, context: Seq<Seq<char>>) -> int {
    choose|i: int| 0 <= i < entries.len() && #[trigger] key(entries[i]) == context
}

/// The entries as a frequency table.
pub(crate) open spec fn table(entries: Seq<Entry>) -> Map<Seq<Seq<char>>, Map<Seq<char>, nat>> {
    Map::new(
        |context: Seq<Seq<char>>| known(entries, context),
        |context: Seq<Seq<char>>| weights(entries[place(entries, context)].successors@),
    )
}

/// The sum of the counts under `context`; 0 where the entries hold no such context.
pub(crate) open spec fn mass(entries: Seq<Entry>, context: Seq<Seq<char>>) -> nat {
    if known(entries, context) {
        total(entries[place(entries, context)].successors@)
    } else {
        0
    }
}

/// No context stands twice among the entries.
pub(crate) open spec fn distinct_keys(entries: Seq<Entry>) -> bool {
    forall|i: int, j: int|
        0 <= i < j < entries.len() ==> key(#[trigger] entries[i]) != key(#[trigger] entries[j])
}

/// Whether `places` lists the place `i` under `text`.
pub(crate) open spec fn listed(places: Map<Seq<char>, Vec<usize>>, text: Seq<char>, i: int) -> bool {
    places.dom().contains(text) && exists|k: int|
        0 <= k < places[text].len() && #[trigger] places[text][k] == i
}

/// `places` lists the place of each entry under the text of its context, and
/// nothing else.
pub(crate) open spec fn places_ok(entries: Seq<Entry>, places: Map<Seq<char>, Vec<usize>>) -> bool {
    &&& forall|i: int|
        0 <= i < entries.len() ==> listed(places, key(#[trigger] entries[i]).flatten(), i)
    &&& forall|text: Seq<char>, k: int|
        places.dom().contains(text) && 0 <= k < places[text].len() ==> (
        #[trigger] places[text][k]) < entries.len() && key(
            entries[places[text][k] as int],
        ).flatten() == text
}

/// What holds of the entries and their index.
pub(crate) open spec fn entries_ok(entries: Seq<Entry>, places: Map<Seq<char>, Vec<usize>>) -> bool {
    &&& forall|i: int| 0 <= i < entries.len() ==> entry_ok(#[trigger] entries[i])
    &&& distinct_keys(entries)
    &&& places_ok(entries, places)
}

pub(crate) proof fn lemma_place(entries: Seq<Entry>, i: int)
    requires
        distinct_keys(entries),
        0 <= i < entries.len(),
    ensures
        known(entries, key(entries[i])),
        place(entries, key(entries[i])) == i,
        table(entries)[key(entries[i])] == weights(entries[i].successors@),
        mass(entries, key(entries[i])) == total(entries[i].successors@),
{
    let context = key(entries[i]);
    let k = place(entries, context);
    assert(0 <= k < entries.len() && key(entries[k]) == context);
    if k < i {
        assert(key(entries[k]) != key(entries[i]));
    } else if i < k {
        assert(key(entries[i]) != key(entries[k]));
    }
}

pub(crate) proof fn lemma_table_push(entries: Seq<Entry>, added: Entry)
    requires
        distinct_keys(entries),
        !known(entries, key(added)),
    ensures
        distinct_keys(entries.push(added)),
        table(entries.push(added)) == table(entries).insert(key(added), weights(added.successors@)),
        forall|context: Seq<Seq<char>>| #[trigger]
            mass(entries.push(added), context) == if context == key(added) {
                total(added.successors@)
            } else {
                mass(entries, context)
            },
{
    let after = entries.push(added);
    assert forall|i: int, j: int| 0 <= i < j < after.len() implies key(#[trigger] after[i]) != key(
        #[trigger] after[j],
    ) by {
        if j == entries.len() {
            assert(key(entries[i]) != key(added));
        }
    }
    assert forall|context: Seq<Seq<char>>| known(after, context) <==> known(entries, context)
        || context == key(added) by {
        if known(after, context) {
            let k = place(after, context);
            if k < entries.len() {
                assert(key(entries[k]) == context);
            }
        }
        if known(entries, context) {
            let k = place(entries, context);
            assert(key(after[k]) == context);
        }
        if context == key(added) {
            assert(key(after[entries.len() as int]) == context);
        }
    }
    assert forall|context: Seq<Seq<char>>| known(after, context) implies #[trigger] table(
        after,
    )[context] == table(entries).insert(key(added), weights(added.successors@))[context] && mass(
        after,
        context,
    ) == if context == key(added) {
        total(added.successors@)
    } else {
        mass(entries, context)
    } by {
        let k = place(after, context);
        lemma_place(after, k);
        if k < entries.len() {
            lemma_place(entries, k);
        }
    }
    assert(table(after) =~= table(entries).insert(key(added), weights(added.successors@)));
}

pub(crate) proof fn lemma_table_update(entries: Seq<Entry>, i: int, changed: Entry)
    requires
        distinct_keys(entries),
        0 <= i < entries.len(),
        key(changed) == key(entries[i]),
    ensures
        distinct_keys(entries.update(i, changed)),
        table(entries.update(i, changed)) == table(entries).insert(
            key(changed),
            weights(changed.successors@),
        ),
        forall|context: Seq<Seq<char>>| #[trigger]
            mass(entries.update(i, changed), context) == if context == key(changed) {
                total(changed.successors@)
            } else {
                mass(entries, context)
            },
{
    let after = entries.update(i, changed);
    assert forall|a: int, b: int| 0 <= a < b < after.len() implies key(#[trigger] after[a]) != key(
        #[trigger] after[b],
    ) by {
        assert(key(entries[a]) != key(entries[b]));
    }
    assert forall|context: Seq<Seq<char>>| known(after, context) <==> known(entries, context) by {
        if known(after, context) {
            let k = place(after, context);
            assert(key(entries[k]) == context);
        }
        if known(entries, context) {
            let k = place(entries, context);
            assert(key(after[k]) == context);
        }
    }
    lemma_place(entries, i);
    assert forall|context: Seq<Seq<char>>| known(after, context) implies #[trigger] table(
        after,
    )[context] == table(entries).insert(key(changed), weights(changed.successors@))[context]
        && mass(after, context) == if context == key(changed) {
        total(changed.successors@)
    } else {
        mass(entries, context)
    } by {
        let k = place(after, context);
        lemma_place(after, k);
        lemma_place(entries, k);
    }
    assert(table(after) =~= table(entries).insert(key(changed), weights(changed.successors@)));
}

pub(crate) proof fn lemma_positive(entries: Seq<Entry>, places: Map<Seq<char>, Vec<usize>>)
    requires
        entries_ok(entries, places),
    ensures
        positive(table(entries)),
{
    assert forall|context: Seq<Seq<char>>| #[trigger]
        table(entries).dom().contains(context) implies {
        &&& exists|next: Seq<char>| table(entries)[context].dom().contains(next)
        &&& forall|next: Seq<char>| #[trigger]
            table(entries)[context].dom().contains(next) ==> table(entries)[context][next] > 0
    } by {
        let entry = entries[place(entries, context)];
        let seen = entry.successors@;
        lemma_slots(seen, entry.slots@);
        lemma_slot(seen, 0);
        assert(table(entries)[context].dom().contains(seen[0].token@));
        assert forall|next: Seq<char>| #[trigger]
            table(entries)[context].dom().contains(next) implies table(entries)[context][next]
            > 0 by {
            lemma_slot(seen, slot(seen, next));
        }
    }
}

/// The tokens `tokens[from..to]`.
pub(crate) open spec fn window(tokens: &Vec<String>, from: int, to: int) -> Seq<Seq<char>> {
    tokens.deep_view().subrange(from, to)
}

/// Whether `context` is `tokens[from..to]`.
pub(crate) fn is_window(context: &Vec<String>, tokens: &Vec<String>, from: usize, to: usize) -> (same: bool)
    requires
        from <= to <= tokens.len(),
    ensures
        same == (context.deep_view() == window(tokens, from as int, to as int)),
{
    let ghost wanted = window(tokens, from as int, to as int);
    if context.len() != to - from {
        assert(context.deep_view().len() != wanted.len());
        return false;
    }
    let mut k: usize = 0;
    while k < context.len()
        invariant
            k <= context.len() == to - from,
            to <= tokens.len(),
            wanted == window(tokens, from as int, to as int),
            forall|m: int| 0 <= m < k ==> (#[trigger] context[m])@ == wanted[m],
        decreases context.len() - k,
    {
        if context[k] != tokens[from + k] {
            assert(context.deep_view()[k as int] != wanted[k as int]);
            return false;
        }
        k += 1;
    }
    assert(context.deep_view() =~= wanted);
    true
}

/// The text of `tokens[from..to]`: the tokens put together in order.
pub(crate) fn render_window(tokens: &Vec<String>, from: usize, to: usize) -> (text: String)
    requires
        from <= to <= tokens.len(),
    ensures
        text@ == window(tokens, from as int, to as int).flatten(),
{
    let mut text = String::new();
    let mut k: usize = from;
    assert(window(tokens, from as int, from as int) =~= Seq::<Seq<char>>::empty());
    while k < to
        invariant
            from <= k <= to <= tokens.len(),
            text@ == window(tokens, from as int, k as int).flatten(),
        decreases to - k,
    {
        text.append(tokens[k].as_str());
        proof {
            let done = window(tokens, from as int, k as int);
            assert(window(tokens, from as int, k + 1) =~= done.push(tokens[k as int]@));
            done.lemma_flatten_push(tokens[k as int]@);
        }
        k += 1;
    }
    text
}

/// A copy of `tokens[from..to]`.
pub(crate) fn copy_window(tokens: &Vec<String>, from: usize, to: usize) -> (copy: Vec<String>)
    requires
        from <= to <= tokens.len(),
    ensures
        copy.deep_view() == window(tokens, from as int, to as int),
        copy.len() == to - from,
{
    let mut copy: Vec<String> = Vec::new();
    let mut k: usize = from;
    while k < to
        invariant
            from <= k <= to <= tokens.len(),
            copy.len() == k - from,
            forall|m: int| 0 <= m < copy.len() ==> (#[trigger] copy[m])@ == tokens[from + m]@,
        decreases to - k,
    {
        copy.push(tokens[k].clone());
        k += 1;
    }
    assert(copy.deep_view() =~= window(tokens, from as int, to as int));
    copy
}

impl Store {
    /// The frequency table that the entries stand for.
    pub(crate) open spec fn view(&self) -> Map<Seq<Seq<char>>, Map<Seq<char>, nat>> {
        table(self.entries@)
    }

    /// What holds of every store.
    pub(crate) open spec fn ok(&self) -> bool {
        entries_ok(self.entries@, self.places@)
    }

    /// A store without contexts.
    pub(crate) fn new() -> (empty: Store)
        ensures
            empty.ok(),
            empty@ == Map::<Seq<Seq<char>>, Map<Seq<char>, nat>>::empty(),
            forall|context: Seq<Seq<char>>| #[trigger] mass(empty.entries@, context) == 0,
    {
        let empty = Store { entries: Vec::new(), places: StringHashMap::new() };
        assert(empty@ =~= Map::<Seq<Seq<char>>, Map<Seq<char>, nat>>::empty());
        empty
    }

    /// The place of the entry for `tokens[from..to]`.
    pub(crate) fn find(&self, tokens: &Vec<String>, from: usize, to: usize) -> (found: Option<
        usize,
    >)
        requires
            self.ok(),
            from <= to <= tokens.len(),
        ensures
            match found {
                Some(i) => i < self.entries.len() && key(self.entries[i as int]) == window(
                    tokens,
                    from as int,
                    to as int,
                ),
                None => !known(self.entries@, window(tokens, from as int, to as int)),
            },
    {
        let ghost context = window(tokens, from as int, to as int);
        let text = render_window(tokens, from, to);
        match self.places.get(text.as_str()) {
            Some(places) => {
                let mut k: usize = 0;
                while k < places.len()
                    invariant
                        k <= places.len(),
                        self.ok(),
                        from <= to <= tokens.len(),
                        context == window(tokens, from as int, to as int),
                        self.places@.dom().contains(text@),
                        *places == self.places@[text@],
                        forall|m: int|
                            0 <= m < k ==> key(self.entries[(#[trigger] places[m]) as int])
                                != context,
                    decreases places.len() - k,
                {
                    let i = places[k];
                    if is_window(&self.entries[i].context, tokens, from, to) {
                        return Some(i);
                    }
                    k += 1;
                }
                proof {
                    if known(self.entries@, context) {
                        let i = place(self.entries@, context);
                        assert(listed(self.places@, key(self.entries[i]).flatten(), i));
                    }
                }
                None
            },
            None => {
                proof {
                    if known(self.entries@, context) {
                        let i = place(self.entries@, context);
                        assert(listed(self.places@, key(self.entries[i]).flatten(), i));
                    }
                }
                None
            },
        }
    }

    /// Lists the place `place` under `text`.
    fn list(&mut self, text: String, place: usize)
        ensures
            final(self).entries == old(self).entries,
            final(self).places@.dom() == old(self).places@.dom().insert(text@),
            forall|other: Seq<char>|
                other != text@ && old(self).places@.dom().contains(other) ==> (
                #[trigger] final(self).places@[other]) == old(self).places@[other],
            final(self).places@[text@]@ == if old(self).places@.dom().contains(text@) {
                old(self).places@[text@]@.push(place)
            } else {
                seq![place]
            },
    {
        let mut places: Vec<usize> = Vec::new();
        match self.places.get(text.as_str()) {
            Some(earlier) => {
                let mut k: usize = 0;
                while k < earlier.len()
                    invariant
                        k <= earlier.len(),
                        places@ == earlier@.take(k as int),
                    decreases earlier.len() - k,
                {
                    places.push(earlier[k]);
                    assert(earlier@.take(k + 1) =~= earlier@.take(k as int).push(earlier[k as int]));
                    k += 1;
                }
                assert(earlier@.take(earlier.len() as int) =~= earlier@);
            },
            None => {},
        }
        places.push(place);
        self.places.insert(text, places);
        assert(self.places@.dom() =~= old(self).places@.dom().insert(text@));
    }

    /// Counts one more sighting of `tokens[to]` after the context `tokens[from..to]`.
    pub(crate) fn record(&mut self, tokens: &Vec<String>, from: usize, to: usize)
        requires
            old(self).ok(),
            from < to < tokens.len(),
            to - from <= MAX_CONTEXT_SIZE,
            mass(old(self).entries@, window(tokens, from as int, to as int)) < usize::MAX,
        ensures
            final(self).ok(),
            final(self)@ == observe(
                old(self)@,
                window(tokens, from as int, to as int),
                tokens[to as int]@,
            ),
            forall|context: Seq<Seq<char>>| #[trigger]
                mass(final(self).entries@, context) == mass(old(self).entries@, context)
                    + if context == window(tokens, from as int, to as int) {
                    1nat
                } else {
                    0nat
                },
    {
        let ghost context = window(tokens, from as int, to as int);
        let ghost next = tokens[to as int]@;
        let ghost before = self.entries@;
        let ghost listing = self.places@;
        match self.find(tokens, from, to) {
            Some(i) => {
                let ghost seen = self.entries[i as int].successors@;
                let ghost slots = self.entries[i as int].slots@;
                proof {
                    lemma_place(before, i as int);
                    lemma_slots(seen, slots);
                }
                match find_successor(&self.entries[i], &tokens[to]) {
                    Some(j) => {
                        proof {
                            lemma_slot(seen, j as int);
                            lemma_count_within_total(seen, j as int);
                        }
                        self.entries[i].successors[j].count += 1;
                        proof {
                            let changed = self.entries[i as int].successors@[j as int];
                            assert(self.entries[i as int].successors@ =~= seen.update(
                                j as int,
                                changed,
                            ));
                            lemma_weights_update(seen, j as int, changed);
                            lemma_total_update(seen, j as int, changed);
                        }
                    },
                    None => {
                        let j = self.entries[i].successors.len();
                        self.entries[i].successors.push(
                            Successor { token: tokens[to].clone(), count: 1 },
                        );
                        self.entries[i].slots.insert(tokens[to].clone(), j);
                        proof {
                            let added = self.entries[i as int].successors@[seen.len() as int];
                            assert(self.entries[i as int].successors@ =~= seen.push(added));
                            lemma_weights_push(seen, added);
                            lemma_total_push(seen, added);
                        }
                    },
                }
                proof {
                    let changed = self.entries[i as int];
                    assert(self.entries@ =~= before.update(i as int, changed));
                    lemma_table_update(before, i as int, changed);
                    assert(self@ =~= observe(old(self)@, context, next));
                    assert(entry_ok(changed));
                    assert forall|k: int| 0 <= k < self.entries.len() implies listed(
                        self.places@,
                        key(#[trigger] self.entries[k]).flatten(),
                        k,
                    ) by {
                        assert(key(self.entries[k]) == key(before[k]));
                    }
                    assert forall|text: Seq<char>, k: int|
                        self.places@.dom().contains(text) && 0 <= k
                            < self.places@[text].len() implies (#[trigger] self.places@[text][k])
                        < self.entries.len() && key(
                        self.entries[self.places@[text][k] as int],
                    ).flatten() == text by {
                        let at = listing[text][k] as int;
                        assert(key(self.entries[at]) == key(before[at]));
                    }
                }
            },
            None => {
                let text = render_window(tokens, from, to);
                let context_copy = copy_window(tokens, from, to);
                let mut successors: Vec<Successor> = Vec::new();
                successors.push(Successor { token: tokens[to].clone(), count: 1 });
                let mut slots: StringHashMap<usize> = StringHashMap::new();
                slots.insert(tokens[to].clone(), 0);
                let place = self.entries.len();
                self.entries.push(Entry { context: context_copy, successors, slots });
                self.list(text, place);
                proof {
                    let added = self.entries[before.len() as int];
                    let first = added.successors@[0];
                    assert(self.entries@ =~= before.push(added));
                    assert(added.successors@ =~= Seq::<Successor>::empty().push(first));
                    lemma_weights_push(Seq::<Successor>::empty(), first);
                    lemma_total_push(Seq::<Successor>::empty(), first);
                    assert(weights(Seq::<Successor>::empty()) =~= Map::<Seq<char>, nat>::empty());
                    lemma_table_push(before, added);
                    assert(self@ =~= observe(old(self)@, context, next));
                    assert(entry_ok(added));
                    let text = context.flatten();
                    assert forall|k: int| 0 <= k < self.entries.len() implies listed(
                        self.places@,
                        key(#[trigger] self.entries[k]).flatten(),
                        k,
                    ) by {
                        if k < before.len() {
                            assert(self.entries[k] == before[k]);
                            let under = key(before[k]).flatten();
                            assert(listed(listing, under, k));
                            let m = choose|m: int|
                                0 <= m < listing[under].len() && #[trigger] listing[under][m] == k;
                            assert(self.places@[under][m] == k);
                        } else {
                            let m = self.places@[text].len() - 1;
                            assert(self.places@[text][m] == k);
                        }
                    }
                    assert forall|under: Seq<char>, k: int|
                        self.places@.dom().contains(under) && 0 <= k
                            < self.places@[under].len() implies (#[trigger] self.places@[under][k])
                        < self.entries.len() && key(
                        self.entries[self.places@[under][k] as int],
                    ).flatten() == under by {
                        if under == text && k == self.places@[under].len() - 1 {
                        } else {
                            let at = listing[under][k] as int;
                            assert(self.places@[under][k] == at);
                            assert(self.entries[at] == before[at]);
                        }
                    }
                }
            },
        }
    }
}

} // verus!
