//! The frequency table: it learns from a token stream how often each token
//! follows each context, and continues a run of tokens by drawing each next
//! token from what followed the longest known context.

use crate::counts::{
    ends_with, follows, frequency, frequency_table, lemma_ends_with_push, lemma_observe,
    lemma_table_of_counts, MAX_CONTEXT_SIZE,
};
use crate::generation::{backoff, context_of, continues, may_follow, suffix};
use crate::sampling::choose_weighted;
use crate::store::{
    find_successor, key, lemma_count_within_total, lemma_place, lemma_positive, lemma_slot,
    lemma_slots, mass, window, Store,
};
use vstd::prelude::*;

verus! {

/// A frequency table, `self@`: for each context that it knows, the tokens
/// that followed it, each with the number of times it did.
pub struct Table {
    store: Store,
}

impl View for Table {
    type V = Map<Seq<Seq<char>>, Map<Seq<char>, nat>>;

    closed spec fn view(&self) -> Self::V {
        self.store@
    }
}

impl Table {
    #[verifier::type_invariant]
    spec fn sound(&self) -> bool {
        self.store.ok()
    }

    /// A table that knows no context.
    pub fn new() -> (table: Table)
        ensures
            table@ == Map::<Seq<Seq<char>>, Map<Seq<char>, nat>>::empty(),
    {
        Table { store: Store::new() }
    }

    /// Forgets what the table held and learns the frequency table of
    /// `tokens`: each token is counted once under each run of one to five
    /// tokens that stands right before it.
    pub fn learn(&mut self, tokens: &Vec<String>)
        ensures
            final(self)@ == frequency_table(tokens.deep_view()),
    {
        let ghost stream = tokens.deep_view();
        let mut store = Store::new();
        let mut i: usize = 0;
        while i < tokens.len()
            invariant
                i <= tokens.len(),
                stream == tokens.deep_view(),
                store.ok(),
                forall|c: Seq<Seq<char>>, t: Seq<char>| #[trigger]
                    frequency(store@, c, t) == follows(stream.take(i as int), c, t),
                forall|c: Seq<Seq<char>>| #[trigger] mass(store.entries@, c) <= i,
            decreases tokens.len() - i,
        {
            let longest = if i < MAX_CONTEXT_SIZE {
                i
            } else {
                MAX_CONTEXT_SIZE
            };
            let ghost seen = stream.take(i as int);
            let ghost now = stream.take(i + 1);
            assert(now.drop_last() =~= seen);
            let mut size: usize = 1;
            while size <= longest
                invariant
                    1 <= size <= longest + 1,
                    longest <= i < tokens.len(),
                    longest <= MAX_CONTEXT_SIZE,
                    longest == i || longest == MAX_CONTEXT_SIZE,
                    stream == tokens.deep_view(),
                    seen == stream.take(i as int),
                    now == stream.take(i + 1),
                    now.drop_last() == seen,
                    store.ok(),
                    forall|c: Seq<Seq<char>>, t: Seq<char>| #[trigger]
                        frequency(store@, c, t) == follows(seen, c, t) + if 1 <= c.len() < size
                            && ends_with(now, c.push(t)) {
                            1nat
                        } else {
                            0nat
                        },
                    forall|c: Seq<Seq<char>>| #[trigger]
                        mass(store.entries@, c) <= i + if c.len() < size {
                            1nat
                        } else {
                            0nat
                        },
                decreases longest + 1 - size,
            {
                let ghost before = store@;
                let ghost context = window(tokens, i - size, i as int);
                let ghost next = tokens[i as int]@;
                assert(mass(store.entries@, context) <= i);
                store.record(tokens, i - size, i);
                proof {
                    lemma_observe(before, context, next);
                    assert(context =~= suffix(seen, size as nat));
                    assert forall|c: Seq<Seq<char>>, t: Seq<char>| #[trigger]
                        frequency(store@, c, t) == follows(seen, c, t) + if 1 <= c.len() < size + 1
                            && ends_with(now, c.push(t)) {
                            1nat
                        } else {
                            0nat
                        } by {
                        lemma_ends_with_push(now, c, t);
                        assert(frequency(store@, c, t) == frequency(before, c, t) + if c == context
                            && t == next {
                            1nat
                        } else {
                            0nat
                        });
                    }
                }
                size += 1;
            }
            proof {
                assert forall|c: Seq<Seq<char>>, t: Seq<char>| #[trigger]
                    frequency(store@, c, t) == follows(now, c, t) by {
                    lemma_ends_with_push(now, c, t);
                }
            }
            i += 1;
        }
        proof {
            assert(stream.take(i as int) =~= stream);
            lemma_positive(store.entries@, store.places@);
            lemma_table_of_counts(store@, stream);
        }
        self.store = store;
    }

    /// The count that the table holds for `next` after `context`; 0 where it
    /// holds none.
    pub fn count(&self, context: &Vec<String>, next: &String) -> (n: usize)
        ensures
            n == frequency(self@, context.deep_view(), next@),
            n > 0 ==> 1 <= context.len() <= MAX_CONTEXT_SIZE,
    {
        proof {
            use_type_invariant(self);
            assert(window(context, 0, context.len() as int) =~= context.deep_view());
        }
        match self.store.find(context, 0, context.len()) {
            Some(i) => {
                proof {
                    lemma_place(self.store.entries@, i as int);
                    lemma_slots(
                        self.store.entries[i as int].successors@,
                        self.store.entries[i as int].slots@,
                    );
                }
                match find_successor(&self.store.entries[i], next) {
                    Some(j) => {
                        proof {
                            lemma_slot(self.store.entries[i as int].successors@, j as int);
                        }
                        self.store.entries[i].successors[j].count
                    },
                    None => 0,
                }
            },
            None => 0,
        }
    }

    /// The place of the entry for the context of `history`.
    fn lookup(&self, history: &Vec<String>) -> (found: Option<usize>)
        ensures
            match found {
                Some(i) => i < self.store.entries.len() && context_of(self@, history.deep_view())
                    == Some(key(self.store.entries[i as int])),
                None => context_of(self@, history.deep_view()) is None,
            },
    {
        proof {
            use_type_invariant(self);
        }
        let mut size: usize = MAX_CONTEXT_SIZE;
        while size >= 1
            invariant
                size <= MAX_CONTEXT_SIZE,
                self.store.ok(),
                context_of(self@, history.deep_view()) == backoff(
                    self@,
                    history.deep_view(),
                    size as nat,
                ),
            decreases size,
        {
            if size <= history.len() {
                assert(window(history, history.len() - size, history.len() as int) == suffix(
                    history.deep_view(),
                    size as nat,
                ));
                match self.store.find(history, history.len() - size, history.len()) {
                    Some(i) => {
                        return Some(i);
                    },
                    None => {},
                }
            }
            size -= 1;
        }
        None
    }

    /// Continues `tokens` until there are `length` of them or no context is
    /// known: each new token is drawn from the successors of the longest known
    /// context, with a chance in proportion to its count. The contract holds
    /// of every draw; it cannot speak of the chances.
    pub fn complete(&self, tokens: Vec<String>, length: usize) -> (out: Vec<String>)
        ensures
            continues(self@, tokens.deep_view(), out.deep_view(), length as nat),
    {
        let ghost prompt = tokens.deep_view();
        let mut out = tokens;
        let mut rng = rand::thread_rng();
        assert(out.deep_view().take(prompt.len() as int) =~= prompt);
        while out.len() < length
            invariant
                prompt.len() <= out.len(),
                out.deep_view().take(prompt.len() as int) == prompt,
                out.len() <= length || out.len() == prompt.len(),
                forall|k: int|
                    prompt.len() <= k < out.len() ==> may_follow(
                        self@,
                        out.deep_view().take(k),
                        #[trigger] out.deep_view()[k],
                    ),
            ensures
                out.len() < length ==> context_of(self@, out.deep_view()) is None,
            decreases length - out.len(),
        {
            let ghost history = out.deep_view();
            match self.lookup(&out) {
                Some(i) => {
                    proof {
                        use_type_invariant(self);
                        lemma_place(self.store.entries@, i as int);
                        lemma_slots(
                            self.store.entries[i as int].successors@,
                            self.store.entries[i as int].slots@,
                        );
                        lemma_count_within_total(self.store.entries[i as int].successors@, 0);
                    }
                    match choose_weighted(&mut rng, &self.store.entries[i].successors) {
                        Ok(chosen) => {
                            out.push(chosen.token.clone());
                            proof {
                                let next = chosen.token@;
                                let seen = self.store.entries[i as int].successors@;
                                let j = choose|j: int| 0 <= j < seen.len() && seen[j] == *chosen;
                                lemma_slot(seen, j);
                                assert(out.deep_view() =~= history.push(next));
                                assert(may_follow(self@, history, next));
                                assert forall|k: int| prompt.len() <= k < out.len() implies may_follow(
                                    self@,
                                    out.deep_view().take(k),
                                    #[trigger] out.deep_view()[k],
                                ) by {
                                    if k < history.len() {
                                        assert(out.deep_view().take(k) =~= history.take(k));
                                    } else {
                                        assert(out.deep_view().take(k) =~= history);
                                    }
                                }
                                assert(out.deep_view().take(prompt.len() as int) =~= history.take(
                                    prompt.len() as int,
                                ));
                            }
                        },
                        Err(_) => {
                            break ;
                        },
                    }
                },
                None => {
                    break ;
                },
            }
        }
        out
    }
}

impl Default for Table {
    /// A table that knows no context.
    fn default() -> (table: Table)
        ensures
            table@ == Map::<Seq<Seq<char>>, Map<Seq<char>, nat>>::empty(),
    {
        Table::new()
    }
}

} // verus!
