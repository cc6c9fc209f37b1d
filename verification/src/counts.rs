//! What training counts: how often a token follows a context in a token
//! stream, and the frequency table made of those counts.

use vstd::prelude::*;

verus! {

/// The longest context, in tokens.
pub const MAX_CONTEXT_SIZE: usize = 5;

/// Whether `tokens` ends with the tokens of `pattern`.
pub open spec fn ends_with(tokens: Seq<Seq<char>>, pattern: Seq<Seq<char>>) -> bool {
    pattern.len() <= tokens.len() && tokens.subrange(
        tokens.len() - pattern.len(),
        tokens.len() as int,
    ) == pattern
}

/// How many times `pattern` occurs in `tokens` as a run of consecutive tokens.
pub open spec fn occurrences(tokens: Seq<Seq<char>>, pattern: Seq<Seq<char>>) -> nat
    decreases tokens.len(),
{
    if tokens.len() == 0 {
        0
    } else if ends_with(tokens, pattern) {
        occurrences(tokens.drop_last(), pattern) + 1
    } else {
        occurrences(tokens.drop_last(), pattern)
    }
}

/// How many times training on `tokens` sees `next` right after `context`:
/// contexts of one to five tokens are counted, no others.
pub open spec fn follows(tokens: Seq<Seq<char>>, context: Seq<Seq<char>>, next: Seq<char>) -> nat {
    if 1 <= context.len() <= MAX_CONTEXT_SIZE {
        occurrences(tokens, context.push(next))
    } else {
        0
    }
}

/// The frequency table of a token stream: a context is a key when some token
/// followed it, and maps each such token to the number of times it did.
pub open spec fn frequency_table(tokens: Seq<Seq<char>>) -> Map<Seq<Seq<char>>, Map<Seq<char>, nat>> {
    Map::new(
        |context: Seq<Seq<char>>| exists|next: Seq<char>| follows(tokens, context, next) > 0,
        |context: Seq<Seq<char>>|
            Map::new(
                |next: Seq<char>| follows(tokens, context, next) > 0,
                |next: Seq<char>| follows(tokens, context, next),
            ),
    )
}

/// The count that `table` holds for `next` after `context`; 0 where it holds none.
pub open spec fn frequency(
    table: Map<Seq<Seq<char>>, Map<Seq<char>, nat>>,
    context: Seq<Seq<char>>,
    next: Seq<char>,
) -> nat {
    if table.dom().contains(context) && table[context].dom().contains(next) {
        table[context][next]
    } else {
        0
    }
}

/// The table after one more sighting of `next` after `context`.
pub(crate) open spec fn observe(
    table: Map<Seq<Seq<char>>, Map<Seq<char>, nat>>,
    context: Seq<Seq<char>>,
    next: Seq<char>,
) -> Map<Seq<Seq<char>>, Map<Seq<char>, nat>> {
    let seen = if table.dom().contains(context) {
        table[context]
    } else {
        Map::empty()
    };
    table.insert(context, seen.insert(next, frequency(table, context, next) + 1))
}

/// Every key of the table has a successor, and every count is positive.
pub open spec fn positive(table: Map<Seq<Seq<char>>, Map<Seq<char>, nat>>) -> bool {
    forall|context: Seq<Seq<char>>| #[trigger]
        table.dom().contains(context) ==> {
            &&& exists|next: Seq<char>| table[context].dom().contains(next)
            &&& forall|next: Seq<char>| #[trigger]
                table[context].dom().contains(next) ==> table[context][next] > 0
        }
}

/// One more sighting raises one count by one and leaves the others.
pub(crate) proof fn lemma_observe(
    table: Map<Seq<Seq<char>>, Map<Seq<char>, nat>>,
    context: Seq<Seq<char>>,
    next: Seq<char>,
)
    ensures
        forall|c: Seq<Seq<char>>, t: Seq<char>| #[trigger]
            frequency(observe(table, context, next), c, t) == frequency(table, c, t) + if c
                == context && t == next {
                1nat
            } else {
                0nat
            },
{
}

/// `tokens` ends with `context` and then `next` exactly when its last token
/// is `next` and the tokens before it end with `context`.
pub(crate) proof fn lemma_ends_with_push(tokens: Seq<Seq<char>>, context: Seq<Seq<char>>, next: Seq<char>)
    ensures
        ends_with(tokens, context.push(next)) <==> tokens.len() > 0 && tokens.last() == next
            && ends_with(tokens.drop_last(), context),
{
    let pattern = context.push(next);
    if ends_with(tokens, pattern) {
        let tail = tokens.subrange(tokens.len() - pattern.len(), tokens.len() as int);
        assert(tail.last() == pattern.last());
        assert(tokens.drop_last().subrange(
            tokens.len() - 1 - context.len(),
            tokens.len() - 1,
        ) =~= tail.drop_last());
        assert(pattern.drop_last() =~= context);
    }
    if tokens.len() > 0 && tokens.last() == next && ends_with(tokens.drop_last(), context) {
        assert(tokens.subrange(tokens.len() - pattern.len(), tokens.len() as int) =~= pattern);
    }
}

/// A table with positive counts that agrees with a token stream on every
/// count is the frequency table of that stream.
pub(crate) proof fn lemma_table_of_counts(
    table: Map<Seq<Seq<char>>, Map<Seq<char>, nat>>,
    tokens: Seq<Seq<char>>,
)
    requires
        positive(table),
        forall|c: Seq<Seq<char>>, t: Seq<char>| #[trigger]
            frequency(table, c, t) == follows(tokens, c, t),
    ensures
        table == frequency_table(tokens),
{
    let wanted = frequency_table(tokens);
    assert forall|c: Seq<Seq<char>>| table.dom().contains(c) <==> wanted.dom().contains(c) by {
        if table.dom().contains(c) {
            let t = choose|t: Seq<char>| table[c].dom().contains(t);
            assert(frequency(table, c, t) > 0);
            assert(follows(tokens, c, t) > 0);
        }
        if wanted.dom().contains(c) {
            let t = choose|t: Seq<char>| follows(tokens, c, t) > 0;
            assert(frequency(table, c, t) > 0);
        }
    }
    assert forall|c: Seq<Seq<char>>| table.dom().contains(c) implies #[trigger] table[c]
        =~= wanted[c] by {
        assert forall|t: Seq<char>| table[c].dom().contains(t) <==> wanted[c].dom().contains(
            t,
        ) by {
            assert(frequency(table, c, t) == follows(tokens, c, t));
        }
        assert forall|t: Seq<char>| table[c].dom().contains(t) implies #[trigger] table[c][t]
            == wanted[c][t] by {
            assert(frequency(table, c, t) == follows(tokens, c, t));
        }
    }
    assert(table =~= wanted);
}

/// The places in `tokens` where `next` stands right after `context`.
pub open spec fn sightings(tokens: Seq<Seq<char>>, context: Seq<Seq<char>>, next: Seq<char>) -> Set<
    int,
> {
    Set::new(
        |i: int|
            context.len() <= i < tokens.len() && tokens[i] == next && tokens.subrange(
                i - context.len(),
                i,
            ) == context,
    )
}

/// A token is counted after a context of one to five tokens once for each
/// place where it stands right after that context.
pub proof fn lemma_follows_counts_sightings(
    tokens: Seq<Seq<char>>,
    context: Seq<Seq<char>>,
    next: Seq<char>,
)
    requires
        1 <= context.len() <= MAX_CONTEXT_SIZE,
    ensures
        sightings(tokens, context, next).finite(),
        follows(tokens, context, next) == sightings(tokens, context, next).len(),
    decreases tokens.len(),
{
    let seen = sightings(tokens, context, next);
    if tokens.len() == 0 {
        assert(seen =~= Set::<int>::empty());
    } else {
        let before = tokens.drop_last();
        let earlier = sightings(before, context, next);
        let last = tokens.len() - 1;
        lemma_follows_counts_sightings(before, context, next);
        lemma_ends_with_push(tokens, context, next);
        let wanted = if ends_with(tokens, context.push(next)) {
            earlier.insert(last)
        } else {
            earlier
        };
        assert forall|i: int| seen.contains(i) <==> wanted.contains(i) by {
            if context.len() <= i < tokens.len() {
                assert(before.subrange(i - context.len(), i) =~= tokens.subrange(
                    i - context.len(),
                    i,
                ));
            }
        }
        assert(seen =~= wanted);
    }
}

/// The frequency table of a token stream holds the count of each token after
/// each context, and nothing else: its counts are positive, and its keys are
/// contexts of one to five tokens.
pub proof fn lemma_table_counts(tokens: Seq<Seq<char>>)
    ensures
        forall|c: Seq<Seq<char>>, t: Seq<char>| #[trigger]
            frequency(frequency_table(tokens), c, t) == follows(tokens, c, t),
        positive(frequency_table(tokens)),
        forall|c: Seq<Seq<char>>| #[trigger]
            frequency_table(tokens).dom().contains(c) ==> 1 <= c.len() <= MAX_CONTEXT_SIZE,
{
    let table = frequency_table(tokens);
    assert forall|c: Seq<Seq<char>>| #[trigger] table.dom().contains(c) implies {
        &&& exists|t: Seq<char>| table[c].dom().contains(t)
        &&& forall|t: Seq<char>| #[trigger] table[c].dom().contains(t) ==> table[c][t] > 0
    } by {
        let t = choose|t: Seq<char>| follows(tokens, c, t) > 0;
        assert(table[c].dom().contains(t));
    }
}

/// A pattern that occurs in `tokens` ends at some place in it.
pub(crate) proof fn lemma_occurs_somewhere(tokens: Seq<Seq<char>>, pattern: Seq<Seq<char>>) -> (end: int)
    requires
        occurrences(tokens, pattern) > 0,
    ensures
        pattern.len() <= end <= tokens.len(),
        tokens.subrange(end - pattern.len(), end) == pattern,
    decreases tokens.len(),
{
    if ends_with(tokens, pattern) {
        tokens.len() as int
    } else {
        let end = lemma_occurs_somewhere(tokens.drop_last(), pattern);
        assert(tokens.drop_last().subrange(end - pattern.len(), end) =~= tokens.subrange(
            end - pattern.len(),
            end,
        ));
        end
    }
}

} // verus!
