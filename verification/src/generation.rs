//! What generation may put out: the context that the next token is drawn
//! from, and the outcomes of continuing a prompt.

use crate::counts::{follows, frequency_table, lemma_occurs_somewhere, occurrences, MAX_CONTEXT_SIZE};
use crate::tokenizer::{is_symbol, is_word, well_formed};
use vstd::prelude::*;

verus! {

/// Whether `next` may stand right after `previous` in a well-formed run of
/// tokens: it is a word or a symbol, and the two are not both words.
pub open spec fn fits(previous: Seq<char>, next: Seq<char>) -> bool {
    (is_word(next) || is_symbol(next)) && !(is_word(previous) && is_word(next))
}

/// Every successor in the table may stand after the last token of its context.
pub open spec fn linked(table: Map<Seq<Seq<char>>, Map<Seq<char>, nat>>) -> bool {
    forall|context: Seq<Seq<char>>, next: Seq<char>|
        table.dom().contains(context) && #[trigger] table[context].dom().contains(next)
            ==> context.len() > 0 && fits(context.last(), next)
}

/// The last `n` tokens of `history`.
pub open spec fn suffix(history: Seq<Seq<char>>, n: nat) -> Seq<Seq<char>> {
    history.subrange(history.len() - n, history.len() as int)
}

/// The longest run of at most `limit` tokens at the end of `history` that is
/// a key of `table`, if there is one.
pub open spec fn backoff(
    table: Map<Seq<Seq<char>>, Map<Seq<char>, nat>>,
    history: Seq<Seq<char>>,
    limit: nat,
) -> Option<Seq<Seq<char>>>
    decreases limit,
{
    if limit == 0 {
        None
    } else if limit <= history.len() && table.dom().contains(suffix(history, limit)) {
        Some(suffix(history, limit))
    } else {
        backoff(table, history, (limit - 1) as nat)
    }
}

/// The context from which the token after `history` is drawn: the longest
/// known one of at most five tokens.
pub open spec fn context_of(
    table: Map<Seq<Seq<char>>, Map<Seq<char>, nat>>,
    history: Seq<Seq<char>>,
) -> Option<Seq<Seq<char>>> {
    backoff(table, history, MAX_CONTEXT_SIZE as nat)
}

/// Whether generation may put `next` after `history`: the table holds it as
/// a successor of the context of `history`.
pub open spec fn may_follow(
    table: Map<Seq<Seq<char>>, Map<Seq<char>, nat>>,
    history: Seq<Seq<char>>,
    next: Seq<char>,
) -> bool {
    match context_of(table, history) {
        Some(context) => table[context].dom().contains(next),
        None => false,
    }
}

/// Whether `out` is an outcome of generation from `prompt` up to `length`
/// tokens: it begins with the prompt, every token after the prompt was a
/// successor of the context before it, it is no longer than `length` unless
/// the prompt already was, and it is shorter only where no context is known.
pub open spec fn continues(
    table: Map<Seq<Seq<char>>, Map<Seq<char>, nat>>,
    prompt: Seq<Seq<char>>,
    out: Seq<Seq<char>>,
    length: nat,
) -> bool {
    &&& prompt.len() <= out.len()
    &&& out.take(prompt.len() as int) == prompt
    &&& out.len() <= length || out.len() == prompt.len()
    &&& forall|k: int|
        prompt.len() <= k < out.len() ==> may_follow(table, out.take(k), #[trigger] out[k])
    &&& out.len() < length ==> context_of(table, out) is None
}

proof fn lemma_backoff(
    table: Map<Seq<Seq<char>>, Map<Seq<char>, nat>>,
    history: Seq<Seq<char>>,
    limit: nat,
)
    ensures
        match backoff(table, history, limit) {
            Some(context) => {
                &&& 1 <= context.len() <= limit
                &&& context.len() <= history.len()
                &&& context == suffix(history, context.len())
                &&& table.dom().contains(context)
                &&& forall|n: nat|
                    context.len() < n <= limit && n <= history.len() ==> !table.dom().contains(
                        #[trigger] suffix(history, n),
                    )
            },
            None => forall|n: nat|
                1 <= n <= limit && n <= history.len() ==> !table.dom().contains(
                    #[trigger] suffix(history, n),
                ),
        },
    decreases limit,
{
    if limit > 0 {
        lemma_backoff(table, history, (limit - 1) as nat);
    }
}

/// The context of a history is the longest run of one to five tokens at its
/// end that is a key of the table; there is none only where no such run is
/// a key.
pub proof fn lemma_longest_context(
    table: Map<Seq<Seq<char>>, Map<Seq<char>, nat>>,
    history: Seq<Seq<char>>,
)
    ensures
        match context_of(table, history) {
            Some(context) => {
                &&& 1 <= context.len() <= MAX_CONTEXT_SIZE
                &&& context.len() <= history.len()
                &&& context == suffix(history, context.len())
                &&& table.dom().contains(context)
                &&& forall|n: nat|
                    context.len() < n <= MAX_CONTEXT_SIZE && n <= history.len()
                        ==> !table.dom().contains(#[trigger] suffix(history, n))
            },
            None => forall|n: nat|
                1 <= n <= MAX_CONTEXT_SIZE && n <= history.len() ==> !table.dom().contains(
                    #[trigger] suffix(history, n),
                ),
        },
{
    lemma_backoff(table, history, MAX_CONTEXT_SIZE as nat);
}

/// The frequency table of well-formed tokens is linked: a token that
/// followed a context in such tokens fits the last token of the context.
pub proof fn lemma_trained_table_linked(tokens: Seq<Seq<char>>)
    requires
        well_formed(tokens),
    ensures
        linked(frequency_table(tokens)),
{
    let table = frequency_table(tokens);
    assert forall|context: Seq<Seq<char>>, next: Seq<char>|
        table.dom().contains(context) && #[trigger] table[context].dom().contains(
            next,
        ) implies context.len() > 0 && fits(context.last(), next) by {
        assert(follows(tokens, context, next) > 0);
        let pattern = context.push(next);
        let end = lemma_occurs_somewhere(tokens, pattern);
        let found = tokens.subrange(end - pattern.len(), end);
        assert(found[pattern.len() - 1] == pattern[pattern.len() - 1]);
        assert(found[pattern.len() - 2] == pattern[pattern.len() - 2]);
        assert(tokens[end - 1] == next);
        assert(tokens[end - 2] == context.last());
    }
}

/// A well-formed run of tokens stays well formed with a token that fits its last.
proof fn lemma_push_fitting(tokens: Seq<Seq<char>>, next: Seq<char>)
    requires
        well_formed(tokens),
        tokens.len() > 0,
        fits(tokens.last(), next),
    ensures
        well_formed(tokens.push(next)),
{
    let longer = tokens.push(next);
    assert forall|i: int| 0 <= i < longer.len() implies is_word(#[trigger] longer[i]) || is_symbol(
        longer[i],
    ) by {
        if i < tokens.len() {
            assert(longer[i] == tokens[i]);
        }
    }
    assert forall|i: int| 0 < i < longer.len() implies !(is_word(longer[i - 1]) && is_word(
        #[trigger] longer[i],
    )) by {
        assert(longer[i - 1] == tokens[i - 1]);
        if i < tokens.len() {
            assert(longer[i] == tokens[i]);
        }
    }
}

/// Generation never goes beyond the target length, and stops short of it
/// only where no context is known, for a prompt that is no longer than the
/// target.
pub proof fn lemma_bounded_generation(
    table: Map<Seq<Seq<char>>, Map<Seq<char>, nat>>,
    prompt: Seq<Seq<char>>,
    out: Seq<Seq<char>>,
    length: nat,
)
    requires
        continues(table, prompt, out, length),
        prompt.len() <= length,
    ensures
        out.len() <= length,
        out.len() < length ==> forall|n: nat|
            1 <= n <= MAX_CONTEXT_SIZE && n <= out.len() ==> !table.dom().contains(
                #[trigger] suffix(out, n),
            ),
{
    lemma_backoff(table, out, MAX_CONTEXT_SIZE as nat);
}

/// Nothing is generated from an empty table, nor for a prompt that already
/// has the target length: the outcome is the prompt.
pub proof fn lemma_nothing_generated(
    table: Map<Seq<Seq<char>>, Map<Seq<char>, nat>>,
    prompt: Seq<Seq<char>>,
    out: Seq<Seq<char>>,
    length: nat,
)
    requires
        continues(table, prompt, out, length),
        length <= prompt.len() || table == Map::<Seq<Seq<char>>, Map<Seq<char>, nat>>::empty(),
    ensures
        out == prompt,
{
    if out.len() > prompt.len() {
        let k = prompt.len() as int;
        assert(may_follow(table, out.take(k), out[k]));
        lemma_backoff(table, out.take(k), MAX_CONTEXT_SIZE as nat);
    }
    assert(out.take(out.len() as int) =~= out);
}

/// Every token after the prompt followed, in the text that the table was
/// made from, the run of tokens that stands before it in the outcome: the
/// longest such run of at most five tokens that the text held.
pub proof fn lemma_generated_from_training(
    corpus: Seq<Seq<char>>,
    prompt: Seq<Seq<char>>,
    out: Seq<Seq<char>>,
    length: nat,
    k: int,
)
    requires
        continues(frequency_table(corpus), prompt, out, length),
        prompt.len() <= k < out.len(),
    ensures
        exists|n: nat|
            1 <= n <= MAX_CONTEXT_SIZE && n <= k && #[trigger] occurrences(
                corpus,
                suffix(out.take(k), n).push(out[k]),
            ) > 0,
{
    let table = frequency_table(corpus);
    let history = out.take(k);
    assert(may_follow(table, history, out[k]));
    lemma_backoff(table, history, MAX_CONTEXT_SIZE as nat);
    let context = context_of(table, history)->0;
    assert(follows(corpus, context, out[k]) > 0);
    assert(context == suffix(history, context.len()));
    assert(occurrences(corpus, suffix(out.take(k), context.len()).push(out[k])) > 0);
}

/// From a linked table, the outcomes of a well-formed prompt are well formed:
/// put together, they are split again into the same tokens.
pub proof fn lemma_well_formed_outcome(
    table: Map<Seq<Seq<char>>, Map<Seq<char>, nat>>,
    prompt: Seq<Seq<char>>,
    out: Seq<Seq<char>>,
    length: nat,
)
    requires
        linked(table),
        well_formed(prompt),
        continues(table, prompt, out, length),
    ensures
        well_formed(out),
{
    lemma_well_formed_so_far(table, prompt, out, length, out.len() as int);
    assert(out.take(out.len() as int) =~= out);
}

proof fn lemma_well_formed_so_far(
    table: Map<Seq<Seq<char>>, Map<Seq<char>, nat>>,
    prompt: Seq<Seq<char>>,
    out: Seq<Seq<char>>,
    length: nat,
    k: int,
)
    requires
        linked(table),
        well_formed(prompt),
        continues(table, prompt, out, length),
        prompt.len() <= k <= out.len(),
    ensures
        well_formed(out.take(k)),
    decreases k,
{
    if k > prompt.len() {
        let history = out.take(k - 1);
        lemma_well_formed_so_far(table, prompt, out, length, k - 1);
        assert(may_follow(table, history, out[k - 1]));
        lemma_backoff(table, history, MAX_CONTEXT_SIZE as nat);
        let context = context_of(table, history)->0;
        assert(context.last() == history.last());
        lemma_push_fitting(history, out[k - 1]);
        assert(out.take(k) =~= history.push(out[k - 1]));
    }
}

} // verus!
