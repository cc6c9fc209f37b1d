//! The model: it learns the frequency table of a text and continues a prompt
//! by drawing each next token from what followed the longest known context.

use crate::counts::frequency_table;
use crate::generation::{
    continues, lemma_trained_table_linked, lemma_well_formed_outcome, linked,
};
use crate::store::{render_window, window};
use crate::table::Table;
use crate::tokenizer::{
    classified, ends_in_word, lemma_maximal_runs, lemma_tokenization_unique, tokenization,
    Tokenizer,
};
use vstd::prelude::*;

verus! {

/// The tokens put together in order, with nothing between them.
pub fn render(tokens: &Vec<String>) -> (text: String)
    ensures
        text@ == tokens.deep_view().flatten(),
{
    assert(window(tokens, 0, tokens.len() as int) =~= tokens.deep_view());
    render_window(tokens, 0, tokens.len())
}

/// The model. All that it has learned is its frequency table, `self@`: for
/// each context of one to five tokens that the training text held, the tokens
/// that followed it, each with the number of times it did.
pub struct Brain {
    table: Table,
}

impl View for Brain {
    type V = Map<Seq<Seq<char>>, Map<Seq<char>, nat>>;

    closed spec fn view(&self) -> Self::V {
        self.table@
    }
}

impl Brain {
    #[verifier::type_invariant]
    spec fn sound(&self) -> bool {
        linked(self.table@)
    }

    /// A model that has learned nothing.
    pub fn new() -> (brain: Brain)
        ensures
            brain@ == Map::<Seq<Seq<char>>, Map<Seq<char>, nat>>::empty(),
    {
        Brain { table: Table::new() }
    }

    /// The frequency table of the model.
    pub fn table(&self) -> (table: &Table)
        ensures
            table@ == self@,
    {
        &self.table
    }

    /// Splits `text` into its tokens.
    pub fn tokenize(text: &str) -> (tokens: Vec<String>)
        ensures
            tokens.deep_view() == tokenization(text@),
    {
        let mut tokenizer = Tokenizer::new();
        for c in it: text.chars()
            invariant
                it.seq() == text@,
                tokenizer.tokens() == tokenization(text@.take(it.index() as int)),
                tokenizer.in_word() == ends_in_word(classified(text@.take(it.index() as int))),
        {
            proof {
                let i = it.index() as int;
                assert(text@.take(i + 1).drop_last() =~= text@.take(i));
                assert(classified(text@.take(i + 1)).drop_last() =~= classified(text@.take(i)));
            }
            tokenizer.feed(c, c.is_alphanumeric());
        }
        assert(text@.take(text@.len() as int) =~= text@);
        tokenizer.finish()
    }

    /// Forgets what the model held and learns the frequency table of `text`.
    pub fn train(&mut self, text: &str)
        ensures
            final(self)@ == frequency_table(tokenization(text@)),
    {
        let tokens = Self::tokenize(text);
        let mut table = Table::new();
        table.learn(&tokens);
        proof {
            lemma_maximal_runs(text@);
            lemma_trained_table_linked(tokens.deep_view());
        }
        self.table = table;
    }

    /// Continues `prompt` up to `length` tokens and hands out the text of the
    /// outcome: the tokens of the prompt, then the tokens drawn, with nothing
    /// between them. Each token is drawn from the successors of the longest
    /// known context, with a chance in proportion to its count; the contract
    /// holds of every draw, and says it of the tokens of the reply.
    pub fn prompt(&self, prompt: &str, length: usize) -> (reply: String)
        ensures
            continues(self@, tokenization(prompt@), tokenization(reply@), length as nat),
    {
        let tokens = Self::tokenize(prompt);
        let out = self.table.complete(tokens, length);
        let reply = render(&out);
        proof {
            use_type_invariant(self);
            lemma_maximal_runs(prompt@);
            lemma_well_formed_outcome(
                self@,
                tokenization(prompt@),
                out.deep_view(),
                length as nat,
            );
            lemma_tokenization_unique(out.deep_view(), reply@);
        }
        reply
    }
}

impl Default for Brain {
    /// A model that has learned nothing.
    fn default() -> (brain: Brain)
        ensures
            brain@ == Map::<Seq<Seq<char>>, Map<Seq<char>, nat>>::empty(),
    {
        Brain::new()
    }
}

/// Training is deterministic: two models that were trained on one text
/// hold one and the same table.
pub proof fn lemma_training_deterministic(first: Brain, second: Brain, text: Seq<char>)
    requires
        first@ == frequency_table(tokenization(text)),
        second@ == frequency_table(tokenization(text)),
    ensures
        first@ == second@,
{
}

/// Training does not add up: a model trained on one text and then on
/// another holds what a model trained on the other alone holds.
pub proof fn lemma_training_replaces(
    first: Seq<char>,
    second: Seq<char>,
    after_first: Brain,
    after_both: Brain,
    after_second_alone: Brain,
)
    requires
        after_first@ == frequency_table(tokenization(first)),
        after_both@ == frequency_table(tokenization(second)),
        after_second_alone@ == frequency_table(tokenization(second)),
    ensures
        after_both@ == after_second_alone@,
{
}

} // verus!
