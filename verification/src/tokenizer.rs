//! Splitting text into tokens: maximal runs of alphanumeric characters, and
//! every other character on its own.

use vstd::prelude::*;

verus! {

/// Whether `c` is alphabetic or numeric in the sense of Unicode: the answer of
/// `char::is_alphanumeric`, which depends on the character alone.
pub uninterp spec fn alphanumeric(c: char) -> bool;

/// `char::is_alphanumeric` answers by the Unicode tables; the contract only
/// gives that answer its name.
pub assume_specification[ char::is_alphanumeric ](c: char) -> (word: bool)
    ensures
        word == alphanumeric(c),
;

/// `String::push` appends one character to the end of the string.
pub assume_specification[ String::push ](s: &mut String, c: char)
    ensures
        final(s)@ == old(s)@.push(c),
;

/// The tokens after one more character: a word character that follows a word
/// character extends the last token, any other character starts a new one.
pub open spec fn step(tokens: Seq<Seq<char>>, in_word: bool, c: char, word: bool) -> Seq<Seq<char>> {
    if word && in_word && tokens.len() > 0 {
        tokens.drop_last().push(tokens.last().push(c))
    } else {
        tokens.push(seq![c])
    }
}

/// Whether a classified text ends inside a word.
pub open spec fn ends_in_word(input: Seq<(char, bool)>) -> bool {
    input.len() > 0 && input.last().1
}

/// The tokens of a text whose characters come with their class (`true` for a
/// word character).
pub open spec fn runs(input: Seq<(char, bool)>) -> Seq<Seq<char>>
    decreases input.len(),
{
    if input.len() == 0 {
        Seq::empty()
    } else {
        let before = input.drop_last();
        step(runs(before), ends_in_word(before), input.last().0, input.last().1)
    }
}

/// Each character of `text` with its class.
pub open spec fn classified(text: Seq<char>) -> Seq<(char, bool)> {
    text.map_values(|c: char| (c, alphanumeric(c)))
}

/// The tokens of `text`.
pub open spec fn tokenization(text: Seq<char>) -> Seq<Seq<char>> {
    runs(classified(text))
}

/// A tokenizer that is fed one character at a time.
pub struct Tokenizer {
    done: Vec<String>,
    run: String,
}

impl Tokenizer {
    /// The tokens so far, the unfinished word included.
    pub closed spec fn tokens(&self) -> Seq<Seq<char>> {
        if self.run@.len() > 0 {
            self.done.deep_view().push(self.run@)
        } else {
            self.done.deep_view()
        }
    }

    /// Whether the last character fed was a word character.
    pub closed spec fn in_word(&self) -> bool {
        self.run@.len() > 0
    }

    /// A tokenizer that has been fed nothing.
    pub fn new() -> (tokenizer: Tokenizer)
        ensures
            tokenizer.tokens() == Seq::<Seq<char>>::empty(),
            !tokenizer.in_word(),
    {
        let tokenizer = Tokenizer { done: Vec::new(), run: String::new() };
        assert(tokenizer.done.deep_view() =~= Seq::<Seq<char>>::empty());
        tokenizer
    }

    /// Takes the character `c`, a word character if `word` says so.
    pub fn feed(&mut self, c: char, word: bool)
        ensures
            final(self).tokens() == step(old(self).tokens(), old(self).in_word(), c, word),
            final(self).in_word() == word,
    {
        if word {
            self.run.push(c);
            proof {
                let done = self.done.deep_view();
                assert(done.push(old(self).run@).drop_last() =~= done);
                if !old(self).in_word() {
                    assert(old(self).run@.push(c) =~= seq![c]);
                }
            }
        } else {
            self.flush();
            let mut symbol = String::new();
            symbol.push(c);
            self.done.push(symbol);
            assert(self.done.deep_view() =~= old(self).tokens().push(seq![c]));
        }
    }

    /// Closes the unfinished word, if there is one.
    fn flush(&mut self)
        ensures
            final(self).run@.len() == 0,
            final(self).done.deep_view() == old(self).tokens(),
    {
        if !self.run.as_str().is_empty() {
            let mut word = String::new();
            std::mem::swap(&mut word, &mut self.run);
            self.done.push(word);
            assert(self.done.deep_view() =~= old(self).tokens());
        }
    }

    /// Ends the text and hands out its tokens.
    pub fn finish(self) -> (tokens: Vec<String>)
        ensures
            tokens.deep_view() == self.tokens(),
    {
        let mut tokenizer = self;
        tokenizer.flush();
        tokenizer.done
    }
}

/// A word: one or more alphanumeric characters.
pub open spec fn is_word(token: Seq<char>) -> bool {
    token.len() > 0 && forall|i: int| 0 <= i < token.len() ==> alphanumeric(#[trigger] token[i])
}

/// A symbol: one character that is not alphanumeric.
pub open spec fn is_symbol(token: Seq<char>) -> bool {
    token.len() == 1 && !alphanumeric(token[0])
}

/// Every token is a word or a symbol, and no word stands next to a word.
pub open spec fn well_formed(tokens: Seq<Seq<char>>) -> bool {
    &&& forall|i: int|
        0 <= i < tokens.len() ==> is_word(#[trigger] tokens[i]) || is_symbol(tokens[i])
    &&& forall|i: int|
        0 < i < tokens.len() ==> !(is_word(tokens[i - 1]) && is_word(#[trigger] tokens[i]))
}

/// The sum of the lengths of the tokens.
pub open spec fn total_length(tokens: Seq<Seq<char>>) -> nat
    decreases tokens.len(),
{
    if tokens.len() == 0 {
        0
    } else {
        total_length(tokens.drop_last()) + tokens.last().len()
    }
}

proof fn lemma_tokenization(text: Seq<char>)
    ensures
        tokenization(text).flatten() == text,
        total_length(tokenization(text)) == text.len(),
        well_formed(tokenization(text)),
        text.len() > 0 ==> tokenization(text).len() > 0 && (is_word(tokenization(text).last())
            <==> alphanumeric(text.last())),
    decreases text.len(),
{
    let tokens = tokenization(text);
    if text.len() > 0 {
        let before = text.drop_last();
        let c = text.last();
        let earlier = tokenization(before);
        lemma_tokenization(before);
        assert(classified(text).drop_last() =~= classified(before));
        assert(tokens == step(earlier, ends_in_word(classified(before)), c, alphanumeric(c)));
        assert(before.push(c) =~= text);
        if alphanumeric(c) && ends_in_word(classified(before)) {
            let word = earlier.last();
            let head = earlier.drop_last();
            assert(head.push(word) =~= earlier);
            head.lemma_flatten_push(word);
            head.lemma_flatten_push(word.push(c));
            assert(tokens.flatten() =~= text);
            assert(tokens.drop_last() =~= head);
            assert(earlier.drop_last() =~= head);
            assert(is_word(word.push(c)));
            assert forall|i: int| 0 <= i < tokens.len() implies is_word(#[trigger] tokens[i])
                || is_symbol(tokens[i]) by {
                if i < head.len() {
                    assert(tokens[i] == earlier[i]);
                }
            }
            assert forall|i: int| 0 < i < tokens.len() implies !(is_word(tokens[i - 1]) && is_word(
                #[trigger] tokens[i],
            )) by {
                assert(tokens[i - 1] == earlier[i - 1]);
                if i < head.len() {
                    assert(tokens[i] == earlier[i]);
                } else {
                    assert(is_word(earlier[i]));
                }
            }
        } else {
            earlier.lemma_flatten_push(seq![c]);
            assert(tokens.flatten() =~= text);
            assert(tokens.drop_last() =~= earlier);
            assert(is_word(seq![c]) <==> alphanumeric(c));
            assert forall|i: int| 0 <= i < tokens.len() implies is_word(#[trigger] tokens[i])
                || is_symbol(tokens[i]) by {
                if i < earlier.len() {
                    assert(tokens[i] == earlier[i]);
                }
            }
            assert forall|i: int| 0 < i < tokens.len() implies !(is_word(tokens[i - 1]) && is_word(
                #[trigger] tokens[i],
            )) by {
                assert(tokens[i - 1] == earlier[i - 1]);
                if i < earlier.len() {
                    assert(tokens[i] == earlier[i]);
                }
            }
        }
    } else {
        assert(classified(text) =~= Seq::<(char, bool)>::empty());
    }
}

/// Put together again in order, the tokens of a text give the text.
pub proof fn lemma_round_trip(text: Seq<char>)
    ensures
        tokenization(text).flatten() == text,
{
    lemma_tokenization(text);
}

/// The tokens of a text are as long, taken together, as the text.
pub proof fn lemma_total_coverage(text: Seq<char>)
    ensures
        total_length(tokenization(text)) == text.len(),
{
    lemma_tokenization(text);
}

/// Where the token `k` begins in the text: the lengths of the tokens before it.
pub open spec fn offset(tokens: Seq<Seq<char>>, k: int) -> nat {
    total_length(tokens.take(k))
}

/// Whether place `p` of the text lies in the token `k`.
pub open spec fn covers(tokens: Seq<Seq<char>>, k: int, p: int) -> bool {
    0 <= k < tokens.len() && offset(tokens, k) <= p < offset(tokens, k) + tokens[k].len()
}

proof fn lemma_offset_next(tokens: Seq<Seq<char>>, k: int)
    requires
        0 <= k < tokens.len(),
    ensures
        offset(tokens, k + 1) == offset(tokens, k) + tokens[k].len(),
{
    assert(tokens.take(k + 1).drop_last() =~= tokens.take(k));
}

proof fn lemma_offsets_rise(tokens: Seq<Seq<char>>, j: int, k: int)
    requires
        0 <= j <= k <= tokens.len(),
    ensures
        offset(tokens, j) <= offset(tokens, k),
    decreases k - j,
{
    if j < k {
        lemma_offset_next(tokens, k - 1);
        lemma_offsets_rise(tokens, j, k - 1);
    }
}

proof fn lemma_locate(tokens: Seq<Seq<char>>, p: int) -> (k: int)
    requires
        0 <= p < total_length(tokens),
    ensures
        covers(tokens, k, p),
        tokens.flatten().len() == total_length(tokens),
        tokens.flatten()[p] == tokens[k][p - offset(tokens, k)],
    decreases tokens.len(),
{
    let head = tokens.drop_last();
    let last = tokens.last();
    assert(head.push(last) =~= tokens);
    head.lemma_flatten_push(last);
    lemma_flatten_length(head);
    assert(tokens.take(tokens.len() - 1) =~= head);
    if p < total_length(head) {
        let k = lemma_locate(head, p);
        assert(head.take(k) =~= tokens.take(k));
        k
    } else {
        tokens.len() - 1
    }
}

proof fn lemma_flatten_length(tokens: Seq<Seq<char>>)
    ensures
        tokens.flatten().len() == total_length(tokens),
    decreases tokens.len(),
{
    if tokens.len() > 0 {
        let head = tokens.drop_last();
        let last = tokens.last();
        assert(head.push(last) =~= tokens);
        head.lemma_flatten_push(last);
        lemma_flatten_length(head);
    }
}

/// Every character of a text lies in one token and in no other, and stands
/// there as it stands in the text.
pub proof fn lemma_one_token_each(text: Seq<char>, p: int) -> (k: int)
    requires
        0 <= p < text.len(),
    ensures
        covers(tokenization(text), k, p),
        tokenization(text)[k][p - offset(tokenization(text), k)] == text[p],
        forall|j: int| covers(tokenization(text), j, p) ==> j == k,
{
    let tokens = tokenization(text);
    lemma_tokenization(text);
    let k = lemma_locate(tokens, p);
    assert forall|j: int| covers(tokens, j, p) implies j == k by {
        if j < k {
            lemma_offset_next(tokens, j);
            lemma_offsets_rise(tokens, j + 1, k);
        } else if k < j {
            lemma_offset_next(tokens, k);
            lemma_offsets_rise(tokens, k + 1, j);
        }
    }
    k
}

/// Every token of a text is a run of alphanumeric characters or one other
/// character, and no two runs stand side by side.
pub proof fn lemma_maximal_runs(text: Seq<char>)
    ensures
        well_formed(tokenization(text)),
{
    lemma_tokenization(text);
}

/// A text has one well-formed split only: tokens that are well formed and
/// give `text` when put together are the tokens of `text`.
pub proof fn lemma_tokenization_unique(tokens: Seq<Seq<char>>, text: Seq<char>)
    requires
        well_formed(tokens),
        tokens.flatten() == text,
    ensures
        tokens == tokenization(text),
    decreases text.len(),
{
    if tokens.len() == 0 {
        assert(classified(text) =~= Seq::<(char, bool)>::empty());
    } else {
        let head = tokens.drop_last();
        let last = tokens.last();
        assert(head.push(last) =~= tokens);
        head.lemma_flatten_push(last);
        assert(text =~= head.flatten() + last);
        assert(is_word(last) || is_symbol(last));
        let c = text.last();
        let before = text.drop_last();
        assert(c == last.last());
        assert(classified(text).drop_last() =~= classified(before));
        assert(before.push(c) =~= text);
        if last.len() > 1 {
            let shorter = last.drop_last();
            let earlier = head.push(shorter);
            head.lemma_flatten_push(shorter);
            assert(earlier.flatten() =~= before);
            assert(is_word(last));
            assert(is_word(shorter)) by {
                assert forall|i: int| 0 <= i < shorter.len() implies alphanumeric(
                    #[trigger] shorter[i],
                ) by {
                    assert(shorter[i] == last[i]);
                }
            }
            assert forall|i: int| 0 <= i < earlier.len() implies is_word(#[trigger] earlier[i])
                || is_symbol(earlier[i]) by {
                if i < head.len() {
                    assert(earlier[i] == tokens[i]);
                }
            }
            assert forall|i: int| 0 < i < earlier.len() implies !(is_word(earlier[i - 1])
                && is_word(#[trigger] earlier[i])) by {
                assert(earlier[i - 1] == tokens[i - 1]);
                if i < head.len() {
                    assert(earlier[i] == tokens[i]);
                } else {
                    assert(is_word(tokens[i]));
                }
            }
            lemma_tokenization_unique(earlier, before);
            assert(before.last() == shorter.last());
            assert(alphanumeric(shorter[shorter.len() - 1]));
            assert(alphanumeric(last[last.len() - 1]));
            assert(earlier.drop_last() =~= head);
            assert(shorter.push(c) =~= last);
        } else {
            assert(last =~= seq![c]);
            assert(head.flatten() =~= before);
            assert forall|i: int| 0 <= i < head.len() implies is_word(#[trigger] head[i])
                || is_symbol(head[i]) by {
                assert(head[i] == tokens[i]);
            }
            assert forall|i: int| 0 < i < head.len() implies !(is_word(head[i - 1]) && is_word(
                #[trigger] head[i],
            )) by {
                assert(head[i - 1] == tokens[i - 1]);
                assert(head[i] == tokens[i]);
            }
            lemma_tokenization_unique(head, before);
            if alphanumeric(c) && before.len() > 0 {
                lemma_tokenization(before);
                assert(is_word(last));
                assert(head.len() > 0);
                assert(head.last() == tokens[tokens.len() - 2]);
                assert(!(is_word(tokens[tokens.len() - 2]) && is_word(tokens[tokens.len() - 1])));
            }
        }
    }
}

} // verus!
