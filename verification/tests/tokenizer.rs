use chatgpt_at_home::brain::render;
use chatgpt_at_home::tokenizer::Tokenizer;
use chatgpt_at_home::Brain;

fn strings(tokens: &[&str]) -> Vec<String> {
    tokens.iter().map(|token| token.to_string()).collect()
}

#[test]
fn tokenize_hello_world() {
    assert_eq!(
        Brain::tokenize("Hello, World!"),
        strings(&["Hello", ",", " ", "World", "!"])
    );
}

#[test]
fn tokenize_include_line() {
    assert_eq!(
        Brain::tokenize("#include <coffee.h>"),
        strings(&["#", "include", " ", "<", "coffee", ".", "h", ">"])
    );
}

#[test]
fn tokenize_arithmetic() {
    assert_eq!(
        Brain::tokenize("123 + 234 = 0xCAFEBABE"),
        strings(&["123", " ", "+", " ", "234", " ", "=", " ", "0xCAFEBABE"])
    );
}

#[test]
fn tokenize_empty_text_has_no_tokens() {
    assert_eq!(Brain::tokenize(""), Vec::<String>::new());
}

#[test]
fn tokenize_single_word() {
    assert_eq!(Brain::tokenize("word"), strings(&["word"]));
}

#[test]
fn tokenize_keeps_each_space_and_symbol_apart() {
    assert_eq!(
        Brain::tokenize("a  b!?\n"),
        strings(&["a", " ", " ", "b", "!", "?", "\n"])
    );
}

#[test]
fn tokenize_goes_by_characters_not_bytes() {
    assert_eq!(
        Brain::tokenize("héllo wörld¡ 藏书—٣"),
        strings(&["héllo", " ", "wörld", "¡", " ", "藏书", "—", "٣"])
    );
}

#[test]
fn tokenize_agrees_with_a_tokenizer_fed_by_hand() {
    let text = "It was a bright cold day in April, and the clocks were striking 13.";
    let mut tokenizer = Tokenizer::new();
    for c in text.chars() {
        tokenizer.feed(c, c.is_alphanumeric());
    }
    assert_eq!(tokenizer.finish(), Brain::tokenize(text));
}

#[test]
fn tokens_concatenate_to_the_text() {
    for text in [
        "",
        " ",
        "Hello, World!",
        "123 + 234 = 0xCAFEBABE",
        "tabs\tand\nnewlines\r\n",
        "ünïcödé — ¿qué?",
        "...",
    ] {
        let tokens = Brain::tokenize(text);
        assert_eq!(tokens.concat(), text);
        assert_eq!(render(&tokens), text);
    }
}

#[test]
fn tokens_cover_every_character_once() {
    for text in ["Hello, World!", "a1 b2\tc3", "ünïcödé — ¿qué?", ""] {
        let tokens = Brain::tokenize(text);
        let total: usize = tokens.iter().map(|token| token.chars().count()).sum();
        assert_eq!(total, text.chars().count());
    }
}

#[test]
fn tokens_are_maximal_words_or_single_symbols() {
    for text in ["Hello, World!", "a1 b2\tc3--d", "ünïcödé — ¿qué?", "x"] {
        let tokens = Brain::tokenize(text);
        for token in &tokens {
            let word = token.chars().all(|c| c.is_alphanumeric());
            let symbol = token.chars().count() == 1 && !token.chars().all(|c| c.is_alphanumeric());
            assert!(!token.is_empty());
            assert!(word || symbol);
        }
        for pair in tokens.windows(2) {
            let first = pair[0].chars().all(|c| c.is_alphanumeric());
            let second = pair[1].chars().all(|c| c.is_alphanumeric());
            assert!(!(first && second));
        }
    }
}

#[test]
fn tokenizer_with_nothing_fed_gives_nothing() {
    assert_eq!(Tokenizer::new().finish(), Vec::<String>::new());
}

#[test]
fn tokenizer_goes_by_the_class_it_is_given() {
    let mut tokenizer = Tokenizer::new();
    tokenizer.feed('a', true);
    tokenizer.feed('b', true);
    tokenizer.feed(',', false);
    tokenizer.feed(' ', false);
    tokenizer.feed('c', true);
    assert_eq!(tokenizer.finish(), strings(&["ab", ",", " ", "c"]));
}

#[test]
fn tokenizer_joins_whatever_is_called_a_word_character() {
    let mut tokenizer = Tokenizer::new();
    tokenizer.feed('-', true);
    tokenizer.feed('-', true);
    tokenizer.feed('a', false);
    tokenizer.feed('b', false);
    tokenizer.feed('+', true);
    assert_eq!(tokenizer.finish(), strings(&["--", "a", "b", "+"]));
}

#[test]
fn tokenize_can_be_run_again() {
    let first = Brain::tokenize("one two");
    let second = Brain::tokenize("three");
    let third = Brain::tokenize("one two");
    assert_eq!(first, third);
    assert_eq!(second, strings(&["three"]));
}

#[test]
fn render_puts_nothing_between_tokens() {
    assert_eq!(render(&strings(&["ab", " ", "cd", "!"])), "ab cd!");
    assert_eq!(render(&Vec::new()), "");
}
