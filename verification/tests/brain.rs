use chatgpt_at_home::Brain;

fn strings(tokens: &[&str]) -> Vec<String> {
    tokens.iter().map(|token| token.to_string()).collect()
}

fn count(brain: &Brain, context: &[&str], next: &str) -> usize {
    brain.table().count(&strings(context), &next.to_string())
}

#[test]
fn new_model_holds_no_counts() {
    let brain = Brain::new();
    assert_eq!(count(&brain, &["ab"], " "), 0);
    assert_eq!(count(&Brain::default(), &["ab"], " "), 0);
}

#[test]
fn train_counts_every_context_up_to_five_tokens() {
    let mut brain = Brain::new();
    brain.train("ab ab ab");
    assert_eq!(count(&brain, &["ab"], " "), 2);
    assert_eq!(count(&brain, &[" "], "ab"), 2);
    assert_eq!(count(&brain, &["ab", " "], "ab"), 2);
    assert_eq!(count(&brain, &[" ", "ab"], " "), 1);
    assert_eq!(count(&brain, &["ab", " ", "ab"], " "), 1);
    assert_eq!(count(&brain, &[" ", "ab", " "], "ab"), 1);
    assert_eq!(count(&brain, &["ab", " ", "ab", " "], "ab"), 1);
    assert_eq!(count(&brain, &["ab"], "ab"), 0);
    assert_eq!(count(&brain, &[" "], " "), 0);
    assert_eq!(count(&brain, &[], "ab"), 0);
}

#[test]
fn train_stops_at_five_tokens_of_context() {
    let mut brain = Brain::new();
    brain.train("a.b.c.d");
    assert_eq!(count(&brain, &[".", "b", ".", "c", "."], "d"), 1);
    assert_eq!(count(&brain, &["a", ".", "b", ".", "c"], "."), 1);
    assert_eq!(count(&brain, &["a", ".", "b", ".", "c", "."], "d"), 0);
    assert_eq!(count(&brain, &["."], "b"), 1);
    assert_eq!(count(&brain, &["."], "d"), 1);
}

#[test]
fn train_counts_repeats() {
    let mut brain = Brain::new();
    brain.train("-a-a-a-b");
    assert_eq!(count(&brain, &["-"], "a"), 3);
    assert_eq!(count(&brain, &["-"], "b"), 1);
    assert_eq!(count(&brain, &["a"], "-"), 3);
    assert_eq!(count(&brain, &["a", "-"], "a"), 2);
    assert_eq!(count(&brain, &["a", "-"], "b"), 1);
    assert_eq!(count(&brain, &["-", "a", "-", "a", "-"], "a"), 1);
    assert_eq!(count(&brain, &["-", "a", "-", "a", "-"], "b"), 1);
}

#[test]
fn train_on_empty_text_learns_nothing() {
    let mut brain = Brain::new();
    brain.train("");
    assert_eq!(brain.prompt("ab", 8), "ab");
    brain.train("one");
    assert_eq!(count(&brain, &["one"], "one"), 0);
    assert_eq!(brain.prompt("one", 8), "one");
}

#[test]
fn training_is_deterministic() {
    let text = "the cat sat on the mat, the cat ate.";
    let mut first = Brain::new();
    let mut second = Brain::new();
    first.train(text);
    second.train(text);
    let tokens = Brain::tokenize(text);
    for size in 1..=6 {
        for window in tokens.windows(size + 1) {
            let context = window[..size].to_vec();
            let next = &window[size];
            assert_eq!(
                first.table().count(&context, next),
                second.table().count(&context, next)
            );
            assert_eq!(first.table().count(&context, next) > 0, size <= 5);
        }
    }
    assert_eq!(count(&first, &["the"], " "), 3);
    assert_eq!(count(&first, &["the", " "], "cat"), 2);
    assert_eq!(count(&first, &["the", " "], "mat"), 1);
}

#[test]
fn training_again_replaces_what_was_learned() {
    let mut twice = Brain::new();
    twice.train("ab ab ab");
    twice.train("cd.cd");
    let mut once = Brain::new();
    once.train("cd.cd");
    assert_eq!(count(&twice, &["ab"], " "), 0);
    assert_eq!(count(&twice, &[" "], "ab"), 0);
    assert_eq!(count(&twice, &["ab", " "], "ab"), 0);
    for (context, next) in [
        (vec!["cd"], "."),
        (vec!["."], "cd"),
        (vec!["cd", "."], "cd"),
        (vec!["cd"], "cd"),
    ] {
        assert_eq!(count(&twice, &context, next), count(&once, &context, next));
    }
    assert_eq!(count(&twice, &["cd"], "."), 1);
    assert_eq!(twice.prompt("ab", 4), "ab");
}

#[test]
fn training_twice_on_one_text_does_not_add_up() {
    let mut brain = Brain::new();
    brain.train("ab ab ab");
    brain.train("ab ab ab");
    assert_eq!(count(&brain, &["ab"], " "), 2);
}

#[test]
fn untrained_model_gives_the_prompt_back() {
    let brain = Brain::new();
    assert_eq!(brain.prompt("Hello, World!", 256), "Hello, World!");
    assert_eq!(brain.prompt("", 256), "");
}

#[test]
fn prompt_as_long_as_the_target_comes_back_unchanged() {
    let mut brain = Brain::new();
    brain.train("ab ab ab");
    assert_eq!(brain.prompt("ab ab", 3), "ab ab");
    assert_eq!(brain.prompt("ab ab", 2), "ab ab");
    assert_eq!(brain.prompt("ab ab", 0), "ab ab");
}

#[test]
fn single_successor_is_chosen_every_time() {
    let mut brain = Brain::new();
    brain.train("ab ab ab");
    for _ in 0..50 {
        assert_eq!(brain.prompt("ab", 2), "ab ");
        assert_eq!(brain.prompt("ab", 4), "ab ab ");
    }
}

#[test]
fn generation_stops_where_no_context_is_known() {
    let mut brain = Brain::new();
    brain.train("a.b");
    assert_eq!(brain.prompt("a", 256), "a.b");
    assert_eq!(brain.prompt("b", 256), "b");
    assert_eq!(brain.prompt("zzz", 256), "zzz");
}

#[test]
fn generation_prefers_the_longest_context() {
    let mut brain = Brain::new();
    brain.train("x.a!y.b");
    for _ in 0..50 {
        assert_eq!(brain.prompt("x.", 3), "x.a");
        assert_eq!(brain.prompt("y.", 3), "y.b");
    }
}

#[test]
fn generation_is_bounded_by_the_target_length() {
    let mut brain = Brain::new();
    brain.train("ab ab ab ab ab ab ab ab ab");
    for length in 0..20 {
        let reply = brain.prompt("ab", length);
        let tokens = Brain::tokenize(&reply);
        assert!(tokens.len() <= length.max(1));
        assert_eq!(tokens.len(), length.max(1));
        assert!(reply.starts_with("ab"));
    }
}

#[test]
fn the_table_of_the_model_continues_tokens() {
    let mut brain = Brain::new();
    brain.train("ab ab ab");
    let out = brain.table().complete(strings(&["ab"]), 4);
    assert_eq!(out, strings(&["ab", " ", "ab", " "]));
    let out = brain.table().complete(strings(&["ab", " ", "ab"]), 2);
    assert_eq!(out, strings(&["ab", " ", "ab"]));
    let out = brain.table().complete(Vec::new(), 4);
    assert_eq!(out, Vec::<String>::new());
}

#[test]
fn every_generated_token_followed_its_context_in_training() {
    let mut brain = Brain::new();
    brain.train("the cat sat on the mat. the dog sat on the log. the cat ate the dog.");
    for _ in 0..20 {
        let out = brain.table().complete(strings(&["the"]), 40);
        assert!(out.len() <= 40);
        for k in 1..out.len() {
            let known = (1..=5usize.min(k)).rev().find_map(|size| {
                let context = out[k - size..k].to_vec();
                let seen = Brain::tokenize("the cat sat on the mat. the dog sat on the log. the cat ate the dog.")
                    .windows(size + 1)
                    .any(|window| window[..size] == context[..]);
                if seen {
                    Some(context)
                } else {
                    None
                }
            });
            let context = known.expect("a generated token has a known context");
            assert!(brain.table().count(&context, &out[k]) > 0);
        }
    }
}

#[test]
fn weighted_choice_follows_the_counts() {
    let mut brain = Brain::new();
    brain.train("-a-a-a-b");
    let trials = 4000;
    let mut a = 0;
    let mut b = 0;
    for _ in 0..trials {
        let reply = brain.prompt("-", 2);
        if reply == "-a" {
            a += 1;
        } else if reply == "-b" {
            b += 1;
        } else {
            panic!("unexpected reply {:?}", reply);
        }
    }
    assert_eq!(a + b, trials);
    let share = a as f64 / trials as f64;
    assert!(share > 0.70 && share < 0.80, "share of a was {}", share);
    assert!(b > 0);
}

#[test]
fn train_on_a_long_text() {
    let words = [
        "the", "cat", "sat", "on", "a", "mat", "and", "dog", "ate", "its", "bone", "while",
        "rain", "fell", "over", "town",
    ];
    let mut text = String::new();
    let mut state: usize = 12345;
    for k in 0..40000 {
        state = state.wrapping_mul(1103515245).wrapping_add(12345) % 2147483648;
        text.push_str(words[(state / 65536) % words.len()]);
        text.push_str(if k % 11 == 10 { ". " } else { " " });
    }
    let mut brain = Brain::new();
    brain.train(&text);
    let tokens = Brain::tokenize(&text);
    assert!(tokens.len() > 80000);
    let spaces = tokens.iter().filter(|token| token.as_str() == " ").count();
    let after_the: usize = words
        .iter()
        .map(|word| count(&brain, &["the", " "], word))
        .sum();
    let the = tokens.iter().filter(|token| token.as_str() == "the").count();
    let the_then_dot = tokens
        .windows(2)
        .filter(|pair| pair[0] == "the" && pair[1] == ".")
        .count();
    let the_at_end = if tokens[tokens.len() - 2] == "the" { 1 } else { 0 };
    assert_eq!(after_the, the - the_then_dot - the_at_end);
    let after_space: usize = words.iter().map(|word| count(&brain, &[" "], word)).sum();
    assert_eq!(after_space, spaces - 1);
    let reply = brain.prompt("the cat", 256);
    assert_eq!(Brain::tokenize(&reply).len(), 256);
    assert!(reply.starts_with("the cat"));
}
