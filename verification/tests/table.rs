use chatgpt_at_home::Table;

fn strings(tokens: &[&str]) -> Vec<String> {
    tokens.iter().map(|token| token.to_string()).collect()
}

fn count(table: &Table, context: &[&str], next: &str) -> usize {
    table.count(&strings(context), &next.to_string())
}

#[test]
fn new_table_holds_no_counts() {
    let table = Table::new();
    assert_eq!(count(&table, &["a"], "b"), 0);
    assert_eq!(count(&Table::default(), &["a"], "b"), 0);
}

#[test]
fn learn_counts_each_token_under_each_context_before_it() {
    let mut table = Table::new();
    table.learn(&strings(&["a", "b", "a", "b", "c"]));
    assert_eq!(count(&table, &["a"], "b"), 2);
    assert_eq!(count(&table, &["b"], "a"), 1);
    assert_eq!(count(&table, &["b"], "c"), 1);
    assert_eq!(count(&table, &["a", "b"], "a"), 1);
    assert_eq!(count(&table, &["a", "b"], "c"), 1);
    assert_eq!(count(&table, &["b", "a"], "b"), 1);
    assert_eq!(count(&table, &["a", "b", "a"], "b"), 1);
    assert_eq!(count(&table, &["b", "a", "b"], "c"), 1);
    assert_eq!(count(&table, &["a", "b", "a", "b"], "c"), 1);
    assert_eq!(count(&table, &["c"], "a"), 0);
    assert_eq!(count(&table, &["a"], "a"), 0);
    assert_eq!(count(&table, &[], "a"), 0);
}

#[test]
fn learn_counts_contexts_of_five_tokens_and_no_longer() {
    let mut table = Table::new();
    table.learn(&strings(&["1", "2", "3", "4", "5", "6", "7"]));
    assert_eq!(count(&table, &["2", "3", "4", "5", "6"], "7"), 1);
    assert_eq!(count(&table, &["1", "2", "3", "4", "5"], "6"), 1);
    assert_eq!(count(&table, &["1", "2", "3", "4", "5", "6"], "7"), 0);
    assert_eq!(count(&table, &["6"], "7"), 1);
}

#[test]
fn learn_counts_a_token_that_repeats() {
    let mut table = Table::new();
    table.learn(&strings(&["x", "x", "x", "x"]));
    assert_eq!(count(&table, &["x"], "x"), 3);
    assert_eq!(count(&table, &["x", "x"], "x"), 2);
    assert_eq!(count(&table, &["x", "x", "x"], "x"), 1);
    assert_eq!(count(&table, &["x", "x", "x", "x"], "x"), 0);
}

#[test]
fn learn_tells_contexts_apart_that_read_alike() {
    let mut table = Table::new();
    table.learn(&strings(&["ab", "c", "a", "b", "d", "a", "b", "d", "ab", "c"]));
    assert_eq!(count(&table, &["ab"], "c"), 2);
    assert_eq!(count(&table, &["ab"], "d"), 0);
    assert_eq!(count(&table, &["a", "b"], "d"), 2);
    assert_eq!(count(&table, &["a", "b"], "c"), 0);
    assert_eq!(count(&table, &["a"], "b"), 2);
    assert_eq!(count(&table, &["d", "ab"], "c"), 1);
    assert_eq!(count(&table, &["d", "a", "b"], "d"), 1);
}

#[test]
fn learn_takes_empty_tokens_as_they_come() {
    let mut table = Table::new();
    table.learn(&strings(&["", "a", "", "a"]));
    assert_eq!(count(&table, &[""], "a"), 2);
    assert_eq!(count(&table, &["a"], ""), 1);
    assert_eq!(count(&table, &["", "a"], ""), 1);
    assert_eq!(count(&table, &["a", ""], "a"), 1);
    assert_eq!(count(&table, &["a"], "a"), 0);
}

#[test]
fn learn_forgets_what_was_learned_before() {
    let mut table = Table::new();
    table.learn(&strings(&["a", "b", "a", "b"]));
    table.learn(&strings(&["c", "d"]));
    assert_eq!(count(&table, &["a"], "b"), 0);
    assert_eq!(count(&table, &["b"], "a"), 0);
    assert_eq!(count(&table, &["c"], "d"), 1);
    table.learn(&Vec::new());
    assert_eq!(count(&table, &["c"], "d"), 0);
}

#[test]
fn complete_follows_the_only_path() {
    let mut table = Table::new();
    table.learn(&strings(&["a", "b", "c", "d"]));
    assert_eq!(table.complete(strings(&["a"]), 10), strings(&["a", "b", "c", "d"]));
    assert_eq!(table.complete(strings(&["a"]), 3), strings(&["a", "b", "c"]));
    assert_eq!(table.complete(strings(&["a"]), 1), strings(&["a"]));
    assert_eq!(table.complete(strings(&["a"]), 0), strings(&["a"]));
    assert_eq!(table.complete(strings(&["d"]), 10), strings(&["d"]));
    assert_eq!(table.complete(strings(&["q"]), 10), strings(&["q"]));
    assert_eq!(table.complete(Vec::new(), 10), Vec::<String>::new());
}

#[test]
fn complete_backs_off_to_a_shorter_context() {
    let mut table = Table::new();
    table.learn(&strings(&["a", "b", "c"]));
    assert_eq!(
        table.complete(strings(&["z", "a"]), 4),
        strings(&["z", "a", "b", "c"])
    );
    assert_eq!(
        table.complete(strings(&["z", "y", "x", "w", "v", "b"]), 7),
        strings(&["z", "y", "x", "w", "v", "b", "c"])
    );
}

#[test]
fn complete_goes_by_the_longest_context() {
    let mut table = Table::new();
    table.learn(&strings(&["x", "m", "a", "!", "y", "m", "b"]));
    for _ in 0..50 {
        assert_eq!(table.complete(strings(&["x", "m"]), 3), strings(&["x", "m", "a"]));
        assert_eq!(table.complete(strings(&["y", "m"]), 3), strings(&["y", "m", "b"]));
        let out = table.complete(strings(&["m"]), 2);
        assert!(out == strings(&["m", "a"]) || out == strings(&["m", "b"]));
    }
}

#[test]
fn complete_goes_round_a_cycle_up_to_the_length() {
    let mut table = Table::new();
    table.learn(&strings(&["a", "b", "a", "b", "a"]));
    for length in 1..30 {
        let out = table.complete(strings(&["a"]), length);
        assert_eq!(out.len(), length);
        for (k, token) in out.iter().enumerate() {
            assert_eq!(token, if k % 2 == 0 { "a" } else { "b" });
        }
    }
}

#[test]
fn complete_draws_every_successor_sooner_or_later() {
    let mut table = Table::new();
    table.learn(&strings(&["s", "a", "s", "b", "s", "c", "s", "a"]));
    let mut seen = [0usize; 3];
    for _ in 0..2000 {
        let out = table.complete(strings(&["s"]), 2);
        match out[1].as_str() {
            "a" => seen[0] += 1,
            "b" => seen[1] += 1,
            "c" => seen[2] += 1,
            other => panic!("unexpected token {:?}", other),
        }
    }
    assert!(seen[0] > seen[1] && seen[0] > seen[2]);
    assert!(seen[1] > 0 && seen[2] > 0);
    let share = seen[0] as f64 / 2000.0;
    assert!(share > 0.43 && share < 0.57, "share of a was {}", share);
}
