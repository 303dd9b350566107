use wordgen::{Analyzer, Dictionary, FrequencyTable, Model, Successors};

fn pairs_of(table: &FrequencyTable) -> Vec<(char, char, usize)> {
    let mut out = Vec::new();
    for i in 0..table.len() {
        let main = table.key_at(i);
        let row = table.successors(main).expect("a key has a row");
        for &(next, n) in row.entries() {
            out.push((main, next, n));
        }
    }
    out
}

#[test]
fn abcab_counts_each_adjacent_pair() {
    let mut table = FrequencyTable::new();
    table.analyze("abcab");
    assert_eq!(table.count('a', 'b'), 2);
    assert_eq!(table.count('b', 'c'), 1);
    assert_eq!(table.count('c', 'a'), 1);
    assert_eq!(pairs_of(&table), vec![('a', 'b', 2), ('b', 'c', 1), ('c', 'a', 1)]);
    assert_eq!(table.observed_pairs(), 4);
}

#[test]
fn pairs_are_directed() {
    let mut table = FrequencyTable::new();
    table.analyze("ab");
    assert_eq!(table.count('a', 'b'), 1);
    assert_eq!(table.count('b', 'a'), 0);
    assert!(table.contains_key('a'));
    assert!(!table.contains_key('b'));
}

#[test]
fn single_character_word_adds_nothing() {
    let mut table = FrequencyTable::new();
    table.analyze("a");
    assert!(table.is_empty());
    assert_eq!(table.len(), 0);
    assert_eq!(table.observed_pairs(), 0);
    assert_eq!(table.count('a', 'a'), 0);
}

#[test]
fn empty_word_adds_nothing() {
    let mut table = FrequencyTable::new();
    table.analyze("");
    assert!(table.is_empty());
    assert_eq!(table.observed_pairs(), 0);
    table.analyze("xy");
    table.analyze("");
    assert_eq!(pairs_of(&table), vec![('x', 'y', 1)]);
}

#[test]
fn new_table_is_empty() {
    let table = FrequencyTable::new();
    assert!(table.is_empty());
    assert_eq!(table.len(), 0);
    assert!(!table.contains_key('a'));
    assert!(table.successors('a').is_none());
    assert!(table.continuations('a').is_empty());
}

#[test]
fn repeated_character_counts_itself() {
    let mut table = FrequencyTable::new();
    table.analyze("aaaa");
    assert_eq!(pairs_of(&table), vec![('a', 'a', 3)]);
    assert_eq!(table.observed_pairs(), 3);
}

#[test]
fn order_of_words_does_not_change_the_table() {
    let words = ["anna", "bob", "carla", "dan", "banana"];
    let mut forward = FrequencyTable::new();
    for w in words.iter() {
        forward.new_word(w);
    }
    let mut backward = FrequencyTable::new();
    for w in words.iter().rev() {
        backward.new_word(w);
    }
    let mut shuffled = FrequencyTable::new();
    shuffled.new_words(vec![
        "carla".to_string(),
        "banana".to_string(),
        "anna".to_string(),
        "dan".to_string(),
        "bob".to_string(),
    ]);
    assert_eq!(pairs_of(&forward), pairs_of(&backward));
    assert_eq!(pairs_of(&forward), pairs_of(&shuffled));
    assert_eq!(forward.observed_pairs(), 3 + 2 + 4 + 2 + 5);
    assert_eq!(forward.count('a', 'n'), 4);
    assert_eq!(forward.count('n', 'a'), 3);
}

#[test]
fn taking_a_word_in_twice_doubles_its_counts() {
    let mut once = FrequencyTable::new();
    once.analyze("abcab");
    let mut twice = FrequencyTable::new();
    twice.analyze("abcab");
    twice.analyze("abcab");
    let single = pairs_of(&once);
    let double = pairs_of(&twice);
    assert_eq!(single.len(), double.len());
    for (s, d) in single.iter().zip(double.iter()) {
        assert_eq!((s.0, s.1), (d.0, d.1));
        assert_eq!(d.2, 2 * s.2);
    }
    assert_eq!(twice.count('a', 'b'), 4);
    assert_eq!(twice.observed_pairs(), 8);
}

#[test]
fn keys_come_in_ascending_order() {
    let mut table = FrequencyTable::new();
    table.analyze("zy");
    table.analyze("ma");
    table.analyze("ab");
    assert_eq!(table.len(), 3);
    assert_eq!(table.key_at(0), 'a');
    assert_eq!(table.key_at(1), 'm');
    assert_eq!(table.key_at(2), 'z');
}

#[test]
fn characters_are_not_folded() {
    let mut table = FrequencyTable::new();
    table.analyze("AaA");
    assert_eq!(table.count('A', 'a'), 1);
    assert_eq!(table.count('a', 'A'), 1);
    assert_eq!(table.count('a', 'a'), 0);
    table.analyze("éé");
    assert_eq!(table.count('é', 'é'), 1);
}

#[test]
fn new_words_takes_each_word_in() {
    let mut model = Model::with_seed(1);
    model.new_words(vec!["ab".to_string(), "abc".to_string(), "x".to_string()]);
    let table = model.frequencies();
    assert_eq!(pairs_of(table), vec![('a', 'b', 2), ('b', 'c', 1)]);
    assert_eq!(table.observed_pairs(), 3);
}

#[test]
fn new_words_of_nothing_changes_nothing() {
    let mut model = Model::with_seed(1);
    model.new_word("ab");
    model.new_words(Vec::new());
    assert_eq!(pairs_of(model.frequencies()), vec![('a', 'b', 1)]);
}

#[test]
fn single_row_holds_one_observation() {
    let row = Successors::single('q');
    assert_eq!(row.entries(), &vec![('q', 1)]);
    assert_eq!(row.total(), 1);
    assert_eq!(row.count('q'), 1);
    assert_eq!(row.count('r'), 0);
}

#[test]
fn bump_keeps_entries_ascending_and_sums_up() {
    let mut row = Successors::single('m');
    row.bump('z');
    row.bump('a');
    row.bump('m');
    row.bump('m');
    assert_eq!(row.entries(), &vec![('a', 1), ('m', 3), ('z', 1)]);
    assert_eq!(row.total(), 5);
    assert_eq!(row.count('m'), 3);
}

#[test]
fn get_char_lends_the_row_of_a_key_only() {
    let mut table = FrequencyTable::new();
    table.analyze("ab");
    assert!(table.get_char('b').is_none());
    match table.get_char('a') {
        Some(row) => row.bump('c'),
        None => panic!("the row of a key is lent"),
    }
    assert_eq!(pairs_of(&table), vec![('a', 'b', 1), ('a', 'c', 1)]);
    assert_eq!(table.observed_pairs(), 2);
}

#[test]
fn insert_char_sets_or_replaces_a_row() {
    let mut model = Model::with_seed(3);
    model.insert_char('k', Successors::single('l'));
    assert_eq!(model.frequencies().count('k', 'l'), 1);
    let mut row = Successors::single('x');
    row.bump('x');
    model.insert_char('k', row);
    assert_eq!(pairs_of(model.frequencies()), vec![('k', 'x', 2)]);
    assert_eq!(model.frequencies().observed_pairs(), 2);
    model.insert_char('b', Successors::single('k'));
    assert_eq!(model.frequencies().key_at(0), 'b');
    assert_eq!(model.frequencies().observed_pairs(), 3);
}

#[test]
fn model_and_table_train_alike() {
    let mut model = Model::with_seed(9);
    let mut table = FrequencyTable::new();
    for w in ["hello", "world", "held"] {
        model.analyze(w);
        table.analyze(w);
    }
    assert_eq!(pairs_of(model.frequencies()), pairs_of(&table));
}

#[test]
fn continuations_keep_only_successors_that_are_keys() {
    let mut table = FrequencyTable::new();
    table.analyze("abd");
    table.analyze("ac");
    table.analyze("ab");
    table.analyze("ca");
    assert_eq!(table.continuations('a'), vec![('b', 2), ('c', 1)]);
    assert_eq!(table.continuations('b'), Vec::<(char, usize)>::new());
    assert_eq!(table.continuations('c'), vec![('a', 1)]);
    assert_eq!(table.continuations('q'), Vec::<(char, usize)>::new());
    assert_eq!(table.successors('b').unwrap().entries(), &vec![('d', 1)]);
}
