use wordgen::{Analyzer, FrequencyTable, GenerateError, Model};

fn trained(seed: u64) -> Model {
    let mut model = Model::with_seed(seed);
    for w in ["anna", "hannah", "johanna", "nathan", "jonathan", "ethan", "tanja", "joan"] {
        model.new_word(w);
    }
    model
}

fn assert_walk(table: &FrequencyTable, word: &str) {
    let chars: Vec<char> = word.chars().collect();
    assert!(chars.len() >= 2);
    assert!(table.contains_key(chars[0]));
    for i in 1..chars.len() - 1 {
        assert!(table.contains_key(chars[i]), "{word}: {} is no key", chars[i]);
        if !table.continuations(chars[i - 1]).is_empty() {
            assert!(table.count(chars[i - 1], chars[i]) > 0, "{word}: step {i}");
        }
    }
    let n = chars.len();
    assert!(table.count(chars[n - 2], chars[n - 1]) > 0, "{word}: end");
}

#[test]
fn random_word_has_the_length_asked_for() {
    let mut model = trained(7);
    for length in 2..40 {
        let word = model.random_word(length).unwrap();
        assert_eq!(word.chars().count(), length);
    }
}

#[test]
fn random_word_walks_the_table() {
    let mut model = trained(11);
    for round in 0..200 {
        let word = model.random_word(2 + round % 9).unwrap();
        assert_walk(model.frequencies(), &word);
    }
}

#[test]
fn random_word_of_two_is_an_observed_pair() {
    let mut model = trained(5);
    for _ in 0..100 {
        let word = model.random_word(2).unwrap();
        let chars: Vec<char> = word.chars().collect();
        assert_eq!(chars.len(), 2);
        assert!(model.frequencies().count(chars[0], chars[1]) > 0);
    }
}

#[test]
fn random_word_on_untrained_model_fails() {
    let mut model = Model::with_seed(1);
    assert_eq!(model.random_word(5), Err(GenerateError::EmptyModel));
    assert_eq!(model.random_word(2), Err(GenerateError::EmptyModel));
    assert_eq!(model.random_word(0), Err(GenerateError::EmptyModel));
    let mut fresh = Model::new();
    assert_eq!(fresh.random_word(6), Err(GenerateError::EmptyModel));
}

#[test]
fn words_without_pairs_leave_the_model_untrained() {
    let mut model = Model::with_seed(1);
    model.new_word("a");
    model.new_word("");
    assert_eq!(model.random_word(3), Err(GenerateError::EmptyModel));
}

#[test]
fn random_word_below_two_characters_fails() {
    let mut model = trained(2);
    assert_eq!(model.random_word(0), Err(GenerateError::InvalidLength));
    assert_eq!(model.random_word(1), Err(GenerateError::InvalidLength));
    assert!(model.random_word(2).is_ok());
}

#[test]
fn range_six_to_ten_gives_six_to_nine_characters() {
    let mut model = trained(13);
    let mut seen = [false; 4];
    for _ in 0..400 {
        let word = model.random_word_with_range(6..10).unwrap();
        let n = word.chars().count();
        assert!((6..10).contains(&n), "length {n}");
        seen[n - 6] = true;
        assert_walk(model.frequencies(), &word);
    }
    assert_eq!(seen, [true; 4]);
}

#[test]
fn range_of_one_length_gives_that_length() {
    let mut model = trained(17);
    for _ in 0..20 {
        assert_eq!(model.random_word_with_range(4..5).unwrap().chars().count(), 4);
    }
}

#[test]
fn empty_range_is_an_invalid_length() {
    let mut model = trained(19);
    assert_eq!(model.random_word_with_range(5..5), Err(GenerateError::InvalidLength));
    assert_eq!(model.random_word_with_range(9..3), Err(GenerateError::InvalidLength));
}

#[test]
fn range_below_two_is_an_invalid_length() {
    let mut model = trained(23);
    assert_eq!(model.random_word_with_range(0..2), Err(GenerateError::InvalidLength));
    assert_eq!(model.random_word_with_range(1..2), Err(GenerateError::InvalidLength));
}

#[test]
fn range_on_untrained_model_fails() {
    let mut model = Model::with_seed(29);
    assert_eq!(model.random_word_with_range(6..10), Err(GenerateError::EmptyModel));
    assert_eq!(model.random_word_with_range(6..6), Err(GenerateError::EmptyModel));
    assert_eq!(model.random_words_with_range(6..10, 3), Err(GenerateError::EmptyModel));
}

#[test]
fn random_words_gives_count_words_of_the_length() {
    let mut model = trained(31);
    let words = model.random_words(7, 25).unwrap();
    assert_eq!(words.len(), 25);
    for w in &words {
        assert_eq!(w.chars().count(), 7);
        assert_walk(model.frequencies(), w);
    }
}

#[test]
fn random_words_of_none_is_empty() {
    let mut model = Model::with_seed(37);
    assert_eq!(model.random_words(5, 0), Ok(Vec::new()));
    assert_eq!(model.random_words_with_range(5..9, 0), Ok(Vec::new()));
    assert_eq!(model.random_words(5, 1), Err(GenerateError::EmptyModel));
    let mut ready = trained(37);
    assert_eq!(ready.random_words(1, 0), Ok(Vec::new()));
    assert_eq!(ready.random_words(1, 2), Err(GenerateError::InvalidLength));
}

#[test]
fn random_words_with_range_stays_in_the_range() {
    let mut model = trained(41);
    let words = model.random_words_with_range(3..6, 60).unwrap();
    assert_eq!(words.len(), 60);
    for w in &words {
        let n = w.chars().count();
        assert!((3..6).contains(&n));
        assert_walk(model.frequencies(), w);
    }
}

#[test]
fn same_seed_same_words() {
    let mut one = trained(2024);
    let mut other = trained(2024);
    for length in 2..20 {
        assert_eq!(one.random_word(length), other.random_word(length));
    }
    assert_eq!(one.random_words_with_range(6..10, 50), other.random_words_with_range(6..10, 50));
    assert_eq!(one.first_char(), other.first_char());
    assert_eq!(one.random_char('a'), other.random_char('a'));
    assert_eq!(one.last_char('n'), other.last_char('n'));
}

#[test]
fn same_seed_same_words_whatever_the_order_of_training() {
    let mut one = Model::with_seed(77);
    let mut other = Model::with_seed(77);
    for w in ["anna", "bob", "nathan"] {
        one.new_word(w);
    }
    for w in ["nathan", "anna", "bob"] {
        other.new_word(w);
    }
    assert_eq!(one.random_words(8, 30), other.random_words(8, 30));
}

#[test]
fn different_seeds_give_different_words() {
    let mut one = trained(1);
    let mut other = trained(2);
    assert_ne!(one.random_words(12, 20), other.random_words(12, 20));
}

#[test]
fn first_char_is_a_key() {
    let mut model = trained(43);
    for _ in 0..100 {
        let c = model.first_char().unwrap();
        assert!(model.frequencies().contains_key(c));
    }
    let mut none = Model::with_seed(43);
    assert_eq!(none.first_char(), Err(GenerateError::EmptyModel));
}

#[test]
fn first_char_reaches_every_key() {
    let mut model = Model::with_seed(47);
    model.new_word("abca");
    let mut seen = [false; 3];
    for _ in 0..200 {
        match model.first_char().unwrap() {
            'a' => seen[0] = true,
            'b' => seen[1] = true,
            'c' => seen[2] = true,
            other => panic!("{other} is no key"),
        }
    }
    assert_eq!(seen, [true; 3]);
}

#[test]
fn random_char_goes_on_to_keys_only() {
    let mut model = Model::with_seed(53);
    model.new_word("abd");
    model.new_word("ac");
    model.new_word("ca");
    for _ in 0..100 {
        let next = model.random_char('a').unwrap();
        assert!(next == 'b' || next == 'c');
    }
    assert_eq!(model.random_char('b'), None);
    assert_eq!(model.random_char('c'), Some('a'));
    assert_eq!(model.random_char('d'), None);
    assert_eq!(model.random_char('z'), None);
}

#[test]
fn random_char_follows_the_weights() {
    let mut model = Model::with_seed(59);
    for _ in 0..99 {
        model.new_word("ab");
    }
    model.new_word("ac");
    model.new_word("ba");
    model.new_word("ca");
    let mut b = 0;
    let mut c = 0;
    for _ in 0..2000 {
        match model.random_char('a') {
            Some('b') => b += 1,
            Some('c') => c += 1,
            other => panic!("unexpected {other:?}"),
        }
    }
    assert!(b > 1800, "b chosen {b} times");
    assert!(c > 0 && c < 200, "c chosen {c} times");
}

#[test]
fn last_char_is_any_successor() {
    let mut model = Model::with_seed(61);
    model.new_word("abd");
    model.new_word("ac");
    assert_eq!(model.last_char('b'), Some('d'));
    assert_eq!(model.last_char('d'), None);
    let mut seen = [false; 2];
    for _ in 0..100 {
        match model.last_char('a') {
            Some('b') => seen[0] = true,
            Some('c') => seen[1] = true,
            other => panic!("unexpected {other:?}"),
        }
    }
    assert_eq!(seen, [true; 2]);
}

#[test]
fn middle_char_starts_afresh_where_the_walk_cannot_go_on() {
    let mut model = Model::with_seed(67);
    model.new_word("ab");
    assert_eq!(model.middle_char('a'), Ok('a'));
    assert_eq!(model.middle_char('b'), Ok('a'));
    assert_eq!(model.middle_char('z'), Ok('a'));
    let mut none = Model::with_seed(67);
    assert_eq!(none.middle_char('a'), Err(GenerateError::EmptyModel));
}

#[test]
fn single_pair_model_spells_its_only_walks() {
    let mut model = Model::with_seed(71);
    model.new_word("ab");
    assert_eq!(model.random_word(2), Ok("ab".to_string()));
    assert_eq!(model.random_word(3), Ok("aab".to_string()));
    assert_eq!(model.random_word(6), Ok("aaaaab".to_string()));
    assert_eq!(model.random_words(4, 2), Ok(vec!["aaab".to_string(), "aaab".to_string()]));
}

#[test]
fn cycle_model_spells_the_cycle() {
    let mut model = Model::with_seed(73);
    model.new_word("aba");
    for _ in 0..20 {
        let word = model.random_word(7).unwrap();
        assert!(word == "abababa" || word == "bababab", "{word}");
    }
}

#[test]
fn generation_leaves_the_table_alone() {
    let mut model = trained(79);
    let before = model.frequencies().observed_pairs();
    let keys = model.frequencies().len();
    let _ = model.random_words(9, 40);
    let _ = model.random_word_with_range(2..30);
    assert_eq!(model.frequencies().observed_pairs(), before);
    assert_eq!(model.frequencies().len(), keys);
}

#[test]
fn system_seeded_model_generates_too() {
    let mut model = Model::new();
    model.new_word("banana");
    for _ in 0..50 {
        let word = model.random_word_with_range(2..12).unwrap();
        assert_walk(model.frequencies(), &word);
    }
}

#[test]
fn room_for_ordinary_words() {
    let mut model = Model::with_seed(83);
    assert!(model.room_for("banana"));
    assert!(model.room_for(""));
    assert!(model.room_for_all(&vec!["anna".to_string(), "bob".to_string()]));
    model.new_word("banana");
    assert!(model.frequencies().room_for("anna"));
    assert!(model.frequencies().room_for_all(&Vec::new()));
}
