use markov_text::listing::state_table_text;
use markov_text::order::ModelError;
use markov_text::table::{generate_state_table, StateTable};

fn table_of(sample: &str, order: usize) -> StateTable {
    generate_state_table(sample, order).expect("the sample admits the order")
}

fn keys_of(table: &StateTable) -> Vec<String> {
    let mut keys: Vec<String> = Vec::new();
    let mut position: usize = 0;
    while let Some(key) = table.key(position) {
        keys.push(key);
        position += 1;
    }
    keys
}

fn successors_of(table: &StateTable, key: &str) -> Vec<String> {
    table.successors(key).expect("a key of the table")
}

fn sorted(mut list: Vec<String>) -> Vec<String> {
    list.sort();
    list
}

fn texts(list: &[&str]) -> Vec<String> {
    list.iter().map(|text| text.to_string()).collect()
}

#[test]
fn single_characters_record_every_follower_in_order() {
    let table = table_of("aa ba bbaac abc", 1);
    assert_eq!(successors_of(&table, "a"), texts(&["a", " ", " ", "a", "c", "b"]));
    assert_eq!(successors_of(&table, " "), texts(&["b", "b", "a"]));
    assert_eq!(successors_of(&table, "b"), texts(&["a", "b", "a", "c"]));
    assert_eq!(successors_of(&table, "c"), texts(&[" "]));
}

#[test]
fn single_characters_keep_each_follower_as_often_as_it_follows() {
    let table = table_of("aa ba bbaac abc", 1);
    assert_eq!(
        sorted(successors_of(&table, "a")),
        sorted(texts(&["a", " ", "a", "b", "c", " "]))
    );
}

#[test]
fn keys_stand_in_order_of_first_appearance() {
    let table = table_of("aa ba bbaac abc", 1);
    assert_eq!(table.len(), 4);
    assert_eq!(table.order(), 1);
    assert_eq!(keys_of(&table), texts(&["a", " ", "b", "c"]));
    assert_eq!(table.key(4), None);
}

#[test]
fn pairs_of_abab() {
    let table = table_of("abab", 2);
    assert_eq!(keys_of(&table), texts(&["ab", "ba", "b"]));
    assert_eq!(successors_of(&table, "ab"), texts(&["ab"]));
    assert_eq!(successors_of(&table, "ba"), texts(&["b"]));
    assert_eq!(successors_of(&table, "b"), texts(&[]));
}

#[test]
fn trailing_groupings_are_shorter_and_end_the_sample() {
    let table = table_of("abcdef", 3);
    assert_eq!(keys_of(&table), texts(&["abc", "def", "bcd", "ef", "cde", "f"]));
    assert_eq!(successors_of(&table, "abc"), texts(&["def"]));
    assert_eq!(successors_of(&table, "bcd"), texts(&["ef"]));
    assert_eq!(successors_of(&table, "cde"), texts(&["f"]));
    assert_eq!(successors_of(&table, "def"), texts(&[]));
    assert_eq!(successors_of(&table, "ef"), texts(&[]));
    assert_eq!(successors_of(&table, "f"), texts(&[]));
}

#[test]
fn every_successor_has_full_width_or_is_a_suffix() {
    let sample = "the theory of the thing then thins";
    let mut order: usize = 1;
    while order < 6 {
        let table = table_of(sample, order);
        for key in keys_of(&table) {
            for successor in successors_of(&table, &key) {
                let width = successor.chars().count();
                assert!(width >= 1 && width <= order);
                if width < order {
                    assert!(sample.ends_with(&successor));
                }
            }
        }
        order += 1;
    }
}

#[test]
fn sources_have_successors_and_successors_are_keys() {
    let sample = "abracadabra";
    let table = table_of(sample, 2);
    let keys = keys_of(&table);
    let mut offset: usize = 2;
    while offset < sample.len() {
        let source = &sample[offset - 2..offset];
        assert!(!successors_of(&table, source).is_empty());
        offset += 1;
    }
    for key in &keys {
        for successor in successors_of(&table, key) {
            assert!(keys.contains(&successor));
        }
    }
    assert_eq!(successors_of(&table, "ab"), texts(&["ra", "ra"]));
    assert_eq!(successors_of(&table, "ra"), texts(&["ca"]));
    assert_eq!(successors_of(&table, "a"), texts(&[]));
}

#[test]
fn a_grouping_between_the_sources_and_the_successors_is_no_key() {
    let table = table_of("abc", 2);
    assert_eq!(keys_of(&table), texts(&["ab", "c"]));
    assert_eq!(table.successors("bc"), None);
    assert_eq!(table.successors(""), None);
    assert_eq!(table.successors("abc"), None);
}

#[test]
fn a_repeated_character_is_one_key() {
    let table = table_of("aaaa", 1);
    assert_eq!(keys_of(&table), texts(&["a"]));
    assert_eq!(successors_of(&table, "a"), texts(&["a", "a", "a"]));
}

#[test]
fn the_smallest_sample() {
    let table = table_of("xy", 1);
    assert_eq!(keys_of(&table), texts(&["x", "y"]));
    assert_eq!(successors_of(&table, "x"), texts(&["y"]));
    assert_eq!(successors_of(&table, "y"), texts(&[]));
}

#[test]
fn units_are_characters() {
    let table = table_of("éàéà", 2);
    assert_eq!(keys_of(&table), texts(&["éà", "àé", "à"]));
    assert_eq!(successors_of(&table, "éà"), texts(&["éà"]));
    assert_eq!(successors_of(&table, "àé"), texts(&["à"]));
    assert_eq!(generate_state_table("éà", 2).unwrap_err(), ModelError::InvalidOrder);
}

#[test]
fn building_twice_gives_the_same_table() {
    let sample = "it was the best of times, it was the worst of times";
    let first = table_of(sample, 3);
    let second = table_of(sample, 3);
    assert_eq!(keys_of(&first), keys_of(&second));
    for key in keys_of(&first) {
        assert_eq!(first.successors(&key), second.successors(&key));
    }
    assert_eq!(state_table_text(&first), state_table_text(&second));
}

#[test]
fn an_order_of_the_sample_length_or_more_is_refused() {
    assert_eq!(generate_state_table("abab", 4).unwrap_err(), ModelError::InvalidOrder);
    assert_eq!(generate_state_table("abab", 5).unwrap_err(), ModelError::InvalidOrder);
    assert_eq!(generate_state_table("abab", usize::MAX).unwrap_err(), ModelError::InvalidOrder);
    assert_eq!(generate_state_table("a", 1).unwrap_err(), ModelError::InvalidOrder);
    assert!(generate_state_table("abab", 3).is_ok());
}

#[test]
fn an_order_of_zero_is_refused() {
    assert_eq!(generate_state_table("abab", 0).unwrap_err(), ModelError::InvalidOrder);
}

#[test]
fn an_empty_sample_is_refused_first() {
    assert_eq!(generate_state_table("", 0).unwrap_err(), ModelError::EmptySample);
    assert_eq!(generate_state_table("", 1).unwrap_err(), ModelError::EmptySample);
    assert_eq!(generate_state_table("", 7).unwrap_err(), ModelError::EmptySample);
}

#[test]
fn the_table_as_text() {
    assert_eq!(state_table_text(&table_of("abab", 2)), "\nab ->,ab\nba ->,b\nb ->");
    assert_eq!(state_table_text(&table_of("xyx", 1)), "\nx ->,y\ny ->,x");
}

#[test]
fn successors_are_counted_as_in_the_sample() {
    let sample: Vec<char> = "to be or not to be, that is the question; to be or to bet".chars().collect();
    let text: String = sample.iter().collect();
    let mut order: usize = 1;
    while order < 5 {
        let table = table_of(&text, order);
        for key in keys_of(&table) {
            let list = successors_of(&table, &key);
            for successor in &list {
                let recorded = list.iter().filter(|other| *other == successor).count();
                let mut followed: usize = 0;
                let mut offset: usize = order;
                while offset < sample.len() {
                    let source: String = sample[offset - order..offset].iter().collect();
                    let end = usize::min(offset + order, sample.len());
                    let next: String = sample[offset..end].iter().collect();
                    if source == key && next == *successor {
                        followed += 1;
                    }
                    offset += 1;
                }
                assert_eq!(recorded, followed);
            }
        }
        order += 1;
    }
}

#[test]
fn shorter_successors_come_last() {
    let table = table_of("aaaaaa", 3);
    assert_eq!(keys_of(&table), texts(&["aaa", "aa", "a"]));
    assert_eq!(successors_of(&table, "aaa"), texts(&["aaa", "aa", "a"]));
    let sample = "abcabcabcab";
    let wide = table_of(sample, 4);
    for key in keys_of(&wide) {
        let list = successors_of(&wide, &key);
        let mut at: usize = 1;
        while at < list.len() {
            assert!(list[at - 1].len() >= list[at].len());
            if list[at].len() < 4 {
                assert!(list[at - 1].len() > list[at].len());
            }
            at += 1;
        }
    }
}

#[test]
fn a_long_sample() {
    let mut sample = String::new();
    let mut round: usize = 0;
    while round < 400 {
        sample.push_str("the quick brown fox jumps over the lazy dog; ");
        round += 1;
    }
    let table = table_of(&sample, 3);
    assert_eq!(table.len(), 44);
    assert_eq!(table.key(43), Some(" ".to_string()));
    assert_eq!(successors_of(&table, " th").len(), 799);
    assert_eq!(successors_of(&table, "the").len(), 800);
    assert_eq!(successors_of(&table, "g; ").len(), 399);
    assert_eq!(successors_of(&table, "; "), texts(&[]));
}
