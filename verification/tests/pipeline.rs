use word_frequency::pipeline::{count_lines, read_and_count};
use word_frequency::ranker::sort_by_value;
use word_frequency::report::{render_counts, render_entry};
use word_frequency::table::{increment_word, CountTable};
use word_frequency::tally::count_words;
use word_frequency::tokenizer::{read_input, to_lower, tokenize};

fn owned(lines: &[&str]) -> Vec<String> {
    lines.iter().map(|line| (*line).to_owned()).collect()
}

fn pairs(ranked: &Vec<(&String, &usize)>) -> Vec<(String, usize)> {
    ranked.iter().map(|e| (e.0.clone(), *e.1)).collect()
}

#[test]
fn case_is_ignored() {
    let table = count_lines(&owned(&["Hello", "hello"]));
    assert_eq!(table.len(), 1);
    assert_eq!(table.get("hello"), Some(&2));
    assert_eq!(table.get("Hello"), None);
}

#[test]
fn splits_at_a_digit() {
    assert_eq!(tokenize("ab3cd"), owned(&["ab", "cd"]));
}

#[test]
fn trims_marks_at_both_ends() {
    assert_eq!(read_input(&owned(&["'...''hi...", ""])), owned(&["hi"]));
}

#[test]
fn splits_at_a_hyphen() {
    assert_eq!(tokenize("good-looking"), owned(&["good", "looking"]));
}

#[test]
fn nothing_left_after_trimming() {
    assert!(tokenize("...").is_empty());
    assert!(tokenize("'''").is_empty());
    assert!(tokenize("").is_empty());
    assert!(tokenize(" .'. ' ").is_empty());
}

#[test]
fn marks_inside_a_word_stay() {
    assert_eq!(tokenize("E.E.C.S. won't 'cause Smiths'"), owned(&["e.e.c.s", "won't", "cause", "smiths"]));
    assert_eq!(tokenize("a''.b"), owned(&["a''.b"]));
}

#[test]
fn code_points_beyond_ascii_separate() {
    assert_eq!(tokenize("caf\u{e9} na\u{ef}ve \u{212a}"), owned(&["caf", "na", "ve"]));
}

#[test]
fn to_lower_folds_ascii_letters_only() {
    assert_eq!(to_lower('A'), 'a');
    assert_eq!(to_lower('Z'), 'z');
    assert_eq!(to_lower('m'), 'm');
    assert_eq!(to_lower('@'), '@');
    assert_eq!(to_lower('['), '[');
    assert_eq!(to_lower('\u{c9}'), '\u{c9}');
}

#[test]
fn joined_lines_keep_their_words() {
    let apart = read_input(&owned(&["hi8 my", "name&is Kevin!!!!"]));
    let joined = tokenize("hi8 my\nname&is Kevin!!!!");
    assert_eq!(apart, joined);
}

#[test]
fn end_to_end() {
    let mut table = CountTable::new();
    let ranked = read_and_count(&mut table, &owned(&["two two", "three three three"]));
    assert_eq!(pairs(&ranked), vec![("three".to_owned(), 3), ("two".to_owned(), 2)]);
    assert_eq!(table.len(), 2);
    assert_eq!(table.get("two"), Some(&2));
    assert_eq!(table.get("three"), Some(&3));
}

#[test]
fn end_to_end_tie() {
    let mut table = CountTable::new();
    let ranked = read_and_count(&mut table, &owned(&["a b"]));
    let mut got = pairs(&ranked);
    got.sort();
    assert_eq!(got, vec![("a".to_owned(), 1), ("b".to_owned(), 1)]);
}

#[test]
fn ranking_twice_gives_the_same_entries() {
    let table = count_lines(&owned(&["a b c a b a", "d d e"]));
    let mut one = pairs(&sort_by_value(&table));
    let mut two = pairs(&sort_by_value(&table));
    one.sort();
    two.sort();
    assert_eq!(one, two);
    assert_eq!(one.len(), table.len());
}

#[test]
fn ranking_never_rises() {
    let table = count_lines(&owned(&["x y y z z z w w w w v v v v v", "u t s s"]));
    let ranked = sort_by_value(&table);
    assert_eq!(ranked.len(), 8);
    for i in 1..ranked.len() {
        assert!(ranked[i - 1].1 >= ranked[i].1);
    }
    assert_eq!(pairs(&ranked)[0], ("v".to_owned(), 5));
    assert_eq!(pairs(&ranked)[3], ("y".to_owned(), 2));
}

#[test]
fn ranking_an_empty_table() {
    let table = CountTable::new();
    assert!(sort_by_value(&table).is_empty());
    assert_eq!(table.len(), 0);
}

#[test]
fn counts_add_up_to_the_number_of_words() {
    let words = read_input(&owned(&["the cat and the hat", "and the bat"]));
    let n = words.len();
    let mut table = CountTable::new();
    count_words(&mut table, words);
    let sum: usize = sort_by_value(&table).iter().map(|e| *e.1).sum();
    assert_eq!(sum, n);
    assert_eq!(n, 8);
    assert_eq!(table.get("the"), Some(&3));
}

#[test]
fn increment_counts_the_empty_word() {
    let mut table = CountTable::new();
    increment_word(&mut table, String::new());
    increment_word(&mut table, String::new());
    assert_eq!(table.get(""), Some(&2));
    assert_eq!(table.len(), 1);
}

#[test]
fn insert_returns_the_count_before() {
    let mut table = CountTable::new();
    assert_eq!(table.insert("one".to_owned(), 1), None);
    assert_eq!(table.insert("one".to_owned(), 7), Some(1));
    assert_eq!(table.get("one"), Some(&7));
    assert_eq!(table.len(), 1);
}

#[test]
fn tables_are_equal_whatever_the_order() {
    let mut one = CountTable::new();
    one.insert("a".to_owned(), 1);
    one.insert("b".to_owned(), 2);
    let mut two = CountTable::new();
    two.insert("b".to_owned(), 2);
    two.insert("a".to_owned(), 1);
    assert_eq!(one, two);
    two.insert("a".to_owned(), 3);
    assert_ne!(one, two);
    two.insert("a".to_owned(), 1);
    two.insert("c".to_owned(), 1);
    assert_ne!(one, two);
    assert_ne!(two, one);
}

#[test]
fn renders_word_colon_count() {
    assert_eq!(render_entry("three", 3), "three: 3");
    assert_eq!(render_entry("x", 0), "x: 0");
    assert_eq!(render_entry("don't", 10), "don't: 10");
    assert_eq!(render_entry("", 1234567890), ": 1234567890");
    assert_eq!(render_entry("max", usize::MAX), format!("max: {}", usize::MAX));
}

#[test]
fn renders_a_ranking_line_by_line() {
    let table = count_lines(&owned(&["two two", "three three three"]));
    let ranked = sort_by_value(&table);
    assert_eq!(render_counts(&ranked), owned(&["three: 3", "two: 2"]));
}

#[test]
fn a_word_is_its_own_only_word() {
    for word in tokenize("'Tis the E.E.C.S. dept.'s 'don't-care' policy... O.K.?") {
        assert_eq!(tokenize(&word), vec![word.clone()]);
        assert!(!word.starts_with('\'') && !word.starts_with('.'));
        assert!(!word.ends_with('\'') && !word.ends_with('.'));
        assert!(word.chars().all(|c| c.is_ascii_lowercase() || c == '\'' || c == '.'));
    }
}

#[test]
fn words_come_in_the_order_of_the_text() {
    assert_eq!(
        read_input(&owned(&["b a", "", "a c b"])),
        owned(&["b", "a", "a", "c", "b"])
    );
}
