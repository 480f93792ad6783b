use word_frequency::table::{increment_word, CountTable};

fn fixture() -> CountTable {
    let mut h = CountTable::new();
    h.insert("two".to_owned(), 2);
    h.insert("three".to_owned(), 3);

    assert_eq!(None, h.get("one"));
    assert_eq!(Some(&2), h.get("two"));
    assert_eq!(Some(&3), h.get("three"));
    assert_eq!(2, h.len());
    h
}

#[test]
fn insert_if_empty() {
    let mut h = CountTable::new();
    increment_word(&mut h, "one".to_owned());

    assert_eq!(Some(&1), h.get("one"));
    assert_eq!(1, h.len());
}

#[test]
fn increments_if_present() {
    let mut under_test = fixture();
    let mut expected = fixture();

    increment_word(&mut under_test, "three".to_owned());
    expected.insert("three".to_owned(), 4);
    assert_eq!(expected, under_test);
}

#[test]
fn insert_if_absent() {
    let mut under_test = fixture();
    let mut expected = fixture();

    increment_word(&mut under_test, "one".to_owned());
    expected.insert("one".to_owned(), 1);
    assert_eq!(expected, under_test);
}
