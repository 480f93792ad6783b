use word_frequency::ranker::sort_by_value;
use word_frequency::table::CountTable;

fn ranker_fixture() -> CountTable {
    let mut h = CountTable::new();
    h.insert("two".to_owned(), 2);
    h.insert("three".to_owned(), 3);

    assert_eq!(None, h.get("one"));
    assert_eq!(Some(&2), h.get("two"));
    assert_eq!(Some(&3), h.get("three"));
    assert_eq!(2, h.len());
    h
}

#[test]
fn sort_nonempty_hashmap() {
    let h = ranker_fixture();
    let v = sort_by_value(&h);
    let v_size = v.len();
    assert_eq!(v_size, h.len());
    for i in 0..(v_size - 1) {
        assert!(v[i].1 >= v[i + 1].1);
    }
}
