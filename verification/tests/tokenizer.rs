use word_frequency::tokenizer::read_input;

fn lines_of(input: &str) -> Vec<String> {
    input.lines().map(|line| line.to_owned()).collect()
}

fn assert_read(expected: &[&str], input: &str) {
    let v = read_input(&lines_of(input));
    assert_eq!(expected.len(), v.len());
    for i in 0..(v.len()) {
        assert_eq!(expected[i], v[i]);
    }
}

#[test]
fn reads_three_words_on_separate_lines() {
    assert_read(&["hi", "hello", "hey"], "'...''hi...\nhello\nhey\n");
}

#[test]
fn reads_three_words_on_same_line() {
    assert_read(&["hi", "hello", "hey"], "hi hello hey\n");
}

#[test]
fn trims_beginning_and_trailing_apostrophes_and_periods() {
    assert_read(&["hi", "hello", "hey"], "'...''hi...\n''...'..'hello...'\n'..'..'.hey\n");
}

#[test]
fn handles_acronyms() {
    assert_read(
        &["i", "am", "a", "student", "in", "the", "e.e.c.s", "department"],
        "I am a student \nin the E.E.C.S. department!!\n",
    );
}

#[test]
fn splits_on_invalid_chars() {
    assert_read(
        &["hi", "my", "name", "is", "kevin", "i", "don't", "like", "the", "one"],
        "hi8 my name&is Kevin. I don't like the # 3.14159. One=1.",
    )
}

#[test]
fn splits_on_invalid_chars_multi_line() {
    assert_read(
        &["hi", "my", "name", "is", "kevin", "i", "don't", "like", "the", "one"],
        "hi8 my\nname&is Kevin!!!!\n I don't\nlike the # 3. One=1.\n%$#^$^",
    )
}
