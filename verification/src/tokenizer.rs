//! Turning a line of text into normalized words.
//!
//! The policy, in the order in which it is applied:
//!
//! 1. Every character is folded to lower case. Folding is defined on the
//!    ASCII letters; any other code point is left as it is.
//! 2. The line is split at every character that is neither a letter, an
//!    apostrophe nor a period. Letters are the ASCII letters, so digits,
//!    blanks, hyphens, other punctuation and code points beyond ASCII all
//!    separate segments.
//! 3. Apostrophes and periods are stripped from both ends of a segment. In
//!    the interior of a segment they stay, so `e.e.c.s.` is the one word
//!    `e.e.c.s` and `don't` is one word.
//! 4. A segment of which nothing is left is dropped.
//! 5. What is left of the other segments are the words, from left to right.
use vstd::prelude::*;

verus! {

/// An ASCII letter, of either case.
pub open spec fn is_letter(c: char) -> bool {
    ('a' <= c && c <= 'z') || ('A' <= c && c <= 'Z')
}

/// An apostrophe or a period: a character that a word may hold inside but
/// neither begin nor end with.
pub open spec fn is_mark(c: char) -> bool {
    c == '\'' || c == '.'
}

/// A character that does not end a segment.
pub open spec fn is_word_char(c: char) -> bool {
    is_letter(c) || is_mark(c)
}

/// The lower-case form of a character: an upper-case ASCII letter becomes
/// the lower-case one, every other character is itself.
pub open spec fn lower(c: char) -> char {
    if 'A' <= c && c <= 'Z' {
        ((c as u8) + 32) as char
    } else {
        c
    }
}

/// A line with every character in lower case.
pub open spec fn lower_line(line: Seq<char>) -> Seq<char> {
    line.map_values(|c: char| lower(c))
}

/// The segments of a line: the runs of word characters between its
/// separators, empty runs included, so that a line with `n` separators has
/// `n + 1` segments.
///
/// Read from the left: the empty line is one empty segment; a word
/// character extends the last segment; any other character closes it and
/// opens a new, empty one.
pub open spec fn segments(line: Seq<char>) -> Seq<Seq<char>>
    decreases line.len(),
{
    if line.len() == 0 {
        seq![Seq::<char>::empty()]
    } else {
        let before = segments(line.drop_last());
        if is_word_char(line.last()) {
            before.drop_last().push(before.last().push(line.last()))
        } else {
            before.push(Seq::<char>::empty())
        }
    }
}

/// A segment without the marks it begins with.
pub open spec fn trim_start(s: Seq<char>) -> Seq<char>
    decreases s.len(),
{
    if s.len() > 0 && is_mark(s.first()) {
        trim_start(s.drop_first())
    } else {
        s
    }
}

/// A segment without the marks it ends with.
pub open spec fn trim_end(s: Seq<char>) -> Seq<char>
    decreases s.len(),
{
    if s.len() > 0 && is_mark(s.last()) {
        trim_end(s.drop_last())
    } else {
        s
    }
}

/// A segment with the marks stripped from both of its ends.
pub open spec fn trim(s: Seq<char>) -> Seq<char> {
    trim_end(trim_start(s))
}

/// What a run of segments leaves as words: each segment trimmed, without
/// those of which nothing is left.
pub open spec fn trimmed_words(segs: Seq<Seq<char>>) -> Seq<Seq<char>> {
    segs.map_values(|s: Seq<char>| trim(s)).filter(|w: Seq<char>| w.len() > 0)
}

/// The words of a line that is already in lower case.
pub open spec fn words_of(line: Seq<char>) -> Seq<Seq<char>> {
    trimmed_words(segments(line))
}

/// The words of a line of text.
pub open spec fn tokens(line: Seq<char>) -> Seq<Seq<char>> {
    words_of(lower_line(line))
}

/// The words of a run of lines: those of the first line, then those of the
/// second, and so on.
pub open spec fn all_tokens(lines: Seq<Seq<char>>) -> Seq<Seq<char>> {
    lines.flat_map(|line: Seq<char>| tokens(line))
}

/// The shape of a word: not empty, made of lower-case letters and marks
/// only, with a letter at either end.
pub open spec fn is_word(w: Seq<char>) -> bool {
    &&& w.len() > 0
    &&& forall|i: int| 0 <= i < w.len() ==> is_lower_letter(#[trigger] w[i]) || is_mark(w[i])
    &&& is_lower_letter(w.first())
    &&& is_lower_letter(w.last())
}

/// A lower-case ASCII letter.
pub open spec fn is_lower_letter(c: char) -> bool {
    'a' <= c && c <= 'z'
}

/// A line has at least one segment.
pub proof fn lemma_segments_nonempty(line: Seq<char>)
    ensures
        segments(line).len() >= 1,
    decreases line.len(),
{
    if line.len() > 0 {
        lemma_segments_nonempty(line.drop_last());
    }
}

/// How one more character changes the segments of a line.
proof fn lemma_segments_push(line: Seq<char>, c: char)
    ensures
        segments(line).len() >= 1,
        is_word_char(c) ==> segments(line.push(c)) == segments(line).drop_last().push(
            segments(line).last().push(c),
        ),
        !is_word_char(c) ==> segments(line.push(c)) == segments(line).push(Seq::<char>::empty()),
{
    lemma_segments_nonempty(line);
    assert(line.push(c).drop_last() =~= line);
}

/// How one more character at its end changes a segment trimmed at its start.
proof fn lemma_trim_start_push(s: Seq<char>, c: char)
    ensures
        trim_start(s.push(c)) == if trim_start(s).len() > 0 {
            trim_start(s).push(c)
        } else if is_mark(c) {
            Seq::<char>::empty()
        } else {
            seq![c]
        },
    decreases s.len(),
{
    if s.len() == 0 {
        assert(s.push(c).drop_first() =~= Seq::<char>::empty());
        assert(s.push(c) =~= seq![c]);
        assert(trim_start(Seq::<char>::empty()) =~= Seq::<char>::empty());
    } else if is_mark(s.first()) {
        assert(s.push(c).drop_first() =~= s.drop_first().push(c));
        lemma_trim_start_push(s.drop_first(), c);
    }
}

/// How one more character at its end changes a segment trimmed at its end.
proof fn lemma_trim_end_push(s: Seq<char>, c: char)
    ensures
        trim_end(s.push(c)) == if is_mark(c) {
            trim_end(s)
        } else {
            s.push(c)
        },
{
    assert(s.push(c).drop_last() =~= s);
}

/// How one more segment changes the words that a run of segments leaves.
proof fn lemma_trimmed_words_push(segs: Seq<Seq<char>>, s: Seq<char>)
    ensures
        trimmed_words(segs.push(s)) == if trim(s).len() > 0 {
            trimmed_words(segs).push(trim(s))
        } else {
            trimmed_words(segs)
        },
{
    let f = |s: Seq<char>| trim(s);
    let p = |w: Seq<char>| w.len() > 0;
    segs.lemma_push_map_commute(f, s);
    segs.map_values(f).lemma_filter_push(f(s), p);
}

/// What trimming at the start leaves: characters of the segment, and at
/// the front of them no mark.
proof fn lemma_trim_start_leaves(s: Seq<char>)
    ensures
        forall|i: int| 0 <= i < trim_start(s).len() ==> s.contains(#[trigger] trim_start(s)[i]),
        trim_start(s).len() > 0 ==> !is_mark(trim_start(s).first()),
    decreases s.len(),
{
    if s.len() > 0 && is_mark(s.first()) {
        let rest = s.drop_first();
        lemma_trim_start_leaves(rest);
        assert forall|i: int| 0 <= i < trim_start(s).len() implies s.contains(
            #[trigger] trim_start(s)[i],
        ) by {
            let c = trim_start(rest)[i];
            assert(rest.contains(c));
            let j = choose|j: int| 0 <= j < rest.len() && rest[j] == c;
            assert(s[j + 1] == c);
        }
    }
}

/// What trimming at the end leaves: characters of the segment, of which
/// the first is the first of the segment, and at the end of them no mark.
proof fn lemma_trim_end_leaves(s: Seq<char>)
    ensures
        forall|i: int| 0 <= i < trim_end(s).len() ==> s.contains(#[trigger] trim_end(s)[i]),
        trim_end(s).len() > 0 ==> !is_mark(trim_end(s).last()) && trim_end(s).first() == s.first(),
    decreases s.len(),
{
    if s.len() > 0 && is_mark(s.last()) {
        let rest = s.drop_last();
        lemma_trim_end_leaves(rest);
        assert forall|i: int| 0 <= i < trim_end(s).len() implies s.contains(
            #[trigger] trim_end(s)[i],
        ) by {
            let c = trim_end(rest)[i];
            assert(rest.contains(c));
            let j = choose|j: int| 0 <= j < rest.len() && rest[j] == c;
            assert(s[j] == c);
        }
    }
}

/// Trimming leaves characters of the segment, with no mark at either end.
pub proof fn lemma_trim_leaves(s: Seq<char>)
    ensures
        forall|i: int| 0 <= i < trim(s).len() ==> s.contains(#[trigger] trim(s)[i]),
        trim(s).len() > 0 ==> !is_mark(trim(s).first()) && !is_mark(trim(s).last()),
{
    let front = trim_start(s);
    lemma_trim_start_leaves(s);
    lemma_trim_end_leaves(front);
    assert forall|i: int| 0 <= i < trim(s).len() implies s.contains(#[trigger] trim(s)[i]) by {
        let c = trim(s)[i];
        assert(front.contains(c));
        let j = choose|j: int| 0 <= j < front.len() && front[j] == c;
        assert(s.contains(front[j]));
    }
}

/// Trimming is idempotent: a trimmed segment has no mark at either end, so
/// trimming it again changes nothing.
pub proof fn lemma_trim_idempotent(s: Seq<char>)
    ensures
        trim(trim(s)) == trim(s),
{
    lemma_trim_leaves(s);
}

/// Every character of every segment is a word character of the line.
proof fn lemma_segments_hold(line: Seq<char>)
    ensures
        forall|k: int, i: int|
            0 <= k < segments(line).len() && 0 <= i < segments(line)[k].len() ==> is_word_char(
                #[trigger] segments(line)[k][i],
            ) && line.contains(segments(line)[k][i]),
    decreases line.len(),
{
    if line.len() > 0 {
        let shorter = line.drop_last();
        let before = segments(shorter);
        lemma_segments_hold(shorter);
        lemma_segments_nonempty(shorter);
        assert forall|k: int, i: int|
            0 <= k < segments(line).len() && 0 <= i < segments(line)[k].len() implies is_word_char(
            #[trigger] segments(line)[k][i],
        ) && line.contains(segments(line)[k][i]) by {
            let c = segments(line)[k][i];
            if is_word_char(line.last()) && k == before.len() - 1 && i == before.last().len() {
                assert(line[line.len() - 1] == c);
            } else {
                assert(before[k][i] == c);
                assert(shorter.contains(c));
                let j = choose|j: int| 0 <= j < shorter.len() && shorter[j] == c;
                assert(line[j] == c);
            }
        }
    }
}

/// Each word that a run of segments leaves is what trimming leaves of one
/// of the segments, and is not empty.
proof fn lemma_trimmed_words_from(segs: Seq<Seq<char>>)
    ensures
        forall|i: int|
            0 <= i < trimmed_words(segs).len() ==> (#[trigger] trimmed_words(segs)[i]).len() > 0
                && exists|k: int| 0 <= k < segs.len() && trimmed_words(segs)[i] == trim(segs[k]),
    decreases segs.len(),
{
    if segs.len() == 0 {
        reveal(Seq::filter);
        assert(trimmed_words(segs) =~= Seq::<Seq<char>>::empty());
    } else {
        let rest = segs.drop_last();
        lemma_trimmed_words_from(rest);
        lemma_trimmed_words_push(rest, segs.last());
        assert(rest.push(segs.last()) =~= segs);
        assert forall|i: int| 0 <= i < trimmed_words(segs).len() implies (#[trigger] trimmed_words(
            segs,
        )[i]).len() > 0 && exists|k: int|
            0 <= k < segs.len() && trimmed_words(segs)[i] == trim(segs[k]) by {
            if i < trimmed_words(rest).len() {
                let k = choose|k: int|
                    0 <= k < rest.len() && trimmed_words(rest)[i] == trim(rest[k]);
                assert(trimmed_words(segs)[i] == trim(segs[k]));
            } else {
                assert(trimmed_words(segs)[i] == trim(segs[segs.len() - 1]));
            }
        }
    }
}

/// Every word of a line has the shape of a word: it is not empty, it holds
/// lower-case letters and marks only, and it begins and ends with a letter.
/// So no word holds a digit, a hyphen or an upper-case letter.
pub proof fn lemma_tokens_are_words(line: Seq<char>)
    ensures
        forall|i: int| 0 <= i < tokens(line).len() ==> is_word(#[trigger] tokens(line)[i]),
{
    let low = lower_line(line);
    let segs = segments(low);
    lemma_trimmed_words_from(segs);
    lemma_segments_hold(low);
    assert forall|i: int| 0 <= i < tokens(line).len() implies is_word(#[trigger] tokens(line)[i]) by {
        let w = tokens(line)[i];
        let k = choose|k: int| 0 <= k < segs.len() && w == trim(segs[k]);
        lemma_trim_leaves(segs[k]);
        assert forall|x: int| 0 <= x < w.len() implies is_lower_letter(#[trigger] w[x]) || is_mark(
            w[x],
        ) by {
            assert(segs[k].contains(w[x]));
            let y = choose|y: int| 0 <= y < segs[k].len() && segs[k][y] == w[x];
            assert(is_word_char(segs[k][y]) && low.contains(segs[k][y]));
            let z = choose|z: int| 0 <= z < low.len() && low[z] == w[x];
            assert(low[z] == lower(line[z]));
        }
        assert(is_lower_letter(w[0]) || is_mark(w[0]));
        assert(is_lower_letter(w[w.len() - 1]) || is_mark(w[w.len() - 1]));
    }
}

/// Case is ignored: two lines that differ only in the case of their
/// letters have the same words, and so have a line and its lower-case form.
pub proof fn lemma_tokens_ignore_case(one: Seq<char>, other: Seq<char>)
    requires
        lower_line(one) == lower_line(other),
    ensures
        tokens(one) == tokens(other),
        tokens(lower_line(one)) == tokens(one),
{
    assert(lower_line(lower_line(one)) =~= lower_line(one));
}

/// A run of word characters is one segment.
pub proof fn lemma_segments_of_run(run: Seq<char>)
    requires
        forall|i: int| 0 <= i < run.len() ==> is_word_char(#[trigger] run[i]),
    ensures
        segments(run) == seq![run],
    decreases run.len(),
{
    if run.len() == 0 {
        assert(run =~= Seq::<char>::empty());
    } else {
        lemma_segments_of_run(run.drop_last());
        assert(run.drop_last().push(run.last()) =~= run);
        assert(seq![run.drop_last()].drop_last().push(run) =~= seq![run]);
    }
}

/// A separator splits: the segments of a line with a separator in it are
/// those of what stands before the separator and those of what stands
/// behind it.
pub proof fn lemma_segments_split(before: Seq<char>, separator: char, behind: Seq<char>)
    requires
        !is_word_char(separator),
    ensures
        segments(before.push(separator) + behind) == segments(before) + segments(behind),
    decreases behind.len(),
{
    let front = before.push(separator);
    lemma_segments_nonempty(before);
    if behind.len() == 0 {
        assert(front + behind =~= front);
        assert(front.drop_last() =~= before);
        assert(segments(before).push(Seq::<char>::empty()) =~= segments(before) + segments(behind));
    } else {
        let shorter = behind.drop_last();
        lemma_segments_split(before, separator, shorter);
        lemma_segments_nonempty(shorter);
        assert((front + behind).drop_last() =~= front + shorter);
        let joined = segments(before) + segments(shorter);
        if is_word_char(behind.last()) {
            assert(joined.drop_last() =~= segments(before) + segments(shorter).drop_last());
            assert(joined.drop_last().push(joined.last().push(behind.last())) =~= segments(before)
                + segments(behind));
        } else {
            assert(joined.push(Seq::<char>::empty()) =~= segments(before) + segments(behind));
        }
    }
}

/// The words of a line with a separator in it are those of what stands
/// before the separator and those of what stands behind it. So lines that
/// are joined by a line break, or by any other separator, keep their words.
pub proof fn lemma_tokens_split(before: Seq<char>, separator: char, behind: Seq<char>)
    requires
        !is_word_char(separator),
    ensures
        tokens(before.push(separator) + behind) == tokens(before) + tokens(behind),
{
    let trimmed = |s: Seq<char>| trim(s);
    let kept = |w: Seq<char>| w.len() > 0;
    let one = segments(lower_line(before));
    let two = segments(lower_line(behind));
    assert(lower_line(before.push(separator) + behind) =~= lower_line(before).push(
        lower(separator),
    ) + lower_line(behind));
    lemma_segments_split(lower_line(before), lower(separator), lower_line(behind));
    assert((one + two).map_values(trimmed) =~= one.map_values(trimmed) + two.map_values(trimmed));
    Seq::filter_distributes_over_add(one.map_values(trimmed), two.map_values(trimmed), kept);
}

/// Folds one character to lower case.
pub fn to_lower(c: char) -> (folded: char)
    ensures
        folded == lower(c),
{
    if 'A' <= c && c <= 'Z' {
        let code: u8 = c as u8;
        (code + 32) as char
    } else {
        c
    }
}

/// Extracts the words of one line of text, from left to right.
///
/// The line is read once. `word` holds the current segment as it would be
/// trimmed if it ended here; `held` holds the marks that have followed its
/// last letter, which belong to the word only if another letter follows.
pub fn tokenize(line: &str) -> (words: Vec<String>)
    ensures
        words.deep_view() == tokens(line@),
        forall|i: int| 0 <= i < words.len() ==> is_word(#[trigger] words[i]@),
{
    let mut words: Vec<String> = Vec::new();
    let mut word = String::new();
    let mut held = String::new();
    proof {
        assert(lower_line(line@).take(0) =~= Seq::<char>::empty());
        assert(words.deep_view() =~= Seq::<Seq<char>>::empty());
        assert(seq![Seq::<char>::empty()].drop_last() =~= Seq::<Seq<char>>::empty());
        assert(trimmed_words(Seq::<Seq<char>>::empty()) =~= Seq::<Seq<char>>::empty()) by {
            reveal(Seq::filter);
        }
        assert(word@ + held@ =~= Seq::<char>::empty());
    }
    for c in it: line.chars()
        invariant
            it.seq() == line@,
            words.deep_view() == trimmed_words(
                segments(lower_line(line@).take(it.index() as int)).drop_last(),
            ),
            word@ + held@ == trim_start(segments(lower_line(line@).take(it.index() as int)).last()),
            word@ == trim(segments(lower_line(line@).take(it.index() as int)).last()),
            word@.len() == 0 ==> held@.len() == 0,
    {
        let ghost seen = lower_line(line@).take(it.index() as int);
        let ghost open = segments(seen).last();
        let c = to_lower(c);
        proof {
            assert(lower_line(line@).take(it.index() + 1) =~= seen.push(c));
            lemma_segments_push(seen, c);
            lemma_trim_start_push(open, c);
            lemma_trim_end_push(trim_start(open), c);
            if is_word_char(c) {
                assert(segments(seen.push(c)).drop_last() =~= segments(seen).drop_last());
            }
        }
        if 'a' <= c && c <= 'z' {
            proof {
                assert((word@ + held@).push(c) =~= word@ + held@ + seq![c]);
                assert(seq![c] =~= word@ + held@ + seq![c] || (word@ + held@).len() > 0);
            }
            word.append(held.as_str());
            held = String::new();
            word.push(c);
            proof {
                assert(word@ + held@ =~= word@);
            }
        } else if c == '\'' || c == '.' {
            if !word.as_str().is_empty() {
                held.push(c);
                proof {
                    assert(word@ + held@ =~= trim_start(open).push(c));
                }
            } else {
                proof {
                    assert(held@ =~= Seq::<char>::empty());
                }
            }
        } else {
            proof {
                lemma_trimmed_words_push(segments(seen).drop_last(), open);
                assert(segments(seen).drop_last().push(open) =~= segments(seen));
                assert(segments(seen.push(c)).drop_last() =~= segments(seen));
            }
            if !word.as_str().is_empty() {
                let ghost before = words.deep_view();
                words.push(word);
                proof {
                    assert(words.deep_view() =~= before.push(trim(open)));
                }
            }
            word = String::new();
            held = String::new();
            proof {
                assert(word@ + held@ =~= Seq::<char>::empty());
            }
        }
    }
    proof {
        let all = lower_line(line@);
        assert(all.take(line@.len() as int) =~= all);
        lemma_segments_nonempty(all);
        lemma_trimmed_words_push(segments(all).drop_last(), segments(all).last());
        assert(segments(all).drop_last().push(segments(all).last()) =~= segments(all));
    }
    if !word.as_str().is_empty() {
        let ghost before = words.deep_view();
        words.push(word);
        proof {
            assert(words.deep_view() =~= before.push(trim(segments(lower_line(line@)).last())));
        }
    }
    proof {
        lemma_tokens_are_words(line@);
        assert forall|i: int| 0 <= i < words.len() implies is_word(#[trigger] words[i]@) by {
            assert(words.deep_view()[i] == words[i]@);
            assert(is_word(tokens(line@)[i]));
        }
    }
    words
}

/// Extracts the words of a run of lines, in the order in which they are
/// read: line by line, and within a line from left to right.
pub fn read_input(lines: &[String]) -> (words: Vec<String>)
    ensures
        words.deep_view() == all_tokens(lines.deep_view()),
{
    let mut words: Vec<String> = Vec::new();
    proof {
        assert(lines.deep_view().take(0) =~= Seq::<Seq<char>>::empty());
        assert(words.deep_view() =~= Seq::<Seq<char>>::empty());
        assert(all_tokens(Seq::<Seq<char>>::empty()) =~= Seq::<Seq<char>>::empty());
    }
    for i in 0..lines.len()
        invariant
            words.deep_view() == all_tokens(lines.deep_view().take(i as int)),
    {
        let mut found = tokenize(lines[i].as_str());
        proof {
            let read = lines.deep_view().take(i as int);
            read.lemma_flat_map_push(|line: Seq<char>| tokens(line), lines[i as int]@);
            assert(lines.deep_view().take(i + 1) =~= read.push(lines[i as int]@));
        }
        let ghost before = words.deep_view();
        let ghost added = found.deep_view();
        words.append(&mut found);
        proof {
            assert(words.deep_view() =~= before + added);
        }
    }
    proof {
        assert(lines.deep_view().take(lines.len() as int) =~= lines.deep_view());
    }
    words
}

} // verus!
