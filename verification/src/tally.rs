//! Counting runs of words: what a table holds after them, and what stays
//! true of it.
use crate::table::{bump, count_of, increment_word, total, CountTable};
use vstd::multiset::Multiset;
use vstd::prelude::*;

verus! {

/// How often `word` stands in `words`.
pub open spec fn occurrences(words: Seq<Seq<char>>, word: Seq<char>) -> nat {
    words.to_multiset().count(word)
}

/// The table `m` after every word of `words` has been counted: it holds the
/// words of `m` and those of `words`, and the count of a word is what it
/// was in `m` and the number of times the word stands in `words`.
pub open spec fn tally_onto(m: Map<Seq<char>, nat>, words: Seq<Seq<char>>) -> Map<
    Seq<char>,
    nat,
> {
    Map::new(
        |w: Seq<char>| m.contains_key(w) || words.contains(w),
        |w: Seq<char>| count_of(m, w) + occurrences(words, w),
    )
}

/// The table of a run of words, counted from nothing.
pub open spec fn tally(words: Seq<Seq<char>>) -> Map<Seq<char>, nat> {
    tally_onto(Map::<Seq<char>, nat>::empty(), words)
}

/// Counting `words` into `m` keeps every count within `usize`.
pub open spec fn has_room(m: Map<Seq<char>, nat>, words: Seq<Seq<char>>) -> bool {
    forall|w: Seq<char>| count_of(m, w) + #[trigger] occurrences(words, w) <= usize::MAX
}

/// Counting no word leaves a table as it is.
pub proof fn lemma_tally_nothing(m: Map<Seq<char>, nat>)
    ensures
        tally_onto(m, Seq::<Seq<char>>::empty()) == m,
{
    broadcast use vstd::seq_lib::group_to_multiset_ensures;
    broadcast use vstd::multiset::group_multiset_axioms;

    let none = Seq::<Seq<char>>::empty();
    assert forall|w: Seq<char>| occurrences(none, w) == 0 by {
        assert(!none.contains(w));
    }
    assert(tally_onto(m, none) =~= m);
}

/// Counting a run of words and then one more is counting the run and
/// bumping the last word.
pub proof fn lemma_tally_step(m: Map<Seq<char>, nat>, words: Seq<Seq<char>>, word: Seq<char>)
    ensures
        tally_onto(m, words.push(word)) == bump(tally_onto(m, words), word),
{
    broadcast use vstd::seq_lib::group_to_multiset_ensures;
    broadcast use vstd::multiset::group_multiset_axioms;

    let more = words.push(word);
    let before = tally_onto(m, words);
    assert(more.to_multiset() =~= words.to_multiset().insert(word));
    assert forall|w: Seq<char>| more.contains(w) <==> words.contains(w) || w == word by {
        if words.contains(w) {
            let i = choose|i: int| 0 <= i < words.len() && words[i] == w;
            assert(more[i] == w);
        }
        if w == word {
            assert(more[words.len() as int] == w);
        }
    }
    assert forall|w: Seq<char>| #[trigger] bump(before, word).contains_key(w) implies tally_onto(
        m,
        more,
    )[w] == bump(before, word)[w] by {
        if w == word {
            assert(occurrences(more, w) == occurrences(words, w) + 1);
            if !before.contains_key(w) {
                assert(!words.contains(w));
                assert(occurrences(words, w) == 0);
            }
        } else {
            assert(occurrences(more, w) == occurrences(words, w));
        }
    }
    assert(tally_onto(m, more) =~= bump(before, word));
}

/// Counting words into a table with finitely many entries gives such a
/// table.
pub proof fn lemma_tally_finite(m: Map<Seq<char>, nat>, words: Seq<Seq<char>>)
    requires
        m.dom().finite(),
    ensures
        tally_onto(m, words).dom().finite(),
{
    vstd::seq_lib::seq_to_set_is_finite(words);
    assert(tally_onto(m, words).dom() =~= m.dom().union(words.to_set()));
}

/// Count conservation: counting words raises the sum of all counts by the
/// number of the words.
pub proof fn lemma_total_of_tally(m: Map<Seq<char>, nat>, words: Seq<Seq<char>>)
    requires
        m.dom().finite(),
    ensures
        total(tally_onto(m, words)) == total(m) + words.len(),
{
    broadcast use vstd::seq_lib::group_to_multiset_ensures;
    broadcast use vstd::multiset::group_multiset_axioms;

    let after = tally_onto(m, words);
    lemma_tally_finite(m, words);
    assert forall|w: Seq<char>|
        Multiset::from_map(after).count(w) == Multiset::from_map(m).add(
            words.to_multiset(),
        ).count(w) by {
        if !after.contains_key(w) {
            assert(!words.contains(w));
        }
    }
    assert(Multiset::from_map(after) =~= Multiset::from_map(m).add(words.to_multiset()));
}

/// Count conservation, from nothing: after a run of words has been counted
/// into an empty table, the counts of the table add up to the number of the
/// words.
pub proof fn lemma_total_of_tally_from_nothing(words: Seq<Seq<char>>)
    ensures
        total(tally(words)) == words.len(),
{
    broadcast use vstd::multiset::group_multiset_axioms;

    let nothing = Map::<Seq<char>, nat>::empty();
    lemma_total_of_tally(nothing, words);
    assert forall|w: Seq<char>| Multiset::from_map(nothing).count(w) == 0 by {}
    assert(Multiset::from_map(nothing) =~= Multiset::empty());
}

/// A table that came about by counting alone holds no word with the count
/// zero: a word is held once it has been seen.
pub proof fn lemma_tally_counts_seen(words: Seq<Seq<char>>)
    ensures
        forall|w: Seq<char>| #[trigger] tally(words).contains_key(w) ==> tally(words)[w] >= 1,
{
    broadcast use vstd::seq_lib::group_to_multiset_ensures;

}

/// An empty table has room for as many words as a vector can hold.
pub proof fn lemma_room_from_nothing(words: Seq<Seq<char>>)
    requires
        words.len() <= usize::MAX,
    ensures
        has_room(Map::<Seq<char>, nat>::empty(), words),
{
    broadcast use vstd::multiset::group_multiset_axioms;

    vstd::seq_lib::to_multiset_len(words);
    assert forall|w: Seq<char>| #[trigger] occurrences(words, w) <= words.len() by {
        assert(words.to_multiset().count(w) <= words.to_multiset().len());
    }
}

/// Counts every word of `words`, one after the other.
pub fn count_words(map: &mut CountTable, words: Vec<String>)
    requires
        has_room(old(map)@, words.deep_view()),
    ensures
        final(map)@ == tally_onto(old(map)@, words.deep_view()),
        total(final(map)@) == total(old(map)@) + words.len(),
{
    let ghost start = map@;
    let ghost all = words.deep_view();
    proof {
        lemma_tally_nothing(start);
        assert(all.take(0) =~= Seq::<Seq<char>>::empty());
    }
    for word in it: words
        invariant
            it.seq().len() == all.len(),
            forall|i: int| 0 <= i < all.len() ==> (#[trigger] it.seq()[i])@ == all[i],
            has_room(start, all),
            map@ == tally_onto(start, all.take(it.index() as int)),
            total(map@) == total(start) + it.index(),
    {
        proof {
            let done = all.take(it.index() as int);
            assert(all.take(it.index() + 1) =~= done.push(word@));
            lemma_tally_step(start, done, word@);
            lemma_occurrences_of_prefix(all, it.index() + 1, word@);
            vstd::seq_lib::to_multiset_build(done, word@);
            assert(occurrences(all, word@) >= occurrences(done, word@) + 1);
        }
        increment_word(map, word);
    }
    proof {
        assert(all.take(all.len() as int) =~= all);
    }
}

/// A word stands in the beginning of a run no more often than in the run.
proof fn lemma_occurrences_of_prefix(words: Seq<Seq<char>>, n: int, word: Seq<char>)
    requires
        0 <= n <= words.len(),
    ensures
        occurrences(words.take(n), word) <= occurrences(words, word),
{
    broadcast use vstd::multiset::group_multiset_axioms;

    assert(words =~= words.take(n) + words.skip(n));
    vstd::seq_lib::lemma_multiset_commutative(words.take(n), words.skip(n));
}

} // verus!
