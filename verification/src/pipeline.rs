//! From lines of text to a ranked frequency table.
use crate::ranker::{is_ranking, sort_by_value};
use crate::table::{entry_views, CountTable};
use crate::tally::{count_words, has_room, lemma_room_from_nothing, tally, tally_onto};
use crate::tokenizer::{all_tokens, read_input};
use vstd::prelude::*;

verus! {

/// Counts the words of `lines` into `map` and ranks what the table then
/// holds.
pub fn read_and_count<'a>(map: &'a mut CountTable, lines: &[String]) -> (ranked: Vec<
    (&'a String, &'a usize),
>)
    requires
        has_room(old(map)@, all_tokens(lines.deep_view())),
    ensures
        final(map)@ == tally_onto(old(map)@, all_tokens(lines.deep_view())),
        is_ranking(entry_views(ranked@), final(map)@),
{
    let words = read_input(lines);
    count_words(map, words);
    sort_by_value(map)
}

/// Counts the words of `lines` into a new table. A new table has room for
/// whatever a run of lines holds, so this asks nothing of its caller.
pub fn count_lines(lines: &[String]) -> (table: CountTable)
    ensures
        table@ == tally(all_tokens(lines.deep_view())),
{
    let words = read_input(lines);
    let mut table = CountTable::new();
    proof {
        assert(words.deep_view().len() == words.len());
        lemma_room_from_nothing(words.deep_view());
    }
    count_words(&mut table, words);
    table
}

} // verus!
