//! Rendering a ranking as lines of text: one line for each entry, the word,
//! a colon, a blank and the count in decimal.
use crate::table::entry_views;
use vstd::prelude::*;

verus! {

/// The character of a decimal digit.
pub open spec fn digit(d: nat) -> char
    recommends
        d < 10,
{
    (48 + d) as char
}

/// A number in decimal, without leading zeros.
pub open spec fn decimal(n: nat) -> Seq<char>
    decreases n,
{
    if n < 10 {
        seq![digit(n)]
    } else {
        decimal(n / 10).push(digit(n % 10))
    }
}

/// The line for one entry.
pub open spec fn entry_line(word: Seq<char>, count: nat) -> Seq<char> {
    word + seq![':', ' '] + decimal(count)
}

/// The lines for a run of entries, in the order of the entries.
pub open spec fn report_of(ranked: Seq<(Seq<char>, nat)>) -> Seq<Seq<char>> {
    ranked.map_values(|e: (Seq<char>, nat)| entry_line(e.0, e.1))
}

/// Appends a number in decimal to a text.
fn push_decimal(text: &mut String, n: usize)
    ensures
        final(text)@ == old(text)@ + decimal(n as nat),
    decreases n,
{
    if n >= 10 {
        push_decimal(text, n / 10);
    }
    let low: u8 = (n % 10) as u8;
    text.push((48 + low) as char);
    proof {
        assert(text@ =~= old(text)@ + decimal(n as nat));
    }
}

/// Renders one entry as its line.
pub fn render_entry(word: &str, count: usize) -> (line: String)
    ensures
        line@ == entry_line(word@, count as nat),
{
    let mut line = word.to_owned();
    line.push(':');
    line.push(' ');
    push_decimal(&mut line, count);
    proof {
        assert(line@ =~= entry_line(word@, count as nat));
    }
    line
}

/// Renders a ranking as its lines, in the order of the ranking.
pub fn render_counts(ranked: &Vec<(&String, &usize)>) -> (lines: Vec<String>)
    ensures
        lines.deep_view() == report_of(entry_views(ranked@)),
{
    let mut lines: Vec<String> = Vec::new();
    for i in 0..ranked.len()
        invariant
            lines@.len() == i,
            forall|j: int|
                0 <= j < i ==> (#[trigger] lines@[j])@ == entry_line(
                    ranked@[j].0@,
                    *ranked@[j].1 as nat,
                ),
    {
        lines.push(render_entry(ranked[i].0.as_str(), *ranked[i].1));
    }
    proof {
        assert(lines.deep_view() =~= report_of(entry_views(ranked@)));
    }
    lines
}

} // verus!
