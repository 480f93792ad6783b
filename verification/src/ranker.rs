//! Ranking the entries of a frequency table by their counts.
use crate::table::{entry_views, lists, CountTable};
use vstd::prelude::*;
use vstd::seq_lib::lemma_multiset_commutative;

verus! {

/// No entry is followed, however far behind, by one with a greater count.
pub open spec fn descending(ranked: Seq<(Seq<char>, nat)>) -> bool {
    forall|i: int, j: int|
        0 <= i < j < ranked.len() ==> (#[trigger] ranked[i]).1 >= (#[trigger] ranked[j]).1
}

/// `ranked` is a ranking of the table `m`: it holds the entries of `m`,
/// each of them once, and the counts never rise along it. Entries with
/// equal counts may stand in any order, so a table with such entries has
/// more than one ranking.
pub open spec fn is_ranking(ranked: Seq<(Seq<char>, nat)>, m: Map<Seq<char>, nat>) -> bool {
    lists(ranked, m) && descending(ranked)
}

/// Two listings of one table hold the same entries, each of them once.
pub proof fn lemma_listings_agree(
    one: Seq<(Seq<char>, nat)>,
    other: Seq<(Seq<char>, nat)>,
    m: Map<Seq<char>, nat>,
)
    requires
        lists(one, m),
        lists(other, m),
    ensures
        one.to_multiset() == other.to_multiset(),
        one.len() == other.len(),
{
    broadcast use vstd::seq_lib::group_to_multiset_ensures;

    one.lemma_multiset_has_no_duplicates();
    other.lemma_multiset_has_no_duplicates();
    assert forall|e: (Seq<char>, nat)| one.contains(e) <==> other.contains(e) by {
        if one.contains(e) {
            let i = choose|i: int| 0 <= i < one.len() && one[i] == e;
            assert(m.contains_key(one[i].0));
            let j = choose|j: int| 0 <= j < other.len() && (#[trigger] other[j]).0 == e.0;
            assert(other[j] == e);
        }
        if other.contains(e) {
            let i = choose|i: int| 0 <= i < other.len() && other[i] == e;
            assert(m.contains_key(other[i].0));
            let j = choose|j: int| 0 <= j < one.len() && (#[trigger] one[j]).0 == e.0;
            assert(one[j] == e);
        }
    }
    assert forall|e: (Seq<char>, nat)| one.to_multiset().count(e) == other.to_multiset().count(
        e,
    ) by {
        assert(one.contains(e) <==> other.contains(e));
        if one.contains(e) {
            assert(one.to_multiset().contains(e));
            assert(other.to_multiset().contains(e));
        }
    }
    assert(one.to_multiset() =~= other.to_multiset());
    vstd::seq_lib::to_multiset_len(one);
    vstd::seq_lib::to_multiset_len(other);
}

/// Ranking is repeatable: two rankings of one table hold the same entries,
/// each of them once. They can differ only in the order of entries with
/// equal counts.
pub proof fn lemma_rankings_agree(
    one: Seq<(Seq<char>, nat)>,
    other: Seq<(Seq<char>, nat)>,
    m: Map<Seq<char>, nat>,
)
    requires
        is_ranking(one, m),
        is_ranking(other, m),
    ensures
        one.to_multiset() == other.to_multiset(),
        one.len() == other.len(),
{
    lemma_listings_agree(one, other, m);
}

/// The counts never rise along a run of borrowed entries.
spec fn falling(run: Seq<(&String, &usize)>) -> bool {
    forall|i: int, j: int| 0 <= i < j < run.len() ==> *(#[trigger] run[i]).1 >= *(#[trigger] run[j]).1
}

/// A run that holds the same entries as a listing of `m`, each as often, is
/// a listing of `m` too.
proof fn lemma_lists_rearranged(
    from: Seq<(&String, &usize)>,
    to: Seq<(&String, &usize)>,
    m: Map<Seq<char>, nat>,
)
    requires
        lists(entry_views(from), m),
        from.to_multiset() == to.to_multiset(),
    ensures
        lists(entry_views(to), m),
{
    broadcast use vstd::seq_lib::group_to_multiset_ensures;

    let a = entry_views(from);
    let b = entry_views(to);
    // Each entry of one run stands somewhere in the other.
    assert forall|i: int| 0 <= i < to.len() implies exists|p: int|
        0 <= p < from.len() && from[p] == #[trigger] to[i] by {
        assert(to.contains(to[i]));
        assert(to.to_multiset().count(to[i]) > 0);
        assert(from.contains(to[i]));
    }
    assert forall|p: int| 0 <= p < from.len() implies exists|i: int|
        0 <= i < to.len() && to[i] == #[trigger] from[p] by {
        assert(from.contains(from[p]));
        assert(from.to_multiset().count(from[p]) > 0);
        assert(to.contains(from[p]));
    }
    assert forall|i: int| 0 <= i < b.len() implies m.contains_key((#[trigger] b[i]).0) && m[b[i].0]
        == b[i].1 by {
        let p = choose|p: int| 0 <= p < from.len() && from[p] == to[i];
        assert(a[p] == b[i]);
    }
    assert forall|w: Seq<char>| #[trigger] m.contains_key(w) implies exists|i: int|
        0 <= i < b.len() && (#[trigger] b[i]).0 == w by {
        let p = choose|p: int| 0 <= p < a.len() && (#[trigger] a[p]).0 == w;
        let i = choose|i: int| 0 <= i < to.len() && to[i] == from[p];
        assert(b[i] == a[p]);
    }
    // No entry stands twice in `from`, so none stands twice in `to`; two
    // entries of `to` with one word would be one entry of `from`.
    assert(from.no_duplicates()) by {
        assert forall|p: int, q: int| 0 <= p < from.len() && 0 <= q < from.len() && p != q implies from[p]
            != from[q] by {
            assert(a[p].0 == from[p].0@ && a[q].0 == from[q].0@);
        }
    }
    from.lemma_multiset_has_no_duplicates();
    to.lemma_multiset_has_no_duplicates_conv();
    assert forall|i: int, j: int| 0 <= i < j < b.len() implies (#[trigger] b[i]).0 != (#[trigger] b[j]).0 by {
        let p = choose|p: int| 0 <= p < from.len() && from[p] == to[i];
        let q = choose|q: int| 0 <= q < from.len() && from[q] == to[j];
        assert(a[p] == b[i] && a[q] == b[j]);
        if b[i].0 == b[j].0 {
            assert(p == q);
            assert(to[i] == to[j]);
        }
    }
}

/// Merges two runs along which the counts never rise into one such run.
/// Of two entries with equal counts, the one from `left` comes first.
fn merge<'a>(left: &Vec<(&'a String, &'a usize)>, right: &Vec<(&'a String, &'a usize)>) -> (merged:
    Vec<(&'a String, &'a usize)>)
    requires
        falling(left@),
        falling(right@),
        left@.len() + right@.len() <= usize::MAX,
    ensures
        falling(merged@),
        merged@.to_multiset() == left@.to_multiset().add(right@.to_multiset()),
        merged@.len() == left@.len() + right@.len(),
{
    broadcast use vstd::seq_lib::group_to_multiset_ensures;
    broadcast use vstd::multiset::group_multiset_axioms;

    let mut merged: Vec<(&'a String, &'a usize)> = Vec::new();
    let mut i: usize = 0;
    let mut j: usize = 0;
    proof {
        assert(left@.take(0).to_multiset() =~= vstd::multiset::Multiset::empty());
        assert(right@.take(0).to_multiset() =~= vstd::multiset::Multiset::empty());
        assert(merged@.to_multiset() =~= left@.take(0).to_multiset().add(
            right@.take(0).to_multiset(),
        ));
    }
    while i < left.len() || j < right.len()
        invariant
            i <= left@.len(),
            j <= right@.len(),
            falling(left@),
            falling(right@),
            falling(merged@),
            merged@.len() == i + j,
            merged@.to_multiset() == left@.take(i as int).to_multiset().add(
                right@.take(j as int).to_multiset(),
            ),
            forall|k: int, p: int|
                0 <= k < merged@.len() && i <= p < left@.len() ==> *(#[trigger] merged@[k]).1 >= *(
                #[trigger] left@[p]).1,
            forall|k: int, p: int|
                0 <= k < merged@.len() && j <= p < right@.len() ==> *(#[trigger] merged@[k]).1 >= *(
                #[trigger] right@[p]).1,
        decreases left@.len() - i + right@.len() - j,
    {
        let from_left = if i >= left.len() {
            false
        } else if j >= right.len() {
            true
        } else {
            *left[i].1 >= *right[j].1
        };
        if from_left {
            proof {
                assert(left@.take(i + 1) =~= left@.take(i as int).push(left@[i as int]));
                vstd::seq_lib::to_multiset_build(left@.take(i as int), left@[i as int]);
                vstd::seq_lib::to_multiset_build(merged@, left@[i as int]);
                assert(left@.take(i + 1).to_multiset().add(right@.take(j as int).to_multiset())
                    =~= left@.take(i as int).to_multiset().add(
                    right@.take(j as int).to_multiset(),
                ).insert(left@[i as int]));
            }
            merged.push(left[i]);
            i += 1;
        } else {
            proof {
                assert(right@.take(j + 1) =~= right@.take(j as int).push(right@[j as int]));
                vstd::seq_lib::to_multiset_build(right@.take(j as int), right@[j as int]);
                vstd::seq_lib::to_multiset_build(merged@, right@[j as int]);
                assert(left@.take(i as int).to_multiset().add(right@.take(j + 1).to_multiset())
                    =~= left@.take(i as int).to_multiset().add(
                    right@.take(j as int).to_multiset(),
                ).insert(right@[j as int]));
            }
            merged.push(right[j]);
            j += 1;
        }
    }
    proof {
        assert(left@.take(left@.len() as int) =~= left@);
        assert(right@.take(right@.len() as int) =~= right@);
    }
    merged
}

/// Sorts a run of entries by falling counts. Entries with equal counts keep
/// the order in which they came.
fn sort_falling<'a>(run: Vec<(&'a String, &'a usize)>) -> (sorted: Vec<(&'a String, &'a usize)>)
    ensures
        falling(sorted@),
        sorted@.to_multiset() == run@.to_multiset(),
        sorted@.len() == run@.len(),
    decreases run@.len(),
{
    if run.len() <= 1 {
        return run;
    }
    let ghost whole = run@;
    let mut left = run;
    let right = left.split_off(left.len() / 2);
    proof {
        assert(whole =~= left@ + right@);
        lemma_multiset_commutative(left@, right@);
    }
    let left = sort_falling(left);
    let right = sort_falling(right);
    merge(&left, &right)
}

/// Ranks the entries of a table: all of them, each once, by falling count.
/// Among entries with equal counts the order is left open.
pub fn sort_by_value<'a>(map: &'a CountTable) -> (ranked: Vec<(&'a String, &'a usize)>)
    ensures
        is_ranking(entry_views(ranked@), map@),
        ranked@.len() == map@.len(),
        forall|i: int| 0 <= i < ranked@.len() ==> *(#[trigger] ranked@[i]).1 >= 1,
{
    let listed = map.entries();
    let ranked = sort_falling(listed);
    proof {
        broadcast use vstd::seq_lib::group_to_multiset_ensures;

        lemma_lists_rearranged(listed@, ranked@, map@);
        assert forall|i: int| 0 <= i < ranked@.len() implies *(#[trigger] ranked@[i]).1 >= 1 by {
            assert(ranked@.contains(ranked@[i]));
            assert(ranked@.to_multiset().count(ranked@[i]) > 0);
            assert(listed@.contains(ranked@[i]));
        }
        let views = entry_views(ranked@);
        assert forall|i: int, j: int| 0 <= i < j < views.len() implies (#[trigger] views[i]).1 >= (
            #[trigger] views[j]
        ).1 by {
            assert(*ranked@[i].1 >= *ranked@[j].1);
        }
    }
    ranked
}

} // verus!
