//! The frequency table: how often each word has been seen.
use vstd::multiset::Multiset;
use vstd::prelude::*;
use vstd::std_specs::cmp::PartialEqSpecImpl;

verus! {

/// How often `word` has been counted in `m`: what `m` holds for it, and
/// zero for a word without an entry.
pub open spec fn count_of(m: Map<Seq<char>, nat>, word: Seq<char>) -> nat {
    if m.contains_key(word) {
        m[word]
    } else {
        0
    }
}

/// The table `m` after one more occurrence of `word`.
pub open spec fn bump(m: Map<Seq<char>, nat>, word: Seq<char>) -> Map<Seq<char>, nat> {
    m.insert(word, count_of(m, word) + 1)
}

/// The sum of all counts of a table: the size of the bag in which each word
/// lies as often as the table has counted it.
pub open spec fn total(m: Map<Seq<char>, nat>) -> nat {
    Multiset::from_map(m).len()
}

/// The entries of a listing as plain values: each word with its count.
pub open spec fn entry_views(entries: Seq<(&String, &usize)>) -> Seq<(Seq<char>, nat)> {
    entries.map_values(|e: (&String, &usize)| (e.0@, *e.1 as nat))
}

/// `listed` holds the entries of `m`, each of them once: whatever it holds
/// is an entry of `m`, every word of `m` stands in it, and none stands in
/// it twice. Nothing is said of the order.
pub open spec fn lists(listed: Seq<(Seq<char>, nat)>, m: Map<Seq<char>, nat>) -> bool {
    &&& forall|i: int|
        0 <= i < listed.len() ==> m.contains_key((#[trigger] listed[i]).0) && m[listed[i].0]
            == listed[i].1
    &&& forall|w: Seq<char>| #[trigger]
        m.contains_key(w) ==> exists|i: int| 0 <= i < listed.len() && (#[trigger] listed[i]).0 == w
    &&& forall|i: int, j: int|
        0 <= i < j < listed.len() ==> (#[trigger] listed[i]).0 != (#[trigger] listed[j]).0
}

/// A table of words and their counts.
///
/// Its view is the map from each word it holds to the count of that word.
/// A word is held once, and a word that is held has been counted at least
/// once. The order of the entries carries no meaning.
#[derive(Debug)]
pub struct CountTable {
    entries: Vec<(String, usize)>,
}

/// The words of a run of entries, in the order of the entries.
spec fn words(entries: Seq<(String, usize)>) -> Seq<Seq<char>> {
    entries.map_values(|e: (String, usize)| e.0@)
}

/// The map that a run of entries stands for.
spec fn table_of(entries: Seq<(String, usize)>) -> Map<Seq<char>, nat> {
    Map::new(
        |w: Seq<char>| words(entries).contains(w),
        |w: Seq<char>| entries[words(entries).index_of(w)].1 as nat,
    )
}

/// No word stands twice among the entries, and no count is zero.
spec fn valid(entries: Seq<(String, usize)>) -> bool {
    &&& words(entries).no_duplicates()
    &&& forall|i: int| 0 <= i < entries.len() ==> (#[trigger] entries[i]).1 >= 1
}

/// What the map says of each entry, and how many entries there are.
proof fn lemma_table_of(entries: Seq<(String, usize)>)
    requires
        valid(entries),
    ensures
        table_of(entries).dom().finite(),
        table_of(entries).len() == entries.len(),
        forall|i: int|
            0 <= i < entries.len() ==> table_of(entries).contains_key(#[trigger] entries[i].0@)
                && table_of(entries)[entries[i].0@] == entries[i].1,
        forall|w: Seq<char>| #[trigger]
            table_of(entries).contains_key(w) ==> table_of(entries)[w] >= 1 && exists|i: int|
                0 <= i < entries.len() && entries[i].0@ == w,
{
    let ws = words(entries);
    let m = table_of(entries);
    assert(m.dom() =~= ws.to_set());
    vstd::seq_lib::seq_to_set_is_finite(ws);
    ws.unique_seq_to_set();
    assert forall|i: int| 0 <= i < entries.len() implies m.contains_key(#[trigger] entries[i].0@)
        && m[entries[i].0@] == entries[i].1 by {
        assert(ws[i] == entries[i].0@);
        let j = ws.index_of(ws[i]);
        assert(0 <= j < ws.len() && ws[j] == ws[i]);
    }
    assert forall|w: Seq<char>| #[trigger] m.contains_key(w) implies m[w] >= 1 && exists|i: int|
        0 <= i < entries.len() && entries[i].0@ == w by {
        let j = ws.index_of(w);
        assert(0 <= j < ws.len() && ws[j] == w);
        assert(entries[j].0@ == w);
    }
}

/// Replacing the count of an entry replaces the count of its word.
proof fn lemma_table_of_update(entries: Seq<(String, usize)>, at: int, entry: (String, usize))
    requires
        valid(entries),
        0 <= at < entries.len(),
        entry.0@ == entries[at].0@,
        entry.1 >= 1,
    ensures
        valid(entries.update(at, entry)),
        table_of(entries.update(at, entry)) == table_of(entries).insert(entry.0@, entry.1 as nat),
{
    let after = entries.update(at, entry);
    assert(words(after) =~= words(entries));
    lemma_table_of(entries);
    lemma_table_of(after);
    assert forall|w: Seq<char>| #[trigger]
        table_of(entries).insert(entry.0@, entry.1 as nat).contains_key(w) implies table_of(
        after,
    ).contains_key(w) && table_of(after)[w] == table_of(entries).insert(
        entry.0@,
        entry.1 as nat,
    )[w] by {
        if w != entry.0@ {
            let i = choose|i: int| 0 <= i < entries.len() && entries[i].0@ == w;
            assert(after[i] == entries[i]);
            assert(table_of(after)[after[i].0@] == after[i].1);
        } else {
            assert(table_of(after)[after[at].0@] == after[at].1);
        }
    }
    assert(table_of(after) =~= table_of(entries).insert(entry.0@, entry.1 as nat));
}

/// A new entry for a word that has none adds the word with its count.
proof fn lemma_table_of_push(entries: Seq<(String, usize)>, entry: (String, usize))
    requires
        valid(entries),
        !table_of(entries).contains_key(entry.0@),
        entry.1 >= 1,
    ensures
        valid(entries.push(entry)),
        table_of(entries.push(entry)) == table_of(entries).insert(entry.0@, entry.1 as nat),
{
    let after = entries.push(entry);
    assert(words(after) =~= words(entries).push(entry.0@));
    lemma_table_of(entries);
    assert(words(after).no_duplicates()) by {
        assert forall|i: int, j: int|
            0 <= i < words(after).len() && 0 <= j < words(after).len() && i != j implies words(
            after,
        )[i] != words(after)[j] by {
            if i < entries.len() {
                assert(table_of(entries).contains_key(entries[i].0@));
            }
            if j < entries.len() {
                assert(table_of(entries).contains_key(entries[j].0@));
            }
        }
    }
    lemma_table_of(after);
    let target = table_of(entries).insert(entry.0@, entry.1 as nat);
    assert forall|w: Seq<char>| #[trigger] target.contains_key(w) implies table_of(
        after,
    ).contains_key(w) && table_of(after)[w] == target[w] by {
        if w != entry.0@ {
            let i = choose|i: int| 0 <= i < entries.len() && entries[i].0@ == w;
            assert(after[i] == entries[i]);
            assert(table_of(after)[after[i].0@] == after[i].1);
        } else {
            assert(table_of(after)[after[entries.len() as int].0@] == after[entries.len() as int].1);
        }
    }
    assert forall|w: Seq<char>| #[trigger] table_of(after).contains_key(w) implies target.contains_key(
        w,
    ) by {
        let i = choose|i: int| 0 <= i < after.len() && after[i].0@ == w;
        if i < entries.len() {
            assert(table_of(entries).contains_key(entries[i].0@));
        }
    }
    assert(table_of(after) =~= target);
}

/// One more occurrence of a word raises the sum of all counts by one.
pub proof fn lemma_total_of_bump(m: Map<Seq<char>, nat>, word: Seq<char>)
    requires
        m.dom().finite(),
    ensures
        bump(m, word).dom().finite(),
        total(bump(m, word)) == total(m) + 1,
{
    broadcast use vstd::multiset::group_multiset_axioms;

    let after = bump(m, word);
    assert(after.dom() =~= m.dom().insert(word));
    assert forall|w: Seq<char>|
        Multiset::from_map(after).count(w) == Multiset::from_map(m).insert(word).count(w) by {}
    assert(Multiset::from_map(after) =~= Multiset::from_map(m).insert(word));
}

impl View for CountTable {
    type V = Map<Seq<char>, nat>;

    closed spec fn view(&self) -> Map<Seq<char>, nat> {
        table_of(self.entries@)
    }
}

impl CountTable {
    #[verifier::type_invariant]
    spec fn well_formed(&self) -> bool {
        valid(self.entries@)
    }

    /// A table without entries.
    pub fn new() -> (table: Self)
        ensures
            table@ == Map::<Seq<char>, nat>::empty(),
    {
        let table = CountTable { entries: Vec::new() };
        assert(table@ =~= Map::<Seq<char>, nat>::empty());
        table
    }

    /// The number of words in the table.
    pub fn len(&self) -> (n: usize)
        ensures
            n == self@.len(),
            self@.dom().finite(),
    {
        proof {
            use_type_invariant(self);
            lemma_table_of(self.entries@);
        }
        self.entries.len()
    }

    /// Where `word` stands among the entries, if it does.
    fn position(&self, word: &String) -> (at: Option<usize>)
        ensures
            match at {
                Some(i) => i < self.entries@.len() && self.entries@[i as int].0@ == word@,
                None => !self@.contains_key(word@),
            },
    {
        proof {
            use_type_invariant(self);
            lemma_table_of(self.entries@);
        }
        let mut i: usize = 0;
        while i < self.entries.len()
            invariant
                i <= self.entries@.len(),
                forall|j: int| 0 <= j < i ==> self.entries@[j].0@ != word@,
            decreases self.entries@.len() - i,
        {
            if self.entries[i].0 == *word {
                return Some(i);
            }
            i += 1;
        }
        None
    }

    /// The count of `word`, if the table holds it.
    pub fn get(&self, word: &str) -> (count: Option<&usize>)
        ensures
            match count {
                Some(c) => self@.contains_key(word@) && self@[word@] == *c && *c >= 1,
                None => !self@.contains_key(word@),
            },
    {
        proof {
            use_type_invariant(self);
            lemma_table_of(self.entries@);
        }
        let key = word.to_owned();
        match self.position(&key) {
            Some(i) => Some(&self.entries[i].1),
            None => None,
        }
    }

    /// The entries of the table, each of them once, in no particular order.
    pub fn entries(&self) -> (listed: Vec<(&String, &usize)>)
        ensures
            lists(entry_views(listed@), self@),
            listed@.len() == self@.len(),
            forall|i: int| 0 <= i < listed@.len() ==> *(#[trigger] listed@[i]).1 >= 1,
    {
        proof {
            use_type_invariant(self);
            lemma_table_of(self.entries@);
        }
        let mut listed: Vec<(&String, &usize)> = Vec::new();
        for i in 0..self.entries.len()
            invariant
                listed@.len() == i,
                forall|j: int|
                    0 <= j < i ==> *listed@[j].0 == self.entries@[j].0 && *listed@[j].1
                        == self.entries@[j].1,
        {
            let entry = &self.entries[i];
            listed.push((&entry.0, &entry.1));
        }
        proof {
            let views = entry_views(listed@);
            assert forall|i: int| 0 <= i < views.len() implies views[i] == (
                self.entries@[i].0@,
                self.entries@[i].1 as nat,
            ) by {}
            assert forall|w: Seq<char>| #[trigger] self@.contains_key(w) implies exists|i: int|
                0 <= i < views.len() && (#[trigger] views[i]).0 == w by {
                let i = choose|i: int| 0 <= i < self.entries@.len() && self.entries@[i].0@ == w;
                assert(views[i].0 == w);
            }
            assert forall|i: int, j: int| 0 <= i < j < views.len() implies (#[trigger] views[i]).0 != (
                #[trigger] views[j]
            ).0 by {
                assert(words(self.entries@)[i] == views[i].0);
                assert(words(self.entries@)[j] == views[j].0);
            }
        }
        listed
    }

    /// Whether every entry of this table is an entry of `other`.
    #[verifier::loop_isolation(false)]
    fn within(&self, other: &CountTable) -> (all: bool)
        ensures
            all == self@.submap_of(other@),
    {
        proof {
            use_type_invariant(self);
            use_type_invariant(other);
            lemma_table_of(self.entries@);
            lemma_table_of(other.entries@);
        }
        for i in 0..self.entries.len()
            invariant
                forall|j: int|
                    0 <= j < i ==> other@.contains_key(#[trigger] self.entries@[j].0@) && other@[self.entries@[j].0@]
                        == self.entries@[j].1,
        {
            let entry = &self.entries[i];
            match other.position(&entry.0) {
                Some(at) => {
                    if other.entries[at].1 != entry.1 {
                        assert(self@.contains_key(entry.0@));
                        return false;
                    }
                },
                None => {
                    assert(self@.contains_key(entry.0@));
                    return false;
                },
            }
        }
        true
    }

    /// Sets the count of `word`, and returns the count it had, if any.
    pub fn insert(&mut self, word: String, count: usize) -> (previous: Option<usize>)
        requires
            count >= 1,
        ensures
            final(self)@ == old(self)@.insert(word@, count as nat),
            match previous {
                Some(c) => old(self)@.contains_key(word@) && old(self)@[word@] == c,
                None => !old(self)@.contains_key(word@),
            },
    {
        proof {
            use_type_invariant(&*self);
            lemma_table_of(self.entries@);
        }
        let found = self.position(&word);
        // The entries are taken out while they change, and put back when
        // they are in order again.
        let mut entries: Vec<(String, usize)> = Vec::new();
        core::mem::swap(&mut self.entries, &mut entries);
        let previous = match found {
            Some(i) => {
                let previous = entries[i].1;
                proof {
                    lemma_table_of_update(entries@, i as int, (word, count));
                }
                entries.set(i, (word, count));
                Some(previous)
            },
            None => {
                proof {
                    lemma_table_of_push(entries@, (word, count));
                }
                entries.push((word, count));
                None
            },
        };
        self.entries = entries;
        previous
    }
}

impl PartialEq for CountTable {
    /// Two tables are equal when they hold the same words with the same
    /// counts, in whatever order.
    fn eq(&self, other: &CountTable) -> (equal: bool) {
        let equal = self.within(other) && other.within(self);
        proof {
            if equal {
                assert(self@ =~= other@);
            }
        }
        equal
    }
}

impl PartialEqSpecImpl for CountTable {
    open spec fn obeys_eq_spec() -> bool {
        true
    }

    open spec fn eq_spec(&self, other: &CountTable) -> bool {
        self@ == other@
    }
}

/// Counts one more occurrence of `word`: a word that the table holds has
/// its count raised by one, and a word that it does not hold enters it with
/// the count one.
pub fn increment_word(map: &mut CountTable, word: String)
    requires
        count_of(old(map)@, word@) < usize::MAX,
    ensures
        final(map)@ == bump(old(map)@, word@),
        total(final(map)@) == total(old(map)@) + 1,
{
    proof {
        use_type_invariant(&*map);
        lemma_table_of(map.entries@);
        lemma_total_of_bump(map@, word@);
    }
    let found = map.position(&word);
    // The entries are taken out while they change, and put back when they
    // are in order again.
    let mut entries: Vec<(String, usize)> = Vec::new();
    core::mem::swap(&mut map.entries, &mut entries);
    match found {
        Some(i) => {
            let count = entries[i].1;
            proof {
                lemma_table_of_update(entries@, i as int, (word, (count + 1) as usize));
            }
            entries.set(i, (word, count + 1));
        },
        None => {
            proof {
                lemma_table_of_push(entries@, (word, 1usize));
            }
            entries.push((word, 1));
        },
    }
    map.entries = entries;
}

} // verus!
