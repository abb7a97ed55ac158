//! Header mappings: name to value, each name at most once.

use vstd::prelude::*;

verus! {

/// No two pairs of the list share a name.
pub open spec fn names_distinct(pairs: Seq<(String, String)>) -> bool {
    forall|i: int, j: int| 0 <= i < j < pairs.len() ==> pairs[i].0@ != pairs[j].0@
}

/// Some pair of the list carries this name.
pub open spec fn names(pairs: Seq<(String, String)>, name: Seq<char>) -> bool {
    exists|i: int| 0 <= i < pairs.len() && pairs[i].0@ == name
}

/// The mapping that a list of pairs stands for: where a name comes more than
/// once, its last pair decides.
pub open spec fn pairs_map(pairs: Seq<(String, String)>) -> Map<Seq<char>, Seq<char>>
    decreases pairs.len(),
{
    if pairs.len() == 0 {
        Map::empty()
    } else {
        pairs_map(pairs.drop_last()).insert(pairs.last().0@, pairs.last().1@)
    }
}

/// The names of the mapping are the names of the list.
pub proof fn lemma_pairs_map_names(pairs: Seq<(String, String)>)
    ensures
        forall|name: Seq<char>| #[trigger]
            pairs_map(pairs).contains_key(name) <==> names(pairs, name),
    decreases pairs.len(),
{
    if pairs.len() > 0 {
        let front = pairs.drop_last();
        lemma_pairs_map_names(front);
        assert forall|name: Seq<char>| #[trigger]
            pairs_map(pairs).contains_key(name) <==> names(pairs, name) by {
            if names(pairs, name) {
                let i = choose|i: int| 0 <= i < pairs.len() && pairs[i].0@ == name;
                if i < pairs.len() - 1 {
                    assert(front[i].0@ == name);
                    assert(names(front, name));
                    assert(pairs_map(front).contains_key(name));
                }
            }
            if pairs_map(pairs).contains_key(name) && name != pairs.last().0@ {
                assert(pairs_map(front).contains_key(name));
                assert(names(front, name));
                let i = choose|i: int| 0 <= i < front.len() && front[i].0@ == name;
                assert(pairs[i].0@ == name);
            }
            if name == pairs.last().0@ {
                assert(pairs[pairs.len() - 1].0@ == name);
            }
        }
    }
}

/// Where no name comes twice, every pair of the list is an entry of the mapping.
pub proof fn lemma_pairs_map_entries(pairs: Seq<(String, String)>)
    requires
        names_distinct(pairs),
    ensures
        forall|i: int|
            0 <= i < pairs.len() ==> pairs_map(pairs).contains_key(#[trigger] pairs[i].0@)
                && pairs_map(pairs)[pairs[i].0@] == pairs[i].1@,
    decreases pairs.len(),
{
    if pairs.len() > 0 {
        let front = pairs.drop_last();
        assert(names_distinct(front)) by {
            assert forall|i: int, j: int| 0 <= i < j < front.len() implies front[i].0@
                != front[j].0@ by {
                assert(pairs[i].0@ != pairs[j].0@);
            }
        }
        lemma_pairs_map_entries(front);
        assert forall|i: int| 0 <= i < pairs.len() implies pairs_map(pairs).contains_key(
            #[trigger] pairs[i].0@,
        ) && pairs_map(pairs)[pairs[i].0@] == pairs[i].1@ by {
            if i < pairs.len() - 1 {
                assert(front[i] == pairs[i]);
                assert(pairs[i].0@ != pairs[pairs.len() - 1].0@);
            }
        }
    }
}

/// A mapping from header names to header values.
///
/// It is kept as a list of pairs in which no name comes twice; its view is the
/// mapping itself.
#[derive(Debug)]
pub struct Headers {
    entries: Vec<(String, String)>,
}

impl View for Headers {
    type V = Map<Seq<char>, Seq<char>>;

    closed spec fn view(&self) -> Map<Seq<char>, Seq<char>> {
        pairs_map(self.entries@)
    }
}

impl Headers {
    #[verifier::type_invariant]
    spec fn well_formed(self) -> bool {
        names_distinct(self.entries@)
    }

    /// The empty mapping.
    pub fn new() -> (headers: Headers)
        ensures
            headers@ == Map::<Seq<char>, Seq<char>>::empty(),
    {
        Headers { entries: Vec::new() }
    }

    /// Where `name` stands in the list, if it does.
    fn position(&self, name: &String) -> (found: Option<usize>)
        ensures
            match found {
                Some(i) => i < self.entries@.len() && self.entries@[i as int].0@ == name@,
                None => !names(self.entries@, name@),
            },
    {
        let mut i: usize = 0;
        while i < self.entries.len()
            invariant
                i <= self.entries@.len(),
                forall|j: int| 0 <= j < i ==> self.entries@[j].0@ != name@,
            decreases self.entries@.len() - i,
        {
            if self.entries[i].0 == *name {
                return Some(i);
            }
            i += 1;
        }
        None
    }

    /// The value that the mapping gives to `name`.
    pub fn get(&self, name: &String) -> (value: Option<&String>)
        ensures
            match value {
                Some(v) => self@.contains_key(name@) && self@[name@] == v@,
                None => !self@.contains_key(name@),
            },
    {
        proof {
            use_type_invariant(self);
            lemma_pairs_map_names(self.entries@);
            lemma_pairs_map_entries(self.entries@);
        }
        match self.position(name) {
            Some(i) => Some(&self.entries[i].1),
            None => None,
        }
    }

    /// The mapping that gives `name` the value `value`, in place of any value
    /// it had, and is otherwise this one.
    pub fn insert(self, name: String, value: String) -> (headers: Headers)
        ensures
            headers@ == self@.insert(name@, value@),
    {
        proof {
            use_type_invariant(&self);
        }
        let found = self.position(&name);
        let mut entries = self.entries;
        let ghost before = entries@;
        match found {
            Some(i) => {
                entries.set(i, (name, value));
                proof {
                    let after = entries@;
                    assert(names_distinct(after)) by {
                        assert forall|a: int, b: int| 0 <= a < b < after.len() implies after[a].0@
                            != after[b].0@ by {
                            assert(before[a].0@ != before[b].0@);
                        }
                    }
                    lemma_pairs_map_names(before);
                    lemma_pairs_map_entries(before);
                    lemma_pairs_map_names(after);
                    lemma_pairs_map_entries(after);
                    let wanted = pairs_map(before).insert(name@, value@);
                    assert forall|k: Seq<char>| #[trigger]
                        pairs_map(after).contains_key(k) <==> wanted.contains_key(k) by {
                        if names(after, k) {
                            let j = choose|j: int| 0 <= j < after.len() && after[j].0@ == k;
                            assert(before[j].0@ == k);
                        }
                        if names(before, k) {
                            let j = choose|j: int| 0 <= j < before.len() && before[j].0@ == k;
                            assert(after[j].0@ == k);
                        }
                    }
                    assert forall|k: Seq<char>| #[trigger]
                        pairs_map(after).contains_key(k) implies pairs_map(after)[k]
                        == wanted[k] by {
                        let j = choose|j: int| 0 <= j < after.len() && after[j].0@ == k;
                        assert(pairs_map(after)[after[j].0@] == after[j].1@);
                        if j != i {
                            assert(pairs_map(before)[before[j].0@] == before[j].1@);
                        }
                    }
                    assert(pairs_map(after) =~= wanted);
                }
            },
            None => {
                entries.push((name, value));
                proof {
                    let after = entries@;
                    assert(after.drop_last() =~= before);
                    assert(names_distinct(after)) by {
                        assert forall|a: int, b: int| 0 <= a < b < after.len() implies after[a].0@
                            != after[b].0@ by {
                            if b < before.len() {
                                assert(before[a].0@ != before[b].0@);
                            } else {
                                assert(before[a].0@ == after[a].0@);
                            }
                        }
                    }
                }
            },
        }
        Headers { entries }
    }

    /// The mapping that a list of pairs stands for. Where a name comes more
    /// than once, the last of its pairs decides.
    pub fn from_pairs(pairs: Vec<(String, String)>) -> (headers: Headers)
        ensures
            headers@ == pairs_map(pairs@),
    {
        let mut headers = Headers::new();
        let mut i: usize = 0;
        while i < pairs.len()
            invariant
                i <= pairs@.len(),
                headers@ == pairs_map(pairs@.take(i as int)),
            decreases pairs@.len() - i,
        {
            let name = pairs[i].0.clone();
            let value = pairs[i].1.clone();
            headers = headers.insert(name, value);
            proof {
                let next = pairs@.take(i + 1);
                assert(next.drop_last() =~= pairs@.take(i as int));
                assert(next.last() == pairs@[i as int]);
            }
            i += 1;
        }
        proof {
            assert(pairs@.take(pairs@.len() as int) =~= pairs@);
        }
        headers
    }

    /// The pairs of the mapping, each name once.
    pub fn pairs(&self) -> (pairs: &Vec<(String, String)>)
        ensures
            names_distinct(pairs@),
            pairs_map(pairs@) == self@,
    {
        proof {
            use_type_invariant(self);
        }
        &self.entries
    }

    /// Whether every entry of this mapping is also an entry of `other`.
    fn within(&self, other: &Headers) -> (inside: bool)
        ensures
            inside == self@.submap_of(other@),
    {
        proof {
            use_type_invariant(self);
            lemma_pairs_map_names(self.entries@);
            lemma_pairs_map_entries(self.entries@);
        }
        let mut i: usize = 0;
        while i < self.entries.len()
            invariant
                i <= self.entries@.len(),
                names_distinct(self.entries@),
                forall|j: int|
                    0 <= j < i ==> other@.contains_key(#[trigger] self.entries@[j].0@)
                        && other@[self.entries@[j].0@] == self.entries@[j].1@,
            decreases self.entries@.len() - i,
        {
            proof {
                lemma_pairs_map_entries(self.entries@);
            }
            match other.get(&self.entries[i].0) {
                Some(value) => {
                    if !(*value == self.entries[i].1) {
                        assert(self@[self.entries@[i as int].0@] == self.entries@[i as int].1@);
                        return false;
                    }
                },
                None => {
                    assert(self@.contains_key(self.entries@[i as int].0@));
                    return false;
                },
            }
            i += 1;
        }
        proof {
            assert forall|k: Seq<char>| #[trigger] self@.dom().contains(k) implies other@.dom().contains(k)
                && self@[k] == other@[k] by {
                assert(names(self.entries@, k));
                let j = choose|j: int| 0 <= j < self.entries@.len() && self.entries@[j].0@ == k;
                assert(other@.contains_key(self.entries@[j].0@));
                assert(self@[self.entries@[j].0@] == self.entries@[j].1@);
            }
        }
        true
    }

    /// Whether the two mappings are the same: the same names, each with the
    /// same value. Neither may hold an entry that the other lacks.
    pub fn same_as(&self, other: &Headers) -> (same: bool)
        ensures
            same == (self@ == other@),
    {
        let same = self.within(other) && other.within(self);
        proof {
            self@.lemma_submap_eq_iff(other@);
        }
        same
    }
}

impl Clone for Headers {
    fn clone(&self) -> (copy: Headers)
        ensures
            copy@ == self@,
    {
        proof {
            use_type_invariant(self);
        }
        let mut entries: Vec<(String, String)> = Vec::new();
        let mut i: usize = 0;
        while i < self.entries.len()
            invariant
                i <= self.entries@.len(),
                entries@ == self.entries@.take(i as int),
            decreases self.entries@.len() - i,
        {
            let name = self.entries[i].0.clone();
            let value = self.entries[i].1.clone();
            entries.push((name, value));
            proof {
                assert(entries@ =~= self.entries@.take(i + 1));
            }
            i += 1;
        }
        proof {
            assert(self.entries@.take(self.entries@.len() as int) =~= self.entries@);
        }
        Headers { entries }
    }
}

} // verus!
