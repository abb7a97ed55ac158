//! Finding an entry by its name in an ordered list of names.

use vstd::prelude::*;

verus! {

/// `at` is the first place in `names` that holds `name`.
pub open spec fn is_first(names: Seq<Seq<char>>, name: Seq<char>, at: int) -> bool {
    &&& 0 <= at < names.len()
    &&& names[at] == name
    &&& forall|j: int| 0 <= j < at ==> names[j] != name
}

/// The first place in `names` that holds `name`, if any does.
pub open spec fn first_named(names: Seq<Seq<char>>, name: Seq<char>) -> Option<int> {
    if exists|at: int| is_first(names, name, at) {
        Some(choose|at: int| is_first(names, name, at))
    } else {
        None
    }
}

/// No name comes twice.
pub open spec fn all_distinct(names: Seq<Seq<char>>) -> bool {
    forall|i: int, j: int| 0 <= i < j < names.len() ==> names[i] != names[j]
}

/// A name has at most one first place, and has one exactly when it occurs.
pub proof fn lemma_first_named(names: Seq<Seq<char>>, name: Seq<char>)
    ensures
        forall|at: int| is_first(names, name, at) ==> first_named(names, name) == Some(at),
        first_named(names, name) is None <==> !names.contains(name),
        first_named(names, name) matches Some(at) ==> is_first(names, name, at),
{
    assert forall|at: int| is_first(names, name, at) implies first_named(names, name) == Some(
        at,
    ) by {
        let chosen = choose|c: int| is_first(names, name, c);
        assert(is_first(names, name, chosen));
        if chosen < at {
            assert(names[chosen] != name);
        }
        if at < chosen {
            assert(names[at] != name);
        }
    }
    if names.contains(name) {
        lemma_some_first(names, name, names.len() as int);
    }
    if first_named(names, name) is Some {
        let at = first_named(names, name)->0;
        assert(is_first(names, name, at));
        assert(names[at] == name);
    }
}

/// A name that occurs before `limit` has a first place.
proof fn lemma_some_first(names: Seq<Seq<char>>, name: Seq<char>, limit: int)
    requires
        0 <= limit <= names.len(),
        exists|i: int| 0 <= i < limit && names[i] == name,
    ensures
        exists|at: int| is_first(names, name, at),
    decreases limit,
{
    let i = choose|i: int| 0 <= i < limit && names[i] == name;
    if exists|j: int| 0 <= j < i && names[j] == name {
        lemma_some_first(names, name, i);
    } else {
        assert(is_first(names, name, i));
    }
}

} // verus!
