//! Looking a name up in a list of names.

use vstd::prelude::*;

verus! {

/// The texts of a list of strings.
pub open spec fn texts(names: Seq<String>) -> Seq<Seq<char>> {
    names.map_values(|s: String| s@)
}

/// `i` is the first place at which `name` stands in `names`.
pub open spec fn first_at(names: Seq<Seq<char>>, name: Seq<char>, i: int) -> bool {
    &&& 0 <= i < names.len()
    &&& names[i] == name
    &&& forall|j: int| 0 <= j < i ==> names[j] != name
}

/// The first place at which `name` stands in `names`; meaningful only when
/// `names` contains it.
pub open spec fn first_position(names: Seq<Seq<char>>, name: Seq<char>) -> int {
    choose|i: int| first_at(names, name, i)
}

/// A name that occurs in a list has a first place in it.
pub proof fn lemma_first_position_exists(names: Seq<Seq<char>>, name: Seq<char>)
    requires
        names.contains(name),
    ensures
        first_at(names, name, first_position(names, name)),
    decreases names.len(),
{
    let k = choose|k: int| 0 <= k < names.len() && names[k] == name;
    if exists|j: int| 0 <= j < k && names[j] == name {
        let j = choose|j: int| 0 <= j < k && names[j] == name;
        let shorter = names.take(k);
        assert(shorter[j] == name);
        lemma_first_position_exists(shorter, name);
        let i = first_position(shorter, name);
        assert(first_at(names, name, i)) by {
            assert(names[i] == shorter[i]);
            assert forall|h: int| 0 <= h < i implies names[h] != name by {
                assert(names[h] == shorter[h]);
            }
        }
    } else {
        assert(first_at(names, name, k));
    }
}

/// The first place of a name is the only place that is first.
pub proof fn lemma_first_position_is(names: Seq<Seq<char>>, name: Seq<char>, i: int)
    requires
        first_at(names, name, i),
    ensures
        first_position(names, name) == i,
        names.contains(name),
{
    let p = first_position(names, name);
    assert(first_at(names, name, p));
    if p < i {
        assert(names[p] == name);
    } else if i < p {
        assert(names[i] == name);
    }
}

/// Finds the first place at which `name` stands in `names`.
pub fn find_name(names: &Vec<String>, name: &String) -> (found: Option<usize>)
    ensures
        match found {
            Some(i) => first_at(texts(names@), name@, i as int),
            None => !texts(names@).contains(name@),
        },
        found is Some <==> texts(names@).contains(name@),
        found matches Some(i) ==> i as int == first_position(texts(names@), name@),
{
    let mut i: usize = 0;
    while i < names.len()
        invariant
            i <= names.len(),
            forall|j: int| 0 <= j < i ==> texts(names@)[j] != name@,
        decreases names.len() - i,
    {
        if names[i].eq(name) {
            proof {
                assert(texts(names@)[i as int] == names@[i as int]@);
                lemma_first_position_is(texts(names@), name@, i as int);
            }
            return Some(i);
        }
        assert(texts(names@)[i as int] == names@[i as int]@);
        i += 1;
    }
    None
}

} // verus!
