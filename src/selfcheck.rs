//! The start-up self-check: a known query must resolve only to known titles.
use vstd::prelude::*;

use crate::engine::ResolvedMatch;

verus! {

/// The views of a list of titles.
pub open spec fn names_view(names: Seq<String>) -> Seq<Seq<char>> {
    names.map_values(|s: String| s@)
}

/// `name` is among `names`.
pub open spec fn name_in(name: Seq<char>, names: Seq<Seq<char>>) -> bool {
    exists|j: int| 0 <= j < names.len() && names[j] == name
}

/// Every resolved document bears one of `names`.
pub open spec fn names_known(resolved: Seq<ResolvedMatch>, names: Seq<Seq<char>>) -> bool {
    forall|k: int| 0 <= k < resolved.len() ==> name_in(#[trigger] resolved[k].page.name@, names)
}

/// Whether `name` is among `names`.
pub fn name_listed(name: &String, names: &Vec<String>) -> (r: bool)
    ensures
        r == name_in(name@, names_view(names@)),
{
    let mut j: usize = 0;
    while j < names.len()
        invariant
            j <= names@.len(),
            forall|i: int| 0 <= i < j ==> names_view(names@)[i] != name@,
        decreases names@.len() - j,
    {
        if names[j] == *name {
            assert(names_view(names@)[j as int] == name@);
            return true;
        }
        j = j + 1;
    }
    false
}

/// Whether every resolved document bears one of `names`.
pub fn all_names_known(resolved: &Vec<ResolvedMatch>, names: &Vec<String>) -> (r: bool)
    ensures
        r == names_known(resolved@, names_view(names@)),
{
    let mut k: usize = 0;
    while k < resolved.len()
        invariant
            k <= resolved@.len(),
            forall|i: int|
                0 <= i < k ==> name_in(#[trigger] resolved@[i].page.name@, names_view(names@)),
        decreases resolved@.len() - k,
    {
        if !name_listed(&resolved[k].page.name, names) {
            return false;
        }
        k = k + 1;
    }
    true
}

} // verus!
