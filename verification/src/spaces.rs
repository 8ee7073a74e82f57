//! Names for virtual desktops ("spaces"), kept by their number.

use std::collections::HashMap;
use vstd::prelude::*;
use vstd::std_specs::hash::*;

verus! {

broadcast use vstd::std_specs::hash::group_hash_axioms;

/// The names after space `id` was given `name`, or lost its name when
/// `name` is `None`.
pub open spec fn renamed(names: Map<u64, String>, id: u64, name: Option<String>) -> Map<
    u64,
    String,
> {
    match name {
        Some(s) => names.insert(id, s),
        None => names.remove(id),
    }
}

/// What space `id` is called: its name, or `Unnamed` when it has none.
pub open spec fn name_of(names: Map<u64, String>, id: u64) -> Seq<char> {
    if names.contains_key(id) {
        names[id]@
    } else {
        "Unnamed"@
    }
}

/// Gives space `id` the name `name`, or takes its name away when `name` is
/// `None`.
pub fn set_space_name(names: &mut HashMap<u64, String>, id: u64, name: Option<String>)
    ensures
        final(names)@ == renamed(old(names)@, id, name),
{
    match name {
        None => {
            names.remove(&id);
        },
        Some(s) => {
            names.insert(id, s);
        },
    }
}

/// Tells what space `id` is called.
pub fn get_space_name<'a>(names: &'a HashMap<u64, String>, id: u64) -> (name: &'a str)
    ensures
        name@ == name_of(names@, id),
{
    match names.get(&id) {
        Some(s) => s.as_str(),
        None => "Unnamed",
    }
}

/// A space is called what it was last named, `Unnamed` after its name was
/// taken away, and naming one space leaves the others as they are.
pub proof fn lemma_names_are_kept(names: Map<u64, String>, id: u64, name: Option<String>, other: u64)
    ensures
        name_of(renamed(names, id, name), id) == match name {
            Some(s) => s@,
            None => "Unnamed"@,
        },
        other != id ==> name_of(renamed(names, id, name), other) == name_of(names, other),
{
}

} // verus!
