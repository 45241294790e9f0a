//! Where a plugin exports what is asked of it under another name.

use crate::names::{NameTable, law_last_entry_counts, named, tabled};
use crate::ring::{filed_at, lookup};
use vstd::prelude::*;

verus! {

/// Where a requested interface, and requested items inside it, are found among a plugin's
/// exports. Every entry leads from the name that is requested to the name that is exported.
#[derive(Debug)]
pub struct Remap {
    interface: Option<String>,
    items: NameTable<String>,
}

/// What a remap leads to: the name of the interface, if it has another, and names of items.
#[verifier::ext_equal]
pub struct RemapView {
    pub interface: Option<Seq<char>>,
    pub items: Seq<(Seq<char>, String)>,
}

impl View for Remap {
    type V = RemapView;

    closed spec fn view(&self) -> RemapView {
        RemapView {
            interface: match self.interface {
                Some(name) => Some(name@),
                None => None,
            },
            items: self.items@,
        }
    }
}

/// The exported name of an interface that is requested as `requested`.
pub open spec fn exported_interface(remap: RemapView, requested: Seq<char>) -> Seq<char> {
    match remap.interface {
        Some(name) => name,
        None => requested,
    }
}

/// The exported name of an item that is requested as `requested`.
pub open spec fn exported_item(remap: RemapView, requested: Seq<char>) -> Seq<char> {
    match lookup(remap.items, requested) {
        Some(name) => name@,
        None => requested,
    }
}

impl Default for Remap {
    /// A remap under which every name stays what it is.
    fn default() -> (result: Self)
        ensures
            result@ == (RemapView { interface: None, items: Seq::empty() }),
    {
        Remap { interface: None, items: NameTable::new() }
    }
}

impl Remap {
    /// The interface is exported as `name`.
    pub fn found_as(name: &str) -> (result: Self)
        ensures
            result@ == (RemapView { interface: Some(name@), items: Seq::empty() }),
    {
        Remap { interface: Some(name.to_string()), items: NameTable::new() }
    }

    /// Items of the interface are exported under the names that `items` gives them.
    pub fn with_items(self, items: Vec<(String, String)>) -> (result: Self)
        ensures
            result@ == (RemapView { items: tabled(named(items@)), ..self@ }),
    {
        Remap { interface: self.interface, items: NameTable::from_entries(items) }
    }

    /// The exported name of the interface.
    pub fn interface_name<'a>(&'a self, requested: &'a str) -> (result: &'a str)
        ensures
            result@ == exported_interface(self@, requested@),
    {
        match &self.interface {
            Some(name) => name.as_str(),
            None => requested,
        }
    }

    /// The exported name of an item.
    pub fn item_name<'a>(&'a self, requested: &'a str) -> (result: &'a str)
        ensures
            result@ == exported_item(self@, requested@),
    {
        match self.items.get(requested) {
            Some(name) => name.as_str(),
            None => requested,
        }
    }
}

/// A remap without entries leaves names as they are.
pub proof fn law_bare_remap_keeps_names(requested: Seq<char>)
    ensures
        exported_interface(RemapView { interface: None, items: Seq::empty() }, requested)
            == requested,
        exported_item(RemapView { interface: None, items: Seq::empty() }, requested) == requested,
{
    assert(!crate::ring::has_key(Seq::<(Seq<char>, String)>::empty(), requested));
}

/// A remap leads to the name that it was given: the interface to its other name whatever is
/// requested, and an item to the name in the last entry under the name that is requested. What it
/// has no entry for keeps its name.
pub proof fn law_remap_leads_to_the_given_names(
    remap: RemapView,
    entries: Seq<(Seq<char>, String)>,
    requested: Seq<char>,
    i: int,
)
    requires
        remap.items == tabled(entries),
    ensures
        remap.interface is Some ==> exported_interface(remap, requested) == remap.interface->0,
        remap.interface is None ==> exported_interface(remap, requested) == requested,
        filed_at(entries, requested, i) && (forall|j: int|
            i < j ==> !#[trigger] filed_at(entries, requested, j)) ==> exported_item(remap, requested)
            == entries[i].1@,
        (forall|j: int| !#[trigger] filed_at(entries, requested, j)) ==> exported_item(
            remap,
            requested,
        ) == requested,
{
    law_last_entry_counts(entries, requested);
    if filed_at(entries, requested, i) && (forall|j: int|
        i < j ==> !#[trigger] filed_at(entries, requested, j)) {
        assert(lookup(tabled(entries), requested) == Some(entries[i].1));
    }
}

} // verus!
