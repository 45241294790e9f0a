//! A table of values by name.

use crate::ring::{
    distinct_keys, filed, filed_at, has_key, lemma_filed, lemma_place_is, lookup, place_of,
};
use vstd::prelude::*;

verus! {

/// Values by name. Names keep the order in which they first came.
#[derive(Debug)]
pub struct NameTable<V> {
    entries: Vec<(String, V)>,
}

/// Entries with their names as text.
pub open spec fn named<V>(entries: Seq<(String, V)>) -> Seq<(Seq<char>, V)> {
    entries.map_values(|entry: (String, V)| (entry.0@, entry.1))
}

/// The table of `entries`: of two under one name, the later counts.
pub open spec fn tabled<V>(entries: Seq<(Seq<char>, V)>) -> Seq<(Seq<char>, V)>
    decreases entries.len(),
{
    if entries.len() == 0 {
        Seq::empty()
    } else {
        filed(tabled(entries.drop_last()), entries.last().0, entries.last().1)
    }
}

proof fn lemma_tabled_once<V>(entries: Seq<(Seq<char>, V)>)
    ensures
        distinct_keys(tabled(entries)),
    decreases entries.len(),
{
    if entries.len() > 0 {
        lemma_tabled_once(entries.drop_last());
        lemma_filed(tabled(entries.drop_last()), entries.last().0, entries.last().1);
    }
}

/// One more entry is found under its name, and leaves what is found under others.
proof fn lemma_tabled_step<V>(entries: Seq<(Seq<char>, V)>, name: Seq<char>)
    requires
        entries.len() > 0,
    ensures
        entries.last().0 == name ==> lookup(tabled(entries), name) == Some(entries.last().1),
        entries.last().0 != name ==> lookup(tabled(entries), name) == lookup(
            tabled(entries.drop_last()),
            name,
        ),
{
    lemma_tabled_once(entries.drop_last());
    lemma_filed(tabled(entries.drop_last()), entries.last().0, entries.last().1);
}

proof fn lemma_tabled_has<V>(entries: Seq<(Seq<char>, V)>, name: Seq<char>)
    ensures
        has_key(entries, name) <==> lookup(tabled(entries), name) is Some,
    decreases entries.len(),
{
    if entries.len() == 0 {
        assert(!has_key(entries, name));
        assert(!has_key(tabled(entries), name));
    } else {
        let front = entries.drop_last();
        lemma_tabled_has(front, name);
        lemma_tabled_step(entries, name);
        if entries.last().0 == name {
            assert(filed_at(entries, name, entries.len() - 1));
        } else if has_key(front, name) {
            let p = place_of(front, name);
            assert(filed_at(front, name, p));
            assert(filed_at(entries, name, p));
        } else if has_key(entries, name) {
            let p = place_of(entries, name);
            assert(filed_at(entries, name, p));
            assert(filed_at(front, name, p));
        }
    }
}

proof fn lemma_tabled_last<V>(entries: Seq<(Seq<char>, V)>, name: Seq<char>, i: int)
    requires
        filed_at(entries, name, i),
        forall|j: int| i < j ==> !#[trigger] filed_at(entries, name, j),
    ensures
        lookup(tabled(entries), name) == Some(entries[i].1),
    decreases entries.len(),
{
    let front = entries.drop_last();
    let last = entries.len() - 1;
    lemma_tabled_step(entries, name);
    if i < last {
        assert(!filed_at(entries, name, last));
        assert(filed_at(front, name, i));
        assert forall|j: int| i < j implies !#[trigger] filed_at(front, name, j) by {
            assert(!filed_at(entries, name, j));
        }
        lemma_tabled_last(front, name, i);
    }
}

/// A table holds under a name what stands last under it, and knows no other names.
pub proof fn law_last_entry_counts<V>(entries: Seq<(Seq<char>, V)>, name: Seq<char>)
    ensures
        distinct_keys(tabled(entries)),
        has_key(entries, name) <==> lookup(tabled(entries), name) is Some,
        forall|i: int|
            #[trigger] filed_at(entries, name, i) && (forall|j: int|
                i < j ==> !#[trigger] filed_at(entries, name, j)) ==> lookup(tabled(entries), name)
                == Some(entries[i].1),
{
    lemma_tabled_once(entries);
    lemma_tabled_has(entries, name);
    assert forall|i: int|
        #[trigger] filed_at(entries, name, i) && (forall|j: int|
            i < j ==> !#[trigger] filed_at(entries, name, j)) implies lookup(tabled(entries), name)
        == Some(entries[i].1) by {
        lemma_tabled_last(entries, name, i);
    }
}

impl<V> View for NameTable<V> {
    type V = Seq<(Seq<char>, V)>;

    closed spec fn view(&self) -> Seq<(Seq<char>, V)> {
        named(self.entries@)
    }
}

impl<V> NameTable<V> {
    #[verifier::type_invariant]
    spec fn wf(self) -> bool {
        distinct_keys(named(self.entries@))
    }

    /// A table without names.
    pub fn new() -> (result: Self)
        ensures
            result@ == Seq::<(Seq<char>, V)>::empty(),
    {
        let table = NameTable { entries: Vec::new() };
        assert(table@ =~= Seq::<(Seq<char>, V)>::empty());
        table
    }

    /// Where `name` stands.
    fn find(&self, name: &String) -> (result: Option<usize>)
        ensures
            match result {
                Some(i) => filed_at(self@, name@, i as int) && lookup(self@, name@) == Some(
                    self.entries@[i as int].1,
                ) && place_of(self@, name@) == i,
                None => !has_key(self@, name@),
            },
    {
        proof {
            use_type_invariant(self);
        }
        let mut i: usize = 0;
        while i < self.entries.len()
            invariant
                i <= self.entries@.len(),
                distinct_keys(self@),
                forall|j: int| 0 <= j < i ==> (#[trigger] self@[j]).0 != name@,
            decreases self.entries.len() - i,
        {
            assert(self@[i as int].0 == self.entries@[i as int].0@);
            if self.entries[i].0 == *name {
                proof {
                    assert(filed_at(self@, name@, i as int));
                    lemma_place_is(self@, name@, i as int);
                }
                return Some(i);
            }
            i = i + 1;
        }
        None
    }

    /// What stands under `name`.
    pub fn get(&self, name: &str) -> (result: Option<&V>)
        ensures
            match result {
                Some(value) => lookup(self@, name@) == Some(*value),
                None => lookup(self@, name@) is None,
            },
    {
        let wanted = name.to_owned();
        match self.find(&wanted) {
            Some(i) => Some(&self.entries[i].1),
            None => None,
        }
    }

    /// Puts `value` under `name`, in place of what stood there.
    pub fn insert(&mut self, name: String, value: V)
        ensures
            final(self)@ == filed(old(self)@, name@, value),
            distinct_keys(final(self)@),
    {
        proof {
            use_type_invariant(&*self);
        }
        let place = self.find(&name);
        let mut entries: Vec<(String, V)> = Vec::new();
        let ghost before = self@;
        core::mem::swap(&mut entries, &mut self.entries);
        let ghost held = entries@;
        match place {
            Some(i) => {
                entries.set(i, (name, value));
                assert(named(entries@) =~= filed(before, name@, value));
            },
            None => {
                entries.push((name, value));
                assert(named(entries@) =~= filed(before, name@, value));
            },
        }
        proof {
            lemma_filed(before, name@, value);
        }
        self.entries = entries;
    }

    /// The table of `entries`.
    pub fn from_entries(entries: Vec<(String, V)>) -> (result: Self)
        ensures
            result@ == tabled(named(entries@)),
            distinct_keys(result@),
    {
        let mut table = NameTable::new();
        let ghost all = entries@;
        for entry in it: entries
            invariant
                it.seq() == all,
                table@ == tabled(named(all).take(it.index())),
        {
            assert(entry == all[it.index()]);
            assert(named(all).take(it.index() + 1).drop_last() =~= named(all).take(it.index()));
            table.insert(entry.0, entry.1);
        }
        assert(named(all).take(all.len() as int) =~= named(all));
        proof {
            use_type_invariant(&table);
        }
        table
    }

    /// How many names there are.
    pub fn len(&self) -> (result: usize)
        ensures
            result == self@.len(),
    {
        self.entries.len()
    }

    /// The name and the value at a place.
    pub fn entry(&self, i: usize) -> (result: (&String, &V))
        requires
            i < self@.len(),
        ensures
            self@[i as int] == (result.0@, *result.1),
    {
        (&self.entries[i].0, &self.entries[i].1)
    }

    /// Every name, in order.
    pub fn names(&self) -> (result: Vec<&str>)
        ensures
            result@.len() == self@.len(),
            forall|i: int| 0 <= i < self@.len() ==> (#[trigger] result@[i])@ == self@[i].0,
    {
        let mut names: Vec<&str> = Vec::new();
        let mut i: usize = 0;
        while i < self.entries.len()
            invariant
                i <= self.entries@.len(),
                names@.len() == i,
                forall|j: int| 0 <= j < i ==> (#[trigger] names@[j])@ == self@[j].0,
            decreases self.entries.len() - i,
        {
            names.push(self.entries[i].0.as_str());
            i = i + 1;
        }
        names
    }
}

impl<V: Copy> Clone for NameTable<V> {
    fn clone(&self) -> (result: Self)
        ensures
            result@ == self@,
    {
        proof {
            use_type_invariant(self);
        }
        let mut entries: Vec<(String, V)> = Vec::new();
        let mut i: usize = 0;
        while i < self.entries.len()
            invariant
                i <= self.entries@.len(),
                named(entries@) == self@.take(i as int),
            decreases self.entries.len() - i,
        {
            let name = self.entries[i].0.clone();
            let value = self.entries[i].1;
            assert(named(entries@.push((name, value))) =~= named(entries@).push((name@, value)));
            assert(self@.take(i + 1) =~= self@.take(i as int).push((name@, value)));
            entries.push((name, value));
            i = i + 1;
        }
        assert(self@.take(i as int) =~= self@);
        NameTable { entries }
    }
}

/// A table keeps its names in the order in which they first came: one more entry moves none of
/// them, takes the place of an earlier one under its name, and else comes last.
pub proof fn law_names_keep_their_order<V>(entries: Seq<(Seq<char>, V)>, name: Seq<char>, value: V)
    ensures
        ({
            let before = tabled(entries);
            let after = tabled(entries.push((name, value)));
            &&& tabled(Seq::<(Seq<char>, V)>::empty()).len() == 0
            &&& forall|i: int|
                0 <= i < before.len() ==> (#[trigger] after[i]).0 == before[i].0 && (before[i].0
                    == name ==> after[i].1 == value) && (before[i].0 != name ==> after[i].1
                    == before[i].1)
            &&& has_key(entries, name) ==> after.len() == before.len()
            &&& !has_key(entries, name) ==> after.len() == before.len() + 1 && after.last() == (
                name,
                value,
            )
        }),
{
    let before = tabled(entries);
    law_last_entry_counts(entries, name);
    assert(entries.push((name, value)).drop_last() =~= entries);
    lemma_filed(before, name, value);
    if has_key(before, name) {
        assert(filed_at(before, name, place_of(before, name)));
        assert forall|i: int| 0 <= i < before.len() && before[i].0 == name implies i == place_of(
            before,
            name,
        ) by {
            lemma_place_is(before, name, i);
        }
    } else {
        assert forall|i: int| 0 <= i < before.len() implies before[i].0 != name by {
            assert(!filed_at(before, name, i));
        }
    }
}

/// What is put into a table under a name is what is found under it, and what is found under any
/// other name stays what it was.
pub proof fn law_table_gives_back_what_was_put_in<V>(
    table: &mut NameTable<V>,
    name: String,
    value: V,
    other: Seq<char>,
)
    requires
        distinct_keys(old(table)@),
        call_ensures(NameTable::<V>::insert, (table, name, value), ()),
    ensures
        lookup(final(table)@, name@) == Some(value),
        other != name@ ==> lookup(final(table)@, other) == lookup(old(table)@, other),
{
    lemma_filed(old(table)@, name@, value);
}

} // verus!
