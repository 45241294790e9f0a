//! Plugins before they are instantiated: their settings, and what a component imports and
//! exports.

use crate::fuel::{FuelledStore, set_fuel};
use crate::names::{NameTable, law_last_entry_counts, named, tabled};
use crate::remap::Remap;
use crate::ring::{distinct_keys, filed_at, lemma_filed_mapped, lookup};
use vstd::prelude::*;
use wasmtime::component::Component;
use wasmtime::component::types::ComponentItem;

verus! {

/// How far a name goes before its version.
pub open spec fn version_mark(name: Seq<char>) -> nat
    decreases name.len(),
{
    if name.len() == 0 || name[0] == '@' {
        0
    } else {
        1 + version_mark(name.skip(1))
    }
}

/// A name without its version: all of it before the first `@`.
pub open spec fn without_version(name: Seq<char>) -> Seq<char> {
    name.take(version_mark(name) as int)
}

proof fn lemma_version_mark(name: Seq<char>, i: int)
    requires
        0 <= i <= name.len(),
        forall|j: int| 0 <= j < i ==> name[j] != '@',
        i < name.len() ==> name[i] == '@',
    ensures
        version_mark(name) == i,
    decreases name.len(),
{
    if i > 0 {
        let rest = name.skip(1);
        assert forall|j: int| 0 <= j < i - 1 implies rest[j] != '@' by {
            assert(rest[j] == name[j + 1]);
        }
        lemma_version_mark(rest, i - 1);
    }
}

/// A name without its version holds no `@`, begins the name, and is all of it if the name has
/// no version.
pub proof fn law_unversioned_names(name: Seq<char>)
    ensures
        version_mark(name) <= name.len(),
        !without_version(name).contains('@'),
        !name.contains('@') ==> without_version(name) == name,
        without_version(without_version(name)) == without_version(name),
    decreases name.len(),
{
    let short = without_version(name);
    if name.len() > 0 && name[0] != '@' {
        let rest = name.skip(1);
        law_unversioned_names(rest);
        assert(short =~= seq![name[0]] + without_version(rest));
        if short.contains('@') {
            let i = choose|i: int| 0 <= i < short.len() && short[i] == '@';
            assert(without_version(rest)[i - 1] == '@');
        }
        if !name.contains('@') {
            if rest.contains('@') {
                let i = choose|i: int| 0 <= i < rest.len() && rest[i] == '@';
                assert(name[i + 1] == '@');
            }
            assert(short =~= name);
        }
    } else {
        assert(short =~= Seq::empty());
        if !name.contains('@') && name.len() > 0 {
            assert(name[0] == '@');
        }
        assert(!name.contains('@') ==> short =~= name);
    }
    assert forall|i: int| 0 <= i < short.len() implies short[i] != '@' by {
        assert(short.contains(short[i]));
    }
    lemma_version_mark(short, short.len() as int);
    assert(without_version(short) =~= short);
}

/// A name without its version.
pub fn unversioned(interface: &str) -> (result: &str)
    ensures
        result@ == without_version(interface@),
{
    let length = interface.unicode_len();
    let mut i: usize = 0;
    while i < length
        invariant
            i <= length,
            length == interface@.len(),
            forall|j: int| 0 <= j < i ==> interface@[j] != '@',
        decreases length - i,
    {
        if interface.get_char(i) == '@' {
            proof {
                lemma_version_mark(interface@, i as int);
                assert(interface@.subrange(0, i as int) =~= interface@.take(i as int));
            }
            return interface.substring_char(0, i);
        }
        i = i + 1;
    }
    proof {
        lemma_version_mark(interface@, i as int);
        assert(interface@.take(i as int) =~= interface@);
    }
    interface
}

/// One item of an instance. Only a function is asynchronous or not.
#[derive(Debug)]
pub struct ListedItem {
    pub name: String,
    pub is_async: Option<bool>,
}

/// One import or export of a component. `items` are those of an instance, and `implements` is
/// the interface that it says it implements.
#[derive(Debug)]
pub struct ListedExtern {
    pub name: String,
    pub implements: Option<String>,
    pub items: Option<Vec<ListedItem>>,
}

/// One import or export of a component.
#[verifier::ext_equal]
pub struct ExternView {
    pub name: Seq<char>,
    pub implements: Option<Seq<char>>,
    pub items: Option<Seq<(Seq<char>, Option<bool>)>>,
}

/// Items with their names as text.
pub open spec fn listed_items(items: Seq<ListedItem>) -> Seq<(Seq<char>, Option<bool>)> {
    items.map_values(|item: ListedItem| (item.name@, item.is_async))
}

impl View for ListedExtern {
    type V = ExternView;

    open spec fn view(&self) -> ExternView {
        ExternView {
            name: self.name@,
            implements: match self.implements {
                Some(name) => Some(name@),
                None => None,
            },
            items: match self.items {
                Some(items) => Some(listed_items(items@)),
                None => None,
            },
        }
    }
}

/// Imports or exports as they are seen.
pub open spec fn listed_externs(externs: Seq<ListedExtern>) -> Seq<ExternView> {
    externs.map_values(|item: ListedExtern| item@)
}

/// What a component exports, in the order in which it does.
pub uninterp spec fn exports_of(component: Component) -> Seq<ExternView>;

/// What a component imports, in the order in which it does.
pub uninterp spec fn imports_of(component: Component) -> Seq<ExternView>;

/// Walks `wasmtime::component::types::Component::exports` of a component: what the component
/// exports, with the items of every instance, and of every function whether it is asynchronous.
#[verifier::external_body]
fn list_exports(component: &Component) -> (result: Vec<ListedExtern>)
    ensures
        listed_externs(result@) == exports_of(*component),
{
    let engine = component.engine();
    let items = |ty| match ty {
        ComponentItem::ComponentInstance(instance) => Some(instance.exports(engine).map(|(name, item)| ListedItem {
            name: name.to_string(),
            is_async: match item.ty { ComponentItem::ComponentFunc(function) => Some(function.async_()), _ => None },
        }).collect()),
        _ => None,
    };
    let listed = component.component_type().exports(engine).map(|(name, item)| ListedExtern {
        name: name.to_string(), implements: item.implements.map(str::to_string), items: items(item.ty),
    }).collect();
    listed
}

/// Walks `wasmtime::component::types::Component::imports` of a component: what the component
/// imports, with the items of every instance, and of every function whether it is asynchronous.
#[verifier::external_body]
fn list_imports(component: &Component) -> (result: Vec<ListedExtern>)
    ensures
        listed_externs(result@) == imports_of(*component),
{
    let engine = component.engine();
    let items = |ty| match ty {
        ComponentItem::ComponentInstance(instance) => Some(instance.exports(engine).map(|(name, item)| ListedItem {
            name: name.to_string(),
            is_async: match item.ty { ComponentItem::ComponentFunc(function) => Some(function.async_()), _ => None },
        }).collect()),
        _ => None,
    };
    let listed = component.component_type().imports(engine).map(|(name, item)| ListedExtern {
        name: name.to_string(), implements: item.implements.map(str::to_string), items: items(item.ty),
    }).collect();
    listed
}

/// The functions among the items of an instance.
pub open spec fn function_items(items: Seq<(Seq<char>, Option<bool>)>) -> Seq<(Seq<char>, bool)>
    decreases items.len(),
{
    if items.len() == 0 {
        Seq::empty()
    } else {
        let earlier = function_items(items.drop_last());
        match items.last().1 {
            Some(is_async) => earlier.push((items.last().0, is_async)),
            None => earlier,
        }
    }
}

/// The interface that an import or export stands for: the one that it implements, or the one
/// that it is named after, in any version.
pub open spec fn interface_of(item: ExternView) -> Seq<char> {
    match item.implements {
        Some(name) => without_version(name),
        None => without_version(item.name),
    }
}

/// The interfaces among imports or exports, each with its functions and whether they are
/// asynchronous. What is no instance does not count.
pub open spec fn interface_entries(externs: Seq<ExternView>) -> Seq<
    (Seq<char>, Seq<(Seq<char>, bool)>),
>
    decreases externs.len(),
{
    if externs.len() == 0 {
        Seq::empty()
    } else {
        let earlier = interface_entries(externs.drop_last());
        match externs.last().items {
            Some(items) => earlier.push(
                (interface_of(externs.last()), tabled(function_items(items))),
            ),
            None => earlier,
        }
    }
}

/// Which functions of each interface are asynchronous.
pub type ExportEffects = NameTable<NameTable<bool>>;

/// What such a table holds.
pub open spec fn effects_in(effects: ExportEffects) -> Seq<(Seq<char>, Seq<(Seq<char>, bool)>)> {
    effects@.map_values(|entry: (Seq<char>, NameTable<bool>)| (entry.0, entry.1@))
}

fn interface_name(item: &ListedExtern) -> (result: &str)
    ensures
        result@ == interface_of(item@),
{
    match &item.implements {
        Some(name) => unversioned(name.as_str()),
        None => unversioned(item.name.as_str()),
    }
}

fn functions(items: &Vec<ListedItem>) -> (result: NameTable<bool>)
    ensures
        result@ == tabled(function_items(listed_items(items@))),
{
    let mut entries: Vec<(String, bool)> = Vec::new();
    let mut i: usize = 0;
    let ghost all = listed_items(items@);
    while i < items.len()
        invariant
            i <= items@.len(),
            all == listed_items(items@),
            named(entries@) == function_items(all.take(i as int)),
        decreases items.len() - i,
    {
        assert(all.take(i + 1).drop_last() =~= all.take(i as int));
        let item = &items[i];
        if let Some(is_async) = item.is_async {
            assert(named(entries@.push((item.name, is_async))) =~= named(entries@).push(
                (item.name@, is_async),
            ));
            entries.push((item.name.clone(), is_async));
        }
        i = i + 1;
    }
    assert(all.take(i as int) =~= all);
    NameTable::from_entries(entries)
}

/// Which functions of each listed interface are asynchronous.
pub fn export_effects(listing: &Vec<ListedExtern>) -> (result: ExportEffects)
    ensures
        effects_in(result) == tabled(interface_entries(listed_externs(listing@))),
{
    let mut effects: ExportEffects = NameTable::new();
    let mut i: usize = 0;
    let ghost all = listed_externs(listing@);
    assert(effects_in(effects) =~= tabled(interface_entries(all.take(0))));
    while i < listing.len()
        invariant
            i <= listing@.len(),
            all == listed_externs(listing@),
            distinct_keys(effects@),
            effects_in(effects) == tabled(interface_entries(all.take(i as int))),
        decreases listing.len() - i,
    {
        assert(all.take(i + 1).drop_last() =~= all.take(i as int));
        let item = &listing[i];
        if let Some(items) = &item.items {
            let found = functions(items);
            let name = interface_name(item);
            let ghost entries = interface_entries(all.take(i as int));
            proof {
                lemma_filed_mapped(
                    effects@,
                    name@,
                    found,
                    |entry: (Seq<char>, NameTable<bool>)| (entry.0, entry.1@),
                );
                assert(entries.push((name@, found@)).drop_last() =~= entries);
            }
            effects.insert(name.to_string(), found);
        }
        i = i + 1;
    }
    assert(all.take(i as int) =~= all);
    effects
}

/// Which functions of each interface that a component exports are asynchronous.
pub fn component_export_effects(component: &Component) -> (result: ExportEffects)
    ensures
        effects_in(result) == tabled(interface_entries(exports_of(*component))),
{
    let listing = list_exports(component);
    export_effects(&listing)
}

/// Whether a function of an interface is asynchronous. One that is not known is not.
pub fn export_is_async(effects: &ExportEffects, interface: &str, function: &str) -> (result: bool)
    ensures
        result == (lookup(effects@, interface@) matches Some(functions) && lookup(
            functions@,
            function@,
        ) == Some(true)),
{
    match effects.get(interface) {
        Some(functions) => match functions.get(function) {
            Some(is_async) => *is_async,
            None => false,
        },
        None => false,
    }
}

/// How a component imports an interface: the name that it goes by there, and which functions
/// are asynchronous.
#[derive(Debug)]
pub struct ImportMetadata {
    pub linker_name: String,
    pub functions: NameTable<bool>,
}

/// The interfaces among imports, each with the name that it goes by, its functions and whether
/// they are asynchronous. What is no instance does not count.
pub open spec fn import_entries(externs: Seq<ExternView>) -> Seq<
    (Seq<char>, (Seq<char>, Seq<(Seq<char>, bool)>)),
>
    decreases externs.len(),
{
    if externs.len() == 0 {
        Seq::empty()
    } else {
        let earlier = import_entries(externs.drop_last());
        match externs.last().items {
            Some(items) => earlier.push(
                (
                    interface_of(externs.last()),
                    (externs.last().name, tabled(function_items(items))),
                ),
            ),
            None => earlier,
        }
    }
}

/// What a table of imports holds.
pub open spec fn imports_in(imports: NameTable<ImportMetadata>) -> Seq<
    (Seq<char>, (Seq<char>, Seq<(Seq<char>, bool)>)),
> {
    imports@.map_values(
        |entry: (Seq<char>, ImportMetadata)|
            (entry.0, (entry.1.linker_name@, entry.1.functions@)),
    )
}

/// How each listed interface is imported.
pub fn import_asyncness(listing: &Vec<ListedExtern>) -> (result: NameTable<ImportMetadata>)
    ensures
        imports_in(result) == tabled(import_entries(listed_externs(listing@))),
{
    let mut imports: NameTable<ImportMetadata> = NameTable::new();
    let mut i: usize = 0;
    let ghost all = listed_externs(listing@);
    assert(imports_in(imports) =~= tabled(import_entries(all.take(0))));
    while i < listing.len()
        invariant
            i <= listing@.len(),
            all == listed_externs(listing@),
            distinct_keys(imports@),
            imports_in(imports) == tabled(import_entries(all.take(i as int))),
        decreases listing.len() - i,
    {
        assert(all.take(i + 1).drop_last() =~= all.take(i as int));
        let item = &listing[i];
        if let Some(items) = &item.items {
            let name = interface_name(item);
            let found = ImportMetadata {
                linker_name: item.name.clone(),
                functions: functions(items),
            };
            let ghost entries = import_entries(all.take(i as int));
            proof {
                lemma_filed_mapped(
                    imports@,
                    name@,
                    found,
                    |entry: (Seq<char>, ImportMetadata)|
                        (entry.0, (entry.1.linker_name@, entry.1.functions@)),
                );
                assert(entries.push((name@, (found.linker_name@, found.functions@))).drop_last()
                    =~= entries);
            }
            imports.insert(name.to_string(), found);
        }
        i = i + 1;
    }
    assert(all.take(i as int) =~= all);
    imports
}

/// How a component imports each interface.
pub fn component_import_asyncness(component: &Component) -> (result: NameTable<ImportMetadata>)
    ensures
        imports_in(result) == tabled(import_entries(imports_of(*component))),
{
    let listing = list_imports(component);
    import_asyncness(&listing)
}

/// Gives a store the fuel that instantiation starts with, if that is set.
pub fn give_initial_fuel<T: 'static>(
    store: &mut FuelledStore<T>,
    initial_fuel: Option<u64>,
) -> (result: Result<(), wasmtime::Error>)
    ensures
        match result {
            Ok(_) => final(store)@ == match initial_fuel {
                Some(fuel) => old(store)@.push(fuel),
                None => old(store)@,
            },
            Err(_) => initial_fuel is Some && final(store)@ == old(store)@,
        },
{
    match initial_fuel {
        Some(fuel) => set_fuel(store, fuel),
        None => Ok(()),
    }
}

/// A component with its settings, ready to be instantiated. `C` is the component, `Ctx` the
/// data that its store will hold, `L` what limits each call and `M` what limits memory.
///
/// What the component exports and imports is not set here.
#[must_use]
pub struct Plugin<C, Ctx, L, M> {
    pub component: C,
    pub context: Ctx,
    pub interface_remaps: NameTable<Remap>,
    pub initial_fuel: Option<u64>,
    pub fuel_limiter: Option<L>,
    pub epoch_limiter: Option<L>,
    pub memory_limiter: Option<M>,
}

impl<C, Ctx, L, M> Plugin<C, Ctx, L, M> {
    /// A component without remaps and limits.
    pub fn new(component: C, context: Ctx) -> (result: Self)
        ensures
            result.component == component,
            result.context == context,
            result.interface_remaps@ == Seq::<(Seq<char>, Remap)>::empty(),
            result.initial_fuel is None,
            result.fuel_limiter is None,
            result.epoch_limiter is None,
            result.memory_limiter is None,
    {
        Plugin {
            component,
            context,
            interface_remaps: NameTable::new(),
            initial_fuel: None,
            fuel_limiter: None,
            epoch_limiter: None,
            memory_limiter: None,
        }
    }

    /// Sets the fuel that instantiation starts with. What is left of it stays for the calls
    /// that follow.
    pub fn with_initial_fuel(self, fuel: u64) -> (result: Self)
        ensures
            result == (Plugin { initial_fuel: Some(fuel), ..self }),
    {
        Plugin { initial_fuel: Some(fuel), ..self }
    }

    /// Sets what determines the fuel of each call. It hears the interface path, such as
    /// `my:package/api`, the function name and the function.
    pub fn with_fuel_limiter(self, limiter: L) -> (result: Self)
        ensures
            result == (Plugin { fuel_limiter: Some(limiter), ..self }),
    {
        Plugin { fuel_limiter: Some(limiter), ..self }
    }

    /// Sets what determines the epoch deadline of each call, in ticks. It hears what a fuel
    /// limiter hears.
    pub fn with_epoch_limiter(self, limiter: L) -> (result: Self)
        ensures
            result == (Plugin { epoch_limiter: Some(limiter), ..self }),
    {
        Plugin { epoch_limiter: Some(limiter), ..self }
    }

    /// Sets what limits the growth of memory and tables for as long as the plugin lives.
    pub fn with_memory_limiter(self, limiter: M) -> (result: Self)
        ensures
            result == (Plugin { memory_limiter: Some(limiter), ..self }),
    {
        Plugin { memory_limiter: Some(limiter), ..self }
    }

    /// Sets where requested interfaces, and items inside them, are found among the exports,
    /// by the name that is requested. Of two remaps under one name the later counts.
    pub fn remap_interfaces(self, interface_remaps: Vec<(String, Remap)>) -> (result: Self)
        ensures
            result.interface_remaps@ == tabled(named(interface_remaps@)),
            result == (Plugin { interface_remaps: result.interface_remaps, ..self }),
    {
        Plugin { interface_remaps: NameTable::from_entries(interface_remaps), ..self }
    }
}

/// A name without its version is what stands before the first mark: the whole name if it has
/// none, and else the mark follows it.
pub proof fn law_version_follows_the_name(name: Seq<char>)
    ensures
        version_mark(name) <= name.len(),
        without_version(name).len() == version_mark(name),
        forall|i: int| 0 <= i < version_mark(name) ==> without_version(name)[i] == #[trigger] name[i],
        forall|i: int| 0 <= i < version_mark(name) ==> #[trigger] name[i] != '@',
        version_mark(name) < name.len() ==> name[version_mark(name) as int] == '@',
    decreases name.len(),
{
    if name.len() > 0 && name[0] != '@' {
        let rest = name.skip(1);
        law_version_follows_the_name(rest);
        assert forall|i: int| 0 <= i < version_mark(name) implies #[trigger] name[i] != '@' by {
            if i > 0 {
                assert(rest[i - 1] == name[i]);
            }
        }
        if version_mark(name) < name.len() {
            assert(rest[version_mark(rest) as int] == name[version_mark(name) as int]);
        }
    }
}

/// An interface goes by what it says it implements, else by its own name, without a version
/// either way: two versions of an interface go by one name.
pub proof fn law_versions_go_by_one_name(item: ExternView, name: Seq<char>, version: Seq<char>)
    requires
        !name.contains('@'),
    ensures
        item.implements == Some(name + "@"@ + version) ==> interface_of(item) == name,
        item.implements == Some(name) ==> interface_of(item) == name,
        item.implements is None && item.name == name + "@"@ + version ==> interface_of(item) == name,
        item.implements is None && item.name == name ==> interface_of(item) == name,
{
    reveal_strlit("@");
    let versioned = name + "@"@ + version;
    assert forall|j: int| 0 <= j < name.len() implies name[j] != '@' by {
        assert(name.contains(name[j]));
    }
    assert forall|j: int| 0 <= j < name.len() implies versioned[j] != '@' by {
        assert(versioned[j] == name[j]);
    }
    assert(versioned[name.len() as int] == '@');
    lemma_version_mark(versioned, name.len() as int);
    lemma_version_mark(name, name.len() as int);
    assert(without_version(versioned) =~= name);
    assert(without_version(name) =~= name);
}

/// Of the items of an instance, the functions count, each as it is listed and in the order in
/// which they are, and nothing else does.
pub proof fn law_functions_count_as_listed(
    left: Seq<(Seq<char>, Option<bool>)>,
    item: (Seq<char>, Option<bool>),
    right: Seq<(Seq<char>, Option<bool>)>,
)
    ensures
        function_items(Seq::<(Seq<char>, Option<bool>)>::empty()).len() == 0,
        function_items(left + seq![item] + right) == function_items(left) + (match item.1 {
            Some(is_async) => seq![(item.0, is_async)],
            None => Seq::empty(),
        }) + function_items(right),
    decreases right.len(),
{
    let all = left + seq![item] + right;
    if right.len() == 0 {
        assert(all.drop_last() =~= left);
        assert(all.last() == item);
        assert(function_items(right).len() == 0);
    } else {
        law_functions_count_as_listed(left, item, right.drop_last());
        assert(all.drop_last() =~= left + seq![item] + right.drop_last());
        assert(all.last() == right.last());
    }
}

/// Of the exports of a component, the instances count, each under the interface that it goes by
/// and in the order in which they are listed, and nothing else does.
pub proof fn law_instances_count_as_listed(
    left: Seq<ExternView>,
    item: ExternView,
    right: Seq<ExternView>,
)
    ensures
        interface_entries(Seq::<ExternView>::empty()).len() == 0,
        interface_entries(left + seq![item] + right) == interface_entries(left) + (match item.items {
            Some(items) => seq![(interface_of(item), tabled(function_items(items)))],
            None => Seq::empty(),
        }) + interface_entries(right),
    decreases right.len(),
{
    let all = left + seq![item] + right;
    if right.len() == 0 {
        assert(all.drop_last() =~= left);
        assert(all.last() == item);
        assert(interface_entries(right).len() == 0);
    } else {
        law_instances_count_as_listed(left, item, right.drop_last());
        assert(all.drop_last() =~= left + seq![item] + right.drop_last());
        assert(all.last() == right.last());
    }
}

/// Of the imports of a component, the instances count, each under the interface that it goes by,
/// with its own name for the linker, in the order in which they are listed.
pub proof fn law_imports_count_as_listed(
    left: Seq<ExternView>,
    item: ExternView,
    right: Seq<ExternView>,
)
    ensures
        import_entries(Seq::<ExternView>::empty()).len() == 0,
        import_entries(left + seq![item] + right) == import_entries(left) + (match item.items {
            Some(items) => seq![(interface_of(item), (item.name, tabled(function_items(items))))],
            None => Seq::empty(),
        }) + import_entries(right),
    decreases right.len(),
{
    let all = left + seq![item] + right;
    if right.len() == 0 {
        assert(all.drop_last() =~= left);
        assert(all.last() == item);
        assert(import_entries(right).len() == 0);
    } else {
        law_imports_count_as_listed(left, item, right.drop_last());
        assert(all.drop_last() =~= left + seq![item] + right.drop_last());
        assert(all.last() == right.last());
    }
}

proof fn lemma_function_is_listed(items: Seq<(Seq<char>, Option<bool>)>, m: int)
    requires
        0 <= m < function_items(items).len(),
    ensures
        exists|j: int|
            0 <= j < items.len() && (#[trigger] items[j]).1 is Some && items[j].0 == function_items(
                items,
            )[m].0,
    decreases items.len(),
{
    if items.len() > 0 {
        let earlier = items.drop_last();
        if m < function_items(earlier).len() {
            lemma_function_is_listed(earlier, m);
            let j = choose|j: int|
                0 <= j < earlier.len() && (#[trigger] earlier[j]).1 is Some && earlier[j].0
                    == function_items(earlier)[m].0;
            assert(items[j] == earlier[j]);
        } else {
            assert(items[items.len() - 1].1 is Some);
        }
    }
}

/// A function of an instance is asynchronous as its last listing under its name says.
pub proof fn law_last_listed_function_counts(items: Seq<(Seq<char>, Option<bool>)>, i: int)
    requires
        0 <= i < items.len(),
        items[i].1 is Some,
        forall|j: int|
            i < j < items.len() && (#[trigger] items[j]).1 is Some ==> items[j].0 != items[i].0,
    ensures
        lookup(tabled(function_items(items)), items[i].0) == Some(items[i].1->0),
{
    let left = items.take(i);
    let right = items.skip(i + 1);
    let entries = function_items(items);
    law_functions_count_as_listed(left, items[i], right);
    assert(left + seq![items[i]] + right =~= items);
    let place = function_items(left).len() as int;
    assert(entries[place] == (items[i].0, items[i].1->0));
    assert(filed_at(entries, items[i].0, place));
    assert forall|m: int| place < m implies !#[trigger] filed_at(entries, items[i].0, m) by {
        if m < entries.len() {
            assert(entries[m] == function_items(right)[m - place - 1]);
            lemma_function_is_listed(right, m - place - 1);
            let j = choose|j: int|
                0 <= j < right.len() && (#[trigger] right[j]).1 is Some && right[j].0
                    == function_items(right)[m - place - 1].0;
            assert(right[j] == items[i + 1 + j]);
        }
    }
    law_last_entry_counts(entries, items[i].0);
}

proof fn lemma_interface_is_listed(externs: Seq<ExternView>, m: int)
    requires
        0 <= m < interface_entries(externs).len(),
    ensures
        exists|j: int|
            0 <= j < externs.len() && (#[trigger] externs[j]).items is Some && interface_of(
                externs[j],
            ) == interface_entries(externs)[m].0,
    decreases externs.len(),
{
    if externs.len() > 0 {
        let earlier = externs.drop_last();
        if m < interface_entries(earlier).len() {
            lemma_interface_is_listed(earlier, m);
            let j = choose|j: int|
                0 <= j < earlier.len() && (#[trigger] earlier[j]).items is Some && interface_of(
                    earlier[j],
                ) == interface_entries(earlier)[m].0;
            assert(externs[j] == earlier[j]);
        } else {
            assert(externs[externs.len() - 1].items is Some);
        }
    }
}

/// An export is asynchronous as the last listing of its function says in the last instance that
/// is listed under its interface.
pub proof fn law_last_listed_instance_counts(externs: Seq<ExternView>, i: int, k: int)
    requires
        0 <= i < externs.len(),
        externs[i].items is Some,
        forall|j: int|
            i < j < externs.len() && (#[trigger] externs[j]).items is Some ==> interface_of(
                externs[j],
            ) != interface_of(externs[i]),
    ensures
        lookup(tabled(interface_entries(externs)), interface_of(externs[i])) is Some,
        ({
            let items = externs[i].items->0;
            let functions = lookup(
                tabled(interface_entries(externs)),
                interface_of(externs[i]),
            )->0;
            0 <= k < items.len() && items[k].1 is Some && (forall|j: int|
                k < j < items.len() && (#[trigger] items[j]).1 is Some ==> items[j].0 != items[k].0)
                ==> lookup(functions, items[k].0) == Some(items[k].1->0)
        }),
{
    let left = externs.take(i);
    let right = externs.skip(i + 1);
    let name = interface_of(externs[i]);
    let entries = interface_entries(externs);
    law_instances_count_as_listed(left, externs[i], right);
    assert(left + seq![externs[i]] + right =~= externs);
    let place = interface_entries(left).len() as int;
    assert(entries[place] == (name, tabled(function_items(externs[i].items->0))));
    assert(filed_at(entries, name, place));
    assert forall|m: int| place < m implies !#[trigger] filed_at(entries, name, m) by {
        if m < entries.len() {
            assert(entries[m] == interface_entries(right)[m - place - 1]);
            lemma_interface_is_listed(right, m - place - 1);
            let j = choose|j: int|
                0 <= j < right.len() && (#[trigger] right[j]).items is Some && interface_of(right[j])
                    == interface_entries(right)[m - place - 1].0;
            assert(right[j] == externs[i + 1 + j]);
        }
    }
    law_last_entry_counts(entries, name);
    let items = externs[i].items->0;
    if 0 <= k < items.len() && items[k].1 is Some && (forall|j: int|
        k < j < items.len() && (#[trigger] items[j]).1 is Some ==> items[j].0 != items[k].0) {
        law_last_listed_function_counts(items, k);
    }
}

proof fn lemma_import_is_listed(externs: Seq<ExternView>, m: int)
    requires
        0 <= m < import_entries(externs).len(),
    ensures
        exists|j: int|
            0 <= j < externs.len() && (#[trigger] externs[j]).items is Some && interface_of(
                externs[j],
            ) == import_entries(externs)[m].0,
    decreases externs.len(),
{
    if externs.len() > 0 {
        let earlier = externs.drop_last();
        if m < import_entries(earlier).len() {
            lemma_import_is_listed(earlier, m);
            let j = choose|j: int|
                0 <= j < earlier.len() && (#[trigger] earlier[j]).items is Some && interface_of(
                    earlier[j],
                ) == import_entries(earlier)[m].0;
            assert(externs[j] == earlier[j]);
        } else {
            assert(externs[externs.len() - 1].items is Some);
        }
    }
}

/// An import is linked under its own name, version and all, and its functions are asynchronous as
/// the last instance says that is listed under its interface.
pub proof fn law_last_listed_import_counts(externs: Seq<ExternView>, i: int)
    requires
        0 <= i < externs.len(),
        externs[i].items is Some,
        forall|j: int|
            i < j < externs.len() && (#[trigger] externs[j]).items is Some ==> interface_of(
                externs[j],
            ) != interface_of(externs[i]),
    ensures
        lookup(tabled(import_entries(externs)), interface_of(externs[i])) == Some(
            (externs[i].name, tabled(function_items(externs[i].items->0))),
        ),
{
    let left = externs.take(i);
    let right = externs.skip(i + 1);
    let name = interface_of(externs[i]);
    let entries = import_entries(externs);
    law_imports_count_as_listed(left, externs[i], right);
    assert(left + seq![externs[i]] + right =~= externs);
    let place = import_entries(left).len() as int;
    assert(entries[place].0 == name);
    assert(filed_at(entries, name, place));
    assert forall|m: int| place < m implies !#[trigger] filed_at(entries, name, m) by {
        if m < entries.len() {
            assert(entries[m] == import_entries(right)[m - place - 1]);
            lemma_import_is_listed(right, m - place - 1);
            let j = choose|j: int|
                0 <= j < right.len() && (#[trigger] right[j]).items is Some && interface_of(right[j])
                    == import_entries(right)[m - place - 1].0;
            assert(right[j] == externs[i + 1 + j]);
        }
    }
    law_last_entry_counts(entries, name);
}

/// An export is asynchronous exactly where the table of exports says so of the function in the
/// interface: what is not listed is not.
pub proof fn law_unlisted_exports_are_not_asynchronous(
    effects: &ExportEffects,
    interface: &str,
    function: &str,
    result: bool,
)
    requires
        call_ensures(export_is_async, (effects, interface, function), result),
    ensures
        lookup(effects@, interface@) is None ==> !result,
        lookup(effects@, interface@) matches Some(functions) ==> (result <==> lookup(
            functions@,
            function@,
        ) == Some(true)),
{
}

/// A store gets its initial fuel once and in full if any is set, and nothing if none is.
pub proof fn law_initial_fuel_is_given_once<T: 'static>(
    store: &mut FuelledStore<T>,
    initial_fuel: Option<u64>,
    result: Result<(), wasmtime::Error>,
)
    requires
        call_ensures(give_initial_fuel::<T>, (store, initial_fuel), result),
    ensures
        initial_fuel is None ==> result is Ok && final(store)@ == old(store)@,
        initial_fuel is Some && result is Ok ==> final(store)@.len() == old(store)@.len() + 1
            && final(store)@.last() == initial_fuel->0,
        result is Err ==> final(store)@ == old(store)@,
{
}

/// Each setting of a plugin is what was set last for it, and setting one leaves every other as it
/// was.
pub proof fn law_settings_do_not_touch_each_other<C, Ctx, L, M>(
    plugin: Plugin<C, Ctx, L, M>,
    fuel: u64,
    limiter: L,
    memory: M,
    fuelled: Plugin<C, Ctx, L, M>,
    fuel_limited: Plugin<C, Ctx, L, M>,
    epoch_limited: Plugin<C, Ctx, L, M>,
    memory_limited: Plugin<C, Ctx, L, M>,
)
    requires
        call_ensures(Plugin::<C, Ctx, L, M>::with_initial_fuel, (plugin, fuel), fuelled),
        call_ensures(Plugin::<C, Ctx, L, M>::with_fuel_limiter, (plugin, limiter), fuel_limited),
        call_ensures(Plugin::<C, Ctx, L, M>::with_epoch_limiter, (plugin, limiter), epoch_limited),
        call_ensures(Plugin::<C, Ctx, L, M>::with_memory_limiter, (plugin, memory), memory_limited),
    ensures
        fuelled.initial_fuel == Some(fuel),
        fuelled == (Plugin { initial_fuel: fuelled.initial_fuel, ..plugin }),
        fuel_limited.fuel_limiter == Some(limiter),
        fuel_limited == (Plugin { fuel_limiter: fuel_limited.fuel_limiter, ..plugin }),
        epoch_limited.epoch_limiter == Some(limiter),
        epoch_limited == (Plugin { epoch_limiter: epoch_limited.epoch_limiter, ..plugin }),
        memory_limited.memory_limiter == Some(memory),
        memory_limited == (Plugin { memory_limiter: memory_limited.memory_limiter, ..plugin }),
{
}

} // verus!
