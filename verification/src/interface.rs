//! Interfaces: what they declare, and how their functions are offered to a plugin that imports
//! them.

use crate::names::{NameTable, law_last_entry_counts, named, tabled};
use crate::ring::{filed_at, has_key, lookup};
use vstd::prelude::*;

verus! {

/// Whether a function is freestanding or a resource method. Constructors are freestanding.
///
/// A call of a freestanding function goes to every plugin, one of a method to the plugin that
/// owns the resource.
#[derive(Clone, Copy, Debug, PartialEq, Eq, Structural)]
pub enum FunctionKind {
    /// A freestanding function.
    Freestanding,
    /// A resource method, which has a `self` parameter.
    Method,
}

/// What a function returns, as far as dispatch must know it.
///
/// Resource handles are wrapped when they pass from one plugin to another. Where it is not
/// certain that there are none, [`MayContainResources`](Self::MayContainResources) is right.
#[derive(Clone, Copy, Debug, PartialEq, Eq, Hash, Structural)]
pub enum ReturnKind {
    /// The function returns nothing.
    Void,
    /// The function may return resource handles.
    MayContainResources,
    /// The function is certain to return no resource handles.
    AssumeNoResources,
}

impl Default for ReturnKind {
    fn default() -> (result: Self)
        ensures
            result == ReturnKind::Void,
    {
        ReturnKind::Void
    }
}

impl ReturnKind {
    /// The kind in words.
    pub fn message(&self) -> (result: String)
        ensures
            result@ == match self {
                ReturnKind::Void => "Function returns no data"@,
                ReturnKind::MayContainResources => "Return type may contain resources"@,
                ReturnKind::AssumeNoResources =>
                    "Function is assumed to not return any resources"@,
            },
    {
        match self {
            ReturnKind::Void => "Function returns no data".to_string(),
            ReturnKind::MayContainResources => "Return type may contain resources".to_string(),
            ReturnKind::AssumeNoResources =>
                "Function is assumed to not return any resources".to_string(),
        }
    }
}

/// What an interface declares of a function.
#[derive(Clone, Copy, Debug, PartialEq, Eq, Structural)]
pub struct Function {
    kind: FunctionKind,
    return_kind: ReturnKind,
}

impl Function {
    /// Whether it is freestanding or a method.
    pub closed spec fn declared_kind(&self) -> FunctionKind {
        self.kind
    }

    /// What it returns.
    pub closed spec fn declared_return(&self) -> ReturnKind {
        self.return_kind
    }

    /// A function of the given kinds.
    pub fn new(kind: FunctionKind, return_kind: ReturnKind) -> (result: Self)
        ensures
            result.declared_kind() == kind,
            result.declared_return() == return_kind,
    {
        Function { kind, return_kind }
    }

    /// What the function returns.
    pub fn return_kind(&self) -> (result: ReturnKind)
        ensures
            result == self.declared_return(),
    {
        self.return_kind
    }

    /// Whether the function is freestanding or a method.
    pub fn kind(&self) -> (result: FunctionKind)
        ensures
            result == self.declared_kind(),
    {
        self.kind
    }
}

/// How a function is offered to a plugin that imports it.
#[derive(Clone, Copy, Debug, PartialEq, Eq, Structural)]
pub enum HostCall {
    /// The call runs to its end while the plugin waits.
    Blocking,
    /// The plugin takes it for an ordinary function, and the call may suspend the store.
    Suspending,
    /// The plugin imports an asynchronous function, and calls run side by side.
    Concurrent,
}

/// Which plugins a call goes to.
#[derive(Clone, Copy, Debug, PartialEq, Eq, Structural)]
pub enum Route {
    /// Every plugin.
    All,
    /// The plugin that owns the resource.
    Owner,
}

/// One function that is to be offered.
#[derive(Debug)]
pub struct LinkStep {
    pub name: String,
    pub function: Function,
    pub call: HostCall,
    pub route: Route,
}

/// Why an interface cannot be linked.
#[derive(Debug)]
pub enum LinkError {
    /// A plugin that was instantiated synchronously exports an asynchronous function.
    SyncInstanceAsyncExport { interface: String, function: String },
}

impl LinkError {
    /// The error in words.
    pub open spec fn text(&self) -> Seq<char> {
        match self {
            LinkError::SyncInstanceAsyncExport { interface, function } =>
                "synchronously instantiated plugin exposes async export `"@ + interface@ + "."@
                    + function@ + "`"@,
        }
    }

    /// The error in words.
    pub fn message(&self) -> (result: String)
        ensures
            result@ == self.text(),
    {
        match self {
            LinkError::SyncInstanceAsyncExport { interface, function } =>
                "synchronously instantiated plugin exposes async export `".to_string().concat(
                    interface.as_str(),
                ).concat(".").concat(function.as_str()).concat("`"),
        }
    }
}

/// How an interface is linked: its functions are offered one by one, then either linking is
/// refused or the resources are offered.
#[derive(Debug)]
pub struct LinkPlan {
    pub steps: Vec<LinkStep>,
    pub refusal: Option<LinkError>,
    pub resources: Vec<String>,
}

/// Where calls of a function go.
pub open spec fn route_of(function: Function) -> Route {
    match function.declared_kind() {
        FunctionKind::Freestanding => Route::All,
        FunctionKind::Method => Route::Owner,
    }
}

/// A table says yes under a name.
pub open spec fn marked(flags: Option<Seq<(Seq<char>, bool)>>, name: Seq<char>) -> bool {
    flags matches Some(entries) && lookup(entries, name) == Some(true)
}

/// How a function is offered that a plugin imports asynchronously or not.
pub open spec fn call_of(imports: Option<Seq<(Seq<char>, bool)>>, name: Seq<char>) -> HostCall {
    if marked(imports, name) {
        HostCall::Concurrent
    } else {
        HostCall::Suspending
    }
}

/// The contents of a table that may be missing.
pub open spec fn opened_flags(flags: Option<&NameTable<bool>>) -> Option<Seq<(Seq<char>, bool)>> {
    match flags {
        Some(table) => Some(table@),
        None => None,
    }
}

/// `step` offers the function `entry` by `call`.
pub open spec fn offers(step: LinkStep, entry: (Seq<char>, Function), call: HostCall) -> bool {
    &&& step.name@ == entry.0
    &&& step.function == entry.1
    &&& step.call == call
    &&& step.route == route_of(entry.1)
}

fn route(function: &Function) -> (result: Route)
    ensures
        result == route_of(*function),
{
    match function.kind() {
        FunctionKind::Freestanding => Route::All,
        FunctionKind::Method => Route::Owner,
    }
}

fn is_marked(flags: Option<&NameTable<bool>>, name: &String) -> (result: bool)
    ensures
        result == marked(opened_flags(flags), name@),
{
    match flags {
        Some(table) => match table.get(name.as_str()) {
            Some(flag) => *flag,
            None => false,
        },
        None => false,
    }
}

/// What an interface declares.
#[verifier::ext_equal]
pub struct InterfaceView {
    pub functions: Seq<(Seq<char>, Function)>,
    pub resources: Seq<Seq<char>>,
}

/// The names that occur in `entries`, in order.
pub open spec fn names_in<V>(entries: Seq<(Seq<char>, V)>) -> Seq<Seq<char>> {
    entries.map_values(|entry: (Seq<char>, V)| entry.0)
}

/// Names as entries of a table that holds nothing else.
pub open spec fn bare_entries(names: Seq<String>) -> Seq<(Seq<char>, ())> {
    names.map_values(|name: String| (name@, ()))
}

/// A single interface: the functions and resources that whoever implements it must export.
///
/// The name of the interface is not a part of it.
#[derive(Debug)]
pub struct Interface {
    functions: NameTable<Function>,
    resources: NameTable<()>,
}

impl View for Interface {
    type V = InterfaceView;

    closed spec fn view(&self) -> InterfaceView {
        InterfaceView { functions: self.functions@, resources: names_in(self.resources@) }
    }
}

impl Default for Interface {
    fn default() -> (result: Self)
        ensures
            result@ == (InterfaceView { functions: Seq::empty(), resources: Seq::empty() }),
    {
        let interface = Interface { functions: NameTable::new(), resources: NameTable::new() };
        assert(names_in(interface.resources@) =~= Seq::empty());
        interface
    }
}

impl Clone for Interface {
    fn clone(&self) -> (result: Self)
        ensures
            result@ == self@,
    {
        Interface { functions: self.functions.clone(), resources: self.resources.clone() }
    }
}

impl Interface {
    /// An interface of these functions and resources. Of two functions under one name the
    /// later counts, and a resource counts once.
    pub fn new(functions: Vec<(String, Function)>, resources: Vec<String>) -> (result: Self)
        ensures
            result@ == (InterfaceView {
                functions: tabled(named(functions@)),
                resources: names_in(tabled(bare_entries(resources@))),
            }),
    {
        let mut entries: Vec<(String, ())> = Vec::new();
        let ghost all = resources@;
        for name in it: resources
            invariant
                it.seq() == all,
                named(entries@) == bare_entries(all).take(it.index()),
        {
            assert(name == all[it.index()]);
            assert(named(entries@.push((name, ()))) =~= named(entries@).push((name@, ())));
            assert(bare_entries(all).take(it.index() + 1) =~= bare_entries(all).take(
                it.index(),
            ).push((name@, ())));
            entries.push((name, ()));
        }
        assert(bare_entries(all).take(all.len() as int) =~= bare_entries(all));
        Interface {
            functions: NameTable::from_entries(functions),
            resources: NameTable::from_entries(entries),
        }
    }

    /// The function under a name.
    pub fn function(&self, name: &str) -> (result: Option<&Function>)
        ensures
            match result {
                Some(function) => lookup(self@.functions, name@) == Some(*function),
                None => lookup(self@.functions, name@) is None,
            },
    {
        self.functions.get(name)
    }

    /// The name of every function.
    pub fn function_names(&self) -> (result: Vec<&str>)
        ensures
            result@.len() == self@.functions.len(),
            forall|i: int|
                0 <= i < result@.len() ==> (#[trigger] result@[i])@ == self@.functions[i].0,
    {
        self.functions.names()
    }

    /// The names of the resources, for a plan that is not refused.
    fn resource_names(&self) -> (result: Vec<String>)
        ensures
            listed(result@) == self@.resources,
    {
        let mut names: Vec<String> = Vec::new();
        let mut i: usize = 0;
        while i < self.resources.len()
            invariant
                i <= self.resources@.len(),
                listed(names@) == self@.resources.take(i as int),
            decreases self.resources@.len() - i,
        {
            let entry = self.resources.entry(i);
            assert(listed(names@.push(*entry.0)) =~= listed(names@).push(entry.0@));
            assert(self@.resources.take(i + 1) =~= self@.resources.take(i as int).push(entry.0@));
            names.push(entry.0.clone());
            i = i + 1;
        }
        assert(self@.resources.take(i as int) =~= self@.resources);
        names
    }

    /// How the interface is offered to a plugin that is linked synchronously.
    pub fn add_to_linker(&self) -> (result: LinkPlan)
        ensures
            result.refusal is None,
            result.steps@.len() == self@.functions.len(),
            forall|i: int|
                0 <= i < result.steps@.len() ==> offers(
                    #[trigger] result.steps@[i],
                    self@.functions[i],
                    HostCall::Blocking,
                ),
            listed(result.resources@) == self@.resources,
    {
        let mut steps: Vec<LinkStep> = Vec::new();
        let mut i: usize = 0;
        while i < self.functions.len()
            invariant
                i <= self@.functions.len(),
                self@.functions == self.functions@,
                steps@.len() == i,
                forall|j: int|
                    0 <= j < i ==> offers(
                        #[trigger] steps@[j],
                        self@.functions[j],
                        HostCall::Blocking,
                    ),
            decreases self@.functions.len() - i,
        {
            let (name, function) = self.functions.entry(i);
            steps.push(
                LinkStep {
                    name: name.clone(),
                    function: *function,
                    call: HostCall::Blocking,
                    route: route(function),
                },
            );
            i = i + 1;
        }
        LinkPlan { steps, refusal: None, resources: self.resource_names() }
    }

    /// How the interface is offered to a plugin that is linked asynchronously, where the
    /// plugins behind it were instantiated synchronously. Such plugins cannot run an
    /// asynchronous function: at the first one that `exports` marks as such, linking is
    /// refused. `imports` marks what the plugin imports asynchronously.
    pub fn add_to_linker_async_sync(
        &self,
        interface_ident: &str,
        exports: &NameTable<bool>,
        imports: Option<&NameTable<bool>>,
    ) -> (result: LinkPlan)
        ensures
            result.steps@.len() <= self@.functions.len(),
            forall|i: int|
                0 <= i < result.steps@.len() ==> offers(
                    #[trigger] result.steps@[i],
                    self@.functions[i],
                    call_of(opened_flags(imports), self@.functions[i].0),
                ) && !marked(Some(exports@), self@.functions[i].0),
            match result.refusal {
                None => result.steps@.len() == self@.functions.len() && listed(result.resources@)
                    == self@.resources,
                Some(LinkError::SyncInstanceAsyncExport { interface, function }) => {
                    &&& result.steps@.len() < self@.functions.len()
                    &&& interface@ == interface_ident@
                    &&& function@ == self@.functions[result.steps@.len() as int].0
                    &&& marked(Some(exports@), function@)
                    &&& result.resources@.len() == 0
                },
            },
    {
        let mut steps: Vec<LinkStep> = Vec::new();
        let mut i: usize = 0;
        while i < self.functions.len()
            invariant
                i <= self@.functions.len(),
                self@.functions == self.functions@,
                steps@.len() == i,
                forall|j: int|
                    0 <= j < i ==> offers(
                        #[trigger] steps@[j],
                        self@.functions[j],
                        call_of(opened_flags(imports), self@.functions[j].0),
                    ) && !marked(Some(exports@), self@.functions[j].0),
            decreases self@.functions.len() - i,
        {
            let (name, function) = self.functions.entry(i);
            if is_marked(Some(exports), name) {
                let refusal = LinkError::SyncInstanceAsyncExport {
                    interface: interface_ident.to_string(),
                    function: name.clone(),
                };
                return LinkPlan { steps, refusal: Some(refusal), resources: Vec::new() };
            }
            steps.push(import_step(name, function, imports));
            i = i + 1;
        }
        LinkPlan { steps, refusal: None, resources: self.resource_names() }
    }

    /// How the interface is offered to a plugin that is linked asynchronously, as are the
    /// plugins behind it. `imports` marks what the plugin imports asynchronously.
    pub fn add_to_linker_async(&self, imports: Option<&NameTable<bool>>) -> (result: LinkPlan)
        ensures
            result.refusal is None,
            result.steps@.len() == self@.functions.len(),
            forall|i: int|
                0 <= i < result.steps@.len() ==> offers(
                    #[trigger] result.steps@[i],
                    self@.functions[i],
                    call_of(opened_flags(imports), self@.functions[i].0),
                ),
            listed(result.resources@) == self@.resources,
    {
        let mut steps: Vec<LinkStep> = Vec::new();
        let mut i: usize = 0;
        while i < self.functions.len()
            invariant
                i <= self@.functions.len(),
                self@.functions == self.functions@,
                steps@.len() == i,
                forall|j: int|
                    0 <= j < i ==> offers(
                        #[trigger] steps@[j],
                        self@.functions[j],
                        call_of(opened_flags(imports), self@.functions[j].0),
                    ),
            decreases self@.functions.len() - i,
        {
            let (name, function) = self.functions.entry(i);
            steps.push(import_step(name, function, imports));
            i = i + 1;
        }
        LinkPlan { steps, refusal: None, resources: self.resource_names() }
    }
}

/// Strings as text.
pub open spec fn listed(names: Seq<String>) -> Seq<Seq<char>> {
    names.map_values(|name: String| name@)
}

fn import_step(name: &String, function: &Function, imports: Option<&NameTable<bool>>) -> (result:
    LinkStep)
    ensures
        offers(result, (name@, *function), call_of(opened_flags(imports), name@)),
{
    let call = if is_marked(imports, name) {
        HostCall::Concurrent
    } else {
        HostCall::Suspending
    };
    LinkStep { name: name.clone(), function: *function, call, route: route(function) }
}

/// A call of a freestanding function goes to every plugin, and only one of a method goes to the
/// plugin that owns the resource.
pub proof fn law_methods_alone_go_to_the_owner(function: Function)
    ensures
        route_of(function) == Route::Owner <==> function.declared_kind() == FunctionKind::Method,
        route_of(function) == Route::All <==> function.declared_kind()
            == FunctionKind::Freestanding,
{
}

/// Calls run side by side exactly where the plugin imports the function as an asynchronous one.
/// What a plugin does not say of its imports, or says otherwise, suspends.
pub proof fn law_only_asynchronous_imports_run_side_by_side(
    imports: Option<Seq<(Seq<char>, bool)>>,
    name: Seq<char>,
)
    ensures
        call_of(imports, name) == HostCall::Concurrent <==> imports is Some && lookup(
            imports->0,
            name,
        ) == Some(true),
        call_of(imports, name) == HostCall::Suspending <==> imports is None || lookup(
            imports->0,
            name,
        ) != Some(true),
{
}

/// What is offered is the function that was declared, under its name.
pub proof fn law_offer_is_the_declared_function(
    step: LinkStep,
    entry: (Seq<char>, Function),
    call: HostCall,
)
    requires
        offers(step, entry, call),
    ensures
        step.name@ == entry.0,
        step.function == entry.1,
        step.call == call,
        step.route == Route::Owner <==> entry.1.declared_kind() == FunctionKind::Method,
{
}

/// The resources of an interface are those that were given, each once.
pub proof fn law_resources_count_once(names: Seq<String>, name: Seq<char>)
    ensures
        names_in(tabled(bare_entries(names))).contains(name) <==> exists|i: int|
            0 <= i < names.len() && (#[trigger] names[i])@ == name,
        names_in(tabled(bare_entries(names))).no_duplicates(),
{
    let entries = bare_entries(names);
    let table = tabled(entries);
    let held = names_in(table);
    law_last_entry_counts(entries, name);
    assert forall|i: int, j: int| 0 <= i < j < held.len() implies held[i] != held[j] by {
        assert(table[i].0 == held[i] && table[j].0 == held[j]);
    }
    if exists|i: int| 0 <= i < names.len() && (#[trigger] names[i])@ == name {
        let i = choose|i: int| 0 <= i < names.len() && (#[trigger] names[i])@ == name;
        assert(filed_at(entries, name, i));
        assert(has_key(table, name));
        let k = choose|k: int| filed_at(table, name, k);
        assert(held[k] == name);
    }
    if held.contains(name) {
        let k = choose|k: int| 0 <= k < held.len() && held[k] == name;
        assert(filed_at(table, name, k));
        assert(has_key(entries, name));
        let i = choose|i: int| filed_at(entries, name, i);
        assert(names[i]@ == name);
    }
}

/// Of the functions of an interface, the last that was given under a name is the one that is
/// found, and a name that was not given is not found.
pub proof fn law_last_declared_function_counts(
    functions: Seq<(String, Function)>,
    name: Seq<char>,
    i: int,
)
    ensures
        0 <= i < functions.len() && functions[i].0@ == name && (forall|j: int|
            i < j < functions.len() ==> (#[trigger] functions[j]).0@ != name) ==> lookup(
            tabled(named(functions)),
            name,
        ) == Some(functions[i].1),
        (forall|j: int| 0 <= j < functions.len() ==> (#[trigger] functions[j]).0@ != name)
            ==> lookup(tabled(named(functions)), name) is None,
{
    let entries = named(functions);
    law_last_entry_counts(entries, name);
    if 0 <= i < functions.len() && functions[i].0@ == name && (forall|j: int|
        i < j < functions.len() ==> (#[trigger] functions[j]).0@ != name) {
        assert(filed_at(entries, name, i));
        assert forall|j: int| i < j implies !#[trigger] filed_at(entries, name, j) by {
            if j < functions.len() {
                assert(functions[j].0@ != name);
            }
        }
    }
    if forall|j: int| 0 <= j < functions.len() ==> (#[trigger] functions[j]).0@ != name {
        assert forall|j: int| !#[trigger] filed_at(entries, name, j) by {
            if 0 <= j < functions.len() {
                assert(functions[j].0@ != name);
            }
        }
    }
}

/// A synchronous plugin is offered every function of an interface, in order, each of which runs to
/// its end while the plugin waits.
pub proof fn law_synchronous_linking_offers_everything(interface: &Interface, plan: LinkPlan)
    requires
        call_ensures(Interface::add_to_linker, (interface,), plan),
    ensures
        plan.refusal is None,
        plan.steps@.len() == interface@.functions.len(),
        forall|i: int|
            0 <= i < plan.steps@.len() ==> (#[trigger] plan.steps@[i]).name@
                == interface@.functions[i].0 && plan.steps@[i].function
                == interface@.functions[i].1 && plan.steps@[i].call == HostCall::Blocking,
        plan.resources@.len() == interface@.resources.len(),
        forall|i: int|
            0 <= i < plan.resources@.len() ==> (#[trigger] plan.resources@[i])@
                == interface@.resources[i],
{
    assert forall|i: int| 0 <= i < plan.steps@.len() implies (#[trigger] plan.steps@[i]).name@
        == interface@.functions[i].0 && plan.steps@[i].function == interface@.functions[i].1
        && plan.steps@[i].call == HostCall::Blocking by {
        assert(offers(plan.steps@[i], interface@.functions[i], HostCall::Blocking));
    }
    assert(listed(plan.resources@).len() == plan.resources@.len());
    assert forall|i: int| 0 <= i < plan.resources@.len() implies (#[trigger] plan.resources@[i])@
        == interface@.resources[i] by {
        assert(listed(plan.resources@)[i] == plan.resources@[i]@);
    }
}

/// A plugin that was instantiated synchronously is refused at the first asynchronous function that
/// it exports, by the name of the interface and of that function, and is offered what comes before
/// it. One that exports none is offered everything.
pub proof fn law_first_asynchronous_export_is_refused(
    interface: &Interface,
    interface_ident: &str,
    exports: &NameTable<bool>,
    imports: Option<&NameTable<bool>>,
    plan: LinkPlan,
    i: int,
)
    requires
        call_ensures(
            Interface::add_to_linker_async_sync,
            (interface, interface_ident, exports, imports),
            plan,
        ),
        0 <= i < interface@.functions.len(),
        lookup(exports@, interface@.functions[i].0) == Some(true),
        forall|j: int|
            0 <= j < i ==> lookup(exports@, (#[trigger] interface@.functions[j]).0) != Some(true),
    ensures
        plan.refusal matches Some(LinkError::SyncInstanceAsyncExport { interface: named, function })
            && named@ == interface_ident@ && function@ == interface@.functions[i].0,
        plan.steps@.len() == i,
        plan.resources@.len() == 0,
{
    if plan.steps@.len() > i {
        assert(offers(
            plan.steps@[i],
            interface@.functions[i],
            call_of(opened_flags(imports), interface@.functions[i].0),
        ));
    }
    if plan.steps@.len() < i {
        assert(lookup(exports@, interface@.functions[plan.steps@.len() as int].0) != Some(true));
    }
}

/// An asynchronous plugin is offered every function of an interface, in order, and calls run side
/// by side exactly for those that it imports as asynchronous ones.
pub proof fn law_asynchronous_linking_offers_everything(
    interface: &Interface,
    imports: Option<&NameTable<bool>>,
    plan: LinkPlan,
)
    requires
        call_ensures(Interface::add_to_linker_async, (interface, imports), plan),
    ensures
        plan.refusal is None,
        plan.steps@.len() == interface@.functions.len(),
        forall|i: int|
            0 <= i < plan.steps@.len() ==> (#[trigger] plan.steps@[i]).name@
                == interface@.functions[i].0 && plan.steps@[i].function
                == interface@.functions[i].1 && plan.steps@[i].call != HostCall::Blocking && (
            plan.steps@[i].call == HostCall::Concurrent <==> imports is Some && lookup(
                imports->0@,
                interface@.functions[i].0,
            ) == Some(true)),
{
    assert forall|i: int| 0 <= i < plan.steps@.len() implies (#[trigger] plan.steps@[i]).name@
        == interface@.functions[i].0 && plan.steps@[i].function == interface@.functions[i].1
        && plan.steps@[i].call != HostCall::Blocking && (plan.steps@[i].call
        == HostCall::Concurrent <==> imports is Some && lookup(
        imports->0@,
        interface@.functions[i].0,
    ) == Some(true)) by {
        assert(offers(
            plan.steps@[i],
            interface@.functions[i],
            call_of(opened_flags(imports), interface@.functions[i].0),
        ));
    }
}

} // verus!
