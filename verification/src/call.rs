//! One call into a plugin: which export it goes to, what is asked before it, and what becomes of
//! its result.

use crate::error::{DispatchError, RuntimeFault};
use crate::fuel::{FuelledStore, set_fuel};
use crate::interface::{Function, ReturnKind};
use crate::names::NameTable;
use crate::remap::{Remap, exported_interface, exported_item};
use crate::ring::lookup;
use crate::value::{
    Value, ensure_supported_value, ensure_supported_values, first_barred, first_barred_of,
    law_passes_iff_supported, law_report_names_what_is_barred, reports, supported,
};
use vstd::prelude::*;

verus! {

/// The path of an interface within its package.
pub open spec fn interface_path(package_name: Seq<char>, interface_name: Seq<char>) -> Seq<char> {
    package_name + "/"@ + interface_name
}

/// How a function is named in an error.
pub open spec fn function_path(interface_path: Seq<char>, function_name: Seq<char>) -> Seq<char> {
    interface_path + ":"@ + function_name
}

/// The path and the name under which a plugin with these remaps exports a function.
pub open spec fn exported_as(
    interface_remaps: Seq<(Seq<char>, Remap)>,
    package_name: Seq<char>,
    interface_name: Seq<char>,
    function_name: Seq<char>,
) -> (Seq<char>, Seq<char>) {
    match lookup(interface_remaps, interface_name) {
        Some(remap) => (
            interface_path(package_name, exported_interface(remap@, interface_name)),
            exported_item(remap@, function_name),
        ),
        None => (interface_path(package_name, interface_name), function_name),
    }
}

/// A plugin that does not remap an interface exports its functions under their own names.
pub proof fn law_unmapped_names_stay(
    interface_remaps: Seq<(Seq<char>, Remap)>,
    package_name: Seq<char>,
    interface_name: Seq<char>,
    function_name: Seq<char>,
)
    requires
        !crate::ring::has_key(interface_remaps, interface_name),
    ensures
        exported_as(interface_remaps, package_name, interface_name, function_name) == (
            interface_path(package_name, interface_name),
            function_name,
        ),
{
}

fn join_path(package_name: &str, interface_name: &str) -> (result: String)
    ensures
        result@ == interface_path(package_name@, interface_name@),
{
    package_name.to_string().concat("/").concat(interface_name)
}

/// The path and the name under which a plugin with these remaps exports a function.
pub fn resolve_export(
    interface_remaps: &NameTable<Remap>,
    package_name: &str,
    interface_name: &str,
    function_name: &str,
) -> (result: (String, String))
    ensures
        (result.0@, result.1@) == exported_as(
            interface_remaps@,
            package_name@,
            interface_name@,
            function_name@,
        ),
{
    match interface_remaps.get(interface_name) {
        Some(remap) => (
            join_path(package_name, remap.interface_name(interface_name)),
            remap.item_name(function_name).to_string(),
        ),
        None => (join_path(package_name, interface_name), function_name.to_string()),
    }
}

/// What a call waits for.
#[derive(Clone, Copy, Debug, PartialEq, Eq, Structural)]
pub enum CallStep {
    /// The fuel limiter says how much fuel the call gets.
    AskFuel,
    /// The store takes this much fuel.
    ApplyFuel(u64),
    /// The epoch limiter says how many ticks the call gets.
    AskEpoch,
    /// The store takes this many ticks.
    ApplyEpoch(u64),
    /// The exported interface is looked up.
    FindInterface,
    /// The exported function is looked up in the interface.
    FindFunction,
    /// What was found is taken as a function.
    GetFunction,
    /// The function runs.
    Invoke,
    /// The call has failed.
    Failed,
}

/// A call on its way into a plugin.
pub struct PluginCall {
    canonical_path: String,
    exported_path: String,
    exported_name: String,
    function: Function,
    epoch_limited: bool,
    step: CallStep,
}

/// A call on its way into a plugin: the path that limiters hear, the names under which the
/// plugin exports the function, the function, whether ticks are asked for, and what comes next.
#[verifier::ext_equal]
pub struct PluginCallView {
    pub canonical_path: Seq<char>,
    pub exported_path: Seq<char>,
    pub exported_name: Seq<char>,
    pub function: Function,
    pub epoch_limited: bool,
    pub step: CallStep,
}

impl View for PluginCall {
    type V = PluginCallView;

    closed spec fn view(&self) -> PluginCallView {
        PluginCallView {
            canonical_path: self.canonical_path@,
            exported_path: self.exported_path@,
            exported_name: self.exported_name@,
            function: self.function,
            epoch_limited: self.epoch_limited,
            step: self.step,
        }
    }
}

/// What follows once the fuel is settled.
pub open spec fn after_fuel(epoch_limited: bool) -> CallStep {
    if epoch_limited {
        CallStep::AskEpoch
    } else {
        CallStep::FindInterface
    }
}

/// What a call starts with.
pub open spec fn first_step(fuel_limited: bool, epoch_limited: bool) -> CallStep {
    if fuel_limited {
        CallStep::AskFuel
    } else {
        after_fuel(epoch_limited)
    }
}

/// A call that was found to be possible so far.
pub open spec fn called(
    interface_remaps: Seq<(Seq<char>, Remap)>,
    package_name: Seq<char>,
    interface_name: Seq<char>,
    function_name: Seq<char>,
    function: Function,
    epoch_limited: bool,
    step: CallStep,
) -> PluginCallView {
    let (exported_path, exported_name) = exported_as(
        interface_remaps,
        package_name,
        interface_name,
        function_name,
    );
    PluginCallView {
        canonical_path: interface_path(package_name, interface_name),
        exported_path,
        exported_name,
        function,
        epoch_limited,
        step,
    }
}

/// What a call fails with where a lookup finds nothing.
pub open spec fn not_found(error: DispatchError, call: PluginCallView) -> bool {
    match call.step {
        CallStep::FindInterface => error matches DispatchError::InvalidInterfacePath(path)
            && path@ == call.exported_path,
        _ => error matches DispatchError::InvalidFunction(name) && name@ == function_path(
            call.exported_path,
            call.exported_name,
        ),
    }
}

/// What one lookup makes of a call: what was found, and the next step, or an error.
pub open spec fn looked_up<I>(
    before: PluginCallView,
    after: PluginCallView,
    found: Option<I>,
    next: CallStep,
    result: Result<I, DispatchError>,
) -> bool {
    match found {
        Some(item) => result == Ok::<I, DispatchError>(item) && after == (PluginCallView {
            step: next,
            ..before
        }),
        None => (result matches Err(error) && not_found(error, before)) && after
            == (PluginCallView { step: CallStep::Failed, ..before }),
    }
}

/// What an attempt to give a store its fuel makes of a call.
pub open spec fn fuelled(
    before: PluginCallView,
    after: PluginCallView,
    applied: Result<(), wasmtime::Error>,
    result: Result<(), DispatchError>,
) -> bool {
    match applied {
        Ok(_) => result is Ok && after == (PluginCallView {
            step: after_fuel(before.epoch_limited),
            ..before
        }),
        Err(error) => result == Err::<(), DispatchError>(
            DispatchError::RuntimeException(RuntimeFault::Engine(error)),
        ) && after == (PluginCallView { step: CallStep::Failed, ..before }),
    }
}

/// The room that a call gets for its results.
pub open spec fn is_result_buffer(buffer: Seq<Value>, function: Function) -> bool {
    if function.declared_return() == ReturnKind::Void {
        buffer.len() == 0
    } else {
        buffer == seq![Value::Option(None)]
    }
}

/// What becomes of a call that has run.
pub open spec fn call_outcome(
    function: Function,
    buffer: Seq<Value>,
    call_result: Result<(), wasmtime::Error>,
    outcome: Result<Value, DispatchError>,
) -> bool {
    match call_result {
        Err(error) => outcome == Err::<Value, DispatchError>(
            DispatchError::RuntimeException(RuntimeFault::Engine(error)),
        ),
        Ok(_) => if function.declared_return() == ReturnKind::Void {
            outcome == Ok::<Value, DispatchError>(Value::Option(None))
        } else if buffer.len() == 0 {
            outcome == Err::<Value, DispatchError>(DispatchError::MissingResponse)
        } else {
            passed_on(buffer.last(), outcome)
        },
    }
}

/// A value that a plugin returned reaches the caller, unless something in it may not.
pub open spec fn passed_on(value: Value, outcome: Result<Value, DispatchError>) -> bool {
    match first_barred(value) {
        None => outcome == Ok::<Value, DispatchError>(value),
        Some(name) => outcome matches Err(DispatchError::UnsupportedType(reported)) && reported@
            == name,
    }
}

/// What becomes of a call that has run.
pub fn finish_call(
    function: &Function,
    buffer: Vec<Value>,
    call_result: Result<(), wasmtime::Error>,
) -> (result: Result<Value, DispatchError>)
    ensures
        call_outcome(*function, buffer@, call_result, result),
{
    if let Err(error) = call_result {
        return Err(DispatchError::RuntimeException(RuntimeFault::Engine(error)));
    }
    let value = if function.return_kind() != ReturnKind::Void {
        let mut buffer = buffer;
        match buffer.pop() {
            Some(value) => value,
            None => return Err(DispatchError::MissingResponse),
        }
    } else {
        Value::Option(None)
    };
    match ensure_supported_value(&value) {
        Ok(_) => Ok(value),
        Err(error) => Err(error),
    }
}

/// The room that a call gets for its results: one place, unless the function returns nothing.
pub fn result_buffer(function: &Function) -> (result: Vec<Value>)
    ensures
        is_result_buffer(result@, *function),
{
    let mut buffer: Vec<Value> = Vec::new();
    if function.return_kind() != ReturnKind::Void {
        buffer.push(Value::Option(None));
    }
    buffer
}

impl PluginCall {
    /// A call whose arguments need no further look, and which no limiter is asked about.
    pub fn resolved(
        interface_remaps: &NameTable<Remap>,
        package_name: &str,
        interface_name: &str,
        function_name: &str,
        function: &Function,
    ) -> (result: Self)
        ensures
            result@ == called(
                interface_remaps@,
                package_name@,
                interface_name@,
                function_name@,
                *function,
                false,
                CallStep::FindInterface,
            ),
    {
        let (exported_path, exported_name) = resolve_export(
            interface_remaps,
            package_name,
            interface_name,
            function_name,
        );
        PluginCall {
            canonical_path: join_path(package_name, interface_name),
            exported_path,
            exported_name,
            function: *function,
            epoch_limited: false,
            step: CallStep::FindInterface,
        }
    }

    /// Starts a call. One whose arguments hold what may not pass between plugins fails before
    /// anything else happens.
    pub fn begin(
        interface_remaps: &NameTable<Remap>,
        package_name: &str,
        interface_name: &str,
        function_name: &str,
        function: &Function,
        data: &[Value],
        fuel_limited: bool,
        epoch_limited: bool,
    ) -> (result: Result<Self, DispatchError>)
        ensures
            match result {
                Ok(call) => first_barred_of(data@) is None && call@ == called(
                    interface_remaps@,
                    package_name@,
                    interface_name@,
                    function_name@,
                    *function,
                    epoch_limited,
                    first_step(fuel_limited, epoch_limited),
                ),
                Err(error) => first_barred_of(data@) is Some && reports(
                    Err(error),
                    first_barred_of(data@),
                ),
            },
    {
        if let Err(error) = ensure_supported_values(data) {
            return Err(error);
        }
        let mut call = PluginCall::resolved(
            interface_remaps,
            package_name,
            interface_name,
            function_name,
            function,
        );
        call.epoch_limited = epoch_limited;
        call.step = if fuel_limited {
            CallStep::AskFuel
        } else if epoch_limited {
            CallStep::AskEpoch
        } else {
            CallStep::FindInterface
        };
        Ok(call)
    }

    /// What comes next.
    pub fn step(&self) -> (result: CallStep)
        ensures
            result == self@.step,
    {
        self.step
    }

    /// The path that limiters hear.
    pub fn canonical_path(&self) -> (result: &str)
        ensures
            result@ == self@.canonical_path,
    {
        self.canonical_path.as_str()
    }

    /// The path under which the interface is looked up.
    pub fn exported_path(&self) -> (result: &str)
        ensures
            result@ == self@.exported_path,
    {
        self.exported_path.as_str()
    }

    /// The name under which the function is looked up.
    pub fn exported_name(&self) -> (result: &str)
        ensures
            result@ == self@.exported_name,
    {
        self.exported_name.as_str()
    }

    /// The fuel limiter has answered.
    pub fn fuel_answered(&mut self, fuel: u64)
        requires
            old(self)@.step == CallStep::AskFuel,
        ensures
            final(self)@ == (PluginCallView { step: CallStep::ApplyFuel(fuel), ..old(self)@ }),
    {
        self.step = CallStep::ApplyFuel(fuel);
    }

    /// Gives the store the fuel that the limiter allows.
    pub fn apply_fuel<T: 'static>(&mut self, store: &mut FuelledStore<T>) -> (result: Result<
        (),
        DispatchError,
    >)
        requires
            old(self)@.step is ApplyFuel,
        ensures
            exists|applied: Result<(), wasmtime::Error>| #[trigger]
                fuelled(old(self)@, final(self)@, applied, result),
            match result {
                Ok(_) => final(store)@ == old(store)@.push(old(self)@.step->ApplyFuel_0),
                Err(_) => final(store)@ == old(store)@,
            },
    {
        let fuel: u64 = match self.step {
            CallStep::ApplyFuel(fuel) => fuel,
            _ => 0,
        };
        let applied = set_fuel(store, fuel);
        let ghost answer = applied;
        let ghost before = self@;
        let result = self.fuel_applied(applied);
        assert(fuelled(before, self@, answer, result));
        result
    }

    /// The store has taken the fuel or refused it.
    pub fn fuel_applied(&mut self, applied: Result<(), wasmtime::Error>) -> (result: Result<
        (),
        DispatchError,
    >)
        requires
            old(self)@.step is ApplyFuel,
        ensures
            fuelled(old(self)@, final(self)@, applied, result),
    {
        match applied {
            Ok(_) => {
                self.step = if self.epoch_limited {
                    CallStep::AskEpoch
                } else {
                    CallStep::FindInterface
                };
                Ok(())
            },
            Err(error) => {
                self.step = CallStep::Failed;
                Err(DispatchError::RuntimeException(RuntimeFault::Engine(error)))
            },
        }
    }

    /// The epoch limiter has answered.
    pub fn ticks_answered(&mut self, ticks: u64)
        requires
            old(self)@.step == CallStep::AskEpoch,
        ensures
            final(self)@ == (PluginCallView { step: CallStep::ApplyEpoch(ticks), ..old(self)@ }),
    {
        self.step = CallStep::ApplyEpoch(ticks);
    }

    /// The store has taken the ticks.
    pub fn ticks_applied(&mut self)
        requires
            old(self)@.step is ApplyEpoch,
        ensures
            final(self)@ == (PluginCallView { step: CallStep::FindInterface, ..old(self)@ }),
    {
        self.step = CallStep::FindInterface;
    }

    fn invalid_function(&self) -> (result: DispatchError)
        ensures
            result matches DispatchError::InvalidFunction(name) && name@ == function_path(
                self@.exported_path,
                self@.exported_name,
            ),
    {
        DispatchError::InvalidFunction(
            self.exported_path.clone().concat(":").concat(self.exported_name.as_str()),
        )
    }

    /// The interface has been looked up.
    pub fn interface_found<I>(&mut self, found: Option<I>) -> (result: Result<I, DispatchError>)
        requires
            old(self)@.step == CallStep::FindInterface,
        ensures
            looked_up(old(self)@, final(self)@, found, CallStep::FindFunction, result),
    {
        match found {
            Some(item) => {
                self.step = CallStep::FindFunction;
                Ok(item)
            },
            None => {
                self.step = CallStep::Failed;
                Err(DispatchError::InvalidInterfacePath(self.exported_path.clone()))
            },
        }
    }

    /// The function has been looked up in the interface.
    pub fn function_found<I>(&mut self, found: Option<I>) -> (result: Result<I, DispatchError>)
        requires
            old(self)@.step == CallStep::FindFunction,
        ensures
            looked_up(old(self)@, final(self)@, found, CallStep::GetFunction, result),
    {
        match found {
            Some(item) => {
                self.step = CallStep::GetFunction;
                Ok(item)
            },
            None => {
                self.step = CallStep::Failed;
                Err(self.invalid_function())
            },
        }
    }

    /// What was found has been taken as a function, if it is one.
    pub fn function_resolved<I>(&mut self, found: Option<I>) -> (result: Result<I, DispatchError>)
        requires
            old(self)@.step == CallStep::GetFunction,
        ensures
            looked_up(old(self)@, final(self)@, found, CallStep::Invoke, result),
    {
        match found {
            Some(item) => {
                self.step = CallStep::Invoke;
                Ok(item)
            },
            None => {
                self.step = CallStep::Failed;
                Err(self.invalid_function())
            },
        }
    }

    /// The room that the call gets for its results.
    pub fn buffer(&self) -> (result: Vec<Value>)
        ensures
            is_result_buffer(result@, self@.function),
    {
        result_buffer(&self.function)
    }

    /// The function has run.
    pub fn finish(self, buffer: Vec<Value>, call_result: Result<(), wasmtime::Error>) -> (result:
        Result<Value, DispatchError>)
        requires
            self@.step == CallStep::Invoke,
        ensures
            call_outcome(self@.function, buffer@, call_result, result),
    {
        finish_call(&self.function, buffer, call_result)
    }
}

/// What a call comes to. A call that failed comes to its error. One of a function that returns
/// nothing comes to an empty option. Of every other function, whatever it is declared to return,
/// the value in its result place reaches the caller if nothing in it is barred, and the first
/// barred thing in it is reported if not; without a value the response is missing.
pub proof fn law_returned_value_reaches_the_caller(
    function: Function,
    buffer: Seq<Value>,
    call_result: Result<(), wasmtime::Error>,
    outcome: Result<Value, DispatchError>,
)
    requires
        call_outcome(function, buffer, call_result, outcome),
    ensures
        call_result matches Err(error) ==> outcome == Err::<Value, DispatchError>(
            DispatchError::RuntimeException(RuntimeFault::Engine(error)),
        ),
        call_result is Ok && function.declared_return() == ReturnKind::Void ==> outcome == Ok::<
            Value,
            DispatchError,
        >(Value::Option(None)),
        call_result is Ok && function.declared_return() != ReturnKind::Void && buffer.len() == 0
            ==> outcome == Err::<Value, DispatchError>(DispatchError::MissingResponse),
        call_result is Ok && function.declared_return() != ReturnKind::Void && buffer.len() > 0
            && supported(buffer[buffer.len() - 1]) ==> outcome == Ok::<Value, DispatchError>(
            buffer[buffer.len() - 1],
        ),
        call_result is Ok && function.declared_return() != ReturnKind::Void && buffer.len() > 0
            && !supported(buffer[buffer.len() - 1]) ==> (outcome matches Err(
            DispatchError::UnsupportedType(name),
        ) && first_barred(buffer[buffer.len() - 1]) == Some(name@)),
{
    if buffer.len() > 0 {
        law_passes_iff_supported(buffer[buffer.len() - 1]);
    }
}

/// A call gets one place for its result, and none exactly if the function returns nothing.
pub proof fn law_every_result_has_a_place(buffer: Seq<Value>, function: Function)
    requires
        is_result_buffer(buffer, function),
    ensures
        buffer.len() == 0 <==> function.declared_return() == ReturnKind::Void,
        buffer.len() <= 1,
        buffer.len() == 1 ==> buffer[0] == Value::Option(None),
{
}

/// Limiters are asked before the export is looked up, fuel first. A call that begins waits for the
/// fuel limiter exactly if there is one, else for the epoch limiter exactly if there is one, and
/// looks up its interface at once only where there is neither. One whose fuel was taken waits for
/// the epoch limiter exactly if there is one, and looks up its interface only where there is none.
pub proof fn law_limiters_are_asked_before_the_lookup(
    fuel_limited: bool,
    epoch_limited: bool,
    before: PluginCallView,
    after: PluginCallView,
)
    ensures
        first_step(fuel_limited, epoch_limited) == CallStep::AskFuel <==> fuel_limited,
        first_step(fuel_limited, epoch_limited) == CallStep::AskEpoch <==> !fuel_limited
            && epoch_limited,
        first_step(fuel_limited, epoch_limited) == CallStep::FindInterface <==> !fuel_limited
            && !epoch_limited,
        fuelled(before, after, Ok(()), Ok(())) ==> (after.step == CallStep::AskEpoch
            <==> before.epoch_limited) && (after.step == CallStep::FindInterface
            <==> !before.epoch_limited) && after == (PluginCallView { step: after.step, ..before }),
{
}

/// A call keeps what it was made for: limiters hear the interface that was requested, whatever the
/// remaps say, the function is the one that was asked for, and whether ticks are asked for is what
/// the plugin was set up with.
pub proof fn law_call_keeps_what_it_was_made_for(
    interface_remaps: Seq<(Seq<char>, Remap)>,
    package_name: Seq<char>,
    interface_name: Seq<char>,
    function_name: Seq<char>,
    function: Function,
    epoch_limited: bool,
    step: CallStep,
)
    ensures
        ({
            let call = called(
                interface_remaps,
                package_name,
                interface_name,
                function_name,
                function,
                epoch_limited,
                step,
            );
            &&& call.canonical_path == package_name + "/"@ + interface_name
            &&& call.function == function
            &&& call.epoch_limited == epoch_limited
            &&& call.step == step
            &&& call.exported_path.take(package_name.len() as int) == package_name
            &&& match lookup(interface_remaps, interface_name) {
                None => call.exported_path == call.canonical_path && call.exported_name
                    == function_name,
                Some(remap) => {
                    &&& call.exported_path == package_name + "/"@ + match remap@.interface {
                        Some(name) => name,
                        None => interface_name,
                    }
                    &&& call.exported_name == match lookup(remap@.items, function_name) {
                        Some(name) => name@,
                        None => function_name,
                    }
                },
            }
        }),
{
    let call = called(
        interface_remaps,
        package_name,
        interface_name,
        function_name,
        function,
        epoch_limited,
        step,
    );
    assert(call.exported_path.take(package_name.len() as int) =~= package_name);
}

/// A lookup that finds something goes on with it. One that finds nothing fails the call: with the
/// path of the interface where that was looked up, else with the path and the name of the function.
pub proof fn law_lookups_go_on_or_name_what_is_missing<I>(
    before: PluginCallView,
    after: PluginCallView,
    found: Option<I>,
    next: CallStep,
    result: Result<I, DispatchError>,
)
    requires
        looked_up(before, after, found, next, result),
    ensures
        found matches Some(item) ==> result == Ok::<I, DispatchError>(item) && after.step == next,
        found is None ==> result is Err && after.step == CallStep::Failed,
        found is None && before.step == CallStep::FindInterface ==> (result matches Err(
            DispatchError::InvalidInterfacePath(path),
        ) && path@ == before.exported_path),
        found is None && before.step != CallStep::FindInterface ==> (result matches Err(
            DispatchError::InvalidFunction(name),
        ) && name@ == before.exported_path + ":"@ + before.exported_name),
        after == (PluginCallView { step: after.step, ..before }),
{
}

/// One step of a call on its way to the lookup: a limiter answers, or the store takes what the
/// limiter allows.
pub open spec fn limiter_step(before: PluginCallView, after: PluginCallView) -> bool {
    match before.step {
        CallStep::AskFuel => after.step is ApplyFuel && after == (PluginCallView {
            step: after.step,
            ..before
        }),
        CallStep::ApplyFuel(_) => exists|
            applied: Result<(), wasmtime::Error>,
            result: Result<(), DispatchError>,
        |
            #[trigger] fuelled(before, after, applied, result) && result is Ok,
        CallStep::AskEpoch => after.step is ApplyEpoch && after == (PluginCallView {
            step: after.step,
            ..before
        }),
        CallStep::ApplyEpoch(_) => after == (PluginCallView {
            step: CallStep::FindInterface,
            ..before
        }),
        _ => false,
    }
}

/// A call that reaches the lookup of its interface has asked every limiter that there is, and
/// nothing else: first for fuel, and then for ticks, and each time the store took what the
/// limiter allowed before the call went on.
pub proof fn law_lookup_comes_after_every_limiter(
    walk: Seq<PluginCallView>,
    fuel_limited: bool,
    epoch_limited: bool,
)
    requires
        walk.len() > 0,
        walk[0].step == first_step(fuel_limited, epoch_limited),
        walk[0].epoch_limited == epoch_limited,
        forall|i: int, j: int|
            0 <= i && j == i + 1 && j < walk.len() ==> #[trigger] limiter_step(walk[i], walk[j]),
        walk[walk.len() - 1].step == CallStep::FindInterface,
    ensures
        walk.len() == 1 + (if fuel_limited {
            2int
        } else {
            0int
        }) + (if epoch_limited {
            2int
        } else {
            0int
        }),
        fuel_limited ==> walk[0].step is AskFuel && walk[1].step is ApplyFuel,
        epoch_limited ==> walk[walk.len() - 3].step is AskEpoch && walk[walk.len() - 2].step is ApplyEpoch,
        walk[walk.len() - 1] == (PluginCallView { step: CallStep::FindInterface, ..walk[0] }),
{
    assert(walk.len() > 1 ==> limiter_step(walk[0], walk[1]));
    assert(walk.len() > 2 ==> limiter_step(walk[1], walk[2]));
    assert(walk.len() > 3 ==> limiter_step(walk[2], walk[3]));
    assert(walk.len() > 4 ==> limiter_step(walk[3], walk[4]));
    assert(walk.len() > 5 ==> limiter_step(walk[4], walk[5]));
}

/// A call begins exactly where nothing in its arguments is barred, with the fuel limiter if there
/// is one, else with the epoch limiter if there is one, and at the lookup only without either.
pub proof fn law_call_begins_with_its_limiters(
    interface_remaps: &NameTable<Remap>,
    package_name: &str,
    interface_name: &str,
    function_name: &str,
    function: &Function,
    data: &[Value],
    fuel_limited: bool,
    epoch_limited: bool,
    result: Result<PluginCall, DispatchError>,
)
    requires
        call_ensures(
            PluginCall::begin,
            (
                interface_remaps,
                package_name,
                interface_name,
                function_name,
                function,
                data,
                fuel_limited,
                epoch_limited,
            ),
            result,
        ),
    ensures
        result is Ok <==> forall|i: int| 0 <= i < data@.len() ==> supported(#[trigger] data@[i]),
        result matches Ok(call) ==> {
            &&& call@.step == CallStep::AskFuel <==> fuel_limited
            &&& call@.step == CallStep::AskEpoch <==> !fuel_limited && epoch_limited
            &&& call@.step == CallStep::FindInterface <==> !fuel_limited && !epoch_limited
            &&& call@.epoch_limited == epoch_limited
            &&& call@.function == *function
            &&& call@.canonical_path == package_name@ + "/"@ + interface_name@
        },
        result matches Err(error) ==> (error matches DispatchError::UnsupportedType(name)
            && first_barred_of(data@) == Some(name@)),
{
    law_report_names_what_is_barred(
        data@,
        match result {
            Ok(_) => Ok(()),
            Err(error) => Err(error),
        },
    );
}

/// What a limiter allows is what the store is given: the call goes on with the amount that the
/// limiter answered, and once the fuel is taken the ticks are asked for exactly if they are
/// limited.
pub proof fn law_store_is_given_what_the_limiter_allows<T: 'static>(
    asking: &mut PluginCall,
    applying: &mut PluginCall,
    fuel: u64,
    store: &mut FuelledStore<T>,
    result: Result<(), DispatchError>,
)
    requires
        call_ensures(PluginCall::fuel_answered, (asking, fuel), ()),
        final(asking)@ == old(applying)@,
        call_ensures(PluginCall::apply_fuel::<T>, (applying, store), result),
    ensures
        result is Ok ==> final(store)@ == old(store)@.push(fuel),
        result is Err ==> final(store)@ == old(store)@ && final(applying)@.step == CallStep::Failed,
        result is Ok ==> (final(applying)@.step == CallStep::AskEpoch <==> old(
            asking,
        )@.epoch_limited),
        result is Ok ==> (final(applying)@.step == CallStep::FindInterface <==> !old(
            asking,
        )@.epoch_limited),
        final(applying)@ == (PluginCallView { step: final(applying)@.step, ..old(asking)@ }),
{
}

/// Ticks that the epoch limiter allows are applied before the lookup, and the call is else as it
/// was.
pub proof fn law_ticks_come_before_the_lookup(
    asking: &mut PluginCall,
    applying: &mut PluginCall,
    ticks: u64,
)
    requires
        call_ensures(PluginCall::ticks_answered, (asking, ticks), ()),
        final(asking)@ == old(applying)@,
        call_ensures(PluginCall::ticks_applied, (applying,), ()),
    ensures
        final(asking)@.step == CallStep::ApplyEpoch(ticks),
        final(applying)@ == (PluginCallView { step: CallStep::FindInterface, ..old(asking)@ }),
{
}

/// The interface is looked up first, then the function in it, then what was found is taken as a
/// function, and only then does it run.
pub proof fn law_lookups_come_in_order<I, J, K>(
    first: &mut PluginCall,
    second: &mut PluginCall,
    third: &mut PluginCall,
    interface: Option<I>,
    function: Option<J>,
    resolved: Option<K>,
    found: Result<I, DispatchError>,
    named: Result<J, DispatchError>,
    taken: Result<K, DispatchError>,
)
    requires
        old(first)@.step == CallStep::FindInterface,
        old(second)@.step == CallStep::FindFunction,
        old(third)@.step == CallStep::GetFunction,
        call_ensures(PluginCall::interface_found::<I>, (first, interface), found),
        call_ensures(PluginCall::function_found::<J>, (second, function), named),
        call_ensures(PluginCall::function_resolved::<K>, (third, resolved), taken),
    ensures
        interface is Some ==> final(first)@.step == CallStep::FindFunction && found == Ok::<
            I,
            DispatchError,
        >(interface->0),
        interface is None ==> found is Err && found->Err_0 is InvalidInterfacePath,
        function is Some ==> final(second)@.step == CallStep::GetFunction && named == Ok::<
            J,
            DispatchError,
        >(function->0),
        function is None ==> named is Err && named->Err_0 is InvalidFunction,
        resolved is Some ==> final(third)@.step == CallStep::Invoke && taken == Ok::<
            K,
            DispatchError,
        >(resolved->0),
        resolved is None ==> taken is Err && taken->Err_0 is InvalidFunction,
{
}

/// A function that returns anything has its value passed on as it is, whatever kind of return it
/// declares, and one that returns nothing has an empty option, whatever its place holds.
pub proof fn law_finished_call_passes_on_its_value(
    function: &Function,
    buffer: Vec<Value>,
    call_result: Result<(), wasmtime::Error>,
    result: Result<Value, DispatchError>,
)
    requires
        call_ensures(finish_call, (function, buffer, call_result), result),
    ensures
        call_result is Ok && function.declared_return() != ReturnKind::Void && buffer@.len() > 0
            && supported(buffer@.last()) ==> result == Ok::<Value, DispatchError>(buffer@.last()),
        call_result is Ok && function.declared_return() == ReturnKind::Void ==> result == Ok::<
            Value,
            DispatchError,
        >(Value::Option(None)),
        call_result is Ok && function.declared_return() != ReturnKind::Void && buffer@.len() == 0
            ==> result == Err::<Value, DispatchError>(DispatchError::MissingResponse),
        call_result is Ok && function.declared_return() != ReturnKind::Void && buffer@.len() > 0
            && !supported(buffer@.last()) ==> result is Err,
        call_result matches Err(error) ==> result == Err::<Value, DispatchError>(
            DispatchError::RuntimeException(RuntimeFault::Engine(error)),
        ),
{
    law_returned_value_reaches_the_caller(*function, buffer@, call_result, result);
}

} // verus!
