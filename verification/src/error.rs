//! What can go wrong with a dispatch.

use crate::value::Value;
use vstd::prelude::*;
use vstd::string::to_string_from_display_ensures;

verus! {

/// Why the driver of a plugin left a call without a result.
#[derive(Debug, PartialEq, Eq)]
pub enum AsyncRuntimeError {
    /// The dispatch ended and nobody answered the call.
    MissingResponse,
    /// The driver ended before it could take the call.
    DriverStopped,
    /// The call was given up before it had a result.
    CallCancelled,
    /// Nobody can hand further requests to the driver.
    RequestChannelClosed,
    /// The call was made outside any dispatch session.
    SessionUnavailable,
    /// The store failed with this message.
    StoreFailed(String),
}

impl Clone for AsyncRuntimeError {
    fn clone(&self) -> (result: Self)
        ensures
            result == *self,
    {
        match self {
            AsyncRuntimeError::MissingResponse => AsyncRuntimeError::MissingResponse,
            AsyncRuntimeError::DriverStopped => AsyncRuntimeError::DriverStopped,
            AsyncRuntimeError::CallCancelled => AsyncRuntimeError::CallCancelled,
            AsyncRuntimeError::RequestChannelClosed => AsyncRuntimeError::RequestChannelClosed,
            AsyncRuntimeError::SessionUnavailable => AsyncRuntimeError::SessionUnavailable,
            AsyncRuntimeError::StoreFailed(cause) => AsyncRuntimeError::StoreFailed(cause.clone()),
        }
    }
}

impl AsyncRuntimeError {
    /// The error in words.
    pub open spec fn text(&self) -> Seq<char> {
        match self {
            AsyncRuntimeError::MissingResponse => "plugin dispatch ended without a response"@,
            AsyncRuntimeError::DriverStopped => "plugin dispatch driver stopped"@,
            AsyncRuntimeError::CallCancelled =>
                "plugin call was cancelled before producing a response"@,
            AsyncRuntimeError::RequestChannelClosed => "plugin dispatch request channel closed"@,
            AsyncRuntimeError::SessionUnavailable =>
                "plugin call has no active async dispatch scheduler"@,
            AsyncRuntimeError::StoreFailed(cause) => "plugin store failed: "@ + cause@,
        }
    }

    /// The error in words.
    pub fn message(&self) -> (result: String)
        ensures
            result@ == self.text(),
    {
        match self {
            AsyncRuntimeError::MissingResponse =>
                "plugin dispatch ended without a response".to_string(),
            AsyncRuntimeError::DriverStopped => "plugin dispatch driver stopped".to_string(),
            AsyncRuntimeError::CallCancelled =>
                "plugin call was cancelled before producing a response".to_string(),
            AsyncRuntimeError::RequestChannelClosed =>
                "plugin dispatch request channel closed".to_string(),
            AsyncRuntimeError::SessionUnavailable =>
                "plugin call has no active async dispatch scheduler".to_string(),
            AsyncRuntimeError::StoreFailed(cause) => "plugin store failed: ".to_string().concat(
                cause.as_str(),
            ),
        }
    }
}

/// What a call that failed at run time failed with.
#[derive(Debug)]
pub enum RuntimeFault {
    /// The driver of the plugin gave the call up.
    Driver(AsyncRuntimeError),
    /// The WebAssembly engine reported an error.
    Engine(wasmtime::Error),
}

/// A resource handle that could not be passed on, in words and as the value that plugins see.
#[derive(Debug)]
pub struct ResourceFault {
    pub message: String,
    pub value: Value,
}

/// Errors that can occur when a function call is dispatched to plugins.
#[derive(Debug)]
pub enum DispatchError {
    /// The plugin instance is locked: another call is in progress.
    LockRejected,
    /// The interface path does not match any known interface.
    InvalidInterfacePath(String),
    /// The function does not exist on the interface.
    InvalidFunction(String),
    /// The function was expected to return a value but did not.
    MissingResponse,
    /// The function failed during execution.
    RuntimeException(RuntimeFault),
    /// The arguments do not match the function signature.
    InvalidArgumentList,
    /// Futures, streams and error contexts cannot pass between plugins.
    UnsupportedType(String),
    /// A resource handle could not be made for another plugin.
    ResourceCreationError(ResourceFault),
    /// A resource handle could not be received from another plugin.
    ResourceReceiveError(ResourceFault),
}

/// The error that a call meets when its driver gives it up.
pub fn runtime_error(error: AsyncRuntimeError) -> (result: DispatchError)
    ensures
        result == DispatchError::RuntimeException(RuntimeFault::Driver(error)),
{
    DispatchError::RuntimeException(RuntimeFault::Driver(error))
}

impl RuntimeFault {
    /// `text` is what the fault says of itself. Of an engine error nothing is said but that
    /// the text is what its `Display` writes.
    pub open spec fn says(&self, text: String) -> bool {
        match self {
            RuntimeFault::Driver(error) => text@ == error.text(),
            RuntimeFault::Engine(error) => to_string_from_display_ensures::<wasmtime::Error>(
                error,
                text,
            ),
        }
    }

    /// The fault in words.
    pub fn message(&self) -> (result: String)
        ensures
            self.says(result),
    {
        match self {
            RuntimeFault::Driver(error) => error.message(),
            RuntimeFault::Engine(error) => error.to_string(),
        }
    }
}

/// `value` is the variant case `name`, which holds `text` or nothing.
pub open spec fn is_case(value: Value, name: Seq<char>, text: Option<Seq<char>>) -> bool {
    match value {
        Value::Variant(case, None) => case@ == name && text is None,
        Value::Variant(case, Some(inner)) => case@ == name && (*inner matches Value::String(held)
            && text == Some(held@)),
        _ => false,
    }
}

fn bare_case(name: &str) -> (result: Value)
    ensures
        is_case(result, name@, None),
{
    Value::Variant(name.to_string(), None)
}

fn text_case(name: &str, text: String) -> (result: Value)
    ensures
        is_case(result, name@, Some(text@)),
{
    Value::Variant(name.to_string(), Some(Box::new(Value::String(text))))
}

impl DispatchError {
    /// The error in words.
    pub open spec fn text(&self) -> Seq<char> {
        match self {
            DispatchError::LockRejected => "Lock Rejected"@,
            DispatchError::InvalidInterfacePath(path) => "Invalid Interface Path: "@ + path@,
            DispatchError::InvalidFunction(function) => "Invalid Function: "@ + function@,
            DispatchError::MissingResponse => "Missing Response"@,
            DispatchError::RuntimeException(_) => "Runtime Exception"@,
            DispatchError::InvalidArgumentList => "Invalid Argument List"@,
            DispatchError::UnsupportedType(name) => "Unsupported type: "@ + name@,
            DispatchError::ResourceCreationError(fault) => "Resource Create Error: "@
                + fault.message@,
            DispatchError::ResourceReceiveError(fault) => "Resource Receive Error: "@
                + fault.message@,
        }
    }

    /// The error in words.
    pub fn message(&self) -> (result: String)
        ensures
            result@ == self.text(),
    {
        match self {
            DispatchError::LockRejected => "Lock Rejected".to_string(),
            DispatchError::InvalidInterfacePath(path) => "Invalid Interface Path: ".to_string().concat(
                path.as_str(),
            ),
            DispatchError::InvalidFunction(function) => "Invalid Function: ".to_string().concat(
                function.as_str(),
            ),
            DispatchError::MissingResponse => "Missing Response".to_string(),
            DispatchError::RuntimeException(_) => "Runtime Exception".to_string(),
            DispatchError::InvalidArgumentList => "Invalid Argument List".to_string(),
            DispatchError::UnsupportedType(name) => "Unsupported type: ".to_string().concat(
                name.as_str(),
            ),
            DispatchError::ResourceCreationError(fault) => "Resource Create Error: ".to_string().concat(
                fault.message.as_str(),
            ),
            DispatchError::ResourceReceiveError(fault) => "Resource Receive Error: ".to_string().concat(
                fault.message.as_str(),
            ),
        }
    }

    /// `value` is how plugins see this error.
    pub open spec fn seen_as(&self, value: Value) -> bool {
        match self {
            DispatchError::LockRejected => is_case(value, "lock-rejected"@, None),
            DispatchError::InvalidInterfacePath(path) => is_case(
                value,
                "invalid-interface-path"@,
                Some(path@),
            ),
            DispatchError::InvalidFunction(function) => is_case(
                value,
                "invalid-function"@,
                Some(function@),
            ),
            DispatchError::MissingResponse => is_case(value, "missing-response"@, None),
            DispatchError::RuntimeException(fault) => exists|text: String|
                #[trigger] fault.says(text) && is_case(value, "runtime-exception"@, Some(text@)),
            DispatchError::InvalidArgumentList => is_case(value, "invalid-argument-list"@, None),
            DispatchError::UnsupportedType(name) => is_case(
                value,
                "unsupported-type"@,
                Some(name@),
            ),
            DispatchError::ResourceCreationError(fault) => value == fault.value,
            DispatchError::ResourceReceiveError(fault) => value == fault.value,
        }
    }

    /// The error as the value that plugins see.
    pub fn into_value(self) -> (result: Value)
        ensures
            self.seen_as(result),
    {
        match self {
            DispatchError::LockRejected => bare_case("lock-rejected"),
            DispatchError::InvalidInterfacePath(path) => text_case("invalid-interface-path", path),
            DispatchError::InvalidFunction(function) => text_case("invalid-function", function),
            DispatchError::MissingResponse => bare_case("missing-response"),
            DispatchError::RuntimeException(fault) => {
                let text = fault.message();
                assert(fault.says(text));
                text_case("runtime-exception", text)
            },
            DispatchError::InvalidArgumentList => bare_case("invalid-argument-list"),
            DispatchError::UnsupportedType(name) => text_case("unsupported-type", name),
            DispatchError::ResourceCreationError(fault) => fault.value,
            DispatchError::ResourceReceiveError(fault) => fault.value,
        }
    }
}

/// An error that names something names it in full: the text ends with it, and what plugins see
/// holds it.
pub proof fn law_errors_name_what_they_are_about(error: DispatchError, name: String, value: Value)
    requires
        error == DispatchError::InvalidInterfacePath(name) || error
            == DispatchError::InvalidFunction(name) || error == DispatchError::UnsupportedType(name),
        error.seen_as(value),
    ensures
        error.text().len() >= name@.len(),
        error.text().skip(error.text().len() - name@.len()) == name@,
        value matches Value::Variant(_, Some(inner)) && (*inner matches Value::String(held) && held@
            == name@),
{
    assert(error.text().skip(error.text().len() - name@.len()) =~= name@);
}

/// A store that failed says why: the text ends with what it failed with.
pub proof fn law_store_failure_says_why(cause: String)
    ensures
        ({
            let text = AsyncRuntimeError::StoreFailed(cause).text();
            text.len() >= cause@.len() && text.skip(text.len() - cause@.len()) == cause@
        }),
{
    let text = AsyncRuntimeError::StoreFailed(cause).text();
    assert(text.skip(text.len() - cause@.len()) =~= cause@);
}

/// A fault with a resource reaches plugins as the value that it holds, and its text ends with
/// what it says.
pub proof fn law_resource_faults_keep_their_value(
    error: DispatchError,
    fault: ResourceFault,
    value: Value,
)
    requires
        error == DispatchError::ResourceCreationError(fault) || error
            == DispatchError::ResourceReceiveError(fault),
        error.seen_as(value),
    ensures
        value == fault.value,
        error.text().skip(error.text().len() - fault.message@.len()) == fault.message@,
{
    assert(error.text().skip(error.text().len() - fault.message@.len()) =~= fault.message@);
}

} // verus!
