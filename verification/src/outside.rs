//! Types of other crates that values of this library carry. Nothing is said of what is in them.

use vstd::prelude::*;

verus! {

/// A handle to a resource of a component.
#[verifier::external_type_specification]
#[verifier::external_body]
pub struct ExResourceAny(wasmtime::component::ResourceAny);

/// A handle to a future of a component.
#[verifier::external_type_specification]
#[verifier::external_body]
pub struct ExFutureAny(wasmtime::component::FutureAny);

/// A handle to a stream of a component.
#[verifier::external_type_specification]
#[verifier::external_body]
pub struct ExStreamAny(wasmtime::component::StreamAny);

/// What the WebAssembly engine reports when it fails.
#[verifier::external_type_specification]
#[verifier::external_body]
pub struct ExWasmtimeError(wasmtime::Error);

/// The end of a channel that carries one value to whoever waits for it.
#[verifier::external_type_specification]
#[verifier::external_body]
#[verifier::reject_recursive_types(T)]
pub struct ExOneshotSender<T>(futures::channel::oneshot::Sender<T>);

/// The end of a channel that waits for one value.
#[verifier::external_type_specification]
#[verifier::external_body]
#[verifier::reject_recursive_types(T)]
pub struct ExOneshotReceiver<T>(futures::channel::oneshot::Receiver<T>);

/// That the value waited for will never come.
#[verifier::external_type_specification]
#[verifier::external_body]
pub struct ExCanceled(futures::channel::oneshot::Canceled);

/// The end of a channel that takes any number of values.
#[verifier::external_type_specification]
#[verifier::external_body]
#[verifier::reject_recursive_types(T)]
pub struct ExUnboundedSender<T>(futures::channel::mpsc::UnboundedSender<T>);

/// The end of a channel that receives any number of values.
#[verifier::external_type_specification]
#[verifier::external_body]
#[verifier::reject_recursive_types(T)]
pub struct ExUnboundedReceiver<T>(futures::channel::mpsc::UnboundedReceiver<T>);

/// A store of the WebAssembly engine.
#[verifier::external_type_specification]
#[verifier::external_body]
#[verifier::reject_recursive_types(T)]
pub struct ExStore<T: 'static>(wasmtime::Store<T>);

/// A compiled component.
#[verifier::external_type_specification]
#[verifier::external_body]
pub struct ExComponent(wasmtime::component::Component);

} // verus!
