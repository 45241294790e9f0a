//! The rules by which WebAssembly plugins call each other.
//!
//! A dispatch session starts at the host and reaches plugins through the functions that they
//! import from one another. This library holds what decides how that goes, and proves it: in
//! which order calls reach their plugins, which session a plugin works for, which export a call
//! goes to, what may pass between plugins, and what every caller is told in the end. Running the
//! plugins is left to whoever uses the library: it polls futures, calls into the engine and
//! reports back.
//!
//! - [`ring`], [`queue`], [`scheduler`] and [`turn`]: the calls of a session and their order.
//! - [`graph`] and [`session`]: which plugins a session locks, and in which order.
//! - [`ending`]: what callers are told whose calls still wait when a session ends.
//! - [`channel`], [`request`], [`driver`], [`requests`] and [`active`]: how requests reach an
//!   asynchronous plugin, and how callers get their answers.
//! - [`value`], [`error`], [`call`], [`fuel`] and [`dispatch`]: what a call takes, and what it comes
//!   to.
//! - [`names`], [`remap`], [`interface`] and [`plugin`]: what plugins declare.

pub mod active;
pub mod call;
pub mod channel;
pub mod dispatch;
pub mod driver;
pub mod ending;
pub mod error;
pub mod fuel;
pub mod graph;
pub mod interface;
pub mod names;
pub mod outside;
pub mod path;
pub mod plugin;
pub mod queue;
pub mod remap;
pub mod request;
pub mod requests;
pub mod ring;
pub mod scheduler;
pub mod session;
pub mod turn;
pub mod value;

pub use error::{AsyncRuntimeError, DispatchError};
pub use interface::{Function, FunctionKind, Interface, ReturnKind};
pub use plugin::Plugin;
pub use remap::Remap;
pub use value::Value;
