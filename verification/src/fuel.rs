//! Giving a store its fuel. What is recorded here of a store is written by the function that
//! makes the call, and by nothing else.

use vstd::prelude::*;
use wasmtime::Store;

verus! {

/// A store, and every amount of fuel that it was given in the place of what it had left. Fuel
/// that the store gets past this record does not count.
#[verifier::reject_recursive_types(T)]
pub struct FuelledStore<T: 'static> {
    store: Store<T>,
    given: Ghost<Seq<u64>>,
}

impl<T: 'static> View for FuelledStore<T> {
    type V = Seq<u64>;

    closed spec fn view(&self) -> Seq<u64> {
        self.given@
    }
}

impl<T: 'static> FuelledStore<T> {
    /// A store that was given no fuel.
    pub fn new(store: Store<T>) -> (result: Self)
        ensures
            result@ == Seq::<u64>::empty(),
            result.inner() == store,
    {
        FuelledStore { store, given: Ghost(Seq::empty()) }
    }

    /// The store itself.
    pub closed spec fn inner(&self) -> Store<T> {
        self.store
    }

    /// The store itself.
    pub fn store(&self) -> (result: &Store<T>)
        ensures
            *result == self.inner(),
    {
        &self.store
    }

    /// The store itself, for whatever the engine does with it.
    pub fn store_mut(&mut self) -> (result: &mut Store<T>)
        ensures
            *result == old(self).inner(),
            final(self).inner() == *final(result),
            final(self)@ == old(self)@,
    {
        &mut self.store
    }
}

/// Calls `wasmtime::Store::set_fuel`, which gives a store that much fuel, or fails where the
/// engine of the store does not count fuel. What was given is recorded. Which of the two it does
/// is not said.
#[verifier::external_body]
pub(crate) fn set_fuel<T: 'static>(store: &mut FuelledStore<T>, fuel: u64) -> (result: Result<
    (),
    wasmtime::Error,
>)
    ensures
        match result {
            Ok(_) => final(store)@ == old(store)@.push(fuel),
            Err(_) => final(store)@ == old(store)@,
        },
{
    store.store.set_fuel(fuel)
}

} // verus!
