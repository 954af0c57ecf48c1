//! The shell commands that issue management requests. Each holds the
//! session state it shares with the rest of the shell, whatever its type.
use vstd::prelude::*;
use std::sync::{Arc, Mutex};

verus! {

/// std's mutex, carried through unopened.
#[verifier::external_type_specification]
#[verifier::external_body]
#[verifier::reject_recursive_types(T)]
pub struct ExMutex<T: ?Sized>(Mutex<T>);

/// The command that removes an address from a cloud cluster's allow list.
#[verifier::reject_recursive_types(S)]
pub struct AddressesDrop<S> {
    state: Arc<Mutex<S>>,
}

impl<S> AddressesDrop<S> {
    /// The shared session state.
    pub closed spec fn state(&self) -> Arc<Mutex<S>> {
        self.state
    }

    pub fn new(state: Arc<Mutex<S>>) -> (r: Self)
        ensures
            r.state() == state,
    {
        AddressesDrop { state }
    }
}

/// The command that lists all analytics buckets.
#[derive(Clone)]
#[verifier::reject_recursive_types(S)]
pub struct AnalyticsBuckets<S> {
    state: Arc<Mutex<S>>,
}

impl<S> AnalyticsBuckets<S> {
    /// The shared session state.
    pub closed spec fn state(&self) -> Arc<Mutex<S>> {
        self.state
    }

    pub fn new(state: Arc<Mutex<S>>) -> (r: Self)
        ensures
            r.state() == state,
    {
        AnalyticsBuckets { state }
    }
}

/// The command that performs bucket management operations.
#[derive(Clone)]
#[verifier::reject_recursive_types(S)]
pub struct Buckets<S> {
    state: Arc<Mutex<S>>,
}

impl<S> Buckets<S> {
    /// The shared session state.
    pub closed spec fn state(&self) -> Arc<Mutex<S>> {
        self.state
    }

    pub fn new(state: Arc<Mutex<S>>) -> (r: Self)
        ensures
            r.state() == state,
    {
        Buckets { state }
    }
}

/// The command that creates a collection in a bucket's scope.
#[derive(Clone)]
#[verifier::reject_recursive_types(S)]
pub struct CollectionsCreate<S> {
    state: Arc<Mutex<S>>,
}

impl<S> CollectionsCreate<S> {
    /// The shared session state.
    pub closed spec fn state(&self) -> Arc<Mutex<S>> {
        self.state
    }

    pub fn new(state: Arc<Mutex<S>>) -> (r: Self)
        ensures
            r.state() == state,
    {
        CollectionsCreate { state }
    }
}

/// The command that creates a scope in a bucket.
#[verifier::reject_recursive_types(S)]
pub struct ScopesCreate<S> {
    state: Arc<Mutex<S>>,
}

impl<S> ScopesCreate<S> {
    /// The shared session state.
    pub closed spec fn state(&self) -> Arc<Mutex<S>> {
        self.state
    }

    pub fn new(state: Arc<Mutex<S>>) -> (r: Self)
        ensures
            r.state() == state,
    {
        ScopesCreate { state }
    }
}

} // verus!
