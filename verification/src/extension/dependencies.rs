//! The capabilities that the variants of an extension depend on.
//!
//! The local and the shared variant have scopes of their own, so that each can claim the same
//! binding once.

use std::rc::Rc;
use std::sync::Arc;
use vstd::prelude::*;

use crate::capability::registry as resolved;
use crate::capability::registry::Capabilities;
use crate::providers::{BindingError, RegistryEntry};

verus! {

/// Capability dependencies of an extension's variants.
#[derive(Debug)]
pub struct ExtensionDependencies<L, S> {
    local: LocalDependencies<L, S>,
    shared: SharedDependencies<L, S>,
}

/// A local implementation that was built with its dependencies.
#[derive(Debug)]
pub struct LocalExtensionDependency<E>(E);

impl<E> LocalExtensionDependency<E> {
    pub closed spec fn built(self) -> E {
        self.0
    }

    pub fn into_inner(self) -> (r: E)
        ensures
            r == self.built(),
    {
        self.0
    }
}

/// A shared implementation that was built with its dependencies.
#[derive(Debug)]
pub struct SharedExtensionDependency<E>(E);

impl<E> SharedExtensionDependency<E> {
    pub closed spec fn built(self) -> E {
        self.0
    }

    pub fn into_inner(self) -> (r: E)
        ensures
            r == self.built(),
    {
        self.0
    }
}

impl<L, S> ExtensionDependencies<L, S> {
    pub closed spec fn local_scope(&self) -> LocalDependencies<L, S> {
        self.local
    }

    pub closed spec fn shared_scope(&self) -> SharedDependencies<L, S> {
        self.shared
    }

    /// Dependencies with a scope for each variant.
    pub fn new(local: Capabilities<L, S>, shared: Capabilities<L, S>) -> (r: Self)
        ensures
            r.local_scope().scope() == local,
            r.local_scope().claims().len() == 0,
            r.shared_scope().scope() == shared,
            r.shared_scope().claims().len() == 0,
    {
        ExtensionDependencies {
            local: LocalDependencies { capabilities: local, claimed: Vec::new() },
            shared: SharedDependencies { capabilities: shared, claimed: Vec::new() },
        }
    }

    /// Dependencies with empty scopes.
    pub fn empty() -> (r: Self)
        ensures
            r.local_scope().scope().wf(),
            r.local_scope().claims().len() == 0,
            r.shared_scope().scope().wf(),
            r.shared_scope().claims().len() == 0,
            r.local_scope().scope().local_entries() == Map::<u64, RegistryEntry<Rc<L>>>::empty(),
            r.local_scope().scope().shared_entries() == Map::<u64, RegistryEntry<Arc<S>>>::empty(),
            r.shared_scope().scope().local_entries() == Map::<u64, RegistryEntry<Rc<L>>>::empty(),
            r.shared_scope().scope().shared_entries() == Map::<u64, RegistryEntry<Arc<S>>>::empty(),
    {
        Self::new(Capabilities::new(), Capabilities::new())
    }

    /// Builds a local implementation. `build` takes the local scope and gives it back.
    pub fn bind_local<E, F>(&mut self, build: F) -> (r: Result<
        LocalExtensionDependency<E>,
        BindingError,
    >) where F: FnOnce(LocalDependencies<L, S>) -> (LocalDependencies<L, S>, Result<E, BindingError>)
        requires
            call_requires(build, (old(self).local_scope(),)),
        ensures
            final(self).shared_scope() == old(self).shared_scope(),
            match r {
                Ok(d) => call_ensures(
                    build,
                    (old(self).local_scope(),),
                    (final(self).local_scope(), Ok::<E, BindingError>(d.built())),
                ),
                Err(e) => call_ensures(
                    build,
                    (old(self).local_scope(),),
                    (final(self).local_scope(), Err::<E, BindingError>(e)),
                ),
            },
    {
        let mut scope: LocalDependencies<L, S> = LocalDependencies {
            capabilities: Capabilities::new(),
            claimed: Vec::new(),
        };
        std::mem::swap(&mut scope, &mut self.local);
        let (scope, built): (LocalDependencies<L, S>, Result<E, BindingError>) = build(scope);
        self.local = scope;
        match built {
            Ok(e) => Ok(LocalExtensionDependency(e)),
            Err(e) => Err(e),
        }
    }

    /// Builds a shared implementation. `build` takes the shared scope and gives it back.
    pub fn bind_shared<E, F>(&mut self, build: F) -> (r: Result<
        SharedExtensionDependency<E>,
        BindingError,
    >) where
        F: FnOnce(SharedDependencies<L, S>) -> (SharedDependencies<L, S>, Result<E, BindingError>),

        requires
            call_requires(build, (old(self).shared_scope(),)),
        ensures
            final(self).local_scope() == old(self).local_scope(),
            match r {
                Ok(d) => call_ensures(
                    build,
                    (old(self).shared_scope(),),
                    (final(self).shared_scope(), Ok::<E, BindingError>(d.built())),
                ),
                Err(e) => call_ensures(
                    build,
                    (old(self).shared_scope(),),
                    (final(self).shared_scope(), Err::<E, BindingError>(e)),
                ),
            },
    {
        let mut scope: SharedDependencies<L, S> = SharedDependencies {
            capabilities: Capabilities::new(),
            claimed: Vec::new(),
        };
        std::mem::swap(&mut scope, &mut self.shared);
        let (scope, built): (SharedDependencies<L, S>, Result<E, BindingError>) = build(scope);
        self.shared = scope;
        match built {
            Ok(e) => Ok(SharedExtensionDependency(e)),
            Err(e) => Err(e),
        }
    }
}

/// Whether the trait is among those that were claimed.
fn is_claimed(claimed: &Vec<u64>, trait_id: u64) -> (r: bool)
    ensures
        r == claimed@.contains(trait_id),
{
    let mut i: usize = 0;
    while i < claimed.len()
        invariant
            i <= claimed@.len(),
            forall|j: int| 0 <= j < i ==> #[trigger] claimed@[j] != trait_id,
        decreases claimed@.len() - i,
    {
        if claimed[i] == trait_id {
            return true;
        }
        i = i + 1;
    }
    false
}

/// Capability dependencies of a local extension implementation. Each can be claimed once.
#[derive(Debug)]
pub struct LocalDependencies<L, S> {
    capabilities: Capabilities<L, S>,
    claimed: Vec<u64>,
}

impl<L, S> LocalDependencies<L, S> {
    pub closed spec fn scope(&self) -> Capabilities<L, S> {
        self.capabilities
    }

    /// The traits that were claimed so far.
    pub closed spec fn claims(&self) -> Seq<u64> {
        self.claimed@
    }

    /// Acquires a required local capability, unless it was claimed before.
    pub fn require(&mut self, trait_id: u64) -> (r: Result<Rc<L>, BindingError>)
        requires
            old(self).scope().wf(),
        ensures
            final(self).scope().wf(),
            final(self).scope().local_entries() == old(self).scope().local_entries(),
            final(self).scope().shared_entries() == old(self).scope().shared_entries(),
            final(self).scope().used_shared() == old(self).scope().used_shared(),
            old(self).claims().contains(trait_id) ==> r == Err::<Rc<L>, BindingError>(
                BindingError::AlreadyClaimed,
            ) && *final(self) == *old(self),
            !old(self).claims().contains(trait_id) ==> match r {
                Ok(v) => {
                    &&& old(self).scope().local_entries().contains_key(trait_id)
                    &&& v == old(self).scope().local_entries()[trait_id].value
                    &&& final(self).claims() == old(self).claims().push(trait_id)
                    &&& final(self).scope().used_local()
                    &&& final(self).scope().accessed() == old(self).scope().accessed().push(
                        old(self).scope().local_entries()[trait_id].capability_name@,
                    )
                },
                Err(e) => {
                    &&& e is Missing
                    &&& e.text() == resolved::missing_local_text()
                    &&& !old(self).scope().local_entries().contains_key(trait_id)
                    &&& final(self).claims() == old(self).claims()
                    &&& final(self).scope().used_local() == old(self).scope().used_local()
                    &&& final(self).scope().accessed() == old(self).scope().accessed()
                },
            },
    {
        if is_claimed(&self.claimed, trait_id) {
            return Err(BindingError::AlreadyClaimed);
        }
        match self.capabilities.require_local(trait_id) {
            Ok(v) => {
                self.claimed.push(trait_id);
                Ok(v)
            },
            Err(e) => Err(e),
        }
    }

    /// Acquires an optional local capability, unless it was claimed before.
    pub fn optional(&mut self, trait_id: u64) -> (r: Result<Option<Rc<L>>, BindingError>)
        requires
            old(self).scope().wf(),
        ensures
            final(self).scope().wf(),
            final(self).scope().local_entries() == old(self).scope().local_entries(),
            final(self).scope().shared_entries() == old(self).scope().shared_entries(),
            final(self).scope().used_shared() == old(self).scope().used_shared(),
            old(self).claims().contains(trait_id) ==> r == Err::<Option<Rc<L>>, BindingError>(
                BindingError::AlreadyClaimed,
            ) && *final(self) == *old(self),
            !old(self).claims().contains(trait_id) ==> match r {
                Ok(Some(v)) => {
                    &&& old(self).scope().local_entries().contains_key(trait_id)
                    &&& v == old(self).scope().local_entries()[trait_id].value
                    &&& final(self).claims() == old(self).claims().push(trait_id)
                    &&& final(self).scope().used_local()
                    &&& final(self).scope().accessed() == old(self).scope().accessed().push(
                        old(self).scope().local_entries()[trait_id].capability_name@,
                    )
                },
                Ok(None) => {
                    &&& !old(self).scope().local_entries().contains_key(trait_id)
                    &&& final(self).claims() == old(self).claims()
                    &&& final(self).scope().used_local() == old(self).scope().used_local()
                    &&& final(self).scope().accessed() == old(self).scope().accessed()
                },
                Err(_) => false,
            },
    {
        if is_claimed(&self.claimed, trait_id) {
            return Err(BindingError::AlreadyClaimed);
        }
        match self.capabilities.optional_local(trait_id) {
            Some(v) => {
                self.claimed.push(trait_id);
                Ok(Some(v))
            },
            None => Ok(None),
        }
    }
}

/// Capability dependencies of a shared extension implementation. Each can be claimed once.
#[derive(Debug)]
pub struct SharedDependencies<L, S> {
    capabilities: Capabilities<L, S>,
    claimed: Vec<u64>,
}

impl<L, S> SharedDependencies<L, S> {
    pub closed spec fn scope(&self) -> Capabilities<L, S> {
        self.capabilities
    }

    /// The traits that were claimed so far.
    pub closed spec fn claims(&self) -> Seq<u64> {
        self.claimed@
    }
}

impl<L, S: Clone> SharedDependencies<L, S> {
    /// Acquires a required shared capability, unless it was claimed before.
    pub fn require(&mut self, trait_id: u64) -> (r: Result<S, BindingError>)
        requires
            old(self).scope().wf(),
        ensures
            final(self).scope().wf(),
            final(self).scope().local_entries() == old(self).scope().local_entries(),
            final(self).scope().shared_entries() == old(self).scope().shared_entries(),
            final(self).scope().used_local() == old(self).scope().used_local(),
            old(self).claims().contains(trait_id) ==> r == Err::<S, BindingError>(
                BindingError::AlreadyClaimed,
            ) && *final(self) == *old(self),
            !old(self).claims().contains(trait_id) ==> match r {
                Ok(v) => {
                    &&& old(self).scope().shared_entries().contains_key(trait_id)
                    &&& cloned(*old(self).scope().shared_entries()[trait_id].value, v)
                    &&& final(self).claims() == old(self).claims().push(trait_id)
                    &&& final(self).scope().used_shared()
                    &&& final(self).scope().accessed() == old(self).scope().accessed().push(
                        old(self).scope().shared_entries()[trait_id].capability_name@,
                    )
                },
                Err(e) => {
                    &&& e is Missing
                    &&& e.text() == resolved::missing_shared_text()
                    &&& !old(self).scope().shared_entries().contains_key(trait_id)
                    &&& final(self).claims() == old(self).claims()
                    &&& final(self).scope().used_shared() == old(self).scope().used_shared()
                    &&& final(self).scope().accessed() == old(self).scope().accessed()
                },
            },
    {
        if is_claimed(&self.claimed, trait_id) {
            return Err(BindingError::AlreadyClaimed);
        }
        match self.capabilities.require_shared(trait_id) {
            Ok(v) => {
                self.claimed.push(trait_id);
                Ok(v)
            },
            Err(e) => Err(e),
        }
    }

    /// Acquires an optional shared capability, unless it was claimed before.
    pub fn optional(&mut self, trait_id: u64) -> (r: Result<Option<S>, BindingError>)
        requires
            old(self).scope().wf(),
        ensures
            final(self).scope().wf(),
            final(self).scope().local_entries() == old(self).scope().local_entries(),
            final(self).scope().shared_entries() == old(self).scope().shared_entries(),
            final(self).scope().used_local() == old(self).scope().used_local(),
            old(self).claims().contains(trait_id) ==> r == Err::<Option<S>, BindingError>(
                BindingError::AlreadyClaimed,
            ) && *final(self) == *old(self),
            !old(self).claims().contains(trait_id) ==> match r {
                Ok(Some(v)) => {
                    &&& old(self).scope().shared_entries().contains_key(trait_id)
                    &&& cloned(*old(self).scope().shared_entries()[trait_id].value, v)
                    &&& final(self).claims() == old(self).claims().push(trait_id)
                    &&& final(self).scope().used_shared()
                    &&& final(self).scope().accessed() == old(self).scope().accessed().push(
                        old(self).scope().shared_entries()[trait_id].capability_name@,
                    )
                },
                Ok(None) => {
                    &&& !old(self).scope().shared_entries().contains_key(trait_id)
                    &&& final(self).claims() == old(self).claims()
                    &&& final(self).scope().used_shared() == old(self).scope().used_shared()
                    &&& final(self).scope().accessed() == old(self).scope().accessed()
                },
                Err(_) => false,
            },
    {
        if is_claimed(&self.claimed, trait_id) {
            return Err(BindingError::AlreadyClaimed);
        }
        match self.capabilities.optional_shared(trait_id) {
            Some(v) => {
                self.claimed.push(trait_id);
                Ok(Some(v))
            },
            None => Ok(None),
        }
    }
}

} // verus!
