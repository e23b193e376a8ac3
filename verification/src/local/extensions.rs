//! Registry for extension trait implementations, local and shared.

use std::rc::Rc;
use std::sync::Arc;
use vstd::prelude::*;

use crate::extensions::ExtensionError;
use crate::handles;
use crate::handles::{HandleTable, TraitKey};
use crate::order::OrderedSet;
use crate::shared::extensions;
use crate::shared::extensions::SharedExtensionRegistry;

verus! {

/// Registry for extension trait implementations.
///
/// Local entries are for components on the same thread; shared entries are for all, and can
/// be handed on alone.
#[derive(Debug)]
pub struct LocalExtensionRegistry<L, V> {
    shared: SharedExtensionRegistry<V>,
    local: HandleTable<Rc<L>>,
}

impl<L, V> LocalExtensionRegistry<L, V> {
    /// The shared entries.
    pub closed spec fn shared_entries(&self) -> Map<(Seq<char>, u64), Arc<V>> {
        self.shared@
    }

    /// The local entries.
    pub closed spec fn local_entries(&self) -> Map<(Seq<char>, u64), Rc<L>> {
        self.local@
    }

    /// There is at most one entry of either sort for each name and trait.
    pub closed spec fn wf(&self) -> bool {
        self.shared.wf() && self.local.wf()
    }

    /// The extension has an entry of either sort.
    pub open spec fn knows(&self, name: Seq<char>) -> bool {
        handles::names_one(self.shared_entries(), name) || handles::names_one(
            self.local_entries(),
            name,
        )
    }

    /// Create a new empty registry.
    pub fn new() -> (r: Self)
        ensures
            r.wf(),
            r.shared_entries() == Map::<(Seq<char>, u64), Arc<V>>::empty(),
            r.local_entries() == Map::<(Seq<char>, u64), Rc<L>>::empty(),
    {
        LocalExtensionRegistry { shared: SharedExtensionRegistry::new(), local: HandleTable::new() }
    }

    /// Register a shared instance for a named extension and a trait.
    pub fn register(&mut self, name: &str, key: TraitKey, arc: Arc<V>)
        requires
            old(self).wf(),
        ensures
            final(self).wf(),
            final(self).shared_entries() == old(self).shared_entries().insert(
                (name@, key.id),
                arc,
            ),
            final(self).local_entries() == old(self).local_entries(),
    {
        self.shared.register(name, key, arc);
    }

    /// Register a local instance for a named extension and a trait.
    pub fn register_local(&mut self, name: &str, key: TraitKey, rc: Rc<L>)
        requires
            old(self).wf(),
        ensures
            final(self).wf(),
            final(self).shared_entries() == old(self).shared_entries(),
            final(self).local_entries() == old(self).local_entries().insert((name@, key.id), rc),
    {
        self.local.insert(name, key.id, rc);
    }

    /// Get a shared instance by extension name and trait.
    pub fn get_shared(&self, name: &str, key: TraitKey) -> (r: Result<Arc<V>, ExtensionError>)
        requires
            self.wf(),
        ensures
            extensions::looks_up(
                self.shared_entries(),
                handles::names_one(self.shared_entries(), name@),
                name@,
                key,
                r,
            ),
    {
        self.shared.get(name, key)
    }

    /// Get a local instance by extension name and trait. An extension with shared entries
    /// only is known, but does not implement the trait locally.
    pub fn get(&self, name: &str, key: TraitKey) -> (r: Result<Rc<L>, ExtensionError>)
        requires
            self.wf(),
        ensures
            extensions::looks_up(self.local_entries(), self.knows(name@), name@, key, r),
    {
        match self.local.get(name, key.id) {
            Some(rc) => Ok(handles::share_rc(rc)),
            None => {
                if self.contains(name) {
                    Err(
                        ExtensionError::TraitNotImplemented {
                            name: name.to_owned(),
                            expected: key.name,
                        },
                    )
                } else {
                    Err(ExtensionError::NotFound { name: name.to_owned() })
                }
            },
        }
    }

    /// The shared registry inside.
    pub fn shared(&self) -> (r: &SharedExtensionRegistry<V>)
        requires
            self.wf(),
        ensures
            r.wf(),
            r@ == self.shared_entries(),
    {
        &self.shared
    }

    /// Extracts the shared registry, consuming this local registry.
    pub fn into_shared(self) -> (r: SharedExtensionRegistry<V>)
        requires
            self.wf(),
        ensures
            r.wf(),
            r@ == self.shared_entries(),
    {
        self.shared
    }

    /// Check if an extension exists by name, with entries of either sort.
    pub fn contains(&self, name: &str) -> (r: bool)
        requires
            self.wf(),
        ensures
            r == self.knows(name@),
    {
        self.shared.contains(name) || self.local.contains(name)
    }

    /// The unique extension names in order.
    pub fn names(&self) -> (r: OrderedSet<String>)
        requires
            self.wf(),
        ensures
            handles::lists_names_of_both(self.shared_entries(), self.local_entries(), r@),
    {
        let mut r: OrderedSet<String> = OrderedSet::new();
        self.shared.add_names(&mut r);
        self.local.add_names(&mut r);
        r
    }

    /// Returns the number of registered extensions (unique names across both sorts).
    pub fn len(&self) -> (n: usize)
        requires
            self.wf(),
        ensures
            exists|s: Seq<Seq<char>>|
                n == s.len() && #[trigger] handles::lists_names_of_both(
                    self.shared_entries(),
                    self.local_entries(),
                    s,
                ),
    {
        let names: OrderedSet<String> = self.names();
        names.len()
    }

    /// Returns true if no extensions are registered.
    pub fn is_empty(&self) -> (r: bool)
        requires
            self.wf(),
        ensures
            r == (self.shared_entries() == Map::<(Seq<char>, u64), Arc<V>>::empty()
                && self.local_entries() == Map::<(Seq<char>, u64), Rc<L>>::empty()),
    {
        self.shared.is_empty() && self.local.is_empty()
    }
}

impl<L, V> Clone for LocalExtensionRegistry<L, V> {
    /// Another registry with the same instances.
    fn clone(&self) -> (r: Self)
        ensures
            r.wf() == self.wf(),
            r.shared_entries() == self.shared_entries(),
            r.local_entries() == self.local_entries(),
    {
        LocalExtensionRegistry { shared: self.shared.clone(), local: self.local.share() }
    }
}

} // verus!
