//! Capability registry for consumers of a declared sort, local or shared.

use std::rc::Rc;
use std::sync::Arc;
use vstd::prelude::*;
use vstd::string::*;

use crate::capability::registry as selections;
use crate::handles;
use crate::id_table::IdTable;
use crate::order;
use crate::order::OrderedSet;
use crate::providers;
use crate::providers::{BindingError, CapabilityRegistration, Providers, RegistryEntry};
use crate::text;

pub use crate::extensions::ExtensionError;
pub use crate::providers::RegistrationSource;

verus! {

/// On which threads a consumer runs.
#[derive(Debug, Clone, Copy, PartialEq, Eq, Structural)]
pub enum ConsumerType {
    /// On one thread: it uses local entries, and shared ones where there is no local one.
    Local,
    /// On any thread: it uses shared entries only.
    Shared,
}

/// A capability: its name, and the traits of its local and shared form.
#[derive(Debug, Clone, Copy)]
pub struct CapabilityKeys {
    pub name: &'static str,
    pub local_id: u64,
    pub shared_id: u64,
}

/// A value of a capability in one of its forms.
#[derive(Debug)]
pub enum CapabilityHandle<L, S> {
    Local(L),
    Shared(S),
}

/// Registry for extension trait implementations.
#[derive(Debug)]
pub struct CapabilityRegistry<L, S> {
    providers: Providers<Rc<L>, Arc<S>>,
}

impl<L: Clone, S: Clone> Clone for CapabilityRegistry<L, S> {
    /// A registry with clones of all values.
    fn clone(&self) -> (r: Self)
        ensures
            self.wf() ==> {
                &&& r.wf()
                &&& handles::copies_all(self.inner().local_entries(), r.inner().local_entries())
                &&& handles::copies_all(self.inner().shared_entries(), r.inner().shared_entries())
            },
    {
        CapabilityRegistry { providers: self.providers.copy_all() }
    }
}

impl<L, S> CapabilityRegistry<L, S> {
    pub closed spec fn inner(&self) -> Providers<Rc<L>, Arc<S>> {
        self.providers
    }

    /// There is at most one entry of either sort for each name and trait.
    pub open spec fn wf(&self) -> bool {
        self.inner().wf()
    }

    /// Create a new empty registry.
    pub fn new() -> (r: Self)
        ensures
            r.wf(),
            r.inner().local_entries() == Map::<(Seq<char>, u64), RegistryEntry<Rc<L>>>::empty(),
            r.inner().shared_entries() == Map::<(Seq<char>, u64), RegistryEntry<Arc<S>>>::empty(),
    {
        CapabilityRegistry { providers: Providers::new() }
    }

    /// Enters the shared registrations of an extension.
    pub fn register_all_shared(
        &mut self,
        name: &str,
        registrations: Vec<CapabilityRegistration<Arc<S>>>,
    )
        requires
            old(self).wf(),
        ensures
            final(self).wf(),
            final(self).inner().local_entries() == old(self).inner().local_entries(),
            final(self).inner().shared_entries() == providers::with_all(
                old(self).inner().shared_entries(),
                name@,
                registrations@,
            ),
    {
        self.providers.register_all_shared(name, registrations);
    }

    /// Enters the local registrations of an extension.
    pub fn register_all_local(
        &mut self,
        name: &str,
        registrations: Vec<CapabilityRegistration<Rc<L>>>,
    )
        requires
            old(self).wf(),
        ensures
            final(self).wf(),
            final(self).inner().shared_entries() == old(self).inner().shared_entries(),
            final(self).inner().local_entries() == providers::with_all(
                old(self).inner().local_entries(),
                name@,
                registrations@,
            ),
    {
        self.providers.register_all_local(name, registrations);
    }

    /// Check if an extension exists by name.
    pub fn contains(&self, name: &str) -> (r: bool)
        requires
            self.wf(),
        ensures
            r == self.inner().knows(name@),
    {
        self.providers.contains(name)
    }

    /// Returns the number of registered extensions (unique names).
    pub fn len(&self) -> (n: usize)
        requires
            self.wf(),
        ensures
            exists|s: Seq<Seq<char>>|
                n == s.len() && #[trigger] handles::lists_names_of_both(
                    self.inner().local_entries(),
                    self.inner().shared_entries(),
                    s,
                ),
    {
        let names: OrderedSet<String> = self.providers.names();
        names.len()
    }

    /// Returns true if no extensions are registered.
    pub fn is_empty(&self) -> (r: bool)
        requires
            self.wf(),
        ensures
            r == (self.inner().local_entries() == Map::<
                (Seq<char>, u64),
                RegistryEntry<Rc<L>>,
            >::empty() && self.inner().shared_entries() == Map::<
                (Seq<char>, u64),
                RegistryEntry<Arc<S>>,
            >::empty()),
    {
        self.providers.is_empty()
    }

    /// The unique extension names in order.
    pub fn names(&self) -> (r: OrderedSet<String>)
        requires
            self.wf(),
        ensures
            handles::lists_names_of_both(
                self.inner().local_entries(),
                self.inner().shared_entries(),
                r@,
            ),
    {
        self.providers.names()
    }
}

impl<L: Clone, S: Clone> CapabilityRegistry<L, S> {
    /// Resolves the capability bindings of a node, pairs of a capability and the extension
    /// that is to provide it. `known` are the capabilities that there are. The node gets
    /// clones of the values.
    ///
    /// The first binding that cannot be met is the error. A shared consumer takes no local
    /// entries, and a binding to an extension with local ones only cannot be met for it.
    pub fn resolve_bindings(
        &self,
        known: &Vec<&'static str>,
        bindings: &Vec<(String, String)>,
        consumer_type: ConsumerType,
    ) -> (r: Result<Capabilities<L, S>, BindingError>)
        requires
            self.wf(),
        ensures
            match r {
                Ok(caps) => {
                    &&& caps.wf()
                    &&& caps.consumer() == consumer_type
                    &&& caps.accessed().len() == 0
                    &&& forall|j: int|
                        0 <= j < bindings@.len() ==> self.fault_of(
                            order::views(known@),
                            #[trigger] bindings@[j],
                            consumer_type,
                        ) is None
                    &&& selections::takes_from(
                        self.inner().shared_entries(),
                        selections::selection(self.inner().shared_entries(), bindings@),
                        caps.shared_entries(),
                    )
                    &&& consumer_type is Local ==> selections::takes_from(
                        self.inner().local_entries(),
                        selections::selection(self.inner().local_entries(), bindings@),
                        caps.local_entries(),
                    )
                    &&& consumer_type is Shared ==> caps.local_entries() == Map::<
                        u64,
                        RegistryEntry<Rc<L>>,
                    >::empty()
                },
                Err(e) => exists|j: int| #[trigger]
                    self.first_bad_binding(order::views(known@), bindings@, consumer_type, j)
                        && self.inner().explains(
                        order::views(known@),
                        bindings@[j].0@,
                        bindings@[j].1@,
                        consumer_type is Local,
                        e,
                    ),
            },
    {
        let ghost local = self.inner().local_entries();
        let ghost shared = self.inner().shared_entries();
        let use_local: bool = match consumer_type {
            ConsumerType::Local => true,
            ConsumerType::Shared => false,
        };
        let mut caps: Capabilities<L, S> = Capabilities::with_consumer_type(consumer_type);
        let mut j: usize = 0;
        proof {
            assert(bindings@.take(0) =~= Seq::<(String, String)>::empty());
            selections::lemma_selects_nothing(local);
            selections::lemma_selects_nothing(shared);
        }
        while j < bindings.len()
            invariant
                self.wf(),
                local == self.inner().local_entries(),
                shared == self.inner().shared_entries(),
                use_local == (consumer_type is Local),
                j <= bindings@.len(),
                caps.wf(),
                caps.consumer() == consumer_type,
                caps.accessed().len() == 0,
                forall|i: int|
                    0 <= i < j ==> self.fault_of(
                        order::views(known@),
                        #[trigger] bindings@[i],
                        consumer_type,
                    ) is None,
                selections::takes_from(
                    shared,
                    selections::selection(shared, bindings@.take(j as int)),
                    caps.shared_entries(),
                ),
                use_local ==> selections::takes_from(
                    local,
                    selections::selection(local, bindings@.take(j as int)),
                    caps.local_entries(),
                ),
                !use_local ==> caps.local_entries() == Map::<u64, RegistryEntry<Rc<L>>>::empty(),
            decreases bindings@.len() - j,
        {
            let capability: &str = bindings[j].0.as_str();
            let extension: &str = bindings[j].1.as_str();
            match self.providers.check_binding(known, capability, extension, use_local) {
                Ok(_) => {},
                Err(e) => {
                    assert(self.first_bad_binding(
                        order::views(known@),
                        bindings@,
                        consumer_type,
                        j as int,
                    ));
                    return Err(e);
                },
            }
            if use_local {
                selections::take_plain(
                    self.providers.local_table(),
                    &mut caps.local_resolved,
                    extension,
                    capability,
                    Ghost(selections::selection(local, bindings@.take(j as int))),
                );
            }
            selections::take_plain(
                self.providers.shared_table(),
                &mut caps.shared_resolved,
                extension,
                capability,
                Ghost(selections::selection(shared, bindings@.take(j as int))),
            );
            proof {
                selections::lemma_selection_grows(local, bindings@, j as int);
                selections::lemma_selection_grows(shared, bindings@, j as int);
            }
            j = j + 1;
        }
        assert(bindings@.take(j as int) =~= bindings@);
        Ok(caps)
    }

    /// Why a binding cannot be met for a consumer of that sort.
    pub open spec fn fault_of(
        &self,
        known: Seq<Seq<char>>,
        binding: (String, String),
        consumer_type: ConsumerType,
    ) -> Option<providers::BindingFault> {
        providers::fault(
            self.inner().local_entries(),
            self.inner().shared_entries(),
            known,
            binding.0@,
            binding.1@,
            consumer_type is Local,
        )
    }

    /// All bindings before position `j` can be met.
    pub open spec fn first_bad_binding(
        &self,
        known: Seq<Seq<char>>,
        bindings: Seq<(String, String)>,
        consumer_type: ConsumerType,
        j: int,
    ) -> bool {
        &&& 0 <= j < bindings.len()
        &&& forall|i: int|
            0 <= i < j ==> self.fault_of(known, #[trigger] bindings[i], consumer_type) is None
    }
}

impl<L, S: Clone> CapabilityRegistry<L, S> {
    /// A clone of the shared value of the extension for the trait.
    pub fn get(&self, name: &str, trait_id: u64) -> (r: Option<S>)
        requires
            self.wf(),
        ensures
            match r {
                Some(v) => self.inner().shared_entries().contains_key((name@, trait_id)) && cloned(
                    *self.inner().shared_entries()[(name@, trait_id)].value,
                    v,
                ),
                None => !self.inner().shared_entries().contains_key((name@, trait_id)),
            },
    {
        match self.providers.shared_table().get(name, trait_id) {
            Some(entry) => {
                let value: &S = &*entry.value;
                Some(value.clone())
            },
            None => None,
        }
    }
}

/// Per-node resolved capability bindings, and which of them were used.
#[derive(Debug)]
pub struct Capabilities<L, S> {
    local_resolved: IdTable<RegistryEntry<Rc<L>>>,
    shared_resolved: IdTable<RegistryEntry<Arc<S>>>,
    consumer_type: ConsumerType,
    accessed_capability_names: Vec<&'static str>,
}

/// The message for a capability that was not bound.
pub open spec fn missing_text(name: Seq<char>) -> Seq<char> {
    "Missing required capability '"@ + name
        + "'. Add to your node config:\n  capabilities:\n    "@ + name
        + ": <extension_instance_name>"@
}

impl<L, S> Capabilities<L, S> {
    pub closed spec fn local_entries(&self) -> Map<u64, RegistryEntry<Rc<L>>> {
        self.local_resolved@
    }

    pub closed spec fn shared_entries(&self) -> Map<u64, RegistryEntry<Arc<S>>> {
        self.shared_resolved@
    }

    pub closed spec fn consumer(&self) -> ConsumerType {
        self.consumer_type
    }

    /// The names of the capabilities that were used.
    pub closed spec fn accessed(&self) -> Seq<Seq<char>> {
        order::views(self.accessed_capability_names@)
    }

    /// There is at most one entry of either sort for each trait.
    pub closed spec fn wf(&self) -> bool {
        self.local_resolved.wf() && self.shared_resolved.wf()
    }

    /// Creates an empty `Capabilities` for a local consumer.
    pub fn new() -> (r: Self)
        ensures
            r.wf(),
            r.local_entries() == Map::<u64, RegistryEntry<Rc<L>>>::empty(),
            r.shared_entries() == Map::<u64, RegistryEntry<Arc<S>>>::empty(),
            r.consumer() is Local,
            r.accessed().len() == 0,
    {
        Self::with_consumer_type(ConsumerType::Local)
    }

    /// Creates an empty `Capabilities` for a consumer of that sort.
    pub fn with_consumer_type(consumer_type: ConsumerType) -> (r: Self)
        ensures
            r.wf(),
            r.local_entries() == Map::<u64, RegistryEntry<Rc<L>>>::empty(),
            r.shared_entries() == Map::<u64, RegistryEntry<Arc<S>>>::empty(),
            r.consumer() == consumer_type,
            r.accessed().len() == 0,
    {
        Capabilities {
            local_resolved: IdTable::new(),
            shared_resolved: IdTable::new(),
            consumer_type,
            accessed_capability_names: Vec::new(),
        }
    }

    /// Returns `true` if no capabilities are stored.
    pub fn is_empty(&self) -> (r: bool)
        requires
            self.wf(),
        ensures
            r == (self.local_entries() == Map::<u64, RegistryEntry<Rc<L>>>::empty()
                && self.shared_entries() == Map::<u64, RegistryEntry<Arc<S>>>::empty()),
    {
        self.local_resolved.is_empty() && self.shared_resolved.is_empty()
    }

    /// Returns the capability names that were resolved but never consumed, in order.
    pub fn unused_bindings(&self) -> (r: Vec<&'static str>)
        requires
            self.wf(),
        ensures
            order::lists::<&'static str>(
                order::views(r@),
                |n: Seq<char>|
                    (selections::has_capability(self.local_entries(), n)
                        || selections::has_capability(self.shared_entries(), n))
                        && !self.accessed().contains(n),
            ),
    {
        let mut set: OrderedSet<&'static str> = OrderedSet::new();
        selections::add_unused(&self.local_resolved, &self.accessed_capability_names, &mut set);
        selections::add_unused(&self.shared_resolved, &self.accessed_capability_names, &mut set);
        set.to_vec()
    }

    /// The value that a consumer of this sort gets for the capability: a local consumer a
    /// clone of the local one, if there is one; else a clone of the shared one.
    pub open spec fn gives(&self, keys: CapabilityKeys, h: CapabilityHandle<L, S>) -> bool
        where L: Clone, S: Clone
    {
        if self.consumer() is Local && self.local_entries().contains_key(keys.local_id) {
            h matches CapabilityHandle::Local(v) && cloned(
                *self.local_entries()[keys.local_id].value,
                v,
            )
        } else {
            self.shared_entries().contains_key(keys.shared_id) && (
            h matches CapabilityHandle::Shared(v) && cloned(
                *self.shared_entries()[keys.shared_id].value,
                v,
            ))
        }
    }

    /// Whether a consumer of this sort gets anything for the capability.
    pub open spec fn has(&self, keys: CapabilityKeys) -> bool {
        (self.consumer() is Local && self.local_entries().contains_key(keys.local_id))
            || self.shared_entries().contains_key(keys.shared_id)
    }
}

impl<L: Clone, S: Clone> Capabilities<L, S> {
    /// Require a capability by its name and traits.
    pub fn require(&mut self, keys: CapabilityKeys) -> (r: Result<
        CapabilityHandle<L, S>,
        BindingError,
    >)
        requires
            old(self).wf(),
        ensures
            final(self).wf(),
            final(self).local_entries() == old(self).local_entries(),
            final(self).shared_entries() == old(self).shared_entries(),
            final(self).consumer() == old(self).consumer(),
            match r {
                Ok(h) => {
                    &&& old(self).has(keys)
                    &&& old(self).gives(keys, h)
                    &&& final(self).accessed() == old(self).accessed().push(keys.name@)
                },
                Err(e) => {
                    &&& !old(self).has(keys)
                    &&& e is Missing
                    &&& e.text() == missing_text(keys.name@)
                    &&& final(self).accessed() == old(self).accessed()
                },
            },
    {
        match self.optional(keys) {
            Some(h) => Ok(h),
            None => Err(
                BindingError::Missing {
                    message: text::joined5(
                        "Missing required capability '",
                        keys.name,
                        "'. Add to your node config:\n  capabilities:\n    ",
                        keys.name,
                        ": <extension_instance_name>",
                    ),
                },
            ),
        }
    }

    /// Get an optional capability by its name and traits.
    pub fn optional(&mut self, keys: CapabilityKeys) -> (r: Option<CapabilityHandle<L, S>>)
        requires
            old(self).wf(),
        ensures
            final(self).wf(),
            final(self).local_entries() == old(self).local_entries(),
            final(self).shared_entries() == old(self).shared_entries(),
            final(self).consumer() == old(self).consumer(),
            match r {
                Some(h) => {
                    &&& old(self).has(keys)
                    &&& old(self).gives(keys, h)
                    &&& final(self).accessed() == old(self).accessed().push(keys.name@)
                },
                None => {
                    &&& !old(self).has(keys)
                    &&& final(self).accessed() == old(self).accessed()
                },
            },
    {
        let found: Option<CapabilityHandle<L, S>> = match self.consumer_type {
            ConsumerType::Local => {
                match self.get_local(keys.local_id) {
                    Some(v) => Some(CapabilityHandle::Local(v)),
                    None => {
                        match self.get_shared(keys.shared_id) {
                            Some(v) => Some(CapabilityHandle::Shared(v)),
                            None => None,
                        }
                    },
                }
            },
            ConsumerType::Shared => {
                match self.get_shared(keys.shared_id) {
                    Some(v) => Some(CapabilityHandle::Shared(v)),
                    None => None,
                }
            },
        };
        if found.is_some() {
            let ghost names0 = self.accessed_capability_names@;
            self.accessed_capability_names.push(keys.name);
            assert(self.accessed() =~= order::views(names0).push(keys.name@));
        }
        found
    }

    fn get_local(&self, id: u64) -> (r: Option<L>)
        requires
            self.wf(),
        ensures
            match r {
                Some(v) => self.local_entries().contains_key(id) && cloned(
                    *self.local_entries()[id].value,
                    v,
                ),
                None => !self.local_entries().contains_key(id),
            },
    {
        match self.local_resolved.get(id) {
            Some(entry) => {
                let value: &L = &*entry.value;
                Some(value.clone())
            },
            None => None,
        }
    }

    fn get_shared(&self, id: u64) -> (r: Option<S>)
        requires
            self.wf(),
        ensures
            match r {
                Some(v) => self.shared_entries().contains_key(id) && cloned(
                    *self.shared_entries()[id].value,
                    v,
                ),
                None => !self.shared_entries().contains_key(id),
            },
    {
        match self.shared_resolved.get(id) {
            Some(entry) => {
                let value: &S = &*entry.value;
                Some(value.clone())
            },
            None => None,
        }
    }
}

/// A consumer on any thread never gets a local value. One on a single thread gets the local
/// value if there is one, and else the shared one. Each gets a clone.
pub proof fn consumers_get_what_they_can_use<L: Clone, S: Clone>(
    caps: Capabilities<L, S>,
    keys: CapabilityKeys,
    h: CapabilityHandle<L, S>,
)
    requires
        caps.gives(keys, h),
    ensures
        caps.has(keys),
        caps.consumer() is Shared ==> h is Shared,
        caps.consumer() is Local ==> (h is Local <==> caps.local_entries().contains_key(
            keys.local_id,
        )),
        h matches CapabilityHandle::Local(v) ==> caps.local_entries().contains_key(keys.local_id)
            && cloned(*caps.local_entries()[keys.local_id].value, v),
        h matches CapabilityHandle::Shared(v) ==> caps.shared_entries().contains_key(
            keys.shared_id,
        ) && cloned(*caps.shared_entries()[keys.shared_id].value, v),
{
}

/// A consumer gets nothing for a capability exactly if there is no shared value and, for one on
/// a single thread, no local one either.
pub proof fn nothing_is_given_only_where_nothing_is<L, S>(
    caps: Capabilities<L, S>,
    keys: CapabilityKeys,
)
    ensures
        !caps.has(keys) <==> !caps.shared_entries().contains_key(keys.shared_id) && (
        caps.consumer() is Local ==> !caps.local_entries().contains_key(keys.local_id)),
{
}

} // verus!
