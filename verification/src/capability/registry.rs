//! Capability registry: from the bindings of a node to the instances that it uses.

use std::rc::Rc;
use std::sync::Arc;
use vstd::prelude::*;
use vstd::string::*;

use crate::handles;
use crate::handles::{DeepClone, Handle, HandleTable};
use crate::id_table::IdTable;
use crate::order;
use crate::order::OrderedSet;
use crate::providers;
use crate::providers::{BindingError, CapabilityRegistration, Providers, RegistryEntry};

pub use crate::extensions::ExtensionError;

verus! {

/// A shared value that can be used on one thread, in a form made for that.
pub trait AdaptToLocal<L>: Sized {
    fn adapt_to_local(&self) -> L;
}

/// `local` is a form that `shared` may be adapted to.
pub open spec fn adapted<L, S: AdaptToLocal<L>>(shared: S, local: L) -> bool {
    call_ensures(S::adapt_to_local, (&shared,), local)
}

/// The keys that `bindings` select in `m`: each binding selects the entries of its extension
/// that belong to its capability.
pub open spec fn selected<T>(
    m: Map<(Seq<char>, u64), RegistryEntry<T>>,
    bindings: Seq<(String, String)>,
    k: (Seq<char>, u64),
) -> bool {
    exists|j: int| #[trigger] selected_by(m, bindings, j, k)
}

/// The keys that `bindings` select in `m`, as a property.
pub open spec fn selection<T>(
    m: Map<(Seq<char>, u64), RegistryEntry<T>>,
    bindings: Seq<(String, String)>,
) -> spec_fn((Seq<char>, u64)) -> bool {
    |k: (Seq<char>, u64)| selected(m, bindings, k)
}

/// `keys`, and the entries of the extension for the capability.
pub open spec fn widened<T>(
    keys: spec_fn((Seq<char>, u64)) -> bool,
    m: Map<(Seq<char>, u64), RegistryEntry<T>>,
    extension: Seq<char>,
    capability: Seq<char>,
) -> spec_fn((Seq<char>, u64)) -> bool {
    |k: (Seq<char>, u64)|
        keys(k) || (k.0 == extension && providers::offers_at(m, k.0, k.1, capability))
}

/// The binding at position `j` selects the key.
pub open spec fn selected_by<T>(
    m: Map<(Seq<char>, u64), RegistryEntry<T>>,
    bindings: Seq<(String, String)>,
    j: int,
    k: (Seq<char>, u64),
) -> bool {
    0 <= j < bindings.len() && bindings[j].1@ == k.0 && providers::offers_at(
        m,
        k.0,
        k.1,
        bindings[j].0@,
    )
}

/// Each trait that one of the keys is for has a copy of the entry of such a key, and no other
/// trait has one.
pub open spec fn takes_from<T: DeepClone>(
    m: Map<(Seq<char>, u64), RegistryEntry<T>>,
    keys: spec_fn((Seq<char>, u64)) -> bool,
    resolved: Map<u64, RegistryEntry<T>>,
) -> bool {
    &&& forall|k: (Seq<char>, u64)| #[trigger] keys(k) ==> resolved.contains_key(k.1)
    &&& forall|id: u64| #[trigger]
        resolved.contains_key(id) ==> exists|n: Seq<char>| #[trigger]
            keys((n, id)) && m[(n, id)].copies(resolved[id])
}

/// What a local trait has: the local entry of a key for it, if there is one; otherwise the
/// adapted form of a shared entry that has such a form.
pub open spec fn takes_local<L, S: AdaptToLocal<L>>(
    local: Map<(Seq<char>, u64), RegistryEntry<Rc<L>>>,
    shared: Map<(Seq<char>, u64), RegistryEntry<Arc<S>>>,
    local_keys: spec_fn((Seq<char>, u64)) -> bool,
    shared_keys: spec_fn((Seq<char>, u64)) -> bool,
    resolved: Map<u64, RegistryEntry<Rc<L>>>,
) -> bool {
    &&& forall|k: (Seq<char>, u64)| #[trigger] local_keys(k) ==> resolved.contains_key(k.1)
    &&& forall|k: (Seq<char>, u64)| #[trigger]
        shared_keys(k) && shared[k].local_trait_id is Some ==> resolved.contains_key(
            shared[k].local_trait_id->0,
        )
    &&& forall|id: u64| #[trigger]
        resolved.contains_key(id) ==> local_choice(
            local,
            shared,
            local_keys,
            shared_keys,
            id,
            resolved[id],
        )
}

pub open spec fn local_choice<L, S: AdaptToLocal<L>>(
    local: Map<(Seq<char>, u64), RegistryEntry<Rc<L>>>,
    shared: Map<(Seq<char>, u64), RegistryEntry<Arc<S>>>,
    local_keys: spec_fn((Seq<char>, u64)) -> bool,
    shared_keys: spec_fn((Seq<char>, u64)) -> bool,
    id: u64,
    entry: RegistryEntry<Rc<L>>,
) -> bool {
    ||| exists|n: Seq<char>| #[trigger] local_keys((n, id)) && entry == local[(n, id)]
    ||| (forall|n: Seq<char>| !#[trigger] local_keys((n, id))) && exists|k: (Seq<char>, u64)|
        #[trigger] shared_keys(k) && adapts(shared[k], id, entry)
}

/// `entry` is the adapted form of the shared entry for the local trait.
pub open spec fn adapts<L, S: AdaptToLocal<L>>(
    shared: RegistryEntry<Arc<S>>,
    id: u64,
    entry: RegistryEntry<Rc<L>>,
) -> bool {
    &&& shared.local_trait_id == Some(id)
    &&& adapted(*shared.value, *entry.value)
    &&& entry.capability_name == shared.capability_name
}

/// Registry for extension trait implementations.
#[derive(Debug)]
pub struct CapabilityRegistry<L, S> {
    providers: Providers<Rc<L>, Arc<S>>,
}

impl<L, S: Clone> Clone for CapabilityRegistry<L, S> {
    /// A registry with the same local instances, and with clones of the shared values.
    fn clone(&self) -> (r: Self)
        ensures
            r.inner().local_entries() == self.inner().local_entries(),
            self.wf() ==> r.wf() && handles::copies_all(
                self.inner().shared_entries(),
                r.inner().shared_entries(),
            ),
    {
        CapabilityRegistry { providers: self.providers.copy_shared() }
    }
}

impl<L, S> CapabilityRegistry<L, S> {
    pub closed spec fn inner(&self) -> Providers<Rc<L>, Arc<S>> {
        self.providers
    }

    /// There is at most one entry of either sort for each name and trait.
    pub open spec fn wf(&self) -> bool {
        self.inner().wf()
    }

    /// Create a new empty registry.
    pub fn new() -> (r: Self)
        ensures
            r.wf(),
            r.inner().local_entries() == Map::<(Seq<char>, u64), RegistryEntry<Rc<L>>>::empty(),
            r.inner().shared_entries() == Map::<(Seq<char>, u64), RegistryEntry<Arc<S>>>::empty(),
    {
        CapabilityRegistry { providers: Providers::new() }
    }

    /// Enters the shared registrations of an extension.
    pub fn register_all_shared(
        &mut self,
        name: &str,
        registrations: Vec<CapabilityRegistration<Arc<S>>>,
    )
        requires
            old(self).wf(),
        ensures
            final(self).wf(),
            final(self).inner().local_entries() == old(self).inner().local_entries(),
            final(self).inner().shared_entries() == providers::with_all(
                old(self).inner().shared_entries(),
                name@,
                registrations@,
            ),
    {
        self.providers.register_all_shared(name, registrations);
    }

    /// Enters the local registrations of an extension.
    pub fn register_all_local(
        &mut self,
        name: &str,
        registrations: Vec<CapabilityRegistration<Rc<L>>>,
    )
        requires
            old(self).wf(),
        ensures
            final(self).wf(),
            final(self).inner().shared_entries() == old(self).inner().shared_entries(),
            final(self).inner().local_entries() == providers::with_all(
                old(self).inner().local_entries(),
                name@,
                registrations@,
            ),
    {
        self.providers.register_all_local(name, registrations);
    }

    /// Check if an extension exists by name.
    pub fn contains(&self, name: &str) -> (r: bool)
        requires
            self.wf(),
        ensures
            r == self.inner().knows(name@),
    {
        self.providers.contains(name)
    }

    /// Returns the number of registered extensions (unique names).
    pub fn len(&self) -> (n: usize)
        requires
            self.wf(),
        ensures
            exists|s: Seq<Seq<char>>|
                n == s.len() && #[trigger] handles::lists_names_of_both(
                    self.inner().local_entries(),
                    self.inner().shared_entries(),
                    s,
                ),
    {
        let names: OrderedSet<String> = self.providers.names();
        names.len()
    }

    /// Returns true if no extensions are registered.
    pub fn is_empty(&self) -> (r: bool)
        requires
            self.wf(),
        ensures
            r == (self.inner().local_entries() == Map::<
                (Seq<char>, u64),
                RegistryEntry<Rc<L>>,
            >::empty() && self.inner().shared_entries() == Map::<
                (Seq<char>, u64),
                RegistryEntry<Arc<S>>,
            >::empty()),
    {
        self.providers.is_empty()
    }

    /// The unique extension names in order.
    pub fn names(&self) -> (r: OrderedSet<String>)
        requires
            self.wf(),
        ensures
            handles::lists_names_of_both(
                self.inner().local_entries(),
                self.inner().shared_entries(),
                r@,
            ),
    {
        self.providers.names()
    }
}

impl<L, S: Clone> CapabilityRegistry<L, S> {
    /// A clone of the shared value of the extension for the trait.
    pub fn get(&self, name: &str, trait_id: u64) -> (r: Option<S>)
        requires
            self.wf(),
        ensures
            match r {
                Some(v) => self.inner().shared_entries().contains_key((name@, trait_id)) && cloned(
                    *self.inner().shared_entries()[(name@, trait_id)].value,
                    v,
                ),
                None => !self.inner().shared_entries().contains_key((name@, trait_id)),
            },
    {
        match self.providers.shared_table().get(name, trait_id) {
            Some(entry) => {
                let value: &S = &*entry.value;
                Some(value.clone())
            },
            None => None,
        }
    }
}

impl<L, S: AdaptToLocal<L> + Clone> CapabilityRegistry<L, S> {
    /// Resolves the capability bindings of a node, pairs of a capability and the extension
    /// that is to provide it. `known` are the capabilities that there are. The node gets the
    /// local instances themselves, and clones of the shared values.
    ///
    /// The first binding that cannot be met is the error.
    pub fn resolve_bindings(
        &self,
        known: &Vec<&'static str>,
        bindings: &Vec<(String, String)>,
    ) -> (r: Result<Capabilities<L, S>, BindingError>)
        requires
            self.wf(),
            forall|s: S| call_requires(S::adapt_to_local, (&s,)),
        ensures
            match r {
                Ok(caps) => {
                    &&& caps.wf()
                    &&& forall|j: int|
                        0 <= j < bindings@.len() ==> providers::fault(
                            self.inner().local_entries(),
                            self.inner().shared_entries(),
                            order::views(known@),
                            (#[trigger] bindings@[j]).0@,
                            bindings@[j].1@,
                            true,
                        ) is None
                    &&& takes_from(
                        self.inner().shared_entries(),
                        selection(self.inner().shared_entries(), bindings@),
                        caps.shared_entries(),
                    )
                    &&& takes_local(
                        self.inner().local_entries(),
                        self.inner().shared_entries(),
                        selection(self.inner().local_entries(), bindings@),
                        selection(self.inner().shared_entries(), bindings@),
                        caps.local_entries(),
                    )
                    &&& caps.accessed().len() == 0
                    &&& !caps.used_local()
                    &&& !caps.used_shared()
                },
                Err(e) => exists|j: int| #[trigger]
                    first_bad_binding(self.inner(), order::views(known@), bindings@, j)
                        && self.inner().explains(
                        order::views(known@),
                        bindings@[j].0@,
                        bindings@[j].1@,
                        true,
                        e,
                    ),
            },
    {
        let ghost local = self.inner().local_entries();
        let ghost shared = self.inner().shared_entries();
        let ghost none = Seq::<(String, String)>::empty();
        let mut caps: Capabilities<L, S> = Capabilities::new();
        let mut j: usize = 0;
        proof {
            assert(bindings@.take(0) =~= none);
            assert forall|k: (Seq<char>, u64)| !selected(local, none, k) by {}
            assert forall|k: (Seq<char>, u64)| !selected(shared, none, k) by {}
        }
        while j < bindings.len()
            invariant
                self.wf(),
                forall|s: S| call_requires(S::adapt_to_local, (&s,)),
                local == self.inner().local_entries(),
                shared == self.inner().shared_entries(),
                j <= bindings@.len(),
                caps.wf(),
                caps.accessed().len() == 0,
                !caps.used_local(),
                !caps.used_shared(),
                forall|i: int|
                    0 <= i < j ==> providers::fault(
                        local,
                        shared,
                        order::views(known@),
                        (#[trigger] bindings@[i]).0@,
                        bindings@[i].1@,
                        true,
                    ) is None,
                takes_from(
                    shared,
                    selection(shared, bindings@.take(j as int)),
                    caps.shared_entries(),
                ),
                takes_local(
                    local,
                    shared,
                    selection(local, bindings@.take(j as int)),
                    selection(shared, bindings@.take(j as int)),
                    caps.local_entries(),
                ),
            decreases bindings@.len() - j,
        {
            let capability: &str = bindings[j].0.as_str();
            let extension: &str = bindings[j].1.as_str();
            match self.providers.check_binding(known, capability, extension, true) {
                Ok(_) => {},
                Err(e) => {
                    assert(first_bad_binding(
                        self.inner(),
                        order::views(known@),
                        bindings@,
                        j as int,
                    ));
                    return Err(e);
                },
            }
            caps.take_entries(
                self.providers.local_table(),
                self.providers.shared_table(),
                extension,
                capability,
                Ghost(selection(local, bindings@.take(j as int))),
                Ghost(selection(shared, bindings@.take(j as int))),
            );
            proof {
                lemma_selection_grows(local, bindings@, j as int);
                lemma_selection_grows(shared, bindings@, j as int);
            }
            j = j + 1;
        }
        assert(bindings@.take(j as int) =~= bindings@);
        Ok(caps)
    }
}

/// The binding at position `j` cannot be met, and all before it can.
pub open spec fn first_bad_binding<L, S>(
    inner: Providers<Rc<L>, Arc<S>>,
    known: Seq<Seq<char>>,
    bindings: Seq<(String, String)>,
    j: int,
) -> bool {
    &&& 0 <= j < bindings.len()
    &&& forall|i: int|
        0 <= i < j ==> providers::fault(
            inner.local_entries(),
            inner.shared_entries(),
            known,
            (#[trigger] bindings[i]).0@,
            bindings[i].1@,
            true,
        ) is None
}

proof fn lemma_selected_push<T>(
    m: Map<(Seq<char>, u64), RegistryEntry<T>>,
    bindings: Seq<(String, String)>,
    j: int,
)
    requires
        0 <= j < bindings.len(),
    ensures
        forall|k: (Seq<char>, u64)| #[trigger]
            selected(m, bindings.take(j + 1), k) == (selected(m, bindings.take(j), k) || (k.0
                == bindings[j].1@ && providers::offers_at(m, k.0, k.1, bindings[j].0@))),
{
    let now = bindings.take(j + 1);
    let prev = bindings.take(j);
    assert forall|k: (Seq<char>, u64)| #[trigger] selected(m, now, k) == (selected(m, prev, k) || (
    k.0 == bindings[j].1@ && providers::offers_at(m, k.0, k.1, bindings[j].0@))) by {
        if selected(m, now, k) {
            let i = choose|i: int| #[trigger] selected_by(m, now, i, k);
            if i < j {
                assert(selected_by(m, prev, i, k));
            }
        }
        if selected(m, prev, k) {
            let i = choose|i: int| #[trigger] selected_by(m, prev, i, k);
            assert(selected_by(m, now, i, k));
        }
        if k.0 == bindings[j].1@ && providers::offers_at(m, k.0, k.1, bindings[j].0@) {
            assert(selected_by(m, now, j, k));
        }
    }
}

/// Per-node resolved capability bindings, and which of them were used.
#[derive(Debug)]
pub struct Capabilities<L, S> {
    local_resolved: IdTable<RegistryEntry<Rc<L>>>,
    shared_resolved: IdTable<RegistryEntry<Arc<S>>>,
    accessed_capability_names: Vec<&'static str>,
    accessed_local: bool,
    accessed_shared: bool,
}

impl<L, S> Capabilities<L, S> {
    pub closed spec fn local_entries(&self) -> Map<u64, RegistryEntry<Rc<L>>> {
        self.local_resolved@
    }

    pub closed spec fn shared_entries(&self) -> Map<u64, RegistryEntry<Arc<S>>> {
        self.shared_resolved@
    }

    /// The names of the capabilities that were used.
    pub closed spec fn accessed(&self) -> Seq<Seq<char>> {
        order::views(self.accessed_capability_names@)
    }

    pub closed spec fn used_local(&self) -> bool {
        self.accessed_local
    }

    pub closed spec fn used_shared(&self) -> bool {
        self.accessed_shared
    }

    /// There is at most one entry of either sort for each trait.
    pub closed spec fn wf(&self) -> bool {
        self.local_resolved.wf() && self.shared_resolved.wf()
    }

    /// Creates an empty `Capabilities`.
    pub fn new() -> (r: Self)
        ensures
            r.wf(),
            r.local_entries() == Map::<u64, RegistryEntry<Rc<L>>>::empty(),
            r.shared_entries() == Map::<u64, RegistryEntry<Arc<S>>>::empty(),
            r.accessed().len() == 0,
            !r.used_local(),
            !r.used_shared(),
    {
        Capabilities {
            local_resolved: IdTable::new(),
            shared_resolved: IdTable::new(),
            accessed_capability_names: Vec::new(),
            accessed_local: false,
            accessed_shared: false,
        }
    }

    /// Returns `true` if no capabilities are stored.
    pub fn is_empty(&self) -> (r: bool)
        requires
            self.wf(),
        ensures
            r == (self.local_entries() == Map::<u64, RegistryEntry<Rc<L>>>::empty()
                && self.shared_entries() == Map::<u64, RegistryEntry<Arc<S>>>::empty()),
    {
        self.local_resolved.is_empty() && self.shared_resolved.is_empty()
    }

    /// Returns `true` if any local variant was consumed.
    pub fn consumed_local(&self) -> (r: bool)
        ensures
            r == self.used_local(),
    {
        self.accessed_local
    }

    /// Returns `true` if any shared variant was consumed.
    pub fn consumed_shared(&self) -> (r: bool)
        ensures
            r == self.used_shared(),
    {
        self.accessed_shared
    }
}

/// The message for a local capability that was not bound.
pub open spec fn missing_local_text() -> Seq<char> {
    "Missing required capability. Add to your node config:\n  capabilities:\n    <capability_name>: <extension_instance_name>"@
}

/// The message for a shared capability that was not bound.
pub open spec fn missing_shared_text() -> Seq<char> {
    "Missing required shared capability. The extension must provide a shared (Send) implementation.\n  capabilities:\n    <capability_name>: <extension_instance_name>"@
}

/// Some entry belongs to the capability.
pub open spec fn has_capability<T>(m: Map<u64, RegistryEntry<T>>, name: Seq<char>) -> bool {
    exists|id: u64| #[trigger] m.contains_key(id) && m[id].capability_name@ == name
}

impl<L, S> Capabilities<L, S> {
    /// Returns the capability names that were resolved but never consumed, in order.
    pub fn unused_bindings(&self) -> (r: Vec<&'static str>)
        requires
            self.wf(),
        ensures
            order::lists::<&'static str>(
                order::views(r@),
                |n: Seq<char>|
                    (has_capability(self.local_entries(), n) || has_capability(
                        self.shared_entries(),
                        n,
                    )) && !self.accessed().contains(n),
            ),
    {
        let mut set: OrderedSet<&'static str> = OrderedSet::new();
        add_unused(&self.local_resolved, &self.accessed_capability_names, &mut set);
        add_unused(&self.shared_resolved, &self.accessed_capability_names, &mut set);
        set.to_vec()
    }

    /// The local entry for the trait; notes that its capability is used.
    fn get_local_raw(&mut self, trait_id: u64) -> (r: Option<Rc<L>>)
        requires
            old(self).wf(),
        ensures
            final(self).wf(),
            final(self).local_entries() == old(self).local_entries(),
            final(self).shared_entries() == old(self).shared_entries(),
            final(self).used_local() == old(self).used_local(),
            final(self).used_shared() == old(self).used_shared(),
            match r {
                Some(v) => {
                    &&& old(self).local_entries().contains_key(trait_id)
                    &&& v == old(self).local_entries()[trait_id].value
                    &&& final(self).accessed() == old(self).accessed().push(
                        old(self).local_entries()[trait_id].capability_name@,
                    )
                },
                None => {
                    &&& !old(self).local_entries().contains_key(trait_id)
                    &&& final(self).accessed() == old(self).accessed()
                },
            },
    {
        let ghost names0 = self.accessed_capability_names@;
        let (value, name): (Rc<L>, &'static str) = match self.local_resolved.get(trait_id) {
            Some(entry) => (handles::share_rc(&entry.value), entry.capability_name),
            None => {
                return None;
            },
        };
        self.accessed_capability_names.push(name);
        assert(self.accessed() =~= order::views(names0).push(name@));
        Some(value)
    }

    /// Require a local capability: the instance for the trait, shared with all that ask.
    pub fn require_local(&mut self, trait_id: u64) -> (r: Result<Rc<L>, BindingError>)
        requires
            old(self).wf(),
        ensures
            final(self).wf(),
            final(self).local_entries() == old(self).local_entries(),
            final(self).shared_entries() == old(self).shared_entries(),
            final(self).used_shared() == old(self).used_shared(),
            match r {
                Ok(v) => {
                    &&& old(self).local_entries().contains_key(trait_id)
                    &&& v == old(self).local_entries()[trait_id].value
                    &&& final(self).used_local()
                    &&& final(self).accessed() == old(self).accessed().push(
                        old(self).local_entries()[trait_id].capability_name@,
                    )
                },
                Err(e) => {
                    &&& !old(self).local_entries().contains_key(trait_id)
                    &&& e.text() == missing_local_text()
                    &&& e is Missing
                    &&& final(self).used_local() == old(self).used_local()
                    &&& final(self).accessed() == old(self).accessed()
                },
            },
    {
        match self.optional_local(trait_id) {
            Some(v) => Ok(v),
            None => Err(
                BindingError::Missing {
                    message: "Missing required capability. Add to your node config:\n  capabilities:\n    <capability_name>: <extension_instance_name>".to_owned(),
                },
            ),
        }
    }

    /// Get an optional local capability.
    pub fn optional_local(&mut self, trait_id: u64) -> (r: Option<Rc<L>>)
        requires
            old(self).wf(),
        ensures
            final(self).wf(),
            final(self).local_entries() == old(self).local_entries(),
            final(self).shared_entries() == old(self).shared_entries(),
            final(self).used_shared() == old(self).used_shared(),
            match r {
                Some(v) => {
                    &&& old(self).local_entries().contains_key(trait_id)
                    &&& v == old(self).local_entries()[trait_id].value
                    &&& final(self).used_local()
                    &&& final(self).accessed() == old(self).accessed().push(
                        old(self).local_entries()[trait_id].capability_name@,
                    )
                },
                None => {
                    &&& !old(self).local_entries().contains_key(trait_id)
                    &&& final(self).used_local() == old(self).used_local()
                    &&& final(self).accessed() == old(self).accessed()
                },
            },
    {
        let r: Option<Rc<L>> = self.get_local_raw(trait_id);
        if r.is_some() {
            self.accessed_local = true;
        }
        r
    }
}

impl<L, S: Clone> Capabilities<L, S> {
    /// A clone of the shared value for the trait; notes that its capability is used.
    fn get_shared_raw(&mut self, trait_id: u64) -> (r: Option<S>)
        requires
            old(self).wf(),
        ensures
            final(self).wf(),
            final(self).local_entries() == old(self).local_entries(),
            final(self).shared_entries() == old(self).shared_entries(),
            final(self).used_local() == old(self).used_local(),
            final(self).used_shared() == old(self).used_shared(),
            match r {
                Some(v) => {
                    &&& old(self).shared_entries().contains_key(trait_id)
                    &&& cloned(*old(self).shared_entries()[trait_id].value, v)
                    &&& final(self).accessed() == old(self).accessed().push(
                        old(self).shared_entries()[trait_id].capability_name@,
                    )
                },
                None => {
                    &&& !old(self).shared_entries().contains_key(trait_id)
                    &&& final(self).accessed() == old(self).accessed()
                },
            },
    {
        let ghost names0 = self.accessed_capability_names@;
        let (value, name): (S, &'static str) = match self.shared_resolved.get(trait_id) {
            Some(entry) => {
                let value: &S = &*entry.value;
                (value.clone(), entry.capability_name)
            },
            None => {
                return None;
            },
        };
        self.accessed_capability_names.push(name);
        assert(self.accessed() =~= order::views(names0).push(name@));
        Some(value)
    }

    /// Require a shared capability: a clone of the value for the trait. Only shared entries
    /// are considered.
    pub fn require_shared(&mut self, trait_id: u64) -> (r: Result<S, BindingError>)
        requires
            old(self).wf(),
        ensures
            final(self).wf(),
            final(self).local_entries() == old(self).local_entries(),
            final(self).shared_entries() == old(self).shared_entries(),
            final(self).used_local() == old(self).used_local(),
            match r {
                Ok(v) => {
                    &&& old(self).shared_entries().contains_key(trait_id)
                    &&& cloned(*old(self).shared_entries()[trait_id].value, v)
                    &&& final(self).used_shared()
                    &&& final(self).accessed() == old(self).accessed().push(
                        old(self).shared_entries()[trait_id].capability_name@,
                    )
                },
                Err(e) => {
                    &&& !old(self).shared_entries().contains_key(trait_id)
                    &&& e.text() == missing_shared_text()
                    &&& e is Missing
                    &&& final(self).used_shared() == old(self).used_shared()
                    &&& final(self).accessed() == old(self).accessed()
                },
            },
    {
        match self.optional_shared(trait_id) {
            Some(v) => Ok(v),
            None => Err(
                BindingError::Missing {
                    message: "Missing required shared capability. The extension must provide a shared (Send) implementation.\n  capabilities:\n    <capability_name>: <extension_instance_name>".to_owned(),
                },
            ),
        }
    }

    /// Get an optional shared capability.
    pub fn optional_shared(&mut self, trait_id: u64) -> (r: Option<S>)
        requires
            old(self).wf(),
        ensures
            final(self).wf(),
            final(self).local_entries() == old(self).local_entries(),
            final(self).shared_entries() == old(self).shared_entries(),
            final(self).used_local() == old(self).used_local(),
            match r {
                Some(v) => {
                    &&& old(self).shared_entries().contains_key(trait_id)
                    &&& cloned(*old(self).shared_entries()[trait_id].value, v)
                    &&& final(self).used_shared()
                    &&& final(self).accessed() == old(self).accessed().push(
                        old(self).shared_entries()[trait_id].capability_name@,
                    )
                },
                None => {
                    &&& !old(self).shared_entries().contains_key(trait_id)
                    &&& final(self).used_shared() == old(self).used_shared()
                    &&& final(self).accessed() == old(self).accessed()
                },
            },
    {
        let r: Option<S> = self.get_shared_raw(trait_id);
        if r.is_some() {
            self.accessed_shared = true;
        }
        r
    }
}

/// Adds the capabilities of the entries that are not among `accessed`.
pub(crate) fn add_unused<T>(
    table: &IdTable<RegistryEntry<T>>,
    accessed: &Vec<&'static str>,
    set: &mut OrderedSet<&'static str>,
)
    requires
        table.wf(),
        old(set).wf(),
    ensures
        final(set).wf(),
        forall|n: Seq<char>| #[trigger]
            final(set)@.contains(n) == (old(set)@.contains(n) || (has_capability(table@, n)
                && !order::views(accessed@).contains(n))),
{
    proof {
        table.lemma_rows();
    }
    let mut i: usize = 0;
    while i < table.row_count()
        invariant
            table.wf(),
            set.wf(),
            i <= table.rows().len(),
            forall|k: int|
                0 <= k < table.rows().len() ==> table@.contains_key((#[trigger] table.rows()[k]).0)
                    && table@[table.rows()[k].0] == table.rows()[k].1,
            forall|n: Seq<char>| old(set)@.contains(n) ==> #[trigger] set@.contains(n),
            forall|n: Seq<char>| #[trigger]
                set@.contains(n) ==> old(set)@.contains(n) || (has_capability(table@, n)
                    && !order::views(accessed@).contains(n)),
            forall|k: int|
                0 <= k < i && !order::views(accessed@).contains(
                    (#[trigger] table.rows()[k]).1.capability_name@,
                ) ==> set@.contains(table.rows()[k].1.capability_name@),
        decreases table.rows().len() - i,
    {
        let entry: &RegistryEntry<T> = table.row(i);
        let ghost s0 = set@;
        if !providers::holds_str(accessed, entry.capability_name) {
            proof {
                assert(table@.contains_key(table.rows()[i as int].0));
                assert(has_capability(table@, entry.capability_name@));
            }
            let _ = set.insert(entry.capability_name);
        }
        proof {
            assert forall|k: int|
                0 <= k < i + 1 && !order::views(accessed@).contains(
                    (#[trigger] table.rows()[k]).1.capability_name@,
                ) implies set@.contains(table.rows()[k].1.capability_name@) by {
                if k < i {
                    assert(s0.contains(table.rows()[k].1.capability_name@));
                }
            }
        }
        i = i + 1;
    }
    proof {
        assert forall|n: Seq<char>| #[trigger] set@.contains(n) == (old(set)@.contains(n) || (
        has_capability(table@, n) && !order::views(accessed@).contains(n))) by {
            if has_capability(table@, n) && !order::views(accessed@).contains(n) {
                let id = choose|id: u64| #[trigger]
                    table@.contains_key(id) && table@[id].capability_name@ == n;
                let k = choose|k: int|
                    0 <= k < table.rows().len() && (#[trigger] table.rows()[k]).0 == id;
                assert(table.rows()[k].1.capability_name@ == n);
            }
        }
    }
}

impl<L, S: AdaptToLocal<L> + Clone> Capabilities<L, S> {
    /// Takes over the entries of the extension for the capability: local ones, shared ones,
    /// and adapted forms of shared ones for local traits that have no entry.
    fn take_entries(
        &mut self,
        local: &HandleTable<RegistryEntry<Rc<L>>>,
        shared: &HandleTable<RegistryEntry<Arc<S>>>,
        extension: &str,
        capability: &str,
        local_keys: Ghost<spec_fn((Seq<char>, u64)) -> bool>,
        shared_keys: Ghost<spec_fn((Seq<char>, u64)) -> bool>,
    )
        requires
            old(self).wf(),
            local.wf(),
            shared.wf(),
            forall|s: S| call_requires(S::adapt_to_local, (&s,)),
            takes_from(shared@, shared_keys@, old(self).shared_entries()),
            takes_local(local@, shared@, local_keys@, shared_keys@, old(self).local_entries()),
        ensures
            final(self).wf(),
            final(self).accessed() == old(self).accessed(),
            final(self).used_local() == old(self).used_local(),
            final(self).used_shared() == old(self).used_shared(),
            takes_from(
                shared@,
                widened(shared_keys@, shared@, extension@, capability@),
                final(self).shared_entries(),
            ),
            takes_local(
                local@,
                shared@,
                widened(local_keys@, local@, extension@, capability@),
                widened(shared_keys@, shared@, extension@, capability@),
                final(self).local_entries(),
            ),
    {
        let ghost lk0 = local_keys@;
        let ghost sk0 = shared_keys@;
        let found: Vec<usize> = providers::matching_rows(local, extension, capability);
        let ghost mut lk = lk0;
        let mut i: usize = 0;
        proof {
            local.lemma_rows();
            shared.lemma_rows();
        }
        while i < found.len()
            invariant
                self.wf(),
                local.wf(),
                i <= found@.len(),
                forall|j: int|
                    0 <= j < found@.len() ==> (#[trigger] found@[j]) < local.rows().len()
                        && providers::row_offers(
                        local.rows()[found@[j] as int],
                        extension@,
                        capability@,
                    ),
                forall|r: int|
                    0 <= r < local.rows().len() ==> local@.contains_key(
                        handles::key_of(#[trigger] local.rows()[r]),
                    ) && local@[handles::key_of(local.rows()[r])] == local.rows()[r].entry,
                forall|k: (Seq<char>, u64)| #[trigger]
                    lk(k) == (lk0(k) || (k.0 == extension@ && exists|j: int|
                        0 <= j < i && local.rows()[#[trigger] found@[j] as int].trait_id == k.1)),
                takes_from(shared@, sk0, self.shared_entries()),
                takes_local(local@, shared@, lk, sk0, self.local_entries()),
                self.accessed() == old(self).accessed(),
                self.used_local() == old(self).used_local(),
                self.used_shared() == old(self).used_shared(),
            decreases found@.len() - i,
        {
            let h: &Handle<RegistryEntry<Rc<L>>> = local.row(found[i]);
            let entry: RegistryEntry<Rc<L>> = RegistryEntry {
                value: handles::share_rc(&h.entry.value),
                capability_name: h.entry.capability_name,
                local_trait_id: h.entry.local_trait_id,
            };
            let ghost before = self.local_entries();
            let ghost key = handles::key_of(*h);
            self.local_resolved.insert(h.trait_id, entry);
            proof {
                let lk1 = lk;
                assert(found@[i as int] < local.rows().len());
                assert(local@[key] == h.entry);
                assert(entry == h.entry);
                lemma_take_local(local@, shared@, lk1, sk0, before, key);
                lk = |k: (Seq<char>, u64)| lk1(k) || k == key;
                assert forall|k: (Seq<char>, u64)| #[trigger] lk(k) == (lk0(k) || (k.0
                    == extension@ && exists|j: int|
                    0 <= j < i + 1 && local.rows()[#[trigger] found@[j] as int].trait_id
                        == k.1)) by {
                    if k == key {
                        assert(local.rows()[found@[i as int] as int].trait_id == k.1);
                    }
                    if k.0 == extension@ && exists|j: int|
                        0 <= j < i + 1 && local.rows()[#[trigger] found@[j] as int].trait_id
                            == k.1 {
                        let j = choose|j: int|
                            0 <= j < i + 1 && local.rows()[#[trigger] found@[j] as int].trait_id
                                == k.1;
                        if j == i {
                            assert(k == key);
                        }
                    }
                }
            }
            i = i + 1;
        }
        proof {
            let want = widened(lk0, local@, extension@, capability@);
            assert forall|k: (Seq<char>, u64)| #[trigger] lk(k) == want(k) by {
                providers::lemma_matching_rows(local, found@, extension@, capability@, k.1);
            }
            assert(lk =~= want);
        }
        let found: Vec<usize> = providers::matching_rows(shared, extension, capability);
        let ghost mut sk = sk0;
        let mut i: usize = 0;
        while i < found.len()
            invariant
                self.wf(),
                shared.wf(),
                forall|s: S| call_requires(S::adapt_to_local, (&s,)),
                i <= found@.len(),
                forall|j: int|
                    0 <= j < found@.len() ==> (#[trigger] found@[j]) < shared.rows().len()
                        && providers::row_offers(
                        shared.rows()[found@[j] as int],
                        extension@,
                        capability@,
                    ),
                forall|r: int|
                    0 <= r < shared.rows().len() ==> shared@.contains_key(
                        handles::key_of(#[trigger] shared.rows()[r]),
                    ) && shared@[handles::key_of(shared.rows()[r])] == shared.rows()[r].entry,
                forall|k: (Seq<char>, u64)| #[trigger]
                    sk(k) == (sk0(k) || (k.0 == extension@ && exists|j: int|
                        0 <= j < i && shared.rows()[#[trigger] found@[j] as int].trait_id == k.1)),
                takes_from(shared@, sk, self.shared_entries()),
                takes_local(local@, shared@, lk, sk, self.local_entries()),
                self.accessed() == old(self).accessed(),
                self.used_local() == old(self).used_local(),
                self.used_shared() == old(self).used_shared(),
            decreases found@.len() - i,
        {
            let h: &Handle<RegistryEntry<Arc<S>>> = shared.row(found[i]);
            let entry: RegistryEntry<Arc<S>> = h.entry.deep_clone();
            let ghost before_l = self.local_entries();
            let ghost before_s = self.shared_entries();
            let ghost key = handles::key_of(*h);
            self.shared_resolved.insert(h.trait_id, entry);
            match h.entry.local_trait_id {
                Some(local_id) => {
                    if self.local_resolved.get(local_id).is_none() {
                        let value: &S = &*h.entry.value;
                        let form: L = value.adapt_to_local();
                        let made: RegistryEntry<Rc<L>> = RegistryEntry {
                            value: Rc::new(form),
                            capability_name: h.entry.capability_name,
                            local_trait_id: None,
                        };
                        self.local_resolved.insert(local_id, made);
                        proof {
                            assert(adapts(h.entry, local_id, made));
                        }
                    }
                },
                None => {},
            }
            proof {
                let sk1 = sk;
                assert(found@[i as int] < shared.rows().len());
                assert(shared@[key] == h.entry);
                lemma_take_copy(shared@, sk1, before_s, key, entry);
                lemma_adapt(local@, shared@, lk, sk1, before_l, self.local_entries(), key);
                sk = |k: (Seq<char>, u64)| sk1(k) || k == key;
                assert forall|k: (Seq<char>, u64)| #[trigger] sk(k) == (sk0(k) || (k.0
                    == extension@ && exists|j: int|
                    0 <= j < i + 1 && shared.rows()[#[trigger] found@[j] as int].trait_id
                        == k.1)) by {
                    if k == key {
                        assert(shared.rows()[found@[i as int] as int].trait_id == k.1);
                    }
                    if k.0 == extension@ && exists|j: int|
                        0 <= j < i + 1 && shared.rows()[#[trigger] found@[j] as int].trait_id
                            == k.1 {
                        let j = choose|j: int|
                            0 <= j < i + 1 && shared.rows()[#[trigger] found@[j] as int].trait_id
                                == k.1;
                        if j == i {
                            assert(k == key);
                        }
                    }
                }
            }
            i = i + 1;
        }
        proof {
            let want = widened(sk0, shared@, extension@, capability@);
            assert forall|k: (Seq<char>, u64)| #[trigger] sk(k) == want(k) by {
                providers::lemma_matching_rows(shared, found@, extension@, capability@, k.1);
            }
            assert(sk =~= want);
        }
    }
}

/// Takes over the entries of the extension for the capability.
pub(crate) fn take_plain<T: DeepClone>(
    table: &HandleTable<RegistryEntry<T>>,
    resolved: &mut IdTable<RegistryEntry<T>>,
    extension: &str,
    capability: &str,
    keys: Ghost<spec_fn((Seq<char>, u64)) -> bool>,
)
    requires
        table.wf(),
        old(resolved).wf(),
        takes_from(table@, keys@, old(resolved)@),
    ensures
        final(resolved).wf(),
        takes_from(table@, widened(keys@, table@, extension@, capability@), final(resolved)@),
{
    let ghost k0 = keys@;
    let found: Vec<usize> = providers::matching_rows(table, extension, capability);
    let ghost mut ks = k0;
    let mut i: usize = 0;
    proof {
        table.lemma_rows();
    }
    while i < found.len()
        invariant
            table.wf(),
            resolved.wf(),
            i <= found@.len(),
            forall|j: int|
                0 <= j < found@.len() ==> (#[trigger] found@[j]) < table.rows().len()
                    && providers::row_offers(
                    table.rows()[found@[j] as int],
                    extension@,
                    capability@,
                ),
            forall|r: int|
                0 <= r < table.rows().len() ==> table@.contains_key(
                    handles::key_of(#[trigger] table.rows()[r]),
                ) && table@[handles::key_of(table.rows()[r])] == table.rows()[r].entry,
            forall|k: (Seq<char>, u64)| #[trigger]
                ks(k) == (k0(k) || (k.0 == extension@ && exists|j: int|
                    0 <= j < i && table.rows()[#[trigger] found@[j] as int].trait_id == k.1)),
            takes_from(table@, ks, resolved@),
        decreases found@.len() - i,
    {
        let h: &Handle<RegistryEntry<T>> = table.row(found[i]);
        let entry: RegistryEntry<T> = h.entry.deep_clone();
        let ghost before = resolved@;
        let ghost key = handles::key_of(*h);
        resolved.insert(h.trait_id, entry);
        proof {
            let k1 = ks;
            assert(found@[i as int] < table.rows().len());
            assert(table@[key] == h.entry);
            lemma_take_copy(table@, k1, before, key, entry);
            ks = |k: (Seq<char>, u64)| k1(k) || k == key;
            assert forall|k: (Seq<char>, u64)| #[trigger] ks(k) == (k0(k) || (k.0 == extension@
                && exists|j: int|
                0 <= j < i + 1 && table.rows()[#[trigger] found@[j] as int].trait_id == k.1)) by {
                if k == key {
                    assert(table.rows()[found@[i as int] as int].trait_id == k.1);
                }
                if k.0 == extension@ && exists|j: int|
                    0 <= j < i + 1 && table.rows()[#[trigger] found@[j] as int].trait_id == k.1 {
                    let j = choose|j: int|
                        0 <= j < i + 1 && table.rows()[#[trigger] found@[j] as int].trait_id
                            == k.1;
                    if j == i {
                        assert(k == key);
                    }
                }
            }
        }
        i = i + 1;
    }
    proof {
        let want = widened(k0, table@, extension@, capability@);
        assert forall|k: (Seq<char>, u64)| #[trigger] ks(k) == want(k) by {
            providers::lemma_matching_rows(table, found@, extension@, capability@, k.1);
        }
        assert(ks =~= want);
    }
}

/// One more binding selects what the earlier ones do and the entries of its extension for its
/// capability.
pub(crate) proof fn lemma_selection_grows<T>(
    m: Map<(Seq<char>, u64), RegistryEntry<T>>,
    bindings: Seq<(String, String)>,
    j: int,
)
    requires
        0 <= j < bindings.len(),
    ensures
        widened(selection(m, bindings.take(j)), m, bindings[j].1@, bindings[j].0@) == selection(
            m,
            bindings.take(j + 1),
        ),
{
    lemma_selected_push(m, bindings, j);
    assert(widened(selection(m, bindings.take(j)), m, bindings[j].1@, bindings[j].0@)
        =~= selection(m, bindings.take(j + 1)));
}

/// No binding selects nothing.
pub(crate) proof fn lemma_selects_nothing<T: DeepClone>(m: Map<(Seq<char>, u64), RegistryEntry<T>>)
    ensures
        takes_from(
            m,
            selection(m, Seq::<(String, String)>::empty()),
            Map::<u64, RegistryEntry<T>>::empty(),
        ),
{
}

proof fn lemma_take_local<L, S: AdaptToLocal<L>>(
    local: Map<(Seq<char>, u64), RegistryEntry<Rc<L>>>,
    shared: Map<(Seq<char>, u64), RegistryEntry<Arc<S>>>,
    lk: spec_fn((Seq<char>, u64)) -> bool,
    sk: spec_fn((Seq<char>, u64)) -> bool,
    before: Map<u64, RegistryEntry<Rc<L>>>,
    key: (Seq<char>, u64),
)
    requires
        takes_local(local, shared, lk, sk, before),
    ensures
        takes_local(
            local,
            shared,
            |k: (Seq<char>, u64)| lk(k) || k == key,
            sk,
            before.insert(key.1, local[key]),
        ),
{
    let lk2 = |k: (Seq<char>, u64)| lk(k) || k == key;
    let after = before.insert(key.1, local[key]);
    assert forall|id: u64| #[trigger] after.contains_key(id) implies local_choice(
        local,
        shared,
        lk2,
        sk,
        id,
        after[id],
    ) by {
        if id == key.1 {
            assert(lk2((key.0, id)));
        } else {
            assert(before.contains_key(id));
            if exists|n: Seq<char>| #[trigger] lk((n, id)) && before[id] == local[(n, id)] {
                let n = choose|n: Seq<char>| #[trigger] lk((n, id)) && before[id] == local[(n, id)];
                assert(lk2((n, id)));
            } else {
                assert forall|n: Seq<char>| !#[trigger] lk2((n, id)) by {
                    assert(!lk((n, id)));
                }
            }
        }
    }
}

proof fn lemma_take_copy<T: DeepClone>(
    m: Map<(Seq<char>, u64), RegistryEntry<T>>,
    sk: spec_fn((Seq<char>, u64)) -> bool,
    before: Map<u64, RegistryEntry<T>>,
    key: (Seq<char>, u64),
    entry: RegistryEntry<T>,
)
    requires
        takes_from(m, sk, before),
        m[key].copies(entry),
    ensures
        takes_from(
            m,
            |k: (Seq<char>, u64)| sk(k) || k == key,
            before.insert(key.1, entry),
        ),
{
    let sk2 = |k: (Seq<char>, u64)| sk(k) || k == key;
    let after = before.insert(key.1, entry);
    assert forall|id: u64| #[trigger] after.contains_key(id) implies exists|n: Seq<char>|
        #[trigger] sk2((n, id)) && m[(n, id)].copies(after[id]) by {
        if id == key.1 {
            assert(sk2((key.0, id)) && m[(key.0, id)].copies(after[id]));
        } else {
            assert(before.contains_key(id));
            let n = choose|n: Seq<char>| #[trigger] sk((n, id)) && m[(n, id)].copies(before[id]);
            assert(sk2((n, id)) && m[(n, id)].copies(after[id]));
        }
    }
}

proof fn lemma_adapt<L, S: AdaptToLocal<L>>(
    local: Map<(Seq<char>, u64), RegistryEntry<Rc<L>>>,
    shared: Map<(Seq<char>, u64), RegistryEntry<Arc<S>>>,
    lk: spec_fn((Seq<char>, u64)) -> bool,
    sk: spec_fn((Seq<char>, u64)) -> bool,
    before: Map<u64, RegistryEntry<Rc<L>>>,
    after: Map<u64, RegistryEntry<Rc<L>>>,
    key: (Seq<char>, u64),
)
    requires
        takes_local(local, shared, lk, sk, before),
        match shared[key].local_trait_id {
            None => after == before,
            Some(id) => if before.contains_key(id) {
                after == before
            } else {
                after.contains_key(id) && after == before.insert(id, after[id]) && adapts(
                    shared[key],
                    id,
                    after[id],
                )
            },
        },
    ensures
        takes_local(local, shared, lk, |k: (Seq<char>, u64)| sk(k) || k == key, after),
{
    let sk2 = |k: (Seq<char>, u64)| sk(k) || k == key;
    assert forall|id: u64| #[trigger] after.contains_key(id) implies local_choice(
        local,
        shared,
        lk,
        sk2,
        id,
        after[id],
    ) by {
        if before.contains_key(id) {
            assert(after[id] == before[id]);
            if exists|n: Seq<char>| #[trigger] lk((n, id)) && before[id] == local[(n, id)] {
            } else {
                let k = choose|k: (Seq<char>, u64)| #[trigger]
                    sk(k) && adapts(shared[k], id, before[id]);
                assert(sk2(k) && adapts(shared[k], id, after[id]));
            }
        } else {
            assert(shared[key].local_trait_id == Some(id));
            assert forall|n: Seq<char>| !#[trigger] lk((n, id)) by {
                if lk((n, id)) {
                    assert(before.contains_key((n, id).1));
                }
            }
            assert(sk2(key) && adapts(shared[key], id, after[id]));
        }
    }
}

/// What a node gets for a trait comes from an extension that one of its bindings names, and
/// belongs to the capability of that binding.
pub proof fn only_bound_extensions_are_used<T: DeepClone>(
    m: Map<(Seq<char>, u64), RegistryEntry<T>>,
    bindings: Seq<(String, String)>,
    resolved: Map<u64, RegistryEntry<T>>,
    id: u64,
)
    requires
        takes_from(m, selection(m, bindings), resolved),
        resolved.contains_key(id),
    ensures
        exists|j: int|
            0 <= j < bindings.len() && providers::offers_at(
                m,
                (#[trigger] bindings[j]).1@,
                id,
                bindings[j].0@,
            ) && resolved[id].capability_name@ == bindings[j].0@ && m.contains_key(
                (bindings[j].1@, id),
            ) && m[(bindings[j].1@, id)].copies(resolved[id]),
{
    let keys = selection(m, bindings);
    let n = choose|n: Seq<char>| #[trigger] keys((n, id)) && m[(n, id)].copies(resolved[id]);
    let j = choose|j: int| #[trigger] selected_by(m, bindings, j, (n, id));
    assert(bindings[j].1@ == n);
}

/// Every trait of a bound capability that the bound extension provides is there.
pub proof fn bound_capabilities_are_there<T: DeepClone>(
    m: Map<(Seq<char>, u64), RegistryEntry<T>>,
    bindings: Seq<(String, String)>,
    resolved: Map<u64, RegistryEntry<T>>,
    j: int,
    id: u64,
)
    requires
        takes_from(m, selection(m, bindings), resolved),
        0 <= j < bindings.len(),
        providers::offers_at(m, bindings[j].1@, id, bindings[j].0@),
    ensures
        resolved.contains_key(id),
{
    let k = (bindings[j].1@, id);
    assert(selected_by(m, bindings, j, k));
    assert(selection(m, bindings)(k));
}

/// Every entry of a bound extension for the bound capability has its trait among those that a
/// node gets, and what the node gets for it is a copy of such an entry.
pub proof fn bound_entries_are_there<T: DeepClone>(
    m: Map<(Seq<char>, u64), RegistryEntry<T>>,
    bindings: Seq<(String, String)>,
    resolved: Map<u64, RegistryEntry<T>>,
    j: int,
    id: u64,
)
    requires
        takes_from(m, selection(m, bindings), resolved),
        0 <= j < bindings.len(),
        m.contains_key((bindings[j].1@, id)),
        m[(bindings[j].1@, id)].capability_name@ == bindings[j].0@,
    ensures
        resolved.contains_key(id),
        exists|i: int|
            0 <= i < bindings.len() && m.contains_key(((#[trigger] bindings[i]).1@, id)) && m[(
                bindings[i].1@,
                id,
            )].copies(resolved[id]),
{
    bound_capabilities_are_there(m, bindings, resolved, j, id);
    only_bound_extensions_are_used(m, bindings, resolved, id);
}

/// Local instances come first: for a local trait that a bound extension has a local instance
/// for, a node gets the local instance of a bound extension itself, and no adapted shared value.
pub proof fn local_instances_come_first<L, S: AdaptToLocal<L>>(
    local: Map<(Seq<char>, u64), RegistryEntry<Rc<L>>>,
    shared: Map<(Seq<char>, u64), RegistryEntry<Arc<S>>>,
    bindings: Seq<(String, String)>,
    resolved: Map<u64, RegistryEntry<Rc<L>>>,
    j: int,
    id: u64,
)
    requires
        takes_local(
            local,
            shared,
            selection(local, bindings),
            selection(shared, bindings),
            resolved,
        ),
        0 <= j < bindings.len(),
        local.contains_key((bindings[j].1@, id)),
        local[(bindings[j].1@, id)].capability_name@ == bindings[j].0@,
    ensures
        resolved.contains_key(id),
        exists|i: int|
            0 <= i < bindings.len() && local.contains_key(((#[trigger] bindings[i]).1@, id))
                && local[(bindings[i].1@, id)].capability_name@ == bindings[i].0@ && resolved[id]
                == local[(bindings[i].1@, id)],
{
    let lk = selection(local, bindings);
    let k = (bindings[j].1@, id);
    assert(selected_by(local, bindings, j, k));
    assert(lk(k));
    assert(lk((k.0, id)));
    assert(resolved.contains_key(k.1));
    let n = choose|n: Seq<char>| #[trigger] lk((n, id)) && resolved[id] == local[(n, id)];
    let i = choose|i: int| #[trigger] selected_by(local, bindings, i, (n, id));
    assert(bindings[i].1@ == n);
}

/// A shared value stands in where there is no local instance: for the local trait that a bound
/// shared entry can be adapted to, a node gets the adapted form of a bound shared entry, if no
/// bound extension has a local instance for that trait.
pub proof fn shared_values_stand_in<L, S: AdaptToLocal<L>>(
    local: Map<(Seq<char>, u64), RegistryEntry<Rc<L>>>,
    shared: Map<(Seq<char>, u64), RegistryEntry<Arc<S>>>,
    bindings: Seq<(String, String)>,
    resolved: Map<u64, RegistryEntry<Rc<L>>>,
    j: int,
    shared_id: u64,
    id: u64,
)
    requires
        takes_local(
            local,
            shared,
            selection(local, bindings),
            selection(shared, bindings),
            resolved,
        ),
        0 <= j < bindings.len(),
        shared.contains_key((bindings[j].1@, shared_id)),
        shared[(bindings[j].1@, shared_id)].capability_name@ == bindings[j].0@,
        shared[(bindings[j].1@, shared_id)].local_trait_id == Some(id),
        forall|i: int|
            0 <= i < bindings.len() ==> !(local.contains_key(((#[trigger] bindings[i]).1@, id))
                && local[(bindings[i].1@, id)].capability_name@ == bindings[i].0@),
    ensures
        resolved.contains_key(id),
        exists|k: (Seq<char>, u64)| #[trigger]
            shared.contains_key(k) && shared[k].local_trait_id == Some(id) && adapted(
                *shared[k].value,
                *resolved[id].value,
            ) && resolved[id].capability_name == shared[k].capability_name,
{
    let lk = selection(local, bindings);
    let sk = selection(shared, bindings);
    let k = (bindings[j].1@, shared_id);
    assert(selected_by(shared, bindings, j, k));
    assert(sk(k));
    assert(resolved.contains_key(shared[k].local_trait_id->0));
    assert forall|n: Seq<char>| !#[trigger] lk((n, id)) by {
        if lk((n, id)) {
            let i = choose|i: int| #[trigger] selected_by(local, bindings, i, (n, id));
            assert(bindings[i].1@ == n);
        }
    }
    let from = choose|k: (Seq<char>, u64)| #[trigger]
        sk(k) && adapts(shared[k], id, resolved[id]);
    let i = choose|i: int| #[trigger] selected_by(shared, bindings, i, from);
    assert(shared.contains_key(from));
}

} // verus!
