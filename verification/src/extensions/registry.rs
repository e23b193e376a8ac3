//! Extension registry: one set of instances that all components share.
//!
//! A builder collects the entries; the registry that it builds hands out handles to them.
//! While an entry is in use through a handle no other may be used on the same thread.

use std::sync::Arc;
use vstd::prelude::*;

use crate::handles;
use crate::handles::{HandleTable, TraitKey};
use crate::order::OrderedSet;
use crate::text;

verus! {

/// Errors that can occur when retrieving extensions from the registry.
#[derive(Debug)]
pub enum ExtensionError {
    /// The named extension was not found in the registry.
    NotFound {
        /// Name of the extension.
        name: String,
    },
    /// The extension exists but does not expose the requested trait.
    TraitNotImplemented {
        /// Name of the extension.
        name: String,
        /// Expected trait name.
        expected: &'static str,
    },
}

impl ExtensionError {
    /// The message of the error.
    pub open spec fn text(&self) -> Seq<char> {
        match *self {
            ExtensionError::NotFound { name } => "extension '"@ + name@ + "' not found"@,
            ExtensionError::TraitNotImplemented { name, expected } => "extension '"@ + name@
                + "' does not implement trait '"@ + expected@ + "'"@,
        }
    }

    /// The message of the error.
    pub fn message(&self) -> (r: String)
        ensures
            r@ == self.text(),
    {
        match self {
            ExtensionError::NotFound { name } => text::joined3(
                "extension '",
                name.as_str(),
                "' not found",
            ),
            ExtensionError::TraitNotImplemented { name, expected } => text::joined5(
                "extension '",
                name.as_str(),
                "' does not implement trait '",
                *expected,
                "'",
            ),
        }
    }
}

/// Accumulates extension entries during pipeline build.
#[derive(Debug)]
pub struct ExtensionRegistryBuilder<V> {
    entries: HandleTable<V>,
}

impl<V> View for ExtensionRegistryBuilder<V> {
    type V = Map<(Seq<char>, u64), V>;

    closed spec fn view(&self) -> Map<(Seq<char>, u64), V> {
        self.entries@
    }
}

impl<V> ExtensionRegistryBuilder<V> {
    /// There is at most one entry for each name and trait.
    pub closed spec fn wf(&self) -> bool {
        self.entries.wf()
    }

    /// Creates a new empty builder.
    pub fn new() -> (r: Self)
        ensures
            r.wf(),
            r@ == Map::<(Seq<char>, u64), V>::empty(),
    {
        ExtensionRegistryBuilder { entries: HandleTable::new() }
    }

    /// Registers an instance for the given extension name and trait.
    pub fn register(&mut self, name: &str, trait_id: u64, instance: V)
        requires
            old(self).wf(),
        ensures
            final(self).wf(),
            final(self)@ == old(self)@.insert((name@, trait_id), instance),
    {
        self.entries.insert(name, trait_id, instance);
    }

    /// Creates the registry, which all components share.
    pub fn build(self) -> (r: ExtensionRegistry<V>)
        requires
            self.wf(),
        ensures
            r.wf(),
            r@ == self@,
    {
        ExtensionRegistry { entries: Arc::new(self.entries) }
    }

    /// Returns `true` if no extensions have been registered.
    pub fn is_empty(&self) -> (r: bool)
        requires
            self.wf(),
        ensures
            r == (self@ == Map::<(Seq<char>, u64), V>::empty()),
    {
        self.entries.is_empty()
    }

    /// Returns the number of unique extension names registered.
    pub fn extension_count(&self) -> (n: usize)
        requires
            self.wf(),
        ensures
            exists|s: Seq<Seq<char>>| n == s.len() && #[trigger] handles::lists_names(self@, s),
    {
        let names: OrderedSet<String> = self.names();
        names.len()
    }

    /// The unique extension names in order.
    pub fn names(&self) -> (r: OrderedSet<String>)
        requires
            self.wf(),
        ensures
            handles::lists_names(self@, r@),
    {
        let mut r: OrderedSet<String> = OrderedSet::new();
        self.entries.add_names(&mut r);
        r
    }
}

impl<V> Default for ExtensionRegistryBuilder<V> {
    fn default() -> (r: Self)
        ensures
            r.wf(),
            r@ == Map::<(Seq<char>, u64), V>::empty(),
    {
        Self::new()
    }
}

/// Shared extension registry: the same instances for all components.
#[derive(Debug)]
pub struct ExtensionRegistry<V> {
    entries: Arc<HandleTable<V>>,
}

impl<V> View for ExtensionRegistry<V> {
    type V = Map<(Seq<char>, u64), V>;

    closed spec fn view(&self) -> Map<(Seq<char>, u64), V> {
        self.entries@
    }
}

/// What a lookup by name and trait gives: a handle to the entry, or which of the two is
/// missing.
pub open spec fn finds<'a, V>(
    m: Map<(Seq<char>, u64), V>,
    name: Seq<char>,
    key: TraitKey,
    r: Result<ExtensionHandle<'a, V>, ExtensionError>,
) -> bool {
    if m.contains_key((name, key.id)) {
        r matches Ok(h) && h.value() == m[(name, key.id)] && h.extension() == name
    } else if handles::names_one(m, name) {
        r matches Err(ExtensionError::TraitNotImplemented { name: n, expected }) && n@ == name
            && expected@ == key.name@
    } else {
        r matches Err(ExtensionError::NotFound { name: n }) && n@ == name
    }
}

impl<V> ExtensionRegistry<V> {
    /// There is at most one entry for each name and trait.
    pub closed spec fn wf(&self) -> bool {
        self.entries.wf()
    }

    /// Creates a new empty registry.
    pub fn new() -> (r: Self)
        ensures
            r.wf(),
            r@ == Map::<(Seq<char>, u64), V>::empty(),
    {
        ExtensionRegistry { entries: Arc::new(HandleTable::new()) }
    }

    /// Obtain a lightweight handle for repeated access to an extension trait.
    pub fn handle(&self, name: &str, key: TraitKey) -> (r: Result<
        ExtensionHandle<'_, V>,
        ExtensionError,
    >)
        requires
            self.wf(),
        ensures
            finds(self@, name@, key, r),
    {
        match self.entries.get(name, key.id) {
            Some(entry) => Ok(ExtensionHandle { entry, name: name.to_owned() }),
            None => {
                if self.entries.contains(name) {
                    Err(
                        ExtensionError::TraitNotImplemented {
                            name: name.to_owned(),
                            expected: key.name,
                        },
                    )
                } else {
                    Err(ExtensionError::NotFound { name: name.to_owned() })
                }
            },
        }
    }

    /// Check if an extension exists by name (regardless of trait).
    pub fn contains(&self, name: &str) -> (r: bool)
        requires
            self.wf(),
        ensures
            r == handles::names_one(self@, name@),
    {
        self.entries.contains(name)
    }

    /// Returns the number of unique extension names in the registry.
    pub fn extension_count(&self) -> (n: usize)
        requires
            self.wf(),
        ensures
            exists|s: Seq<Seq<char>>| n == s.len() && #[trigger] handles::lists_names(self@, s),
    {
        let names: OrderedSet<String> = self.names();
        names.len()
    }

    /// Returns `true` if no extensions are registered.
    pub fn is_empty(&self) -> (r: bool)
        requires
            self.wf(),
        ensures
            r == (self@ == Map::<(Seq<char>, u64), V>::empty()),
    {
        self.entries.is_empty()
    }

    /// The unique extension names in order.
    pub fn names(&self) -> (r: OrderedSet<String>)
        requires
            self.wf(),
        ensures
            handles::lists_names(self@, r@),
    {
        let mut r: OrderedSet<String> = OrderedSet::new();
        self.entries.add_names(&mut r);
        r
    }
}

impl<V> Default for ExtensionRegistry<V> {
    fn default() -> (r: Self)
        ensures
            r.wf(),
            r@ == Map::<(Seq<char>, u64), V>::empty(),
    {
        Self::new()
    }
}

impl<V> Clone for ExtensionRegistry<V> {
    /// The same registry once more: both share all instances.
    fn clone(&self) -> (r: Self)
        ensures
            r == *self,
    {
        ExtensionRegistry { entries: handles::share_arc(&self.entries) }
    }
}

/// A lightweight handle to a specific extension trait in the registry.
pub struct ExtensionHandle<'a, V> {
    entry: &'a V,
    name: String,
}

impl<'a, V> ExtensionHandle<'a, V> {
    /// The entry.
    pub closed spec fn value(&self) -> V {
        *self.entry
    }

    /// The name of the extension.
    pub closed spec fn extension(&self) -> Seq<char> {
        self.name@
    }

    /// Access the extension via a scoped closure.
    pub fn lock<R, F: FnOnce(&V) -> R>(&self, f: F) -> (r: R)
        requires
            f.requires((&self.value(),)),
        ensures
            f.ensures((&self.value(),), r),
    {
        f(self.entry)
    }

    /// The name of the extension.
    pub fn name(&self) -> (r: &str)
        ensures
            r@ == self.extension(),
    {
        self.name.as_str()
    }
}

/// How many extension locks a thread holds. It may hold one at most: a second one could wait
/// for itself, or for a thread that waits for the first.
#[derive(Debug, Clone, Copy, PartialEq, Eq, Structural)]
pub struct HeldLocks {
    count: u32,
}

/// The message for a second lock on one thread.
pub open spec fn nesting_text(name: Seq<char>) -> Seq<char> {
    "Nested extension access detected while accessing '"@ + name
        + "': another extension lock is already held on this thread. This risks deadlock. Extract values from the `lock` closure instead of nesting calls."@
}

impl HeldLocks {
    /// The number of locks held.
    pub closed spec fn held(&self) -> nat {
        self.count as nat
    }

    /// A thread that holds no lock.
    pub fn new() -> (r: Self)
        ensures
            r.held() == 0,
    {
        HeldLocks { count: 0 }
    }

    /// Takes a lock on the entry of the named extension; with one held already it says why
    /// that is refused.
    pub fn mark_held(&mut self, name: &str) -> (r: Result<(), String>)
        ensures
            match r {
                Ok(_) => old(self).held() == 0 && final(self).held() == 1,
                Err(message) => {
                    &&& old(self).held() > 0
                    &&& *final(self) == *old(self)
                    &&& message@ == nesting_text(name@)
                },
            },
    {
        if self.count != 0 {
            return Err(
                text::joined3(
                    "Nested extension access detected while accessing '",
                    name,
                    "': another extension lock is already held on this thread. This risks deadlock. Extract values from the `lock` closure instead of nesting calls.",
                ),
            );
        }
        self.count = self.count + 1;
        Ok(())
    }

    /// Gives a lock back.
    pub fn unmark_held(&mut self)
        requires
            old(self).held() > 0,
        ensures
            final(self).held() == old(self).held() - 1,
    {
        self.count = self.count - 1;
    }
}

/// A handle leads to the instance that was registered last for the name and the trait.
pub proof fn registered_is_handled<'a, V>(
    before: Map<(Seq<char>, u64), V>,
    name: Seq<char>,
    key: TraitKey,
    instance: V,
    r: Result<ExtensionHandle<'a, V>, ExtensionError>,
)
    requires
        finds(before.insert((name, key.id), instance), name, key, r),
    ensures
        r is Ok,
        r->Ok_0.value() == instance,
        r->Ok_0.extension() == name,
{
}

/// Without an entry for the trait there is no handle: the error says whether the extension has
/// any entry at all, and names it.
pub proof fn missing_entries_are_told_apart<'a, V>(
    m: Map<(Seq<char>, u64), V>,
    name: Seq<char>,
    key: TraitKey,
    other: u64,
    r: Result<ExtensionHandle<'a, V>, ExtensionError>,
)
    requires
        finds(m, name, key, r),
        !m.contains_key((name, key.id)),
    ensures
        r is Err,
        m.contains_key((name, other)) ==> (r->Err_0 matches ExtensionError::TraitNotImplemented {
            name: n,
            expected,
        } && n@ == name && expected@ == key.name@),
        (forall|id: u64| !(#[trigger] m.contains_key((name, id)))) ==> (
        r->Err_0 matches ExtensionError::NotFound { name: n } && n@ == name),
{
}

} // verus!
