//! Registry for shared extension trait implementations.

use std::sync::Arc;
use vstd::prelude::*;

use crate::extensions::ExtensionError;
use crate::handles;
use crate::handles::{HandleTable, TraitKey};
use crate::order::OrderedSet;

pub use crate::extensions::bearer_token_provider::BearerToken;
pub use crate::secret::Secret;

verus! {

/// Registry for shared extension trait implementations.
///
/// Each `get` call returns a shared `Arc`: all consumers share the same instance.
#[derive(Debug)]
pub struct SharedExtensionRegistry<V> {
    handles: HandleTable<Arc<V>>,
}

/// What a lookup by name and trait gives: the entry, or which of the two is missing.
pub open spec fn looks_up<E>(
    m: Map<(Seq<char>, u64), E>,
    known: bool,
    name: Seq<char>,
    key: TraitKey,
    r: Result<E, ExtensionError>,
) -> bool {
    if m.contains_key((name, key.id)) {
        r == Ok::<E, ExtensionError>(m[(name, key.id)])
    } else if known {
        r matches Err(ExtensionError::TraitNotImplemented { name: n, expected }) && n@ == name
            && expected@ == key.name@
    } else {
        r matches Err(ExtensionError::NotFound { name: n }) && n@ == name
    }
}

impl<V> View for SharedExtensionRegistry<V> {
    type V = Map<(Seq<char>, u64), Arc<V>>;

    closed spec fn view(&self) -> Map<(Seq<char>, u64), Arc<V>> {
        self.handles@
    }
}

impl<V> SharedExtensionRegistry<V> {
    /// There is at most one entry for each name and trait.
    pub closed spec fn wf(&self) -> bool {
        self.handles.wf()
    }

    /// Create a new empty shared registry.
    pub fn new() -> (r: Self)
        ensures
            r.wf(),
            r@ == Map::<(Seq<char>, u64), Arc<V>>::empty(),
    {
        SharedExtensionRegistry { handles: HandleTable::new() }
    }

    /// Register an instance for a named extension and a trait.
    pub fn register(&mut self, name: &str, key: TraitKey, arc: Arc<V>)
        requires
            old(self).wf(),
        ensures
            final(self).wf(),
            final(self)@ == old(self)@.insert((name@, key.id), arc),
    {
        self.handles.insert(name, key.id, arc);
    }

    /// Get a shared instance by extension name and trait.
    pub fn get(&self, name: &str, key: TraitKey) -> (r: Result<Arc<V>, ExtensionError>)
        requires
            self.wf(),
        ensures
            looks_up(self@, handles::names_one(self@, name@), name@, key, r),
    {
        match self.handles.get(name, key.id) {
            Some(arc) => Ok(handles::share_arc(arc)),
            None => {
                if self.handles.contains(name) {
                    Err(
                        ExtensionError::TraitNotImplemented {
                            name: name.to_owned(),
                            expected: key.name,
                        },
                    )
                } else {
                    Err(ExtensionError::NotFound { name: name.to_owned() })
                }
            },
        }
    }

    /// Check if an extension exists by name.
    pub fn contains(&self, name: &str) -> (r: bool)
        requires
            self.wf(),
        ensures
            r == handles::names_one(self@, name@),
    {
        self.handles.contains(name)
    }

    /// The unique extension names in order.
    pub fn names(&self) -> (r: OrderedSet<String>)
        requires
            self.wf(),
        ensures
            handles::lists_names(self@, r@),
    {
        let mut r: OrderedSet<String> = OrderedSet::new();
        self.add_names(&mut r);
        r
    }

    /// Adds the names of all extensions to `set`.
    pub(crate) fn add_names(&self, set: &mut OrderedSet<String>)
        requires
            self.wf(),
            old(set).wf(),
        ensures
            final(set).wf(),
            forall|n: Seq<char>| #[trigger]
                final(set)@.contains(n) == (old(set)@.contains(n) || handles::names_one(self@, n)),
    {
        self.handles.add_names(set);
    }

    /// Returns the number of registered extensions (unique names).
    pub fn len(&self) -> (n: usize)
        requires
            self.wf(),
        ensures
            exists|s: Seq<Seq<char>>| n == s.len() && #[trigger] handles::lists_names(self@, s),
    {
        let names: OrderedSet<String> = self.names();
        names.len()
    }

    /// Returns true if no extensions are registered.
    pub fn is_empty(&self) -> (r: bool)
        requires
            self.wf(),
        ensures
            r == (self@ == Map::<(Seq<char>, u64), Arc<V>>::empty()),
    {
        self.handles.is_empty()
    }
}

impl<V> Clone for SharedExtensionRegistry<V> {
    /// Another registry with the same instances.
    fn clone(&self) -> (r: Self)
        ensures
            r.wf() == self.wf(),
            r@ == self@,
    {
        SharedExtensionRegistry { handles: self.handles.share() }
    }
}

/// A lookup gives the instance that was registered last for the name and the trait.
pub proof fn registered_is_found<E>(
    before: Map<(Seq<char>, u64), E>,
    name: Seq<char>,
    key: TraitKey,
    instance: E,
    known: bool,
    r: Result<E, ExtensionError>,
)
    requires
        looks_up(before.insert((name, key.id), instance), known, name, key, r),
    ensures
        r == Ok::<E, ExtensionError>(instance),
{
}

/// A registration does not change what is found for other names and traits of names that were
/// known before.
pub proof fn others_stay_registered<E>(
    before: Map<(Seq<char>, u64), E>,
    name: Seq<char>,
    key: TraitKey,
    instance: E,
    other: Seq<char>,
    other_key: TraitKey,
    r: Result<E, ExtensionError>,
)
    requires
        (other, other_key.id) != (name, key.id),
        other != name || handles::names_one(before, name),
    ensures
        looks_up(
            before.insert((name, key.id), instance),
            handles::names_one(before.insert((name, key.id), instance), other),
            other,
            other_key,
            r,
        ) == looks_up(before, handles::names_one(before, other), other, other_key, r),
{
    let after = before.insert((name, key.id), instance);
    if handles::names_one(before, other) {
        let id = choose|id: u64| #[trigger] before.contains_key((other, id));
        assert(after.contains_key((other, id)));
    }
    if handles::names_one(after, other) && other != name {
        let id = choose|id: u64| #[trigger] after.contains_key((other, id));
        assert(before.contains_key((other, id)));
    }
}

/// Without an entry for the trait a lookup fails: the error says whether the extension is known
/// at all, and names it.
pub proof fn missing_entries_are_told_apart<E>(
    m: Map<(Seq<char>, u64), E>,
    known: bool,
    name: Seq<char>,
    key: TraitKey,
    r: Result<E, ExtensionError>,
)
    requires
        looks_up(m, known, name, key, r),
        !m.contains_key((name, key.id)),
    ensures
        r is Err,
        known ==> (r->Err_0 matches ExtensionError::TraitNotImplemented { name: n, expected } && n@
            == name && expected@ == key.name@),
        !known ==> (r->Err_0 matches ExtensionError::NotFound { name: n } && n@ == name),
{
}

} // verus!
