//! Which extension provides which capability, and whether a binding can be met.

use vstd::prelude::*;
use vstd::string::*;

use crate::handles;
use crate::handles::{DeepClone, Handle, HandleTable, Shareable};
use crate::order;
use crate::order::OrderedSet;
use crate::text;

verus! {

/// Where the value of a registration comes from.
#[derive(Debug, Clone, Copy, PartialEq, Eq, Structural)]
pub enum RegistrationSource {
    /// A clone of the extension.
    Cloned,
    /// An instance of its own.
    Instance,
}

/// What is registered for one extension and one trait.
#[derive(Debug)]
pub struct RegistryEntry<T> {
    pub value: T,
    /// The capability that the trait belongs to.
    pub capability_name: &'static str,
    /// The trait of the local form that a shared value can be adapted to.
    pub local_trait_id: Option<u64>,
}

impl<T: Shareable> Shareable for RegistryEntry<T> {
    fn again(&self) -> (r: Self) {
        RegistryEntry {
            value: self.value.again(),
            capability_name: self.capability_name,
            local_trait_id: self.local_trait_id,
        }
    }
}

impl<T: DeepClone> DeepClone for RegistryEntry<T> {
    open spec fn copies(self, copy: Self) -> bool {
        &&& self.value.copies(copy.value)
        &&& copy.capability_name == self.capability_name
        &&& copy.local_trait_id == self.local_trait_id
    }

    fn deep_clone(&self) -> (r: Self) {
        RegistryEntry {
            value: self.value.deep_clone(),
            capability_name: self.capability_name,
            local_trait_id: self.local_trait_id,
        }
    }
}

/// A registration for one trait implementation.
#[derive(Debug)]
pub struct CapabilityRegistration<T> {
    pub trait_id: u64,
    pub value: T,
    pub capability_name: &'static str,
    pub local_trait_id: Option<u64>,
    pub source: RegistrationSource,
}

impl<T> CapabilityRegistration<T> {
    /// A registration of a cloned value.
    pub fn new(trait_id: u64, value: T, capability_name: &'static str) -> (r: Self)
        ensures
            r.trait_id == trait_id,
            r.value == value,
            r.capability_name == capability_name,
            r.local_trait_id is None,
            r.source is Cloned,
    {
        Self::new_with_source(trait_id, value, capability_name, RegistrationSource::Cloned)
    }

    /// A registration with a given source.
    pub fn new_with_source(
        trait_id: u64,
        value: T,
        capability_name: &'static str,
        source: RegistrationSource,
    ) -> (r: Self)
        ensures
            r.trait_id == trait_id,
            r.value == value,
            r.capability_name == capability_name,
            r.local_trait_id is None,
            r.source == source,
    {
        CapabilityRegistration { trait_id, value, capability_name, local_trait_id: None, source }
    }

    /// The entry that the registration makes.
    pub open spec fn entry(self) -> RegistryEntry<T> {
        RegistryEntry {
            value: self.value,
            capability_name: self.capability_name,
            local_trait_id: self.local_trait_id,
        }
    }
}

/// `m` after the registrations of the extension were entered one after another.
pub open spec fn with_all<T>(
    m: Map<(Seq<char>, u64), RegistryEntry<T>>,
    name: Seq<char>,
    regs: Seq<CapabilityRegistration<T>>,
) -> Map<(Seq<char>, u64), RegistryEntry<T>>
    decreases regs.len(),
{
    if regs.len() == 0 {
        m
    } else {
        with_all(m, name, regs.drop_last()).insert(
            (name, regs.last().trait_id),
            regs.last().entry(),
        )
    }
}

/// The extension's entry for the trait belongs to the capability.
pub open spec fn offers_at<T>(
    m: Map<(Seq<char>, u64), RegistryEntry<T>>,
    name: Seq<char>,
    id: u64,
    capability: Seq<char>,
) -> bool {
    m.contains_key((name, id)) && m[(name, id)].capability_name@ == capability
}

/// The extension has an entry that belongs to the capability.
pub open spec fn offers<T>(
    m: Map<(Seq<char>, u64), RegistryEntry<T>>,
    name: Seq<char>,
    capability: Seq<char>,
) -> bool {
    exists|id: u64| #[trigger] offers_at(m, name, id, capability)
}

/// Some extension has an entry that belongs to the capability.
pub open spec fn offered<T>(
    m: Map<(Seq<char>, u64), RegistryEntry<T>>,
    capability: Seq<char>,
) -> bool {
    exists|name: Seq<char>| #[trigger] offers(m, name, capability)
}

/// The capabilities of the extension's entries, in the order of the rows.
pub open spec fn offers_of<T>(rows: Seq<Handle<RegistryEntry<T>>>, name: Seq<char>) -> Seq<
    Seq<char>,
>
    decreases rows.len(),
{
    if rows.len() == 0 {
        Seq::empty()
    } else if rows.last().name@ == name {
        offers_of(rows.drop_last(), name).push(rows.last().entry.capability_name@)
    } else {
        offers_of(rows.drop_last(), name)
    }
}

/// Why a capability cannot be bound to an extension.
#[derive(Debug)]
pub enum BindingError {
    /// No extension has that name.
    ExtensionMissing { capability: String, extension: String },
    /// No such capability is known.
    UnknownCapability { capability: String, known: Vec<&'static str> },
    /// The capability is known, but no loaded extension provides it.
    NoProvider { capability: String, loaded: Vec<String> },
    /// The extension does not provide the capability.
    NotProvided { extension: String, capability: String, available: Vec<&'static str> },
    /// A node asks for a capability that was not bound.
    Missing { message: String },
    /// A variant of an extension asks again for a capability that it has claimed.
    AlreadyClaimed,
}

impl BindingError {
    /// The message of the error.
    pub open spec fn text(&self) -> Seq<char> {
        match *self {
            BindingError::ExtensionMissing { capability, extension } => "Capability binding '"@
                + capability@ + "' references extension '"@ + extension@
                + "', but no extension with that name exists. Check the 'extensions' section of your pipeline config."@,
            BindingError::UnknownCapability { capability, known } => "Unknown capability '"@
                + capability@ + "'. Known capability types: ["@ + text::listed(order::views(known@))
                + "]."@,
            BindingError::NoProvider { capability, loaded } => "Capability '"@ + capability@
                + "' is a known type but no loaded extension provides it. Loaded extensions: ["@
                + text::listed(order::views(loaded@)) + "]. Add an extension that provides '"@
                + capability@ + "' to your config."@,
            BindingError::NotProvided { extension, capability, available } => "Extension '"@
                + extension@ + "' does not provide capability '"@ + capability@
                + "'. It provides: ["@ + text::listed(order::views(available@)) + "]."@,
            BindingError::Missing { message } => message@,
            BindingError::AlreadyClaimed => "Capability dependency was already claimed by this variant of the extension."@,
        }
    }

    /// The message of the error.
    pub fn message(&self) -> (r: String)
        ensures
            r@ == self.text(),
    {
        match self {
            BindingError::ExtensionMissing { capability, extension } => text::joined5(
                "Capability binding '",
                capability.as_str(),
                "' references extension '",
                extension.as_str(),
                "', but no extension with that name exists. Check the 'extensions' section of your pipeline config.",
            ),
            BindingError::UnknownCapability { capability, known } => {
                let list: String = text::list_strs(known);
                text::joined5(
                    "Unknown capability '",
                    capability.as_str(),
                    "'. Known capability types: [",
                    list.as_str(),
                    "].",
                )
            },
            BindingError::NoProvider { capability, loaded } => {
                let list: String = text::list_strings(loaded);
                let mut r: String = text::joined5(
                    "Capability '",
                    capability.as_str(),
                    "' is a known type but no loaded extension provides it. Loaded extensions: [",
                    list.as_str(),
                    "]. Add an extension that provides '",
                );
                r.append(capability.as_str());
                r.append("' to your config.");
                r
            },
            BindingError::NotProvided { extension, capability, available } => {
                let list: String = text::list_strs(available);
                let mut r: String = text::joined5(
                    "Extension '",
                    extension.as_str(),
                    "' does not provide capability '",
                    capability.as_str(),
                    "'. It provides: [",
                );
                r.append(list.as_str());
                r.append("].");
                r
            },
            BindingError::Missing { message } => message.clone(),
            BindingError::AlreadyClaimed => "Capability dependency was already claimed by this variant of the extension.".to_owned(),
        }
    }
}

/// The entries of all extensions, local and shared.
#[derive(Debug)]
pub struct Providers<L, S> {
    local: HandleTable<RegistryEntry<L>>,
    shared: HandleTable<RegistryEntry<S>>,
}

impl<L: Shareable, S: DeepClone> Providers<L, S> {
    /// The same local entries, and copies of the shared ones.
    pub fn copy_shared(&self) -> (r: Self)
        ensures
            r.local_entries() == self.local_entries(),
            self.wf() ==> r.wf() && handles::copies_all(
                self.shared_entries(),
                r.shared_entries(),
            ),
    {
        Providers { local: self.local.share(), shared: self.shared.deep_clone() }
    }
}

impl<L: DeepClone, S: DeepClone> Providers<L, S> {
    /// Copies of all entries.
    pub fn copy_all(&self) -> (r: Self)
        ensures
            self.wf() ==> {
                &&& r.wf()
                &&& handles::copies_all(self.local_entries(), r.local_entries())
                &&& handles::copies_all(self.shared_entries(), r.shared_entries())
            },
    {
        Providers { local: self.local.deep_clone(), shared: self.shared.deep_clone() }
    }
}

/// Whether a table has an entry of the extension for the capability, or of any extension.
fn table_offers<T>(
    table: &HandleTable<RegistryEntry<T>>,
    name: Option<&str>,
    capability: &str,
) -> (r: bool)
    requires
        table.wf(),
    ensures
        r == match name {
            Some(n) => offers(table@, n@, capability@),
            None => offered(table@, capability@),
        },
{
    proof {
        table.lemma_rows();
    }
    let mut i: usize = 0;
    while i < table.row_count()
        invariant
            i <= table.rows().len(),
            table.wf(),
            forall|k: int|
                0 <= k < table.rows().len() ==> table@.contains_key(
                    handles::key_of(#[trigger] table.rows()[k]),
                ) && table@[handles::key_of(table.rows()[k])] == table.rows()[k].entry,
            forall|j: int|
                0 <= j < i ==> !((#[trigger] table.rows()[j]).entry.capability_name@ == capability@
                    && (name matches Some(n) ==> table.rows()[j].name@ == n@)),
        decreases table.rows().len() - i,
    {
        let h: &Handle<RegistryEntry<T>> = table.row(i);
        let of_name: bool = match name {
            Some(n) => order::str_same(h.name.as_str(), n),
            None => true,
        };
        if of_name && order::str_same(h.entry.capability_name, capability) {
            proof {
                let row = table.rows()[i as int];
                assert(offers_at(table@, row.name@, row.trait_id, capability@));
                assert(offers(table@, row.name@, capability@));
            }
            return true;
        }
        i = i + 1;
    }
    proof {
        assert forall|n: Seq<char>, id: u64| #[trigger]
            offers_at(table@, n, id, capability@) implies name matches Some(m) && m@ != n by {
            let j = choose|j: int|
                0 <= j < table.rows().len() && handles::key_of(#[trigger] table.rows()[j]) == (
                    n,
                    id,
                );
            assert(table.rows()[j].entry.capability_name@ == capability@);
        }
        match name {
            Some(m) => {
                if offers(table@, m@, capability@) {
                    let id = choose|id: u64| #[trigger] offers_at(table@, m@, id, capability@);
                    assert(offers_at(table@, m@, id, capability@));
                }
            },
            None => {
                if offered(table@, capability@) {
                    let n = choose|n: Seq<char>| #[trigger] offers(table@, n, capability@);
                    let id = choose|id: u64| #[trigger] offers_at(table@, n, id, capability@);
                    assert(offers_at(table@, n, id, capability@));
                }
            },
        }
    }
    false
}

/// Some entry of the extension belongs to the capability.
pub open spec fn serves<T>(
    m: Map<(Seq<char>, u64), RegistryEntry<T>>,
    name: Seq<char>,
    capability: Seq<char>,
) -> bool {
    exists|id: u64| #[trigger]
        m.contains_key((name, id)) && m[(name, id)].capability_name@ == capability
}

proof fn lemma_offers_rows<T>(
    rows: Seq<Handle<RegistryEntry<T>>>,
    name: Seq<char>,
    capability: Seq<char>,
)
    ensures
        offers_of(rows, name).contains(capability) == exists|i: int|
            0 <= i < rows.len() && (#[trigger] rows[i]).name@ == name
                && rows[i].entry.capability_name@ == capability,
    decreases rows.len(),
{
    if rows.len() > 0 {
        let front = rows.drop_last();
        let before = offers_of(front, name);
        let now = offers_of(rows, name);
        lemma_offers_rows(front, name, capability);
        if before.contains(capability) {
            let i = choose|i: int|
                0 <= i < front.len() && (#[trigger] front[i]).name@ == name
                    && front[i].entry.capability_name@ == capability;
            assert(rows[i] == front[i]);
            assert(now[before.index_of(capability)] == capability);
        }
        if now.contains(capability) && !before.contains(capability) {
            let i = now.index_of(capability);
            if i < before.len() {
                assert(before[i] == capability);
            }
            assert(rows[rows.len() - 1] == rows.last());
        }
        if exists|i: int|
            0 <= i < rows.len() && (#[trigger] rows[i]).name@ == name
                && rows[i].entry.capability_name@ == capability {
            let i = choose|i: int|
                0 <= i < rows.len() && (#[trigger] rows[i]).name@ == name
                    && rows[i].entry.capability_name@ == capability;
            if i < front.len() {
                assert(front[i] == rows[i]);
            } else {
                assert(now.last() == capability);
            }
        }
    }
}

proof fn lemma_offers<T>(
    table: &HandleTable<RegistryEntry<T>>,
    name: Seq<char>,
    capability: Seq<char>,
)
    requires
        table.wf(),
    ensures
        offers_of(table.rows(), name).contains(capability) == serves(table@, name, capability),
{
    let rows = table.rows();
    table.lemma_rows();
    lemma_offers_rows(rows, name, capability);
    if offers_of(rows, name).contains(capability) {
        let i = choose|i: int|
            0 <= i < rows.len() && (#[trigger] rows[i]).name@ == name
                && rows[i].entry.capability_name@ == capability;
        let id = rows[i].trait_id;
        assert(handles::key_of(rows[i]) == (name, id));
        assert(table@.contains_key((name, id)));
    }
    if serves(table@, name, capability) {
        let id = choose|id: u64| #[trigger]
            table@.contains_key((name, id)) && table@[(name, id)].capability_name@ == capability;
        let i = choose|i: int|
            0 <= i < rows.len() && handles::key_of(#[trigger] rows[i]) == (name, id);
        assert(rows[i].name@ == name);
    }
}

/// Adds the capabilities of the extension's entries.
fn add_offers<T>(table: &HandleTable<RegistryEntry<T>>, name: &str, out: &mut Vec<&'static str>)
    ensures
        order::views(final(out)@) == order::views(old(out)@) + offers_of(table.rows(), name@),
{
    let ghost out0 = order::views(out@);
    let mut i: usize = 0;
    proof {
        assert(table.rows().take(0) =~= Seq::<Handle<RegistryEntry<T>>>::empty());
        assert(out0 + offers_of(table.rows().take(0), name@) =~= out0);
    }
    while i < table.row_count()
        invariant
            i <= table.rows().len(),
            order::views(out@) == out0 + offers_of(table.rows().take(i as int), name@),
        decreases table.rows().len() - i,
    {
        let h: &Handle<RegistryEntry<T>> = table.row(i);
        let ghost o0 = out@;
        proof {
            assert(table.rows().take(i + 1).drop_last() =~= table.rows().take(i as int));
        }
        if order::str_same(h.name.as_str(), name) {
            out.push(h.entry.capability_name);
            proof {
                assert(order::views(out@) =~= order::views(o0).push(h.entry.capability_name@));
                assert(order::views(out@) =~= out0 + offers_of(table.rows().take(i + 1), name@));
            }
        }
        i = i + 1;
    }
    assert(table.rows().take(i as int) =~= table.rows());
}

/// What is wrong with a binding.
#[derive(Debug, Clone, Copy, PartialEq, Eq, Structural)]
pub enum BindingFault {
    ExtensionMissing,
    UnknownCapability,
    NoProvider,
    NotProvided,
}

/// Why the binding of `capability` to `extension` fails, looked at in this order: the extension
/// is not there, the capability is not known, nobody provides it, the extension does not. A
/// consumer that cannot use local entries has to find a shared one.
pub open spec fn fault<L, S>(
    local: Map<(Seq<char>, u64), RegistryEntry<L>>,
    shared: Map<(Seq<char>, u64), RegistryEntry<S>>,
    known: Seq<Seq<char>>,
    capability: Seq<char>,
    extension: Seq<char>,
    use_local: bool,
) -> Option<BindingFault> {
    if !handles::names_one(local, extension) && !handles::names_one(shared, extension) {
        Some(BindingFault::ExtensionMissing)
    } else if !known.contains(capability) {
        Some(BindingFault::UnknownCapability)
    } else if !offered(local, capability) && !offered(shared, capability) {
        Some(BindingFault::NoProvider)
    } else if !(use_local && offers(local, extension, capability)) && !offers(
        shared,
        extension,
        capability,
    ) {
        Some(BindingFault::NotProvided)
    } else {
        None
    }
}

impl<L, S> Providers<L, S> {
    pub closed spec fn local_entries(&self) -> Map<(Seq<char>, u64), RegistryEntry<L>> {
        self.local@
    }

    pub closed spec fn shared_entries(&self) -> Map<(Seq<char>, u64), RegistryEntry<S>> {
        self.shared@
    }

    /// The capabilities that the extension's entries belong to, local ones first.
    pub closed spec fn offered_by(&self, name: Seq<char>) -> Seq<Seq<char>> {
        offers_of(self.local.rows(), name) + offers_of(self.shared.rows(), name)
    }

    /// There is at most one entry of either sort for each name and trait.
    pub closed spec fn wf(&self) -> bool {
        self.local.wf() && self.shared.wf()
    }

    /// An extension offers exactly the capabilities that its entries belong to.
    pub proof fn offers_are_those_of_the_entries(&self, name: Seq<char>, capability: Seq<char>)
        requires
            self.wf(),
        ensures
            self.offered_by(name).contains(capability) == (serves(
                self.local_entries(),
                name,
                capability,
            ) || serves(self.shared_entries(), name, capability)),
    {
        let locals = offers_of(self.local.rows(), name);
        let shareds = offers_of(self.shared.rows(), name);
        let all = self.offered_by(name);
        lemma_offers(&self.local, name, capability);
        lemma_offers(&self.shared, name, capability);
        if locals.contains(capability) {
            assert(all[locals.index_of(capability)] == capability);
        }
        if shareds.contains(capability) {
            assert(all[locals.len() + shareds.index_of(capability)] == capability);
        }
        if all.contains(capability) {
            let i = all.index_of(capability);
            if i < locals.len() {
                assert(locals[i] == capability);
            } else {
                assert(shareds[i - locals.len()] == capability);
            }
        }
    }

    /// The extension has an entry of either sort.
    pub open spec fn knows(&self, name: Seq<char>) -> bool {
        handles::names_one(self.local_entries(), name) || handles::names_one(
            self.shared_entries(),
            name,
        )
    }

    /// `e` says why the binding fails: its variant goes with `fault`, and it names what it
    /// speaks of.
    pub open spec fn explains(
        &self,
        known: Seq<Seq<char>>,
        capability: Seq<char>,
        extension: Seq<char>,
        use_local: bool,
        e: BindingError,
    ) -> bool {
        let f = fault(
            self.local_entries(),
            self.shared_entries(),
            known,
            capability,
            extension,
            use_local,
        );
        match e {
            BindingError::ExtensionMissing { capability: c, extension: x } => f == Some(BindingFault::ExtensionMissing)
                && c@ == capability && x@ == extension,
            BindingError::UnknownCapability { capability: c, known: k } => f == Some(BindingFault::UnknownCapability) && c@
                == capability && order::views(k@) == known,
            BindingError::NoProvider { capability: c, loaded } => f == Some(BindingFault::NoProvider) && c@
                == capability && handles::lists_names_of_both(
                self.local_entries(),
                self.shared_entries(),
                order::views(loaded@),
            ),
            BindingError::NotProvided { extension: x, capability: c, available } => f == Some(BindingFault::NotProvided)
                && c@ == capability && x@ == extension && order::views(available@)
                == self.offered_by(extension),
            BindingError::Missing { .. } => false,
            BindingError::AlreadyClaimed => false,
        }
    }

    /// No entries.
    pub fn new() -> (r: Self)
        ensures
            r.wf(),
            r.local_entries() == Map::<(Seq<char>, u64), RegistryEntry<L>>::empty(),
            r.shared_entries() == Map::<(Seq<char>, u64), RegistryEntry<S>>::empty(),
    {
        Providers { local: HandleTable::new(), shared: HandleTable::new() }
    }

    /// Enters the shared registrations of an extension.
    pub fn register_all_shared(
        &mut self,
        name: &str,
        registrations: Vec<CapabilityRegistration<S>>,
    )
        requires
            old(self).wf(),
        ensures
            final(self).wf(),
            final(self).local_entries() == old(self).local_entries(),
            final(self).shared_entries() == with_all(
                old(self).shared_entries(),
                name@,
                registrations@,
            ),
    {
        enter_all(&mut self.shared, name, registrations);
    }

    /// Enters the local registrations of an extension.
    pub fn register_all_local(
        &mut self,
        name: &str,
        registrations: Vec<CapabilityRegistration<L>>,
    )
        requires
            old(self).wf(),
        ensures
            final(self).wf(),
            final(self).shared_entries() == old(self).shared_entries(),
            final(self).local_entries() == with_all(
                old(self).local_entries(),
                name@,
                registrations@,
            ),
    {
        enter_all(&mut self.local, name, registrations);
    }

    /// The local entries.
    pub(crate) fn local_table(&self) -> (r: &HandleTable<RegistryEntry<L>>)
        requires
            self.wf(),
        ensures
            r.wf(),
            r@ == self.local_entries(),
    {
        &self.local
    }

    /// The shared entries.
    pub(crate) fn shared_table(&self) -> (r: &HandleTable<RegistryEntry<S>>)
        requires
            self.wf(),
        ensures
            r.wf(),
            r@ == self.shared_entries(),
    {
        &self.shared
    }

    /// Whether the extension has an entry of either sort.
    pub fn contains(&self, name: &str) -> (r: bool)
        requires
            self.wf(),
        ensures
            r == self.knows(name@),
    {
        self.local.contains(name) || self.shared.contains(name)
    }

    /// The unique extension names in order.
    pub fn names(&self) -> (r: OrderedSet<String>)
        requires
            self.wf(),
        ensures
            handles::lists_names_of_both(self.local_entries(), self.shared_entries(), r@),
            r.wf(),
    {
        let mut r: OrderedSet<String> = OrderedSet::new();
        self.local.add_names(&mut r);
        self.shared.add_names(&mut r);
        r
    }

    /// Whether there is no entry.
    pub fn is_empty(&self) -> (r: bool)
        requires
            self.wf(),
        ensures
            r == (self.local_entries() == Map::<(Seq<char>, u64), RegistryEntry<L>>::empty()
                && self.shared_entries() == Map::<(Seq<char>, u64), RegistryEntry<S>>::empty()),
    {
        self.local.is_empty() && self.shared.is_empty()
    }

    /// Checks whether the capability can be bound to the extension.
    pub fn check_binding(
        &self,
        known: &Vec<&'static str>,
        capability: &str,
        extension: &str,
        use_local: bool,
    ) -> (r: Result<(), BindingError>)
        requires
            self.wf(),
        ensures
            match r {
                Ok(_) => fault(
                    self.local_entries(),
                    self.shared_entries(),
                    order::views(known@),
                    capability@,
                    extension@,
                    use_local,
                ) is None,
                Err(e) => self.explains(
                    order::views(known@),
                    capability@,
                    extension@,
                    use_local,
                    e,
                ),
            },
    {
        if !self.contains(extension) {
            return Err(
                BindingError::ExtensionMissing {
                    capability: capability.to_owned(),
                    extension: extension.to_owned(),
                },
            );
        }
        if !holds_str(known, capability) {
            return Err(
                BindingError::UnknownCapability {
                    capability: capability.to_owned(),
                    known: copied(known),
                },
            );
        }
        if !table_offers(&self.local, None, capability) && !table_offers(
            &self.shared,
            None,
            capability,
        ) {
            return Err(
                BindingError::NoProvider {
                    capability: capability.to_owned(),
                    loaded: self.names().to_vec(),
                },
            );
        }
        if !(use_local && table_offers(&self.local, Some(extension), capability))
            && !table_offers(&self.shared, Some(extension), capability) {
            let mut available: Vec<&'static str> = Vec::new();
            add_offers(&self.local, extension, &mut available);
            add_offers(&self.shared, extension, &mut available);
            proof {
                assert(order::views(Seq::<&'static str>::empty()) =~= Seq::<Seq<char>>::empty());
                assert(order::views(available@) =~= self.offered_by(extension@));
            }
            return Err(
                BindingError::NotProvided {
                    extension: extension.to_owned(),
                    capability: capability.to_owned(),
                    available,
                },
            );
        }
        Ok(())
    }
}

/// The row is an entry of the extension for the capability.
pub open spec fn row_offers<T>(
    h: Handle<RegistryEntry<T>>,
    extension: Seq<char>,
    capability: Seq<char>,
) -> bool {
    h.name@ == extension && h.entry.capability_name@ == capability
}

/// The positions of the extension's entries for the capability.
pub(crate) fn matching_rows<T>(
    table: &HandleTable<RegistryEntry<T>>,
    extension: &str,
    capability: &str,
) -> (r: Vec<usize>)
    ensures
        forall|j: int|
            0 <= j < r@.len() ==> (#[trigger] r@[j]) < table.rows().len() && row_offers(
                table.rows()[r@[j] as int],
                extension@,
                capability@,
            ),
        forall|i: int|
            0 <= i < table.rows().len() && row_offers(
                #[trigger] table.rows()[i],
                extension@,
                capability@,
            ) ==> r@.contains(i as usize),
        table.rows().len() <= usize::MAX,
{
    let mut r: Vec<usize> = Vec::new();
    let mut i: usize = 0;
    while i < table.row_count()
        invariant
            i <= table.rows().len(),
            forall|j: int|
                0 <= j < r@.len() ==> (#[trigger] r@[j]) < table.rows().len() && row_offers(
                    table.rows()[r@[j] as int],
                    extension@,
                    capability@,
                ),
            forall|k: int|
                0 <= k < i && row_offers(
                    #[trigger] table.rows()[k],
                    extension@,
                    capability@,
                ) ==> r@.contains(k as usize),
        decreases table.rows().len() - i,
    {
        let h: &Handle<RegistryEntry<T>> = table.row(i);
        let ghost r0 = r@;
        if order::str_same(h.name.as_str(), extension) && order::str_same(
            h.entry.capability_name,
            capability,
        ) {
            r.push(i);
            assert(r@[r0.len() as int] == i);
        }
        proof {
            assert forall|k: int|
                0 <= k < i + 1 && row_offers(
                    #[trigger] table.rows()[k],
                    extension@,
                    capability@,
                ) implies r@.contains(k as usize) by {
                if k < i {
                    assert(r0.contains(k as usize));
                    assert(r@[r0.index_of(k as usize)] == k as usize);
                }
            }
        }
        i = i + 1;
    }
    r
}

/// The rows that `matching_rows` finds are the entries of the extension for the capability.
pub(crate) proof fn lemma_matching_rows<T>(
    table: &HandleTable<RegistryEntry<T>>,
    found: Seq<usize>,
    extension: Seq<char>,
    capability: Seq<char>,
    id: u64,
)
    requires
        table.wf(),
        forall|j: int|
            0 <= j < found.len() ==> (#[trigger] found[j]) < table.rows().len() && row_offers(
                table.rows()[found[j] as int],
                extension,
                capability,
            ),
        forall|i: int|
            0 <= i < table.rows().len() && row_offers(
                #[trigger] table.rows()[i],
                extension,
                capability,
            ) ==> found.contains(i as usize),
        table.rows().len() <= usize::MAX,
    ensures
        offers_at(table@, extension, id, capability) == exists|j: int|
            0 <= j < found.len() && table.rows()[#[trigger] found[j] as int].trait_id == id,
{
    table.lemma_rows();
    if offers_at(table@, extension, id, capability) {
        let i = choose|i: int|
            0 <= i < table.rows().len() && handles::key_of(#[trigger] table.rows()[i]) == (
                extension,
                id,
            );
        assert(row_offers(table.rows()[i], extension, capability));
        let j = found.index_of(i as usize);
        assert(found[j] == i as usize);
    }
    if exists|j: int|
        0 <= j < found.len() && table.rows()[#[trigger] found[j] as int].trait_id == id {
        let j = choose|j: int|
            0 <= j < found.len() && table.rows()[#[trigger] found[j] as int].trait_id == id;
        let h = table.rows()[found[j] as int];
        assert(handles::key_of(h) == (extension, id));
    }
}

/// Enters the registrations of an extension one after another.
fn enter_all<T>(
    table: &mut HandleTable<RegistryEntry<T>>,
    name: &str,
    registrations: Vec<CapabilityRegistration<T>>,
)
    requires
        old(table).wf(),
    ensures
        final(table).wf(),
        final(table)@ == with_all(old(table)@, name@, registrations@),
{
    let ghost all = registrations@;
    let mut rest: Vec<CapabilityRegistration<T>> = reversed(registrations);
    assert(all.take(0) =~= Seq::<CapabilityRegistration<T>>::empty());
    while rest.len() > 0
        invariant
            rest@.len() <= all.len(),
            forall|j: int| 0 <= j < rest@.len() ==> rest@[j] == all[all.len() - 1 - j],
            table.wf(),
            table@ == with_all(old(table)@, name@, all.take(all.len() - rest@.len())),
        decreases rest@.len(),
    {
        let ghost done = all.len() - rest@.len();
        match rest.pop() {
            Some(reg) => {
                proof {
                    assert(reg == all[done]);
                    assert(all.take(done + 1).drop_last() =~= all.take(done));
                }
                table.insert(
                    name,
                    reg.trait_id,
                    RegistryEntry {
                        value: reg.value,
                        capability_name: reg.capability_name,
                        local_trait_id: reg.local_trait_id,
                    },
                );
            },
            None => {},
        }
    }
    assert(all.take(all.len() as int) =~= all);
}

/// The elements from last to first.
fn reversed<T>(v: Vec<T>) -> (r: Vec<T>)
    ensures
        r@.len() == v@.len(),
        forall|j: int| 0 <= j < r@.len() ==> #[trigger] r@[j] == v@[v@.len() - 1 - j],
{
    let ghost all = v@;
    let mut from: Vec<T> = v;
    let mut r: Vec<T> = Vec::new();
    while from.len() > 0
        invariant
            from@.len() + r@.len() == all.len(),
            from@ == all.take(from@.len() as int),
            forall|j: int| 0 <= j < r@.len() ==> #[trigger] r@[j] == all[all.len() - 1 - j],
        decreases from@.len(),
    {
        match from.pop() {
            Some(x) => {
                r.push(x);
            },
            None => {},
        }
    }
    r
}

/// Whether `items` holds `s`.
pub(crate) fn holds_str(items: &Vec<&'static str>, s: &str) -> (r: bool)
    ensures
        r == order::views(items@).contains(s@),
{
    let mut i: usize = 0;
    while i < items.len()
        invariant
            i <= items@.len(),
            forall|k: int| 0 <= k < i ==> #[trigger] items@[k]@ != s@,
        decreases items@.len() - i,
    {
        if order::str_same(items[i], s) {
            assert(order::views(items@)[i as int] == s@);
            return true;
        }
        i = i + 1;
    }
    proof {
        if order::views(items@).contains(s@) {
            let k = order::views(items@).index_of(s@);
            assert(items@[k]@ == s@);
        }
    }
    false
}

/// The same strings once more.
fn copied(items: &Vec<&'static str>) -> (r: Vec<&'static str>)
    ensures
        order::views(r@) == order::views(items@),
{
    let mut r: Vec<&'static str> = Vec::new();
    let mut i: usize = 0;
    while i < items.len()
        invariant
            i <= items@.len(),
            r@ == items@.take(i as int),
        decreases items@.len() - i,
    {
        r.push(items[i]);
        i = i + 1;
        assert(r@ =~= items@.take(i as int));
    }
    assert(r@ =~= items@);
    r
}

/// The last registration of an extension for a trait is the one that is found, and entries of
/// other extensions and for other traits stay as they were.
pub proof fn last_registration_is_found<T>(
    m: Map<(Seq<char>, u64), RegistryEntry<T>>,
    name: Seq<char>,
    regs: Seq<CapabilityRegistration<T>>,
    i: int,
    other: (Seq<char>, u64),
)
    requires
        0 <= i < regs.len(),
        forall|j: int| i < j < regs.len() ==> (#[trigger] regs[j]).trait_id != regs[i].trait_id,
        other.0 != name || forall|j: int|
            0 <= j < regs.len() ==> (#[trigger] regs[j]).trait_id != other.1,
    ensures
        ({
            let after = with_all(m, name, regs);
            &&& after.contains_key((name, regs[i].trait_id))
            &&& after[(name, regs[i].trait_id)].value == regs[i].value
            &&& after[(name, regs[i].trait_id)].capability_name == regs[i].capability_name
            &&& after[(name, regs[i].trait_id)].local_trait_id == regs[i].local_trait_id
            &&& after.contains_key(other) == m.contains_key(other)
            &&& m.contains_key(other) ==> after[other] == m[other]
        }),
    decreases regs.len(),
{
    let front = regs.drop_last();
    assert(regs[regs.len() - 1] == regs.last());
    lemma_untouched(m, name, front, other);
    if i < regs.len() - 1 {
        assert(regs[regs.len() - 1].trait_id != regs[i].trait_id);
        assert(front[i] == regs[i]);
        last_registration_is_found(m, name, front, i, other);
    }
}

/// Entries of other extensions and for other traits stay as they were.
pub(crate) proof fn lemma_untouched<T>(
    m: Map<(Seq<char>, u64), RegistryEntry<T>>,
    name: Seq<char>,
    regs: Seq<CapabilityRegistration<T>>,
    other: (Seq<char>, u64),
)
    requires
        other.0 != name || forall|j: int|
            0 <= j < regs.len() ==> (#[trigger] regs[j]).trait_id != other.1,
    ensures
        with_all(m, name, regs).contains_key(other) == m.contains_key(other),
        m.contains_key(other) ==> with_all(m, name, regs)[other] == m[other],
    decreases regs.len(),
{
    if regs.len() > 0 {
        let front = regs.drop_last();
        assert(regs[regs.len() - 1] == regs.last());
        assert(forall|j: int| 0 <= j < front.len() ==> #[trigger] front[j] == regs[j]);
        lemma_untouched(m, name, front, other);
    }
}

/// A binding can be met exactly if the capability is a known one and the extension has an entry
/// for it that the consumer can use: a shared one, or a local one if it can use those.
pub proof fn met_bindings_are_provided<L, S>(
    local: Map<(Seq<char>, u64), RegistryEntry<L>>,
    shared: Map<(Seq<char>, u64), RegistryEntry<S>>,
    known: Seq<Seq<char>>,
    capability: Seq<char>,
    extension: Seq<char>,
    use_local: bool,
)
    ensures
        fault(local, shared, known, capability, extension, use_local) is None <==> known.contains(
            capability,
        ) && ((exists|id: u64| #[trigger]
            shared.contains_key((extension, id)) && shared[(extension, id)].capability_name@
                == capability) || (use_local && exists|id: u64| #[trigger]
            local.contains_key((extension, id)) && local[(extension, id)].capability_name@
                == capability)),
{
    if exists|id: u64| #[trigger]
        shared.contains_key((extension, id)) && shared[(extension, id)].capability_name@
            == capability {
        let id = choose|id: u64| #[trigger]
            shared.contains_key((extension, id)) && shared[(extension, id)].capability_name@
                == capability;
        assert(offers_at(shared, extension, id, capability));
        assert(offers(shared, extension, capability));
    }
    if exists|id: u64| #[trigger]
        local.contains_key((extension, id)) && local[(extension, id)].capability_name@
            == capability {
        let id = choose|id: u64| #[trigger]
            local.contains_key((extension, id)) && local[(extension, id)].capability_name@
                == capability;
        assert(offers_at(local, extension, id, capability));
        assert(offers(local, extension, capability));
    }
    if fault(local, shared, known, capability, extension, use_local) is None {
        if offers(shared, extension, capability) {
            let id = choose|id: u64| #[trigger] offers_at(shared, extension, id, capability);
            assert(shared.contains_key((extension, id)));
        } else {
            let id = choose|id: u64| #[trigger] offers_at(local, extension, id, capability);
            assert(local.contains_key((extension, id)));
        }
    }
}

/// What is wrong with a binding is told in order: an extension without any entry comes first,
/// then a capability that is not known, then one that no extension has an entry for.
pub proof fn faults_are_told_in_order<L, S>(
    local: Map<(Seq<char>, u64), RegistryEntry<L>>,
    shared: Map<(Seq<char>, u64), RegistryEntry<S>>,
    known: Seq<Seq<char>>,
    capability: Seq<char>,
    extension: Seq<char>,
    use_local: bool,
)
    ensures
        ({
            let f = fault(local, shared, known, capability, extension, use_local);
            let there = (exists|id: u64| #[trigger] local.contains_key((extension, id)))
                || exists|id: u64| #[trigger] shared.contains_key((extension, id));
            let provided = (exists|k: (Seq<char>, u64)| #[trigger]
                local.contains_key(k) && local[k].capability_name@ == capability) || exists|
                k: (Seq<char>, u64),
            | #[trigger] shared.contains_key(k) && shared[k].capability_name@ == capability;
            &&& f == Some(BindingFault::ExtensionMissing) <==> !there
            &&& f == Some(BindingFault::UnknownCapability) <==> there && !known.contains(
                capability,
            )
            &&& f == Some(BindingFault::NoProvider) <==> there && known.contains(capability)
                && !provided
        }),
{
    lemma_offered(local, capability);
    lemma_offered(shared, capability);
}

proof fn lemma_offered<T>(m: Map<(Seq<char>, u64), RegistryEntry<T>>, capability: Seq<char>)
    ensures
        offered(m, capability) == exists|k: (Seq<char>, u64)| #[trigger]
            m.contains_key(k) && m[k].capability_name@ == capability,
{
    if offered(m, capability) {
        let name = choose|name: Seq<char>| #[trigger] offers(m, name, capability);
        let id = choose|id: u64| #[trigger] offers_at(m, name, id, capability);
        assert(m.contains_key((name, id)));
    }
    if exists|k: (Seq<char>, u64)| #[trigger]
        m.contains_key(k) && m[k].capability_name@ == capability {
        let k = choose|k: (Seq<char>, u64)| #[trigger]
            m.contains_key(k) && m[k].capability_name@ == capability;
        assert(k == (k.0, k.1));
        assert(offers_at(m, k.0, k.1, capability));
        assert(offers(m, k.0, capability));
    }
}

impl<L, S> Providers<L, S> {
    /// The error of a binding says what is wrong with it: that the extension has no entry at
    /// all, that the capability is not known, that no extension has an entry for it, or that
    /// this one has none that the consumer can use. It names the capability.
    pub proof fn errors_say_what_is_wrong(
        &self,
        known: Seq<Seq<char>>,
        capability: Seq<char>,
        extension: Seq<char>,
        use_local: bool,
        e: BindingError,
    )
        requires
            self.explains(known, capability, extension, use_local, e),
        ensures
            ({
                let there = (exists|id: u64| #[trigger]
                    self.local_entries().contains_key((extension, id))) || exists|id: u64|
                    #[trigger] self.shared_entries().contains_key((extension, id));
                let provided = (exists|k: (Seq<char>, u64)| #[trigger]
                    self.local_entries().contains_key(k) && self.local_entries()[k].capability_name@
                        == capability) || exists|k: (Seq<char>, u64)| #[trigger]
                    self.shared_entries().contains_key(k)
                        && self.shared_entries()[k].capability_name@ == capability;
                match e {
                    BindingError::ExtensionMissing { capability: c, extension: x } => !there && c@
                        == capability && x@ == extension,
                    BindingError::UnknownCapability { capability: c, .. } => there
                        && !known.contains(capability) && c@ == capability,
                    BindingError::NoProvider { capability: c, .. } => there && known.contains(
                        capability,
                    ) && !provided && c@ == capability,
                    BindingError::NotProvided { extension: x, capability: c, .. } => there
                        && known.contains(capability) && provided && c@ == capability && x@
                        == extension,
                    _ => false,
                }
            }),
    {
        faults_are_told_in_order(
            self.local_entries(),
            self.shared_entries(),
            known,
            capability,
            extension,
            use_local,
        );
    }
}

} // verus!
