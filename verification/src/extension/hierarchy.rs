//! Extensions of the engine and of pipeline groups, which all pipelines below them share.
//!
//! Only the shared variant of such an extension is kept, because its handles cross the
//! threads of the pipelines.

use std::sync::Arc;
use vstd::prelude::*;
use vstd::string::*;

use crate::capability::registry::CapabilityRegistry;
use crate::config::extension as config;
use crate::config::extension::PipelineExtensions;
use crate::handles;
use crate::order;
use crate::order::OrderedSet;
use crate::providers;
use crate::providers::CapabilityRegistration;
use crate::text;

verus! {

/// Why extensions above the pipelines could not be prepared, started or run.
#[derive(Debug)]
pub enum HierarchyError {
    /// No plugin has that name.
    UnknownExtension { plugin_urn: String },
    /// Such an extension needs a shared variant and has none.
    HierarchicalExtensionRequiresShared { extension: String, scope: String },
    /// The plugin refused its configuration.
    ConfigError(String),
    /// A capability could not be registered.
    CapabilityRegistrationFailed { extension: String, message: String },
    InternalError { message: String },
    /// The task of a scope did not end by itself.
    JoinTaskError { is_canceled: bool, is_panic: bool, error: String },
    /// A scope ended with an error of one of its extensions.
    ScopeFailed { message: String },
}

/// What registers the shared capabilities of an extension.
pub trait ProvideShared<T>: Sized {
    /// The registrations of the extension's shared value.
    fn register_shared(&self, extension_id: &String) -> Result<
        Vec<CapabilityRegistration<T>>,
        String,
    >;
}

/// An extension with what registers its shared capabilities.
#[derive(Debug)]
pub struct SharedExtensionRegistration<P> {
    pub extension_id: String,
    pub provider: Arc<P>,
}

impl<P> SharedExtensionRegistration<P> {
    fn again(&self) -> (r: Self)
        ensures
            r == *self,
    {
        SharedExtensionRegistration {
            extension_id: self.extension_id.clone(),
            provider: handles::share_arc(&self.provider),
        }
    }
}

/// The extensions of one scope, and those among them that provide capabilities.
#[derive(Debug)]
pub struct ScopeCatalog<P> {
    pub known_extensions: OrderedSet<String>,
    pub registrations: Vec<SharedExtensionRegistration<P>>,
}

impl<P> ScopeCatalog<P> {
    /// A scope without extensions.
    pub fn new() -> (r: Self)
        ensures
            r.known_extensions.wf(),
            r.known_extensions@.len() == 0,
            r.registrations@.len() == 0,
    {
        ScopeCatalog { known_extensions: OrderedSet::new(), registrations: Vec::new() }
    }
}

/// The scopes of the engine and of each pipeline group.
#[derive(Debug)]
pub struct HierarchicalExtensionCatalog<P> {
    pub engine: ScopeCatalog<P>,
    pub groups: Vec<(String, ScopeCatalog<P>)>,
}

/// The entry at position `i` is the catalog of the group.
pub open spec fn group_at<P>(
    groups: Seq<(String, ScopeCatalog<P>)>,
    i: int,
    group: Seq<char>,
) -> bool {
    0 <= i < groups.len() && groups[i].0@ == group
}

/// There is a catalog of the group.
pub open spec fn has_group<P>(groups: Seq<(String, ScopeCatalog<P>)>, group: Seq<char>) -> bool {
    exists|i: int| #[trigger] group_at(groups, i, group)
}

impl<P> HierarchicalExtensionCatalog<P> {
    /// No scope has any extension.
    pub fn new() -> (r: Self)
        ensures
            r.wf(),
            r.engine.known_extensions@.len() == 0,
            r.engine.registrations@.len() == 0,
            r.groups@.len() == 0,
    {
        HierarchicalExtensionCatalog { engine: ScopeCatalog::new(), groups: Vec::new() }
    }

    /// No group has two catalogs, and the names of each scope are in order.
    pub open spec fn wf(&self) -> bool {
        &&& self.engine.known_extensions.wf()
        &&& forall|i: int|
            0 <= i < self.groups@.len() ==> (#[trigger] self.groups@[i]).1.known_extensions.wf()
        &&& forall|i: int, j: int|
            0 <= i < j < self.groups@.len() ==> (#[trigger] self.groups@[i]).0@ != (
            #[trigger] self.groups@[j]).0@
    }

    fn group_position(&self, group: &str) -> (r: Option<usize>)
        ensures
            match r {
                Some(i) => group_at(self.groups@, i as int, group@),
                None => !has_group(self.groups@, group@),
            },
    {
        let mut i: usize = 0;
        while i < self.groups.len()
            invariant
                i <= self.groups@.len(),
                forall|j: int| 0 <= j < i ==> !#[trigger] group_at(self.groups@, j, group@),
            decreases self.groups@.len() - i,
        {
            if order::str_same(self.groups[i].0.as_str(), group) {
                return Some(i);
            }
            i = i + 1;
        }
        None
    }

    /// The names that the group declares.
    pub open spec fn group_knows(&self, group: Seq<char>, id: Seq<char>) -> bool {
        exists|i: int| #[trigger]
            group_at(self.groups@, i, group) && self.groups@[i].1.known_extensions@.contains(id)
    }

    /// The registrations of the group.
    pub open spec fn group_registrations(&self, group: Seq<char>) -> Seq<
        SharedExtensionRegistration<P>,
    > {
        if has_group(self.groups@, group) {
            let i = choose|i: int| #[trigger] group_at(self.groups@, i, group);
            self.groups@[i].1.registrations@
        } else {
            Seq::empty()
        }
    }
}

/// The registrations of the extensions that are not hidden.
pub open spec fn visible<P>(
    registrations: Seq<SharedExtensionRegistration<P>>,
    hidden: spec_fn(Seq<char>) -> bool,
) -> Seq<SharedExtensionRegistration<P>> {
    registrations.filter(|r: SharedExtensionRegistration<P>| !hidden(r.extension_id@))
}

/// What the pipeline itself declares.
pub open spec fn hidden_by_pipeline(pipeline: PipelineExtensions) -> spec_fn(Seq<char>) -> bool {
    |id: Seq<char>| config::declares(pipeline.rows(), id)
}

/// What the pipeline itself or its group declares.
pub open spec fn hidden_by_group<P>(
    pipeline: PipelineExtensions,
    catalog: HierarchicalExtensionCatalog<P>,
    group: Seq<char>,
) -> spec_fn(Seq<char>) -> bool {
    |id: Seq<char>| config::declares(pipeline.rows(), id) || catalog.group_knows(group, id)
}

/// The registrations that a pipeline of the group inherits: those of the group, then those of
/// the engine.
pub open spec fn inherited<P>(
    catalog: HierarchicalExtensionCatalog<P>,
    group: Seq<char>,
    pipeline: PipelineExtensions,
) -> Seq<SharedExtensionRegistration<P>> {
    visible(catalog.group_registrations(group), hidden_by_pipeline(pipeline)) + visible(
        catalog.engine.registrations@,
        hidden_by_group(pipeline, catalog, group),
    )
}

/// The nearest declaration of a name wins, and other groups stay out of sight: a pipeline
/// inherits a registration exactly if it declares no extension of that name itself and the
/// registration is one of its group, or one of the engine whose name the group does not
/// declare.
pub proof fn nearest_declaration_wins<P>(
    catalog: HierarchicalExtensionCatalog<P>,
    group: Seq<char>,
    pipeline: PipelineExtensions,
    registration: SharedExtensionRegistration<P>,
)
    ensures
        inherited(catalog, group, pipeline).contains(registration) == (!config::declares(
            pipeline.rows(),
            registration.extension_id@,
        ) && (catalog.group_registrations(group).contains(registration) || (
        catalog.engine.registrations@.contains(registration) && !catalog.group_knows(
            group,
            registration.extension_id@,
        )))),
{
    let near = catalog.group_registrations(group);
    let far = catalog.engine.registrations@;
    let a = hidden_by_pipeline(pipeline);
    let b = hidden_by_group(pipeline, catalog, group);
    lemma_visible(near, a, registration);
    lemma_visible(far, b, registration);
    let both = inherited(catalog, group, pipeline);
    if visible(near, a).contains(registration) {
        let i = visible(near, a).index_of(registration);
        assert(both[i] == registration);
    }
    if visible(far, b).contains(registration) {
        let i = visible(far, b).index_of(registration);
        assert(both[visible(near, a).len() + i] == registration);
    }
    if both.contains(registration) {
        let i = both.index_of(registration);
        if i < visible(near, a).len() {
            assert(visible(near, a)[i] == registration);
        } else {
            assert(visible(far, b)[i - visible(near, a).len()] == registration);
        }
    }
}

proof fn lemma_visible<P>(
    registrations: Seq<SharedExtensionRegistration<P>>,
    hidden: spec_fn(Seq<char>) -> bool,
    registration: SharedExtensionRegistration<P>,
)
    ensures
        visible(registrations, hidden).contains(registration) == (registrations.contains(
            registration,
        ) && !hidden(registration.extension_id@)),
    decreases registrations.len(),
{
    reveal(Seq::filter);
    if registrations.len() > 0 {
        let rest = registrations.drop_last();
        let last = registrations.last();
        lemma_visible(rest, hidden, registration);
        if visible(rest, hidden).contains(registration) && !hidden(last.extension_id@) {
            let i = visible(rest, hidden).index_of(registration);
            assert(visible(registrations, hidden)[i] == registration);
        }
        if visible(registrations, hidden).contains(registration) && registration != last {
            let i = visible(registrations, hidden).index_of(registration);
            assert(visible(rest, hidden)[i] == registration);
        }
        if !hidden(last.extension_id@) {
            assert(visible(registrations, hidden)[visible(rest, hidden).len() as int] == last);
        }
        if registrations.contains(registration) && registration != last {
            let i = registrations.index_of(registration);
            assert(rest[i] == registration);
        }
        if rest.contains(registration) {
            let i = rest.index_of(registration);
            assert(registrations[i] == registration);
        }
        assert(registrations[registrations.len() - 1] == last);
    }
}

/// A pipeline's snapshot of the shared providers of its group and of the engine.
#[derive(Debug)]
pub struct InheritedExtensionRegistrations<P> {
    pub known_extensions: OrderedSet<String>,
    pub registrations: Vec<SharedExtensionRegistration<P>>,
}

/// Adds the registrations of the extensions that neither the pipeline nor the group declares.
fn add_visible<P>(
    from: &Vec<SharedExtensionRegistration<P>>,
    pipeline: &PipelineExtensions,
    group: Option<&OrderedSet<String>>,
    out: &mut Vec<SharedExtensionRegistration<P>>,
    hidden: Ghost<spec_fn(Seq<char>) -> bool>,
)
    requires
        group matches Some(g) ==> g.wf(),
        forall|id: Seq<char>| #[trigger]
            hidden@(id) == (config::declares(pipeline.rows(), id) || (group matches Some(g)
                && g@.contains(id))),
    ensures
        final(out)@ == old(out)@ + visible(from@, hidden@),
{
    let ghost keep = |r: SharedExtensionRegistration<P>| !(hidden@)(r.extension_id@);
    let ghost out0 = out@;
    let mut i: usize = 0;
    proof {
        reveal(Seq::filter);
        assert(from@.take(0).filter(keep) =~= Seq::<SharedExtensionRegistration<P>>::empty());
    }
    while i < from.len()
        invariant
            i <= from@.len(),
            group matches Some(g) ==> g.wf(),
            forall|id: Seq<char>| #[trigger]
                hidden@(id) == (config::declares(pipeline.rows(), id) || (group matches Some(g)
                    && g@.contains(id))),
            keep == (|r: SharedExtensionRegistration<P>| !(hidden@)(r.extension_id@)),
            out@ == out0 + from@.take(i as int).filter(keep),
        decreases from@.len() - i,
    {
        let registration: &SharedExtensionRegistration<P> = &from[i];
        let in_group: bool = match group {
            Some(g) => g.contains(&registration.extension_id),
            None => false,
        };
        proof {
            reveal(Seq::filter);
            assert(from@.take(i + 1).drop_last() =~= from@.take(i as int));
            assert(from@.take(i + 1).last() == *registration);
            assert((hidden@)(registration.extension_id@) == !keep(*registration));
        }
        if !pipeline.contains_key(registration.extension_id.as_str()) && !in_group {
            out.push(registration.again());
        }
        assert(out@ =~= out0 + from@.take(i + 1).filter(keep));
        i = i + 1;
    }
    assert(from@.take(i as int) =~= from@);
}

/// Enters the names that neither the pipeline nor the group declares.
fn add_known(
    from: &OrderedSet<String>,
    pipeline: &PipelineExtensions,
    group: Option<&OrderedSet<String>>,
    out: &mut OrderedSet<String>,
)
    requires
        old(out).wf(),
        group matches Some(g) ==> g.wf(),
    ensures
        final(out).wf(),
        forall|id: Seq<char>| #[trigger]
            final(out)@.contains(id) == (old(out)@.contains(id) || (from@.contains(id)
                && !config::declares(pipeline.rows(), id) && !(group matches Some(g)
                && g@.contains(id)))),
{
    let ghost out0 = out@;
    let mut i: usize = 0;
    while i < from.len()
        invariant
            i <= from@.len(),
            out.wf(),
            group matches Some(g) ==> g.wf(),
            forall|id: Seq<char>| #[trigger]
                out@.contains(id) == (out0.contains(id) || (from@.take(i as int).contains(id)
                    && !config::declares(pipeline.rows(), id) && !(group matches Some(g)
                    && g@.contains(id)))),
        decreases from@.len() - i,
    {
        let id: &String = from.at(i);
        let in_group: bool = match group {
            Some(g) => g.contains(id),
            None => false,
        };
        let ghost before = out@;
        if !pipeline.contains_key(id.as_str()) && !in_group {
            let _ = out.insert(id.clone());
        }
        proof {
            let next = from@.take(i + 1);
            let prev = from@.take(i as int);
            assert(next =~= prev.push(id@));
            assert forall|x: Seq<char>| #[trigger] out@.contains(x) == (out0.contains(x) || (
            next.contains(x) && !config::declares(pipeline.rows(), x) && !(group matches Some(g)
                && g@.contains(x)))) by {
                if next.contains(x) && x != id@ {
                    let k = next.index_of(x);
                    assert(prev[k] == x);
                }
                if prev.contains(x) {
                    let k = prev.index_of(x);
                    assert(next[k] == x);
                }
                assert(next[i as int] == id@);
            }
        }
        i = i + 1;
    }
    assert(from@.take(i as int) =~= from@);
}

impl<P> InheritedExtensionRegistrations<P> {
    /// Nothing is inherited.
    pub fn new() -> (r: Self)
        ensures
            r.known_extensions.wf(),
            r.known_extensions@.len() == 0,
            r.registrations@.len() == 0,
    {
        InheritedExtensionRegistrations {
            known_extensions: OrderedSet::new(),
            registrations: Vec::new(),
        }
    }

    /// Drops what the pipeline itself declares.
    pub fn remove_shadowed_by(&mut self, pipeline_extensions: &PipelineExtensions)
        requires
            old(self).known_extensions.wf(),
        ensures
            final(self).known_extensions.wf(),
            forall|id: Seq<char>| #[trigger]
                final(self).known_extensions@.contains(id) == (old(self).known_extensions@.contains(id) && !config::declares(
                    pipeline_extensions.rows(),
                    id,
                )),
            final(self).registrations@ == visible(
                old(self).registrations@,
                hidden_by_pipeline(*pipeline_extensions),
            ),
    {
        let mut known: OrderedSet<String> = OrderedSet::new();
        add_known(&self.known_extensions, pipeline_extensions, None, &mut known);
        let mut kept: Vec<SharedExtensionRegistration<P>> = Vec::new();
        add_visible(
            &self.registrations,
            pipeline_extensions,
            None,
            &mut kept,
            Ghost(hidden_by_pipeline(*pipeline_extensions)),
        );
        assert(kept@ =~= visible(
            self.registrations@,
            hidden_by_pipeline(*pipeline_extensions),
        ));
        self.known_extensions = known;
        self.registrations = kept;
    }

    /// Enters the inherited names among those that are known.
    pub fn extend_known_extensions(&self, known_extensions: &mut OrderedSet<String>)
        requires
            old(known_extensions).wf(),
        ensures
            final(known_extensions).wf(),
            forall|id: Seq<char>| #[trigger]
                final(known_extensions)@.contains(id) == (old(known_extensions)@.contains(id)
                    || self.known_extensions@.contains(id)),
    {
        let nothing: PipelineExtensions = PipelineExtensions::new();
        add_known(&self.known_extensions, &nothing, None, known_extensions);
    }
}

/// The registry after the registrations of the extensions were entered one after another.
pub open spec fn with_each<T>(
    m: Map<(Seq<char>, u64), providers::RegistryEntry<T>>,
    ids: Seq<Seq<char>>,
    outcomes: Seq<Seq<CapabilityRegistration<T>>>,
) -> Map<(Seq<char>, u64), providers::RegistryEntry<T>>
    recommends
        ids.len() == outcomes.len(),
    decreases ids.len(),
{
    if ids.len() == 0 {
        m
    } else {
        providers::with_all(
            with_each(m, ids.drop_last(), outcomes.drop_last()),
            ids.last(),
            outcomes.last(),
        )
    }
}

/// The identifiers of the registrations.
pub open spec fn ids_of<P>(registrations: Seq<SharedExtensionRegistration<P>>) -> Seq<Seq<char>> {
    Seq::new(registrations.len(), |i: int| registrations[i].extension_id@)
}

/// The first `outcomes.len()` registrations succeeded with those outcomes.
pub open spec fn registered<T, P: ProvideShared<T>>(
    registrations: Seq<SharedExtensionRegistration<P>>,
    outcomes: Seq<Seq<CapabilityRegistration<T>>>,
) -> bool {
    &&& outcomes.len() <= registrations.len()
    &&& forall|i: int|
        0 <= i < outcomes.len() ==> registered_as::<T, P>(
            registrations[i],
            #[trigger] outcomes[i],
        )
}

/// Registering the extension can give those registrations.
pub open spec fn registered_as<T, P: ProvideShared<T>>(
    registration: SharedExtensionRegistration<P>,
    outcome: Seq<CapabilityRegistration<T>>,
) -> bool {
    exists|v: Vec<CapabilityRegistration<T>>|
        v@ == outcome && #[trigger] call_ensures(
            P::register_shared,
            (&*registration.provider, &registration.extension_id),
            Ok::<Vec<CapabilityRegistration<T>>, String>(v),
        )
}

impl<P> InheritedExtensionRegistrations<P> {
    /// Registers each inherited provider. The first that fails ends it.
    pub fn register_into<L, S>(&self, registry: &mut CapabilityRegistry<L, S>) -> (r: Result<
        (),
        HierarchyError,
    >) where P: ProvideShared<Arc<S>>
        requires
            old(registry).wf(),
            forall|i: int|
                0 <= i < self.registrations@.len() ==> call_requires(
                    P::register_shared,
                    (
                        &*(#[trigger] self.registrations@[i]).provider,
                        &self.registrations@[i].extension_id,
                    ),
                ),
        ensures
            final(registry).wf(),
            final(registry).inner().local_entries() == old(registry).inner().local_entries(),
            exists|outcomes: Seq<Seq<CapabilityRegistration<Arc<S>>>>|
                {
                    &&& #[trigger] registered::<Arc<S>, P>(self.registrations@, outcomes)
                    &&& final(registry).inner().shared_entries() == with_each(
                        old(registry).inner().shared_entries(),
                        ids_of(self.registrations@).take(outcomes.len() as int),
                        outcomes,
                    )
                    &&& match r {
                        Ok(_) => outcomes.len() == self.registrations@.len(),
                        Err(HierarchyError::CapabilityRegistrationFailed { extension, message }) => {
                            &&& outcomes.len() < self.registrations@.len()
                            &&& extension == self.registrations@[outcomes.len() as int].extension_id
                            &&& call_ensures(
                                P::register_shared,
                                (
                                    &*self.registrations@[outcomes.len() as int].provider,
                                    &self.registrations@[outcomes.len() as int].extension_id,
                                ),
                                Err::<Vec<CapabilityRegistration<Arc<S>>>, String>(message),
                            )
                        },
                        Err(_) => false,
                    }
                },
    {
        let ghost ids = ids_of(self.registrations@);
        let ghost mut outcomes: Seq<Seq<CapabilityRegistration<Arc<S>>>> = Seq::empty();
        let ghost shared0 = registry.inner().shared_entries();
        let mut i: usize = 0;
        assert(ids.take(0) =~= Seq::<Seq<char>>::empty());
        while i < self.registrations.len()
            invariant
                i <= self.registrations@.len(),
                ids == ids_of(self.registrations@),
                outcomes.len() == i,
                registered::<Arc<S>, P>(self.registrations@, outcomes),
                registry.wf(),
                registry.inner().local_entries() == old(registry).inner().local_entries(),
                registry.inner().shared_entries() == with_each(
                    shared0,
                    ids.take(i as int),
                    outcomes,
                ),
                shared0 == old(registry).inner().shared_entries(),
                forall|i: int|
                    0 <= i < self.registrations@.len() ==> call_requires(
                        P::register_shared,
                        (
                            &*(#[trigger] self.registrations@[i]).provider,
                            &self.registrations@[i].extension_id,
                        ),
                    ),
            decreases self.registrations@.len() - i,
        {
            let registration: &SharedExtensionRegistration<P> = &self.registrations[i];
            match registration.provider.register_shared(&registration.extension_id) {
                Ok(capabilities) => {
                    let ghost new = capabilities@;
                    registry.register_all_shared(registration.extension_id.as_str(), capabilities);
                    proof {
                        let before = outcomes;
                        outcomes = outcomes.push(new);
                        assert(registered_as::<Arc<S>, P>(*registration, new));
                        assert(outcomes.drop_last() =~= before);
                        assert(ids.take(i + 1).drop_last() =~= ids.take(i as int));
                        assert(ids.take(i + 1).last() == registration.extension_id@);
                    }
                },
                Err(message) => {
                    let extension: String = registration.extension_id.clone();
                    assert(registered::<Arc<S>, P>(self.registrations@, outcomes));
                    return Err(
                        HierarchyError::CapabilityRegistrationFailed { extension, message },
                    );
                },
            }
            i = i + 1;
        }
        assert(registered::<Arc<S>, P>(self.registrations@, outcomes));
        Ok(())
    }
}

/// The catalogs of the scopes above the pipelines. They are installed once.
#[derive(Debug)]
pub struct HierarchicalExtensionRegistry<P> {
    installed: bool,
    catalog: HierarchicalExtensionCatalog<P>,
}

impl<P> HierarchicalExtensionRegistry<P> {
    pub closed spec fn is_installed(&self) -> bool {
        self.installed
    }

    pub closed spec fn contents(&self) -> HierarchicalExtensionCatalog<P> {
        self.catalog
    }

    pub open spec fn wf(&self) -> bool {
        self.contents().wf()
    }

    /// A registry with nothing installed.
    pub fn new() -> (r: Self)
        ensures
            r.wf(),
            !r.is_installed(),
            r.contents().engine.known_extensions@.len() == 0,
            r.contents().engine.registrations@.len() == 0,
            r.contents().groups@.len() == 0,
    {
        HierarchicalExtensionRegistry {
            installed: false,
            catalog: HierarchicalExtensionCatalog::new(),
        }
    }

    /// Installs the catalog. A second one is refused.
    pub fn install(&mut self, catalog: HierarchicalExtensionCatalog<P>) -> (r: Result<
        (),
        HierarchyError,
    >)
        ensures
            match r {
                Ok(_) => !old(self).is_installed() && final(self).is_installed() && final(self).contents() == catalog,
                Err(e) => {
                    &&& old(self).is_installed()
                    &&& *final(self) == *old(self)
                    &&& e matches HierarchyError::InternalError { message } && message@
                        == "hierarchical extension catalog was installed more than once"@
                },
            },
    {
        if self.installed {
            return Err(
                HierarchyError::InternalError {
                    message: String::from_str(
                        "hierarchical extension catalog was installed more than once",
                    ),
                },
            );
        }
        self.catalog = catalog;
        self.installed = true;
        Ok(())
    }

    /// The registrations of the group and of the engine that the pipeline sees.
    ///
    /// The declarations of the pipeline hide those of its group and of the engine. The
    /// declarations of the group hide those of the engine.
    pub fn registrations_for_pipeline(
        &self,
        pipeline_group_id: &str,
        pipeline_extensions: &PipelineExtensions,
    ) -> (r: InheritedExtensionRegistrations<P>)
        requires
            self.wf(),
        ensures
            r.known_extensions.wf(),
            forall|id: Seq<char>| #[trigger]
                r.known_extensions@.contains(id) == (!config::declares(
                    pipeline_extensions.rows(),
                    id,
                ) && (self.contents().group_knows(pipeline_group_id@, id)
                    || self.contents().engine.known_extensions@.contains(id))),
            r.registrations@ == inherited(
                self.contents(),
                pipeline_group_id@,
                *pipeline_extensions,
            ),
    {
        let mut inherited: InheritedExtensionRegistrations<P> =
            InheritedExtensionRegistrations::new();
        let ghost by_pipeline = hidden_by_pipeline(*pipeline_extensions);
        let ghost by_group = hidden_by_group(*pipeline_extensions, self.catalog, pipeline_group_id@);
        let group: Option<&ScopeCatalog<P>> = match self.catalog.group_position(pipeline_group_id) {
            Some(i) => {
                proof {
                    let k = choose|k: int| #[trigger]
                        group_at(self.catalog.groups@, k, pipeline_group_id@);
                    assert(has_group(self.catalog.groups@, pipeline_group_id@));
                    assert(k == i);
                }
                Some(&self.catalog.groups[i].1)
            },
            None => None,
        };
        proof {
            assert forall|id: Seq<char>| #[trigger]
                self.catalog.group_knows(pipeline_group_id@, id) == (group matches Some(g)
                    && g.known_extensions@.contains(id)) by {
                if let Some(g) = group {
                    let k = choose|k: int| #[trigger]
                        group_at(self.catalog.groups@, k, pipeline_group_id@);
                    assert(self.catalog.groups@[k].1 == *g);
                }
            }
        }
        let names: Option<&OrderedSet<String>> = match group {
            Some(g) => {
                add_known(
                    &g.known_extensions,
                    pipeline_extensions,
                    None,
                    &mut inherited.known_extensions,
                );
                add_visible(
                    &g.registrations,
                    pipeline_extensions,
                    None,
                    &mut inherited.registrations,
                    Ghost(by_pipeline),
                );
                Some(&g.known_extensions)
            },
            None => {
                proof {
                    reveal(Seq::filter);
                    assert(visible(
                        Seq::<SharedExtensionRegistration<P>>::empty(),
                        by_pipeline,
                    ) =~= Seq::<SharedExtensionRegistration<P>>::empty());
                }
                None
            },
        };
        assert(inherited.registrations@ =~= visible(
            self.catalog.group_registrations(pipeline_group_id@),
            by_pipeline,
        ));
        add_known(
            &self.catalog.engine.known_extensions,
            pipeline_extensions,
            names,
            &mut inherited.known_extensions,
        );
        proof {
            assert forall|id: Seq<char>| #[trigger]
                by_group(id) == (config::declares(pipeline_extensions.rows(), id) || (
                names matches Some(g) && g@.contains(id))) by {}
        }
        add_visible(
            &self.catalog.engine.registrations,
            pipeline_extensions,
            names,
            &mut inherited.registrations,
            Ghost(by_group),
        );
        inherited
    }
}

proof fn lemma_with_each_untouched<T>(
    m: Map<(Seq<char>, u64), providers::RegistryEntry<T>>,
    ids: Seq<Seq<char>>,
    outcomes: Seq<Seq<CapabilityRegistration<T>>>,
    other: (Seq<char>, u64),
)
    requires
        ids.len() == outcomes.len(),
        forall|j: int| 0 <= j < ids.len() ==> #[trigger] ids[j] != other.0,
    ensures
        with_each(m, ids, outcomes).contains_key(other) == m.contains_key(other),
        m.contains_key(other) ==> with_each(m, ids, outcomes)[other] == m[other],
    decreases ids.len(),
{
    if ids.len() > 0 {
        let front = ids.drop_last();
        assert(ids[ids.len() - 1] == ids.last());
        assert(forall|j: int| 0 <= j < front.len() ==> #[trigger] front[j] == ids[j]);
        lemma_with_each_untouched(m, front, outcomes.drop_last(), other);
        providers::lemma_untouched(
            with_each(m, front, outcomes.drop_last()),
            ids.last(),
            outcomes.last(),
            other,
        );
    }
}

/// Every extension that is inherited has its registrations entered under its own name; entries
/// of extensions that are not inherited stay as they were.
pub proof fn inherited_registrations_are_entered<T>(
    m: Map<(Seq<char>, u64), providers::RegistryEntry<T>>,
    ids: Seq<Seq<char>>,
    outcomes: Seq<Seq<CapabilityRegistration<T>>>,
    i: int,
    r: int,
    other: (Seq<char>, u64),
)
    requires
        ids.len() == outcomes.len(),
        0 <= i < ids.len(),
        forall|j: int| i < j < ids.len() ==> #[trigger] ids[j] != ids[i],
        0 <= r < outcomes[i].len(),
        forall|q: int|
            r < q < outcomes[i].len() ==> (#[trigger] outcomes[i][q]).trait_id
                != outcomes[i][r].trait_id,
        forall|j: int| 0 <= j < ids.len() ==> #[trigger] ids[j] != other.0,
    ensures
        ({
            let after = with_each(m, ids, outcomes);
            let k = (ids[i], outcomes[i][r].trait_id);
            &&& after.contains_key(k)
            &&& after[k].value == outcomes[i][r].value
            &&& after[k].capability_name == outcomes[i][r].capability_name
            &&& after.contains_key(other) == m.contains_key(other)
            &&& m.contains_key(other) ==> after[other] == m[other]
        }),
    decreases ids.len(),
{
    lemma_with_each_untouched(m, ids, outcomes, other);
    let front = ids.drop_last();
    let before = with_each(m, front, outcomes.drop_last());
    let k = (ids[i], outcomes[i][r].trait_id);
    assert(ids[ids.len() - 1] == ids.last());
    if i == ids.len() - 1 {
        assert(ids[i] != other.0);
        providers::last_registration_is_found(before, ids.last(), outcomes.last(), r, other);
    } else {
        assert(ids[ids.len() - 1] != ids[i]);
        assert(forall|j: int| 0 <= j < front.len() ==> #[trigger] front[j] == ids[j]);
        assert(outcomes.drop_last()[i] == outcomes[i]);
        inherited_registrations_are_entered(m, front, outcomes.drop_last(), i, r, other);
        providers::lemma_untouched(before, ids.last(), outcomes.last(), k);
    }
}

/// A pipeline sees the extensions of its own group and of the engine, and of no other group: a
/// registration is inherited exactly if the pipeline declares no extension of that name, and it
/// is one of the group's, or one of the engine's that the group does not declare.
pub proof fn pipelines_see_their_own_group<P>(
    catalog: HierarchicalExtensionCatalog<P>,
    g: int,
    pipeline: PipelineExtensions,
    registration: SharedExtensionRegistration<P>,
)
    requires
        catalog.wf(),
        0 <= g < catalog.groups@.len(),
    ensures
        inherited(catalog, catalog.groups@[g].0@, pipeline).contains(registration) <==> {
            let id = registration.extension_id@;
            let group = catalog.groups@[g].1;
            &&& forall|i: int| 0 <= i < pipeline.rows().len() ==> (#[trigger] pipeline.rows()[i]).0@
                != id
            &&& group.registrations@.contains(registration) || (
            catalog.engine.registrations@.contains(registration)
                && !group.known_extensions@.contains(id))
        },
{
    let name = catalog.groups@[g].0@;
    let id = registration.extension_id@;
    nearest_declaration_wins(catalog, name, pipeline, registration);
    assert(group_at(catalog.groups@, g, name));
    let k = choose|k: int| #[trigger] group_at(catalog.groups@, k, name);
    assert(catalog.groups@[k].0@ == catalog.groups@[g].0@);
    assert(k == g);
    assert(catalog.group_knows(name, id) == catalog.groups@[g].1.known_extensions@.contains(id)) by {
        if catalog.group_knows(name, id) {
            let j = choose|j: int| #[trigger]
                group_at(catalog.groups@, j, name)
                    && catalog.groups@[j].1.known_extensions@.contains(id);
            assert(catalog.groups@[j].0@ == catalog.groups@[g].0@);
            assert(j == g);
        }
    }
    lemma_declared(pipeline, id);
}

/// A pipeline of a group without extensions sees those of the engine alone.
pub proof fn pipelines_without_a_group_see_the_engine<P>(
    catalog: HierarchicalExtensionCatalog<P>,
    group: Seq<char>,
    pipeline: PipelineExtensions,
    registration: SharedExtensionRegistration<P>,
)
    requires
        forall|g: int| 0 <= g < catalog.groups@.len() ==> (#[trigger] catalog.groups@[g]).0@ != group,
    ensures
        inherited(catalog, group, pipeline).contains(registration) <==> {
            &&& forall|i: int|
                0 <= i < pipeline.rows().len() ==> (#[trigger] pipeline.rows()[i]).0@
                    != registration.extension_id@
            &&& catalog.engine.registrations@.contains(registration)
        },
{
    nearest_declaration_wins(catalog, group, pipeline, registration);
    assert forall|g: int| !#[trigger] group_at(catalog.groups@, g, group) by {}
    lemma_declared(pipeline, registration.extension_id@);
}

proof fn lemma_declared(pipeline: PipelineExtensions, id: Seq<char>)
    ensures
        config::declares(pipeline.rows(), id) == !(forall|i: int|
            0 <= i < pipeline.rows().len() ==> (#[trigger] pipeline.rows()[i]).0@ != id),
{
    if config::declares(pipeline.rows(), id) {
        let i = choose|i: int| #[trigger] config::declares_at(pipeline.rows(), i, id);
        assert(pipeline.rows()[i].0@ == id);
    }
    if exists|i: int| 0 <= i < pipeline.rows().len() && (#[trigger] pipeline.rows()[i]).0@ == id {
        let i = choose|i: int|
            0 <= i < pipeline.rows().len() && (#[trigger] pipeline.rows()[i]).0@ == id;
        assert(config::declares_at(pipeline.rows(), i, id));
    }
}

} // verus!
