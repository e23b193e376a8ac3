//! Preparing the extensions of the engine and of the pipeline groups.

use std::sync::Arc;
use vstd::prelude::*;
use vstd::string::*;

use super::hierarchy::{
    HierarchicalExtensionCatalog, HierarchyError, ScopeCatalog, SharedExtensionRegistration,
};
use crate::config::extension as config;
use crate::config::extension::{ExtensionUserConfig, PipelineExtensions};
use crate::handles;
use crate::order;
use crate::order::OrderedSet;
use crate::text;

verus! {

/// The capabilities that the variants of an extension provide, by name.
#[derive(Debug)]
pub struct ExtensionCapabilities {
    pub shared: Vec<&'static str>,
    pub local: Vec<&'static str>,
}

/// What creates the instances of a plugin.
pub trait CreateExtension<P>: Sized {
    /// Creates an extension whose control channel holds so many messages, and keeps its shared
    /// variant, if it has one.
    fn create(
        &self,
        extension_id: &String,
        config: &ExtensionUserConfig,
        control_capacity: usize,
    ) -> Result<Option<Arc<P>>, String>;
}

/// How much is measured at run time, from nothing upwards.
#[derive(Debug, Clone, Copy, PartialEq, Eq, Structural)]
pub enum MetricLevel {
    Off,
    Basic,
    Normal,
    Detailed,
}

/// The policies of a scope.
#[derive(Debug, Clone, Copy, PartialEq, Eq, Structural)]
pub struct ScopePolicies {
    /// How many messages a control channel holds.
    pub control_capacity: usize,
    pub runtime_metrics: MetricLevel,
}

impl ScopePolicies {
    /// The control channels are measured from the basic level on.
    pub open spec fn measures_channels(self) -> bool {
        !(self.runtime_metrics is Off)
    }

    /// Whether the control channels are measured.
    pub fn channel_metrics_enabled(&self) -> (r: bool)
        ensures
            r == self.measures_channels(),
    {
        match self.runtime_metrics {
            MetricLevel::Off => false,
            _ => true,
        }
    }
}

/// A plugin: its name, the capabilities it provides, and what creates its instances.
#[derive(Debug)]
pub struct ExtensionFactory<C> {
    pub name: String,
    pub capabilities: Option<ExtensionCapabilities>,
    pub creator: C,
}

/// The plugins that there are.
#[derive(Debug)]
pub struct PipelineFactory<C> {
    pub extension_factories: Vec<ExtensionFactory<C>>,
}

/// An extension that can be started.
#[derive(Debug)]
pub struct PreparedExtension<P> {
    pub extension_id: String,
    pub instance: Arc<P>,
    /// Whether its control channel is measured.
    pub channel_metrics: bool,
}

/// The factory at position `f` is the first of that name.
pub open spec fn factory_at<C>(
    factories: Seq<ExtensionFactory<C>>,
    f: int,
    urn: Seq<char>,
) -> bool {
    &&& 0 <= f < factories.len()
    &&& factories[f].name@ == urn
    &&& forall|g: int| 0 <= g < f ==> (#[trigger] factories[g]).name@ != urn
}

/// Whether a plugin names its capabilities and none of them is shared.
pub open spec fn lacks_shared<C>(factory: ExtensionFactory<C>) -> bool {
    factory.capabilities matches Some(c) && c.shared@.len() == 0
}

/// Creating the extension can end like that.
pub open spec fn creates<P, C: CreateExtension<P>>(
    factory: ExtensionFactory<C>,
    policies: ScopePolicies,
    row: (String, ExtensionUserConfig),
    outcome: Result<Option<Arc<P>>, String>,
) -> bool {
    call_ensures(
        C::create,
        (&factory.creator, &row.0, &row.1, policies.control_capacity),
        outcome,
    )
}

/// The declaration gives that instance with the factory at position `f`.
pub open spec fn accepted_by<P, C: CreateExtension<P>>(
    factories: Seq<ExtensionFactory<C>>,
    policies: ScopePolicies,
    row: (String, ExtensionUserConfig),
    instance: Arc<P>,
    f: int,
) -> bool {
    &&& factory_at(factories, f, row.1.urn@)
    &&& !lacks_shared(factories[f])
    &&& creates::<P, C>(factories[f], policies, row, Ok(Some(instance)))
}

/// The declaration gives that instance.
pub open spec fn accepted<P, C: CreateExtension<P>>(
    factories: Seq<ExtensionFactory<C>>,
    policies: ScopePolicies,
    row: (String, ExtensionUserConfig),
    instance: Arc<P>,
) -> bool {
    exists|f: int| #[trigger] accepted_by::<P, C>(factories, policies, row, instance, f)
}

/// The declaration is refused with that error although there is a plugin for it.
pub open spec fn refused_by<P, C: CreateExtension<P>>(
    factories: Seq<ExtensionFactory<C>>,
    policies: ScopePolicies,
    row: (String, ExtensionUserConfig),
    scope: Seq<char>,
    e: HierarchyError,
    f: int,
) -> bool {
    &&& factory_at(factories, f, row.1.urn@)
    &&& match e {
        HierarchyError::HierarchicalExtensionRequiresShared { extension, scope: named } => {
            &&& extension@ == row.0@
            &&& named@ == scope
            &&& lacks_shared(factories[f]) || creates::<P, C>(factories[f], policies, row, Ok(None))
        },
        HierarchyError::ConfigError(message) => {
            &&& !lacks_shared(factories[f])
            &&& creates::<P, C>(factories[f], policies, row, Err(message))
        },
        _ => false,
    }
}

/// The declaration is refused with that error.
pub open spec fn refused<P, C: CreateExtension<P>>(
    factories: Seq<ExtensionFactory<C>>,
    policies: ScopePolicies,
    row: (String, ExtensionUserConfig),
    scope: Seq<char>,
    e: HierarchyError,
) -> bool {
    match e {
        HierarchyError::UnknownExtension { plugin_urn } => {
            &&& plugin_urn@ == row.1.urn@
            &&& forall|f: int|
                0 <= f < factories.len() ==> (#[trigger] factories[f]).name@ != row.1.urn@
        },
        _ => exists|f: int| #[trigger] refused_by::<P, C>(factories, policies, row, scope, e, f),
    }
}

/// The extension of that name is declared and gives that instance.
pub open spec fn prepared_as<P, C: CreateExtension<P>>(
    factories: Seq<ExtensionFactory<C>>,
    policies: ScopePolicies,
    rows: Seq<(String, ExtensionUserConfig)>,
    id: Seq<char>,
    instance: Arc<P>,
) -> bool {
    exists|i: int| #[trigger]
        config::declares_at(rows, i, id) && accepted::<P, C>(factories, policies, rows[i], instance)
}

/// The extension of that name is declared and gives an instance.
pub open spec fn preparable<P, C: CreateExtension<P>>(
    factories: Seq<ExtensionFactory<C>>,
    policies: ScopePolicies,
    rows: Seq<(String, ExtensionUserConfig)>,
    id: Seq<char>,
) -> bool {
    exists|instance: Arc<P>| #[trigger] prepared_as::<P, C>(factories, policies, rows, id, instance)
}

/// The extension's plugin, at position `f`, provides capabilities.
pub open spec fn provides_by<C>(
    factories: Seq<ExtensionFactory<C>>,
    rows: Seq<(String, ExtensionUserConfig)>,
    id: Seq<char>,
    i: int,
    f: int,
) -> bool {
    config::declares_at(rows, i, id) && factory_at(factories, f, rows[i].1.urn@)
        && factories[f].capabilities is Some
}

/// The extension's plugin provides capabilities.
pub open spec fn provides<C>(
    factories: Seq<ExtensionFactory<C>>,
    rows: Seq<(String, ExtensionUserConfig)>,
    id: Seq<char>,
) -> bool {
    exists|i: int, f: int| #[trigger] provides_by(factories, rows, id, i, f)
}

/// The registrations of those extensions that provide capabilities, in order.
pub open spec fn registrations_of<P, C>(
    factories: Seq<ExtensionFactory<C>>,
    rows: Seq<(String, ExtensionUserConfig)>,
    extensions: Seq<PreparedExtension<P>>,
) -> Seq<SharedExtensionRegistration<P>>
    decreases extensions.len(),
{
    if extensions.len() == 0 {
        Seq::empty()
    } else {
        let rest = registrations_of(factories, rows, extensions.drop_last());
        let last = extensions.last();
        if provides(factories, rows, last.extension_id@) {
            rest.push(
                SharedExtensionRegistration {
                    extension_id: last.extension_id,
                    provider: last.instance,
                },
            )
        } else {
            rest
        }
    }
}

/// Every declared extension is prepared, in the order of the names.
pub open spec fn scope_prepared<P, C: CreateExtension<P>>(
    factories: Seq<ExtensionFactory<C>>,
    policies: ScopePolicies,
    rows: Seq<(String, ExtensionUserConfig)>,
    extensions: Seq<PreparedExtension<P>>,
    catalog: ScopeCatalog<P>,
) -> bool {
    &&& catalog.known_extensions.wf()
    &&& order::lists::<String>(
        catalog.known_extensions@,
        |id: Seq<char>| config::declares(rows, id),
    )
    &&& extensions.len() == catalog.known_extensions@.len()
    &&& forall|k: int|
        0 <= k < extensions.len() ==> (#[trigger] extensions[k]).extension_id@
            == catalog.known_extensions@[k] && extensions[k].channel_metrics
            == policies.measures_channels() && prepared_as::<P, C>(
            factories,
            policies,
            rows,
            extensions[k].extension_id@,
            extensions[k].instance,
        )
    &&& catalog.registrations@ == registrations_of(factories, rows, extensions)
}

/// The declaration of the extension is refused with that error.
pub open spec fn refused_as<P, C: CreateExtension<P>>(
    factories: Seq<ExtensionFactory<C>>,
    policies: ScopePolicies,
    rows: Seq<(String, ExtensionUserConfig)>,
    id: Seq<char>,
    scope: Seq<char>,
    e: HierarchyError,
) -> bool {
    exists|i: int| #[trigger]
        config::declares_at(rows, i, id) && refused::<P, C>(factories, policies, rows[i], scope, e)
}

/// `ids` are the declared extensions in order; those before position `k` give instances, and
/// the one at position `k` is refused with that error.
pub open spec fn stops_at<P, C: CreateExtension<P>>(
    factories: Seq<ExtensionFactory<C>>,
    policies: ScopePolicies,
    rows: Seq<(String, ExtensionUserConfig)>,
    scope: Seq<char>,
    e: HierarchyError,
    ids: Seq<Seq<char>>,
    k: int,
) -> bool {
    &&& order::lists::<String>(ids, |id: Seq<char>| config::declares(rows, id))
    &&& 0 <= k < ids.len()
    &&& forall|j: int|
        0 <= j < k ==> preparable::<P, C>(factories, policies, rows, #[trigger] ids[j])
    &&& refused_as::<P, C>(factories, policies, rows, ids[k], scope, e)
}

/// In the order of the names, the first declaration that is refused is refused with that
/// error.
pub open spec fn scope_refused<P, C: CreateExtension<P>>(
    factories: Seq<ExtensionFactory<C>>,
    policies: ScopePolicies,
    rows: Seq<(String, ExtensionUserConfig)>,
    scope: Seq<char>,
    e: HierarchyError,
) -> bool {
    exists|ids: Seq<Seq<char>>, k: int| #[trigger]
        stops_at::<P, C>(factories, policies, rows, scope, e, ids, k)
}

/// The extensions that a scope declares, by name in order.
fn declared_names(extensions: &PipelineExtensions) -> (r: OrderedSet<String>)
    ensures
        r.wf(),
        order::lists::<String>(r@, |id: Seq<char>| config::declares(extensions.rows(), id)),
{
    let ghost rows = extensions.rows();
    let mut ids: Vec<String> = Vec::new();
    let mut i: usize = 0;
    while i < extensions.len()
        invariant
            rows == extensions.rows(),
            i <= rows.len(),
            ids@.len() == i,
            forall|j: int| 0 <= j < i ==> (#[trigger] ids@[j])@ == rows[j].0@,
        decreases rows.len() - i,
    {
        ids.push(extensions.at(i).0.clone());
        i = i + 1;
    }
    let ghost names = order::views(ids@);
    let r: OrderedSet<String> = OrderedSet::from_vec(ids);
    proof {
        assert forall|id: Seq<char>| #[trigger] r@.contains(id) == config::declares(rows, id) by {
            if names.contains(id) {
                let j = names.index_of(id);
                assert(ids@[j]@ == id);
                assert(config::declares_at(rows, j, id));
            }
            if config::declares(rows, id) {
                let j = choose|j: int| #[trigger] config::declares_at(rows, j, id);
                assert(ids@[j]@ == id);
                assert(names[j] == id);
            }
        }
    }
    r
}

impl<C> PipelineFactory<C> {
    /// The position of the plugin of that name.
    pub fn extension_factory(&self, urn: &str) -> (r: Option<usize>)
        ensures
            match r {
                Some(f) => factory_at(self.extension_factories@, f as int, urn@),
                None => forall|f: int|
                    0 <= f < self.extension_factories@.len() ==> (
                    #[trigger] self.extension_factories@[f]).name@ != urn@,
            },
    {
        let mut f: usize = 0;
        while f < self.extension_factories.len()
            invariant
                f <= self.extension_factories@.len(),
                forall|g: int|
                    0 <= g < f ==> (#[trigger] self.extension_factories@[g]).name@ != urn@,
            decreases self.extension_factories@.len() - f,
        {
            if order::str_same(self.extension_factories[f].name.as_str(), urn) {
                return Some(f);
            }
            f = f + 1;
        }
        None
    }

    /// Creates the declared extension and says whether it provides capabilities.
    fn prepare_extension<P>(
        &self,
        scope_name: &str,
        row: &(String, ExtensionUserConfig),
        policies: &ScopePolicies,
    ) -> (r: Result<(Arc<P>, bool), HierarchyError>) where C: CreateExtension<P>
        requires
            forall|f: int|
                0 <= f < self.extension_factories@.len() ==> call_requires(
                    C::create,
                    (
                        &(#[trigger] self.extension_factories@[f]).creator,
                        &row.0,
                        &row.1,
                        policies.control_capacity,
                    ),
                ),
        ensures
            match r {
                Ok((instance, provides)) => accepted::<P, C>(
                    self.extension_factories@,
                    *policies,
                    *row,
                    instance,
                ) && exists|f: int| #[trigger]
                    factory_at(self.extension_factories@, f, row.1.urn@) && provides == (
                    self.extension_factories@[f].capabilities is Some),
                Err(e) => refused::<P, C>(self.extension_factories@, *policies, *row, scope_name@, e),
            },
    {
        let f: usize = match self.extension_factory(row.1.urn.as_str()) {
            Some(f) => f,
            None => {
                return Err(HierarchyError::UnknownExtension { plugin_urn: row.1.urn.clone() });
            },
        };
        let factory: &ExtensionFactory<C> = &self.extension_factories[f];
        let (provides, without_shared): (bool, bool) = match &factory.capabilities {
            Some(c) => (true, c.shared.len() == 0),
            None => (false, false),
        };
        if without_shared {
            let e: HierarchyError = HierarchyError::HierarchicalExtensionRequiresShared {
                extension: row.0.clone(),
                scope: String::from_str(scope_name),
            };
            assert(refused_by::<P, C>(
                self.extension_factories@,
                *policies,
                *row,
                scope_name@,
                e,
                f as int,
            ));
            return Err(e);
        }
        match factory.creator.create(&row.0, &row.1, policies.control_capacity) {
            Ok(Some(instance)) => {
                assert(accepted_by::<P, C>(
                    self.extension_factories@,
                    *policies,
                    *row,
                    instance,
                    f as int,
                ));
                Ok((instance, provides))
            },
            Ok(None) => {
                let e: HierarchyError = HierarchyError::HierarchicalExtensionRequiresShared {
                    extension: row.0.clone(),
                    scope: String::from_str(scope_name),
                };
                assert(refused_by::<P, C>(
                    self.extension_factories@,
                    *policies,
                    *row,
                    scope_name@,
                    e,
                    f as int,
                ));
                Err(e)
            },
            Err(message) => {
                let e: HierarchyError = HierarchyError::ConfigError(message);
                assert(refused_by::<P, C>(
                    self.extension_factories@,
                    *policies,
                    *row,
                    scope_name@,
                    e,
                    f as int,
                ));
                Err(e)
            },
        }
    }

    /// The plugins can be asked to create each declared extension.
    pub open spec fn can_create<P>(
        &self,
        rows: Seq<(String, ExtensionUserConfig)>,
        policies: ScopePolicies,
    ) -> bool where
        C: CreateExtension<P>,
     {
        forall|f: int, i: int|
            0 <= f < self.extension_factories@.len() && 0 <= i < rows.len() ==> call_requires(
                C::create,
                (
                    &(#[trigger] self.extension_factories@[f]).creator,
                    &(#[trigger] rows[i]).0,
                    &rows[i].1,
                    policies.control_capacity,
                ),
            )
    }

    /// Prepares the extensions of one scope in the order of their names.
    ///
    /// The first that has no plugin, no shared variant or a refused configuration ends it.
    pub fn prepare_extension_scope<P>(
        &self,
        scope_name: &str,
        extensions: &PipelineExtensions,
        policies: &ScopePolicies,
    ) -> (r: Result<(Vec<PreparedExtension<P>>, ScopeCatalog<P>), HierarchyError>) where
        C: CreateExtension<P>,

        requires
            extensions.wf(),
            self.can_create::<P>(extensions.rows(), *policies),
        ensures
            match r {
                Ok((prepared, catalog)) => scope_prepared::<P, C>(
                    self.extension_factories@,
                    *policies,
                    extensions.rows(),
                    prepared@,
                    catalog,
                ),
                Err(e) => scope_refused::<P, C>(
                    self.extension_factories@,
                    *policies,
                    extensions.rows(),
                    scope_name@,
                    e,
                ),
            },
    {
        let ghost rows = extensions.rows();
        let ghost factories = self.extension_factories@;
        let known: OrderedSet<String> = declared_names(extensions);
        let mut prepared: Vec<PreparedExtension<P>> = Vec::new();
        let mut registrations: Vec<SharedExtensionRegistration<P>> = Vec::new();
        let mut k: usize = 0;
        while k < known.len()
            invariant
                rows == extensions.rows(),
                factories == self.extension_factories@,
                extensions.wf(),
                self.can_create::<P>(rows, *policies),
                order::lists::<String>(known@, |id: Seq<char>| config::declares(rows, id)),
                k <= known@.len(),
                prepared@.len() == k,
                forall|j: int|
                    0 <= j < k ==> (#[trigger] prepared@[j]).extension_id@ == known@[j]
                        && prepared@[j].channel_metrics == policies.measures_channels()
                        && prepared_as::<P, C>(
                        factories,
                        *policies,
                        rows,
                        prepared@[j].extension_id@,
                        prepared@[j].instance,
                    ),
                registrations@ == registrations_of(factories, rows, prepared@),
            decreases known@.len() - k,
        {
            let id: &String = known.at(k);
            proof {
                assert(known@.contains(known@[k as int]));
            }
            let i: usize = match extensions.position(id.as_str()) {
                Some(i) => i,
                None => vstd::pervasive::unreached(),
            };
            let row: &(String, ExtensionUserConfig) = extensions.at(i);
            match self.prepare_extension::<P>(scope_name, row, policies) {
                Ok((instance, provides)) => {
                    let ghost before = prepared@;
                    let extension_id: String = row.0.clone();
                    if provides {
                        registrations.push(
                            SharedExtensionRegistration {
                                extension_id: row.0.clone(),
                                provider: handles::share_arc(&instance),
                            },
                        );
                    }
                    prepared.push(
                        PreparedExtension {
                            extension_id,
                            instance,
                            channel_metrics: policies.channel_metrics_enabled(),
                        },
                    );
                    proof {
                        assert(prepared@.drop_last() =~= before);
                        assert(config::declares_at(rows, i as int, id@));
                        assert(prepared_as::<P, C>(factories, *policies, rows, id@, instance));
                        let f = choose|f: int| #[trigger]
                            factory_at(factories, f, row.1.urn@) && provides == (
                            factories[f].capabilities is Some);
                        if provides {
                            assert(provides_by(factories, rows, id@, i as int, f));
                        } else {
                            assert forall|i2: int, f2: int| !#[trigger]
                                provides_by(factories, rows, id@, i2, f2) by {
                                if provides_by(factories, rows, id@, i2, f2) {
                                    assert(rows[i2].0@ == rows[i as int].0@);
                                    assert(i2 == i);
                                    assert(f2 == f);
                                }
                            }
                        }
                    }
                },
                Err(e) => {
                    proof {
                        assert(config::declares_at(rows, i as int, id@));
                        assert(refused_as::<P, C>(factories, *policies, rows, id@, scope_name@, e));
                        assert forall|j: int| 0 <= j < k implies preparable::<P, C>(
                            factories,
                            *policies,
                            rows,
                            #[trigger] known@[j],
                        ) by {
                            assert(prepared_as::<P, C>(
                                factories,
                                *policies,
                                rows,
                                prepared@[j].extension_id@,
                                prepared@[j].instance,
                            ));
                        }
                        assert(stops_at::<P, C>(
                            factories,
                            *policies,
                            rows,
                            scope_name@,
                            e,
                            known@,
                            k as int,
                        ));
                    }
                    return Err(e);
                },
            }
            k = k + 1;
        }
        Ok((prepared, ScopeCatalog { known_extensions: known, registrations }))
    }
}

/// What a pipeline group declares.
#[derive(Debug)]
pub struct GroupDeclaration {
    pub id: String,
    pub extensions: PipelineExtensions,
    /// The policies of the group, if it has some of its own.
    pub policies: Option<ScopePolicies>,
}

impl GroupDeclaration {
    /// The policies that hold in the group: its own, or those of the engine.
    pub open spec fn policies_in(self, engine: ScopePolicies) -> ScopePolicies {
        match self.policies {
            Some(policies) => policies,
            None => engine,
        }
    }
}

/// What the engine and each pipeline group declare.
#[derive(Debug)]
pub struct HierarchyDeclarations {
    pub policies: ScopePolicies,
    pub extensions: PipelineExtensions,
    pub groups: Vec<GroupDeclaration>,
}

impl HierarchyDeclarations {
    /// No group and no extension of a scope is declared twice.
    pub open spec fn wf(&self) -> bool {
        &&& self.extensions.wf()
        &&& forall|g: int| 0 <= g < self.groups@.len() ==> (#[trigger] self.groups@[g]).extensions.wf()
        &&& forall|g: int, h: int|
            0 <= g < h < self.groups@.len() ==> (#[trigger] self.groups@[g]).id@ != (
            #[trigger] self.groups@[h]).id@
    }
}

/// The entry at position `g` declares the group.
pub open spec fn group_declared_at(
    groups: Seq<GroupDeclaration>,
    g: int,
    id: Seq<char>,
) -> bool {
    0 <= g < groups.len() && groups[g].id@ == id
}

/// Some entry declares the group.
pub open spec fn group_declared(groups: Seq<GroupDeclaration>, id: Seq<char>) -> bool {
    exists|g: int| #[trigger] group_declared_at(groups, g, id)
}

/// The group declares extensions.
pub open spec fn group_in_use(groups: Seq<GroupDeclaration>, id: Seq<char>) -> bool {
    exists|g: int| #[trigger] group_declared_at(groups, g, id) && groups[g].extensions.rows().len() > 0
}

/// How errors name the scope of a group.
pub open spec fn group_scope_name(id: Seq<char>) -> Seq<char> {
    "pipeline group `"@ + id + "`"@
}

/// Every extension of the group is prepared.
pub open spec fn group_prepared<P, C: CreateExtension<P>>(
    factories: Seq<ExtensionFactory<C>>,
    engine: ScopePolicies,
    groups: Seq<GroupDeclaration>,
    id: Seq<char>,
    extensions: Seq<PreparedExtension<P>>,
    catalog: ScopeCatalog<P>,
) -> bool {
    exists|g: int| #[trigger]
        group_declared_at(groups, g, id) && scope_prepared::<P, C>(
            factories,
            groups[g].policies_in(engine),
            groups[g].extensions.rows(),
            extensions,
            catalog,
        )
}

/// Every extension of the group can be prepared.
pub open spec fn group_preparable<P, C: CreateExtension<P>>(
    factories: Seq<ExtensionFactory<C>>,
    engine: ScopePolicies,
    groups: Seq<GroupDeclaration>,
    id: Seq<char>,
) -> bool {
    exists|extensions: Seq<PreparedExtension<P>>, catalog: ScopeCatalog<P>| #[trigger]
        group_prepared::<P, C>(factories, engine, groups, id, extensions, catalog)
}

/// An extension of the group is refused.
pub open spec fn group_refused<P, C: CreateExtension<P>>(
    factories: Seq<ExtensionFactory<C>>,
    engine: ScopePolicies,
    groups: Seq<GroupDeclaration>,
    id: Seq<char>,
    e: HierarchyError,
) -> bool {
    exists|g: int| #[trigger]
        group_declared_at(groups, g, id) && scope_refused::<P, C>(
            factories,
            groups[g].policies_in(engine),
            groups[g].extensions.rows(),
            group_scope_name(id),
            e,
        )
}

/// The names of the groups that have a catalog.
pub open spec fn catalog_names<P>(entries: Seq<(String, ScopeCatalog<P>)>) -> Seq<Seq<char>> {
    Seq::new(entries.len(), |i: int| entries[i].0@)
}

/// `ids` are the groups in order; those before position `k` can be prepared, and the one at
/// position `k` is refused with that error.
pub open spec fn groups_stop_at<P, C: CreateExtension<P>>(
    factories: Seq<ExtensionFactory<C>>,
    engine: ScopePolicies,
    groups: Seq<GroupDeclaration>,
    e: HierarchyError,
    ids: Seq<Seq<char>>,
    k: int,
) -> bool {
    &&& order::lists::<String>(ids, |id: Seq<char>| group_declared(groups, id))
    &&& 0 <= k < ids.len()
    &&& forall|j: int|
        0 <= j < k ==> group_preparable::<P, C>(factories, engine, groups, #[trigger] ids[j])
    &&& group_refused::<P, C>(factories, engine, groups, ids[k], e)
}

/// The prepared scopes: that of the engine and those of the groups that declare extensions,
/// each with its catalog.
#[derive(Debug)]
pub struct PreparedHierarchicalExtensionHost<P> {
    pub engine_scope: Option<Vec<PreparedExtension<P>>>,
    pub group_scopes: Vec<Vec<PreparedExtension<P>>>,
    pub catalog: HierarchicalExtensionCatalog<P>,
}

impl<P> PreparedHierarchicalExtensionHost<P> {
    /// The extensions of the engine.
    pub open spec fn engine_extensions(&self) -> Seq<PreparedExtension<P>> {
        match self.engine_scope {
            Some(extensions) => extensions@,
            None => Seq::empty(),
        }
    }
}

/// The groups by name in order.
fn declared_groups(groups: &Vec<GroupDeclaration>) -> (r: OrderedSet<String>)
    ensures
        r.wf(),
        order::lists::<String>(r@, |id: Seq<char>| group_declared(groups@, id)),
{
    let mut ids: Vec<String> = Vec::new();
    let mut i: usize = 0;
    while i < groups.len()
        invariant
            i <= groups@.len(),
            ids@.len() == i,
            forall|j: int| 0 <= j < i ==> (#[trigger] ids@[j])@ == groups@[j].id@,
        decreases groups@.len() - i,
    {
        ids.push(groups[i].id.clone());
        i = i + 1;
    }
    let ghost names = order::views(ids@);
    let r: OrderedSet<String> = OrderedSet::from_vec(ids);
    proof {
        assert forall|id: Seq<char>| #[trigger] r@.contains(id) == group_declared(
            groups@,
            id,
        ) by {
            if names.contains(id) {
                let j = names.index_of(id);
                assert(ids@[j]@ == id);
                assert(group_declared_at(groups@, j, id));
            }
            if group_declared(groups@, id) {
                let j = choose|j: int| #[trigger] group_declared_at(groups@, j, id);
                assert(ids@[j]@ == id);
                assert(names[j] == id);
            }
        }
    }
    r
}

/// The position of the group's declaration.
fn group_position(groups: &Vec<GroupDeclaration>, id: &str) -> (r: Option<usize>)
    ensures
        match r {
            Some(g) => group_declared_at(groups@, g as int, id@),
            None => !group_declared(groups@, id@),
        },
{
    let mut g: usize = 0;
    while g < groups.len()
        invariant
            g <= groups@.len(),
            forall|h: int| 0 <= h < g ==> !#[trigger] group_declared_at(groups@, h, id@),
        decreases groups@.len() - g,
    {
        if order::str_same(groups[g].id.as_str(), id) {
            return Some(g);
        }
        g = g + 1;
    }
    None
}

impl<C> PipelineFactory<C> {
    /// Prepares the extensions of the engine, then those of each pipeline group in the order
    /// of the groups' names. A group without extensions gets neither a scope nor a catalog.
    pub fn prepare_hierarchical_extensions<P>(&self, config: &HierarchyDeclarations) -> (r: Result<
        PreparedHierarchicalExtensionHost<P>,
        HierarchyError,
    >) where C: CreateExtension<P>
        requires
            config.wf(),
            self.can_create::<P>(config.extensions.rows(), config.policies),
            forall|g: int|
                0 <= g < config.groups@.len() ==> self.can_create::<P>(
                    (#[trigger] config.groups@[g]).extensions.rows(),
                    config.groups@[g].policies_in(config.policies),
                ),
        ensures
            match r {
                Ok(host) => {
                    &&& host.catalog.wf()
                    &&& host.engine_scope is Some ==> host.engine_extensions().len() > 0
                    &&& scope_prepared::<P, C>(
                        self.extension_factories@,
                        config.policies,
                        config.extensions.rows(),
                        host.engine_extensions(),
                        host.catalog.engine,
                    )
                    &&& order::lists::<String>(
                        catalog_names(host.catalog.groups@),
                        |id: Seq<char>| group_in_use(config.groups@, id),
                    )
                    &&& host.group_scopes@.len() == host.catalog.groups@.len()
                    &&& forall|g: int|
                        0 <= g < host.group_scopes@.len() ==> group_prepared::<P, C>(
                            self.extension_factories@,
                            config.policies,
                            config.groups@,
                            (#[trigger] host.catalog.groups@[g]).0@,
                            host.group_scopes@[g]@,
                            host.catalog.groups@[g].1,
                        )
                },
                Err(e) => scope_refused::<P, C>(
                    self.extension_factories@,
                    config.policies,
                    config.extensions.rows(),
                    "engine"@,
                    e,
                ) || ((exists|extensions: Seq<PreparedExtension<P>>, catalog: ScopeCatalog<P>|
                 #[trigger]
                    scope_prepared::<P, C>(
                        self.extension_factories@,
                        config.policies,
                        config.extensions.rows(),
                        extensions,
                        catalog,
                    )) && exists|ids: Seq<Seq<char>>, k: int| #[trigger]
                    groups_stop_at::<P, C>(
                        self.extension_factories@,
                        config.policies,
                        config.groups@,
                        e,
                        ids,
                        k,
                    )),
            },
    {
        let ghost factories = self.extension_factories@;
        let ghost policies = config.policies;
        let ghost groups = config.groups@;
        let (engine_extensions, engine): (Vec<PreparedExtension<P>>, ScopeCatalog<P>) =
            match self.prepare_extension_scope::<P>("engine", &config.extensions, &config.policies) {
                Ok(scope) => scope,
                Err(e) => {
                    return Err(e);
                },
            };
        let ghost engine_prepared = engine_extensions@;
        let ids: OrderedSet<String> = declared_groups(&config.groups);
        let mut scopes: Vec<Vec<PreparedExtension<P>>> = Vec::new();
        let mut entries: Vec<(String, ScopeCatalog<P>)> = Vec::new();
        let mut k: usize = 0;
        while k < ids.len()
            invariant
                factories == self.extension_factories@,
                policies == config.policies,
                groups == config.groups@,
                config.wf(),
                forall|g: int|
                    0 <= g < groups.len() ==> self.can_create::<P>(
                        (#[trigger] groups[g]).extensions.rows(),
                        groups[g].policies_in(policies),
                    ),
                scope_prepared::<P, C>(
                    factories,
                    policies,
                    config.extensions.rows(),
                    engine_prepared,
                    engine,
                ),
                ids.wf(),
                order::lists::<String>(ids@, |id: Seq<char>| group_declared(groups, id)),
                k <= ids@.len(),
                forall|j: int|
                    0 <= j < k ==> group_preparable::<P, C>(
                        factories,
                        policies,
                        groups,
                        #[trigger] ids@[j],
                    ),
                scopes@.len() == entries@.len(),
                forall|g: int|
                    0 <= g < scopes@.len() ==> group_prepared::<P, C>(
                        factories,
                        policies,
                        groups,
                        (#[trigger] entries@[g]).0@,
                        scopes@[g]@,
                        entries@[g].1,
                    ) && entries@[g].1.known_extensions.wf(),
                order::ascending::<String>(catalog_names(entries@)),
                forall|id: Seq<char>| #[trigger]
                    catalog_names(entries@).contains(id) == (ids@.take(k as int).contains(id)
                        && group_in_use(groups, id)),
            decreases ids@.len() - k,
        {
            let id: &String = ids.at(k);
            proof {
                assert(ids@.contains(ids@[k as int]));
            }
            let g: usize = match group_position(&config.groups, id.as_str()) {
                Some(g) => g,
                None => vstd::pervasive::unreached(),
            };
            let scope_name: String = text::joined3("pipeline group `", id.as_str(), "`");
            let group: &GroupDeclaration = &config.groups[g];
            let own: ScopePolicies = match group.policies {
                Some(policies) => policies,
                None => config.policies,
            };
            match self.prepare_extension_scope::<P>(scope_name.as_str(), &group.extensions, &own) {
                Ok((extensions, catalog)) => {
                    let ghost name = id@;
                    let ghost rows = groups[g as int].extensions.rows();
                    let ghost before = entries@;
                    proof {
                        assert(group_declared_at(groups, g as int, name));
                        assert(group_prepared::<P, C>(
                            factories,
                            policies,
                            groups,
                            name,
                            extensions@,
                            catalog,
                        ));
                        assert(group_preparable::<P, C>(factories, policies, groups, ids@[k as int]));
                        lemma_in_use(rows, catalog.known_extensions@);
                        assert(group_in_use(groups, name) == (rows.len() > 0)) by {
                            if group_in_use(groups, name) {
                                let h = choose|h: int| #[trigger]
                                    group_declared_at(groups, h, name)
                                        && groups[h].extensions.rows().len() > 0;
                                assert(groups[h].id@ == groups[g as int].id@);
                                assert(h == g);
                            }
                        }
                    }
                    if catalog.known_extensions.len() > 0 {
                        scopes.push(extensions);
                        entries.push((id.clone(), catalog));
                    }
                    proof {
                        let next = ids@.take(k + 1);
                        let prev = ids@.take(k as int);
                        assert(next =~= prev.push(name));
                        let old_names = catalog_names(before);
                        let names = catalog_names(entries@);
                        if rows.len() > 0 {
                            assert(names =~= old_names.push(name));
                            assert forall|a: int, b: int| 0 <= a < b < names.len() implies
                                <String as order::OrderedKey>::before(
                                #[trigger] names[a],
                                #[trigger] names[b],
                            ) by {
                                if b < old_names.len() {
                                    assert(old_names[a] == names[a]);
                                    assert(old_names[b] == names[b]);
                                } else {
                                    assert(old_names.contains(old_names[a]));
                                    let j = prev.index_of(names[a]);
                                    assert(ids@[j] == names[a]);
                                    assert(ids@[k as int] == name);
                                }
                            }
                        }
                        assert forall|x: Seq<char>| #[trigger] names.contains(x) == (next.contains(
                            x,
                        ) && group_in_use(groups, x)) by {
                            assert(next[k as int] == name);
                            if next.contains(x) && x != name {
                                let j = next.index_of(x);
                                assert(prev[j] == x);
                            }
                            if prev.contains(x) {
                                let j = prev.index_of(x);
                                assert(next[j] == x);
                            }
                            if old_names.contains(x) {
                                let j = old_names.index_of(x);
                                assert(names[j] == x);
                            }
                            if names.contains(x) && !old_names.contains(x) {
                                let j = names.index_of(x);
                                if j < old_names.len() {
                                    assert(old_names[j] == x);
                                }
                            }
                            if rows.len() > 0 {
                                assert(names[old_names.len() as int] == name);
                            }
                        }
                    }
                },
                Err(e) => {
                    proof {
                        assert(group_declared_at(groups, g as int, id@));
                        assert(group_refused::<P, C>(factories, policies, groups, ids@[k as int], e));
                        assert(groups_stop_at::<P, C>(factories, policies, groups, e, ids@, k as int));
                    }
                    return Err(e);
                },
            }
            k = k + 1;
        }
        assert(ids@.take(k as int) =~= ids@);
        let engine_scope: Option<Vec<PreparedExtension<P>>> = if engine_extensions.len() > 0 {
            Some(engine_extensions)
        } else {
            None
        };
        let host = PreparedHierarchicalExtensionHost {
            engine_scope,
            group_scopes: scopes,
            catalog: HierarchicalExtensionCatalog { engine, groups: entries },
        };
        proof {
            assert(host.engine_extensions() =~= engine_prepared);
            let names = catalog_names(entries@);
            assert forall|a: int, b: int| 0 <= a < b < entries@.len() implies (
            #[trigger] entries@[a]).0@ != (#[trigger] entries@[b]).0@ by {
                order::lemma_ascending_distinct::<String>(names);
                assert(names[a] != names[b]);
            }
            assert forall|x: Seq<char>| #[trigger] names.contains(x) == group_in_use(
                groups,
                x,
            ) by {
                if group_in_use(groups, x) {
                    let g = choose|g: int| #[trigger]
                        group_declared_at(groups, g, x) && groups[g].extensions.rows().len() > 0;
                    assert(group_declared(groups, x));
                    assert(ids@.contains(x));
                }
            }
        }
        Ok(host)
    }
}

/// A scope has names exactly if it has declarations.
proof fn lemma_in_use(
    rows: Seq<(String, ExtensionUserConfig)>,
    known: Seq<Seq<char>>,
)
    requires
        order::lists::<String>(known, |id: Seq<char>| config::declares(rows, id)),
    ensures
        (known.len() > 0) == (rows.len() > 0),
{
    if rows.len() > 0 {
        assert(config::declares_at(rows, 0, rows[0].0@));
        assert(known.contains(rows[0].0@));
    }
    if known.len() > 0 {
        assert(known.contains(known[0]));
    }
}

/// Control channels are measured at every level but the one at which nothing is.
pub proof fn channels_are_measured_from_the_basic_level_on(policies: ScopePolicies)
    ensures
        policies.runtime_metrics is Off ==> !policies.measures_channels(),
        policies.runtime_metrics is Basic ==> policies.measures_channels(),
        policies.runtime_metrics is Normal ==> policies.measures_channels(),
        policies.runtime_metrics is Detailed ==> policies.measures_channels(),
{
}

/// The policies of a group hold in it before those of the engine.
pub proof fn own_policies_come_first(group: GroupDeclaration, engine: ScopePolicies)
    ensures
        group.policies matches Some(own) ==> group.policies_in(engine) == own,
        group.policies is None ==> group.policies_in(engine) == engine,
{
}

/// A plugin that names its capabilities has to have a shared one: a declaration of any other
/// gives no instance.
pub proof fn prepared_extensions_are_shared<P, C: CreateExtension<P>>(
    factories: Seq<ExtensionFactory<C>>,
    policies: ScopePolicies,
    row: (String, ExtensionUserConfig),
    instance: Arc<P>,
    f: int,
)
    requires
        accepted_by::<P, C>(factories, policies, row, instance, f),
    ensures
        factories[f].name@ == row.1.urn@,
        factories[f].capabilities matches Some(c) ==> c.shared@.len() > 0,
        call_ensures(
            C::create,
            (&factories[f].creator, &row.0, &row.1, policies.control_capacity),
            Ok::<Option<Arc<P>>, String>(Some(instance)),
        ),
{
}

/// Of the prepared extensions, exactly those are registered whose plugin names capabilities,
/// each under its own name and with its own instance.
pub proof fn providers_are_registered<P, C>(
    factories: Seq<ExtensionFactory<C>>,
    rows: Seq<(String, ExtensionUserConfig)>,
    extensions: Seq<PreparedExtension<P>>,
    r: SharedExtensionRegistration<P>,
)
    ensures
        registrations_of(factories, rows, extensions).contains(r) <==> exists|k: int|
            0 <= k < extensions.len() && (#[trigger] extensions[k]).extension_id == r.extension_id
                && extensions[k].instance == r.provider && provides(
                factories,
                rows,
                extensions[k].extension_id@,
            ),
    decreases extensions.len(),
{
    if extensions.len() > 0 {
        let front = extensions.drop_last();
        let last = extensions.last();
        let before = registrations_of(factories, rows, front);
        let all = registrations_of(factories, rows, extensions);
        providers_are_registered(factories, rows, front, r);
        assert(extensions[extensions.len() - 1] == last);
        if before.contains(r) {
            assert(all[before.index_of(r)] == r);
            let k = choose|k: int|
                0 <= k < front.len() && (#[trigger] front[k]).extension_id == r.extension_id
                    && front[k].instance == r.provider && provides(
                    factories,
                    rows,
                    front[k].extension_id@,
                );
            assert(extensions[k] == front[k]);
        }
        if all.contains(r) && !before.contains(r) {
            let i = all.index_of(r);
            if i < before.len() {
                assert(before[i] == r);
            }
        }
        if exists|k: int|
            0 <= k < extensions.len() && (#[trigger] extensions[k]).extension_id == r.extension_id
                && extensions[k].instance == r.provider && provides(
                factories,
                rows,
                extensions[k].extension_id@,
            ) {
            let k = choose|k: int|
                0 <= k < extensions.len() && (#[trigger] extensions[k]).extension_id
                    == r.extension_id && extensions[k].instance == r.provider && provides(
                    factories,
                    rows,
                    extensions[k].extension_id@,
                );
            if k < front.len() {
                assert(front[k] == extensions[k]);
            } else {
                assert(all[before.len() as int] == r);
            }
        }
    }
}

} // verus!
