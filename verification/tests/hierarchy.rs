use dataflow_extensions::capability::registry::{AdaptToLocal, CapabilityRegistry};
use dataflow_extensions::config::extension::{
    ConfigValue, ExtensionUserConfig, PipelineExtensions,
};
use dataflow_extensions::extension::hierarchy::{
    HierarchicalExtensionCatalog, HierarchicalExtensionRegistry, HierarchyError,
    InheritedExtensionRegistrations, ProvideShared, ScopeCatalog, SharedExtensionRegistration,
};
use dataflow_extensions::extension::host::{
    run_scope, HostAction, HostEvent, HostStart, RunningHierarchicalExtensionHost, ScopeAction,
    ScopeEvent, StartAction,
};
use dataflow_extensions::extension::prepare::{
    CreateExtension, ExtensionCapabilities, ExtensionFactory, GroupDeclaration,
    HierarchyDeclarations, MetricLevel, PipelineFactory, ScopePolicies,
};
use dataflow_extensions::order::OrderedSet;
use dataflow_extensions::providers::CapabilityRegistration;
use std::collections::HashMap;
use std::sync::atomic::{AtomicUsize, Ordering};
use std::sync::{Arc, Mutex};

const CAPABILITY: &str = "hierarchy_test_state";
const LOCAL_TRAIT: u64 = 1;
const SHARED_TRAIT: u64 = 2;

#[derive(Clone, Debug)]
struct SharedStateProbe {
    label: &'static str,
    value: Arc<AtomicUsize>,
}

impl SharedStateProbe {
    fn increment(&self) -> usize {
        self.value.fetch_add(1, Ordering::SeqCst) + 1
    }
}

#[derive(Debug)]
struct LocalStateProbe(SharedStateProbe);

impl AdaptToLocal<LocalStateProbe> for SharedStateProbe {
    fn adapt_to_local(&self) -> LocalStateProbe {
        LocalStateProbe(self.clone())
    }
}

/// Gives a clone of one prototype, a fresh value each time, or an error.
#[derive(Debug)]
enum Provider {
    Cloned(SharedStateProbe),
    Constructed(Arc<AtomicUsize>),
    Broken,
}

impl Provider {
    fn produce(&self) -> SharedStateProbe {
        match self {
            Provider::Cloned(prototype) => prototype.clone(),
            Provider::Constructed(produced) => {
                let initial = produced.fetch_add(1, Ordering::SeqCst);
                SharedStateProbe {
                    label: "constructed",
                    value: Arc::new(AtomicUsize::new(initial)),
                }
            }
            Provider::Broken => unreachable!(),
        }
    }
}

impl ProvideShared<Arc<SharedStateProbe>> for Provider {
    fn register_shared(
        &self,
        extension_id: &String,
    ) -> Result<Vec<CapabilityRegistration<Arc<SharedStateProbe>>>, String> {
        if matches!(self, Provider::Broken) {
            return Err(format!("{extension_id} is broken"));
        }
        let mut registration =
            CapabilityRegistration::new(SHARED_TRAIT, Arc::new(self.produce()), CAPABILITY);
        registration.local_trait_id = Some(LOCAL_TRAIT);
        Ok(vec![registration])
    }
}

type Registry = CapabilityRegistry<LocalStateProbe, SharedStateProbe>;

fn shared_registration(
    extension_id: &str,
    label: &'static str,
    value: Arc<AtomicUsize>,
) -> SharedExtensionRegistration<Provider> {
    SharedExtensionRegistration {
        extension_id: extension_id.to_string(),
        provider: Arc::new(Provider::Cloned(SharedStateProbe { label, value })),
    }
}

fn scope_catalog(
    registrations: Vec<SharedExtensionRegistration<Provider>>,
) -> ScopeCatalog<Provider> {
    ScopeCatalog {
        known_extensions: OrderedSet::from_vec(
            registrations.iter().map(|r| r.extension_id.clone()).collect(),
        ),
        registrations,
    }
}

fn inherited_labels(
    inherited: &InheritedExtensionRegistrations<Provider>,
) -> HashMap<String, &'static str> {
    inherited
        .registrations
        .iter()
        .map(|r| (r.extension_id.clone(), r.provider.produce().label))
        .collect()
}

fn resolved(
    inherited: &InheritedExtensionRegistrations<Provider>,
) -> dataflow_extensions::capability::registry::Capabilities<LocalStateProbe, SharedStateProbe> {
    let mut registry = Registry::new();
    inherited
        .register_into(&mut registry)
        .expect("inherited capability should register");
    let mut known_extensions = OrderedSet::new();
    inherited.extend_known_extensions(&mut known_extensions);
    assert!(known_extensions.contains(&"shared".to_string()));
    registry
        .resolve_bindings(
            &vec![CAPABILITY],
            &vec![(CAPABILITY.to_string(), "shared".to_string())],
        )
        .expect("inherited capability should resolve")
}

#[test]
fn cloned_engine_provider_preserves_root_state_across_descendants() {
    let root_state = Arc::new(AtomicUsize::new(0));
    let mut registry = HierarchicalExtensionRegistry::new();
    registry
        .install(HierarchicalExtensionCatalog {
            engine: scope_catalog(vec![shared_registration(
                "shared",
                "engine",
                Arc::clone(&root_state),
            )]),
            groups: vec![],
        })
        .expect("catalog should install");

    let group_a = registry.registrations_for_pipeline("a", &PipelineExtensions::new());
    let group_b = registry.registrations_for_pipeline("b", &PipelineExtensions::new());
    let a = resolved(&group_a).require_shared(SHARED_TRAIT).unwrap();
    let b = resolved(&group_b).require_shared(SHARED_TRAIT).unwrap();
    let local = resolved(&group_a).require_local(LOCAL_TRAIT).unwrap();
    assert_eq!(a.increment(), 1);
    assert_eq!(b.increment(), 2);
    assert_eq!(local.0.increment(), 3);
    assert_eq!(root_state.load(Ordering::SeqCst), 3);
}

#[test]
fn constructed_inherited_provider_remains_fresh_per_consumer() {
    let invocations = Arc::new(AtomicUsize::new(0));
    let mut registry = HierarchicalExtensionRegistry::new();
    registry
        .install(HierarchicalExtensionCatalog {
            engine: scope_catalog(vec![SharedExtensionRegistration {
                extension_id: "shared".to_string(),
                provider: Arc::new(Provider::Constructed(Arc::clone(&invocations))),
            }]),
            groups: vec![],
        })
        .expect("catalog should install");
    let inherited = registry.registrations_for_pipeline("a", &PipelineExtensions::new());
    let again = registry.registrations_for_pipeline("a", &PipelineExtensions::new());
    let first = resolved(&inherited).require_shared(SHARED_TRAIT).unwrap();
    let second = resolved(&again).require_shared(SHARED_TRAIT).unwrap();

    assert!(!Arc::ptr_eq(&first.value, &second.value));
    assert_eq!(first.value.load(Ordering::SeqCst), 0);
    assert_eq!(second.value.load(Ordering::SeqCst), 1);
    assert_eq!(invocations.load(Ordering::SeqCst), 2);
}

#[test]
fn lexical_resolution_applies_shadowing_and_sibling_isolation() {
    let state = || Arc::new(AtomicUsize::new(0));
    let mut registry = HierarchicalExtensionRegistry::new();
    registry
        .install(HierarchicalExtensionCatalog {
            engine: scope_catalog(vec![
                shared_registration("same", "engine", state()),
                shared_registration("engine-only", "engine-only", state()),
            ]),
            groups: vec![
                (
                    "a".to_string(),
                    scope_catalog(vec![
                        shared_registration("same", "group-a", state()),
                        shared_registration("group-only", "group-a-only", state()),
                    ]),
                ),
                (
                    "b".to_string(),
                    scope_catalog(vec![shared_registration(
                        "sibling-only",
                        "group-b-only",
                        state(),
                    )]),
                ),
            ],
        })
        .expect("catalog should install");

    let group_a = registry.registrations_for_pipeline("a", &PipelineExtensions::new());
    let labels = inherited_labels(&group_a);
    assert_eq!(labels.get("same"), Some(&"group-a"));
    assert_eq!(labels.get("engine-only"), Some(&"engine-only"));
    assert_eq!(labels.get("group-only"), Some(&"group-a-only"));
    assert!(!labels.contains_key("sibling-only"));

    let mut pipeline_extensions = PipelineExtensions::new();
    pipeline_extensions.insert(
        "same".to_string(),
        ExtensionUserConfig::with_type("urn:test:extension:pipeline"),
    );
    let shadowed = registry.registrations_for_pipeline("a", &pipeline_extensions);
    assert!(!inherited_labels(&shadowed).contains_key("same"));
    assert!(!shadowed.known_extensions.contains(&"same".to_string()));

    let group_b = registry.registrations_for_pipeline("b", &PipelineExtensions::new());
    let labels = inherited_labels(&group_b);
    assert_eq!(labels.get("same"), Some(&"engine"));
    assert_eq!(labels.get("sibling-only"), Some(&"group-b-only"));
    assert!(!labels.contains_key("group-only"));
}

#[test]
fn a_second_catalog_is_refused() {
    let mut registry: HierarchicalExtensionRegistry<Provider> =
        HierarchicalExtensionRegistry::new();
    registry.install(HierarchicalExtensionCatalog::new()).unwrap();
    match registry.install(HierarchicalExtensionCatalog::new()) {
        Err(HierarchyError::InternalError { message }) => assert_eq!(
            message,
            "hierarchical extension catalog was installed more than once"
        ),
        other => panic!("unexpected outcome {other:?}"),
    }
}

#[test]
fn a_provider_that_fails_ends_the_registration() {
    let inherited = InheritedExtensionRegistrations {
        known_extensions: OrderedSet::from_vec(vec!["bad".to_string(), "good".to_string()]),
        registrations: vec![
            shared_registration("good", "good", Arc::new(AtomicUsize::new(0))),
            SharedExtensionRegistration {
                extension_id: "bad".to_string(),
                provider: Arc::new(Provider::Broken),
            },
        ],
    };
    let mut registry = Registry::new();
    match inherited.register_into(&mut registry) {
        Err(HierarchyError::CapabilityRegistrationFailed { extension, message }) => {
            assert_eq!(extension, "bad");
            assert_eq!(message, "bad is broken");
        }
        other => panic!("unexpected outcome {other:?}"),
    }
    assert!(registry.contains("good"));
    assert!(!registry.contains("bad"));
}

#[test]
fn declarations_that_shadow_are_removed_later_too() {
    let mut inherited = InheritedExtensionRegistrations {
        known_extensions: OrderedSet::from_vec(vec!["kept".to_string(), "same".to_string()]),
        registrations: vec![
            shared_registration("same", "same", Arc::new(AtomicUsize::new(0))),
            shared_registration("kept", "kept", Arc::new(AtomicUsize::new(0))),
        ],
    };
    let mut pipeline = PipelineExtensions::new();
    pipeline.insert("same".to_string(), ExtensionUserConfig::with_type("urn:x"));
    inherited.remove_shadowed_by(&pipeline);
    assert_eq!(inherited.known_extensions.to_vec(), vec!["kept"]);
    assert_eq!(inherited.registrations.len(), 1);
    assert_eq!(inherited.registrations[0].extension_id, "kept");
}

const LIFECYCLE_URN: &str = "urn:test:extension:hierarchy_lifecycle";
const LOCAL_ONLY_URN: &str = "urn:test:extension:hierarchy_local_only";
const DUAL_URN: &str = "urn:test:extension:hierarchy_dual";
const REFUSING_URN: &str = "urn:test:extension:hierarchy_refusing";
const HIDDEN_LOCAL_URN: &str = "urn:test:extension:hierarchy_hidden_local";

type Events = Arc<Mutex<Vec<String>>>;

/// The variant of an extension that was kept.
#[derive(Debug)]
struct Variant {
    name: String,
    events: Events,
}

impl Variant {
    fn start(&self) {
        self.events.lock().unwrap().push(format!("{}:start", self.name));
    }

    fn ready(&self) {
        self.events.lock().unwrap().push(format!("{}:ready", self.name));
    }

    fn stop(&self) {
        self.events.lock().unwrap().push(format!("{}:stop", self.name));
    }
}

#[derive(Debug)]
enum Creator {
    Lifecycle(Events),
    LocalOnly,
    Dual(Events),
    Refusing,
    HiddenLocal,
}

impl CreateExtension<Variant> for Creator {
    fn create(
        &self,
        _extension_id: &String,
        config: &ExtensionUserConfig,
        _control_capacity: usize,
    ) -> Result<Option<Arc<Variant>>, String> {
        let probe = match &config.config {
            ConfigValue::Text(s) => s.clone(),
            _ => String::new(),
        };
        match self {
            Creator::Lifecycle(events) | Creator::Dual(events) => Ok(Some(Arc::new(Variant {
                name: probe,
                events: Arc::clone(events),
            }))),
            Creator::LocalOnly => {
                unreachable!("local-only metadata must be rejected before factory creation")
            }
            Creator::Refusing => Err("bad configuration".to_string()),
            Creator::HiddenLocal => Ok(None),
        }
    }
}

fn factory(name: &str, capabilities: Option<(Vec<&'static str>, Vec<&'static str>)>, creator: Creator) -> ExtensionFactory<Creator> {
    ExtensionFactory {
        name: name.to_string(),
        capabilities: capabilities.map(|(shared, local)| ExtensionCapabilities { shared, local }),
        creator,
    }
}

fn factories(events: &Events) -> PipelineFactory<Creator> {
    PipelineFactory {
        extension_factories: vec![
            factory(LIFECYCLE_URN, None, Creator::Lifecycle(Arc::clone(events))),
            factory(LOCAL_ONLY_URN, Some((vec![], vec!["test"])), Creator::LocalOnly),
            factory(DUAL_URN, Some((vec!["test"], vec!["test"])), Creator::Dual(Arc::clone(events))),
            factory(REFUSING_URN, None, Creator::Refusing),
            factory(HIDDEN_LOCAL_URN, None, Creator::HiddenLocal),
        ],
    }
}

const POLICIES: ScopePolicies =
    ScopePolicies { control_capacity: 16, runtime_metrics: MetricLevel::Basic };

fn group(id: &str, extensions: PipelineExtensions) -> GroupDeclaration {
    GroupDeclaration { id: id.to_string(), extensions, policies: None }
}

fn declared(rows: Vec<(&str, &str, &str)>) -> PipelineExtensions {
    let mut extensions = PipelineExtensions::new();
    for (id, urn, probe) in rows {
        extensions.insert(
            id.to_string(),
            ExtensionUserConfig::new(urn.to_string(), ConfigValue::Text(probe.to_string())),
        );
    }
    extensions
}

fn failure(message: &str) -> HierarchyError {
    HierarchyError::ScopeFailed { message: message.to_string() }
}

#[test]
fn lifecycle_uses_level_readiness_and_reverse_shutdown_barriers() {
    let events: Events = Arc::new(Mutex::new(vec![]));
    let prepared = factories(&events)
        .prepare_hierarchical_extensions(&HierarchyDeclarations {
            policies: POLICIES,
            extensions: declared(vec![("root", LIFECYCLE_URN, "engine")]),
            groups: vec![
                group("a", declared(vec![("scoped", LIFECYCLE_URN, "group-a")])),
                group("b", declared(vec![("scoped", LIFECYCLE_URN, "group-b")])),
            ],
        })
        .expect("hierarchical host should prepare");
    let engine = prepared.engine_scope.expect("the engine has a scope");
    let groups = prepared.group_scopes;
    assert_eq!(groups.len(), 2);

    let (mut host, mut action) = HostStart::new(true);
    loop {
        match action {
            StartAction::StartEngine => {
                engine[0].instance.start();
                assert!(!events.lock().unwrap().iter().any(|e| e.starts_with("group-")));
                engine[0].instance.ready();
            }
            StartAction::StartGroups => {
                for group in &groups {
                    group[0].instance.start();
                }
                for group in &groups {
                    group[0].instance.ready();
                }
            }
            StartAction::Install => {}
            StartAction::Running => break,
            other => panic!("unexpected action {other:?}"),
        }
        (host, action) = host.start(Ok(()));
    }

    let mut running = RunningHierarchicalExtensionHost::new(true, groups.len());
    assert_eq!(running.scopes(), 3);
    let mut pending: Vec<usize> = vec![];
    let mut action = running.run(HostEvent::ShutdownRequested);
    loop {
        match action {
            HostAction::Stop(scopes) => {
                for scope in &scopes {
                    match *scope {
                        0 => engine[0].instance.stop(),
                        k => groups[k - 1][0].instance.stop(),
                    }
                }
                pending = scopes;
            }
            HostAction::AwaitScope => {}
            HostAction::Finish => break,
            other => panic!("unexpected action {other:?}"),
        }
        let index = pending.remove(0);
        action = running.run(HostEvent::ScopeEnded { index, result: Ok(()) });
    }
    assert!(running.into_result().is_ok(), "host should shut down cleanly");

    let current = events.lock().unwrap();
    let position = |event: &str| {
        current
            .iter()
            .position(|candidate| candidate == event)
            .unwrap_or_else(|| panic!("missing lifecycle event `{event}`"))
    };
    assert!(position("engine:ready") < position("group-a:start"));
    assert!(position("engine:ready") < position("group-b:start"));
    assert!(position("group-a:stop") < position("engine:stop"));
    assert!(position("group-b:stop") < position("engine:stop"));
}

#[test]
fn engine_readiness_timeout_blocks_group_startup() {
    let mut started = vec![];
    let (mut host, mut action) = HostStart::new(true);
    let error = loop {
        let outcome = match action {
            StartAction::StartEngine => {
                started.push("engine-timeout:start");
                Err(failure("readiness timeout"))
            }
            StartAction::StartGroups => {
                started.push("group-after-timeout:start");
                Ok(())
            }
            StartAction::StopEngine => {
                started.push("engine-timeout:stop");
                Err(failure("stopping failed"))
            }
            StartAction::Failed(error) => break error,
            other => panic!("unexpected action {other:?}"),
        };
        (host, action) = host.start(outcome);
    };
    assert!(matches!(error, HierarchyError::ScopeFailed { message } if message == "readiness timeout"));
    assert_eq!(started, vec!["engine-timeout:start", "engine-timeout:stop"]);
    assert!(matches!(host.start(Ok(())).1, StartAction::Idle));
}

#[test]
fn a_group_that_fails_to_start_stops_the_groups_then_the_engine() {
    let (host, action) = HostStart::new(true);
    assert!(matches!(action, StartAction::StartEngine));
    let (host, action) = host.start(Ok(()));
    assert!(matches!(action, StartAction::StartGroups));
    let (host, action) = host.start(Err(failure("group")));
    assert!(matches!(action, StartAction::StopGroups));
    let (host, action) = host.start(Ok(()));
    assert!(matches!(action, StartAction::StopEngine));
    let (_, action) = host.start(Ok(()));
    assert!(matches!(action, StartAction::Failed(HierarchyError::ScopeFailed { message }) if message == "group"));

    let (host, action) = HostStart::new(false);
    assert!(matches!(action, StartAction::StartGroups));
    let (host, action) = host.start(Ok(()));
    assert!(matches!(action, StartAction::Install));
    let (host, action) = host.start(Err(failure("install")));
    assert!(matches!(action, StartAction::StopGroups));
    let (_, action) = host.start(Ok(()));
    assert!(matches!(action, StartAction::Failed(HierarchyError::ScopeFailed { message }) if message == "install"));
}

#[test]
fn ancestor_scope_rejects_local_only_extension() {
    let events: Events = Arc::new(Mutex::new(vec![]));
    let result = factories(&events).prepare_hierarchical_extensions(&HierarchyDeclarations {
        policies: POLICIES,
        extensions: declared(vec![("local", LOCAL_ONLY_URN, "")]),
        groups: vec![],
    });
    assert!(matches!(
        result,
        Err(HierarchyError::HierarchicalExtensionRequiresShared { .. })
    ));
}

#[test]
fn ancestor_scope_retains_only_shared_variant_from_dual_bundle() {
    let events: Events = Arc::new(Mutex::new(vec![]));
    let prepared = factories(&events)
        .prepare_hierarchical_extensions(&HierarchyDeclarations {
            policies: POLICIES,
            extensions: declared(vec![("dual", DUAL_URN, "dual-shared")]),
            groups: vec![],
        })
        .expect("shared variant should prepare");
    let engine = prepared.engine_scope.unwrap();
    engine[0].instance.start();
    let mut running = RunningHierarchicalExtensionHost::new(true, 0);
    match running.run(HostEvent::ShutdownRequested) {
        HostAction::Stop(scopes) => assert_eq!(scopes, vec![0]),
        other => panic!("unexpected action {other:?}"),
    }
    engine[0].instance.stop();
    let action = running.run(HostEvent::ScopeEnded { index: 0, result: Ok(()) });
    assert!(matches!(action, HostAction::Finish));
    running.into_result().expect("shared variant should stop cleanly");

    let current = events.lock().unwrap();
    assert!(current.iter().any(|event| event == "dual-shared:start"));
    assert!(current.iter().any(|event| event == "dual-shared:stop"));
    assert!(!current.iter().any(|event| event == "dual:local-start"));
    assert!(!current.iter().any(|event| event == "dual:local-stop"));

    assert_eq!(prepared.catalog.engine.known_extensions.to_vec(), vec!["dual"]);
    assert_eq!(prepared.catalog.engine.registrations.len(), 1);
}

#[test]
fn runtime_failure_keeps_surviving_ancestors_alive_until_cancellation() {
    let mut running = RunningHierarchicalExtensionHost::new(true, 1);
    let action = running.run(HostEvent::ScopeEnded {
        index: 1,
        result: Err(HierarchyError::InternalError {
            message: "runtime-group requested runtime failure".to_string(),
        }),
    });
    assert!(matches!(action, HostAction::NotifyFailure));
    assert!(matches!(running.first_error(), Some(HierarchyError::InternalError { .. })));
    assert!(matches!(running.run(HostEvent::NoTasks), HostAction::Wait));

    match running.run(HostEvent::ShutdownRequested) {
        HostAction::Stop(scopes) => assert_eq!(scopes, vec![0]),
        other => panic!("unexpected action {other:?}"),
    }
    let action = running.run(HostEvent::ScopeEnded { index: 0, result: Err(failure("later")) });
    assert!(matches!(action, HostAction::Finish));
    let error = running.into_result().expect_err("group runtime failure should be returned");
    assert!(matches!(error, HierarchyError::InternalError { message } if message == "runtime-group requested runtime failure"));
}

#[test]
fn a_scope_that_ends_by_itself_is_a_failure() {
    let mut running = RunningHierarchicalExtensionHost::new(false, 12);
    let action = running.run(HostEvent::ScopeEnded { index: 10, result: Ok(()) });
    assert!(matches!(action, HostAction::NotifyFailure));
    match running.into_result() {
        Err(HierarchyError::InternalError { message }) => assert_eq!(
            message,
            "hierarchical extension scope 10 exited before host shutdown"
        ),
        other => panic!("unexpected outcome {other:?}"),
    }
}

#[test]
fn a_lost_task_is_a_failure() {
    let mut running = RunningHierarchicalExtensionHost::new(true, 2);
    let action = running.run(HostEvent::TaskLost {
        scope: None,
        is_canceled: false,
        is_panic: true,
        error: "task panicked".to_string(),
    });
    assert!(matches!(action, HostAction::NotifyFailure));
    match running.run(HostEvent::ShutdownRequested) {
        HostAction::Stop(scopes) => assert_eq!(scopes, vec![1, 2]),
        other => panic!("unexpected action {other:?}"),
    }
    let action = running.run(HostEvent::ScopeEnded { index: 2, result: Ok(()) });
    assert!(matches!(action, HostAction::AwaitScope));
    let action = running.run(HostEvent::ScopeEnded { index: 1, result: Ok(()) });
    assert!(matches!(action, HostAction::Finish), "the engine's task is gone already");
    match running.into_result() {
        Err(HierarchyError::JoinTaskError { is_canceled, is_panic, error }) => {
            assert!(!is_canceled);
            assert!(is_panic);
            assert_eq!(error, "task panicked");
        }
        other => panic!("unexpected outcome {other:?}"),
    }
}

#[test]
fn a_scope_reports_until_it_stops() {
    assert!(matches!(run_scope(ScopeEvent::MonitorTick), ScopeAction::ReportMetrics));
    assert!(matches!(run_scope(ScopeEvent::ShutdownRequested), ScopeAction::Stop(Ok(()))));
    assert!(matches!(
        run_scope(ScopeEvent::ExtensionFailed(failure("x"))),
        ScopeAction::Stop(Err(HierarchyError::ScopeFailed { .. }))
    ));
    assert!(matches!(
        run_scope(ScopeEvent::TaskLost {
            is_canceled: true,
            is_panic: false,
            error: String::new()
        }),
        ScopeAction::Stop(Err(HierarchyError::JoinTaskError { is_canceled: true, is_panic: false, .. }))
    ));
}

#[test]
fn scopes_are_prepared_in_the_order_of_their_names() {
    let events: Events = Arc::new(Mutex::new(vec![]));
    let plugins = factories(&events);
    assert_eq!(plugins.extension_factory(DUAL_URN), Some(2));
    assert_eq!(plugins.extension_factory("urn:none"), None);
    let prepared = plugins
        .prepare_hierarchical_extensions(&HierarchyDeclarations {
            policies: POLICIES,
            extensions: PipelineExtensions::new(),
            groups: vec![
                group(
                    "z",
                    declared(vec![("2", LIFECYCLE_URN, "z2"), ("1", LIFECYCLE_URN, "z1")]),
                ),
                group("empty", PipelineExtensions::new()),
                group("a", declared(vec![("only", DUAL_URN, "a1")])),
            ],
        })
        .unwrap();
    assert!(prepared.engine_scope.is_none());
    let names: Vec<Vec<&str>> = prepared
        .group_scopes
        .iter()
        .map(|scope| scope.iter().map(|e| e.instance.name.as_str()).collect())
        .collect();
    assert_eq!(names, vec![vec!["a1"], vec!["z1", "z2"]]);
    let groups: Vec<&str> = prepared.catalog.groups.iter().map(|g| g.0.as_str()).collect();
    assert_eq!(groups, vec!["a", "z"]);
}

#[test]
fn preparation_fails_for_each_reason() {
    let events: Events = Arc::new(Mutex::new(vec![]));
    let plugins = factories(&events);
    let one = |urn: &str| {
        plugins
            .prepare_extension_scope::<Variant>(
                "engine",
                &declared(vec![("x", urn, "")]),
                &POLICIES,
            )
            .unwrap_err()
    };
    assert!(matches!(
        one("urn:none"),
        HierarchyError::UnknownExtension { plugin_urn } if plugin_urn == "urn:none"
    ));
    assert!(matches!(
        one(REFUSING_URN),
        HierarchyError::ConfigError(message) if message == "bad configuration"
    ));
    for urn in vec![LOCAL_ONLY_URN, HIDDEN_LOCAL_URN] {
        assert!(matches!(
            one(urn),
            HierarchyError::HierarchicalExtensionRequiresShared { extension, scope }
                if extension == "x" && scope == "engine"
        ));
    }
}

#[derive(Debug)]
struct CapacityOf;

impl CreateExtension<usize> for CapacityOf {
    fn create(
        &self,
        _extension_id: &String,
        _config: &ExtensionUserConfig,
        control_capacity: usize,
    ) -> Result<Option<Arc<usize>>, String> {
        Ok(Some(Arc::new(control_capacity)))
    }
}

#[test]
fn extensions_get_the_policies_of_their_scope() {
    let plugins = PipelineFactory {
        extension_factories: vec![ExtensionFactory {
            name: LIFECYCLE_URN.to_string(),
            capabilities: None,
            creator: CapacityOf,
        }],
    };
    let own = ScopePolicies { control_capacity: 3, runtime_metrics: MetricLevel::Off };
    let prepared = plugins
        .prepare_hierarchical_extensions(&HierarchyDeclarations {
            policies: POLICIES,
            extensions: declared(vec![("root", LIFECYCLE_URN, "")]),
            groups: vec![
                group("a", declared(vec![("x", LIFECYCLE_URN, "")])),
                GroupDeclaration {
                    policies: Some(own),
                    ..group("b", declared(vec![("x", LIFECYCLE_URN, "")]))
                },
            ],
        })
        .unwrap();
    let engine = prepared.engine_scope.unwrap();
    assert_eq!((*engine[0].instance, engine[0].channel_metrics), (16, true));
    let scopes = prepared.group_scopes;
    assert_eq!((*scopes[0][0].instance, scopes[0][0].channel_metrics), (16, true));
    assert_eq!((*scopes[1][0].instance, scopes[1][0].channel_metrics), (3, false));
}
