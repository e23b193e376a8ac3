use dataflow_extensions::capability::error::{CapabilityError, CapabilityErrorSource};
use dataflow_extensions::capability::key_value_store::KeyValueTable;
use dataflow_extensions::capability::registry::{AdaptToLocal, Capabilities, CapabilityRegistry};
use dataflow_extensions::config::extension::{ConfigValue, ExtensionUserConfig};
use dataflow_extensions::extension::control::{
    ControlChannel, ExtensionControlMsg, RecvAction, RecvError,
};
use dataflow_extensions::extension::dependencies::ExtensionDependencies;
use dataflow_extensions::extension::wrapper::{
    join_lifecycles, Active, ControlTarget, DescribeCapabilities, ExtensionWrapper,
    ExtensionWrapperBuilder, LifecycleError, Passive, StartPlan,
};
use dataflow_extensions::providers::{BindingError, CapabilityRegistration};
use dataflow_extensions::shared_kv_exporter::{KvMessage, KvStep, SharedKvExporter};
use std::rc::Rc;
use std::sync::Arc;

const CAPABILITY: &str = "test_state";
const LOCAL_TRAIT: u64 = 1;
const SHARED_TRAIT: u64 = 2;
const LOCAL_TYPE: u64 = 10;
const SHARED_TYPE: u64 = 11;

#[derive(Debug)]
struct LocalExt(&'static str);

#[derive(Clone, Debug)]
struct SharedExt(&'static str);

impl AdaptToLocal<LocalExt> for SharedExt {
    fn adapt_to_local(&self) -> LocalExt {
        LocalExt(self.0)
    }
}

#[derive(Debug)]
struct Describe;

impl DescribeCapabilities<LocalExt, SharedExt> for Describe {
    fn register_shared(&self, shared: &SharedExt) -> Vec<CapabilityRegistration<Arc<SharedExt>>> {
        vec![CapabilityRegistration::new(SHARED_TRAIT, Arc::new(shared.clone()), CAPABILITY)]
    }

    fn register_local(&self, local: &Rc<LocalExt>) -> Vec<CapabilityRegistration<Rc<LocalExt>>> {
        vec![CapabilityRegistration::new(LOCAL_TRAIT, Rc::clone(local), CAPABILITY)]
    }
}

type Wrapper = ExtensionWrapper<LocalExt, SharedExt, Describe>;

fn builder() -> ExtensionWrapperBuilder<LocalExt, SharedExt> {
    let user_config = Arc::new(ExtensionUserConfig::new(
        "urn:otap:extension:test".to_string(),
        ConfigValue::Null,
    ));
    Wrapper::builder("test_extension".to_string(), user_config, 16)
}

fn both_active() -> Wrapper {
    builder()
        .with_local(Active(Rc::new(LocalExt("local"))), LOCAL_TYPE)
        .with_shared(Active(SharedExt("shared")), SHARED_TYPE)
        .build()
}

#[test]
fn test_shared_wrapper_creation() {
    let wrapper: Wrapper = builder().with_shared(Active(SharedExt("shared")), SHARED_TYPE).build();
    assert!(wrapper.is_shared());
    assert!(!wrapper.is_local());
    assert!(!wrapper.is_passive());
    assert_eq!(wrapper.node_id(), "test_extension");
    assert_eq!(wrapper.user_config().urn, "urn:otap:extension:test");
    assert_eq!(wrapper.extension_control_senders(), vec![ControlTarget::First]);
    assert_eq!(wrapper.start(), StartPlan::Shared);
}

#[test]
fn passive_extensions_have_no_channels() {
    let wrapper: Wrapper = builder()
        .with_local(Passive(Rc::new(LocalExt("local"))), LOCAL_TYPE)
        .with_shared(Passive(SharedExt("shared")), SHARED_TYPE)
        .build();
    assert!(wrapper.is_passive());
    assert!(wrapper.local_any.is_some());
    assert!(wrapper.shared_any.is_some());
    assert!(wrapper.extension_control_senders().is_empty());
}

#[test]
fn two_lifecycles_have_two_channels() {
    let mut wrapper = both_active();
    assert_eq!(
        wrapper.extension_control_senders(),
        vec![ControlTarget::First, ControlTarget::Shared]
    );
    assert_eq!(wrapper.start(), StartPlan::Both);
    wrapper.drop_shared();
    assert!(!wrapper.is_shared());
    assert!(wrapper.shared_any.is_none());
    assert_eq!(wrapper.start(), StartPlan::Local);
    let mut wrapper = both_active();
    wrapper.drop_local();
    assert!(!wrapper.is_local());
    assert!(wrapper.local_any.is_none());
    assert_eq!(wrapper.start(), StartPlan::Shared);
}

#[test]
fn variants_without_a_lifecycle_are_dropped_too() {
    let mut wrapper: Wrapper = builder()
        .with_local(Passive(Rc::new(LocalExt("local"))), LOCAL_TYPE)
        .with_shared(Passive(SharedExt("shared")), SHARED_TYPE)
        .build();
    wrapper.set_capabilities(Describe);
    wrapper.drop_local();
    assert!(wrapper.local_any.is_none());
    assert!(wrapper.shared_any.is_some());
    let mut registry: CapabilityRegistry<LocalExt, SharedExt> = CapabilityRegistry::new();
    wrapper.register_traits(&mut registry, "ext");
    let bindings = vec![(CAPABILITY.to_string(), "ext".to_string())];
    let mut caps = registry.resolve_bindings(&vec![CAPABILITY], &bindings).unwrap();
    assert_eq!(caps.require_local(LOCAL_TRAIT).map(|l| l.0).ok(), None);
    assert_eq!(caps.require_shared(SHARED_TRAIT).unwrap().0, "shared");
    wrapper.drop_shared();
    assert!(wrapper.shared_any.is_none());
    let mut registry: CapabilityRegistry<LocalExt, SharedExt> = CapabilityRegistry::new();
    wrapper.register_traits(&mut registry, "ext");
    assert!(!registry.contains("ext"));
}

#[test]
fn an_active_local_variant_is_one_value() {
    let wrapper = both_active();
    let runs = wrapper.local_extension.unwrap();
    let provides = wrapper.local_any.unwrap();
    assert!(Rc::ptr_eq(&runs, &provides));
}

#[test]
fn variants_register_their_traits() {
    let mut wrapper = both_active();
    let mut registry: CapabilityRegistry<LocalExt, SharedExt> = CapabilityRegistry::new();
    wrapper.register_traits(&mut registry, "ext");
    assert!(!registry.contains("ext"), "nothing describes the capabilities yet");
    wrapper.set_capabilities(Describe);
    wrapper.register_traits(&mut registry, "ext");
    assert!(registry.contains("ext"));
    let bindings = vec![(CAPABILITY.to_string(), "ext".to_string())];
    let mut caps = registry.resolve_bindings(&vec![CAPABILITY], &bindings).unwrap();
    assert_eq!(caps.require_local(LOCAL_TRAIT).unwrap().0, "local");
    assert_eq!(caps.require_shared(SHARED_TRAIT).unwrap().0, "shared");
}

#[test]
fn two_lifecycles_end_with_both_results_or_the_first_error() {
    let ok: Result<(i32, i32), LifecycleError<&str>> = join_lifecycles(Ok(1), Ok(Ok(2)));
    assert_eq!(ok.unwrap(), (1, 2));
    let local: Result<(i32, i32), LifecycleError<&str>> =
        join_lifecycles(Err("local"), Ok(Err("shared")));
    assert!(matches!(local, Err(LifecycleError::Failed("local"))));
    let shared: Result<(i32, i32), LifecycleError<&str>> =
        join_lifecycles(Ok(1), Ok(Err("shared")));
    assert!(matches!(shared, Err(LifecycleError::Failed("shared"))));
    let panicked: Result<(i32, i32), LifecycleError<&str>> =
        join_lifecycles(Err("local"), Err("boom".to_string()));
    match panicked {
        Err(LifecycleError::InternalError { message }) => {
            assert_eq!(message, "shared extension task panicked: boom")
        }
        other => panic!("unexpected outcome {other:?}"),
    }
}

fn shutdown(deadline: u64) -> ExtensionControlMsg {
    ExtensionControlMsg::Shutdown { deadline, reason: "done".to_string() }
}

fn is_shutdown(message: &ExtensionControlMsg, at: u64) -> bool {
    matches!(message, ExtensionControlMsg::Shutdown { deadline, reason }
        if *deadline == at && reason == "done")
}

#[test]
fn a_shutdown_is_held_back_until_its_deadline() {
    let mut channel = ControlChannel::new();
    assert!(matches!(channel.recv(5), RecvAction::Receive));
    assert!(matches!(channel.received(Ok(shutdown(9)), 5), RecvAction::SleepUntil(9)));
    assert!(matches!(channel.recv(8), RecvAction::SleepUntil(9)));
    match channel.recv(9) {
        RecvAction::Return(Ok(message)) => assert!(is_shutdown(&message, 9)),
        other => panic!("unexpected action {other:?}"),
    }
    assert!(matches!(channel.recv(10), RecvAction::Return(Err(RecvError::Closed))));
}

#[test]
fn a_shutdown_that_is_due_comes_at_once() {
    let mut channel = ControlChannel::new();
    match channel.received(Ok(shutdown(5)), 5) {
        RecvAction::Return(Ok(message)) => assert!(is_shutdown(&message, 5)),
        other => panic!("unexpected action {other:?}"),
    }
    assert!(matches!(channel.recv(5), RecvAction::Return(Err(RecvError::Closed))));
}

#[test]
fn the_deadline_delivers_the_shutdown() {
    let mut channel = ControlChannel::new();
    let _ = channel.received(Ok(shutdown(9)), 5);
    assert!(is_shutdown(&channel.deadline_reached(), 9));
    assert!(matches!(channel.recv(9), RecvAction::Return(Err(RecvError::Closed))));
}

#[test]
fn other_messages_and_errors_pass() {
    let mut channel = ControlChannel::new();
    let action = channel.received(Ok(ExtensionControlMsg::CollectTelemetry), 0);
    assert!(matches!(action, RecvAction::Return(Ok(ExtensionControlMsg::CollectTelemetry))));
    let action = channel.received(Err(RecvError::Empty), 0);
    assert!(matches!(action, RecvAction::Return(Err(RecvError::Empty))));
    assert!(matches!(channel.recv(0), RecvAction::Receive));
}

fn scope(value: &'static str) -> Capabilities<LocalExt, SharedExt> {
    let mut registry: CapabilityRegistry<LocalExt, SharedExt> = CapabilityRegistry::new();
    registry.register_all_local(
        "ext",
        vec![CapabilityRegistration::new(LOCAL_TRAIT, Rc::new(LocalExt(value)), CAPABILITY)],
    );
    registry.register_all_shared(
        "ext",
        vec![CapabilityRegistration::new(SHARED_TRAIT, Arc::new(SharedExt(value)), CAPABILITY)],
    );
    let bindings = vec![(CAPABILITY.to_string(), "ext".to_string())];
    registry.resolve_bindings(&vec![CAPABILITY], &bindings).unwrap()
}

#[test]
fn each_variant_claims_from_its_own_scope() {
    let mut dependencies = ExtensionDependencies::new(scope("for local"), scope("for shared"));
    let local = dependencies
        .bind_local(|mut scope| {
            let built = scope.require(LOCAL_TRAIT).map(|dep| dep.0);
            (scope, built)
        })
        .unwrap();
    assert_eq!(local.into_inner(), "for local");
    let shared = dependencies
        .bind_shared(|mut scope| {
            let built = scope.require(SHARED_TRAIT).map(|dep| dep.0);
            (scope, built)
        })
        .unwrap();
    assert_eq!(shared.into_inner(), "for shared");
}

#[test]
fn each_variant_claims_a_binding_once() {
    let mut dependencies = ExtensionDependencies::new(scope("for local"), scope("for shared"));
    let error = dependencies
        .bind_local(|mut scope| {
            assert_eq!(scope.require(LOCAL_TRAIT).unwrap().0, "for local");
            assert!(matches!(scope.optional(LOCAL_TRAIT), Err(BindingError::AlreadyClaimed)));
            let built = scope.require(LOCAL_TRAIT);
            (scope, built)
        })
        .unwrap_err();
    assert_eq!(
        error.message(),
        "Capability dependency was already claimed by this variant of the extension."
    );
    let error = dependencies
        .bind_shared(|mut scope| {
            assert_eq!(scope.optional(SHARED_TRAIT).unwrap().unwrap().0, "for shared");
            assert!(matches!(scope.optional(SHARED_TRAIT), Err(BindingError::AlreadyClaimed)));
            let built = scope.require(SHARED_TRAIT);
            (scope, built)
        })
        .unwrap_err();
    assert!(matches!(error, BindingError::AlreadyClaimed));
}

#[test]
fn missing_dependencies_are_errors_or_none() {
    let mut dependencies: ExtensionDependencies<LocalExt, SharedExt> =
        ExtensionDependencies::empty();
    let error = dependencies
        .bind_local(|mut scope| {
            assert!(scope.optional(LOCAL_TRAIT).unwrap().is_none());
            let built = scope.require(LOCAL_TRAIT);
            (scope, built)
        })
        .unwrap_err();
    assert!(matches!(error, BindingError::Missing { .. }));
    let error = dependencies
        .bind_shared(|mut scope| {
            assert!(scope.optional(SHARED_TRAIT).unwrap().is_none());
            let built = scope.require(SHARED_TRAIT);
            (scope, built)
        })
        .unwrap_err();
    assert!(matches!(error, BindingError::Missing { .. }));
}

#[test]
fn capability_errors_name_their_source() {
    let source = CapabilityErrorSource::new("kv".to_string(), "key_value_store");
    assert_eq!(source.extension(), "kv");
    let error = source.wrap("disk full".to_string());
    assert_eq!(
        error.message(&error.source),
        "capability `key_value_store` on extension `kv` failed: disk full"
    );
    let same = CapabilityError::new("kv".to_string(), "key_value_store", "disk full".to_string());
    assert_eq!(same.message(&same.source), error.message(&error.source));
    let io = std::io::Error::other("no space");
    let wrapped = source.wrap(io);
    assert_eq!(wrapped.extension, "kv");
    assert_eq!(wrapped.capability, "key_value_store");
    assert_eq!(
        wrapped.message(&wrapped.source.to_string()),
        "capability `key_value_store` on extension `kv` failed: no space"
    );
    let back: std::io::Error = wrapped.source;
    assert_eq!(back.kind(), std::io::ErrorKind::Other);
    let boxed: Box<dyn std::error::Error + Send + Sync> = Box::new(back);
    let erased = source.wrap(boxed);
    assert!(erased.source.downcast_ref::<std::io::Error>().is_some());
}

#[test]
fn a_key_has_its_last_value() {
    let mut table = KeyValueTable::new();
    assert_eq!(table.get("a"), None);
    table.set("a", vec![1, 2]);
    table.set("b", vec![3]);
    table.set("a", vec![]);
    assert_eq!(table.get("a"), Some(vec![]));
    assert_eq!(table.get("b"), Some(vec![3]));
    table.delete("a");
    table.delete("c");
    assert_eq!(table.get("a"), None);
    assert_eq!(table.get("b"), Some(vec![3]));
}

#[test]
fn the_count_survives_a_restart() {
    let mut exporter = SharedKvExporter::restore(None);
    for n in 1..101u8 {
        match exporter.start(KvMessage::Data) {
            KvStep::Acknowledge { persist } => {
                assert_eq!(persist, vec![n, 0, 0, 0, 0, 0, 0, 0])
            }
            other => panic!("unexpected step {other:?}"),
        }
    }
    assert!(matches!(exporter.start(KvMessage::OtherControl), KvStep::Ignore));
    let _ = exporter.start(KvMessage::Data);
    match exporter.start(KvMessage::Shutdown) {
        KvStep::Stop { last } => assert_eq!(SharedKvExporter::restore(Some(last)).count, 101),
        other => panic!("unexpected step {other:?}"),
    }
}

#[test]
fn bytes_that_are_no_count_are_ignored() {
    assert_eq!(SharedKvExporter::restore(Some(vec![1, 2, 3])).count, 0);
    assert_eq!(SharedKvExporter::restore(Some(vec![0, 1, 0, 0, 0, 0, 0, 0])).count, 256);
}
