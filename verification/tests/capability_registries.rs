use dataflow_extensions::capability::registry as first;
use dataflow_extensions::capability::registry::AdaptToLocal;
use dataflow_extensions::extension::registry as second;
use dataflow_extensions::extension::registry::{
    CapabilityHandle, CapabilityKeys, ConsumerType, RegistrationSource,
};
use dataflow_extensions::extensions::ExtensionError;
use dataflow_extensions::extensions::bearer_token_provider::{BearerToken, Secret};
use dataflow_extensions::handles::TraitKey;
use dataflow_extensions::local::extensions::LocalExtensionRegistry;
use dataflow_extensions::providers::{BindingError, CapabilityRegistration};
use std::rc::Rc;
use std::sync::Arc;

#[derive(Clone, Debug)]
struct LocalToken {
    token: String,
}

#[derive(Clone, Debug)]
struct SharedToken {
    token: String,
}

type Shared = Box<SharedToken>;
type First = first::CapabilityRegistry<LocalToken, Adaptable>;
type Second = second::CapabilityRegistry<LocalToken, Shared>;

#[derive(Clone, Debug)]
struct Adaptable(Shared);

impl AdaptToLocal<LocalToken> for Adaptable {
    fn adapt_to_local(&self) -> LocalToken {
        LocalToken {
            token: self.0.token.clone(),
        }
    }
}

impl LocalToken {
    fn get_token(&self) -> BearerToken {
        BearerToken::new(Secret::new(self.token.clone()), 0)
    }
}

impl SharedToken {
    fn get_token(&self) -> BearerToken {
        BearerToken::new(Secret::new(self.token.clone()), 0)
    }
}

const CAPABILITY: &str = "bearer_token_provider";
const LOCAL_TRAIT: u64 = 10;
const SHARED_TRAIT: u64 = 11;
const OTHER_TRAIT: u64 = 12;
const KEYS: CapabilityKeys = CapabilityKeys {
    name: CAPABILITY,
    local_id: LOCAL_TRAIT,
    shared_id: SHARED_TRAIT,
};

fn known() -> Vec<&'static str> {
    vec![CAPABILITY, "key_value_store"]
}

fn shared(token: &str) -> Shared {
    Box::new(SharedToken {
        token: token.to_string(),
    })
}

fn local(token: &str) -> Rc<LocalToken> {
    Rc::new(LocalToken {
        token: token.to_string(),
    })
}

fn bind(capability: &str, extension: &str) -> Vec<(String, String)> {
    vec![(capability.to_string(), extension.to_string())]
}

fn provide_first(registry: &mut First, name: &str, token: &str) {
    let mut registration = CapabilityRegistration::new(
        SHARED_TRAIT,
        Arc::new(Adaptable(shared(token))),
        CAPABILITY,
    );
    registration.local_trait_id = Some(LOCAL_TRAIT);
    registry.register_all_shared(name, vec![registration]);
}

fn provide_second(registry: &mut Second, name: &str, token: &str) {
    registry.register_all_shared(
        name,
        vec![CapabilityRegistration::new(
            SHARED_TRAIT,
            Arc::new(shared(token)),
            CAPABILITY,
        )],
    );
}

fn provide_local_first(registry: &mut First, name: &str, token: &str) {
    registry.register_all_local(
        name,
        vec![CapabilityRegistration::new(LOCAL_TRAIT, local(token), CAPABILITY)],
    );
}

fn provide_local_second(registry: &mut Second, name: &str, token: &str) {
    registry.register_all_local(
        name,
        vec![CapabilityRegistration::new(LOCAL_TRAIT, local(token), CAPABILITY)],
    );
}

fn provide_other_first(registry: &mut First, name: &str, capability: &'static str) {
    registry.register_all_shared(
        name,
        vec![CapabilityRegistration::new(
            OTHER_TRAIT,
            Arc::new(Adaptable(shared("fake"))),
            capability,
        )],
    );
}

fn provide_other_second(registry: &mut Second, name: &str, capability: &'static str) {
    registry.register_all_shared(
        name,
        vec![CapabilityRegistration::new(
            OTHER_TRAIT,
            Arc::new(shared("fake")),
            capability,
        )],
    );
}

fn token_of(handle: CapabilityHandle<LocalToken, Shared>) -> BearerToken {
    match handle {
        CapabilityHandle::Local(l) => l.get_token(),
        CapabilityHandle::Shared(s) => s.get_token(),
    }
}

#[test]
fn test_shared_registration_and_get() {
    let mut registry = First::new();
    provide_first(&mut registry, "ext", "shared_token");
    let provider = registry.get("ext", SHARED_TRAIT).unwrap();
    assert_eq!(provider.0.get_token().token.secret(), "shared_token");
}

#[test]
fn test_local_registration_and_resolve() {
    let mut registry = First::new();
    provide_local_first(&mut registry, "ext", "local_token");
    let mut caps = registry
        .resolve_bindings(&known(), &bind(CAPABILITY, "ext"))
        .unwrap();
    let handle = caps.require_local(LOCAL_TRAIT).unwrap();
    assert_eq!(handle.get_token().token.secret(), "local_token");
}

#[test]
fn test_extension_capabilities_source_modes_shared() {
    let mut registry = Second::new();
    registry.register_all_shared(
        "cloned_ext",
        vec![CapabilityRegistration::new(
            SHARED_TRAIT,
            Arc::new(shared("cloned_mode")),
            CAPABILITY,
        )],
    );
    let instance = CapabilityRegistration::new_with_source(
        SHARED_TRAIT,
        Arc::new(shared("instance_mode")),
        CAPABILITY,
        RegistrationSource::Instance,
    );
    assert_eq!(instance.source, RegistrationSource::Instance);
    registry.register_all_shared("instance_ext", vec![instance]);

    let cloned_provider = registry.get("cloned_ext", SHARED_TRAIT).unwrap();
    let instance_provider = registry.get("instance_ext", SHARED_TRAIT).unwrap();
    assert_eq!(cloned_provider.get_token().token.secret(), "cloned_mode");
    assert_eq!(instance_provider.get_token().token.secret(), "instance_mode");
}

#[test]
fn test_extension_capabilities_source_modes_local() {
    let mut registry = Second::new();
    registry.register_all_local(
        "local_cloned_ext",
        vec![CapabilityRegistration::new(
            LOCAL_TRAIT,
            local("local_cloned_mode"),
            CAPABILITY,
        )],
    );
    registry.register_all_local(
        "local_instance_ext",
        vec![CapabilityRegistration::new_with_source(
            LOCAL_TRAIT,
            local("local_instance_mode"),
            CAPABILITY,
            RegistrationSource::Instance,
        )],
    );

    let mut caps = registry
        .resolve_bindings(
            &known(),
            &bind(CAPABILITY, "local_instance_ext"),
            ConsumerType::Local,
        )
        .unwrap();
    let handle = caps.require(KEYS).unwrap();
    assert_eq!(token_of(handle).token.secret(), "local_instance_mode");

    let mut caps = registry
        .resolve_bindings(
            &known(),
            &bind(CAPABILITY, "local_cloned_ext"),
            ConsumerType::Local,
        )
        .unwrap();
    let handle = caps.require(KEYS).unwrap();
    assert_eq!(token_of(handle).token.secret(), "local_cloned_mode");
}

#[test]
fn registry_test_register_and_get() {
    let mut registry = First::new();
    provide_first(&mut registry, "test_ext", "test_token");
    assert!(registry.get("test_ext", SHARED_TRAIT).is_some());

    let mut registry = Second::new();
    provide_second(&mut registry, "test_ext", "test_token");
    assert!(registry.get("test_ext", SHARED_TRAIT).is_some());
}

#[test]
fn registry_test_get_returns_independent_clones() {
    let mut registry = First::new();
    provide_first(&mut registry, "ext", "shared_test");
    let a = registry.get("ext", SHARED_TRAIT).unwrap();
    let b = registry.get("ext", SHARED_TRAIT).unwrap();
    assert!(!std::ptr::eq(&*a.0, &*b.0));

    let mut registry = Second::new();
    provide_second(&mut registry, "ext", "shared_test");
    let a = registry.get("ext", SHARED_TRAIT).unwrap();
    let b = registry.get("ext", SHARED_TRAIT).unwrap();
    assert!(!std::ptr::eq(&*a, &*b));
}

#[test]
fn registry_test_registry_clone_produces_deep_copy() {
    let mut registry = First::new();
    provide_first(&mut registry, "ext", "clone_test");
    let cloned = registry.clone();
    let from_original = registry.get("ext", SHARED_TRAIT).unwrap();
    let from_clone = cloned.get("ext", SHARED_TRAIT).unwrap();
    assert!(!std::ptr::eq(&*from_original.0, &*from_clone.0));
    assert_eq!(from_clone.0.token, "clone_test");

    let mut registry = Second::new();
    provide_second(&mut registry, "ext", "clone_test");
    let cloned = registry.clone();
    let from_original = registry.get("ext", SHARED_TRAIT).unwrap();
    let from_clone = cloned.get("ext", SHARED_TRAIT).unwrap();
    assert!(!std::ptr::eq(&*from_original, &*from_clone));
    provide_second(&mut registry, "later", "t");
    assert!(!cloned.contains("later"));
}

#[test]
fn registry_test_not_found() {
    assert!(First::new().get("missing", SHARED_TRAIT).is_none());
    assert!(Second::new().get("missing", SHARED_TRAIT).is_none());
}

#[test]
fn registry_test_extension_error_display() {
    let not_found = ExtensionError::NotFound {
        name: "missing_ext".to_string(),
    };
    let display = not_found.message();
    assert!(display.contains("missing_ext"));
    assert!(display.contains("not found"));

    let not_impl = ExtensionError::TraitNotImplemented {
        name: "my_ext".to_string(),
        expected: "BearerTokenProvider",
    };
    let display = not_impl.message();
    assert!(display.contains("my_ext"));
    assert!(display.contains("BearerTokenProvider"));
}

#[test]
fn registry_test_registry_debug() {
    let mut registry = First::new();
    provide_first(&mut registry, "test_ext", "test");
    let debug_str = format!("{:?}", registry);
    assert!(debug_str.contains("CapabilityRegistry"));
    assert!(debug_str.contains("test_ext"));

    let mut registry = Second::new();
    provide_second(&mut registry, "test_ext", "test");
    let debug_str = format!("{:?}", registry);
    assert!(debug_str.contains("CapabilityRegistry"));
    assert!(debug_str.contains("test_ext"));
}

#[test]
fn registry_test_contains_and_len() {
    let mut registry = First::new();
    assert!(registry.is_empty());
    assert_eq!(registry.len(), 0);
    provide_first(&mut registry, "ext", "test");
    assert!(registry.contains("ext"));
    assert!(!registry.contains("missing"));
    assert_eq!(registry.len(), 1);

    let mut registry = Second::new();
    assert!(registry.is_empty());
    assert_eq!(registry.len(), 0);
    provide_second(&mut registry, "ext", "test");
    assert!(registry.contains("ext"));
    assert!(!registry.contains("missing"));
    assert_eq!(registry.len(), 1);
}

#[test]
fn registry_test_get_extension_actually_works() {
    let mut registry = First::new();
    provide_first(&mut registry, "auth", "real_token");
    let provider = registry.get("auth", SHARED_TRAIT).unwrap();
    assert_eq!(provider.0.get_token().token.secret(), "real_token");

    let mut registry = Second::new();
    provide_second(&mut registry, "auth", "real_token");
    let provider = registry.get("auth", SHARED_TRAIT).unwrap();
    assert_eq!(provider.get_token().token.secret(), "real_token");
}

#[test]
fn registry_test_multiple_extensions_same_trait() {
    let mut registry = First::new();
    provide_first(&mut registry, "azure_prod", "prod_token");
    provide_first(&mut registry, "azure_staging", "staging_token");
    assert_eq!(registry.len(), 2);
    assert_eq!(registry.get("azure_prod", SHARED_TRAIT).unwrap().0.token, "prod_token");
    assert_eq!(
        registry.get("azure_staging", SHARED_TRAIT).unwrap().0.token,
        "staging_token"
    );

    let mut registry = Second::new();
    provide_second(&mut registry, "azure_prod", "prod_token");
    provide_second(&mut registry, "azure_staging", "staging_token");
    assert_eq!(registry.len(), 2);
    assert_eq!(registry.get("azure_prod", SHARED_TRAIT).unwrap().token, "prod_token");
    assert_eq!(
        registry.get("azure_staging", SHARED_TRAIT).unwrap().token,
        "staging_token"
    );

    let key = TraitKey {
        id: SHARED_TRAIT,
        name: "BearerTokenProvider",
    };
    let mut registry: LocalExtensionRegistry<LocalToken, SharedToken> =
        LocalExtensionRegistry::new();
    let prod = SharedToken {
        token: "prod_token".to_string(),
    };
    let staging = SharedToken {
        token: "staging_token".to_string(),
    };
    registry.register("azure_prod", key, Arc::new(prod));
    registry.register("azure_staging", key, Arc::new(staging));
    assert_eq!(registry.len(), 2);
    let p1 = registry.get_shared("azure_prod", key).unwrap();
    let p2 = registry.get_shared("azure_staging", key).unwrap();
    assert!(!Arc::ptr_eq(&p1, &p2));
}

#[test]
fn registry_test_resolve_bindings_unknown_extension() {
    let bindings = bind(CAPABILITY, "nonexistent");
    let messages = vec![
        First::new().resolve_bindings(&known(), &bindings).unwrap_err().message(),
        Second::new()
            .resolve_bindings(&known(), &bindings, ConsumerType::Local)
            .unwrap_err()
            .message(),
    ];
    for msg in messages {
        assert!(
            msg.contains("nonexistent"),
            "should name the missing extension: {msg}"
        );
        assert!(msg.contains("no extension with that name exists"), "{msg}");
    }
}

#[test]
fn registry_test_resolve_bindings_unknown_capability_name() {
    let bindings = bind("totally_made_up", "azure_auth");
    let mut one = First::new();
    provide_first(&mut one, "azure_auth", "token");
    let mut two = Second::new();
    provide_second(&mut two, "azure_auth", "token");
    let messages = vec![
        one.resolve_bindings(&known(), &bindings).unwrap_err().message(),
        two.resolve_bindings(&known(), &bindings, ConsumerType::Local)
            .unwrap_err()
            .message(),
    ];
    for msg in messages {
        assert!(msg.contains("Unknown capability"), "should say unknown: {msg}");
        assert!(msg.contains("totally_made_up"), "{msg}");
        assert!(
            msg.contains("bearer_token_provider"),
            "should list known caps: {msg}"
        );
    }
}

#[test]
fn registry_test_resolve_bindings_valid() {
    let bindings = bind(CAPABILITY, "azure_auth");
    let mut one = First::new();
    provide_first(&mut one, "azure_auth", "token");
    assert!(!one.resolve_bindings(&known(), &bindings).unwrap().is_empty());

    let mut two = Second::new();
    provide_second(&mut two, "azure_auth", "token");
    assert!(
        !two.resolve_bindings(&known(), &bindings, ConsumerType::Local)
            .unwrap()
            .is_empty()
    );
}

#[test]
fn registry_test_resolve_bindings_known_type_no_provider() {
    let bindings = bind(CAPABILITY, "other_ext");
    let mut one = First::new();
    provide_other_first(&mut one, "other_ext", "other_cap");
    let mut two = Second::new();
    provide_other_second(&mut two, "other_ext", "other_cap");
    let messages = vec![
        one.resolve_bindings(&known(), &bindings).unwrap_err().message(),
        two.resolve_bindings(&known(), &bindings, ConsumerType::Local)
            .unwrap_err()
            .message(),
    ];
    for msg in messages {
        assert!(
            msg.contains("no loaded extension provides it"),
            "should say no provider: {msg}"
        );
        assert!(msg.contains("bearer_token_provider"), "{msg}");
    }
}

#[test]
fn registry_test_resolve_bindings_extension_lacks_specific_cap() {
    let bindings = bind(CAPABILITY, "other_ext");
    let mut one = First::new();
    provide_first(&mut one, "azure_auth", "token");
    provide_other_first(&mut one, "other_ext", "other_cap");
    let mut two = Second::new();
    provide_second(&mut two, "azure_auth", "token");
    provide_other_second(&mut two, "other_ext", "other_cap");
    let messages = vec![
        one.resolve_bindings(&known(), &bindings).unwrap_err().message(),
        two.resolve_bindings(&known(), &bindings, ConsumerType::Local)
            .unwrap_err()
            .message(),
    ];
    for msg in messages {
        assert!(
            msg.contains("does not provide capability"),
            "should say missing: {msg}"
        );
        assert!(msg.contains("other_ext"), "{msg}");
        assert!(msg.contains("other_cap"), "should list what it provides: {msg}");
    }
}

#[test]
fn registry_test_require_missing_capability() {
    let mut caps: first::Capabilities<LocalToken, Adaptable> = first::Capabilities::new();
    let result = caps.require_local(LOCAL_TRAIT);
    assert!(result.is_err());
    let msg = result.err().unwrap().message();
    assert!(msg.contains("Missing required capability"), "{msg}");
    assert!(caps.require_shared(SHARED_TRAIT).is_err());

    let mut caps: second::Capabilities<LocalToken, Shared> = second::Capabilities::new();
    let result = caps.require(KEYS);
    assert!(result.is_err());
    let msg = result.err().unwrap().message();
    assert!(msg.contains("Missing required capability"), "{msg}");
    assert!(msg.contains("bearer_token_provider"), "{msg}");
}

#[test]
fn registry_test_unused_bindings_detected() {
    let bindings = bind(CAPABILITY, "azure_auth");
    let mut one = First::new();
    provide_first(&mut one, "azure_auth", "token");
    let mut caps = one.resolve_bindings(&known(), &bindings).unwrap();
    assert_eq!(caps.unused_bindings(), vec!["bearer_token_provider"]);
    let _ = caps.require_local(LOCAL_TRAIT).unwrap();
    let unused = caps.unused_bindings();
    assert!(
        unused.is_empty(),
        "after require_local(), should be empty: {unused:?}"
    );

    let mut two = Second::new();
    provide_second(&mut two, "azure_auth", "token");
    let mut caps = two
        .resolve_bindings(&known(), &bindings, ConsumerType::Local)
        .unwrap();
    assert_eq!(caps.unused_bindings(), vec!["bearer_token_provider"]);
    let _ = caps.require(KEYS).unwrap();
    let unused = caps.unused_bindings();
    assert!(
        unused.is_empty(),
        "after require(), should be empty: {unused:?}"
    );
}

#[test]
fn registry_test_local_consumer_prefers_local_variant() {
    let bindings = bind(CAPABILITY, "auth");
    let mut one = First::new();
    provide_first(&mut one, "auth", "shared_token");
    provide_local_first(&mut one, "auth", "local_token");
    let mut caps = one.resolve_bindings(&known(), &bindings).unwrap();
    let auth = caps.require_local(LOCAL_TRAIT).unwrap();
    assert_eq!(auth.get_token().token.secret(), "local_token");

    let mut two = Second::new();
    provide_second(&mut two, "auth", "shared_token");
    provide_local_second(&mut two, "auth", "local_token");
    let mut caps = two
        .resolve_bindings(&known(), &bindings, ConsumerType::Local)
        .unwrap();
    let auth = caps.require(KEYS).unwrap();
    assert_eq!(token_of(auth).token.secret(), "local_token");
}

#[test]
fn registry_test_shared_consumer_uses_shared_variant() {
    let bindings = bind(CAPABILITY, "auth");
    let mut one = First::new();
    provide_first(&mut one, "auth", "shared_token");
    provide_local_first(&mut one, "auth", "local_token");
    let mut caps = one.resolve_bindings(&known(), &bindings).unwrap();
    let auth = caps.require_shared(SHARED_TRAIT).unwrap();
    assert_eq!(auth.0.get_token().token.secret(), "shared_token");

    let mut two = Second::new();
    provide_second(&mut two, "auth", "shared_token");
    provide_local_second(&mut two, "auth", "local_token");
    let mut caps = two
        .resolve_bindings(&known(), &bindings, ConsumerType::Shared)
        .unwrap();
    let auth = caps.require(KEYS).unwrap();
    assert_eq!(token_of(auth).token.secret(), "shared_token");
}

#[test]
fn registry_test_shared_consumer_rejects_local_only_provider() {
    let bindings = bind(CAPABILITY, "auth");
    let mut one = First::new();
    provide_local_first(&mut one, "auth", "local_only_token");
    let mut caps = one.resolve_bindings(&known(), &bindings).unwrap();
    let result = caps.require_shared(SHARED_TRAIT);
    assert!(result.is_err());

    let mut two = Second::new();
    provide_local_second(&mut two, "auth", "local_only_token");
    let err = two
        .resolve_bindings(&known(), &bindings, ConsumerType::Shared)
        .unwrap_err();
    let msg = err.message();
    assert!(msg.contains("does not provide capability"), "{msg}");
    assert!(msg.contains("bearer_token_provider"), "{msg}");
}

#[test]
fn a_shared_provider_is_adapted_for_local_consumers() {
    let mut one = First::new();
    provide_first(&mut one, "auth", "shared_token");
    let mut caps = one
        .resolve_bindings(&known(), &bind(CAPABILITY, "auth"))
        .unwrap();
    assert!(!caps.consumed_local());
    assert!(!caps.consumed_shared());
    let auth = caps.optional_local(LOCAL_TRAIT).unwrap();
    assert_eq!(auth.token, "shared_token");
    assert!(caps.consumed_local());
    assert!(!caps.consumed_shared());
    let auth = caps.optional_shared(SHARED_TRAIT).unwrap();
    assert_eq!(auth.0.token, "shared_token");
    assert!(caps.consumed_shared());
}

#[test]
fn a_local_consumer_falls_back_to_the_shared_variant() {
    let mut two = Second::new();
    provide_second(&mut two, "auth", "shared_token");
    let mut caps = two
        .resolve_bindings(&known(), &bind(CAPABILITY, "auth"), ConsumerType::Local)
        .unwrap();
    assert!(matches!(
        caps.optional(KEYS),
        Some(CapabilityHandle::Shared(s)) if s.token == "shared_token"
    ));
}

#[test]
fn messages_of_failed_bindings_are_complete() {
    let mut one = First::new();
    provide_other_first(&mut one, "other_ext", "other_cap");
    let unknown = one.resolve_bindings(&known(), &bind("nope", "other_ext")).unwrap_err();
    assert_eq!(
        unknown.message(),
        "Unknown capability 'nope'. Known capability types: [bearer_token_provider, key_value_store]."
    );
    assert!(matches!(unknown, BindingError::UnknownCapability { .. }));
    let absent = one.resolve_bindings(&known(), &bind(CAPABILITY, "gone")).unwrap_err();
    assert_eq!(
        absent.message(),
        "Capability binding 'bearer_token_provider' references extension 'gone', but no extension with that name exists. Check the 'extensions' section of your pipeline config."
    );
    let unprovided = one.resolve_bindings(&known(), &bind(CAPABILITY, "other_ext")).unwrap_err();
    assert_eq!(
        unprovided.message(),
        "Capability 'bearer_token_provider' is a known type but no loaded extension provides it. Loaded extensions: [other_ext]. Add an extension that provides 'bearer_token_provider' to your config."
    );
    provide_first(&mut one, "azure_auth", "t");
    let lacking = one.resolve_bindings(&known(), &bind(CAPABILITY, "other_ext")).unwrap_err();
    assert_eq!(
        lacking.message(),
        "Extension 'other_ext' does not provide capability 'bearer_token_provider'. It provides: [other_cap]."
    );
    let mut caps: second::Capabilities<LocalToken, Shared> = second::Capabilities::new();
    assert_eq!(
        caps.require(KEYS).unwrap_err().message(),
        "Missing required capability 'bearer_token_provider'. Add to your node config:\n  capabilities:\n    bearer_token_provider: <extension_instance_name>"
    );
}

#[test]
fn the_first_bad_binding_is_reported() {
    let mut one = First::new();
    provide_first(&mut one, "azure_auth", "t");
    let bindings = vec![
        (CAPABILITY.to_string(), "azure_auth".to_string()),
        ("a".to_string(), "missing".to_string()),
        ("nope".to_string(), "azure_auth".to_string()),
    ];
    assert!(matches!(
        one.resolve_bindings(&known(), &bindings),
        Err(BindingError::ExtensionMissing { capability, extension })
            if capability == "a" && extension == "missing"
    ));
}

/// Counts how often it was cloned from the first one.
#[derive(Debug)]
struct Generation(u32);

impl Clone for Generation {
    fn clone(&self) -> Self {
        Generation(self.0 + 1)
    }
}

impl AdaptToLocal<Generation> for Generation {
    fn adapt_to_local(&self) -> Generation {
        Generation(self.0 + 100)
    }
}

#[test]
fn shared_values_are_cloned_and_local_instances_are_not() {
    let mut registry: first::CapabilityRegistry<Generation, Generation> =
        first::CapabilityRegistry::new();
    let local = Rc::new(Generation(0));
    registry.register_all_local(
        "ext",
        vec![CapabilityRegistration::new(LOCAL_TRAIT, Rc::clone(&local), CAPABILITY)],
    );
    registry.register_all_shared(
        "ext",
        vec![CapabilityRegistration::new(SHARED_TRAIT, Arc::new(Generation(0)), CAPABILITY)],
    );
    assert_eq!(registry.get("ext", SHARED_TRAIT).unwrap().0, 1);
    let copy = registry.clone();
    assert_eq!(copy.get("ext", SHARED_TRAIT).unwrap().0, 2);
    let bindings = vec![(CAPABILITY.to_string(), "ext".to_string())];
    let mut caps = copy.resolve_bindings(&vec![CAPABILITY], &bindings).unwrap();
    assert_eq!(caps.require_shared(SHARED_TRAIT).unwrap().0, 3);
    assert!(Rc::ptr_eq(&caps.require_local(LOCAL_TRAIT).unwrap(), &local));
}

#[test]
fn all_values_of_a_consumer_are_cloned() {
    let mut registry: second::CapabilityRegistry<Generation, Generation> =
        second::CapabilityRegistry::new();
    registry.register_all_local(
        "ext",
        vec![CapabilityRegistration::new(LOCAL_TRAIT, Rc::new(Generation(0)), CAPABILITY)],
    );
    registry.register_all_shared(
        "ext",
        vec![CapabilityRegistration::new(SHARED_TRAIT, Arc::new(Generation(10)), CAPABILITY)],
    );
    let bindings = vec![(CAPABILITY.to_string(), "ext".to_string())];
    let copy = registry.clone();
    let mut caps = copy
        .resolve_bindings(&vec![CAPABILITY], &bindings, ConsumerType::Local)
        .unwrap();
    match caps.require(KEYS).unwrap() {
        CapabilityHandle::Local(value) => assert_eq!(value.0, 3),
        CapabilityHandle::Shared(_) => panic!("a local consumer takes the local value"),
    }
    let mut caps = copy
        .resolve_bindings(&vec![CAPABILITY], &bindings, ConsumerType::Shared)
        .unwrap();
    match caps.require(KEYS).unwrap() {
        CapabilityHandle::Shared(value) => assert_eq!(value.0, 13),
        CapabilityHandle::Local(_) => panic!("a shared consumer takes the shared value"),
    }
}
