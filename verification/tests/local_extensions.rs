use dataflow_extensions::extensions::ExtensionError;
use dataflow_extensions::handles::TraitKey;
use dataflow_extensions::local::extensions::LocalExtensionRegistry;
use dataflow_extensions::shared::extensions::SharedExtensionRegistry;
use std::rc::Rc;
use std::sync::Arc;

#[derive(Debug)]
struct TestTokenProvider {
    token: String,
}

#[derive(Debug)]
struct TestLocalImpl {
    val: u64,
}

type Registry = LocalExtensionRegistry<TestLocalImpl, TestTokenProvider>;

const BEARER_TOKEN_PROVIDER: TraitKey = TraitKey {
    id: 1,
    name: "BearerTokenProvider",
};
const TEST_LOCAL_TRAIT: TraitKey = TraitKey {
    id: 2,
    name: "TestLocalTrait",
};
const DISPLAY: TraitKey = TraitKey {
    id: 3,
    name: "Display",
};

fn provider(token: &str) -> Arc<TestTokenProvider> {
    Arc::new(TestTokenProvider {
        token: token.to_string(),
    })
}

#[test]
fn test_shared_register_and_get() {
    let mut registry: Registry = LocalExtensionRegistry::new();
    registry.register("test_ext", BEARER_TOKEN_PROVIDER, provider("test_token"));

    let result = registry.get_shared("test_ext", BEARER_TOKEN_PROVIDER);
    assert!(result.is_ok());
    assert_eq!(result.unwrap().token, "test_token");
}

#[test]
fn test_shared_get_returns_shared_arc() {
    let mut registry: Registry = LocalExtensionRegistry::new();
    registry.register("ext", BEARER_TOKEN_PROVIDER, provider("shared_test"));

    let a = registry.get_shared("ext", BEARER_TOKEN_PROVIDER).unwrap();
    let b = registry.get_shared("ext", BEARER_TOKEN_PROVIDER).unwrap();

    assert!(Arc::ptr_eq(&a, &b));
}

#[test]
fn test_shared_registry_clone_shares_instances() {
    let mut registry: Registry = LocalExtensionRegistry::new();
    registry.register("ext", BEARER_TOKEN_PROVIDER, provider("clone_test"));

    let cloned = registry.clone();

    let from_original = registry.get_shared("ext", BEARER_TOKEN_PROVIDER).unwrap();
    let from_clone = cloned.get_shared("ext", BEARER_TOKEN_PROVIDER).unwrap();

    assert!(Arc::ptr_eq(&from_original, &from_clone));
}

#[test]
fn test_shared_not_found() {
    let registry: Registry = LocalExtensionRegistry::new();
    let result = registry.get_shared("missing", BEARER_TOKEN_PROVIDER);
    assert!(matches!(result, Err(ExtensionError::NotFound { .. })));
}

#[test]
fn test_shared_trait_not_implemented() {
    let mut registry: SharedExtensionRegistry<TestTokenProvider> = SharedExtensionRegistry::new();
    registry.register("my_ext", BEARER_TOKEN_PROVIDER, provider("test"));

    let result = registry.get("my_ext", DISPLAY);
    assert!(matches!(
        result,
        Err(ExtensionError::TraitNotImplemented { name, expected })
            if name == "my_ext" && expected == "Display"
    ));
    assert!(registry.contains("my_ext"));
}

#[test]
fn test_local_register_and_get() {
    let mut registry: Registry = LocalExtensionRegistry::new();
    let instance = TestLocalImpl { val: 42 };
    registry.register_local("limiter", TEST_LOCAL_TRAIT, Rc::new(instance));

    let result = registry.get("limiter", TEST_LOCAL_TRAIT);
    assert!(result.is_ok());
    assert_eq!(result.unwrap().val, 42);
}

#[test]
fn test_local_get_returns_shared_rc() {
    let mut registry: Registry = LocalExtensionRegistry::new();
    let instance = TestLocalImpl { val: 99 };
    registry.register_local("ext", TEST_LOCAL_TRAIT, Rc::new(instance));

    let a = registry.get("ext", TEST_LOCAL_TRAIT).unwrap();
    let b = registry.get("ext", TEST_LOCAL_TRAIT).unwrap();

    assert!(Rc::ptr_eq(&a, &b));
}

#[test]
fn test_local_not_found() {
    let registry: Registry = LocalExtensionRegistry::new();
    let result = registry.get("missing", TEST_LOCAL_TRAIT);
    assert!(matches!(result, Err(ExtensionError::NotFound { .. })));
}

#[test]
fn test_local_trait_not_implemented_when_only_shared_exists() {
    let mut registry: Registry = LocalExtensionRegistry::new();
    registry.register("auth", BEARER_TOKEN_PROVIDER, provider("t"));

    let result = registry.get("auth", TEST_LOCAL_TRAIT);
    assert!(matches!(
        result,
        Err(ExtensionError::TraitNotImplemented { .. })
    ));
}

#[test]
fn test_contains_checks_both_maps() {
    let mut registry: Registry = LocalExtensionRegistry::new();
    registry.register("shared_ext", BEARER_TOKEN_PROVIDER, provider("t"));
    registry.register_local("local_ext", TEST_LOCAL_TRAIT, Rc::new(TestLocalImpl { val: 1 }));

    assert!(registry.contains("shared_ext"));
    assert!(registry.contains("local_ext"));
    assert!(!registry.contains("missing"));
}

#[test]
fn test_len_counts_unique_names_across_maps() {
    let mut registry: Registry = LocalExtensionRegistry::new();
    assert!(registry.is_empty());
    registry.register("ext_a", BEARER_TOKEN_PROVIDER, provider("t"));
    registry.register_local("ext_b", TEST_LOCAL_TRAIT, Rc::new(TestLocalImpl { val: 1 }));

    assert_eq!(registry.len(), 2);
    assert!(!registry.is_empty());

    registry.register_local("ext_a", TEST_LOCAL_TRAIT, Rc::new(TestLocalImpl { val: 2 }));
    assert_eq!(registry.len(), 2);
    assert_eq!(registry.names().to_vec(), vec!["ext_a", "ext_b"]);
}

#[test]
fn test_local_registry_debug() {
    let mut registry: Registry = LocalExtensionRegistry::new();
    registry.register("test_ext", BEARER_TOKEN_PROVIDER, provider("test"));

    let debug_str = format!("{:?}", registry);
    assert!(debug_str.contains("LocalExtensionRegistry"));
    assert!(debug_str.contains("test_ext"));
}

#[test]
fn test_shared_registry_debug() {
    let mut registry: SharedExtensionRegistry<TestTokenProvider> = SharedExtensionRegistry::new();
    registry.register("ext", BEARER_TOKEN_PROVIDER, provider("test"));

    let debug_str = format!("{:?}", registry);
    assert!(debug_str.contains("SharedExtensionRegistry"));
    assert!(debug_str.contains("ext"));
}

#[test]
fn test_shared_registry_is_send_and_sync() {
    fn assert_send_sync<T: Send + Sync>() {}
    assert_send_sync::<SharedExtensionRegistry<TestTokenProvider>>();
}

#[test]
fn test_separate_pipelines_get_separate_instances() {
    let mut registry1: Registry = LocalExtensionRegistry::new();
    registry1.register("azure_auth", BEARER_TOKEN_PROVIDER, provider("pipeline1_token"));

    let mut registry2: Registry = LocalExtensionRegistry::new();
    registry2.register("azure_auth", BEARER_TOKEN_PROVIDER, provider("pipeline2_token"));

    let p1 = registry1.get_shared("azure_auth", BEARER_TOKEN_PROVIDER).unwrap();
    let p2 = registry2.get_shared("azure_auth", BEARER_TOKEN_PROVIDER).unwrap();

    assert!(
        !Arc::ptr_eq(&p1, &p2),
        "separate pipelines must have separate extension instances"
    );

    let registry1_clone = registry1.clone();
    let p1_again = registry1_clone.get_shared("azure_auth", BEARER_TOKEN_PROVIDER).unwrap();
    assert!(
        Arc::ptr_eq(&p1, &p1_again),
        "same pipeline must share the same extension instance"
    );
}

#[test]
fn test_into_shared_preserves_arc_identity() {
    let mut local_reg: Registry = LocalExtensionRegistry::new();
    local_reg.register("auth", BEARER_TOKEN_PROVIDER, provider("test"));

    let from_local = local_reg.get_shared("auth", BEARER_TOKEN_PROVIDER).unwrap();
    assert_eq!(local_reg.shared().len(), 1);

    let shared_reg = local_reg.into_shared();
    let from_shared = shared_reg.get("auth", BEARER_TOKEN_PROVIDER).unwrap();

    assert!(Arc::ptr_eq(&from_local, &from_shared));
}

#[test]
fn a_later_registration_takes_the_place_of_an_earlier_one() {
    let mut registry: SharedExtensionRegistry<TestTokenProvider> = SharedExtensionRegistry::new();
    assert!(registry.is_empty());
    registry.register("ext", BEARER_TOKEN_PROVIDER, provider("old"));
    registry.register("ext", BEARER_TOKEN_PROVIDER, provider("new"));
    assert_eq!(registry.len(), 1);
    assert_eq!(registry.get("ext", BEARER_TOKEN_PROVIDER).unwrap().token, "new");
    assert_eq!(registry.names().to_vec(), vec!["ext"]);
}
