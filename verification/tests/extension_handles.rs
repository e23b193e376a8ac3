use dataflow_extensions::extensions::registry::{
    ExtensionError, ExtensionRegistry, ExtensionRegistryBuilder, HeldLocks,
};
use dataflow_extensions::handles::TraitKey;

trait TestCapability: Send + 'static {
    fn get_value(&self) -> i32;
}

trait AnotherCapability: Send + 'static {
    fn get_name(&self) -> String;
}

trait Counter: Send + 'static {
    fn increment(&self);
    fn count(&self) -> u64;
}

#[derive(Clone)]
struct TestExtension {
    value: i32,
    name: String,
}

impl TestCapability for TestExtension {
    fn get_value(&self) -> i32 {
        self.value
    }
}

impl AnotherCapability for TestExtension {
    fn get_name(&self) -> String {
        self.name.clone()
    }
}

#[derive(Clone)]
struct CellCounter {
    count: std::cell::Cell<u64>,
}

impl Counter for CellCounter {
    fn increment(&self) {
        self.count.set(self.count.get() + 1);
    }

    fn count(&self) -> u64 {
        self.count.get()
    }
}

enum Entry {
    Test(Box<dyn TestCapability>),
    Another(Box<dyn AnotherCapability>),
    Counter(Box<dyn Counter>),
}

impl std::fmt::Debug for Entry {
    fn fmt(&self, f: &mut std::fmt::Formatter<'_>) -> std::fmt::Result {
        f.write_str("Entry")
    }
}

impl Entry {
    fn value(&self) -> i32 {
        match self {
            Entry::Test(t) => t.get_value(),
            _ => panic!("not a TestCapability"),
        }
    }

    fn name(&self) -> String {
        match self {
            Entry::Another(a) => a.get_name(),
            _ => panic!("not an AnotherCapability"),
        }
    }

    fn counter(&self) -> &dyn Counter {
        match self {
            Entry::Counter(c) => c.as_ref(),
            _ => panic!("not a Counter"),
        }
    }
}

const TEST: TraitKey = TraitKey {
    id: 1,
    name: "TestCapability",
};
const ANOTHER: TraitKey = TraitKey {
    id: 2,
    name: "AnotherCapability",
};
const COUNTER: TraitKey = TraitKey {
    id: 3,
    name: "Counter",
};

fn extension(value: i32, name: &str) -> TestExtension {
    TestExtension {
        value,
        name: name.to_string(),
    }
}

fn register_test(builder: &mut ExtensionRegistryBuilder<Entry>, name: &str, ext: &TestExtension) {
    builder.register(name, TEST.id, Entry::Test(Box::new(ext.clone())));
}

fn register_another(
    builder: &mut ExtensionRegistryBuilder<Entry>,
    name: &str,
    ext: &TestExtension,
) {
    builder.register(name, ANOTHER.id, Entry::Another(Box::new(ext.clone())));
}

fn register_counter(builder: &mut ExtensionRegistryBuilder<Entry>, name: &str) {
    let counter = CellCounter {
        count: std::cell::Cell::new(0),
    };
    builder.register(name, COUNTER.id, Entry::Counter(Box::new(counter)));
}

#[test]
fn test_empty_builder() {
    let builder: ExtensionRegistryBuilder<Entry> = ExtensionRegistryBuilder::new();
    assert!(builder.is_empty());
    assert_eq!(builder.extension_count(), 0);

    let registry = builder.build();
    assert!(registry.is_empty());
}

#[test]
fn test_register_and_retrieve_single_trait() {
    let mut builder = ExtensionRegistryBuilder::new();
    register_test(&mut builder, "my_ext", &extension(42, "test"));

    assert_eq!(builder.extension_count(), 1);

    let registry = builder.build();
    let handle = registry.handle("my_ext", TEST).unwrap();
    let value = handle.lock(|ext| ext.value());
    assert_eq!(value, 42);
    assert_eq!(handle.name(), "my_ext");
}

#[test]
fn test_register_multiple_traits() {
    let ext = extension(99, "hello");
    let mut builder = ExtensionRegistryBuilder::new();
    register_test(&mut builder, "multi_ext", &ext);
    register_another(&mut builder, "multi_ext", &ext);

    let registry = builder.build();
    let cap = registry.handle("multi_ext", TEST).unwrap();
    let another = registry.handle("multi_ext", ANOTHER).unwrap();
    assert_eq!(cap.lock(|ext| ext.value()), 99);
    assert_eq!(another.lock(|ext| ext.name()), "hello");
}

#[test]
fn test_not_found_error() {
    let registry: ExtensionRegistry<Entry> = ExtensionRegistry::new();
    let result = registry.handle("nonexistent", TEST);
    assert!(matches!(
        result,
        Err(ExtensionError::NotFound { name }) if name == "nonexistent"
    ));
}

#[test]
fn test_trait_not_implemented_error() {
    let mut builder = ExtensionRegistryBuilder::new();
    register_test(&mut builder, "partial_ext", &extension(1, "x"));

    let registry = builder.build();
    let result = registry.handle("partial_ext", ANOTHER);
    assert!(matches!(
        result,
        Err(ExtensionError::TraitNotImplemented { name, .. }) if name == "partial_ext"
    ));
}

#[test]
fn test_shared_instance_via_clone() {
    let mut builder = ExtensionRegistryBuilder::new();
    register_test(&mut builder, "ext", &extension(10, "shared"));

    let registry = builder.build();
    let clone1 = registry.clone();
    let clone2 = registry.clone();

    let h1 = clone1.handle("ext", TEST).unwrap();
    let h2 = clone2.handle("ext", TEST).unwrap();
    assert_eq!(h1.lock(|ext| ext.value()), 10);
    assert_eq!(h2.lock(|ext| ext.value()), 10);

    let mut builder = ExtensionRegistryBuilder::new();
    register_counter(&mut builder, "counter");
    let registry = builder.build();
    let clone1 = registry.clone();
    let clone2 = registry.clone();
    let h1 = clone1.handle("counter", COUNTER).unwrap();
    let h2 = clone2.handle("counter", COUNTER).unwrap();
    h1.lock(|c| c.counter().increment());
    assert_eq!(h2.lock(|c| c.counter().count()), 1);
    let original = registry.handle("counter", COUNTER).unwrap();
    assert_eq!(original.lock(|c| c.counter().count()), 1);
}

#[test]
fn test_multiple_extensions() {
    let auth = extension(1, "auth");
    let rate = extension(2, "rate");

    let mut builder = ExtensionRegistryBuilder::new();
    register_test(&mut builder, "auth", &auth);
    register_another(&mut builder, "auth", &auth);
    register_test(&mut builder, "rate", &rate);
    register_another(&mut builder, "rate", &rate);

    assert_eq!(builder.extension_count(), 2);

    let registry = builder.build();
    let auth_h = registry.handle("auth", TEST).unwrap();
    let rate_h = registry.handle("rate", TEST).unwrap();
    assert_eq!(auth_h.lock(|ext| ext.value()), 1);
    assert_eq!(rate_h.lock(|ext| ext.value()), 2);
}

#[test]
fn test_contains() {
    let mut builder = ExtensionRegistryBuilder::new();
    register_test(&mut builder, "exists", &extension(0, ""));

    let registry = builder.build();
    assert!(registry.contains("exists"));
    assert!(!registry.contains("nope"));
}

#[test]
fn test_extension_count() {
    let ext = extension(0, "");
    let mut builder = ExtensionRegistryBuilder::new();
    register_test(&mut builder, "a", &ext);
    register_another(&mut builder, "a", &ext);
    register_test(&mut builder, "b", &ext);

    let registry = builder.build();
    assert_eq!(registry.extension_count(), 2);
    assert_eq!(registry.names().to_vec(), vec!["a", "b"]);
}

#[test]
fn test_debug_formatting() {
    let mut builder = ExtensionRegistryBuilder::new();
    register_test(&mut builder, "debug_ext", &extension(0, ""));

    let debug = format!("{:?}", builder);
    assert!(debug.contains("debug_ext"));

    let registry = builder.build();
    let debug = format!("{:?}", registry);
    assert!(debug.contains("debug_ext"));
}

#[test]
fn test_builder_is_send() {
    fn assert_send<T: Send>() {}
    assert_send::<ExtensionRegistryBuilder<Entry>>();
}

#[test]
fn test_registry_is_send_and_clone() {
    fn assert_send_clone<T: Send + Clone>() {}
    assert_send_clone::<ExtensionRegistry<std::sync::Mutex<Entry>>>();
}

#[test]
fn test_sequential_access_same_extension() {
    let mut builder = ExtensionRegistryBuilder::new();
    register_test(&mut builder, "ext", &extension(42, "multi"));

    let registry = builder.build();
    let handle = registry.handle("ext", TEST).unwrap();
    let v1 = handle.lock(|ext| ext.value());
    let v2 = handle.lock(|ext| ext.value());
    assert_eq!(v1, 42);
    assert_eq!(v2, 42);
}

#[test]
fn test_different_traits_same_extension_concurrent() {
    let ext = extension(42, "test");
    let mut builder = ExtensionRegistryBuilder::new();
    register_test(&mut builder, "ext", &ext);
    register_another(&mut builder, "ext", &ext);

    let registry = builder.build();
    let cap = registry.handle("ext", TEST).unwrap();
    let another = registry.handle("ext", ANOTHER).unwrap();
    assert_eq!(cap.lock(|ext| ext.value()), 42);
    assert_eq!(another.lock(|ext| ext.name()), "test");
}

#[test]
fn test_clone_shares_same_arc() {
    let mut builder = ExtensionRegistryBuilder::new();
    register_counter(&mut builder, "ext");

    let registry = builder.build();
    let clone = registry.clone();
    let a = registry.handle("ext", COUNTER).unwrap();
    let b = clone.handle("ext", COUNTER).unwrap();
    a.lock(|c| c.counter().increment());
    b.lock(|c| c.counter().increment());
    assert_eq!(a.lock(|c| c.counter().count()), 2);
}

#[test]
fn test_interior_mutability_with_cell() {
    let mut builder = ExtensionRegistryBuilder::new();
    register_counter(&mut builder, "counter");

    let registry = builder.build();
    let handle = registry.handle("counter", COUNTER).unwrap();
    handle.lock(|c| {
        assert_eq!(c.counter().count(), 0);
        c.counter().increment();
        c.counter().increment();
        c.counter().increment();
        assert_eq!(c.counter().count(), 3);
    });

    let count = handle.lock(|c| c.counter().count());
    assert_eq!(count, 3);
}

#[test]
fn test_handle_basic_usage() {
    let mut builder = ExtensionRegistryBuilder::new();
    register_counter(&mut builder, "counter");

    let registry = builder.build();
    let handle = registry.handle("counter", COUNTER).unwrap();
    handle.lock(|c| c.counter().increment());
    handle.lock(|c| c.counter().increment());
    handle.lock(|c| c.counter().increment());
    assert_eq!(handle.lock(|c| c.counter().count()), 3);
}

#[test]
fn test_handle_not_found() {
    let registry: ExtensionRegistry<Entry> = ExtensionRegistryBuilder::new().build();
    let result = registry.handle("missing", COUNTER);
    assert!(matches!(result, Err(ExtensionError::NotFound { .. })));
}

#[test]
fn test_handle_trait_not_implemented() {
    let mut builder = ExtensionRegistryBuilder::new();
    register_test(&mut builder, "ext", &extension(1, "x"));

    let registry = builder.build();
    let result = registry.handle("ext", COUNTER);
    assert!(matches!(
        result,
        Err(ExtensionError::TraitNotImplemented { .. })
    ));
}

#[test]
fn messages_name_the_extension_and_the_trait() {
    let missing = ExtensionError::NotFound {
        name: "a".to_string(),
    };
    assert!(missing.message().contains("'a' not found"));
    let lacking = ExtensionError::TraitNotImplemented {
        name: "a".to_string(),
        expected: "Counter",
    };
    assert!(lacking.message().contains("Counter"));
}

#[test]
fn a_second_lock_on_one_thread_is_refused() {
    let mut held = HeldLocks::new();
    assert!(held.mark_held("outer").is_ok());
    let message = held.mark_held("ext").unwrap_err();
    assert!(message.starts_with("Nested extension access detected while accessing 'ext'"));
    held.unmark_held();
    assert!(held.mark_held("ext").is_ok());
}
