use dataflow_extensions::config::extension::{
    ConfigValue, ExtensionUserConfig, PipelineExtensions,
};
use dataflow_extensions::extension::dependency::{DependencyError, dependency_layers};

fn text(s: &str) -> ConfigValue {
    ConfigValue::Text(s.to_string())
}

fn object(fields: Vec<(&str, ConfigValue)>) -> ConfigValue {
    ConfigValue::Object(fields.into_iter().map(|(k, v)| (k.to_string(), v)).collect())
}

fn at<'a>(value: &'a ConfigValue, key: &str) -> &'a ConfigValue {
    match value {
        ConfigValue::Object(fields) => &fields.iter().find(|(k, _)| k == key).unwrap().1,
        _ => panic!("not an object"),
    }
}

fn shown(value: &ConfigValue) -> &str {
    match value {
        ConfigValue::Text(t) => t,
        _ => panic!("not a text"),
    }
}

fn extension(dependencies: &[(&str, &str)]) -> ExtensionUserConfig {
    let mut config = ExtensionUserConfig::with_type("urn:test:extension:dependency");
    config.capabilities = dependencies
        .iter()
        .map(|(capability, provider)| (capability.to_string(), provider.to_string()))
        .collect();
    config
}

#[test]
fn redacted_for_snapshot_masks_extension_headers() {
    let cfg = ExtensionUserConfig::new(
        "urn:otap:extension:headers_setter".to_string(),
        object(vec![(
            "headers",
            object(vec![("authorization", text("Bearer ext-super-secret"))]),
        )]),
    );
    let redacted = cfg.redacted_for_snapshot("***");
    assert_eq!(shown(at(at(&redacted.config, "headers"), "authorization")), "***");
    assert_eq!(
        shown(at(at(&cfg.config, "headers"), "authorization")),
        "Bearer ext-super-secret"
    );
    assert_eq!(redacted.urn, cfg.urn);
}

#[test]
fn headers_are_masked_wherever_they_stand() {
    let cfg = ExtensionUserConfig::new(
        "urn:x".to_string(),
        object(vec![
            (
                "targets",
                ConfigValue::List(vec![
                    object(vec![
                        (
                            "headers",
                            object(vec![
                                ("a", ConfigValue::Number("1".to_string())),
                                ("b", object(vec![("c", text("deep"))])),
                            ]),
                        ),
                        ("url", text("http://x")),
                    ]),
                    ConfigValue::Bool(true),
                ]),
            ),
            ("headers", text("not an object")),
            ("nothing", ConfigValue::Null),
        ]),
    );
    let redacted = cfg.redacted_for_snapshot("-");
    let targets = match at(&redacted.config, "targets") {
        ConfigValue::List(items) => items,
        _ => panic!("not a list"),
    };
    assert_eq!(shown(at(at(&targets[0], "headers"), "a")), "-");
    assert_eq!(shown(at(at(&targets[0], "headers"), "b")), "-");
    assert_eq!(shown(at(&targets[0], "url")), "http://x");
    assert!(matches!(targets[1], ConfigValue::Bool(true)));
    assert_eq!(shown(at(&redacted.config, "headers")), "not an object");
    assert!(matches!(at(&redacted.config, "nothing"), ConfigValue::Null));
}

#[test]
fn a_config_of_a_type_is_empty() {
    let cfg = ExtensionUserConfig::with_type("urn:test:extension:pipeline");
    assert_eq!(cfg.urn, "urn:test:extension:pipeline");
    assert!(matches!(cfg.config, ConfigValue::Null));
    assert!(cfg.description.is_none() && cfg.capabilities.is_empty());
}

#[test]
fn creates_deterministic_dependency_layers() {
    let mut extensions = PipelineExtensions::new();
    extensions.insert("consumer".into(), extension(&[("cap_b", "middle")]));
    extensions.insert("independent".into(), extension(&[]));
    extensions.insert("middle".into(), extension(&[("cap_a", "provider")]));
    extensions.insert("provider".into(), extension(&[]));

    let layers = dependency_layers(&extensions).expect("dependency graph is valid");
    assert_eq!(
        layers,
        vec![
            vec!["independent".to_string(), "provider".to_string()],
            vec!["middle".to_string()],
            vec!["consumer".to_string()],
        ]
    );
}

#[test]
fn rejects_missing_dependency() {
    let mut extensions = PipelineExtensions::new();
    extensions.insert("consumer".into(), extension(&[("cap", "missing")]));

    let error = dependency_layers(&extensions).expect_err("missing dependency must fail");
    assert!(matches!(
        error,
        DependencyError::ExtensionDependencyNotFound {
            extension,
            dependency,
        } if extension == "consumer" && dependency == "missing"
    ));
}

#[test]
fn rejects_dependency_cycle() {
    let mut extensions = PipelineExtensions::new();
    extensions.insert("a".into(), extension(&[("cap_b", "b")]));
    extensions.insert("b".into(), extension(&[("cap_a", "a")]));

    let error = dependency_layers(&extensions).expect_err("cycle must fail");
    assert!(matches!(
        error,
        DependencyError::ExtensionDependencyCycle { extensions }
            if extensions == vec!["a".to_string(), "b".to_string()]
    ));
}

#[test]
fn a_second_declaration_takes_the_place_of_the_first() {
    let mut extensions = PipelineExtensions::new();
    extensions.insert("a".into(), extension(&[("cap", "missing")]));
    extensions.insert("a".into(), extension(&[]));
    assert_eq!(extensions.len(), 1);
    assert!(extensions.contains_key("a"));
    assert!(!extensions.contains_key("b"));
    assert_eq!(dependency_layers(&extensions).unwrap(), vec![vec!["a".to_string()]]);
    assert_eq!(
        dependency_layers(&PipelineExtensions::new()).unwrap(),
        Vec::<Vec<String>>::new()
    );
}
