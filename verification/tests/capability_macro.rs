use dataflow_extensions::capability_macro::{
    extract_param_names, generate, known_static_name, ArgsError, CapabilityArgs, Parameter,
    TraitItem,
};
use dataflow_extensions::text;

fn pairs(rows: Vec<(&str, &str)>) -> Vec<(String, String)> {
    rows.into_iter().map(|(k, v)| (k.to_string(), v.to_string())).collect()
}

#[test]
fn arguments_have_their_last_values() {
    let args = CapabilityArgs::parse(&pairs(vec![
        ("name", "first"),
        ("description", "d"),
        ("name", "second"),
    ]))
    .unwrap();
    assert_eq!(args.name, "second");
    assert_eq!(args.description, "d");
}

#[test]
fn wrong_arguments_are_refused() {
    let refused = |rows| CapabilityArgs::parse(&pairs(rows)).unwrap_err();
    let unknown = refused(vec![("name", "n"), ("kind", "k"), ("sort", "s")]);
    assert!(matches!(&unknown, ArgsError::UnknownAttribute { key } if key == "kind"));
    assert_eq!(unknown.message(), "unknown attribute `kind`");
    assert_eq!(refused(vec![]).message(), "missing `name` attribute");
    assert_eq!(refused(vec![("description", "d")]).message(), "missing `name` attribute");
    assert_eq!(refused(vec![("name", "n")]).message(), "missing `description` attribute");
}

fn named(name: &str) -> Parameter {
    Parameter::Named(name.to_string())
}

#[test]
fn only_plain_names_are_arguments() {
    assert_eq!(
        extract_param_names(&vec![
            Parameter::Receiver,
            named("key"),
            Parameter::Pattern,
            named("value"),
        ]),
        vec!["key", "value"]
    );
}

#[test]
fn the_adapter_calls_every_method_on() {
    let args = CapabilityArgs::parse(&pairs(vec![
        ("name", "key_value_store"),
        ("description", "Stores values"),
    ]))
    .unwrap();
    let items = vec![
        TraitItem::Method {
            name: "get".to_string(),
            is_async: true,
            parameters: vec![Parameter::Receiver, named("key")],
        },
        TraitItem::Other,
        TraitItem::Method {
            name: "len".to_string(),
            is_async: false,
            parameters: vec![Parameter::Receiver],
        },
    ];
    let plan = generate(args, "KeyValueStore", &items);
    assert_eq!(plan.trait_name, "KeyValueStore");
    assert_eq!(plan.name, "key_value_store");
    assert_eq!(plan.description, "Stores values");
    assert!(plan.has_async);
    assert_eq!(plan.adapter.len(), 2);
    assert_eq!(plan.adapter[0].name, "get");
    assert_eq!(plan.adapter[0].arguments, vec!["key"]);
    assert!(plan.adapter[0].awaits);
    assert_eq!(plan.adapter[1].name, "len");
    assert!(plan.adapter[1].arguments.is_empty());
    assert!(!plan.adapter[1].awaits);
    assert_eq!(plan.known_static, "_KNOWN_CAP_KEYVALUESTORE");
    assert_eq!(known_static_name("X"), "_KNOWN_CAP_X");
}

#[test]
fn a_trait_without_asynchronous_methods_needs_no_attribute() {
    let args = CapabilityArgs { name: "n".to_string(), description: "d".to_string() };
    let plan = generate(args, "Plain", &vec![TraitItem::Other]);
    assert!(!plan.has_async);
    assert!(plan.adapter.is_empty());
}

#[test]
fn numbers_and_characters_become_text() {
    assert_eq!(text::decimal(0), "0");
    assert_eq!(text::decimal(u64::MAX), "18446744073709551615");
    assert_eq!(text::hex_text(0xAB, 4), "00AB");
    assert_eq!(text::hex_text(0x10FFFF, 4), "10FFFF");
    assert_eq!(text::one_char('é'), "é");
    assert_eq!(text::trim("\u{3000} a b \n"), "a b");
    assert!(text::eq_ignore_ascii_case("AuTh", "aUtH"));
    assert!(!text::eq_ignore_ascii_case("É", "é"));
    assert_eq!(text::hex_digit('f'), Some(15));
    assert_eq!(text::hex_digit('g'), None);
}
