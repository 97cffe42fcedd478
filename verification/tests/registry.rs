use component_registry::component::{ComponentBuilder, ConfigError, ConfigSwapOut, Factory, Registry};
use component_registry::conditions::{registry, Condition, ConditionFactory};
use component_registry::value::{Field, Value};
use component_registry::Event;

fn table(fields: Vec<(&str, Value)>) -> Vec<Field> {
    fields
        .into_iter()
        .map(|(k, v)| Field { key: k.to_owned(), value: v })
        .collect()
}

#[test]
fn registries_are_isolated() {
    let doc = "type = \"static\"\nvalue = false\n";
    assert!(registry().decode_str(doc).is_ok());
    let empty_family: Registry<ConditionFactory> = Registry::new();
    assert_eq!(
        Some("unrecognized type 'static'".to_owned()),
        empty_family.decode_str(doc).err()
    );
}

#[test]
fn unknown_tag_reported_before_any_fragment_check() {
    // The fragment is malformed for every variant, yet the unrecognized tag
    // is what gets reported: no constructor ran.
    assert_eq!(
        Some("unrecognized type 'nope'".to_owned()),
        registry().decode_str("type = \"nope\"\nstray = \"x\"\n").err()
    );
}

#[test]
fn missing_type_reported_whatever_else_is_present() {
    assert_eq!(
        Some("missing type field".to_owned()),
        registry().decode_str("").err()
    );
    assert_eq!(
        Some("missing type field".to_owned()),
        registry().decode_str("a = true\nb = \"c\"\n").err()
    );
    // A non-string type value counts as missing by design.
    assert_eq!(
        Some("missing type field".to_owned()),
        registry().decode_str("type = true\nvalue = false\n").err()
    );
    // An empty type string counts as missing too.
    assert_eq!(
        Some("missing type field".to_owned()),
        registry().decode_str("type = \"\"\nvalue = false\n").err()
    );
}

#[test]
fn later_type_field_wins() {
    let sw = ConfigSwapOut::from_table(&table(vec![
        ("x", Value::Str("1".to_owned())),
        ("type", Value::Str("first".to_owned())),
        ("y", Value::Bool(true)),
        ("type", Value::Str("second".to_owned())),
    ]))
    .unwrap();
    assert_eq!("second", sw.type_str);
    assert_eq!(2, sw.nested.len());
    assert_eq!("x", sw.nested[0].key);
    assert_eq!("y", sw.nested[1].key);
}

#[test]
fn non_string_type_after_string_type_erases_it() {
    let r = ConfigSwapOut::from_table(&table(vec![
        ("type", Value::Str("good".to_owned())),
        ("type", Value::Bool(true)),
    ]));
    assert!(matches!(r, Err(ConfigError::MissingTypeField)));
}

#[test]
fn duplicate_fragment_key_last_wins() {
    // The text parser refuses duplicate keys outright; a table built by hand
    // reaches the map-like extraction, where a later binding overwrites.
    let config = registry()
        .decode(table(vec![
            ("type", Value::Str("static".to_owned())),
            ("value", Value::Bool(true)),
            ("value", Value::Bool(false)),
        ]))
        .unwrap();
    assert_eq!(
        Ok(false),
        config.condition.check(&Event::from("anything".to_owned()))
    );
}

#[test]
fn duplicate_nested_key_last_wins_in_extraction() {
    let sw = ConfigSwapOut::from_table(&table(vec![
        ("x", Value::Bool(true)),
        ("x", Value::Bool(false)),
        ("type", Value::Str("t".to_owned())),
    ]))
    .unwrap();
    assert_eq!(1, sw.nested.len());
    assert_eq!("x", sw.nested[0].key);
    assert!(matches!(sw.nested[0].value, Value::Bool(false)));
}

#[test]
fn non_boolean_value_rejected_by_variant() {
    assert_eq!(
        Some(
            "failed to parse type `static`: invalid type for field `value`, expected a boolean"
                .to_owned()
        ),
        registry().decode_str("type = \"static\"\nvalue = \"yes\"\n").err()
    );
}

#[test]
fn error_messages_are_exact() {
    assert_eq!("missing type field", ConfigError::MissingTypeField.message());
    assert_eq!(
        "unrecognized type 'x'",
        ConfigError::UnrecognizedType("x".to_owned()).message()
    );
    assert_eq!(
        "failed to parse type `a`: b",
        ConfigError::FailedToParseType("a".to_owned(), "b".to_owned()).message()
    );
}

#[test]
fn default_fragment_of_static() {
    let t = ConditionFactory::Static.default_value().unwrap();
    assert_eq!(1, t.len());
    assert_eq!("value", t[0].key);
    assert!(matches!(t[0].value, Value::Bool(false)));
}

#[test]
fn fresh_swap_out_is_empty() {
    let sw = ConfigSwapOut::new();
    assert_eq!("", sw.type_str);
    assert_eq!(0, sw.nested.len());
}

#[test]
fn fresh_registry_is_empty() {
    let r: Registry<ConditionFactory> = Registry::new();
    assert_eq!(0, r.len());
    assert_eq!(1, registry().len());
}

#[test]
fn first_registration_wins() {
    let mut r: Registry<ConditionFactory> = Registry::new();
    r.register(ComponentBuilder::new("static".to_owned(), ConditionFactory::Static));
    r.register(ComponentBuilder::new("static".to_owned(), ConditionFactory::Static));
    assert_eq!(2, r.len());
    assert!(r.decode_str("type = \"static\"\nvalue = true\n").is_ok());
}
