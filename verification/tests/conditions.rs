use component_registry::conditions;
use component_registry::conditions::Condition;
use component_registry::Event;

#[test]
fn parse_bad_config_type() {
    assert_eq!(
        conditions::registry()
            .decode_str(
                r#"
      type = "not a real type"
      value = false
      "#
            )
            .err()
            .unwrap_or("".to_owned()),
        "unrecognized type 'not a real type'".to_owned(),
    );
}

#[test]
fn parse_bad_config_missing_type() {
    assert_eq!(
        conditions::registry()
            .decode_str(
                r#"
      nottype = "missing a type here"
      value = false
      "#
            )
            .err()
            .unwrap_or("".to_owned()),
        "missing type field".to_owned(),
    );
}

#[test]
fn parse_bad_config_extra_field() {
    assert_eq!(
        conditions::registry()
            .decode_str(
                r#"
      type = "static"
      value = false
      extra_field = "is unexpected"
      "#
            )
            .err()
            .unwrap_or("".to_owned()),
        "failed to parse type `static`: unknown field `extra_field`, expected `value`"
            .to_owned(),
    );
}

#[test]
fn parse_bad_config_missing_field() {
    assert_eq!(
        conditions::registry()
            .decode_str(
                r#"
      type = "static"
      "#
            )
            .err()
            .unwrap_or("".to_owned()),
        "failed to parse type `static`: missing field `value`".to_owned(),
    );
}

#[test]
fn parse_static_config() {
    let config_false: conditions::ConditionConfig = conditions::registry()
        .decode_str(
            r#"
      type = "static"
      value = false
      "#,
        )
        .unwrap();

    assert_eq!(
        Ok(false),
        config_false
            .condition
            .check(&Event::from("foo bar baz".to_owned()))
    );

    let config_true: conditions::ConditionConfig = conditions::registry()
        .decode_str(
            r#"
      type = "static"
      value = true
      "#,
        )
        .unwrap();

    assert_eq!(
        Ok(true),
        config_true
            .condition
            .check(&Event::from("foo bar baz".to_owned()))
    );
}

#[test]
fn print_static_config() {
    let config_false: conditions::ConditionConfig = conditions::registry()
        .decode_str(
            r#"
      type = "static"
      value = false
      "#,
        )
        .unwrap();

    assert_eq!(
        r#"type = "static"
value = false
"#,
        config_false.to_toml()
    );

    let config_true: conditions::ConditionConfig = conditions::registry()
        .decode_str(
            r#"
      type = "static"
      value = true
      "#,
        )
        .unwrap();

    assert_eq!(
        r#"type = "static"
value = true
"#,
        config_true.to_toml()
    );
}

#[test]
fn event_carries_its_text() {
    let e = Event::from("foo bar baz".to_owned());
    assert_eq!("foo bar baz", e.text());
}

#[test]
fn static_check_ignores_its_input() {
    let config = conditions::registry()
        .decode_str("type = \"static\"\nvalue = true\n")
        .unwrap();
    assert_eq!(Ok(true), config.condition.check(&Event::from("".to_owned())));
    assert_eq!(
        Ok(true),
        config.condition.check(&Event::from("anything at all".to_owned()))
    );
}

#[test]
fn round_trip_static_config() {
    let first = conditions::registry()
        .decode_str(
            r#"
      type = "static"
      value = true
      "#,
        )
        .unwrap();
    let reencoded = first.to_toml();
    let second = conditions::registry().decode_str(reencoded.as_str()).unwrap();
    assert_eq!(first.type_str(), second.type_str());
    assert_eq!(reencoded, second.to_toml());
    let e = Event::from("foo bar baz".to_owned());
    assert_eq!(first.condition.check(&e), second.condition.check(&e));
}
