use cs_01::modules::config::{obj_to_str, ConfigError, ConfigValue};

fn object(entries: Vec<(&str, ConfigValue)>) -> ConfigValue {
    ConfigValue::Object(
        entries
            .into_iter()
            .map(|(key, value)| (key.to_string(), value))
            .collect(),
    )
}

#[test]
fn test_obj_to_str_basic() {
    let config = object(vec![(
        "core",
        object(vec![("", object(vec![("bare", ConfigValue::Bool(false))]))]),
    )]);
    let result = obj_to_str(&config).unwrap();
    assert!(result.contains("[core]"));
    assert!(result.contains("bare = false"));
}

#[test]
fn test_obj_to_str_nested() {
    let config = object(vec![(
        "remote",
        object(vec![(
            "origin",
            object(vec![(
                "url",
                ConfigValue::Text("https://example.com".to_string()),
            )]),
        )]),
    )]);
    let result = obj_to_str(&config).unwrap();
    assert!(result.contains("[remote \"origin\"]"));
    assert!(result.contains("url = https://example.com"));
}

#[test]
fn test_obj_to_str_complex_types() {
    let config = object(vec![(
        "user",
        object(vec![(
            "",
            object(vec![
                ("id", ConfigValue::Number(123)),
                ("active", ConfigValue::Bool(true)),
            ]),
        )]),
    )]);
    let result = obj_to_str(&config).unwrap();
    assert!(result.contains("id = 123"));
    assert!(result.contains("active = true"));
}

#[test]
fn test_obj_to_str_invalid_input() {
    // Not an object
    let config = ConfigValue::List(vec![]);
    assert!(obj_to_str(&config).is_err());

    // Empty object
    let config = object(vec![]);
    assert!(obj_to_str(&config).is_err());
}

#[test]
fn basic_config_has_exactly_its_two_lines() {
    let config = object(vec![(
        "core",
        object(vec![("", object(vec![("bare", ConfigValue::Bool(false))]))]),
    )]);
    assert_eq!(obj_to_str(&config).unwrap(), "[core]\n  bare = false\n");
}

#[test]
fn empty_and_non_object_are_invalid_config() {
    assert!(matches!(
        obj_to_str(&object(vec![])),
        Err(ConfigError::InvalidConfig)
    ));
    assert!(matches!(
        obj_to_str(&ConfigValue::List(vec![])),
        Err(ConfigError::InvalidConfig)
    ));
    assert!(matches!(
        obj_to_str(&ConfigValue::Null),
        Err(ConfigError::InvalidConfig)
    ));
    assert!(matches!(
        obj_to_str(&ConfigValue::Text("core".to_string())),
        Err(ConfigError::InvalidConfig)
    ));
    assert!(matches!(
        obj_to_str(&ConfigValue::Number(1)),
        Err(ConfigError::InvalidConfig)
    ));
}

#[test]
fn section_that_is_no_object_is_named() {
    let config = object(vec![("core", ConfigValue::Bool(true))]);
    match obj_to_str(&config) {
        Err(ConfigError::InvalidSection(name)) => assert_eq!(name, "core"),
        _ => panic!("expected an invalid section"),
    }
    let error = obj_to_str(&config).unwrap_err();
    assert!(error.is_invalid_config());
    assert_eq!(
        error.message(),
        "Invalid section 'core': Must contain subsection objects."
    );
}

#[test]
fn subsection_that_is_no_object_names_its_section() {
    let config = object(vec![(
        "remote",
        object(vec![("origin", ConfigValue::Text("x".to_string()))]),
    )]);
    match obj_to_str(&config) {
        Err(ConfigError::InvalidSettings(name)) => assert_eq!(name, "remote"),
        _ => panic!("expected invalid settings"),
    }
    assert_eq!(
        obj_to_str(&config).unwrap_err().message(),
        "Invalid settings for [remote]: Must be an object."
    );
}

#[test]
fn first_fault_in_order_is_reported() {
    let config = object(vec![
        ("a", object(vec![("", ConfigValue::Null)])),
        ("b", ConfigValue::Null),
    ]);
    match obj_to_str(&config) {
        Err(ConfigError::InvalidSettings(name)) => assert_eq!(name, "a"),
        _ => panic!("expected invalid settings"),
    }
}

#[test]
fn invalid_config_message() {
    assert_eq!(
        ConfigError::InvalidConfig.message(),
        "Invalid configObj: Must be a non-empty object."
    );
    assert!(ConfigError::InvalidConfig.is_invalid_config());
    assert!(!ConfigError::Unwritable.is_invalid_config());
}

#[test]
fn sections_and_settings_keep_their_order() {
    let config = object(vec![
        (
            "zeta",
            object(vec![(
                "",
                object(vec![
                    ("second", ConfigValue::Number(2)),
                    ("first", ConfigValue::Number(1)),
                ]),
            )]),
        ),
        (
            "alpha",
            object(vec![
                ("x", object(vec![("k", ConfigValue::Text("v".to_string()))])),
                ("", object(vec![])),
            ]),
        ),
    ]);
    assert_eq!(
        obj_to_str(&config).unwrap(),
        "[zeta]\n  second = 2\n  first = 1\n[alpha \"x\"]\n  k = v\n[alpha]\n"
    );
}

#[test]
fn numbers_are_written_in_decimal() {
    let config = object(vec![(
        "n",
        object(vec![(
            "",
            object(vec![
                ("zero", ConfigValue::Number(0)),
                ("negative", ConfigValue::Number(-45)),
                ("large", ConfigValue::Number(i64::MAX)),
                ("small", ConfigValue::Number(i64::MIN)),
            ]),
        )]),
    )]);
    assert_eq!(
        obj_to_str(&config).unwrap(),
        "[n]\n  zero = 0\n  negative = -45\n  large = 9223372036854775807\n  small = -9223372036854775808\n"
    );
}

#[test]
fn strings_stand_as_they_are() {
    let config = object(vec![(
        "s",
        object(vec![(
            "",
            object(vec![("text", ConfigValue::Text("a \"quoted\" word".to_string()))]),
        )]),
    )]);
    assert_eq!(
        obj_to_str(&config).unwrap(),
        "[s]\n  text = a \"quoted\" word\n"
    );
}

#[test]
fn null_lists_and_objects_are_written_as_compact_json() {
    let nested = object(vec![
        ("name", ConfigValue::Text("a \"b\"".to_string())),
        ("on", ConfigValue::Bool(true)),
        (
            "list",
            ConfigValue::List(vec![
                ConfigValue::Number(1),
                ConfigValue::Null,
                ConfigValue::Text("x".to_string()),
            ]),
        ),
        ("inner", object(vec![("k", ConfigValue::Number(-2))])),
    ]);
    let config = object(vec![(
        "c",
        object(vec![(
            "",
            object(vec![
                ("nothing", ConfigValue::Null),
                ("items", ConfigValue::List(vec![ConfigValue::Bool(false)])),
                ("nested", nested),
            ]),
        )]),
    )]);
    assert_eq!(
        obj_to_str(&config).unwrap(),
        "[c]\n  nothing = null\n  items = [false]\n  nested = {\"name\":\"a \\\"b\\\"\",\"on\":true,\"list\":[1,null,\"x\"],\"inner\":{\"k\":-2}}\n"
    );
}

#[test]
fn well_formed_values_hold_no_key_twice() {
    let good = object(vec![
        ("a", ConfigValue::List(vec![object(vec![("x", ConfigValue::Null)])])),
        ("b", object(vec![("a", ConfigValue::Bool(true))])),
    ]);
    assert!(good.is_well_formed());
    assert!(ConfigValue::Null.is_well_formed());
    assert!(ConfigValue::List(vec![]).is_well_formed());
    assert!(object(vec![]).is_well_formed());

    let twice = object(vec![("a", ConfigValue::Null), ("b", ConfigValue::Null), ("a", ConfigValue::Null)]);
    assert!(!twice.is_well_formed());
    let deep = object(vec![(
        "s",
        ConfigValue::List(vec![
            ConfigValue::Number(1),
            object(vec![("k", ConfigValue::Null), ("k", ConfigValue::Null)]),
        ]),
    )]);
    assert!(!deep.is_well_formed());
}

#[test]
fn integers_above_the_signed_range_are_written_in_decimal() {
    let config = object(vec![(
        "n",
        object(vec![(
            "",
            object(vec![
                ("largest", ConfigValue::Unsigned(u64::MAX)),
                ("next", ConfigValue::Unsigned(9223372036854775808)),
                ("small", ConfigValue::Unsigned(7)),
                ("list", ConfigValue::List(vec![ConfigValue::Unsigned(u64::MAX)])),
            ]),
        )]),
    )]);
    assert_eq!(
        obj_to_str(&config).unwrap(),
        "[n]\n  largest = 18446744073709551615\n  next = 9223372036854775808\n  small = 7\n  list = [18446744073709551615]\n"
    );
}
