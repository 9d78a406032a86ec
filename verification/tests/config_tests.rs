use imagstore::StoreError;
use imagstore::Value;
use imagstore::config_implicit_store_create_allowed;

/// Converts a parsed TOML value into the library's header value type.
fn from_toml(v: &toml::Value) -> Value {
    match v {
        toml::Value::String(s) => Value::Text(s.clone()),
        toml::Value::Integer(i) => Value::Integer(*i),
        toml::Value::Boolean(b) => Value::Boolean(*b),
        toml::Value::Array(items) => Value::Array(items.iter().map(from_toml).collect()),
        toml::Value::Table(t) => Value::Table(
            t.iter().map(|(k, x)| (k.clone(), from_toml(x))).collect(),
        ),
        _ => panic!("unsupported TOML value kind in test input"),
    }
}

fn parse_config(text: &str) -> Value {
    let table: toml::Table = text.parse().unwrap();
    from_toml(&toml::Value::Table(table))
}

#[test]
fn test_implicit_store_create_allowed_no_toml() {
    assert!(!config_implicit_store_create_allowed(None).unwrap());
}

#[test]
fn test_implicit_store_create_allowed_toml_empty() {
    let config = parse_config("");
    let r = config_implicit_store_create_allowed(Some(&config));
    assert!(matches!(r, Err(StoreError::ConfigKeyMissing(_))));
}

#[test]
fn test_implicit_store_create_allowed_toml_false() {
    let config = parse_config(
        r#"
            implicit-create = false
        "#,
    );
    assert!(!config_implicit_store_create_allowed(Some(&config)).unwrap());
}

#[test]
fn test_implicit_store_create_allowed_toml_true() {
    let config = parse_config(
        r#"
            implicit-create = true
        "#,
    );
    assert!(config_implicit_store_create_allowed(Some(&config)).unwrap());
}

#[test]
fn config_value_of_wrong_kind_is_a_type_error() {
    let config = parse_config("implicit-create = \"yes\"");
    let r = config_implicit_store_create_allowed(Some(&config));
    match r {
        Err(StoreError::ConfigTypeError(path, kind)) => {
            assert_eq!(path, "implicit-create");
            assert_eq!(kind, "boolean");
        },
        _ => panic!("expected a configuration type error"),
    }
}
