use imagstore::FieldPath;
use imagstore::StoreError;
use imagstore::Value;
use imagstore::header::header_read;
use imagstore::header::header_write;
use imagstore::value_eq;

fn empty() -> Value {
    Value::Table(Vec::new())
}

fn write(v: &Value, path: &str, nv: Value) -> Result<Value, StoreError> {
    header_write(v, &FieldPath::parse(path), nv)
}

fn read_back(v: &Value, path: &str) -> Option<Value> {
    header_read(v, &FieldPath::parse(path)).cloned()
}

#[test]
fn string_round_trips() {
    let h = write(&empty(), "name", Value::Text(String::from("imag"))).unwrap();
    let got = read_back(&h, "name").unwrap();
    assert!(value_eq(&got, &Value::Text(String::from("imag"))));
}

#[test]
fn boolean_round_trips() {
    let h = write(&empty(), "flag", Value::Boolean(true)).unwrap();
    assert!(value_eq(&read_back(&h, "flag").unwrap(), &Value::Boolean(true)));
}

#[test]
fn integer_round_trips() {
    let h = write(&empty(), "count", Value::Integer(42)).unwrap();
    assert!(value_eq(&read_back(&h, "count").unwrap(), &Value::Integer(42)));
}

#[test]
fn array_round_trips() {
    let arr = Value::Array(vec![Value::Integer(1), Value::Integer(2)]);
    let h = write(&empty(), "xs", arr.clone()).unwrap();
    assert!(value_eq(&read_back(&h, "xs").unwrap(), &arr));
}

#[test]
fn table_round_trips() {
    let t = Value::Table(vec![(String::from("inner"), Value::Boolean(false))]);
    let h = write(&empty(), "t", t.clone()).unwrap();
    assert!(value_eq(&read_back(&h, "t").unwrap(), &t));
}

#[test]
fn nested_write_creates_intermediate_tables() {
    let h = write(&empty(), "logging.level", Value::Text(String::from("debug"))).unwrap();
    let got = read_back(&h, "logging.level").unwrap();
    assert!(value_eq(&got, &Value::Text(String::from("debug"))));
    // the intermediate key is a table now
    assert!(matches!(read_back(&h, "logging"), Some(Value::Table(_))));
}

#[test]
fn array_elements_are_addressed_by_number() {
    let h = write(
        &empty(),
        "tags",
        Value::Array(vec![
            Value::Text(String::from("life")),
            Value::Text(String::from("work")),
        ]),
    )
    .unwrap();
    let got = read_back(&h, "tags.1").unwrap();
    assert!(value_eq(&got, &Value::Text(String::from("work"))));
    let h2 = write(&h, "tags.0", Value::Text(String::from("home"))).unwrap();
    assert!(value_eq(
        &read_back(&h2, "tags.0").unwrap(),
        &Value::Text(String::from("home"))
    ));
}

#[test]
fn missing_paths_read_as_none_not_as_errors() {
    let h = write(&empty(), "a", Value::Integer(1)).unwrap();
    assert!(read_back(&h, "b").is_none());
    assert!(read_back(&h, "a.b").is_none());
    assert!(read_back(&h, "b.c.d").is_none());
}

#[test]
fn out_of_range_index_reads_as_none() {
    let h = write(&empty(), "xs", Value::Array(vec![Value::Integer(1)])).unwrap();
    assert!(read_back(&h, "xs.1").is_none());
    assert!(read_back(&h, "xs.nope").is_none());
}

#[test]
fn writing_through_a_scalar_is_a_type_error() {
    let h = write(&empty(), "x", Value::Integer(1)).unwrap();
    let r = write(&h, "x.y", Value::Integer(2));
    assert!(matches!(r, Err(StoreError::ConfigTypeError(_, _))));
}

#[test]
fn overwriting_a_leaf_replaces_it() {
    let h = write(&empty(), "x", Value::Integer(1)).unwrap();
    let h = write(&h, "x", Value::Integer(2)).unwrap();
    assert!(value_eq(&read_back(&h, "x").unwrap(), &Value::Integer(2)));
}

#[test]
fn parse_splits_on_dots() {
    let p = FieldPath::parse("tags.0");
    assert_eq!(p.segments, vec![String::from("tags"), String::from("0")]);
    let single = FieldPath::parse("level");
    assert_eq!(single.segments, vec![String::from("level")]);
}

#[test]
fn value_eq_distinguishes_values() {
    assert!(value_eq(&Value::Integer(1), &Value::Integer(1)));
    assert!(!value_eq(&Value::Integer(1), &Value::Integer(2)));
    assert!(!value_eq(&Value::Integer(1), &Value::Boolean(true)));
    let a = Value::Table(vec![(String::from("k"), Value::Text(String::from("v")))]);
    let b = Value::Table(vec![(String::from("k"), Value::Text(String::from("v")))]);
    let c = Value::Table(vec![(String::from("k"), Value::Text(String::from("w")))]);
    assert!(value_eq(&a, &b));
    assert!(!value_eq(&a, &c));
}
