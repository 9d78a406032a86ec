use imagstore::EntryStore;
use imagstore::StoreConfiguration;
use imagstore::StoreError;
use imagstore::Value;
use imagstore::value_eq;

fn store(implicit_create: bool) -> EntryStore {
    EntryStore::new(StoreConfiguration {
        root: String::from("store"),
        implicit_create,
    })
}

fn tags_header(tag: &str) -> Value {
    Value::Table(vec![(
        String::from("tags"),
        Value::Array(vec![Value::Text(String::from(tag))]),
    )])
}

#[test]
fn create_then_retrieve_round_trips() {
    let mut s = store(false);
    let handle = s
        .create("diary/2024-01-01", "1", tags_header("life"), b"Hello".to_vec())
        .unwrap();
    assert_eq!(handle.id(), "diary/2024-01-01");
    assert_eq!(handle.version(), "1");
    s.release(handle);

    let got = s.retrieve("diary/2024-01-01", Some("1")).unwrap();
    assert!(value_eq(got.header(), &tags_header("life")));
    assert_eq!(got.content().as_slice(), b"Hello");
}

#[test]
fn create_of_an_existing_pair_is_refused() {
    let mut s = store(false);
    let h = s.create("a", "1", tags_header("x"), Vec::new()).unwrap();
    s.release(h);
    let r = s.create("a", "1", tags_header("y"), Vec::new());
    assert!(matches!(r, Err(StoreError::AlreadyExists)));
}

#[test]
fn retrieve_of_a_missing_pair_fails_without_implicit_create() {
    let mut s = store(false);
    let r = s.retrieve("nothing", Some("1"));
    assert!(matches!(r, Err(StoreError::NotFound)));
    // nothing was created along the way
    let again = s.retrieve("nothing", Some("1"));
    assert!(matches!(again, Err(StoreError::NotFound)));
}

#[test]
fn retrieve_of_a_missing_pair_creates_empty_with_implicit_create() {
    let mut s = store(true);
    let h = s.retrieve("fresh", Some("1")).unwrap();
    assert!(value_eq(h.header(), &Value::Table(Vec::new())));
    assert!(h.content().is_empty());
    s.release(h);
    // the empty entry was persisted
    let h2 = s.retrieve("fresh", Some("1")).unwrap();
    assert!(h2.content().is_empty());
}

#[test]
fn second_retrieve_while_locked_is_a_lock_conflict() {
    let mut s = store(false);
    let first = s.create("a", "1", tags_header("x"), Vec::new()).unwrap();
    s.release(first);

    let held = s.retrieve("a", Some("1")).unwrap();
    let second = s.retrieve("a", Some("1"));
    assert!(matches!(second, Err(StoreError::LockConflict)));

    s.release(held);
    let third = s.retrieve("a", Some("1"));
    assert!(third.is_ok());
}

#[test]
fn version_suffix_in_the_id_is_recovered() {
    let mut s = store(false);
    let h = s.create("foo", "3", tags_header("x"), b"v3".to_vec()).unwrap();
    s.release(h);
    let got = s.retrieve("foo~3", None).unwrap();
    assert_eq!(got.version(), "3");
    assert_eq!(got.content().as_slice(), b"v3");
}

#[test]
fn retrieve_without_any_version_fails_no_version() {
    let mut s = store(false);
    let r = s.retrieve("foo", None);
    assert!(matches!(r, Err(StoreError::NoVersion)));
}

#[test]
fn unsaved_changes_are_discarded_on_release() {
    let mut s = store(false);
    let h = s.create("a", "1", tags_header("x"), b"old".to_vec()).unwrap();
    s.release(h);

    let mut h = s.retrieve("a", Some("1")).unwrap();
    h.set_content(b"new".to_vec());
    s.release(h);

    let got = s.retrieve("a", Some("1")).unwrap();
    assert_eq!(got.content().as_slice(), b"old");
}

#[test]
fn saved_changes_persist() {
    let mut s = store(false);
    let h = s.create("a", "1", tags_header("x"), b"old".to_vec()).unwrap();
    s.release(h);

    let mut h = s.retrieve("a", Some("1")).unwrap();
    h.set_content(b"new".to_vec());
    s.save(&h).unwrap();
    s.release(h);

    let got = s.retrieve("a", Some("1")).unwrap();
    assert_eq!(got.content().as_slice(), b"new");
}

#[test]
fn delete_of_a_missing_pair_fails_and_changes_nothing() {
    let mut s = store(false);
    let h = s.create("keep", "1", tags_header("x"), b"kept".to_vec()).unwrap();
    s.release(h);

    let r = s.delete("absent", "1");
    assert!(matches!(r, Err(StoreError::NotFound)));

    let got = s.retrieve("keep", Some("1")).unwrap();
    assert_eq!(got.content().as_slice(), b"kept");
    assert!(value_eq(got.header(), &tags_header("x")));
}

#[test]
fn delete_removes_only_the_addressed_pair() {
    let mut s = store(false);
    let h = s.create("a", "1", Value::Table(Vec::new()), b"one".to_vec()).unwrap();
    s.release(h);
    let h = s.create("a", "2", Value::Table(Vec::new()), b"two".to_vec()).unwrap();
    s.release(h);

    s.delete("a", "1").unwrap();
    assert!(matches!(s.retrieve("a", Some("1")), Err(StoreError::NotFound)));
    let got = s.retrieve("a", Some("2")).unwrap();
    assert_eq!(got.content().as_slice(), b"two");
}

#[test]
fn delete_of_a_locked_pair_is_a_lock_conflict() {
    let mut s = store(false);
    let held = s.create("a", "1", Value::Table(Vec::new()), Vec::new()).unwrap();
    let r = s.delete("a", "1");
    assert!(matches!(r, Err(StoreError::LockConflict)));
    s.release(held);
    assert!(s.delete("a", "1").is_ok());
}

#[test]
fn numeric_versions_sort_numerically() {
    let mut s = store(false);
    for v in ["1", "2", "10"] {
        let h = s.create("x", v, Value::Table(Vec::new()), Vec::new()).unwrap();
        s.release(h);
    }
    let versions = s.list_versions("x");
    assert_eq!(versions, vec!["1", "2", "10"]);
}

#[test]
fn mixed_versions_sort_lexically() {
    let mut s = store(false);
    for v in ["b", "10", "2"] {
        let h = s.create("x", v, Value::Table(Vec::new()), Vec::new()).unwrap();
        s.release(h);
    }
    let versions = s.list_versions("x");
    assert_eq!(versions, vec!["10", "2", "b"]);
}

#[test]
fn listing_ignores_other_ids() {
    let mut s = store(false);
    for (id, v) in [("x", "1"), ("y", "2"), ("x", "3")] {
        let h = s.create(id, v, Value::Table(Vec::new()), Vec::new()).unwrap();
        s.release(h);
    }
    assert_eq!(s.list_versions("x"), vec!["1", "3"]);
    assert_eq!(s.list_versions("y"), vec!["2"]);
    assert!(s.list_versions("z").is_empty());
}

#[test]
fn leading_separator_is_store_root_relative() {
    let mut s = store(false);
    let h = s.create("/abs", "1", Value::Table(Vec::new()), b"x".to_vec()).unwrap();
    s.release(h);
    let got = s.retrieve("abs", Some("1")).unwrap();
    assert_eq!(got.content().as_slice(), b"x");
}
