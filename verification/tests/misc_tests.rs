use imagstore::LogLevel;
use imagstore::StoreError;
use imagstore::match_log_level_str;
use imagstore::resolve;
use imagstore::sort_versions;

#[test]
fn log_level_names_map_to_levels() {
    assert_eq!(match_log_level_str("trace").unwrap(), LogLevel::Trace);
    assert_eq!(match_log_level_str("debug").unwrap(), LogLevel::Debug);
    assert_eq!(match_log_level_str("info").unwrap(), LogLevel::Info);
    assert_eq!(match_log_level_str("warn").unwrap(), LogLevel::Warn);
    assert_eq!(match_log_level_str("error").unwrap(), LogLevel::Error);
}

#[test]
fn unknown_log_level_name_is_rejected() {
    let r = match_log_level_str("loud");
    assert!(matches!(r, Err(StoreError::ConfigTypeError(_, _))));
    assert!(matches!(match_log_level_str("TRACE"), Err(_)));
}

#[test]
fn resolve_builds_the_physical_path() {
    let loc = resolve("store", "diary/2024-01-01", Some("1")).unwrap();
    assert_eq!(loc.id, "diary/2024-01-01");
    assert_eq!(loc.version, "1");
    assert_eq!(loc.path, "store/diary/2024-01-01~1");
}

#[test]
fn resolve_recovers_the_version_from_a_tilde_suffix() {
    let loc = resolve("store", "foo~3", None).unwrap();
    assert_eq!(loc.id, "foo");
    assert_eq!(loc.version, "3");
    assert_eq!(loc.path, "store/foo~3");
}

#[test]
fn resolve_splits_at_the_last_tilde() {
    let loc = resolve("store", "a~b~c", None).unwrap();
    assert_eq!(loc.id, "a~b");
    assert_eq!(loc.version, "c");
}

#[test]
fn resolve_strips_one_leading_separator() {
    let loc = resolve("store", "/abs", Some("2")).unwrap();
    assert_eq!(loc.id, "abs");
    assert_eq!(loc.path, "store/abs~2");
}

#[test]
fn resolve_without_a_version_fails_no_version() {
    let r = resolve("store", "plain", None);
    assert!(matches!(r, Err(StoreError::NoVersion)));
}

#[test]
fn sorting_all_numeric_tokens_is_numeric() {
    let got = sort_versions(vec![
        String::from("10"),
        String::from("1"),
        String::from("2"),
    ]);
    assert_eq!(got, vec!["1", "2", "10"]);
}

#[test]
fn sorting_with_a_non_numeric_token_is_lexical() {
    let got = sort_versions(vec![
        String::from("10"),
        String::from("1"),
        String::from("2a"),
    ]);
    assert_eq!(got, vec!["1", "10", "2a"]);
}

#[test]
fn sorting_keeps_duplicates() {
    let got = sort_versions(vec![
        String::from("2"),
        String::from("1"),
        String::from("2"),
    ]);
    assert_eq!(got, vec!["1", "2", "2"]);
}
