use imagstore::Entry;
use imagstore::FieldPath;
use imagstore::FilterPredicate;
use imagstore::Value;

fn entry_with_header(header: Value) -> Entry {
    Entry {
        id: String::from("e"),
        version: String::from("1"),
        header,
        content: Vec::new(),
    }
}

fn tags_entry(tag: &str) -> Entry {
    entry_with_header(Value::Table(vec![(
        String::from("tags"),
        Value::Array(vec![Value::Text(String::from(tag))]),
    )]))
}

fn regex_on_tags(pattern: &str) -> FilterPredicate {
    FilterPredicate::FieldRegexMatch(FieldPath::parse("tags.0"), String::from(pattern))
}

#[test]
fn regex_match_searches_inside_the_field() {
    assert!(regex_on_tags("^li").matches(&tags_entry("life")));
    assert!(!regex_on_tags("^li").matches(&tags_entry("work")));
    // search, not anchored match: "if" occurs inside "life"
    assert!(regex_on_tags("if").matches(&tags_entry("life")));
}

#[test]
fn regex_match_on_an_absent_path_is_false_not_an_error() {
    let empty = entry_with_header(Value::Table(Vec::new()));
    assert!(!regex_on_tags("^li").matches(&empty));
}

#[test]
fn regex_match_on_a_non_string_field_is_false() {
    let e = entry_with_header(Value::Table(vec![(
        String::from("tags"),
        Value::Array(vec![Value::Integer(5)]),
    )]));
    assert!(!regex_on_tags("5").matches(&e));
}

#[test]
fn malformed_pattern_is_false_not_an_error() {
    assert!(!regex_on_tags("[unclosed").matches(&tags_entry("life")));
}

#[test]
fn field_equals_compares_the_whole_value() {
    let p = FilterPredicate::FieldEquals(
        FieldPath::parse("tags.0"),
        Value::Text(String::from("life")),
    );
    assert!(p.matches(&tags_entry("life")));
    assert!(!p.matches(&tags_entry("work")));
    assert!(!p.matches(&entry_with_header(Value::Table(Vec::new()))));
}

#[test]
fn combinators_evaluate_boolean_structure() {
    let life = || Box::new(regex_on_tags("^li"));
    let work = || Box::new(regex_on_tags("^wo"));
    let e = tags_entry("life");

    assert!(FilterPredicate::Or(life(), work()).matches(&e));
    assert!(!FilterPredicate::And(life(), work()).matches(&e));
    assert!(FilterPredicate::And(life(), Box::new(FilterPredicate::Not(work()))).matches(&e));
    assert!(!FilterPredicate::Not(life()).matches(&e));
}
