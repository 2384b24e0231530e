//! Tests of the three lookup procedures, driven with in-memory store data.

use pythonup::resolve::find_best_installed;
use pythonup::resolve::find_best_using;
use pythonup::resolve::find_installed;
use pythonup::resolve::find_of_pythonup;
use pythonup::resolve::get;
use pythonup::resolve::KeyRead;
use pythonup::resolve::ResolveError;
use pythonup::tag::Tag;

fn parsed(s: &str) -> Tag {
    Tag::parse_strict(s).expect(s)
}

fn names(list: &[&str]) -> Vec<String> {
    list.iter().map(|s| String::from(*s)).collect()
}

#[test]
fn best_installed_prefers_higher_version_then_64_bit() {
    let installed = names(&["3.6-32", "3.7-64", "3.7-32"]);
    let best = find_best_installed(&parsed("3"), &installed).unwrap();
    assert_eq!(best, parsed("3.7-64"));
}

#[test]
fn best_installed_with_pinned_architecture() {
    let installed = names(&["3.6-32", "3.7-64", "3.7-32"]);
    let best = find_best_installed(&parsed("3-32"), &installed).unwrap();
    assert_eq!(best, parsed("3.7-32"));
}

#[test]
fn best_installed_exact_query() {
    let installed = names(&["3.6-32", "3.7-64", "3.7-32"]);
    let best = find_best_installed(&parsed("3.6-32"), &installed).unwrap();
    assert_eq!(best, parsed("3.6-32"));
}

#[test]
fn best_installed_skips_malformed_entries() {
    let installed = names(&["3.6-32", "not-a-version", "3.7-64", "3.7"]);
    let best = find_best_installed(&parsed("3"), &installed).unwrap();
    assert_eq!(best, parsed("3.7-64"));
}

#[test]
fn best_installed_exhaustion_names_the_query() {
    let installed = names(&["3.6-32", "3.7-64"]);
    let query = parsed("9.9");
    match find_best_installed(&query, &installed) {
        Err(ResolveError::NoMatch { query: q }) => assert_eq!(q, query),
        other => panic!("expected NoMatch, got {:?}", other),
    }
}

#[test]
fn best_installed_empty_enumeration() {
    let query = parsed("3");
    match find_best_installed(&query, &Vec::new()) {
        Err(ResolveError::NoMatch { query: q }) => assert_eq!(q, query),
        other => panic!("expected NoMatch, got {:?}", other),
    }
}

#[test]
fn find_installed_sorts_and_deduplicates() {
    let enumerated = names(&["3.7-32", "garbage", "3.6-64", "3.7-32", "2.7"]);
    let tags = find_installed(&enumerated);
    assert_eq!(tags, vec![parsed("2.7"), parsed("3.6-64"), parsed("3.7-32")]);
}

#[test]
fn active_list_order_beats_version_magnitude() {
    let list = KeyRead::Value(String::from("3.7-32;3.8-64"));
    let best = find_best_using(&parsed("3"), &list).unwrap();
    assert_eq!(best, parsed("3.7-32"));
}

#[test]
fn active_list_skips_entries_the_query_misses() {
    let list = KeyRead::Value(String::from("2.7-32;3.8-64;3.6-32"));
    let best = find_best_using(&parsed("3"), &list).unwrap();
    assert_eq!(best, parsed("3.8-64"));
}

#[test]
fn active_list_skips_malformed_entries() {
    let list = KeyRead::Value(String::from("wat;3.6-32"));
    let best = find_best_using(&parsed("3"), &list).unwrap();
    assert_eq!(best, parsed("3.6-32"));
}

#[test]
fn active_list_exhaustion() {
    let list = KeyRead::Value(String::from("2.7-32;2.6-64"));
    let query = parsed("9");
    match find_best_using(&query, &list) {
        Err(ResolveError::NoMatch { query: q }) => assert_eq!(q, query),
        other => panic!("expected NoMatch, got {:?}", other),
    }
}

#[test]
fn active_list_empty_value() {
    let list = KeyRead::Value(String::new());
    assert!(matches!(
        find_best_using(&parsed("3"), &list),
        Err(ResolveError::NoMatch { .. })
    ));
}

#[test]
fn active_list_unavailable_is_store_access() {
    let missing = KeyRead::Missing(String::from("no such key"));
    match find_best_using(&parsed("3"), &missing) {
        Err(ResolveError::StoreAccess { detail }) => assert_eq!(detail, "no such key"),
        other => panic!("expected StoreAccess, got {:?}", other),
    }
    let unreadable = KeyRead::Unreadable(String::from("value type mismatch"));
    match find_best_using(&parsed("3"), &unreadable) {
        Err(ResolveError::StoreAccess { detail }) => assert_eq!(detail, "value type mismatch"),
        other => panic!("expected StoreAccess, got {:?}", other),
    }
}

#[test]
fn get_uses_first_location_that_opens() {
    let reads = vec![
        KeyRead::Missing(String::from("not under the user hive")),
        KeyRead::Value(String::from("C:\\Python37")),
        KeyRead::Value(String::from("C:\\Elsewhere")),
    ];
    let path = get(&parsed("3.7-64"), &reads).unwrap();
    assert_eq!(path, "C:\\Python37\\python.exe");
}

#[test]
fn get_unreadable_value_is_fatal_not_skipped() {
    let reads = vec![
        KeyRead::Missing(String::from("absent")),
        KeyRead::Unreadable(String::from("cannot read install root")),
        KeyRead::Value(String::from("C:\\Python37")),
    ];
    match get(&parsed("3.7-64"), &reads) {
        Err(ResolveError::StoreAccess { detail }) => {
            assert_eq!(detail, "cannot read install root")
        },
        other => panic!("expected StoreAccess, got {:?}", other),
    }
}

#[test]
fn get_exhaustion_names_the_tag() {
    let reads = vec![
        KeyRead::Missing(String::from("a")),
        KeyRead::Missing(String::from("b")),
        KeyRead::Missing(String::from("c")),
    ];
    let query = parsed("3.7-64");
    match get(&query, &reads) {
        Err(ResolveError::NoMatch { query: q }) => assert_eq!(q, query),
        other => panic!("expected NoMatch, got {:?}", other),
    }
    assert!(matches!(
        get(&query, &Vec::new()),
        Err(ResolveError::NoMatch { .. })
    ));
}

#[test]
fn bundled_interpreter_path() {
    let install = KeyRead::Value(String::from("C:\\PythonUp"));
    let path = find_of_pythonup(&install).unwrap();
    assert_eq!(path, "C:\\PythonUp\\lib\\python\\python.exe");
}

#[test]
fn bundled_interpreter_failures() {
    match find_of_pythonup(&KeyRead::Missing(String::from("nope"))) {
        Err(ResolveError::StoreAccess { detail }) => assert_eq!(detail, "nope"),
        other => panic!("expected StoreAccess, got {:?}", other),
    }
    match find_of_pythonup(&KeyRead::Unreadable(String::from("broken"))) {
        Err(ResolveError::StoreAccess { detail }) => assert_eq!(detail, "broken"),
        other => panic!("expected StoreAccess, got {:?}", other),
    }
}
