use godspeed_cli::cache::{
    cache_from_entries, cache_from_items, find_lowercased, find_matching_key, load_cache,
    save_cache, ReferenceCache,
};

fn s(x: &str) -> String {
    x.to_string()
}

#[test]
fn exact_match_comes_before_prefix_match() {
    let mut cache = ReferenceCache::new();
    cache.insert(s("work-archive"), s("id-archive"));
    cache.insert(s("work"), s("id-work"));
    cache.insert(s("workshop"), s("id-shop"));
    assert_eq!(find_matching_key(&cache, "work"), Some(s("id-work")));
    assert_eq!(find_matching_key(&cache, "WORK"), Some(s("id-work")));
    assert_eq!(find_matching_key(&cache, "Work"), Some(s("id-work")));
}

#[test]
fn prefix_match_finds_a_key_that_starts_with_the_name() {
    let mut cache = ReferenceCache::new();
    cache.insert(s("errands"), s("id-1"));
    cache.insert(s("home"), s("id-2"));
    assert_eq!(find_matching_key(&cache, "Err"), Some(s("id-1")));
    assert_eq!(find_matching_key(&cache, "ho"), Some(s("id-2")));
    assert_eq!(find_matching_key(&cache, "rrands"), None);
    assert_eq!(find_matching_key(&cache, "errands2"), None);
}

#[test]
fn ambiguous_prefix_finds_one_of_the_candidates() {
    let mut cache = ReferenceCache::new();
    cache.insert(s("shopping"), s("a"));
    cache.insert(s("shows"), s("b"));
    let found = find_matching_key(&cache, "sh");
    assert!(found == Some(s("a")) || found == Some(s("b")));
}

#[test]
fn lookup_lowercases_the_name_and_not_the_keys() {
    let mut cache = ReferenceCache::new();
    cache.insert(s("Home"), s("id"));
    assert_eq!(find_matching_key(&cache, "home"), None);
    assert_eq!(find_lowercased(&cache, &s("Home")), Some(s("id")));
    assert_eq!(find_lowercased(&cache, &s("HOME")), None);
}

#[test]
fn empty_cache_finds_nothing() {
    let cache = ReferenceCache::new();
    assert_eq!(cache.len(), 0);
    assert_eq!(find_matching_key(&cache, "x"), None);
    assert_eq!(find_matching_key(&cache, ""), None);
}

#[test]
fn inserted_name_is_found_in_any_case() {
    let mut cache = ReferenceCache::new();
    cache.insert(s("inbox-old"), s("old"));
    cache.insert("Inbox".to_lowercase(), s("new"));
    assert_eq!(find_matching_key(&cache, "Inbox"), Some(s("new")));
    assert_eq!(find_matching_key(&cache, "INBOX"), Some(s("new")));
    assert_eq!(find_matching_key(&cache, "inbox"), Some(s("new")));
}

#[test]
fn insert_replaces_the_identifier_under_a_key() {
    let mut cache = ReferenceCache::new();
    cache.insert(s("a"), s("1"));
    cache.insert(s("b"), s("2"));
    cache.insert(s("a"), s("3"));
    assert_eq!(cache.len(), 2);
    assert_eq!(cache.get(&s("a")), Some(s("3")));
    assert_eq!(cache.get(&s("b")), Some(s("2")));
    assert_eq!(cache.get(&s("c")), None);
}

#[test]
fn fetched_items_are_keyed_by_lowercased_name() {
    let cache = cache_from_items(&vec![(s("Work"), s("1")), (s("HOME"), s("2")), (s("work"), s("3"))]);
    assert_eq!(cache.len(), 2);
    assert_eq!(cache.get(&s("work")), Some(s("3")));
    assert_eq!(cache.get(&s("home")), Some(s("2")));
    assert_eq!(cache.get(&s("Work")), None);
}

#[test]
fn entries_without_a_string_value_are_left_out() {
    let cache = cache_from_entries(&vec![(s("A"), Some(s("1"))), (s("B"), None)]);
    assert_eq!(cache.len(), 1);
    assert_eq!(cache.get(&s("a")), Some(s("1")));
}

#[test]
fn loads_string_values_of_a_document() {
    let cache = load_cache("Work = \"id-1\"\nhome = \"id-2\"\ncount = 5\n");
    assert_eq!(cache.len(), 2);
    assert_eq!(cache.get(&s("work")), Some(s("id-1")));
    assert_eq!(cache.get(&s("home")), Some(s("id-2")));
    assert_eq!(cache.get(&s("count")), None);
}

#[test]
fn malformed_document_loads_as_empty() {
    assert_eq!(load_cache("this is [not toml").len(), 0);
    assert_eq!(load_cache("").len(), 0);
}

#[test]
fn saved_cache_loads_again() {
    let mut cache = ReferenceCache::new();
    cache.insert(s("work"), s("id-1"));
    cache.insert(s("my list"), s("id \"2\""));
    let text = save_cache(&cache).unwrap();
    assert!(text.contains("work = \"id-1\""));
    let again = load_cache(&text);
    assert_eq!(again.len(), 2);
    assert_eq!(again.get(&s("work")), Some(s("id-1")));
    assert_eq!(again.get(&s("my list")), Some(s("id \"2\"")));
    assert_eq!(save_cache(&again), Some(text));
}

#[test]
fn empty_cache_saves_as_empty_document() {
    assert_eq!(save_cache(&ReferenceCache::new()), Some(String::new()));
}
