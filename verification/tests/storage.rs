use web_api_cat::document::{install, Window};
use web_api_cat::markup::parse_page;
use web_api_cat::storage::{build_storage_object, read_storage_items, seed_storage};

fn seeded_window(seed: &[(String, String)]) -> Window {
    let mut w = install(&parse_page("<html><body></body></html>"));
    seed_storage(&mut w.local_storage, &seed.to_vec());
    w
}

#[test]
fn local_storage_set_then_get_round_trips() {
    let mut w = seeded_window(&[]);
    w.local_storage.set_item("k", "v");
    assert_eq!(w.local_storage.get_item("k").as_deref(), Some("v"));
}

#[test]
fn local_storage_get_missing_returns_null() {
    let w = seeded_window(&[]);
    assert_eq!(w.local_storage.get_item("nope"), None);
}

#[test]
fn local_storage_seeded_items_are_visible() {
    let seed = vec![("alpha".to_owned(), "1".to_owned()), ("beta".to_owned(), "2".to_owned())];
    let w = seeded_window(&seed);
    let a = w.local_storage.get_item("alpha").unwrap_or_default();
    let b = w.local_storage.get_item("beta").unwrap_or_default();
    assert_eq!(format!("{a},{b}"), "1,2");
}

#[test]
fn local_storage_length_reflects_item_count() {
    let mut w = seeded_window(&[]);
    w.local_storage.set_item("a", "1");
    w.local_storage.set_item("b", "2");
    w.local_storage.set_item("c", "3");
    assert_eq!(w.local_storage.length(), 3);
}

#[test]
fn local_storage_remove_item_drops_entry() {
    let mut w = seeded_window(&[("k".to_owned(), "v".to_owned())]);
    w.local_storage.remove_item("k");
    assert_eq!(w.local_storage.get_item("k"), None);
}

#[test]
fn local_storage_clear_empties_storage() {
    let mut w = seeded_window(&[("a".to_owned(), "1".to_owned()), ("b".to_owned(), "2".to_owned())]);
    w.local_storage.clear();
    assert_eq!(w.local_storage.length(), 0);
}

#[test]
fn local_storage_key_returns_nth_key_in_btree_order() {
    let mut w = seeded_window(&[]);
    w.local_storage.set_item("zebra", "1");
    w.local_storage.set_item("alpha", "1");
    w.local_storage.set_item("mango", "1");
    let keys: Vec<String> = (0..3).map(|i| w.local_storage.key(i).unwrap_or_default()).collect();
    assert_eq!(keys.join(","), "alpha,mango,zebra");
}

#[test]
fn local_storage_key_out_of_range_returns_null() {
    let w = seeded_window(&[("k".to_owned(), "v".to_owned())]);
    assert_eq!(w.local_storage.key(5), None);
}

#[test]
fn host_reads_post_eval_items() {
    let mut w = seeded_window(&[]);
    w.local_storage.set_item("alpha", "one");
    w.local_storage.set_item("beta", "two");
    assert_eq!(
        read_storage_items(&w.local_storage),
        vec![("alpha".to_owned(), "one".to_owned()), ("beta".to_owned(), "two".to_owned())]
    );
}

#[test]
fn session_storage_is_independent_of_local() {
    let mut w = seeded_window(&[]);
    w.local_storage.set_item("shared", "local");
    w.session_storage.set_item("shared", "session");
    let a = w.local_storage.get_item("shared").unwrap_or_default();
    let b = w.session_storage.get_item("shared").unwrap_or_default();
    assert_eq!(format!("{a},{b}"), "local,session");
}

#[test]
fn window_local_storage_is_the_same_object_as_global_local_storage() {
    let mut w = seeded_window(&[]);
    w.local_storage.set_item("k", "v");
    let through_window = &w.local_storage;
    assert_eq!(through_window.get_item("k").as_deref(), Some("v"));
}

#[test]
fn host_seed_then_post_eval_read_round_trips_unchanged_state() {
    let seed = vec![("kept".to_owned(), "as-is".to_owned())];
    let w = seeded_window(&seed);
    let _ = w.local_storage.get_item("kept");
    assert_eq!(read_storage_items(&w.local_storage), seed);
}

#[test]
fn session_storage_lookup_works() {
    let mut w = seeded_window(&[]);
    w.session_storage.set_item("s", "val");
    assert_eq!(read_storage_items(&w.session_storage), vec![("s".to_owned(), "val".to_owned())]);
}

#[test]
fn seeding_with_duplicate_keys_keeps_the_last_value() {
    let mut s = build_storage_object();
    seed_storage(
        &mut s,
        &vec![("k".to_owned(), "first".to_owned()), ("a".to_owned(), "x".to_owned()), ("k".to_owned(), "second".to_owned())],
    );
    assert_eq!(
        read_storage_items(&s),
        vec![("a".to_owned(), "x".to_owned()), ("k".to_owned(), "second".to_owned())]
    );
}

#[test]
fn set_then_remove_of_a_new_key_restores_the_items() {
    let mut s = build_storage_object();
    seed_storage(&mut s, &vec![("a".to_owned(), "1".to_owned())]);
    let before = read_storage_items(&s);
    s.set_item("b", "2");
    s.remove_item("b");
    assert_eq!(read_storage_items(&s), before);
}

#[test]
fn seeding_distinct_keys_reads_back_in_key_order() {
    let mut s = build_storage_object();
    let entries = vec![
        ("zeta".to_owned(), "1".to_owned()),
        ("alpha".to_owned(), "2".to_owned()),
        ("mid".to_owned(), "3".to_owned()),
    ];
    seed_storage(&mut s, &entries);
    assert_eq!(
        read_storage_items(&s),
        vec![
            ("alpha".to_owned(), "2".to_owned()),
            ("mid".to_owned(), "3".to_owned()),
            ("zeta".to_owned(), "1".to_owned()),
        ]
    );
}
