use simpledb::store::{CountingStore, Database, Transaction};

#[test]
fn test_counting_store() {
    let mut store = CountingStore::new();
    assert_eq!(store.count("value"), 0);
    assert_eq!(store.get("name1"), None);
    store.set("name1", "value");
    assert_eq!(store.get("name1"), Some("value".into()));
    assert_eq!(store.count("value"), 1);
    store.set("name2", "value");
    assert_eq!(store.count("value"), 2);
    store.set("name3", "value");
    assert_eq!(store.count("value"), 3);
    store.delete("name3");
    assert_eq!(store.get("name3"), None);
    assert_eq!(store.count("value"), 2);
    store.delete("name2");
    assert_eq!(store.get("name2"), None);
    assert_eq!(store.count("value"), 1);
    store.delete("name1");
    assert_eq!(store.get("name1"), None);
    assert_eq!(store.count("value"), 0);
}

#[test]
fn test_transactions() {
    let mut first = Transaction::new();
    first.set("name2", "value");
    first.set("name1", "value1");
    let mut second = Transaction::new();
    second = second.parent(first.clone());
    second.set("name1", "value2");
    second.set("name3", "value");
    assert_eq!(second.get("name1"), Some("value2".into()));
    assert_eq!(first.get("name1"), Some("value1".into()));
    assert_eq!(second.count("value"), 2);
    assert_eq!(first.count("value"), 1);
    second.delete("name3");
    assert_eq!(second.count("value"), 1);
    second.delete("name2");
    assert_eq!(second.count("value"), 0);
    assert_eq!(first.count("value"), 1);
}

#[test]
fn test_example_1() {
    let mut db = Database::new();
    assert_eq!(db.get("a"), None);
    db.set("a", "foo");
    db.set("b", "foo");
    assert_eq!(db.count("foo"), 2);
    assert_eq!(db.count("bar"), 0);
    db.delete("a");
    assert_eq!(db.count("foo"), 1);
    db.set("b", "baz");
    assert_eq!(db.count("foo"), 0);
    assert_eq!(db.get("b"), Some("baz".into()));
    assert_eq!(db.get("B"), None);
}

#[test]
fn test_example_2() {
    let mut db = Database::new();
    db.set("a", "foo");
    db.set("a", "foo");
    assert_eq!(db.count("foo"), 1);
    assert_eq!(db.get("a"), Some("foo".into()));
    db.delete("a");
    assert_eq!(db.get("a"), None);
    assert_eq!(db.count("foo"), 0);
}

#[test]
fn test_example_3() {
    let mut db = Database::new();
    db.begin();
    db.set("a", "foo");
    assert_eq!(db.get("a"), Some("foo".into()));
    db.begin();
    db.set("a", "bar");
    assert_eq!(db.get("a"), Some("bar".into()));
    db.set("a", "baz");
    db.rollback();
    assert_eq!(db.get("a"), Some("foo".into()));
    db.rollback();
    assert_eq!(db.get("a"), None);
}

#[test]
fn test_example_4() {
    let mut db = Database::new();
    db.set("a", "foo");
    db.set("b", "baz");
    db.begin();
    assert_eq!(db.get("a"), Some("foo".into()));
    db.set("a", "bar");
    assert_eq!(db.count("bar"), 1);
    db.begin();
    assert_eq!(db.count("bar"), 1);
    db.delete("a");
    assert_eq!(db.get("a"), None);
    assert_eq!(db.count("bar"), 0);
    db.rollback();
    assert_eq!(db.get("a"), Some("bar".into()));
    assert_eq!(db.count("bar"), 1);
    db.commit();
    assert_eq!(db.get("a"), Some("bar".into()));
    assert_eq!(db.get("b"), Some("baz".into()));
}

#[test]
fn test_shadow_delete_count() {
    let mut db = Database::new();
    db.set("a", "foo");
    db.set("b", "foo");
    db.begin();
    assert_eq!(db.get("a"), Some("foo".into()));
    assert_eq!(db.get("b"), Some("foo".into()));
    assert_eq!(db.count("foo"), 2);
    db.set("a", "bar");
    assert_eq!(db.count("bar"), 1);
    assert_eq!(db.count("foo"), 1);
    db.delete("a");
    assert_eq!(db.count("bar"), 0);
    assert_eq!(db.count("foo"), 1);
    db.delete("a");
    assert_eq!(db.count("bar"), 0);
    assert_eq!(db.count("foo"), 1);
    db.delete("b");
    assert_eq!(db.count("bar"), 0);
    assert_eq!(db.count("foo"), 0);
}

#[test]
fn test_no_transaction_signals() {
    // rollback and commit on a fresh database report no transaction and
    // change nothing
    let mut db = Database::new();
    assert!(!db.rollback());
    assert!(!db.commit());
    assert_eq!(db.get("a"), None);
    assert_eq!(db.count("foo"), 0);
    db.set("a", "foo");
    assert!(!db.commit());
    assert_eq!(db.get("a"), Some("foo".into()));
    assert_eq!(db.count("foo"), 1);
}

#[test]
fn test_nested_rollback_to_empty() {
    let mut db = Database::new();
    db.set("a", "10");
    db.begin();
    db.set("a", "20");
    assert_eq!(db.get("a"), Some("20".into()));
    assert!(db.rollback());
    assert_eq!(db.get("a"), Some("10".into()));
    assert!(!db.rollback());
    assert_eq!(db.get("a"), Some("10".into()));
}

#[test]
fn test_commit_flattens_all_layers() {
    let mut db = Database::new();
    db.set("a", "one");
    db.begin();
    db.set("b", "two");
    db.begin();
    db.delete("a");
    db.set("c", "two");
    assert!(db.commit());
    assert_eq!(db.get("a"), None);
    assert_eq!(db.get("b"), Some("two".into()));
    assert_eq!(db.get("c"), Some("two".into()));
    assert_eq!(db.count("two"), 2);
    assert_eq!(db.count("one"), 0);
    // everything is folded into the base layer, so there is nothing left to
    // roll back
    assert!(!db.rollback());
}

#[test]
fn test_delete_never_set_key() {
    let mut db = Database::new();
    db.set("a", "foo");
    db.delete("missing");
    assert_eq!(db.get("missing"), None);
    assert_eq!(db.get("a"), Some("foo".into()));
    assert_eq!(db.count("foo"), 1);
    db.delete("missing");
    assert_eq!(db.count("foo"), 1);
}

#[test]
fn test_store_contains_and_compact() {
    let mut store = CountingStore::new();
    assert!(!store.contains("a"));
    store.set("a", "foo");
    assert!(store.contains("a"));
    store.delete("a");
    // a deleted key is still contained: its tombstone must shadow a parent
    assert!(store.contains("a"));
    assert_eq!(store.get("a"), None);
    store.set("b", "bar");
    store.compact();
    assert!(!store.contains("a"));
    assert!(store.contains("b"));
    assert_eq!(store.get("b"), Some("bar".into()));
    assert_eq!(store.count("bar"), 1);
}

#[test]
fn test_transaction_shadowed_get() {
    let mut base = Transaction::new();
    base.set("k", "parent");
    let mut inner = Transaction::new().parent(base);
    assert_eq!(inner.get("k"), Some("parent".into()));
    inner.delete("k");
    // the tombstone shadows the parent's value even though the parent still
    // holds it
    assert_eq!(inner.get("k"), None);
    assert_eq!(inner.count("parent"), 0);
    inner.set("k", "child");
    assert_eq!(inner.get("k"), Some("child".into()));
    assert_eq!(inner.count("child"), 1);
}

#[test]
fn test_reference_scenario() {
    let mut db = Database::new();
    db.begin();
    db.set("a", "10");
    db.begin();
    db.set("a", "20");
    assert_eq!(db.get("a"), Some("20".into()));
    assert!(db.rollback());
    assert_eq!(db.get("a"), Some("10".into()));
    assert!(db.rollback());
    assert_eq!(db.get("a"), None);
    assert!(!db.rollback());
}
