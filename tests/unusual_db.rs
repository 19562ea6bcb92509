use protohackers::kv::Store;

#[test]
fn version_is_there_and_fixed() {
    let mut db = Store::new();
    assert_eq!(db.process_message(b"version"), Some(b"version=KP's KV 0.1".to_vec()));
    assert_eq!(db.process_message(b"version=other"), None);
    assert_eq!(db.process_message(b"version"), Some(b"version=KP's KV 0.1".to_vec()));
}

#[test]
fn insert_then_retrieve() {
    let mut db = Store::new();
    assert_eq!(db.process_message(b"foo"), None);
    assert_eq!(db.process_message(b"foo=bar"), None);
    assert_eq!(db.process_message(b"foo"), Some(b"foo=bar".to_vec()));
    assert_eq!(db.process_message(b"foo=baz"), None);
    assert_eq!(db.process_message(b"foo"), Some(b"foo=baz".to_vec()));
    assert_eq!(db.entries.len(), 2);
}

#[test]
fn first_equals_splits() {
    let mut db = Store::new();
    assert_eq!(db.process_message(b"foo=bar=baz"), None);
    assert_eq!(db.process_message(b"foo"), Some(b"foo=bar=baz".to_vec()));
    assert_eq!(db.process_message(b"=x"), None);
    assert_eq!(db.process_message(b""), Some(b"=x".to_vec()));
    assert_eq!(db.process_message(b"empty="), None);
    assert_eq!(db.process_message(b"empty"), Some(b"empty=".to_vec()));
}
