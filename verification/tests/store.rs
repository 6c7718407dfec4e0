use dwal::database::Database;

#[test]
fn test_database_methods() {
    let mut db: Database = Database::new("./cache/langmore.db");

    db.set_path("./cache/langmore.db");

    assert_eq!(db.get_path(), "./cache/langmore.db".to_string());

    assert_eq!(db.set("key1", "value1"), 1);
    assert_eq!(db.set("key2", "value2"), 2);
    assert_eq!(db.set("key3", "value3"), 3);

    assert_eq!(db.get("key1"), "value1".to_string());
    assert_eq!(db.get("key2"), "value2".to_string());
    assert_eq!(db.get("key3"), "value3".to_string());

    assert_eq!(db.remove("key1"), 2);
    assert_eq!(db.remove("key2"), 1);
    assert_eq!(db.remove("key3"), 0);

    assert_eq!(db.set("key1", "value1"), 1);
    assert_eq!(db.set("key2", "value2"), 2);
    assert_eq!(db.set("key3", "value3"), 3);

    let bytes = db.snapshot();

    let db2: Database = Database::restore("./cache/langmore.db", &bytes).unwrap();

    assert_eq!(db2.get("key1"), "value1".to_string());
    assert_eq!(db2.get("key2"), "value2".to_string());
    assert_eq!(db2.get("key3"), "value3".to_string());
}

#[test]
fn test_get_absent_key() {
    let mut db = Database::new("snap.db");
    assert_eq!(db.get("never"), "".to_string());
    db.set("gone", "soon");
    db.remove("gone");
    assert_eq!(db.get("gone"), "".to_string());
}

#[test]
fn test_set_overwrites() {
    let mut db = Database::new("snap.db");
    assert_eq!(db.set("k", "first"), 1);
    assert_eq!(db.set("k", "second"), 1);
    assert_eq!(db.get("k"), "second".to_string());
    assert_eq!(db.count(), 1);
}

#[test]
fn test_delete_absent_key() {
    let mut db = Database::new("snap.db");
    db.set("stay", "put");
    let before = db.count();
    assert_eq!(db.remove("missing"), before);
    assert_eq!(db.count(), before);
    assert_eq!(db.get("stay"), "put".to_string());
}

#[test]
fn test_snapshot_roundtrip_order_independent() {
    let mut one = Database::new("snap.db");
    one.set("alpha", "1");
    one.set("beta", "2");

    let mut two = Database::new("snap.db");
    two.set("beta", "2");
    two.set("alpha", "1");

    let r1 = Database::restore("snap.db", &one.snapshot()).unwrap();
    let r2 = Database::restore("snap.db", &two.snapshot()).unwrap();
    assert_eq!(r1.count(), 2);
    assert_eq!(r2.count(), 2);
    for key in ["alpha", "beta"] {
        assert_eq!(r1.get(key), r2.get(key));
        assert_eq!(r1.get(key), one.get(key));
    }
}

#[test]
fn test_snapshot_non_ascii_values() {
    let mut db = Database::new("snap.db");
    db.set("clé", "välûe ✓");
    let back = Database::restore("snap.db", &db.snapshot()).unwrap();
    assert_eq!(back.get("clé"), "välûe ✓".to_string());
}

#[test]
fn test_restore_rejects_empty_key() {
    // The store never holds an empty key, so a snapshot carrying one is not
    // a snapshot the store could have written.
    let pairs = vec![(String::new(), "v".to_string())];
    let bytes = dwal::codec::encode_entries(&pairs);
    assert!(Database::restore("snap.db", &bytes).is_none());
}

#[test]
fn test_restore_rejects_bad_bytes() {
    // Too short to hold a count.
    assert!(Database::restore("snap.db", &[1, 2, 3]).is_none());

    let mut db = Database::new("snap.db");
    db.set("ab", "cd");
    let bytes = db.snapshot();

    // Truncated: the last value byte is missing.
    assert!(Database::restore("snap.db", &bytes[..bytes.len() - 1]).is_none());

    // Trailing garbage after a well-formed snapshot.
    let mut padded = bytes.clone();
    padded.push(0);
    assert!(Database::restore("snap.db", &padded).is_none());

    // A payload byte corrupted into invalid UTF-8.
    let mut corrupt = bytes.clone();
    let last = corrupt.len() - 1;
    corrupt[last] = 0xFF;
    assert!(Database::restore("snap.db", &corrupt).is_none());
}
