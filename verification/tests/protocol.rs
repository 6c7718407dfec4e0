use dwal::database::Database;
use dwal::session::handle_line;

#[test]
fn test_session_exchange() {
    // The command/response exchange one connected client sees, end to end
    // through the dispatch layer.
    let mut db = Database::new("snap.db");

    let r = handle_line(&mut db, "PING\n");
    assert_eq!(r.text, "PONG\n".to_string());
    assert!(!r.close);

    let r = handle_line(&mut db, "SET a 1\n");
    assert_eq!(r.text, "OK\n".to_string());
    assert!(!r.close);

    let r = handle_line(&mut db, "GET a\n");
    assert_eq!(r.text, "1\n".to_string());
    assert!(!r.close);

    let r = handle_line(&mut db, "DELETE a\n");
    assert_eq!(r.text, "OK\n".to_string());
    assert!(!r.close);

    let r = handle_line(&mut db, "GET a\n");
    assert_eq!(r.text, "\n".to_string());
    assert!(!r.close);

    let r = handle_line(&mut db, "EXIT\n");
    assert_eq!(r.text, "OK\n".to_string());
    assert!(r.close);
}

#[test]
fn test_session_parse_errors_keep_session_open() {
    let mut db = Database::new("snap.db");

    let r = handle_line(&mut db, "inver\n");
    assert_eq!(r.text, "Invalid command name `inver`\n".to_string());
    assert!(!r.close);

    // The malformed-command text echoes the raw line, newline included, and
    // the response adds its own line ending after it.
    let r = handle_line(&mut db, "UPDATE gs\n");
    assert_eq!(r.text, "Invalid command UPDATE gs\n\n".to_string());
    assert!(!r.close);

    // The store is untouched by rejected lines.
    assert_eq!(db.count(), 0);
}

#[test]
fn test_session_update_and_get() {
    let mut db = Database::new("snap.db");
    handle_line(&mut db, "SET colour blue");
    let r = handle_line(&mut db, "UPDATE colour red");
    assert_eq!(r.text, "OK\n".to_string());
    let r = handle_line(&mut db, "GET colour");
    assert_eq!(r.text, "red\n".to_string());
    assert_eq!(db.count(), 1);
}

#[test]
fn test_set_then_get_across_sessions() {
    // One shared store, two sessions: a value set in the first session is
    // the value the second session reads.
    let mut db = Database::new("snap.db");
    let r = handle_line(&mut db, "SET shared 42");
    assert_eq!(r.text, "OK\n".to_string());
    let r = handle_line(&mut db, "EXIT");
    assert!(r.close);

    let r = handle_line(&mut db, "GET shared");
    assert_eq!(r.text, "42\n".to_string());
}

#[test]
fn test_interleaved_sets_last_writer_wins() {
    // Two sessions race on one key; the sets serialize under the store's
    // guard, so either order leaves the later value and a single record.
    let mut db = Database::new("snap.db");
    handle_line(&mut db, "SET k v1");
    handle_line(&mut db, "SET k v2");
    assert_eq!(db.get("k"), "v2".to_string());
    assert_eq!(db.count(), 1);

    let mut db = Database::new("snap.db");
    handle_line(&mut db, "SET k v2");
    handle_line(&mut db, "SET k v1");
    assert_eq!(db.get("k"), "v1".to_string());
    assert_eq!(db.count(), 1);
}
