use dwal::command::{Command, Type};

#[test]
fn test_set_command() {
    let mut cmd: Command = Command::new("", "", 0, Type::Unknown);

    cmd.set_key("item1");
    cmd.set_value("value1");
    cmd.set_expire(0);
    cmd.set_name(Type::SetOp);

    assert_eq!(*cmd.get_key(), "item1".to_string());
    assert_eq!(*cmd.get_value(), "value1".to_string());
    assert_eq!(*cmd.get_expire(), 0);
    assert_eq!(*cmd.get_name(), Type::SetOp);

    match Command::from_str("SET item2 value2") {
        Ok(v) => {
            cmd = v;
        }
        Err(_) => {}
    }

    assert_eq!(*cmd.get_key(), "item2".to_string());
    assert_eq!(*cmd.get_value(), "value2".to_string());
    assert_eq!(*cmd.get_expire(), 0);
    assert_eq!(*cmd.get_name(), Type::SetOp);

    match Command::from_str("SET item2 value2 160") {
        Ok(v) => {
            cmd = v;
        }
        Err(_) => {}
    }

    assert_eq!(*cmd.get_key(), "item2".to_string());
    assert_eq!(*cmd.get_value(), "value2".to_string());
    assert_eq!(*cmd.get_expire(), 160);
    assert_eq!(*cmd.get_name(), Type::SetOp);
}

#[test]
fn test_get_command() {
    let mut cmd: Command = Command::new("", "", 0, Type::Unknown);

    match Command::from_str("GET item2") {
        Ok(v) => {
            cmd = v;
        }
        Err(_) => {}
    }

    assert_eq!(*cmd.get_key(), "item2".to_string());
    assert_eq!(*cmd.get_value(), "".to_string());
    assert_eq!(*cmd.get_expire(), 0);
    assert_eq!(*cmd.get_name(), Type::Get);
}

#[test]
fn test_delete_command() {
    let mut cmd: Command = Command::new("", "", 0, Type::Unknown);

    match Command::from_str("DELETE item2") {
        Ok(v) => {
            cmd = v;
        }
        Err(_) => {}
    }

    assert_eq!(*cmd.get_key(), "item2".to_string());
    assert_eq!(*cmd.get_value(), "".to_string());
    assert_eq!(*cmd.get_expire(), 0);
    assert_eq!(*cmd.get_name(), Type::Delete);
}

#[test]
fn test_ping_command() {
    let mut cmd: Command = Command::new("", "", 0, Type::Unknown);

    match Command::from_str("PING") {
        Ok(v) => {
            cmd = v;
        }
        Err(_) => {}
    }

    assert_eq!(*cmd.get_key(), "".to_string());
    assert_eq!(*cmd.get_value(), "".to_string());
    assert_eq!(*cmd.get_expire(), 0);
    assert_eq!(*cmd.get_name(), Type::Ping);
}

#[test]
fn test_exit_command() {
    let mut cmd: Command = Command::new("", "", 0, Type::Unknown);

    match Command::from_str("EXIT") {
        Ok(v) => {
            cmd = v;
        }
        Err(_) => {}
    }

    assert_eq!(*cmd.get_key(), "".to_string());
    assert_eq!(*cmd.get_value(), "".to_string());
    assert_eq!(*cmd.get_expire(), 0);
    assert_eq!(*cmd.get_name(), Type::Exit);

    match Command::from_str("exit") {
        Ok(v) => {
            cmd = v;
        }
        Err(_) => {}
    }

    assert_eq!(*cmd.get_key(), "".to_string());
    assert_eq!(*cmd.get_value(), "".to_string());
    assert_eq!(*cmd.get_expire(), 0);
    assert_eq!(*cmd.get_name(), Type::Exit);
}

#[test]
fn test_error1_command() {
    let mut err: String = String::from("");

    match Command::from_str("inver") {
        Ok(_) => {}
        Err(e) => err = e,
    }

    assert_eq!(err, "Invalid command name `inver`".to_string());
}

#[test]
fn test_error2_command() {
    let mut err: String = String::from("");

    match Command::from_str("get ") {
        Ok(_) => {}
        Err(e) => err = e,
    }

    assert_eq!(err, "Invalid command get ".to_string());
}

#[test]
fn test_error3_command() {
    let mut err: String = String::from("");

    match Command::from_str("update gs") {
        Ok(_) => {}
        Err(e) => err = e,
    }

    assert_eq!(err, "Invalid command update gs".to_string());
}

#[test]
fn test_verb_case_insensitive() {
    for line in ["exit", "EXIT", "ExIt"] {
        let cmd = Command::from_str(line).unwrap();
        assert_eq!(*cmd.get_name(), Type::Exit);
    }
    for line in ["set a b", "SET a b", "sEt a b"] {
        let cmd = Command::from_str(line).unwrap();
        assert_eq!(*cmd.get_name(), Type::SetOp);
    }
}

#[test]
fn test_expire_parsing() {
    let cmd = Command::from_str("SET k v").unwrap();
    assert_eq!(*cmd.get_expire(), 0);

    let cmd = Command::from_str("SET k v 160").unwrap();
    assert_eq!(*cmd.get_expire(), 160);

    let cmd = Command::from_str("SET k v -7").unwrap();
    assert_eq!(*cmd.get_expire(), -7);

    let cmd = Command::from_str("SET k v +5").unwrap();
    assert_eq!(*cmd.get_expire(), 5);

    let cmd = Command::from_str("SET k v 9223372036854775807").unwrap();
    assert_eq!(*cmd.get_expire(), i64::MAX);

    let cmd = Command::from_str("SET k v -9223372036854775808").unwrap();
    assert_eq!(*cmd.get_expire(), i64::MIN);

    match Command::from_str("SET k v 9223372036854775808") {
        Err(e) => assert_eq!(e, "Invalid command SET k v 9223372036854775808".to_string()),
        Ok(_) => panic!("an out-of-range expiry must be rejected"),
    }
    match Command::from_str("SET k v soon") {
        Err(e) => assert_eq!(e, "Invalid command SET k v soon".to_string()),
        Ok(_) => panic!("a non-numeric expiry must be rejected"),
    }
}

#[test]
fn test_parse_edges() {
    // A blank key position is treated as missing, not as an empty key.
    match Command::from_str("GET ") {
        Err(e) => assert_eq!(e, "Invalid command GET ".to_string()),
        Ok(_) => panic!("a blank key position must be rejected"),
    }
    // Surrounding whitespace is trimmed before splitting.
    let cmd = Command::from_str("  PING  ").unwrap();
    assert_eq!(*cmd.get_name(), Type::Ping);
    // Tokens past the expiry position are ignored.
    let cmd = Command::from_str("SET a b 3 extra junk").unwrap();
    assert_eq!(*cmd.get_key(), "a".to_string());
    assert_eq!(*cmd.get_value(), "b".to_string());
    assert_eq!(*cmd.get_expire(), 3);
    // Splitting is on single spaces: a doubled space yields an empty key
    // token, which reads as a missing key.
    match Command::from_str("SET  a b") {
        Err(e) => assert_eq!(e, "Invalid command SET  a b".to_string()),
        Ok(_) => panic!("a doubled separator leaves the key position blank"),
    }
    // An empty line has an empty verb token, which is unknown.
    match Command::from_str("") {
        Err(e) => assert_eq!(e, "Invalid command name ``".to_string()),
        Ok(_) => panic!("an empty line must be rejected"),
    }
}
