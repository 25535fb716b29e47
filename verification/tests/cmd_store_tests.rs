use my_redis::cmd::{CmdError, Command};
use my_redis::resp::RESPType;
use my_redis::store::{route_for, Store};
use my_redis::text::is_utf8_bytes;

fn bulk(s: &str) -> RESPType {
    RESPType::Bulk(s.as_bytes().to_vec())
}

#[test]
fn test_command_semantics() {
    let mut db = Store::new(25);

    // a get on an absent key answers the null variant
    let cmd = Command::try_from(RESPType::Array(vec![bulk("get"), bulk("missing")])).unwrap();
    let response = match cmd {
        Command::Get(g) => g.response(&db),
        _ => panic!("expected a get command"),
    };
    assert_eq!(response, RESPType::Null);

    // a set stores the value and is acknowledged with OK
    let cmd = Command::try_from(RESPType::Array(vec![bulk("set"), bulk("k"), bulk("v")]))
        .unwrap();
    let response = match cmd {
        Command::SetCmd(s) => s.response(&mut db),
        _ => panic!("expected a set command"),
    };
    assert_eq!(response, RESPType::Simple(b"OK".to_vec()));

    // the following get finds the stored value
    let cmd = Command::try_from(RESPType::Array(vec![bulk("get"), bulk("k")])).unwrap();
    let response = match cmd {
        Command::Get(g) => g.response(&db),
        _ => panic!("expected a get command"),
    };
    assert_eq!(response, RESPType::Bulk(b"v".to_vec()));

    // a bare ping answers the simple string pong
    let cmd = Command::try_from(RESPType::Array(vec![bulk("ping")])).unwrap();
    let response = match cmd {
        Command::Ping(p) => p.response(),
        _ => panic!("expected a ping command"),
    };
    assert_eq!(response, RESPType::Simple(b"pong".to_vec()));

    // a ping with a message echoes it as a bulk value
    let cmd = Command::try_from(RESPType::Array(vec![bulk("ping"), bulk("hi")])).unwrap();
    let response = match cmd {
        Command::Ping(p) => p.response(),
        _ => panic!("expected a ping command"),
    };
    assert_eq!(response, RESPType::Bulk(b"hi".to_vec()));
}

#[test]
fn test_echo_semantics() {
    let cmd = Command::try_from(RESPType::Array(vec![bulk("echo"), bulk("hello world")]))
        .unwrap();
    let response = match cmd {
        Command::Echo(e) => e.response(),
        _ => panic!("expected an echo command"),
    };
    assert_eq!(response, RESPType::Bulk(b"hello world".to_vec()));

    let cmd = Command::try_from(RESPType::Array(vec![bulk("echo")])).unwrap();
    let response = match cmd {
        Command::Echo(e) => e.response(),
        _ => panic!("expected an echo command"),
    };
    assert_eq!(response, RESPType::Bulk(Vec::new()));
}

#[test]
fn test_arity_validation() {
    // a set with only a key is rejected
    assert!(matches!(
        Command::try_from(RESPType::Array(vec![bulk("set"), bulk("onlykey")])),
        Err(CmdError::WrongArity)
    ));
    // a get without a key is rejected
    assert!(matches!(
        Command::try_from(RESPType::Array(vec![bulk("get")])),
        Err(CmdError::WrongArity)
    ));
    // a ping with two trailing arguments is rejected
    assert!(matches!(
        Command::try_from(RESPType::Array(vec![bulk("ping"), bulk("a"), bulk("b")])),
        Err(CmdError::WrongArity)
    ));
}

#[test]
fn test_command_errors() {
    assert!(matches!(
        Command::try_from(RESPType::Simple(b"ping".to_vec())),
        Err(CmdError::NotArray)
    ));
    assert!(matches!(
        Command::try_from(RESPType::Array(vec![])),
        Err(CmdError::EmptyCommand)
    ));
    assert!(matches!(
        Command::try_from(RESPType::Array(vec![RESPType::Integer(1)])),
        Err(CmdError::BadCommandType)
    ));
    assert!(matches!(
        Command::try_from(RESPType::Array(vec![bulk("bogus")])),
        Err(CmdError::UnknownCommand)
    ));
    // names are matched case-sensitively against the lowercase form
    assert!(matches!(
        Command::try_from(RESPType::Array(vec![bulk("PING")])),
        Err(CmdError::UnknownCommand)
    ));
    assert!(matches!(
        Command::try_from(RESPType::Array(vec![bulk("ping"), RESPType::Integer(3)])),
        Err(CmdError::BadArgumentType)
    ));
    assert!(matches!(
        Command::try_from(RESPType::Array(vec![bulk("get"), RESPType::Null])),
        Err(CmdError::BadArgumentType)
    ));
    assert!(matches!(
        Command::try_from(RESPType::Array(vec![
            bulk("set"),
            bulk("k"),
            RESPType::Integer(9)
        ])),
        Err(CmdError::BadArgumentType)
    ));
}

#[test]
fn test_simple_name_accepted() {
    // the command name may arrive as a simple string too
    let cmd =
        Command::try_from(RESPType::Array(vec![RESPType::Simple(b"ping".to_vec())])).unwrap();
    assert!(matches!(cmd, Command::Ping(_)));
}

#[test]
fn test_store_get_set() {
    let mut db = Store::new(4);
    assert_eq!(db.get(&b"a".to_vec()), None);
    db.set(b"a".to_vec(), b"1".to_vec());
    assert_eq!(db.get(&b"a".to_vec()), Some(b"1".to_vec()));
    // a repeated set overwrites
    db.set(b"a".to_vec(), b"2".to_vec());
    assert_eq!(db.get(&b"a".to_vec()), Some(b"2".to_vec()));
    // other keys are unaffected, wherever they hash
    for i in 0..32u8 {
        db.set(vec![i], vec![i, i]);
    }
    assert_eq!(db.get(&b"a".to_vec()), Some(b"2".to_vec()));
    for i in 0..32u8 {
        assert_eq!(db.get(&vec![i]), Some(vec![i, i]));
    }
}

#[test]
fn test_shard_routing_deterministic() {
    let db = Store::new(25);
    let key = b"some key".to_vec();
    let first = db.route_key(&key);
    for _ in 0..10 {
        assert_eq!(db.route_key(&key), first);
    }
    assert!(first < 25);
    // the standalone routing agrees with the store's own
    assert_eq!(route_for(25, &key), first);
    // routing spreads keys over more than one shard
    let mut seen = vec![false; 8];
    for i in 0..64u8 {
        seen[route_for(8, &vec![i])] = true;
    }
    assert!(seen.iter().filter(|b| **b).count() > 1);
}

#[test]
fn test_key_must_be_text() {
    // a non-UTF-8 key is rejected, for get and for set
    assert!(matches!(
        Command::try_from(RESPType::Array(vec![bulk("get"), RESPType::Bulk(vec![0xff])])),
        Err(CmdError::KeyNotText)
    ));
    assert!(matches!(
        Command::try_from(RESPType::Array(vec![
            bulk("set"),
            RESPType::Bulk(vec![0xff]),
            bulk("v")
        ])),
        Err(CmdError::KeyNotText)
    ));
    // a simple-string key is validated the same way
    assert!(matches!(
        Command::try_from(RESPType::Array(vec![
            bulk("get"),
            RESPType::Simple(vec![0xc3, 0x28])
        ])),
        Err(CmdError::KeyNotText)
    ));
    // a multi-byte text key is accepted
    let key = "h\u{e9}llo\u{1f600}".as_bytes().to_vec();
    assert!(matches!(
        Command::try_from(RESPType::Array(vec![
            bulk("set"),
            RESPType::Bulk(key),
            bulk("v")
        ])),
        Ok(Command::SetCmd(_))
    ));
    // the value, unlike the key, may hold any bytes
    assert!(matches!(
        Command::try_from(RESPType::Array(vec![
            bulk("set"),
            bulk("k"),
            RESPType::Bulk(vec![0xff, 0x00])
        ])),
        Ok(Command::SetCmd(_))
    ));
    // ping and echo messages are byte payloads, not keys
    assert!(matches!(
        Command::try_from(RESPType::Array(vec![bulk("ping"), RESPType::Bulk(vec![0xff])])),
        Ok(Command::Ping(_))
    ));
}

#[test]
fn test_utf8_checker_matches_std() {
    let cases: Vec<Vec<u8>> = vec![
        b"".to_vec(),
        b"plain ascii".to_vec(),
        "h\u{e9}llo w\u{f6}rld".as_bytes().to_vec(),
        "\u{65e5}\u{672c}\u{8a9e}".as_bytes().to_vec(),
        "\u{1f600}\u{1f600}".as_bytes().to_vec(),
        vec![0xff],
        vec![0x80],                   // stray continuation byte
        vec![0xc0, 0xaf],             // overlong two-byte form
        vec![0xc2],                   // truncated sequence
        vec![0xe0, 0x80, 0x80],       // overlong three-byte form
        vec![0xe0, 0xa0, 0x80],
        vec![0xed, 0xa0, 0x80],       // surrogate
        vec![0xed, 0x9f, 0xbf],
        vec![0xf0, 0x80, 0x80, 0x80], // overlong four-byte form
        vec![0xf0, 0x90, 0x80, 0x80],
        vec![0xf4, 0x8f, 0xbf, 0xbf],
        vec![0xf4, 0x90, 0x80, 0x80], // beyond the last scalar
        vec![0xf1, 0x80, 0x80, 0x80],
        vec![0x61, 0xc3, 0xa9, 0x62],
        vec![0xe1, 0x80, 0x80],
        vec![0xc3, 0xa9, 0xff],
    ];
    for c in cases {
        assert_eq!(is_utf8_bytes(&c), std::str::from_utf8(&c).is_ok());
    }
}
