use screen_streamer::ice::{ice_servers_json, ice_servers_value, parse_ice_servers, parse_one, IceServer};

#[test]
fn empty_spec_means_no_servers() {
    assert_eq!(parse_ice_servers(""), Ok(vec![]));
    assert_eq!(parse_ice_servers(" , "), Ok(vec![]));
}

#[test]
fn stun_and_turn_entries() {
    let v = parse_ice_servers("stun:stun.l.google.com:19302, turn:alice:s3cr:et@turn.example.org:3478?transport=tcp").unwrap();
    assert_eq!(v[0].urls, ["stun:stun.l.google.com:19302"]);
    assert!(v[0].username.is_empty());
    assert_eq!(v[1].urls, ["turn:turn.example.org:3478?transport=tcp"]);
    assert_eq!(v[1].username, "alice");
    assert_eq!(v[1].credential, "s3cr:et", "password may contain ':'");
}

#[test]
fn password_may_contain_at_sign() {
    let v = parse_ice_servers("turns:bob:p@ss@relay.example.org").unwrap();
    assert_eq!((v[0].credential.as_str(), v[0].urls[0].as_str()), ("p@ss", "turns:relay.example.org"));
}

#[test]
fn bad_entries_are_rejected_without_leaking_credentials() {
    for bad in ["stun.example.org", "http:x", "stun:", "turn:host", "turn::pw@host", "turn:user:@host", "turn:u:p@"] {
        assert!(parse_ice_servers(bad).is_err(), "{bad}");
    }
    let err = parse_ice_servers("turn:user:hunter2@").unwrap_err();
    assert!(!err.contains("hunter2"), "{err}");
}

#[test]
fn serializes_in_the_browser_shape() {
    let v = parse_ice_servers("stun:a, turn:u:p@b").unwrap();
    assert_eq!(
        ice_servers_json(&v),
        r#"[{"urls":["stun:a"]},{"urls":["turn:b"],"username":"u","credential":"p"}]"#
    );
}

#[test]
fn each_bad_entry_is_told_why() {
    assert_eq!(
        parse_one("stun.example.org"),
        Err("ICE server `stun.example.org`: missing scheme (stun:, turn: or turns:)".into())
    );
    assert_eq!(
        parse_one("http:x"),
        Err("ICE server `http:x`: unknown scheme `http` (stun:, turn: or turns:)".into())
    );
    assert_eq!(parse_one("stun:"), Err("ICE server `stun:`: expected stun:host[:port]".into()));
    assert_eq!(parse_one("stun:u@h"), Err("ICE server `stun:u@h`: expected stun:host[:port]".into()));
    assert_eq!(parse_one("turn:host"), Err("ICE server `turn:…`: TURN needs user:pass@host".into()));
    assert_eq!(
        parse_one("turn:user:@host"),
        Err("ICE server `turn:…@host`: TURN needs user:pass@host".into())
    );
    assert_eq!(parse_one("turn:u:p@"), Err("ICE server `turn:…`: missing host".into()));
}

#[test]
fn the_first_bad_entry_decides() {
    assert_eq!(
        parse_ice_servers("stun:a, bad, http:x"),
        Err("ICE server `bad`: missing scheme (stun:, turn: or turns:)".into())
    );
}

#[test]
fn both_secure_schemes_are_known() {
    let v = parse_ice_servers("stuns:a:5349,turns:u:p@b").unwrap();
    assert_eq!(v[0].urls, ["stuns:a:5349"]);
    assert_eq!(v[1].urls, ["turns:b"]);
}

#[test]
fn quotes_in_a_password_are_escaped() {
    let servers = vec![IceServer {
        urls: vec!["turn:a".into(), "turn:b".into()],
        username: "u".into(),
        credential: "\"\\\n\u{1}".into(),
    }];
    let json = ice_servers_json(&servers);
    assert_eq!(
        json,
        r#"[{"urls":["turn:a","turn:b"],"username":"u","credential":"\"\\\n\u0001"}]"#
    );
    let value: serde_json::Value = serde_json::from_str(&json).unwrap();
    assert_eq!(value[0]["credential"], "\"\\\n\u{1}");
    assert_eq!(
        ice_servers_value(&servers),
        r#"[{"credential":"\"\\\n\u0001","urls":["turn:a","turn:b"],"username":"u"}]"#
    );
    let sorted: serde_json::Value = serde_json::from_str(&ice_servers_value(&servers)).unwrap();
    assert_eq!(value, sorted);
}

#[test]
fn no_servers_make_an_empty_list() {
    assert_eq!(ice_servers_json(&vec![]), "[]");
    assert_eq!(ice_servers_value(&vec![]), "[]");
}
