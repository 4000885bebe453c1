use wildcard_authz::authz::Permission;
use wildcard_authz::codec::{decode, encode};

#[test]
fn test_encode_exact_form() {
    let perms = vec![Permission::new("d1:a1,a2:t1")];
    let text = encode(&perms);
    assert_eq!(text, "[{\"domain\":\"d1\",\"actions\":[\"a1\",\"a2\"],\"targets\":[\"t1\"]}]");
}

#[test]
fn test_encode_empty_sequence() {
    let perms: Vec<Permission> = Vec::new();
    assert_eq!(encode(&perms), "[]");
    let back = decode("[]").unwrap();
    assert_eq!(back.len(), 0);
}

#[test]
fn test_round_trip() {
    let perms = vec![
        Permission::new(""),
        Permission::new("domain1:action1,action2:target1"),
        Permission::new(":a, b :c"),
        Permission::new("d2:a3,a4"),
    ];
    let text = encode(&perms);
    let back = decode(text.as_str()).unwrap();
    assert_eq!(back, perms);
}

#[test]
fn test_round_trip_with_escapes() {
    let perms = vec![Permission {
        domain: String::from("d\"1\\x"),
        actions: vec![String::from("a\\"), String::from("\"")],
        targets: vec![String::from("*")],
    }];
    let text = encode(&perms);
    let back = decode(text.as_str()).unwrap();
    assert_eq!(back, perms);
}

#[test]
fn test_decode_handwritten_payload() {
    let text = "[{\"domain\":\"d1\",\"actions\":[\"a1\"],\"targets\":[\"*\"]},{\"domain\":\"*\",\"actions\":[\"*\"],\"targets\":[\"t9\"]}]";
    let perms = decode(text).unwrap();
    assert_eq!(perms.len(), 2);
    assert_eq!(perms[0].domain, "d1");
    assert_eq!(perms[0].actions, vec![String::from("a1")]);
    assert_eq!(perms[0].targets, vec![String::from("*")]);
    assert_eq!(perms[1].domain, "*");
    assert_eq!(perms[1].targets, vec![String::from("t9")]);
}

#[test]
fn test_decode_missing_domain_field() {
    let text = "[{\"actions\":[\"a1\"],\"targets\":[\"*\"]}]";
    assert!(decode(text).is_err());
}

#[test]
fn test_decode_missing_targets_field() {
    let text = "[{\"domain\":\"d1\",\"actions\":[\"a1\"]}]";
    assert!(decode(text).is_err());
}

#[test]
fn test_decode_mistyped_actions_field() {
    let text = "[{\"domain\":\"d1\",\"actions\":\"a1\",\"targets\":[\"*\"]}]";
    assert!(decode(text).is_err());
}

#[test]
fn test_decode_truncated_payload() {
    assert!(decode("").is_err());
    assert!(decode("[").is_err());
    assert!(decode("[{\"domain\":\"d1\"").is_err());
    assert!(decode("[{\"domain\":\"d1\",\"actions\":[\"a1\"],\"targets\":[\"*\"]}").is_err());
}

#[test]
fn test_decode_trailing_text() {
    let text = "[{\"domain\":\"d1\",\"actions\":[\"a1\"],\"targets\":[\"*\"]}] ";
    assert!(decode(text).is_err());
}
