use wildcard_authz::authz::{Permission, _is_permitted_from_perm, _is_permitted_from_str};

fn same_set(got: &Vec<String>, expected: &[&str]) -> bool {
    got.len() == expected.len() && expected.iter().all(|e| got.iter().any(|g| g == e))
}

#[test]
fn test_new_permission() {
    let perm = Permission::new("");
    assert_eq!(perm.domain == "*", true);
    assert_eq!(same_set(&perm.actions, &["*"]), true);
    assert_eq!(same_set(&perm.targets, &["*"]), true);

    let perm = Permission::new("domain1");
    assert_eq!(perm.domain == "domain1", true);
    assert_eq!(same_set(&perm.actions, &["*"]), true);
    assert_eq!(same_set(&perm.targets, &["*"]), true);

    let perm = Permission::new("domain1:action1");
    assert_eq!(perm.domain == "domain1", true);
    assert_eq!(same_set(&perm.actions, &["action1"]), true);
    assert_eq!(same_set(&perm.targets, &["*"]), true);

    let perm = Permission::new(":action1, action2, action3");
    assert_eq!(perm.domain == "*", true);
    assert_eq!(same_set(&perm.actions, &["action1", "action2", "action3"]), true);
    assert_eq!(same_set(&perm.targets, &["*"]), true);

    let perm = Permission::new("domain1:action1, action2:target1, target2");
    assert_eq!(perm.domain == "domain1", true);
    assert_eq!(same_set(&perm.actions, &["action1", "action2"]), true);
    assert_eq!(same_set(&perm.targets, &["target1", "target2"]), true);
}

#[test]
fn test_part_from_str() {
    let result = Permission::part_from_str(Some(""));
    assert_eq!(same_set(&result, &["*"]), true);

    let result = Permission::part_from_str(None);
    assert_eq!(same_set(&result, &["*"]), true);

    let result = Permission::part_from_str(Some("action1, action2, action3"));
    assert_eq!(same_set(&result, &["action1", "action2", "action3"]), true);

    let result = Permission::part_from_str(Some("incorrect format"));
    assert_eq!(same_set(&result, &["incorrect format"]), true);
}

#[test]
fn test_implies_from_str() {
    let perm = Permission::new("domain1:action1");
    assert_eq!(perm.implies_from_str("domain1:action1:target1"), true);
    assert_eq!(perm.implies_from_str("domain1:action2"), false);
}

#[test]
fn test_implies_from_perm() {
    let perm1: Permission = Permission::new("domain1:action1");
    let perm2: Permission = Permission::new("domain1:action1,action2");
    let perm3: Permission = Permission::new("domain1:action1,action2:target1");
    let perm4: Permission = Permission::new("domain1:action3,action4:target2,target3");
    let perm5: Permission = Permission::new("domain1:action1,action2,action3,action4");
    let perm6: Permission = Permission::new(":action1,action2,action3,action4");
    let perm7: Permission = Permission::new("domain1:action1,action3:target1, target2");
    let perm7b: Permission = Permission::new("domain1:action5");
    let perm8: Permission = Permission::new("");

    assert_eq!(perm5.implies_from_perm(&perm1), true);
    assert_eq!(perm5.implies_from_perm(&perm2), true);
    assert_eq!(perm5.implies_from_perm(&perm3), true);
    assert_eq!(perm5.implies_from_perm(&perm4), true);
    assert_eq!(perm1.implies_from_perm(&perm5), false);
    assert_eq!(perm3.implies_from_perm(&perm5), false);
    assert_eq!(perm6.implies_from_perm(&perm7), true);
    assert_eq!(perm7.implies_from_perm(&perm6), false);
    assert_eq!(perm6.implies_from_perm(&perm7b), false);
    assert_eq!(perm7b.implies_from_perm(&perm6), false);
    assert_eq!(perm8.implies_from_perm(&perm1), true);
    assert_eq!(perm1.implies_from_perm(&perm8), false);
    assert_eq!(perm8.implies_from_perm(&perm2), true);
    assert_eq!(perm2.implies_from_perm(&perm8), false);
    assert_eq!(perm8.implies_from_perm(&perm3), true);
    assert_eq!(perm3.implies_from_perm(&perm8), false);
    assert_eq!(perm8.implies_from_perm(&perm4), true);
    assert_eq!(perm4.implies_from_perm(&perm8), false);
    assert_eq!(perm8.implies_from_perm(&perm5), true);
    assert_eq!(perm5.implies_from_perm(&perm8), false);
    assert_eq!(perm8.implies_from_perm(&perm6), true);
    assert_eq!(perm6.implies_from_perm(&perm8), false);
    assert_eq!(perm8.implies_from_perm(&perm7), true);
    assert_eq!(perm7.implies_from_perm(&perm8), false);
}

#[test]
fn test_internal_is_permitted_from_str() {
    let required: &str = "domain2:action4:target7";
    let assigned: Vec<&str> = vec!["domain1:action1", "domain2:action3,action4"];
    assert_eq!(_is_permitted_from_str(required, assigned), 1);
}

#[test]
fn test_is_permitted_from_perm() {
    let required: &str = "domain2:action4:target7";
    let assigned: Vec<Permission> = vec![
        Permission::new("domain1:action1"),
        Permission::new("domain2:action3,action4"),
    ];
    assert_eq!(_is_permitted_from_perm(required, assigned), 1);
}

#[test]
fn test_is_permitted_wrappers() {
    let required = "domain1:action4:target4";
    let assigned: Vec<&str> = vec!["domain1:action1", "domain1:action2", "domain1:action4"];
    assert_eq!(wildcard_authz::authz::is_permitted_from_str(required, assigned), 1);
    let perms = vec![Permission::new("domain1:action1"), Permission::new("domain2:action3,action4")];
    assert_eq!(wildcard_authz::authz::is_permitted_from_perm("domain2:action4:target7", perms), 1);
}

#[test]
fn test_parse_normalizes_every_string() {
    for s in ["", ":::", " : , : ", "*", " * ", "a::b:c:d", ",,,", "  "] {
        let perm = Permission::new(s);
        assert!(!perm.domain.is_empty());
        assert!(!perm.actions.is_empty());
        assert!(!perm.targets.is_empty());
    }
}

#[test]
fn test_implies_is_reflexive() {
    for s in ["", "domain1", "domain1:action1,action2:target1", ":a, b :c"] {
        let perm = Permission::new(s);
        assert_eq!(perm.implies_from_perm(&perm), true);
    }
}

#[test]
fn test_full_wildcard_dominates() {
    let wild = Permission::new("");
    let plain = Permission::new("domain1:action1:target1");
    let also_wild = Permission::new("*:*:*");
    assert_eq!(wild.implies_from_perm(&plain), true);
    assert_eq!(plain.implies_from_perm(&wild), false);
    assert_eq!(wild.implies_from_perm(&also_wild), true);
    assert_eq!(also_wild.implies_from_perm(&wild), true);
}

#[test]
fn test_domain_mismatch_short_circuits() {
    let perm = Permission::new("d1:a1");
    assert_eq!(perm.implies_from_perm(&Permission::new("d2:a1")), false);
}

#[test]
fn test_superset_semantics() {
    let big = Permission::new("d1:a1,a2,a3");
    let small = Permission::new("d1:a1,a2");
    assert_eq!(big.implies_from_perm(&small), true);
    assert_eq!(small.implies_from_perm(&big), false);
}

#[test]
fn test_empty_assigned_is_refused() {
    assert_eq!(_is_permitted_from_str("domain1:action1", Vec::new()), 0);
    assert_eq!(_is_permitted_from_perm("", Vec::new()), 0);
}

#[test]
fn test_duplicate_tokens_collapse() {
    let perm = Permission::new("d1:a1,a1, a1 ,a2");
    assert_eq!(same_set(&perm.actions, &["a1", "a2"]), true);
}
