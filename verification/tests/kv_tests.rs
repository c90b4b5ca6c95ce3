use rafty::kv::StateMachine;

#[test]
fn set_then_get() {
    let mut kv = StateMachine::new();
    assert_eq!(kv.len(), 0);
    kv.apply_to_state_machine("k1=v1");
    kv.apply_to_state_machine("k2=v2");
    kv.apply_to_state_machine("k1=v3");
    assert_eq!(kv.len(), 2);
    assert_eq!(kv.get("k1"), Some(&"v3".to_string()));
    assert_eq!(kv.get("k2"), Some(&"v2".to_string()));
    assert_eq!(kv.get("k3"), None);
}

#[test]
fn splits_at_the_first_equals_sign() {
    let mut kv = StateMachine::new();
    kv.apply_to_state_machine("a=b=c");
    assert_eq!(kv.get("a"), Some(&"b=c".to_string()));
    kv.apply_to_state_machine("=x");
    assert_eq!(kv.get(""), Some(&"x".to_string()));
    kv.apply_to_state_machine("y=");
    assert_eq!(kv.get("y"), Some(&"".to_string()));
    kv.apply_to_state_machine("schl\u{fc}ssel=\u{1f511}");
    assert_eq!(kv.get("schl\u{fc}ssel"), Some(&"\u{1f511}".to_string()));
    assert_eq!(kv.len(), 4);
}

#[test]
fn other_commands_are_ignored() {
    let mut kv = StateMachine::new();
    kv.apply_to_state_machine("noop");
    kv.apply_to_state_machine("");
    assert_eq!(kv.len(), 0);
}
