use shortnuts::registry::HotkeyRegistry;
use shortnuts::accel::{parse_accelerator, ParseError};

#[test]
fn register_then_unregister_leaves_registry_empty() {
    let mut reg = HotkeyRegistry::new();
    // One arm and one disarm in all: the plan asks to disarm nothing and to
    // arm one hotkey, and the unregister hands back exactly one to disarm.
    let plan = reg.plan_register(b"H1", b"ctrl+alt+1").unwrap();
    assert!(plan.disarm.is_none());
    assert!(reg.commit_register(b"H1", b"ctrl+alt+1", plan.arm, 41));
    assert_eq!(reg.len(), 1);
    let disarm = reg.unregister(b"H1");
    assert_eq!(disarm, Some(plan.arm));
    assert_eq!(reg.len(), 0);
}

#[test]
fn unregister_unknown_id_is_a_noop() {
    let mut reg = HotkeyRegistry::new();
    // Success with zero OS-layer calls: nothing is handed back to disarm.
    assert_eq!(reg.unregister(b"never"), None);
    assert_eq!(reg.len(), 0);
}

#[test]
fn reregister_replaces_and_disarms_the_old_hotkey() {
    let mut reg = HotkeyRegistry::new();
    let first = reg.plan_register(b"H1", b"ctrl+a").unwrap();
    assert!(reg.commit_register(b"H1", b"ctrl+a", first.arm, 1));

    let second = reg.plan_register(b"H1", b"alt+b").unwrap();
    assert_eq!(second.disarm, Some(first.arm));
    assert!(reg.commit_register(b"H1", b"alt+b", second.arm, 2));

    assert_eq!(reg.len(), 1);
    assert_eq!(reg.stored_accelerator(b"H1"), Some(b"alt+b".to_vec()));
    assert_eq!(reg.armed_hotkey(b"H1"), Some(second.arm));
}

#[test]
fn plan_register_surfaces_parse_errors_unchanged() {
    let reg = HotkeyRegistry::new();
    assert_eq!(reg.plan_register(b"H1", b"ctrl+shift").unwrap_err(), ParseError::NoKey);
    assert_eq!(reg.plan_register(b"H1", b"a+b").unwrap_err(), ParseError::MultipleKeys);
    assert_eq!(
        reg.plan_register(b"H1", b"ctrl+nope").unwrap_err(),
        ParseError::UnsupportedKey(b"nope".to_vec())
    );
}

#[test]
fn resolve_fired_finds_the_logical_id() {
    let mut reg = HotkeyRegistry::new();
    let p1 = reg.plan_register(b"copy", b"ctrl+c").unwrap();
    assert!(reg.commit_register(b"copy", b"ctrl+c", p1.arm, 7));
    let p2 = reg.plan_register(b"paste", b"ctrl+v").unwrap();
    assert!(reg.commit_register(b"paste", b"ctrl+v", p2.arm, 9));

    assert_eq!(reg.resolve_fired(9), Some(b"paste".to_vec()));
    assert_eq!(reg.resolve_fired(7), Some(b"copy".to_vec()));
    assert_eq!(reg.resolve_fired(8), None);
}

#[test]
fn stale_platform_id_is_dropped_after_unregister() {
    let mut reg = HotkeyRegistry::new();
    let plan = reg.plan_register(b"H1", b"ctrl+x").unwrap();
    assert!(reg.commit_register(b"H1", b"ctrl+x", plan.arm, 13));
    reg.unregister(b"H1");
    assert_eq!(reg.resolve_fired(13), None);
}

#[test]
fn commit_refuses_a_platform_id_held_by_another_id() {
    let mut reg = HotkeyRegistry::new();
    let p1 = reg.plan_register(b"one", b"ctrl+a").unwrap();
    assert!(reg.commit_register(b"one", b"ctrl+a", p1.arm, 5));
    let p2 = reg.plan_register(b"two", b"ctrl+b").unwrap();
    assert!(!reg.commit_register(b"two", b"ctrl+b", p2.arm, 5));
    assert_eq!(reg.len(), 1);
    assert_eq!(reg.stored_accelerator(b"two"), None);
}

#[test]
fn stored_accelerator_is_kept_verbatim() {
    let mut reg = HotkeyRegistry::new();
    let plan = reg.plan_register(b"H1", b"Ctrl+Shift+A").unwrap();
    assert!(reg.commit_register(b"H1", b"Ctrl+Shift+A", plan.arm, 3));
    assert_eq!(reg.stored_accelerator(b"H1"), Some(b"Ctrl+Shift+A".to_vec()));
    // Re-deriving from the stored string gives back the armed hotkey.
    assert_eq!(
        parse_accelerator(b"Ctrl+Shift+A").unwrap(),
        reg.armed_hotkey(b"H1").unwrap()
    );
}
