use shortnuts::accel::{parse_accelerator, EncodedHotkey, ModifierSet, ParseError};
use shortnuts::keys::KeyCode;

fn mods(control: bool, shift: bool, alt: bool, sup: bool) -> ModifierSet {
    ModifierSet { control, shift, alt, sup }
}

#[test]
fn parse_is_order_independent() {
    let a = parse_accelerator(b"ctrl+shift+a").unwrap();
    let b = parse_accelerator(b"shift+ctrl+a").unwrap();
    assert_eq!(a, b);
    assert_eq!(a.mods, mods(true, true, false, false));
    assert_eq!(a.code, KeyCode::Letter(b'a'));
}

#[test]
fn parse_no_key_fails() {
    assert_eq!(parse_accelerator(b"ctrl+shift"), Err(ParseError::NoKey));
}

#[test]
fn parse_multiple_keys_fails() {
    assert_eq!(parse_accelerator(b"a+b"), Err(ParseError::MultipleKeys));
}

#[test]
fn parse_unsupported_key_fails() {
    assert_eq!(
        parse_accelerator(b"ctrl+xyz123"),
        Err(ParseError::UnsupportedKey(b"xyz123".to_vec()))
    );
}

#[test]
fn parse_is_case_insensitive() {
    let a = parse_accelerator(b"CTRL+Shift+A").unwrap();
    let b = parse_accelerator(b"ctrl+shift+a").unwrap();
    assert_eq!(a, b);
}

#[test]
fn parse_modifier_aliases() {
    let a = parse_accelerator(b"control+z").unwrap();
    assert_eq!(a.mods, mods(true, false, false, false));
    let b = parse_accelerator(b"cmd+z").unwrap();
    let c = parse_accelerator(b"command+z").unwrap();
    let d = parse_accelerator(b"meta+z").unwrap();
    assert_eq!(b.mods, mods(false, false, false, true));
    assert_eq!(b, c);
    assert_eq!(b, d);
}

#[test]
fn parse_bare_key_has_no_modifiers() {
    let a = parse_accelerator(b"enter").unwrap();
    assert_eq!(
        a,
        EncodedHotkey { mods: mods(false, false, false, false), code: KeyCode::Enter }
    );
}

#[test]
fn parse_duplicate_modifiers_collapse() {
    let a = parse_accelerator(b"ctrl+ctrl+x").unwrap();
    let b = parse_accelerator(b"ctrl+x").unwrap();
    assert_eq!(a, b);
}

#[test]
fn parse_function_keys() {
    assert_eq!(parse_accelerator(b"f1").unwrap().code, KeyCode::Function(1));
    assert_eq!(parse_accelerator(b"f5").unwrap().code, KeyCode::Function(5));
    assert_eq!(parse_accelerator(b"f9").unwrap().code, KeyCode::Function(9));
    assert_eq!(parse_accelerator(b"f10").unwrap().code, KeyCode::Function(10));
    assert_eq!(parse_accelerator(b"f12").unwrap().code, KeyCode::Function(12));
}

#[test]
fn parse_function_keys_out_of_range_fail() {
    assert_eq!(
        parse_accelerator(b"f0"),
        Err(ParseError::UnsupportedKey(b"f0".to_vec()))
    );
    assert_eq!(
        parse_accelerator(b"f13"),
        Err(ParseError::UnsupportedKey(b"f13".to_vec()))
    );
}

#[test]
fn parse_digits() {
    assert_eq!(parse_accelerator(b"ctrl+alt+1").unwrap().code, KeyCode::Digit(b'1'));
    assert_eq!(parse_accelerator(b"7").unwrap().code, KeyCode::Digit(b'7'));
}

#[test]
fn parse_named_keys() {
    let cases: &[(&[u8], KeyCode)] = &[
        (b"enter", KeyCode::Enter),
        (b"escape", KeyCode::Escape),
        (b"esc", KeyCode::Escape),
        (b"space", KeyCode::Space),
        (b"tab", KeyCode::Tab),
        (b"backspace", KeyCode::Backspace),
        (b"delete", KeyCode::Delete),
        (b"insert", KeyCode::Insert),
        (b"home", KeyCode::Home),
        (b"end", KeyCode::End),
        (b"pageup", KeyCode::PageUp),
        (b"pagedown", KeyCode::PageDown),
        (b"up", KeyCode::ArrowUp),
        (b"arrowup", KeyCode::ArrowUp),
        (b"down", KeyCode::ArrowDown),
        (b"arrowdown", KeyCode::ArrowDown),
        (b"left", KeyCode::ArrowLeft),
        (b"arrowleft", KeyCode::ArrowLeft),
        (b"right", KeyCode::ArrowRight),
        (b"arrowright", KeyCode::ArrowRight),
    ];
    for (name, code) in cases {
        assert_eq!(parse_accelerator(name).unwrap().code, *code, "token {:?}", name);
    }
}

#[test]
fn parse_empty_string_fails() {
    assert_eq!(
        parse_accelerator(b""),
        Err(ParseError::UnsupportedKey(b"".to_vec()))
    );
}

#[test]
fn parse_trailing_separator_fails() {
    assert_eq!(
        parse_accelerator(b"ctrl+"),
        Err(ParseError::UnsupportedKey(b"".to_vec()))
    );
}

#[test]
fn parse_unsupported_key_is_reported_lowercased() {
    assert_eq!(
        parse_accelerator(b"ctrl+XyZ123"),
        Err(ParseError::UnsupportedKey(b"xyz123".to_vec()))
    );
}

#[test]
fn lower_and_eq_helpers() {
    assert_eq!(shortnuts::keys::to_lower(b"AbC+9"), b"abc+9".to_vec());
    assert!(shortnuts::keys::bytes_eq(b"same", b"same"));
    assert!(!shortnuts::keys::bytes_eq(b"same", b"Same"));
    assert!(!shortnuts::keys::bytes_eq(b"same", b"sam"));
}
