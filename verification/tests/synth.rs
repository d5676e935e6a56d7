use shortnuts::synth::{synthesize_plan, KeyEvent};
use shortnuts::keys::{KeyCode, Modifier};

fn combo(tokens: &[&[u8]]) -> Vec<Vec<u8>> {
    tokens.iter().map(|t| t.to_vec()).collect()
}

#[test]
fn ctrl_c_presses_clicks_and_releases_in_order() {
    let plan = synthesize_plan(&combo(&[b"ctrl", b"c"]));
    assert_eq!(
        plan,
        vec![
            KeyEvent::Down(Modifier::Control),
            KeyEvent::ClickChar(b'c'),
            KeyEvent::Up(Modifier::Control),
        ]
    );
}

#[test]
fn unknown_tokens_are_skipped_without_error() {
    let plan = synthesize_plan(&combo(&[b"shift", b"unknownkey", b"enter"]));
    assert_eq!(
        plan,
        vec![
            KeyEvent::Down(Modifier::Shift),
            KeyEvent::ClickKey(KeyCode::Enter),
            KeyEvent::Up(Modifier::Shift),
        ]
    );
}

#[test]
fn duplicate_modifiers_press_and_release_twice_in_order() {
    let plan = synthesize_plan(&combo(&[b"ctrl", b"ctrl", b"a"]));
    assert_eq!(
        plan,
        vec![
            KeyEvent::Down(Modifier::Control),
            KeyEvent::Down(Modifier::Control),
            KeyEvent::ClickChar(b'a'),
            KeyEvent::Up(Modifier::Control),
            KeyEvent::Up(Modifier::Control),
        ]
    );
}

#[test]
fn modifiers_release_in_press_order() {
    let plan = synthesize_plan(&combo(&[b"ctrl", b"shift", b"alt", b"meta", b"x"]));
    assert_eq!(
        plan,
        vec![
            KeyEvent::Down(Modifier::Control),
            KeyEvent::Down(Modifier::Shift),
            KeyEvent::Down(Modifier::Alt),
            KeyEvent::Down(Modifier::Super),
            KeyEvent::ClickChar(b'x'),
            KeyEvent::Up(Modifier::Control),
            KeyEvent::Up(Modifier::Shift),
            KeyEvent::Up(Modifier::Alt),
            KeyEvent::Up(Modifier::Super),
        ]
    );
}

#[test]
fn synthesis_is_case_insensitive() {
    let plan = synthesize_plan(&combo(&[b"CTRL", b"A"]));
    assert_eq!(
        plan,
        vec![
            KeyEvent::Down(Modifier::Control),
            KeyEvent::ClickChar(b'a'),
            KeyEvent::Up(Modifier::Control),
        ]
    );
}

#[test]
fn named_and_function_keys_click_by_key_code() {
    let plan = synthesize_plan(&combo(&[b"f5", b"escape", b"esc", b"pagedown"]));
    assert_eq!(
        plan,
        vec![
            KeyEvent::ClickKey(KeyCode::Function(5)),
            KeyEvent::ClickKey(KeyCode::Escape),
            KeyEvent::ClickKey(KeyCode::Escape),
            KeyEvent::ClickKey(KeyCode::PageDown),
        ]
    );
}

#[test]
fn single_characters_click_as_literal_characters() {
    let plan = synthesize_plan(&combo(&[b"?", b"5"]));
    assert_eq!(
        plan,
        vec![KeyEvent::ClickChar(b'?'), KeyEvent::ClickChar(b'5')]
    );
}

#[test]
fn empty_combo_injects_nothing() {
    let plan = synthesize_plan(&Vec::new());
    assert!(plan.is_empty());
}

#[test]
fn modifiers_alone_press_and_release_with_no_click() {
    let plan = synthesize_plan(&combo(&[b"ctrl", b"shift"]));
    assert_eq!(
        plan,
        vec![
            KeyEvent::Down(Modifier::Control),
            KeyEvent::Down(Modifier::Shift),
            KeyEvent::Up(Modifier::Control),
            KeyEvent::Up(Modifier::Shift),
        ]
    );
}
