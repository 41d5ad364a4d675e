use rent::config::{
    button_action, character_action, key_action, Action, Key, MouseButton, NamedKey, BACKGROUND,
    EXPORTHEIGHT, EXPORTWIDTH, FOREGROUND,
};

fn ch(s: &str) -> Option<Action> {
    key_action(&Key::Character(s.to_string()))
}

#[test]
fn named_keys() {
    assert_eq!(key_action(&Key::Named(NamedKey::Escape)), Some(Action::Quit));
    for k in [NamedKey::ArrowRight, NamedKey::ArrowDown, NamedKey::Enter, NamedKey::Space, NamedKey::PageDown] {
        assert_eq!(key_action(&Key::Named(k)), Some(Action::Advance(1)));
    }
    for k in [NamedKey::ArrowLeft, NamedKey::ArrowUp, NamedKey::Backspace, NamedKey::PageUp] {
        assert_eq!(key_action(&Key::Named(k)), Some(Action::Advance(-1)));
    }
    assert_eq!(key_action(&Key::Named(NamedKey::Other)), None);
    assert_eq!(key_action(&Key::Unidentified), None);
}

#[test]
fn character_keys() {
    assert_eq!(ch("q"), Some(Action::Quit));
    for s in [" ", "l", "j", "n"] {
        assert_eq!(ch(s), Some(Action::Advance(1)));
    }
    for s in ["h", "k", "p"] {
        assert_eq!(ch(s), Some(Action::Advance(-1)));
    }
    assert_eq!(ch("r"), Some(Action::Reload));
    assert_eq!(ch("x"), None);
    assert_eq!(ch(""), None);
    assert_eq!(ch("qq"), None);
}

#[test]
fn character_keys_ignore_case() {
    assert_eq!(ch("Q"), Some(Action::Quit));
    assert_eq!(ch("L"), Some(Action::Advance(1)));
    assert_eq!(ch("P"), Some(Action::Advance(-1)));
    assert_eq!(ch("R"), Some(Action::Reload));
    /* Unicode lowercasing: KELVIN SIGN lowercases to 'k' */
    assert_eq!(ch("\u{212A}"), Some(Action::Advance(-1)));
}

#[test]
fn character_action_takes_lowercase_text() {
    assert_eq!(character_action("q"), Some(Action::Quit));
    assert_eq!(character_action("Q"), None);
    assert_eq!(character_action("é"), None);
}

#[test]
fn mouse_buttons() {
    assert_eq!(button_action(MouseButton::Left), Some(Action::Advance(1)));
    assert_eq!(button_action(MouseButton::Right), Some(Action::Advance(-1)));
    assert_eq!(button_action(MouseButton::Other), None);
}

#[test]
fn configured_values() {
    assert_eq!(FOREGROUND, 0x000000);
    assert_eq!(BACKGROUND, 0xFFFFFF);
    assert_eq!((EXPORTWIDTH, EXPORTHEIGHT), (1920, 1080));
}
