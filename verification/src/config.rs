//! Configuration: colors, export resolution and the input bindings.
use vstd::prelude::*;

verus! {

/// Foreground (text) color, 0xRRGGBB.
pub const FOREGROUND: u32 = 0x000000;

/// Window background color, 0xRRGGBB.
pub const BACKGROUND: u32 = 0xFFFFFF;

/// Raster width of exported PDF pages.
pub const EXPORTWIDTH: u32 = 1920;

/// Raster height of exported PDF pages.
pub const EXPORTHEIGHT: u32 = 1080;

/// What a key press or a mouse click asks the presenter to do.
#[derive(Clone, Copy, Debug, PartialEq, Eq, Structural)]
pub enum Action {
    /// Move by this many slides (negative: backwards).
    Advance(i32),
    Quit,
    Reload,
}

/// The named (non-character) keys that the bindings distinguish.
#[derive(Clone, Copy, Debug, PartialEq, Eq, Structural)]
pub enum NamedKey {
    Escape,
    ArrowRight,
    ArrowDown,
    Enter,
    Space,
    PageDown,
    ArrowLeft,
    ArrowUp,
    Backspace,
    PageUp,
    /// Any other named key.
    Other,
}

/// A logical key as the windowing system reports it.
#[derive(Debug, PartialEq, Eq)]
pub enum Key {
    Named(NamedKey),
    /// A key that produces text; the text it produces.
    Character(String),
    /// A key that is neither named nor produces text.
    Unidentified,
}

/// A mouse button.
#[derive(Clone, Copy, Debug, PartialEq, Eq, Structural)]
pub enum MouseButton {
    Left,
    Right,
    Other,
}

/// The lowercase form of a text, as `str::to_lowercase` computes it
/// (Unicode's lowercase mapping).
pub uninterp spec fn str_to_lowercase(s: Seq<char>) -> Seq<char>;

/// Calls `str::to_lowercase`; the result is the Unicode lowercase form of `s`,
/// named `str_to_lowercase` since its full definition is Unicode's tables.
#[verifier::external_body]
fn to_lowercase(s: &str) -> (r: String)
    ensures
        r@ == str_to_lowercase(s@),
{
    s.to_lowercase()
}

/// The action bound to a named key.
pub open spec fn named_key_action(k: NamedKey) -> Option<Action> {
    match k {
        NamedKey::Escape => Some(Action::Quit),
        NamedKey::ArrowRight | NamedKey::ArrowDown | NamedKey::Enter | NamedKey::Space
        | NamedKey::PageDown => Some(Action::Advance(1i32)),
        NamedKey::ArrowLeft | NamedKey::ArrowUp | NamedKey::Backspace
        | NamedKey::PageUp => Some(Action::Advance(-1i32)),
        NamedKey::Other => None,
    }
}

/// The action bound to a (lowercased) character text.
pub open spec fn text_action(t: Seq<char>) -> Option<Action> {
    if t.len() == 1 {
        let c = t[0];
        if c == 'q' {
            Some(Action::Quit)
        } else if c == ' ' || c == 'l' || c == 'j' || c == 'n' {
            Some(Action::Advance(1i32))
        } else if c == 'h' || c == 'k' || c == 'p' {
            Some(Action::Advance(-1i32))
        } else if c == 'r' {
            Some(Action::Reload)
        } else {
            None
        }
    } else {
        None
    }
}

/// The action bound to a key.
pub open spec fn spec_key_action(key: Key) -> Option<Action> {
    match key {
        Key::Named(k) => named_key_action(k),
        Key::Character(s) => text_action(str_to_lowercase(s@)),
        Key::Unidentified => None,
    }
}

/// The action bound to a character text that is already lowercase.
pub fn character_action(lowered: &str) -> (r: Option<Action>)
    ensures
        r == text_action(lowered@),
{
    if lowered.unicode_len() != 1 {
        return None;
    }
    let c = lowered.get_char(0);
    if c == 'q' {
        Some(Action::Quit)
    } else if c == ' ' || c == 'l' || c == 'j' || c == 'n' {
        Some(Action::Advance(1i32))
    } else if c == 'h' || c == 'k' || c == 'p' {
        Some(Action::Advance(-1i32))
    } else if c == 'r' {
        Some(Action::Reload)
    } else {
        None
    }
}

/// The action bound to a key press; character keys are matched
/// case-insensitively.
pub fn key_action(key: &Key) -> (r: Option<Action>)
    ensures
        r == spec_key_action(*key),
{
    match key {
        Key::Named(k) => match k {
            NamedKey::Escape => Some(Action::Quit),
            NamedKey::ArrowRight | NamedKey::ArrowDown | NamedKey::Enter | NamedKey::Space
            | NamedKey::PageDown => Some(Action::Advance(1i32)),
            NamedKey::ArrowLeft | NamedKey::ArrowUp | NamedKey::Backspace
            | NamedKey::PageUp => Some(Action::Advance(-1i32)),
            NamedKey::Other => None,
        },
        Key::Character(s) => {
            let lowered = to_lowercase(s.as_str());
            character_action(lowered.as_str())
        },
        Key::Unidentified => None,
    }
}

/// The action bound to a mouse button.
pub open spec fn spec_button_action(b: MouseButton) -> Option<Action> {
    match b {
        MouseButton::Left => Some(Action::Advance(1i32)),
        MouseButton::Right => Some(Action::Advance(-1i32)),
        MouseButton::Other => None,
    }
}

/// The action bound to a mouse click: left advances, right goes back.
pub fn button_action(b: MouseButton) -> (r: Option<Action>)
    ensures
        r == spec_button_action(b),
{
    match b {
        MouseButton::Left => Some(Action::Advance(1i32)),
        MouseButton::Right => Some(Action::Advance(-1i32)),
        MouseButton::Other => None,
    }
}

} // verus!
