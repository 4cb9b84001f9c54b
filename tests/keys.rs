use editorium::binding::{Binding, BindingMotion, Key, KeyEvent, Modifiers, NamedKey, Platform};

fn mods(shift: bool, control: bool, alt: bool, logo: bool) -> Modifiers {
    Modifiers { shift, control, alt, logo }
}

fn press(key: Key, m: Modifiers, text: Option<&str>) -> KeyEvent {
    KeyEvent::KeyPressed { key, modifiers: m, text: text.map(|t| t.to_string()) }
}

fn none() -> Modifiers {
    mods(false, false, false, false)
}

#[test]
fn named_keys_map_to_edits() {
    let p = Platform::Other;
    let cases = [
        (NamedKey::Enter, none(), Binding::Enter),
        (NamedKey::Tab, none(), Binding::Tab),
        (NamedKey::Tab, mods(true, false, false, false), Binding::Unindent),
        (NamedKey::Backspace, none(), Binding::Backspace),
        (NamedKey::Backspace, mods(false, true, false, false), Binding::BackspaceWord),
        (NamedKey::Delete, none(), Binding::Delete),
        (NamedKey::Delete, mods(false, true, false, false), Binding::DeleteWord),
        (NamedKey::Escape, none(), Binding::Unfocus),
    ];
    for (k, m, b) in cases {
        assert_eq!(Binding::from_keyboard_event(&press(Key::Named(k), m, None), p), Some(b));
    }
}

#[test]
fn shortcuts_use_the_primary_modifier() {
    let ctrl = mods(false, true, false, false);
    let cmd = mods(false, false, false, true);
    let ev = |s: &str, m: Modifiers| press(Key::Character(s.to_string()), m, Some(s));
    assert_eq!(Binding::from_keyboard_event(&ev("c", ctrl), Platform::Other), Some(Binding::Copy));
    assert_eq!(Binding::from_keyboard_event(&ev("x", ctrl), Platform::Other), Some(Binding::Cut));
    assert_eq!(Binding::from_keyboard_event(&ev("v", ctrl), Platform::Other), Some(Binding::Paste));
    assert_eq!(
        Binding::from_keyboard_event(&ev("a", ctrl), Platform::Other),
        Some(Binding::SelectAll)
    );
    assert_eq!(Binding::from_keyboard_event(&ev("z", ctrl), Platform::Other), Some(Binding::Undo));
    assert_eq!(
        Binding::from_keyboard_event(&ev("z", mods(true, true, false, false)), Platform::Other),
        Some(Binding::Redo)
    );
    assert_eq!(Binding::from_keyboard_event(&ev("c", cmd), Platform::MacOs), Some(Binding::Copy));
    assert_eq!(Binding::from_keyboard_event(&ev("c", cmd), Platform::Other), None);
    assert_eq!(Binding::from_keyboard_event(&ev("q", ctrl), Platform::Other), None);
}

#[test]
fn plain_characters_are_inserted() {
    let ev = press(Key::Character("a".to_string()), none(), Some("a"));
    assert_eq!(Binding::from_keyboard_event(&ev, Platform::Other), Some(Binding::InsertChar('a')));
    let shifted = press(Key::Character("A".to_string()), mods(true, false, false, false), Some("A"));
    assert_eq!(
        Binding::from_keyboard_event(&shifted, Platform::Other),
        Some(Binding::InsertChar('A'))
    );
    let control_text = press(Key::Unidentified, none(), Some("\u{7}x"));
    assert_eq!(
        Binding::from_keyboard_event(&control_text, Platform::Other),
        Some(Binding::InsertChar('x'))
    );
    let only_control = press(Key::Unidentified, none(), Some("\u{1b}"));
    assert_eq!(Binding::from_keyboard_event(&only_control, Platform::Other), None);
    let with_alt = press(Key::Character("a".to_string()), mods(false, false, true, false), Some("a"));
    assert_eq!(Binding::from_keyboard_event(&with_alt, Platform::Other), None);
}

#[test]
fn arrows_with_jump_and_shift() {
    let p = Platform::Other;
    let left = |m: Modifiers| press(Key::Named(NamedKey::ArrowLeft), m, None);
    assert_eq!(
        Binding::from_keyboard_event(&left(none()), p),
        Some(Binding::Move(BindingMotion::Left))
    );
    assert_eq!(
        Binding::from_keyboard_event(&left(mods(false, true, false, false)), p),
        Some(Binding::Move(BindingMotion::WordLeft))
    );
    assert_eq!(
        Binding::from_keyboard_event(&left(mods(true, true, false, false)), p),
        Some(Binding::Select(BindingMotion::WordLeft))
    );
    let home = press(Key::Named(NamedKey::Home), mods(false, true, false, false), None);
    assert_eq!(
        Binding::from_keyboard_event(&home, p),
        Some(Binding::Move(BindingMotion::DocumentStart))
    );
    let page = press(Key::Named(NamedKey::PageDown), mods(true, false, false, false), None);
    assert_eq!(
        Binding::from_keyboard_event(&page, p),
        Some(Binding::Select(BindingMotion::PageDown))
    );
}

#[test]
fn macos_command_arrows_go_to_line_edges() {
    let p = Platform::MacOs;
    let right = press(Key::Named(NamedKey::ArrowRight), mods(false, false, false, true), None);
    assert_eq!(Binding::from_keyboard_event(&right, p), Some(Binding::Move(BindingMotion::End)));
    let jump = press(Key::Named(NamedKey::ArrowRight), mods(false, false, true, false), None);
    assert_eq!(
        Binding::from_keyboard_event(&jump, p),
        Some(Binding::Move(BindingMotion::WordRight))
    );
    let both = press(Key::Named(NamedKey::ArrowLeft), mods(false, false, true, true), None);
    assert_eq!(
        Binding::from_keyboard_event(&both, p),
        Some(Binding::Move(BindingMotion::DocumentStart))
    );
}

#[test]
fn other_events_have_no_action() {
    let p = Platform::Other;
    assert_eq!(Binding::from_keyboard_event(&KeyEvent::ModifiersChanged(none()), p), None);
    let rel = KeyEvent::KeyReleased { key: Key::Named(NamedKey::Enter), modifiers: none() };
    assert_eq!(Binding::from_keyboard_event(&rel, p), None);
    let other = press(Key::Named(NamedKey::Other), none(), None);
    assert_eq!(Binding::from_keyboard_event(&other, p), None);
}

#[test]
fn named_key_motions() {
    assert_eq!(BindingMotion::from_named_key(NamedKey::ArrowUp), Some(BindingMotion::Up));
    assert_eq!(BindingMotion::from_named_key(NamedKey::End), Some(BindingMotion::End));
    assert_eq!(BindingMotion::from_named_key(NamedKey::Enter), None);
}
