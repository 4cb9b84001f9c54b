//! Keyboard events as plain values, and their classification into editing
//! actions.
use vstd::prelude::*;

verus! {

/// A cursor motion.
#[derive(Clone, Copy, Debug, PartialEq, Eq, Structural)]
pub enum BindingMotion {
    Left,
    Right,
    Up,
    Down,
    PageUp,
    PageDown,
    Home,
    End,
    WordLeft,
    WordRight,
    DocumentStart,
    DocumentEnd,
}

/// An editing action.
#[derive(Clone, Copy, Debug, PartialEq, Eq, Structural)]
pub enum Binding {
    Enter,
    Tab,
    Unindent,
    Backspace,
    BackspaceWord,
    Delete,
    DeleteWord,
    Unfocus,
    Copy,
    Cut,
    Paste,
    SelectAll,
    Move(BindingMotion),
    Select(BindingMotion),
    Undo,
    Redo,
    InsertChar(char),
}

/// The keys that have a name rather than a character.
#[derive(Clone, Copy, Debug, PartialEq, Eq, Structural)]
pub enum NamedKey {
    Enter,
    Tab,
    Backspace,
    Delete,
    Escape,
    ArrowLeft,
    ArrowRight,
    ArrowUp,
    ArrowDown,
    PageUp,
    PageDown,
    Home,
    End,
    Other,
}

/// A key: a named key, or the text that a character key produces.
pub enum Key {
    Named(NamedKey),
    Character(String),
    Unidentified,
}

/// The modifier keys held during an event.
#[derive(Clone, Copy, Debug, PartialEq, Eq, Structural)]
pub struct Modifiers {
    pub shift: bool,
    pub control: bool,
    pub alt: bool,
    pub logo: bool,
}

/// The platform family, which decides what the primary modifier is.
#[derive(Clone, Copy, Debug, PartialEq, Eq, Structural)]
pub enum Platform {
    MacOs,
    Other,
}

/// A keyboard event.
pub enum KeyEvent {
    KeyPressed { key: Key, modifiers: Modifiers, text: Option<String> },
    KeyReleased { key: Key, modifiers: Modifiers },
    ModifiersChanged(Modifiers),
}

impl Modifiers {
    /// The primary modifier: command on macOS, control elsewhere.
    pub open spec fn command_spec(self, p: Platform) -> bool {
        if p == Platform::MacOs {
            self.logo
        } else {
            self.control
        }
    }

    /// The command key of macOS, never held elsewhere.
    pub open spec fn macos_command_spec(self, p: Platform) -> bool {
        p == Platform::MacOs && self.logo
    }

    /// The modifier that makes motions jump: option on macOS, control elsewhere.
    pub open spec fn jump_spec(self, p: Platform) -> bool {
        if p == Platform::MacOs {
            self.alt
        } else {
            self.control
        }
    }

    pub fn command(self, p: Platform) -> (r: bool)
        ensures
            r == self.command_spec(p),
    {
        match p {
            Platform::MacOs => self.logo,
            Platform::Other => self.control,
        }
    }

    pub fn macos_command(self, p: Platform) -> (r: bool)
        ensures
            r == self.macos_command_spec(p),
    {
        match p {
            Platform::MacOs => self.logo,
            Platform::Other => false,
        }
    }

    pub fn jump(self, p: Platform) -> (r: bool)
        ensures
            r == self.jump_spec(p),
    {
        match p {
            Platform::MacOs => self.alt,
            Platform::Other => self.control,
        }
    }
}

/// A control character: general category Cc.
pub open spec fn is_control_spec(c: char) -> bool {
    (c as u32) <= 0x1f || (0x7f <= (c as u32) && (c as u32) <= 0x9f)
}

pub fn is_control(c: char) -> (r: bool)
    ensures
        r == is_control_spec(c),
{
    let v = c as u32;
    v <= 0x1f || (0x7f <= v && v <= 0x9f)
}

impl BindingMotion {
    pub open spec fn from_named_key_spec(key: NamedKey) -> Option<BindingMotion> {
        match key {
            NamedKey::ArrowLeft => Some(BindingMotion::Left),
            NamedKey::ArrowRight => Some(BindingMotion::Right),
            NamedKey::ArrowDown => Some(BindingMotion::Down),
            NamedKey::ArrowUp => Some(BindingMotion::Up),
            NamedKey::PageUp => Some(BindingMotion::PageUp),
            NamedKey::PageDown => Some(BindingMotion::PageDown),
            NamedKey::Home => Some(BindingMotion::Home),
            NamedKey::End => Some(BindingMotion::End),
            _ => None,
        }
    }

    /// The motion that a named key stands for, if any.
    pub fn from_named_key(key: NamedKey) -> (r: Option<BindingMotion>)
        ensures
            r == Self::from_named_key_spec(key),
    {
        match key {
            NamedKey::ArrowLeft => Some(BindingMotion::Left),
            NamedKey::ArrowRight => Some(BindingMotion::Right),
            NamedKey::ArrowDown => Some(BindingMotion::Down),
            NamedKey::ArrowUp => Some(BindingMotion::Up),
            NamedKey::PageUp => Some(BindingMotion::PageUp),
            NamedKey::PageDown => Some(BindingMotion::PageDown),
            NamedKey::Home => Some(BindingMotion::Home),
            NamedKey::End => Some(BindingMotion::End),
            _ => None,
        }
    }

    /// Line-edge motions when the macOS command key is held.
    pub open spec fn with_macos_command(self) -> BindingMotion {
        match self {
            BindingMotion::Left => BindingMotion::Home,
            BindingMotion::Right => BindingMotion::End,
            _ => self,
        }
    }

    /// Word and document motions when the jump modifier is held.
    pub open spec fn with_jump(self) -> BindingMotion {
        match self {
            BindingMotion::Left => BindingMotion::WordLeft,
            BindingMotion::Right => BindingMotion::WordRight,
            BindingMotion::Home => BindingMotion::DocumentStart,
            BindingMotion::End => BindingMotion::DocumentEnd,
            _ => self,
        }
    }
}

/// The motion for a named key under the held modifiers.
pub open spec fn motion_for(m: BindingMotion, mods: Modifiers, p: Platform) -> BindingMotion {
    let m1 = if mods.macos_command_spec(p) {
        m.with_macos_command()
    } else {
        m
    };
    if mods.jump_spec(p) {
        m1.with_jump()
    } else {
        m1
    }
}

/// The character key's text is exactly `c`.
pub open spec fn is_char_key(s: Seq<char>, c: char) -> bool {
    s == seq![c]
}

/// What a key press with these modifiers means, before text insertion.
pub open spec fn key_binding(key: Key, mods: Modifiers, p: Platform) -> Option<Binding> {
    let cmd = mods.command_spec(p);
    match key {
        Key::Named(NamedKey::Enter) => Some(Binding::Enter),
        Key::Named(NamedKey::Tab) => if mods.shift {
            Some(Binding::Unindent)
        } else {
            Some(Binding::Tab)
        },
        Key::Named(NamedKey::Backspace) => if cmd {
            Some(Binding::BackspaceWord)
        } else {
            Some(Binding::Backspace)
        },
        Key::Named(NamedKey::Delete) => if cmd {
            Some(Binding::DeleteWord)
        } else {
            Some(Binding::Delete)
        },
        Key::Named(NamedKey::Escape) => Some(Binding::Unfocus),
        Key::Named(n) => match BindingMotion::from_named_key_spec(n) {
            Some(m) => {
                let m2 = motion_for(m, mods, p);
                if mods.shift {
                    Some(Binding::Select(m2))
                } else {
                    Some(Binding::Move(m2))
                }
            },
            None => None,
        },
        Key::Character(s) => if !cmd {
            None
        } else if is_char_key(s@, 'c') {
            Some(Binding::Copy)
        } else if is_char_key(s@, 'x') {
            Some(Binding::Cut)
        } else if is_char_key(s@, 'v') {
            Some(Binding::Paste)
        } else if is_char_key(s@, 'a') {
            Some(Binding::SelectAll)
        } else if is_char_key(s@, 'z') {
            if mods.shift {
                Some(Binding::Redo)
            } else {
                Some(Binding::Undo)
            }
        } else {
            None
        },
        Key::Unidentified => None,
    }
}

/// The first character of `t` that is not a control character.
pub open spec fn first_printable(t: Seq<char>) -> Option<char>
    decreases t.len(),
{
    if t.len() == 0 {
        None
    } else if !is_control_spec(t[0]) {
        Some(t[0])
    } else {
        first_printable(t.skip(1))
    }
}

/// The action of a keyboard event: a bound key, or else the insertion of the
/// first printable character of the text of a key press made without the
/// command, control or alt modifier.
pub open spec fn classify_spec(event: KeyEvent, p: Platform) -> Option<Binding> {
    match event {
        KeyEvent::KeyPressed { key, modifiers, text } => match key_binding(key, modifiers, p) {
            Some(b) => Some(b),
            None => if !modifiers.logo && !modifiers.control && !modifiers.alt {
                match text {
                    Some(t) => match first_printable(t@) {
                        Some(c) => Some(Binding::InsertChar(c)),
                        None => None,
                    },
                    None => None,
                }
            } else {
                None
            },
        },
        _ => None,
    }
}

fn char_key_is(s: &String, c: char) -> (r: bool)
    ensures
        r == is_char_key(s@, c),
{
    let t = s.as_str();
    if t.unicode_len() != 1 {
        return false;
    }
    let d = t.get_char(0);
    if d == c {
        assert(s@ =~= seq![c]);
        true
    } else {
        false
    }
}

fn find_printable(t: &String) -> (r: Option<char>)
    ensures
        r == first_printable(t@),
{
    let s = t.as_str();
    let n = s.unicode_len();
    let mut i: usize = 0;
    proof {
        assert(t@.skip(0) =~= t@);
    }
    while i < n
        invariant
            i <= n == t@.len(),
            s@ == t@,
            first_printable(t@.skip(i as int)) == first_printable(t@),
        decreases n - i,
    {
        let c = s.get_char(i);
        proof {
            assert(t@.skip(i as int)[0] == c);
            assert(t@.skip(i as int).skip(1) =~= t@.skip(i + 1));
        }
        if !is_control(c) {
            return Some(c);
        }
        i = i + 1;
    }
    None
}

fn key_binding_of(key: &Key, mods: Modifiers, p: Platform) -> (r: Option<Binding>)
    ensures
        r == key_binding(*key, mods, p),
{
    let cmd = mods.command(p);
    match key {
        Key::Named(NamedKey::Enter) => Some(Binding::Enter),
        Key::Named(NamedKey::Tab) => if mods.shift {
            Some(Binding::Unindent)
        } else {
            Some(Binding::Tab)
        },
        Key::Named(NamedKey::Backspace) => if cmd {
            Some(Binding::BackspaceWord)
        } else {
            Some(Binding::Backspace)
        },
        Key::Named(NamedKey::Delete) => if cmd {
            Some(Binding::DeleteWord)
        } else {
            Some(Binding::Delete)
        },
        Key::Named(NamedKey::Escape) => Some(Binding::Unfocus),
        Key::Named(n) => match BindingMotion::from_named_key(*n) {
            Some(m) => {
                let m1 = if mods.macos_command(p) {
                    match m {
                        BindingMotion::Left => BindingMotion::Home,
                        BindingMotion::Right => BindingMotion::End,
                        _ => m,
                    }
                } else {
                    m
                };
                let m2 = if mods.jump(p) {
                    match m1 {
                        BindingMotion::Left => BindingMotion::WordLeft,
                        BindingMotion::Right => BindingMotion::WordRight,
                        BindingMotion::Home => BindingMotion::DocumentStart,
                        BindingMotion::End => BindingMotion::DocumentEnd,
                        _ => m1,
                    }
                } else {
                    m1
                };
                if mods.shift {
                    Some(Binding::Select(m2))
                } else {
                    Some(Binding::Move(m2))
                }
            },
            None => None,
        },
        Key::Character(s) => if !cmd {
            None
        } else if char_key_is(s, 'c') {
            Some(Binding::Copy)
        } else if char_key_is(s, 'x') {
            Some(Binding::Cut)
        } else if char_key_is(s, 'v') {
            Some(Binding::Paste)
        } else if char_key_is(s, 'a') {
            Some(Binding::SelectAll)
        } else if char_key_is(s, 'z') {
            if mods.shift {
                Some(Binding::Redo)
            } else {
                Some(Binding::Undo)
            }
        } else {
            None
        },
        Key::Unidentified => None,
    }
}

impl Binding {
    /// The action of a keyboard event on platform `p`, if it has one.
    pub fn from_keyboard_event(event: &KeyEvent, p: Platform) -> (r: Option<Binding>)
        ensures
            r == classify_spec(*event, p),
    {
        match event {
            KeyEvent::KeyPressed { key, modifiers, text } => {
                match key_binding_of(key, *modifiers, p) {
                    Some(b) => Some(b),
                    None => {
                        if !modifiers.logo && !modifiers.control && !modifiers.alt {
                            match text {
                                Some(t) => match find_printable(t) {
                                    Some(c) => Some(Binding::InsertChar(c)),
                                    None => None,
                                },
                                None => None,
                            }
                        } else {
                            None
                        }
                    },
                }
            },
            _ => None,
        }
    }
}

} // verus!
