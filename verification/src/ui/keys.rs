//! The keyboard, as far as the application looks at it.
use vstd::prelude::*;

verus! {

#[derive(Debug, Clone, Copy, PartialEq, Eq, Structural)]
pub enum KeyCode {
    Char(char),
    Up,
    Down,
    Home,
    End,
    Esc,
    Enter,
    Backspace,
    Tab,
    /// any other key
    Other,
}

#[derive(Debug, Clone, Copy, PartialEq, Eq, Structural)]
pub enum KeyModifiers {
    /// no modifier held
    Plain,
    /// Control, and nothing else
    Control,
    /// any other combination
    Other,
}

#[derive(Debug, Clone, Copy, PartialEq, Eq, Structural)]
pub enum KeyEventKind {
    Press,
    Repeat,
    Release,
}

#[derive(Debug, Clone, Copy, PartialEq, Eq, Structural)]
pub struct KeyEvent {
    pub code: KeyCode,
    pub modifiers: KeyModifiers,
    pub kind: KeyEventKind,
}

impl KeyEvent {
    /// A key being pressed.
    pub fn new(code: KeyCode, modifiers: KeyModifiers) -> (r: KeyEvent)
        ensures
            r == (KeyEvent { code, modifiers, kind: KeyEventKind::Press }),
    {
        KeyEvent { code, modifiers, kind: KeyEventKind::Press }
    }

    /// One of the two keys that leave.
    pub open spec fn quits(self) -> bool {
        self.code == KeyCode::Char('q') || (self.code == KeyCode::Char('c') && self.modifiers
            == KeyModifiers::Control)
    }
}

/// Something the terminal reports.
#[derive(Debug, Clone, Copy, PartialEq, Eq, Structural)]
pub enum Event {
    Key(KeyEvent),
    /// the mouse, a paste, a resize
    Other,
}

/// The two keys that leave, live in every state including a running sweep.
pub fn is_quit(key: KeyEvent) -> (r: bool)
    ensures
        r == key.quits(),
        r <==> key.code == KeyCode::Char('q') || (key.code == KeyCode::Char('c') && key.modifiers
            == KeyModifiers::Control),
{
    match key.code {
        KeyCode::Char('q') => true,
        KeyCode::Char('c') => key.modifiers == KeyModifiers::Control,
        _ => false,
    }
}

} // verus!
