use vstd::prelude::*;

verus! {

/// Modifier bit of the Control key in `KeyEvent::modifiers`.
pub const CONTROL: u8 = 0b0000_0010;

/// Which key an event is about.
#[derive(Clone, Copy, Debug, PartialEq, Eq, Structural)]
pub enum KeyCode {
    Esc,
    Char(char),
    Other,
}

/// Whether a key went down, repeats, or came up.
#[derive(Clone, Copy, Debug, PartialEq, Eq, Structural)]
pub enum KeyEventKind {
    Press,
    Repeat,
    Release,
}

/// One key event: the key, the modifier bits held with it, and its kind.
#[derive(Clone, Copy, Debug, PartialEq, Eq, Structural)]
pub struct KeyEvent {
    pub code: KeyCode,
    pub modifiers: u8,
    pub kind: KeyEventKind,
}

/// An input event as the board sees it.
#[derive(Clone, Copy, Debug, PartialEq, Eq, Structural)]
pub enum Event {
    Key(KeyEvent),
    Mouse,
    Resize(u16, u16),
    Other,
}

/// Esc and `q` (whatever the modifiers), and Control with `c` or `C`.
pub open spec fn is_quit_key(key: KeyEvent) -> bool {
    key.code == KeyCode::Esc || key.code == KeyCode::Char('q') || (key.modifiers == CONTROL && (
    key.code == KeyCode::Char('c') || key.code == KeyCode::Char('C')))
}

/// Only a pressed quit key asks to stop.
pub open spec fn asks_to_quit(event: Event) -> bool {
    match event {
        Event::Key(key) => key.kind == KeyEventKind::Press && is_quit_key(key),
        _ => false,
    }
}

/// Whether `key` is one of the keys that stop the board.
pub fn quit_key(key: &KeyEvent) -> (r: bool)
    ensures
        r == is_quit_key(*key),
{
    match key.code {
        KeyCode::Esc => true,
        KeyCode::Char(c) => c == 'q' || (key.modifiers == CONTROL && (c == 'c' || c == 'C')),
        KeyCode::Other => false,
    }
}

} // verus!
