//! Input events and the keys that the help overlay answers to.

use vstd::prelude::*;

verus! {

/// A key of the keyboard.
#[derive(Clone, Copy, Debug, PartialEq, Eq, Structural)]
pub enum KeyCode {
    Backspace,
    Enter,
    Left,
    Right,
    Up,
    Down,
    Home,
    End,
    PageUp,
    PageDown,
    Tab,
    BackTab,
    Delete,
    Insert,
    /// A function key, by its number.
    F(u8),
    /// A character key.
    Char(char),
    Null,
    Esc,
}

/// The modifier keys held with a key, one bit each.
#[derive(Clone, Copy, Debug, PartialEq, Eq, Structural)]
pub struct KeyModifiers {
    pub bits: u8,
}

/// No modifier key.
pub const MODIFIERS_NONE: u8 = 0;

/// The shift key.
pub const MODIFIERS_SHIFT: u8 = 1;

/// The control key.
pub const MODIFIERS_CONTROL: u8 = 2;

/// The alt key.
pub const MODIFIERS_ALT: u8 = 4;

/// A key pressed, with the modifier keys held.
#[derive(Clone, Copy, Debug, PartialEq, Eq, Structural)]
pub struct KeyEvent {
    pub code: KeyCode,
    pub modifiers: KeyModifiers,
}

/// An input event.
#[derive(Clone, Copy, Debug, PartialEq, Eq, Structural)]
pub enum Event {
    /// A key was pressed.
    Key(KeyEvent),
    /// The mouse was used.
    Mouse,
    /// The terminal was resized, to this many columns and rows.
    Resize(u16, u16),
}

/// The key `code` with no modifier key held.
pub open spec fn spec_no_mod(code: KeyCode) -> KeyEvent {
    KeyEvent { code, modifiers: KeyModifiers { bits: MODIFIERS_NONE } }
}

/// The key `code` with no modifier key held.
#[verifier::when_used_as_spec(spec_no_mod)]
pub fn no_mod(code: KeyCode) -> (key: KeyEvent)
    ensures
        key == spec_no_mod(code),
{
    KeyEvent { code, modifiers: KeyModifiers { bits: MODIFIERS_NONE } }
}

/// The key that opens the help overlay: `h`.
pub open spec fn spec_open_help() -> KeyEvent {
    spec_no_mod(KeyCode::Char('h'))
}

/// The key that opens the help overlay: `h`.
#[verifier::when_used_as_spec(spec_open_help)]
pub fn open_help() -> (key: KeyEvent)
    ensures
        key == spec_open_help(),
{
    no_mod(KeyCode::Char('h'))
}

/// The key that closes a popup: escape.
pub open spec fn spec_exit_popup() -> KeyEvent {
    spec_no_mod(KeyCode::Esc)
}

/// The key that closes a popup: escape.
#[verifier::when_used_as_spec(spec_exit_popup)]
pub fn exit_popup() -> (key: KeyEvent)
    ensures
        key == spec_exit_popup(),
{
    no_mod(KeyCode::Esc)
}

/// The key that moves the cursor up: the up arrow.
pub open spec fn spec_move_up() -> KeyEvent {
    spec_no_mod(KeyCode::Up)
}

/// The key that moves the cursor up: the up arrow.
#[verifier::when_used_as_spec(spec_move_up)]
pub fn move_up() -> (key: KeyEvent)
    ensures
        key == spec_move_up(),
{
    no_mod(KeyCode::Up)
}

/// The key that moves the cursor down: the down arrow.
pub open spec fn spec_move_down() -> KeyEvent {
    spec_no_mod(KeyCode::Down)
}

/// The key that moves the cursor down: the down arrow.
#[verifier::when_used_as_spec(spec_move_down)]
pub fn move_down() -> (key: KeyEvent)
    ensures
        key == spec_move_down(),
{
    no_mod(KeyCode::Down)
}

} // verus!
