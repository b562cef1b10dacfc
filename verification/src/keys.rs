use vstd::prelude::*;

verus! {

/// A key on the keyboard, as the editor distinguishes keys.
#[derive(Debug, Clone, Copy, PartialEq, Eq, Structural, Hash)]
pub enum KeyCode {
    Backspace,
    Enter,
    Left,
    Right,
    Up,
    Down,
    Home,
    End,
    PageUp,
    PageDown,
    Tab,
    BackTab,
    Delete,
    Insert,
    F(u8),
    Char(char),
    /// The catch-all key: a command bound to it matches any key pressed with
    /// the same modifiers.
    Null,
    Esc,
    /// Any key that the editor has no name for.
    Other,
}

/// A set of modifier keys, held as bit flags.
#[derive(Debug, Clone, Copy, PartialEq, Eq, Structural, Hash)]
pub struct KeyModifiers {
    pub bits: u8,
}

pub const SHIFT_BITS: u8 = 1;
pub const CONTROL_BITS: u8 = 2;
pub const ALT_BITS: u8 = 4;

impl KeyModifiers {
    pub fn empty() -> (m: KeyModifiers)
        ensures
            m.bits == 0,
    {
        KeyModifiers { bits: 0 }
    }

    pub fn shift() -> (m: KeyModifiers)
        ensures
            m.bits == SHIFT_BITS,
    {
        KeyModifiers { bits: SHIFT_BITS }
    }

    pub fn control() -> (m: KeyModifiers)
        ensures
            m.bits == CONTROL_BITS,
    {
        KeyModifiers { bits: CONTROL_BITS }
    }

    pub fn alt() -> (m: KeyModifiers)
        ensures
            m.bits == ALT_BITS,
    {
        KeyModifiers { bits: ALT_BITS }
    }

    /// The set holding the modifiers of both sets.
    pub fn union(self, other: KeyModifiers) -> (m: KeyModifiers)
        ensures
            m.bits == self.bits | other.bits,
    {
        KeyModifiers { bits: self.bits | other.bits }
    }

    /// Whether every modifier of `other` is in this set.
    pub fn contains(self, other: KeyModifiers) -> (b: bool)
        ensures
            b == (self.bits & other.bits == other.bits),
    {
        self.bits & other.bits == other.bits
    }

    pub fn is_empty(self) -> (b: bool)
        ensures
            b == (self.bits == 0),
    {
        self.bits == 0
    }
}

} // verus!
