//! Key symbols: which key of the picker a symbol of the keyboard stands for.

use vstd::prelude::*;

verus! {

/// The symbol of the backspace key.
pub const KEY_BACKSPACE: u32 = 0xff08;

/// The symbol of the tabulator key.
pub const KEY_TAB: u32 = 0xff09;

/// The symbol of the return key.
pub const KEY_RETURN: u32 = 0xff0d;

/// The symbol of the escape key.
pub const KEY_ESCAPE: u32 = 0xff1b;

/// The symbol of the left shift key.
pub const KEY_SHIFT_L: u32 = 0xffe1;

/// The symbol of the right shift key.
pub const KEY_SHIFT_R: u32 = 0xffe2;

/// A key as the picker tells keys apart.
#[derive(Clone, Copy, Debug, PartialEq, Eq, Structural)]
pub enum Key {
    /// Gives up without a choice.
    Escape,
    /// Commits the choice.
    Return,
    /// Moves the highlight.
    Tab,
    /// Deletes the last character of the query.
    BackSpace,
    /// Either shift key: reverses the direction of `Tab` while it is held.
    Shift,
    /// A key whose symbol is a character.
    Char(char),
    /// A key whose symbol is no character.
    Other,
}

/// The character with code `code`, if there is one: the code of a character
/// is at most 0x10ffff and lies outside the surrogate range.
pub open spec fn scalar(code: u32) -> Option<char> {
    if code < 0xd800 || (0xe000 <= code && code <= 0x10ffff) {
        Some(code as char)
    } else {
        None
    }
}

/// The key that the symbol `symbol` stands for.
pub open spec fn key_of(symbol: u32) -> Key {
    if symbol == KEY_ESCAPE {
        Key::Escape
    } else if symbol == KEY_RETURN {
        Key::Return
    } else if symbol == KEY_TAB {
        Key::Tab
    } else if symbol == KEY_BACKSPACE {
        Key::BackSpace
    } else if symbol == KEY_SHIFT_L || symbol == KEY_SHIFT_R {
        Key::Shift
    } else {
        match scalar(symbol) {
            Some(c) => Key::Char(c),
            None => Key::Other,
        }
    }
}

/// `char::from_u32` returns the character with the given code, and `None`
/// where the code is a surrogate or above 0x10ffff.
pub assume_specification[ char::from_u32 ](i: u32) -> (r: Option<char>)
    ensures
        r == scalar(i),
;

impl Key {
    /// Tells which key a symbol stands for.
    pub fn from_symbol(symbol: u32) -> (r: Key)
        ensures
            r == key_of(symbol),
    {
        if symbol == KEY_ESCAPE {
            Key::Escape
        } else if symbol == KEY_RETURN {
            Key::Return
        } else if symbol == KEY_TAB {
            Key::Tab
        } else if symbol == KEY_BACKSPACE {
            Key::BackSpace
        } else if symbol == KEY_SHIFT_L || symbol == KEY_SHIFT_R {
            Key::Shift
        } else {
            match char::from_u32(symbol) {
                Some(c) => Key::Char(c),
                None => Key::Other,
            }
        }
    }
}

} // verus!
