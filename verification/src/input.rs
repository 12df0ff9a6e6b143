//! Key presses, as far as the screens tell them apart.

use vstd::prelude::*;

verus! {

/// A key, or anything else that the user can do.
#[derive(Clone, Copy, PartialEq, Eq, Structural)]
pub enum Key {
    Char(char),
    Enter,
    Backspace,
    Up,
    Down,
    /// Any other key, the mouse, a paste.
    Other,
}

/// A key press with the modifiers held during it.
#[derive(Clone, Copy)]
pub struct Chord {
    pub key: Key,
    /// Whether Ctrl was held.
    pub ctrl: bool,
    /// Whether any other modifier was held.
    pub other_modifier: bool,
}

/// The key alone, with no modifier held.
pub open spec fn plain(chord: Chord, key: Key) -> bool {
    chord.key == key && !chord.ctrl && !chord.other_modifier
}

/// The chords that quit: `q`, and Ctrl with `c`.
pub open spec fn quits(chord: Chord) -> bool {
    plain(chord, Key::Char('q')) || (chord.key == Key::Char('c') && chord.ctrl
        && !chord.other_modifier)
}

/// An ASCII decimal digit.
pub open spec fn ascii_digit(c: char) -> bool {
    '0' <= c <= '9'
}

/// The digit that was typed, whatever modifiers were held.
pub open spec fn typed_digit(chord: Chord) -> Option<char> {
    match chord.key {
        Key::Char(c) => if ascii_digit(c) {
            Some(c)
        } else {
            None
        },
        _ => None,
    }
}

impl Chord {
    /// Whether this is `key` with no modifier held.
    pub fn is_plain(&self, key: Key) -> (out: bool)
        ensures
            out == plain(*self, key),
    {
        self.key == key && !self.ctrl && !self.other_modifier
    }

    /// Whether this chord quits.
    pub fn is_quit(&self) -> (out: bool)
        ensures
            out == quits(*self),
    {
        self.is_plain(Key::Char('q')) || (self.key == Key::Char('c') && self.ctrl
            && !self.other_modifier)
    }

    /// The digit that was typed, if one was.
    pub fn digit(&self) -> (out: Option<char>)
        ensures
            out == typed_digit(*self),
    {
        match self.key {
            Key::Char(c) => {
                if '0' <= c && c <= '9' {
                    Some(c)
                } else {
                    None
                }
            },
            _ => None,
        }
    }
}

/// Two chords quit, and no other: `q` alone, and `c` with Ctrl alone.
pub proof fn law_two_chords_quit(chord: Chord)
    ensures
        quits(chord) <==> {
            ||| chord == (Chord { key: Key::Char('q'), ctrl: false, other_modifier: false })
            ||| chord == (Chord { key: Key::Char('c'), ctrl: true, other_modifier: false })
        },
{
}

/// For each key there is one plain chord.
pub proof fn law_one_plain_chord_per_key(chord: Chord, key: Key)
    ensures
        plain(chord, key) <==> chord == (Chord { key, ctrl: false, other_modifier: false }),
{
}

/// A digit is typed with one of ten keys, whatever modifiers are held, and it is the one on the
/// key.
pub proof fn law_ten_keys_type_digits(chord: Chord)
    ensures
        forall|d: int|
            0 <= d < 10 && chord.key == Key::Char(#[trigger] ((48 + d) as char)) ==> typed_digit(
                chord,
            ) == Some((48 + d) as char),
        typed_digit(chord) is Some ==> {
            &&& chord.key == Key::Char(typed_digit(chord)->0)
            &&& 48 <= typed_digit(chord)->0 as int <= 57
        },
{
}

} // verus!
