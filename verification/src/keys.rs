//! The keys that type no text of their own, and the text that stands for
//! them in the input of the editor.

use vstd::prelude::*;

verus! {

/// Whether `text` spells exactly `keys`.
pub fn spells(text: &str, keys: &str) -> (same: bool)
    ensures
        same == (text@ == keys@),
{
    text.to_owned() == keys.to_owned()
}

/// A key that types no text of its own.
#[derive(Clone, Copy, Debug, PartialEq, Eq, Structural)]
pub enum SpecialKey {
    Backspace,
    Escape,
    Return,
    Left,
    Right,
    Up,
    Down,
}

impl SpecialKey {
    /// The characters that stand for the key: the control character that the
    /// key has in ASCII, or, for the arrow keys, a code point that Unicode
    /// sets aside as no character.
    pub open spec fn chars(&self) -> Seq<char> {
        match self {
            SpecialKey::Backspace => seq!['\u{8}'],
            SpecialKey::Escape => seq!['\u{1b}'],
            SpecialKey::Return => seq!['\n'],
            SpecialKey::Left => seq!['\u{fdd0}'],
            SpecialKey::Right => seq!['\u{fdd1}'],
            SpecialKey::Up => seq!['\u{fdd2}'],
            SpecialKey::Down => seq!['\u{fdd3}'],
        }
    }

    /// The text that stands for the key.
    pub fn text(&self) -> (text: &'static str)
        ensures
            text@ == self.chars(),
    {
        match self {
            SpecialKey::Backspace => {
                proof {
                    reveal_strlit("\x08");
                }
                assert("\x08"@ =~= seq!['\u{8}']);
                "\x08"
            },
            SpecialKey::Escape => {
                proof {
                    reveal_strlit("\x1b");
                }
                assert("\x1b"@ =~= seq!['\u{1b}']);
                "\x1b"
            },
            SpecialKey::Return => {
                proof {
                    reveal_strlit("\n");
                }
                assert("\n"@ =~= seq!['\n']);
                "\n"
            },
            SpecialKey::Left => {
                proof {
                    reveal_strlit("\u{fdd0}");
                }
                assert("\u{fdd0}"@ =~= seq!['\u{fdd0}']);
                "\u{fdd0}"
            },
            SpecialKey::Right => {
                proof {
                    reveal_strlit("\u{fdd1}");
                }
                assert("\u{fdd1}"@ =~= seq!['\u{fdd1}']);
                "\u{fdd1}"
            },
            SpecialKey::Up => {
                proof {
                    reveal_strlit("\u{fdd2}");
                }
                assert("\u{fdd2}"@ =~= seq!['\u{fdd2}']);
                "\u{fdd2}"
            },
            SpecialKey::Down => {
                proof {
                    reveal_strlit("\u{fdd3}");
                }
                assert("\u{fdd3}"@ =~= seq!['\u{fdd3}']);
                "\u{fdd3}"
            },
        }
    }
}

} // verus!
