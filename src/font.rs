//! Code points of the icon font's glyphs.
use vstd::prelude::*;

verus! {

/// The solid "caret down" arrow.
pub fn arrow_dowwn() -> (r: char)
    ensures
        r == '\u{f0d7}',
{
    '\u{f0d7}'
}

/// The solid "caret right" arrow.
pub fn arrow_left() -> (r: char)
    ensures
        r == '\u{f0da}',
{
    '\u{f0da}'
}

/// The "angle down" chevron.
pub fn caret_down() -> (r: char)
    ensures
        r == '\u{f107}',
{
    '\u{f107}'
}

/// The "angle right" chevron.
pub fn caret_right() -> (r: char)
    ensures
        r == '\u{f105}',
{
    '\u{f105}'
}

} // verus!
