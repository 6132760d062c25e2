//! Boards as text: one glyph for each cell, one line for each row.

use vstd::prelude::*;
use crate::grid::{BOX, FLOOR, MOVER, TARGET, WALL};

verus! {

/// The glyph that shows a cell symbol; an unknown symbol shows as a blank.
pub open spec fn glyph(symbol: char) -> char {
    if symbol == FLOOR {
        '⬛'
    } else if symbol == WALL {
        '🟦'
    } else if symbol == ' ' {
        '🟥'
    } else if symbol == BOX {
        '🟫'
    } else if symbol == MOVER {
        '🚶'
    } else if symbol == TARGET {
        '🎯'
    } else {
        ' '
    }
}

/// A row as text: the glyph of each cell, then a line feed.
pub open spec fn render_row(row: Seq<char>) -> Seq<char> {
    row.map_values(|symbol: char| glyph(symbol)).push('\n')
}

/// A grid as text: its rows as text, one after the other.
pub open spec fn render_grid(g: Seq<Seq<char>>) -> Seq<char> {
    g.map_values(|row: Seq<char>| render_row(row)).flatten()
}

/// `String::push` of std appends the character to the text and leaves what
/// was there unchanged. Verus takes this on trust.
pub assume_specification[ String::push ](text: &mut String, ch: char)
    ensures
        final(text)@ == old(text)@.push(ch),
;

/// The glyph that shows a cell symbol.
pub fn glyph_of(symbol: char) -> (shown: char)
    ensures
        shown == glyph(symbol),
{
    if symbol == FLOOR {
        '⬛'
    } else if symbol == WALL {
        '🟦'
    } else if symbol == ' ' {
        '🟥'
    } else if symbol == BOX {
        '🟫'
    } else if symbol == MOVER {
        '🚶'
    } else if symbol == TARGET {
        '🎯'
    } else {
        ' '
    }
}

} // verus!
