//! Laws of the screen model for the bytes that the shell writes most: text
//! and the control codes. Each law states the cells and the cursor that the
//! byte leaves, in terms of the screen before it.

use vstd::prelude::*;
use vstd::utf8::*;

use crate::screen::ScreenModel;
use crate::screen_laws::{is_printable, law_printable_written};

verus! {

/// A backspace moves the cursor exactly one column left, and stays put in
/// column 0; no cell changes.
pub proof fn law_backspace(s: ScreenModel, rest: Seq<u8>)
    ensures
        s.cursor_x > 0 ==> s.process(seq![0x08u8] + rest) == (ScreenModel {
            cursor_x: (s.cursor_x - 1) as u16,
            ..s
        }).process(rest),
        s.cursor_x == 0 ==> s.process(seq![0x08u8] + rest) == s.process(rest),
{
    let d = seq![0x08u8] + rest;
    assert(d[0] == 0x08);
    assert(d.skip(1) =~= rest);
}

/// A carriage return moves the cursor to column 0 of its row; no cell changes.
pub proof fn law_carriage_return(s: ScreenModel, rest: Seq<u8>)
    ensures
        s.process(seq![0x0du8] + rest) == (ScreenModel { cursor_x: 0, ..s }).process(rest),
{
    let d = seq![0x0du8] + rest;
    assert(d[0] == 0x0d);
    assert(d.skip(1) =~= rest);
}

/// A line feed moves the cursor one row down in its column; on the last
/// row the top row leaves the screen, a blank row enters at the bottom and
/// the cursor stays on the last row.
pub proof fn law_line_feed(s: ScreenModel, rest: Seq<u8>)
    ensures
        s.cursor_y + 1 < s.rows ==> s.process(seq![0x0au8] + rest) == (ScreenModel {
            cursor_y: (s.cursor_y + 1) as u16,
            ..s
        }).process(rest),
        s.rows >= 1 && s.cursor_y + 1 >= s.rows ==> s.process(seq![0x0au8] + rest) == (ScreenModel {
            grid: s.grid.drop_first().push(Seq::new(s.cols as nat, |c: int| ' ')),
            cursor_y: (s.rows - 1) as u16,
            ..s
        }).process(rest),
{
    let d = seq![0x0au8] + rest;
    assert(d[0] == 0x0a);
    assert(d.skip(1) =~= rest);
    assert(crate::screen::blank_row(s.cols as nat) =~= Seq::new(s.cols as nat, |c: int| ' '));
}

/// A tab moves the cursor to the next column that is a multiple of 8, but
/// not past the last column; no cell changes. (Beyond column 65527 the
/// column wraps around as in release builds.)
pub proof fn law_tab(s: ScreenModel, rest: Seq<u8>)
    requires
        s.cols >= 1,
        s.cursor_x < 0xfff8,
    ensures
        s.process(seq![0x09u8] + rest) == (ScreenModel {
            cursor_x: if (s.cursor_x / 8 + 1) * 8 < s.cols - 1 {
                ((s.cursor_x / 8 + 1) * 8) as u16
            } else {
                (s.cols - 1) as u16
            },
            ..s
        }).process(rest),
{
    let d = seq![0x09u8] + rest;
    assert(d[0] == 0x09);
    assert(d.skip(1) =~= rest);
    let cx = s.cursor_x;
    assert(cx + (8 - cx % 8) == (cx / 8 + 1) * 8);
    assert(cx.wrapping_add((8 - cx % 8) as u16) == cx + (8 - cx % 8));
}

/// A printable character (written as its UTF-8 encoding) lands in the cell
/// under the cursor, and no other cell changes; the cursor moves one column
/// right, or past the last column to the start of the next row, or on the
/// last row the screen scrolls up one row and the cursor goes to the start
/// of the last row.
pub proof fn law_text_written(s: ScreenModel, ch: char, rest: Seq<u8>)
    requires
        s.wf(),
        s.cols >= 1,
        s.rows >= 1,
        is_printable(ch),
    ensures
        ({
            let g = s.grid.update(s.cursor_y as int, s.grid[s.cursor_y as int].update(s.cursor_x as int, ch));
            s.process(encode_utf8(seq![ch]) + rest) == if s.cursor_x + 1 < s.cols {
                (ScreenModel { grid: g, cursor_x: (s.cursor_x + 1) as u16, ..s }).process(rest)
            } else if s.cursor_y + 1 < s.rows {
                (ScreenModel { grid: g, cursor_x: 0, cursor_y: (s.cursor_y + 1) as u16, ..s }).process(rest)
            } else {
                (ScreenModel {
                    grid: g.drop_first().push(Seq::new(s.cols as nat, |c: int| ' ')),
                    cursor_x: 0,
                    cursor_y: (s.rows - 1) as u16,
                    ..s
                }).process(rest)
            }
        }),
{
    law_printable_written(s, ch, rest);
    assert(crate::screen::blank_row(s.cols as nat) =~= Seq::new(s.cols as nat, |c: int| ' '));
}

/// Resizing to `cols × rows` keeps every cell that lies on both screens,
/// blanks the new ones, and pulls the cursor onto the new screen (to its
/// last column or row when it lay beyond); the waiting bytes stay.
pub proof fn law_resize(s: ScreenModel, cols: u16, rows: u16)
    requires
        s.wf(),
    ensures
        ({
            let t = s.resized(cols, rows);
            &&& t.wf()
            &&& t.cols == cols
            &&& t.rows == rows
            &&& t.pending == s.pending
            &&& forall|r: int, c: int|
                0 <= r < rows && 0 <= c < cols ==> #[trigger] t.grid[r][c] == if r < s.rows && c < s.cols {
                    s.grid[r][c]
                } else {
                    ' '
                }
            &&& t.cursor_x == if cols == 0 { 0 } else if s.cursor_x < cols { s.cursor_x } else { (cols - 1) as u16 }
            &&& t.cursor_y == if rows == 0 { 0 } else if s.cursor_y < rows { s.cursor_y } else { (rows - 1) as u16 }
        }),
{
}

} // verus!
