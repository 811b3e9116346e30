//! Laws of the screen model for the CSI sequences that move the cursor and
//! erase: each states the cursor and the cells that the sequence leaves, in
//! terms of the screen before it and the sequence's number.

use vstd::prelude::*;

use crate::screen::{is_ascii_letter, scan_csi, CsiScan, ScreenModel};
use crate::screen_laws::{lemma_decimal_digits, lemma_i32_times_ten, lemma_scan_decimal};
use crate::terminal::decimal;

verus! {

/// `ESC [ n f`: a CSI sequence with the number `n` and the final letter `f`.
pub open spec fn csi_bytes(n: u16, f: u8) -> Seq<u8> {
    seq![0x1bu8, 0x5bu8] + decimal(n as nat) + seq![f]
}

/// `ESC [ n f` does what the CSI command `f` with parameter `n` does.
proof fn lemma_csi_one(s: ScreenModel, n: u16, f: u8, rest: Seq<u8>)
    requires
        is_ascii_letter(f),
    ensures
        s.process(csi_bytes(n, f) + rest) == s.apply_csi(f, seq![n as i32]).process(rest),
{
    let dn = decimal(n as nat);
    lemma_decimal_digits(n as nat);
    let l = dn.len() as int;
    let d = csi_bytes(n, f) + rest;
    assert forall|k: int| 0 <= k < l implies d[2 + k] == #[trigger] dn[k] by {
        assert(d[2 + k] == csi_bytes(n, f)[2 + k]);
    }
    assert(d[0] == 0x1b);
    assert(d[1] == 0x5b);
    assert(d[2 + l] == f);
    lemma_scan_decimal(d, 2, seq![], n as nat);
    assert(scan_csi(d, 2 + l, seq![], n as i32) == (CsiScan::Command {
        final_byte: f,
        params: seq![n as i32],
        len: 3 + l,
    }));
    assert(d.skip(3 + l) =~= rest);
}

/// A CSI sequence without a number acts as with the number 0.
pub proof fn law_csi_default_number(s: ScreenModel, f: u8, rest: Seq<u8>)
    requires
        is_ascii_letter(f),
    ensures
        s.process(seq![0x1bu8, 0x5bu8, f] + rest) == s.process(csi_bytes(0, f) + rest),
{
    let d = seq![0x1bu8, 0x5bu8, f] + rest;
    assert(d[0] == 0x1b && d[1] == 0x5b && d[2] == f);
    assert(scan_csi(d, 2, seq![], 0) == (CsiScan::Command { final_byte: f, params: seq![0i32], len: 3 }));
    assert(d.skip(3) =~= rest);
    lemma_csi_one(s, 0, f, rest);
}

/// The count of a cursor move: the number, or 1 for 0.
pub open spec fn move_count(n: u16) -> int {
    if n > 1 { n as int } else { 1 }
}

/// `ESC [ n A` moves the cursor `n` rows up (at least one), not past the
/// top row; `ESC [ n B` `n` rows down, not past the last row; `ESC [ n C`
/// `n` columns right, not past the last column; `ESC [ n D` `n` columns
/// left, not past column 0. No cell changes. (A move down or right past
/// column or row 65535 wraps around as in release builds.)
pub proof fn law_cursor_moves(s: ScreenModel, n: u16, rest: Seq<u8>)
    requires
        s.cols >= 1,
        s.rows >= 1,
    ensures
        s.process(csi_bytes(n, 0x41) + rest) == (ScreenModel {
            cursor_y: if s.cursor_y >= move_count(n) { (s.cursor_y - move_count(n)) as u16 } else { 0 },
            ..s
        }).process(rest),
        s.cursor_y + move_count(n) <= 0xffff ==> s.process(csi_bytes(n, 0x42) + rest) == (ScreenModel {
            cursor_y: if s.cursor_y + move_count(n) < s.rows - 1 {
                (s.cursor_y + move_count(n)) as u16
            } else {
                (s.rows - 1) as u16
            },
            ..s
        }).process(rest),
        s.cursor_x + move_count(n) <= 0xffff ==> s.process(csi_bytes(n, 0x43) + rest) == (ScreenModel {
            cursor_x: if s.cursor_x + move_count(n) < s.cols - 1 {
                (s.cursor_x + move_count(n)) as u16
            } else {
                (s.cols - 1) as u16
            },
            ..s
        }).process(rest),
        s.process(csi_bytes(n, 0x44) + rest) == (ScreenModel {
            cursor_x: if s.cursor_x >= move_count(n) { (s.cursor_x - move_count(n)) as u16 } else { 0 },
            ..s
        }).process(rest),
{
    lemma_csi_one(s, n, 0x41, rest);
    lemma_csi_one(s, n, 0x42, rest);
    lemma_csi_one(s, n, 0x43, rest);
    lemma_csi_one(s, n, 0x44, rest);
}

/// `ESC [ n K` erases in the cursor's row: from the cursor to the end of the
/// row (`n` = 0), from the start of the row to the cursor (`n` = 1), or the
/// whole row (`n` = 2); every other cell and the cursor stay. Other numbers
/// change nothing.
pub proof fn law_erase_line(s: ScreenModel, n: u16, rest: Seq<u8>)
    requires
        s.wf(),
    ensures
        s.process(csi_bytes(n, 0x4b) + rest) == (ScreenModel {
            grid: Seq::new(
                s.rows as nat,
                |r: int|
                    Seq::new(
                        s.cols as nat,
                        |c: int|
                            if r == s.cursor_y && ((n == 0 && c >= s.cursor_x) || (n == 1 && c <= s.cursor_x) || n
                                == 2) {
                                ' '
                            } else {
                                s.grid[r][c]
                            },
                    ),
            ),
            ..s
        }).process(rest),
{
    lemma_csi_one(s, n, 0x4b, rest);
    let after = s.apply_csi(0x4b, seq![n as i32]);
    let target = ScreenModel {
        grid: Seq::new(
            s.rows as nat,
            |r: int|
                Seq::new(
                    s.cols as nat,
                    |c: int|
                        if r == s.cursor_y && ((n == 0 && c >= s.cursor_x) || (n == 1 && c <= s.cursor_x) || n == 2) {
                            ' '
                        } else {
                            s.grid[r][c]
                        },
                ),
        ),
        ..s
    };
    assert forall|r: int| 0 <= r < s.rows implies #[trigger] after.grid[r] =~= target.grid[r] by {
        assert(s.grid[r].len() == s.cols);
    }
    assert(after.grid =~= target.grid);
    assert(after == target);
}

/// `ESC [ n J` erases in reading order: from the cursor to the end of the
/// screen (`n` = 0), from the start of the screen to the cursor (`n` = 1),
/// or the whole screen (`n` = 2); every other cell and the cursor stay.
/// Other numbers change nothing.
pub proof fn law_erase_display(s: ScreenModel, n: u16, rest: Seq<u8>)
    requires
        s.wf(),
    ensures
        s.process(csi_bytes(n, 0x4a) + rest) == (ScreenModel {
            grid: Seq::new(
                s.rows as nat,
                |r: int|
                    Seq::new(
                        s.cols as nat,
                        |c: int|
                            if (n == 0 && (r > s.cursor_y || (r == s.cursor_y && c >= s.cursor_x))) || (n == 1 && (r
                                < s.cursor_y || (r == s.cursor_y && c <= s.cursor_x))) || n == 2 {
                                ' '
                            } else {
                                s.grid[r][c]
                            },
                    ),
            ),
            ..s
        }).process(rest),
{
    lemma_csi_one(s, n, 0x4a, rest);
    let after = s.apply_csi(0x4a, seq![n as i32]);
    let target = ScreenModel {
        grid: Seq::new(
            s.rows as nat,
            |r: int|
                Seq::new(
                    s.cols as nat,
                    |c: int|
                        if (n == 0 && (r > s.cursor_y || (r == s.cursor_y && c >= s.cursor_x))) || (n == 1 && (r
                            < s.cursor_y || (r == s.cursor_y && c <= s.cursor_x))) || n == 2 {
                            ' '
                        } else {
                            s.grid[r][c]
                        },
                ),
        ),
        ..s
    };
    assert forall|r: int| 0 <= r < s.rows implies #[trigger] after.grid[r] =~= target.grid[r] by {
        assert(s.grid[r].len() == s.cols);
    }
    assert(after.grid =~= target.grid);
    assert(after == target);
}

} // verus!
