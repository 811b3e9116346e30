//! Laws of the screen model: how it reads the sequences that the terminal
//! module writes, and what the bugs leave behind.

use vstd::prelude::*;
use vstd::utf8::*;

use crate::screen::{
    blank_grid, csi_position, cut_off, is_ascii_digit, lead_width, lemma_escape_len, lemma_first_scalar, min_u16,
    scan_csi, CsiScan, ScreenModel,
};
use crate::terminal::{cursor_to, decimal, draw_bytes, one_based, restore_bytes};

verus! {

/// A character that shows as itself: no control code.
pub open spec fn is_printable(c: char) -> bool {
    0x20 <= (c as u32) && (c as u32) != 0x7f
}

/// Every cell of the screen holds a printable character.
pub open spec fn all_printable(s: ScreenModel) -> bool {
    forall|r: int, c: int|
        0 <= r < s.grid.len() && 0 <= c < s.grid[r].len() ==> is_printable(#[trigger] s.grid[r][c])
}

/// The digits of a decimal number are ASCII digits, and there is at least one.
pub proof fn lemma_decimal_digits(n: nat)
    ensures
        decimal(n).len() >= 1,
        forall|k: int| 0 <= k < decimal(n).len() ==> is_ascii_digit(#[trigger] decimal(n)[k]),
    decreases n,
{
    if n >= 10 {
        lemma_decimal_digits(n / 10);
    }
}

/// Ten times a small number does not wrap around.
pub proof fn lemma_i32_times_ten(x: i32)
    requires
        0 <= x <= 100_000_000,
    ensures
        x.wrapping_mul(10) == x * 10,
{
    vstd::arithmetic::div_mod::lemma_small_mod((x * 10) as nat, 0x1_0000_0000nat);
}

/// Reading the digits of `n` (at most 16 bits) as a CSI parameter yields `n`.
pub proof fn lemma_scan_decimal(d: Seq<u8>, i: int, params: Seq<i32>, n: nat)
    requires
        0 <= i,
        n <= 0xffff,
        i + decimal(n).len() <= d.len(),
        forall|k: int| 0 <= k < decimal(n).len() ==> d[i + k] == #[trigger] decimal(n)[k],
    ensures
        scan_csi(d, i, params, 0) == scan_csi(d, i + decimal(n).len(), params, n as i32),
    decreases n,
{
    lemma_decimal_digits(n);
    if n < 10 {
        assert(d[i] == decimal(n)[0]);
        lemma_i32_times_ten(0);
    } else {
        let m = n / 10;
        let lm = decimal(m).len() as int;
        assert(decimal(n) == decimal(m).push((0x30 + n % 10) as u8));
        assert forall|k: int| 0 <= k < decimal(m).len() implies d[i + k] == #[trigger] decimal(m)[k] by {
            assert(decimal(n)[k] == decimal(m)[k]);
        }
        lemma_scan_decimal(d, i, params, m);
        assert(d[i + lm] == decimal(n)[lm]);
        lemma_i32_times_ten(m as i32);
        assert(scan_csi(d, i + lm, params, m as i32) == scan_csi(d, i + lm + 1, params, n as i32));
    }
}

/// `ESC [ row ; col H` moves the cursor to the 1-based `row` and `col`,
/// kept on the screen.
pub proof fn law_cursor_position(s: ScreenModel, row: u16, col: u16, rest: Seq<u8>)
    requires
        s.wf(),
        s.cols >= 1,
        s.rows >= 1,
        row >= 1,
        col >= 1,
    ensures
        s.process(cursor_to(row, col) + rest) == s.with_cursor(
            min_u16((col - 1) as u16, (s.cols - 1) as u16),
            min_u16((row - 1) as u16, (s.rows - 1) as u16),
        ).process(rest),
{
    let dr = decimal(row as nat);
    let dc = decimal(col as nat);
    lemma_decimal_digits(row as nat);
    lemma_decimal_digits(col as nat);
    let lr = dr.len() as int;
    let lc = dc.len() as int;
    let seq_len = 4 + lr + lc;
    let d = cursor_to(row, col) + rest;
    assert(cursor_to(row, col).len() == seq_len);
    assert forall|k: int| 0 <= k < lr implies d[2 + k] == #[trigger] dr[k] by {
        assert(d[2 + k] == cursor_to(row, col)[2 + k]);
    }
    assert forall|k: int| 0 <= k < lc implies d[3 + lr + k] == #[trigger] dc[k] by {
        assert(d[3 + lr + k] == cursor_to(row, col)[3 + lr + k]);
    }
    assert(d[0] == 0x1b);
    assert(d[1] == 0x5b);
    assert(d[2 + lr] == 0x3b);
    assert(d[3 + lr + lc] == 0x48);
    lemma_scan_decimal(d, 2, seq![], row as nat);
    assert(scan_csi(d, 2 + lr, seq![], row as i32) == scan_csi(d, 3 + lr, seq![row as i32], 0));
    lemma_scan_decimal(d, 3 + lr, seq![row as i32], col as nat);
    let params = seq![row as i32].push(col as i32);
    assert(scan_csi(d, 3 + lr + lc, seq![row as i32], col as i32) == (CsiScan::Command {
        final_byte: 0x48,
        params,
        len: seq_len,
    }));
    assert(csi_position(row as i32) == (row - 1) as u16);
    assert(csi_position(col as i32) == (col - 1) as u16);
    assert(s.escape_effect(d) == Some((s.apply_csi(0x48, params), seq_len)));
    assert(d.skip(seq_len) =~= rest);
}

/// Bytes below 0x80 are valid UTF-8.
pub proof fn lemma_ascii_valid_utf8(bytes: Seq<u8>)
    requires
        forall|k: int| 0 <= k < bytes.len() ==> #[trigger] bytes[k] < 0x80,
    ensures
        valid_utf8(bytes),
{
    assert(bytes.subrange(0, 0) =~= Seq::<u8>::empty());
    assert(valid_utf8(Seq::<u8>::empty()));
    assert forall|k: int| 0 <= 0 <= k < bytes.len() <= bytes.len() implies #[trigger] is_leading_byte_width_1(bytes[k]) by {
    }
    partial_valid_utf8_extend_ascii_block(bytes, 0, bytes.len() as int);
    assert(bytes.subrange(0, bytes.len() as int) =~= bytes);
}

/// A cursor movement is valid UTF-8.
pub proof fn lemma_cursor_to_valid_utf8(row: u16, col: u16)
    ensures
        valid_utf8(cursor_to(row, col)),
{
    lemma_decimal_digits(row as nat);
    lemma_decimal_digits(col as nat);
    let b = cursor_to(row, col);
    let lr = decimal(row as nat).len() as int;
    let lc = decimal(col as nat).len() as int;
    assert forall|k: int| 0 <= k < b.len() implies #[trigger] b[k] < 0x80 by {
        if 2 <= k < 2 + lr {
            assert(b[k] == decimal(row as nat)[k - 2]);
        } else if 3 + lr <= k < 3 + lr + lc {
            assert(b[k] == decimal(col as nat)[k - 3 - lr]);
        }
    }
    lemma_ascii_valid_utf8(b);
}

/// The first character of `encode_utf8([ch]) + rest` is `ch`, however `rest` goes on.
proof fn lemma_first_scalar_of_encoding(ch: char, rest: Seq<u8>)
    ensures
        ({
            let e = encode_utf8(seq![ch]);
            let d = e + rest;
            &&& valid_first_scalar(d)
            &&& decode_first_scalar(d) == ch as u32
            &&& length_of_first_scalar(d) == e.len()
            &&& 1 <= e.len() <= 4
        }),
{
    let e = encode_utf8(seq![ch]);
    let d = e + rest;
    encode_utf8_first_scalar(seq![ch]);
    char_is_scalar(ch);
    assert(seq![ch].drop_first() =~= Seq::<char>::empty());
    assert(e == encode_scalar(ch as u32) + encode_utf8(Seq::<char>::empty()));
    assert(e =~= encode_scalar(ch as u32));
    assert forall|k: int| 0 <= k < e.len() implies d[k] == #[trigger] e[k] by {}
}

/// A printable character written to the terminal lands at the cursor, which
/// moves on, as `put_char` says, whatever bytes follow it.
pub proof fn law_printable_written(s: ScreenModel, ch: char, rest: Seq<u8>)
    requires
        is_printable(ch),
    ensures
        s.process(encode_utf8(seq![ch]) + rest) == s.put_char(ch).process(rest),
{
    let e = encode_utf8(seq![ch]);
    let d = e + rest;
    lemma_first_scalar_of_encoding(ch, rest);
    let v = ch as u32;
    assert(e =~= encode_scalar(v)) by {
        assert(seq![ch].drop_first() =~= Seq::<char>::empty());
        assert(e == encode_scalar(v) + encode_utf8(Seq::<char>::empty()));
    }
    if v < 0x80 {
        assert(e.len() == 1);
        assert(d[0] == e[0]);
        assert(d[0] == (v & 0x7f) as u8);
        assert((v & 0x7f) == v) by (bit_vector)
            requires
                v < 0x80,
        ;
        assert((d[0] as char) == ch) by {
            char_u32_cast(ch, v);
        }
        assert(d.skip(1) =~= rest);
    } else {
        assert(d[0] == e[0]);
        assert(d[0] >= 0x80);
        char_u32_cast(ch, v);
        assert(d.skip(e.len() as int) =~= rest);
    }
}

/// `ESC [ params m` (a color or style setting) leaves the screen as it was.
pub proof fn law_style_ignored(s: ScreenModel, params: Seq<u8>, rest: Seq<u8>)
    requires
        forall|k: int| 0 <= k < params.len() ==> is_ascii_digit(#[trigger] params[k]) || params[k] == 0x3b,
    ensures
        s.process(seq![0x1bu8, 0x5bu8] + params + seq![0x6du8] + rest) == s.process(rest),
{
    let head = seq![0x1bu8, 0x5bu8] + params + seq![0x6du8];
    let d = head + rest;
    let n = head.len() as int;
    assert forall|k: int| 2 <= k < 2 + params.len() implies is_ascii_digit(#[trigger] d[k]) || d[k] == 0x3b by {
        assert(d[k] == params[k - 2]);
    }
    let j = 2 + params.len() as int;
    assert(d[j] == 0x6d);
    lemma_scan_params(d, 2, j, seq![], 0);
    lemma_escape_len_of_style(s, d, j);
    assert(d.skip(n) =~= rest);
}

/// Scanning CSI parameter bytes (digits and `;`) from `i` to `j` only
/// changes the parameters read so far.
proof fn lemma_scan_params(d: Seq<u8>, i: int, j: int, params: Seq<i32>, current: i32)
    requires
        0 <= i <= j <= d.len(),
        forall|k: int| i <= k < j ==> is_ascii_digit(#[trigger] d[k]) || d[k] == 0x3b,
    ensures
        exists|p: Seq<i32>, c: i32| scan_csi(d, i, params, current) == scan_csi(d, j, p, c),
    decreases j - i,
{
    if i == j {
        assert(scan_csi(d, i, params, current) == scan_csi(d, j, params, current));
    } else {
        let b = d[i];
        if is_ascii_digit(b) {
            let c2 = current.wrapping_mul(10).wrapping_add((b - 0x30) as i32);
            lemma_scan_params(d, i + 1, j, params, c2);
        } else {
            lemma_scan_params(d, i + 1, j, params.push(current), 0);
        }
    }
}

/// An escape sequence that reaches a final `m` at index `j` spans `j + 1`
/// bytes and has no effect.
proof fn lemma_escape_len_of_style(s: ScreenModel, d: Seq<u8>, j: int)
    requires
        2 <= j < d.len(),
        d[0] == 0x1b,
        d[1] == 0x5b,
        d[j] == 0x6d,
        exists|p: Seq<i32>, c: i32| scan_csi(d, 2, seq![], 0) == scan_csi(d, j, p, c),
    ensures
        s.step(d) == (s, j + 1),
{
    let (p, c) = choose|p: Seq<i32>, c: i32| scan_csi(d, 2, seq![], 0) == scan_csi(d, j, p, c);
    assert(scan_csi(d, j, p, c) == (CsiScan::Command { final_byte: 0x6d, params: p.push(c), len: j + 1 }));
}

/// `ESC [ 2 J` blanks the whole screen and leaves the cursor where it is.
pub proof fn law_clear_screen(s: ScreenModel, rest: Seq<u8>)
    ensures
        s.process(seq![0x1bu8, 0x5bu8, 0x32u8, 0x4au8] + rest) == (ScreenModel {
            grid: blank_grid(s.cols as nat, s.rows as nat),
            ..s
        }).process(rest),
{
    let d = seq![0x1bu8, 0x5bu8, 0x32u8, 0x4au8] + rest;
    assert(d[0] == 0x1b && d[1] == 0x5b && d[2] == 0x32 && d[3] == 0x4a);
    lemma_i32_times_ten(0);
    assert(scan_csi(d, 2, seq![], 0) == scan_csi(d, 3, seq![], 2));
    assert(scan_csi(d, 3, seq![], 2) == (CsiScan::Command { final_byte: 0x4a, params: seq![2i32], len: 4 }));
    assert(d.skip(4) =~= rest);
}

/// The terminal `t` after `left` was written at `(x, y)` and `right` at
/// `(x + 1, y)`, each after a cursor move there.
pub open spec fn written_pair(t: ScreenModel, x: u16, y: u16, left: char, right: char) -> ScreenModel {
    t.with_cursor(x, y).put_char(left).with_cursor((x + 1) as u16, y).put_char(right)
}

/// The bytes that write `left` at `(x, y)` and `right` at `(x + 1, y)`
/// (printable characters, the right cell not in the bottom-right corner)
/// write exactly these two cells: the rest of the screen and its size stay.
pub proof fn law_pair_written(t: ScreenModel, x: u16, y: u16, left: char, right: char, rest: Seq<u8>)
    requires
        t.wf(),
        t.cols >= 1,
        t.rows >= 1,
        x + 1 < t.cols,
        y < t.rows,
        x + 2 < t.cols || y + 1 < t.rows,
        is_printable(left),
        is_printable(right),
    ensures
        t.process(restore_bytes(x, y, left, right) + rest) == written_pair(t, x, y, left, right).process(rest),
        written_pair(t, x, y, left, right).wf(),
        written_pair(t, x, y, left, right).cols == t.cols,
        written_pair(t, x, y, left, right).rows == t.rows,
        written_pair(t, x, y, left, right).grid == t.grid.update(
            y as int,
            t.grid[y as int].update(x as int, left).update(x + 1, right),
        ),
{
    let x1 = x.wrapping_add(1);
    assert(x1 == x + 1);
    let row = one_based(y);
    assert(row == y + 1);
    let cup1 = cursor_to(row, one_based(x));
    let cup2 = cursor_to(row, one_based(x1));
    let el = encode_utf8(seq![left]);
    let er = encode_utf8(seq![right]);
    let r4 = er + rest;
    let r3 = cup2 + r4;
    let r2 = el + r3;
    let all = cup1 + r2;
    assert(restore_bytes(x, y, left, right) + rest =~= all) by {
        assert(draw_bytes(x, y, seq![left]) == cup1 + el);
        assert(draw_bytes(x1, y, seq![right]) == cup2 + er);
    }
    law_cursor_position(t, row, one_based(x), r2);
    let t1 = t.with_cursor(x, y);
    assert(t.with_cursor(
        min_u16((one_based(x) - 1) as u16, (t.cols - 1) as u16),
        min_u16((row - 1) as u16, (t.rows - 1) as u16),
    ) == t1);
    law_printable_written(t1, left, r3);
    let t2 = t1.put_char(left);
    assert(t2.wf());
    law_cursor_position(t2, row, one_based(x1), r4);
    let t3 = t2.with_cursor(x1, y);
    assert(t2.with_cursor(
        min_u16((one_based(x1) - 1) as u16, (t2.cols - 1) as u16),
        min_u16((row - 1) as u16, (t2.rows - 1) as u16),
    ) == t3);
    law_printable_written(t3, right, rest);
    let t4 = t3.put_char(right);
    assert(t4 == written_pair(t, x, y, left, right));
    assert(t4.grid =~= t.grid.update(y as int, t.grid[y as int].update(x as int, left).update(x + 1, right)));
}

/// Giving back the cells `(x, y)` and `(x + 1, y)` of a terminal `t` that
/// shows what the screen buffer `s` holds everywhere else, then moving the
/// cursor to where `s` has it, leaves `t` showing exactly `s`, cursor
/// included (`t` waiting on the same cut-off bytes as `s`). The right cell must not be the bottom-right corner (writing
/// there scrolls the screen) and the two characters must be printable.
pub proof fn law_restore_brings_back(t: ScreenModel, s: ScreenModel, x: u16, y: u16)
    requires
        s.wf(),
        t.wf(),
        s.cols >= 1,
        s.rows >= 1,
        t.cols == s.cols,
        t.rows == s.rows,
        t.pending == s.pending,
        x + 1 < s.cols,
        y < s.rows,
        x + 2 < s.cols || y + 1 < s.rows,
        is_printable(s.char_at(x, y)),
        is_printable(s.char_at((x + 1) as u16, y)),
        forall|r: int, c: int|
            0 <= r < s.rows && 0 <= c < s.cols && !(r == y && (c == x || c == x + 1)) ==> #[trigger] t.grid[r][c]
                == s.grid[r][c],
    ensures
        t.process(
            restore_bytes(x, y, s.char_at(x, y), s.char_at(x.wrapping_add(1), y)) + cursor_to(
                one_based(s.cursor_y),
                one_based(s.cursor_x),
            ),
        ) == s,
{
    let l = s.char_at(x, y);
    let r = s.char_at(x.wrapping_add(1), y);
    let home = cursor_to(one_based(s.cursor_y), one_based(s.cursor_x));
    lemma_cursor_to_valid_utf8(one_based(s.cursor_y), one_based(s.cursor_x));
    law_pair_written(t, x, y, l, r, home);
    let t4 = written_pair(t, x, y, l, r);
    assert(one_based(s.cursor_y) == s.cursor_y + 1);
    assert(one_based(s.cursor_x) == s.cursor_x + 1);
    law_cursor_position(t4, one_based(s.cursor_y), one_based(s.cursor_x), seq![]);
    assert(home + seq![] =~= home);
    let t5 = t4.with_cursor(s.cursor_x, s.cursor_y);
    assert(t4.with_cursor(
        min_u16((one_based(s.cursor_x) - 1) as u16, (t4.cols - 1) as u16),
        min_u16((one_based(s.cursor_y) - 1) as u16, (t4.rows - 1) as u16),
    ) == t5);
    assert(t5.process(seq![]) == t5);
    assert forall|rr: int| 0 <= rr < s.rows implies #[trigger] t5.grid[rr] =~= s.grid[rr] by {
        assert(s.grid[rr].len() == s.cols);
        assert(t.grid[rr].len() == s.cols);
    }
    assert(t5.grid =~= s.grid);
}

/// A blank screen is printable everywhere.
pub proof fn law_blank_printable(s: ScreenModel)
    ensures
        all_printable((ScreenModel { grid: blank_grid(s.cols as nat, s.rows as nat), ..s })),
{
}

/// Resizing keeps every cell printable.
pub proof fn law_resize_keeps_printable(s: ScreenModel, cols: u16, rows: u16)
    requires
        s.wf(),
        all_printable(s),
    ensures
        s.resized(cols, rows).wf(),
        all_printable(s.resized(cols, rows)),
{
}

/// Interpreting a complete byte string leaves the cut-off bytes waiting
/// from before as they were.
pub proof fn lemma_process_keeps_pending(s: ScreenModel, d: Seq<u8>)
    ensures
        s.process(d).pending == s.pending,
    decreases d.len(),
{
    if d.len() > 0 {
        let (next, n) = s.step(d);
        assert(next.pending == s.pending);
        if 0 < n <= d.len() {
            lemma_process_keeps_pending(next, d.skip(n));
        }
    }
}

/// The character decoded from a non-ASCII UTF-8 encoding is printable.
proof fn lemma_decoded_printable(d: Seq<u8>)
    requires
        d.len() > 0,
        d[0] >= 0x80,
        valid_first_scalar(d),
    ensures
        is_printable(decode_first_scalar(d) as char),
{
    let v = decode_first_scalar(d);
    assert(v >= 0x80);
    if is_leading_byte_width_2(d[0]) {
        let (b1, b2) = (d[0], d[1]);
        assert(codepoint_width_2(b1, b2) <= 0x7ff) by (bit_vector);
    } else if is_leading_byte_width_3(d[0]) {
        let (b1, b2, b3) = (d[0], d[1], d[2]);
        assert(codepoint_width_3(b1, b2, b3) <= 0xffff) by (bit_vector);
    }
    assert(is_scalar(v));
    assert((v as char) as u32 == v);
}

/// One step of interpretation keeps the screen well formed, of the same
/// size, and printable everywhere.
proof fn lemma_step_keeps(s: ScreenModel, d: Seq<u8>)
    requires
        s.wf(),
        s.cols >= 1,
        s.rows >= 1,
        all_printable(s),
        d.len() > 0,
    ensures
        s.step(d).0.wf(),
        s.step(d).0.cols == s.cols,
        s.step(d).0.rows == s.rows,
        all_printable(s.step(d).0),
{
    let b = d[0];
    let next = s.step(d).0;
    if b >= 0x80 && valid_first_scalar(d) && b != 0x1b {
        lemma_decoded_printable(d);
    }
    assert(next.wf());
    assert(all_printable(next));
}

/// Whatever the shell writes, the screen stays well formed, keeps its size,
/// and every cell keeps holding a printable character.
pub proof fn law_process_keeps_printable(s: ScreenModel, d: Seq<u8>)
    requires
        s.wf(),
        s.cols >= 1,
        s.rows >= 1,
        all_printable(s),
    ensures
        s.process(d).wf(),
        s.process(d).cols == s.cols,
        s.process(d).rows == s.rows,
        all_printable(s.process(d)),
    decreases d.len(),
{
    if d.len() > 0 {
        lemma_step_keeps(s, d);
        let (next, n) = s.step(d);
        if 0 < n <= d.len() {
            law_process_keeps_printable(next, d.skip(n));
        }
    }
}

/// A CSI scan that ends inside `d` ends the same way, whatever follows `d`.
proof fn lemma_scan_extends(d: Seq<u8>, e: Seq<u8>, i: int, params: Seq<i32>, current: i32)
    requires
        0 <= i,
        !(scan_csi(d, i, params, current) is Incomplete),
    ensures
        scan_csi(d + e, i, params, current) == scan_csi(d, i, params, current),
    decreases d.len() - i,
{
    let b = d[i];
    assert((d + e)[i] == b);
    if is_ascii_digit(b) {
        lemma_scan_extends(d, e, i + 1, params, current.wrapping_mul(10).wrapping_add((b - 0x30) as i32));
    } else if b == 0x3b {
        lemma_scan_extends(d, e, i + 1, params.push(current), 0);
    } else if b == 0x3f {
        lemma_scan_extends(d, e, i + 1, params.push(-1i32), current);
    }
}

/// A step whose head `d` does not cut off does the same, and spans the
/// same bytes of `d`, whatever follows `d`.
proof fn lemma_step_extends(s: ScreenModel, d: Seq<u8>, e: Seq<u8>)
    requires
        d.len() > 0,
        !cut_off(d),
    ensures
        !cut_off(d + e),
        s.step(d + e) == s.step(d),
        0 < s.step(d).1 <= d.len(),
{
    let de = d + e;
    assert forall|k: int| 0 <= k < d.len() implies #[trigger] de[k] == d[k] by {}
    lemma_escape_len(s, d);
    let b = d[0];
    if b == 0x1b {
        if d[1] == 0x5b {
            lemma_scan_extends(d, e, 2, seq![], 0);
        }
        assert(s.escape_effect(de) == s.escape_effect(d));
    } else if b >= 0x80 && !(0x20 <= b < 0x7f) {
        let w = lead_width(b);
        lemma_first_scalar(d, w);
        lemma_first_scalar(de, w);
        assert(de.take(w) =~= d.take(w));
    }
}

/// Reading `d` then `e` as one piece is reading `d`, then the tail that
/// `d` cut off followed by `e`.
proof fn lemma_consume_concat(s: ScreenModel, d: Seq<u8>, e: Seq<u8>)
    ensures
        s.consume(d + e) == ({
            let (s1, rest) = s.consume(d);
            s1.consume(rest + e)
        }),
    decreases d.len(),
{
    if d.len() == 0 {
        assert(d + e =~= e);
        assert(Seq::<u8>::empty() + e =~= e);
    } else if cut_off(d) {
    } else {
        lemma_step_extends(s, d, e);
        let (next, n) = s.step(d);
        assert((d + e).skip(n) =~= d.skip(n) + e);
        lemma_consume_concat(next, d.skip(n), e);
    }
}

/// Reading leaves the cut-off bytes field of the screen as it was.
proof fn lemma_consume_keeps_pending(s: ScreenModel, d: Seq<u8>)
    ensures
        s.consume(d).0.pending == s.pending,
    decreases d.len(),
{
    if d.len() > 0 && !cut_off(d) {
        let (next, n) = s.step(d);
        assert(next.pending == s.pending);
        if 0 < n <= d.len() {
            lemma_consume_keeps_pending(next, d.skip(n));
        }
    }
}

/// How the shell's output is cut into writes does not change the screen:
/// feeding `a` and then `b` gives what feeding `a + b` at once gives, cut-off
/// bytes included.
pub proof fn law_output_split(s: ScreenModel, a: Seq<u8>, b: Seq<u8>)
    ensures
        s.fed(a).fed(b) == s.fed(a + b),
{
    let s0 = s.without_pending();
    let (s1, r1) = s0.consume(s.pending + a);
    lemma_consume_keeps_pending(s0, s.pending + a);
    lemma_consume_concat(s0, s.pending + a, b);
    assert(s.pending + (a + b) =~= (s.pending + a) + b);
    let f1 = s.fed(a);
    assert(f1.without_pending() == s1);
}

/// Reading without a cut-off tail is interpreting the bytes as a whole.
proof fn lemma_consume_whole(s: ScreenModel, d: Seq<u8>)
    ensures
        s.consume(d).1.len() == 0 ==> s.consume(d).0 == s.process(d),
    decreases d.len(),
{
    if d.len() > 0 && !cut_off(d) {
        let (next, n) = s.step(d);
        if 0 < n <= d.len() {
            lemma_consume_whole(next, d.skip(n));
        }
    }
}

/// When no bytes were waiting and the write cuts nothing off, feeding it is
/// interpreting it as a whole: what `process` says, and every law about
/// `process`, holds of the buffer.
pub proof fn law_fed_whole(s: ScreenModel, d: Seq<u8>)
    requires
        s.pending.len() == 0,
    ensures
        s.fed(d).pending.len() == 0 ==> s.fed(d) == s.process(d),
{
    assert(s.pending =~= Seq::<u8>::empty());
    assert(s.without_pending() == s);
    assert(s.pending + d =~= d);
    lemma_consume_whole(s, d);
    lemma_process_keeps_pending(s, d);
    let (t, rest) = s.consume(d);
    if rest.len() == 0 {
        assert(rest =~= s.process(d).pending);
    }
}

} // verus!
