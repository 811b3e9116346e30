//! Screen buffer: tracks the character shown at every cell of the terminal by
//! interpreting the byte stream that the wrapped shell writes.

use vstd::prelude::*;
use vstd::utf8::*;
use vstd::string::StrSliceExecFns;

verus! {

/// One cell of the screen.
#[derive(Debug, Clone)]
pub struct Cell {
    pub ch: char,
}

impl Cell {
    pub fn new(ch: char) -> (cell: Cell)
        ensures
            cell.ch == ch,
    {
        Cell { ch }
    }
}

/// Mathematical picture of a screen: a grid of characters and a cursor,
/// and the bytes of an escape sequence or character that the last write cut
/// off, which wait for the bytes that complete them.
pub struct ScreenModel {
    pub grid: Seq<Seq<char>>,
    pub cursor_x: u16,
    pub cursor_y: u16,
    pub cols: u16,
    pub rows: u16,
    pub pending: Seq<u8>,
}

/// A row of `cols` blanks.
pub open spec fn blank_row(cols: nat) -> Seq<char> {
    Seq::new(cols, |_c: int| ' ')
}

/// A grid of `rows` rows of `cols` blanks.
pub open spec fn blank_grid(cols: nat, rows: nat) -> Seq<Seq<char>> {
    Seq::new(rows, |_r: int| blank_row(cols))
}

impl ScreenModel {
    /// The grid has `rows` rows of `cols` cells, and the cursor lies on the
    /// screen (or at 0 along a dimension of size 0).
    pub open spec fn wf(self) -> bool {
        &&& self.grid.len() == self.rows
        &&& forall|r: int| 0 <= r < self.rows ==> #[trigger] self.grid[r].len() == self.cols
        &&& (self.cursor_x < self.cols || self.cursor_x == 0)
        &&& (self.cursor_y < self.rows || self.cursor_y == 0)
    }

    /// The character at column `x` of row `y`, or a blank off the screen.
    pub open spec fn char_at(self, x: u16, y: u16) -> char {
        if x < self.cols && y < self.rows {
            self.grid[y as int][x as int]
        } else {
            ' '
        }
    }

    /// The screen with `cols` columns and `rows` rows: cells on both keep
    /// their character, new cells are blank, and the cursor is pulled onto
    /// the screen.
    pub open spec fn resized(self, cols: u16, rows: u16) -> ScreenModel {
        ScreenModel {
            grid: Seq::new(
                rows as nat,
                |r: int|
                    Seq::new(
                        cols as nat,
                        |c: int|
                            if r < self.rows && c < self.cols {
                                self.grid[r][c]
                            } else {
                                ' '
                            },
                    ),
            ),
            cursor_x: min_u16(self.cursor_x, cols.saturating_sub(1)),
            cursor_y: min_u16(self.cursor_y, rows.saturating_sub(1)),
            cols,
            rows,
            pending: self.pending,
        }
    }

    /// The same screen with the cursor at `(x, y)`.
    pub open spec fn with_cursor(self, x: u16, y: u16) -> ScreenModel {
        ScreenModel { cursor_x: x, cursor_y: y, ..self }
    }

    /// The top row leaves the screen and a blank row enters at the bottom.
    pub open spec fn scrolled_up(self) -> ScreenModel {
        ScreenModel { grid: self.grid.drop_first().push(blank_row(self.cols as nat)), ..self }
    }

    /// `\n`: the cursor moves one row down; below the last row the screen scrolls.
    pub open spec fn line_feed(self) -> ScreenModel {
        let y = self.cursor_y.saturating_add(1);
        if y >= self.rows {
            self.scrolled_up().with_cursor(self.cursor_x, (self.rows - 1) as u16)
        } else {
            self.with_cursor(self.cursor_x, y)
        }
    }

    /// `\r`: the cursor goes to column 0.
    pub open spec fn carriage_return(self) -> ScreenModel {
        self.with_cursor(0, self.cursor_y)
    }

    /// `\t`: the cursor moves to the next multiple of 8, at most to the last column.
    pub open spec fn tab(self) -> ScreenModel {
        let step = (8 - self.cursor_x % 8) as u16;
        let x = self.cursor_x.wrapping_add(step);
        let last = self.cols.saturating_sub(1);
        self.with_cursor(if x < last { x } else { last }, self.cursor_y)
    }

    /// Backspace: the cursor moves one column left, not past column 0.
    pub open spec fn backspace(self) -> ScreenModel {
        if self.cursor_x > 0 {
            self.with_cursor((self.cursor_x - 1) as u16, self.cursor_y)
        } else {
            self
        }
    }

    /// A printable character: written at the cursor, which then advances,
    /// wrapping to the next row and scrolling below the last row.
    pub open spec fn put_char(self, ch: char) -> ScreenModel {
        let written = if self.cursor_x < self.cols && self.cursor_y < self.rows {
            ScreenModel {
                grid: self.grid.update(
                    self.cursor_y as int,
                    self.grid[self.cursor_y as int].update(self.cursor_x as int, ch),
                ),
                ..self
            }
        } else {
            self
        };
        let x = self.cursor_x + 1;
        if x >= self.cols {
            let y = self.cursor_y + 1;
            if y >= self.rows {
                written.scrolled_up().with_cursor(0, (self.rows - 1) as u16)
            } else {
                written.with_cursor(0, y as u16)
            }
        } else {
            written.with_cursor(x as u16, self.cursor_y)
        }
    }

    /// Every cell in columns `x1..=x2` of rows `y1..=y2` becomes a blank.
    pub open spec fn cleared(self, x1: u16, y1: u16, x2: u16, y2: u16) -> ScreenModel {
        ScreenModel {
            grid: Seq::new(
                self.grid.len(),
                |r: int|
                    Seq::new(
                        self.grid[r].len(),
                        |c: int|
                            if y1 <= r <= y2 && x1 <= c <= x2 {
                                ' '
                            } else {
                                self.grid[r][c]
                            },
                    ),
            ),
            ..self
        }
    }

    /// Every cell from `(x, y)` to the end of the screen, in reading order,
    /// becomes a blank: the rest of row `y` from column `x` on, and every
    /// row below it.
    pub open spec fn erased_after(self, x: u16, y: u16) -> ScreenModel {
        ScreenModel {
            grid: Seq::new(
                self.grid.len(),
                |r: int|
                    Seq::new(
                        self.grid[r].len(),
                        |c: int|
                            if r > y || (r == y && c >= x) {
                                ' '
                            } else {
                                self.grid[r][c]
                            },
                    ),
            ),
            ..self
        }
    }

    /// Every cell from the start of the screen to `(x, y)`, in reading
    /// order, becomes a blank: every row above row `y`, and row `y` up to
    /// column `x`.
    pub open spec fn erased_before(self, x: u16, y: u16) -> ScreenModel {
        ScreenModel {
            grid: Seq::new(
                self.grid.len(),
                |r: int|
                    Seq::new(
                        self.grid[r].len(),
                        |c: int|
                            if r < y || (r == y && c <= x) {
                                ' '
                            } else {
                                self.grid[r][c]
                            },
                    ),
            ),
            ..self
        }
    }

    /// The effect of a CSI command with final byte `final_byte` and
    /// parameters `params`.
    pub open spec fn apply_csi(self, final_byte: u8, params: Seq<i32>) -> ScreenModel {
        let n: i32 = if params.len() > 0 { params[0] } else { 1 };
        let count = csi_count(n);
        let last_col = self.cols.saturating_sub(1);
        let last_row = self.rows.saturating_sub(1);
        if final_byte == 0x41 {
            // 'A': cursor up
            self.with_cursor(self.cursor_x, self.cursor_y.saturating_sub(count))
        } else if final_byte == 0x42 {
            // 'B': cursor down
            self.with_cursor(self.cursor_x, min_u16(self.cursor_y.wrapping_add(count), last_row))
        } else if final_byte == 0x43 {
            // 'C': cursor forward
            self.with_cursor(min_u16(self.cursor_x.wrapping_add(count), last_col), self.cursor_y)
        } else if final_byte == 0x44 {
            // 'D': cursor back
            self.with_cursor(self.cursor_x.saturating_sub(count), self.cursor_y)
        } else if final_byte == 0x48 || final_byte == 0x66 {
            // 'H' / 'f': cursor position (1-based row;col)
            if params.len() >= 2 {
                self.with_cursor(
                    min_u16(csi_position(params[1]), last_col),
                    min_u16(csi_position(params[0]), last_row),
                )
            } else if params.len() == 1 {
                self.with_cursor(0, min_u16(csi_position(params[0]), last_row))
            } else {
                self.with_cursor(0, 0)
            }
        } else if final_byte == 0x4a {
            // 'J': erase in display
            if n == 0 || n == -1 {
                self.erased_after(self.cursor_x, self.cursor_y)
            } else if n == 1 {
                self.erased_before(self.cursor_x, self.cursor_y)
            } else if n == 2 {
                ScreenModel { grid: blank_grid(self.cols as nat, self.rows as nat), ..self }
            } else {
                self
            }
        } else if final_byte == 0x4b {
            // 'K': erase in line
            if n == 0 || n == -1 {
                self.cleared(self.cursor_x, self.cursor_y, last_col, self.cursor_y)
            } else if n == 1 {
                self.cleared(0, self.cursor_y, self.cursor_x, self.cursor_y)
            } else if n == 2 {
                self.cleared(0, self.cursor_y, last_col, self.cursor_y)
            } else {
                self
            }
        } else {
            self
        }
    }

    /// What an escape sequence at the head of `d` (which starts with ESC)
    /// does: the new screen and the number of bytes it spans, or `None` when
    /// the sequence is cut off by the end of `d`.
    pub open spec fn escape_effect(self, d: Seq<u8>) -> Option<(ScreenModel, int)> {
        if d.len() < 2 {
            None
        } else if d[1] == 0x5b {
            match scan_csi(d, 2, seq![], 0) {
                CsiScan::Incomplete => None,
                CsiScan::Abandoned { len } => Some((self, len)),
                CsiScan::Command { final_byte, params, len } => Some(
                    (self.apply_csi(final_byte, params), len),
                ),
            }
        } else {
            Some((self, 2))
        }
    }

    /// One step of interpretation at the head of the nonempty byte string `d`:
    /// the new screen and the number of bytes consumed.
    pub open spec fn step(self, d: Seq<u8>) -> (ScreenModel, int) {
        let b = d[0];
        if b == 0x1b {
            match self.escape_effect(d) {
                Some(r) => r,
                None => (self, 1),
            }
        } else if b == 0x0a {
            (self.line_feed(), 1)
        } else if b == 0x0d {
            (self.carriage_return(), 1)
        } else if b == 0x09 {
            (self.tab(), 1)
        } else if b == 0x08 {
            (self.backspace(), 1)
        } else if 0x20 <= b < 0x7f {
            (self.put_char(b as char), 1)
        } else if b >= 0x80 && valid_first_scalar(d) {
            (self.put_char(decode_first_scalar(d) as char), length_of_first_scalar(d))
        } else {
            (self, 1)
        }
    }

    /// Whether one step of interpretation at the head of the nonempty `d`
    /// scrolls the screen: a line feed on the last row, or a character
    /// written in the last column of the last row.
    pub open spec fn step_scrolls(self, d: Seq<u8>) -> bool {
        let b = d[0];
        if b == 0x0a {
            self.cursor_y.saturating_add(1) >= self.rows
        } else if (0x20 <= b < 0x7f) || (b >= 0x80 && valid_first_scalar(d)) {
            self.cursor_x + 1 >= self.cols && self.cursor_y + 1 >= self.rows
        } else {
            false
        }
    }

    /// The screen after interpreting the whole byte string `d`.
    pub open spec fn process(self, d: Seq<u8>) -> ScreenModel
        decreases d.len(),
    {
        if d.len() == 0 {
            self
        } else {
            let (next, n) = self.step(d);
            if 0 < n <= d.len() {
                next.process(d.skip(n))
            } else {
                self
            }
        }
    }
}

impl ScreenModel {
    /// The same screen with no bytes waiting.
    pub open spec fn without_pending(self) -> ScreenModel {
        ScreenModel { pending: seq![], ..self }
    }

    /// Reads as much of `d` as can be read: the screen afterwards and the
    /// tail of `d` that is cut off (see `cut_off`) and waits for more bytes.
    pub open spec fn consume(self, d: Seq<u8>) -> (ScreenModel, Seq<u8>)
        decreases d.len(),
    {
        if d.len() == 0 {
            (self, seq![])
        } else if cut_off(d) {
            (self, d)
        } else {
            let (next, n) = self.step(d);
            if 0 < n <= d.len() {
                next.consume(d.skip(n))
            } else {
                (self, seq![])
            }
        }
    }

    /// The screen after the shell wrote `d`: the bytes waiting from earlier
    /// writes are read first, then `d`, and what is cut off at the end waits
    /// for the next write.
    pub open spec fn fed(self, d: Seq<u8>) -> ScreenModel {
        let (s, rest) = self.without_pending().consume(self.pending + d);
        ScreenModel { pending: rest, ..s }
    }

    /// Whether reading as much of `d` as can be read never scrolls the screen.
    pub open spec fn consume_scroll_free(self, d: Seq<u8>) -> bool
        decreases d.len(),
    {
        if d.len() == 0 || cut_off(d) {
            true
        } else {
            let (next, n) = self.step(d);
            !self.step_scrolls(d) && (0 < n <= d.len() ==> next.consume_scroll_free(d.skip(n)))
        }
    }

    /// Whether feeding `d` never scrolls the screen.
    pub open spec fn feed_scroll_free(self, d: Seq<u8>) -> bool {
        self.without_pending().consume_scroll_free(self.pending + d)
    }
}

/// How many bytes the non-ASCII leading byte `b` announces.
pub open spec fn lead_width(b: u8) -> int {
    if b < 0xe0 {
        2
    } else if b < 0xf0 {
        3
    } else {
        4
    }
}

/// Whether `d` starts with an escape sequence or a non-ASCII character
/// that `d` cuts off: what it does depends on bytes that `d` lacks.
pub open spec fn cut_off(d: Seq<u8>) -> bool {
    &&& d.len() > 0
    &&& {
        ||| d[0] == 0x1b && (d.len() < 2 || (d[1] == 0x5b && scan_csi(d, 2, seq![], 0) is Incomplete))
        ||| d[0] >= 0x80 && d.len() < lead_width(d[0])
    }
}

/// The smaller of two `u16`s.
pub open spec fn min_u16(a: u16, b: u16) -> u16 {
    if a < b { a } else { b }
}

/// A CSI count parameter: at least 1, truncated to 16 bits.
pub open spec fn csi_count(n: i32) -> u16 {
    (if n > 1 { n } else { 1i32 }) as u16
}

/// A 1-based CSI position parameter turned 0-based (at least 0), truncated to 16 bits.
pub open spec fn csi_position(p: i32) -> u16 {
    ((if p > 1 { p } else { 1i32 }) - 1) as u16
}

pub open spec fn is_ascii_digit(b: u8) -> bool {
    0x30 <= b <= 0x39
}

pub open spec fn is_ascii_letter(b: u8) -> bool {
    (0x41 <= b <= 0x5a) || (0x61 <= b <= 0x7a)
}

/// Outcome of scanning the body of a CSI sequence (after `ESC [`).
pub enum CsiScan {
    /// The input ends before the sequence does.
    Incomplete,
    /// A byte that is neither a parameter nor a final letter ends the
    /// sequence, which spans `len` bytes and has no effect.
    Abandoned { len: int },
    /// A final letter ends the sequence, which spans `len` bytes.
    Command { final_byte: u8, params: Seq<i32>, len: int },
}

/// Scans a CSI sequence from index `i` of `d`, with parameters `params`
/// already read and `current` the parameter being read. Digits accumulate
/// into `current` with 32-bit wrap-around, `;` ends a parameter, `?` adds a
/// `-1` parameter.
pub open spec fn scan_csi(d: Seq<u8>, i: int, params: Seq<i32>, current: i32) -> CsiScan
    decreases d.len() - i,
{
    if i < 0 || i >= d.len() {
        CsiScan::Incomplete
    } else {
        let b = d[i];
        if is_ascii_digit(b) {
            scan_csi(d, i + 1, params, current.wrapping_mul(10).wrapping_add((b - 0x30) as i32))
        } else if b == 0x3b {
            scan_csi(d, i + 1, params.push(current), 0)
        } else if b == 0x3f {
            scan_csi(d, i + 1, params.push(-1i32), current)
        } else if is_ascii_letter(b) {
            CsiScan::Command { final_byte: b, params: params.push(current), len: i + 1 }
        } else {
            CsiScan::Abandoned { len: i + 1 }
        }
    }
}

/// Screen buffer: a `rows × cols` character grid and the cursor position.
pub struct ScreenBuffer {
    cells: Vec<Vec<Cell>>,
    cursor_x: u16,
    cursor_y: u16,
    cols: u16,
    rows: u16,
    pending: Vec<u8>,
}

pub open spec fn row_chars(row: Seq<Cell>) -> Seq<char> {
    row.map_values(|c: Cell| c.ch)
}

impl View for ScreenBuffer {
    type V = ScreenModel;

    closed spec fn view(&self) -> ScreenModel {
        ScreenModel {
            grid: self.cells@.map_values(|row: Vec<Cell>| row_chars(row@)),
            cursor_x: self.cursor_x,
            cursor_y: self.cursor_y,
            cols: self.cols,
            rows: self.rows,
            pending: self.pending@,
        }
    }
}

/// A 1-based CSI position parameter turned 0-based, truncated to 16 bits.
fn csi_position_of(p: i32) -> (v: u16)
    ensures
        v == csi_position(p),
{
    ((if p > 1 {
        p
    } else {
        1i32
    }) - 1) as u16
}

/// A CSI scan that ends inside `d` spans more than the `i` bytes before the
/// scan position and at most all of `d`.
proof fn lemma_scan_csi_len(d: Seq<u8>, i: int, params: Seq<i32>, current: i32)
    requires
        0 <= i,
    ensures
        match scan_csi(d, i, params, current) {
            CsiScan::Incomplete => true,
            CsiScan::Abandoned { len } => i < len <= d.len(),
            CsiScan::Command { len, .. } => i < len <= d.len(),
        },
    decreases d.len() - i,
{
    if i < d.len() {
        let b = d[i];
        if is_ascii_digit(b) {
            lemma_scan_csi_len(d, i + 1, params, current.wrapping_mul(10).wrapping_add((b - 0x30) as i32));
        } else if b == 0x3b {
            lemma_scan_csi_len(d, i + 1, params.push(current), 0);
        } else if b == 0x3f {
            lemma_scan_csi_len(d, i + 1, params.push(-1i32), current);
        }
    }
}

/// An escape sequence spans at least one byte and at most all of `d`.
pub proof fn lemma_escape_len(s: ScreenModel, d: Seq<u8>)
    ensures
        s.escape_effect(d) matches Some(effect) ==> 0 < effect.1 <= d.len(),
{
    lemma_scan_csi_len(d, 2, seq![], 0);
}

/// `std::str::from_utf8`: the bytes read as a string when they are valid
/// UTF-8, `None` otherwise.
#[verifier::external_body]
fn str_from_utf8<'a>(bytes: &'a [u8]) -> (text: Option<&'a str>)
    ensures
        text is Some <==> valid_utf8(bytes@),
        text matches Some(t) ==> t@ == decode_utf8(bytes@),
{
    std::str::from_utf8(bytes).ok()
}

/// The length of the UTF-8 encoding led by the non-ASCII leading byte `b`.
fn utf8_lead_width(b: u8) -> (n: usize)
    ensures
        b < 0xe0 ==> n == 2,
        0xe0 <= b < 0xf0 ==> n == 3,
        0xf0 <= b ==> n == 4,
{
    if b < 0xe0 {
        2
    } else if b < 0xf0 {
        3
    } else {
        4
    }
}

/// The encoding of the first character of `d`, which starts with the
/// non-ASCII byte leading `w` bytes, is read from those `w` bytes alone: they
/// are valid UTF-8 exactly when `d` starts with a well-formed character, and
/// then they decode to it. Fewer than `w` bytes hold no character.
pub proof fn lemma_first_scalar(d: Seq<u8>, w: int)
    requires
        d.len() > 0,
        d[0] >= 0x80,
        w == (if d[0] < 0xe0 { 2int } else if d[0] < 0xf0 { 3int } else { 4int }),
    ensures
        w > d.len() ==> !valid_first_scalar(d),
        w <= d.len() ==> (valid_utf8(d.take(w)) <==> valid_first_scalar(d)),
        w <= d.len() && valid_first_scalar(d) ==> {
            &&& decode_utf8(d.take(w)).len() > 0
            &&& decode_utf8(d.take(w))[0] == decode_first_scalar(d) as char
            &&& length_of_first_scalar(d) == w
        },
{
    if w <= d.len() {
        let t = d.take(w);
        assert forall|k: int| 0 <= k < w implies t[k] == d[k] by {}
        assert(valid_first_scalar(t) == valid_first_scalar(d));
        if valid_first_scalar(d) {
            assert(length_of_first_scalar(t) == w);
            assert(pop_first_scalar(t) =~= Seq::<u8>::empty());
            assert(valid_utf8(Seq::<u8>::empty()));
            assert(valid_utf8(t));
            assert(decode_first_scalar(t) == decode_first_scalar(d));
        }
    }
}

fn blank_cells(cols: u16) -> (row: Vec<Cell>)
    ensures
        row@.len() == cols,
        row_chars(row@) == blank_row(cols as nat),
{
    let mut row: Vec<Cell> = Vec::new();
    let mut i: u16 = 0;
    while i < cols
        invariant
            i <= cols,
            row@.len() == i,
            forall|c: int| 0 <= c < i ==> #[trigger] row@[c].ch == ' ',
        decreases cols - i,
    {
        row.push(Cell::new(' '));
        i = i + 1;
    }
    assert(row_chars(row@) =~= blank_row(cols as nat));
    row
}

impl ScreenBuffer {
    pub open spec fn wf(&self) -> bool {
        self@.wf()
    }

    /// Row `y` of the cells, seen as characters, is row `y` of the grid.
    proof fn lemma_row(&self, y: int)
        requires
            self.wf(),
            0 <= y < self@.rows,
        ensures
            self.cells@.len() == self@.rows,
            self.cells@[y]@.len() == self@.cols,
            row_chars(self.cells@[y]@) == self@.grid[y],
            forall|x: int| 0 <= x < self@.cols ==> #[trigger] self.cells@[y]@[x].ch == self@.grid[y][x],
    {
        assert(self@.grid[y].len() == self@.cols);
    }

    pub fn new(cols: u16, rows: u16) -> (s: ScreenBuffer)
        ensures
            s.wf(),
            s@.grid == blank_grid(cols as nat, rows as nat),
            s@.cursor_x == 0,
            s@.cursor_y == 0,
            s@.cols == cols,
            s@.rows == rows,
            s@.pending == Seq::<u8>::empty(),
    {
        let mut cells: Vec<Vec<Cell>> = Vec::new();
        let mut r: u16 = 0;
        while r < rows
            invariant
                r <= rows,
                cells@.len() == r,
                forall|k: int| 0 <= k < r ==> #[trigger] row_chars(cells@[k]@) == blank_row(cols as nat),
                forall|k: int| 0 <= k < r ==> #[trigger] cells@[k]@.len() == cols,
            decreases rows - r,
        {
            cells.push(blank_cells(cols));
            r = r + 1;
        }
        let s = ScreenBuffer { cells, cursor_x: 0, cursor_y: 0, cols, rows, pending: Vec::new() };
        assert(s@.grid =~= blank_grid(cols as nat, rows as nat));
        s
    }

    /// Changes the size of the screen to `cols × rows`.
    pub fn resize(&mut self, cols: u16, rows: u16)
        requires
            old(self).wf(),
        ensures
            final(self).wf(),
            final(self)@ == old(self)@.resized(cols, rows),
    {
        let ghost old_view = self@;
        proof {
            assert forall|r: int| 0 <= r < self@.rows implies #[trigger] self.cells@[r]@.len() == self@.cols by {
                self.lemma_row(r);
            }
        }
        if cols == self.cols && rows == self.rows {
            proof {
                let target = old_view.resized(cols, rows);
                assert forall|r: int| 0 <= r < rows implies #[trigger] old_view.grid[r] =~= target.grid[r] by {
                    assert(old_view.grid[r].len() == cols);
                }
                assert(old_view.grid =~= target.grid);
            }
            return;
        }
        let mut new_cells: Vec<Vec<Cell>> = Vec::new();
        let mut r: u16 = 0;
        while r < rows
            invariant
                self@ == old_view,
                self.wf(),
                forall|k: int| 0 <= k < self@.rows ==> #[trigger] self.cells@[k]@.len() == self@.cols,
                r <= rows,
                new_cells@.len() == r,
                forall|k: int| 0 <= k < r ==> #[trigger] new_cells@[k]@.len() == cols,
                forall|k: int, c: int|
                    0 <= k < r && 0 <= c < cols ==> #[trigger] new_cells@[k]@[c].ch == (if k
                        < old_view.rows && c < old_view.cols {
                        old_view.grid[k][c]
                    } else {
                        ' '
                    }),
            decreases rows - r,
        {
            let mut row: Vec<Cell> = Vec::new();
            let mut c: u16 = 0;
            while c < cols
                invariant
                    self@ == old_view,
                    self.wf(),
                    forall|k: int| 0 <= k < self@.rows ==> #[trigger] self.cells@[k]@.len() == self@.cols,
                    r < rows,
                    c <= cols,
                    row@.len() == c,
                    forall|j: int|
                        0 <= j < c ==> #[trigger] row@[j].ch == (if r < old_view.rows && j
                            < old_view.cols {
                            old_view.grid[r as int][j]
                        } else {
                            ' '
                        }),
                decreases cols - c,
            {
                if r < self.rows && c < self.cols {
                    proof {
                        self.lemma_row(r as int);
                    }
                    row.push(Cell::new(self.cells[r as usize][c as usize].ch));
                } else {
                    row.push(Cell::new(' '));
                }
                c = c + 1;
            }
            new_cells.push(row);
            r = r + 1;
        }
        self.cells = new_cells;
        self.cols = cols;
        self.rows = rows;
        let last_col = cols.saturating_sub(1);
        let last_row = rows.saturating_sub(1);
        self.cursor_x = if self.cursor_x < last_col {
            self.cursor_x
        } else {
            last_col
        };
        self.cursor_y = if self.cursor_y < last_row {
            self.cursor_y
        } else {
            last_row
        };
        proof {
            let target = old_view.resized(cols, rows);
            assert forall|k: int| 0 <= k < rows implies #[trigger] self@.grid[k] =~= target.grid[k] by {
                assert(self@.grid[k] == row_chars(self.cells@[k]@));
            }
            assert(self@.grid =~= target.grid);
        }
    }

    /// Writes `ch` into the cell at `(x, y)`.
    fn set_cell(&mut self, x: u16, y: u16, ch: char)
        requires
            old(self).wf(),
            x < old(self)@.cols,
            y < old(self)@.rows,
        ensures
            final(self).wf(),
            final(self)@ == (ScreenModel {
                grid: old(self)@.grid.update(y as int, old(self)@.grid[y as int].update(x as int, ch)),
                ..old(self)@
            }),
    {
        proof { self.lemma_row(y as int); }
        self.cells[y as usize].set(x as usize, Cell::new(ch));
        assert(row_chars(self.cells@[y as int]@) =~= old(self)@.grid[y as int].update(x as int, ch));
        assert(self@.grid =~= old(self)@.grid.update(y as int, old(self)@.grid[y as int].update(x as int, ch)));
    }

    /// The top row leaves the screen and a blank row enters at the bottom.
    fn scroll_up(&mut self)
        requires
            old(self).wf(),
            old(self)@.rows >= 1,
        ensures
            final(self).wf(),
            final(self)@ == old(self)@.scrolled_up(),
    {
        let ghost g = self@.grid;
        proof {
            assert forall|r: int| 0 <= r < self@.rows implies #[trigger] self.cells@[r]@.len() == self@.cols by {
                self.lemma_row(r);
            }
        }
        let blank = blank_cells(self.cols);
        self.cells.remove(0);
        self.cells.push(blank);
        assert(self@.grid =~= g.drop_first().push(blank_row(self.cols as nat)));
    }

    /// Writes a printable character at the cursor and advances the cursor.
    fn put_char(&mut self, ch: char)
        requires
            old(self).wf(),
            old(self)@.rows >= 1 || old(self)@.cursor_x + 1 < old(self)@.cols,
        ensures
            final(self).wf(),
            final(self)@ == old(self)@.put_char(ch),
    {
        if self.cursor_x < self.cols && self.cursor_y < self.rows {
            self.set_cell(self.cursor_x, self.cursor_y, ch);
        }
        let x = self.cursor_x + 1;
        if x >= self.cols {
            let y = self.cursor_y + 1;
            if y >= self.rows {
                self.scroll_up();
                self.cursor_y = self.rows - 1;
            } else {
                self.cursor_y = y;
            }
            self.cursor_x = 0;
        } else {
            self.cursor_x = x;
        }
    }

    fn line_feed(&mut self)
        requires
            old(self).wf(),
            old(self)@.rows >= 1,
        ensures
            final(self).wf(),
            final(self)@ == old(self)@.line_feed(),
    {
        let y = self.cursor_y.saturating_add(1);
        if y >= self.rows {
            self.scroll_up();
            self.cursor_y = self.rows - 1;
        } else {
            self.cursor_y = y;
        }
    }

    fn tab(&mut self)
        requires
            old(self).wf(),
        ensures
            final(self).wf(),
            final(self)@ == old(self)@.tab(),
    {
        let step: u16 = 8 - (self.cursor_x % 8);
        let x = self.cursor_x.wrapping_add(step);
        let last = self.cols.saturating_sub(1);
        self.cursor_x = if x < last {
            x
        } else {
            last
        };
    }

    /// Blanks the cells in columns `x1..=x2` of rows `y1..=y2` that lie on the screen.
    fn clear_region(&mut self, x1: u16, y1: u16, x2: u16, y2: u16)
        requires
            old(self).wf(),
        ensures
            final(self).wf(),
            final(self)@ == old(self)@.cleared(x1, y1, x2, y2),
    {
        let ghost g = self@.grid;
        let mut r = y1;
        while r <= y2 && r < self.rows
            invariant
                self.wf(),
                self@.cols == old(self)@.cols,
                self@.rows == old(self)@.rows,
                self@.cursor_x == old(self)@.cursor_x,
                self@.cursor_y == old(self)@.cursor_y,
                self@.pending == old(self)@.pending,
                g == old(self)@.grid,
                y1 <= r,
                r <= y2 + 1 || r == y1,
                forall|row: int, col: int|
                    0 <= row < self@.rows && 0 <= col < self@.cols ==> #[trigger] self@.grid[row][col]
                        == if y1 <= row < r && x1 <= col <= x2 {
                        ' '
                    } else {
                        g[row][col]
                    },
            decreases self@.rows - r,
        {
            let mut c = x1;
            while c <= x2 && c < self.cols
                invariant
                    self.wf(),
                    self@.cols == old(self)@.cols,
                    self@.rows == old(self)@.rows,
                    self@.cursor_x == old(self)@.cursor_x,
                    self@.cursor_y == old(self)@.cursor_y,
                    self@.pending == old(self)@.pending,
                    g == old(self)@.grid,
                    y1 <= r <= y2,
                    r < self@.rows,
                    x1 <= c,
                    c <= x2 + 1 || c == x1,
                    forall|row: int, col: int|
                        0 <= row < self@.rows && 0 <= col < self@.cols ==> #[trigger] self@.grid[row][col]
                            == if (y1 <= row < r && x1 <= col <= x2) || (row == r && x1 <= col < c) {
                            ' '
                        } else {
                            g[row][col]
                        },
                decreases self@.cols - c,
            {
                self.set_cell(c, r, ' ');
                c = c + 1;
            }
            r = r + 1;
        }
        proof {
            let target = old(self)@.cleared(x1, y1, x2, y2);
            assert forall|row: int| 0 <= row < self@.rows implies #[trigger] self@.grid[row] =~= target.grid[row] by {
                assert(self@.grid[row].len() == self@.cols);
                assert(g[row].len() == self@.cols);
            }
            assert(self@.grid =~= target.grid);
        }
    }

    /// Carries out a CSI command.
    fn handle_csi(&mut self, final_byte: u8, params: &Vec<i32>)
        requires
            old(self).wf(),
        ensures
            final(self).wf(),
            final(self)@ == old(self)@.apply_csi(final_byte, params@),
    {
        let n: i32 = if params.len() > 0 {
            params[0]
        } else {
            1
        };
        let count: u16 = (if n > 1 {
            n
        } else {
            1i32
        }) as u16;
        let last_col = self.cols.saturating_sub(1);
        let last_row = self.rows.saturating_sub(1);
        if final_byte == 0x41 {
            self.cursor_y = self.cursor_y.saturating_sub(count);
        } else if final_byte == 0x42 {
            let y = self.cursor_y.wrapping_add(count);
            self.cursor_y = if y < last_row {
                y
            } else {
                last_row
            };
        } else if final_byte == 0x43 {
            let x = self.cursor_x.wrapping_add(count);
            self.cursor_x = if x < last_col {
                x
            } else {
                last_col
            };
        } else if final_byte == 0x44 {
            self.cursor_x = self.cursor_x.saturating_sub(count);
        } else if final_byte == 0x48 || final_byte == 0x66 {
            if params.len() >= 2 {
                let r = csi_position_of(params[0]);
                let c = csi_position_of(params[1]);
                self.cursor_y = if r < last_row {
                    r
                } else {
                    last_row
                };
                self.cursor_x = if c < last_col {
                    c
                } else {
                    last_col
                };
            } else if params.len() == 1 {
                let r = csi_position_of(params[0]);
                self.cursor_y = if r < last_row {
                    r
                } else {
                    last_row
                };
                self.cursor_x = 0;
            } else {
                self.cursor_y = 0;
                self.cursor_x = 0;
            }
        } else if final_byte == 0x4a {
            let ghost s0 = self@;
            let cx = self.cursor_x;
            let cy = self.cursor_y;
            if n == 0 || n == -1 {
                self.clear_region(cx, cy, last_col, cy);
                if cy < last_row {
                    self.clear_region(0, cy + 1, last_col, last_row);
                }
                proof {
                    let target = s0.erased_after(cx, cy);
                    assert forall|row: int| 0 <= row < self@.rows implies #[trigger] self@.grid[row] =~= target.grid[row] by {
                        assert(self@.grid[row].len() == self@.cols);
                        assert(s0.grid[row].len() == self@.cols);
                    }
                    assert(self@.grid =~= target.grid);
                }
            } else if n == 1 {
                if cy > 0 {
                    self.clear_region(0, 0, last_col, cy - 1);
                }
                self.clear_region(0, cy, cx, cy);
                proof {
                    let target = s0.erased_before(cx, cy);
                    assert forall|row: int| 0 <= row < self@.rows implies #[trigger] self@.grid[row] =~= target.grid[row] by {
                        assert(self@.grid[row].len() == self@.cols);
                        assert(s0.grid[row].len() == self@.cols);
                    }
                    assert(self@.grid =~= target.grid);
                }
            } else if n == 2 {
                self.clear_region(0, 0, last_col, last_row);
                proof {
                    let target = blank_grid(self@.cols as nat, self@.rows as nat);
                    assert forall|row: int| 0 <= row < self@.rows implies #[trigger] self@.grid[row] =~= target[row] by {
                        assert(self@.grid[row].len() == self@.cols);
                    }
                    assert(self@.grid =~= target);
                }
            }
        } else if final_byte == 0x4b {
            if n == 0 || n == -1 {
                self.clear_region(self.cursor_x, self.cursor_y, last_col, self.cursor_y);
            } else if n == 1 {
                self.clear_region(0, self.cursor_y, self.cursor_x, self.cursor_y);
            } else if n == 2 {
                self.clear_region(0, self.cursor_y, last_col, self.cursor_y);
            }
        }
    }

    /// Interprets the escape sequence that starts at `data[start]` (an ESC
    /// byte). Returns the number of bytes it spans, or `None` when `data`
    /// ends before the sequence does.
    fn parse_escape(&mut self, data: &[u8], start: usize) -> (r: Option<usize>)
        requires
            old(self).wf(),
            start < data@.len(),
        ensures
            final(self).wf(),
            match old(self)@.escape_effect(data@.skip(start as int)) {
                None => r is None && final(self)@ == old(self)@,
                Some(effect) => r == Some(effect.1 as usize) && final(self)@ == effect.0,
            },
    {
        let ghost d = data@.skip(start as int);
        if data.len() - start < 2 {
            return None;
        }
        assert(d.len() == data@.len() - start);
        assert(d[1] == data@[start + 1]);
        if data[start + 1] == 0x5b {
            let mut i: usize = start + 2;
            let mut params: Vec<i32> = Vec::new();
            let mut current: i32 = 0;
            while i < data.len()
                invariant
                    self.wf(),
                    self@ == old(self)@,
                    start + 2 <= i <= data@.len(),
                    d == data@.skip(start as int),
                    d.len() == data@.len() - start,
                    d.len() >= 2,
                    d[1] == 0x5b,
                    scan_csi(d, 2, seq![], 0) == scan_csi(d, i - start, params@, current),
                decreases data@.len() - i,
            {
                let b = data[i];
                assert(d[i - start] == b);
                assert(d.len() == data@.len() - start);
                if 0x30 <= b && b <= 0x39 {
                    current = current.wrapping_mul(10).wrapping_add((b - 0x30) as i32);
                } else if b == 0x3b {
                    params.push(current);
                    current = 0;
                } else if b == 0x3f {
                    params.push(-1);
                } else if (0x41 <= b && b <= 0x5a) || (0x61 <= b && b <= 0x7a) {
                    let ghost before = params@;
                    params.push(current);
                    assert(scan_csi(d, i - start, before, current) == (CsiScan::Command {
                        final_byte: b,
                        params: params@,
                        len: i - start + 1,
                    }));
                    assert(old(self)@.escape_effect(d) == Some((old(self)@.apply_csi(b, params@), i - start + 1)));
                    self.handle_csi(b, &params);
                    return Some(i + 1 - start);
                } else {
                    assert(scan_csi(d, i - start, params@, current) == (CsiScan::Abandoned {
                        len: i - start + 1,
                    }));
                    return Some(i + 1 - start);
                }
                i = i + 1;
            }
            None
        } else {
            Some(2)
        }
    }

    /// Keeps the bytes of `buf` from `i` on waiting for the next write.
    fn hold(&mut self, buf: &Vec<u8>, i: usize)
        requires
            old(self).wf(),
            i <= buf@.len(),
        ensures
            final(self).wf(),
            final(self)@ == (ScreenModel { pending: buf@.skip(i as int), ..old(self)@ }),
    {
        let mut tail: Vec<u8> = Vec::new();
        let mut k: usize = i;
        while k < buf.len()
            invariant
                i <= k <= buf@.len(),
                tail@ == buf@.subrange(i as int, k as int),
            decreases buf@.len() - k,
        {
            tail.push(buf[k]);
            k = k + 1;
        }
        self.pending = tail;
        assert(self@.grid =~= old(self)@.grid);
    }

    /// Feeds bytes that the shell wrote to the terminal into the buffer, as
    /// `fed` says: the bytes that an earlier write cut off come first, and an
    /// escape sequence or character that this write cuts off waits for the
    /// next one. A screen with no row takes only bytes that never make it
    /// scroll.
    pub fn process_output(&mut self, data: &[u8])
        requires
            old(self).wf(),
            old(self)@.rows >= 1 || old(self)@.feed_scroll_free(data@),
        ensures
            final(self).wf(),
            final(self)@ == old(self)@.fed(data@),
    {
        let mut buf: Vec<u8> = Vec::new();
        std::mem::swap(&mut buf, &mut self.pending);
        let mut k: usize = 0;
        while k < data.len()
            invariant
                k <= data@.len(),
                buf@ == old(self)@.pending + data@.take(k as int),
            decreases data@.len() - k,
        {
            buf.push(data[k]);
            assert(data@.take(k + 1) =~= data@.take(k as int).push(data@[k as int]));
            k = k + 1;
        }
        assert(data@.take(k as int) =~= data@);
        let ghost full = buf@;
        assert(self@ == old(self)@.without_pending());
        assert(self.wf());
        let mut i: usize = 0;
        assert(full.skip(0) =~= full);
        while i < buf.len()
            invariant
                self.wf(),
                self@.cols == old(self)@.cols,
                self@.rows == old(self)@.rows,
                self@.pending == Seq::<u8>::empty(),
                buf@ == full,
                full == old(self)@.pending + data@,
                self@.rows >= 1 || self@.consume_scroll_free(full.skip(i as int)),
                i <= full.len(),
                old(self)@.without_pending().consume(full) == self@.consume(full.skip(i as int)),
            decreases full.len() - i,
        {
            let ghost d = full.skip(i as int);
            let ghost before = self@;
            let b = buf[i];
            assert(d[0] == b);
            let n: usize;
            if b == 0x1b {
                match self.parse_escape(buf.as_slice(), i) {
                    Some(len) => {
                        n = len;
                    },
                    None => {
                        assert(cut_off(d));
                        self.hold(&buf, i);
                        return;
                    },
                }
            } else if b == 0x0a {
                self.line_feed();
                n = 1;
            } else if b == 0x0d {
                self.cursor_x = 0;
                n = 1;
            } else if b == 0x09 {
                self.tab();
                n = 1;
            } else if b == 0x08 {
                if self.cursor_x > 0 {
                    self.cursor_x = self.cursor_x - 1;
                }
                n = 1;
            } else if b >= 0x20 && b < 0x7f {
                self.put_char(b as char);
                n = 1;
            } else if b >= 0x80 {
                let w = utf8_lead_width(b);
                proof {
                    lemma_first_scalar(d, w as int);
                }
                if w <= buf.len() - i {
                    let head = &buf.as_slice()[i..i + w];
                    assert(head@ == d.take(w as int));
                    match str_from_utf8(head) {
                        Some(text) => {
                            let ch = text.get_char(0);
                            self.put_char(ch);
                            n = w;
                        },
                        None => {
                            n = 1;
                        },
                    }
                } else {
                    assert(cut_off(d));
                    self.hold(&buf, i);
                    return;
                }
            } else {
                n = 1;
            }
            proof {
                lemma_escape_len(before, d);
                assert(!cut_off(d));
                let (next, k2) = before.step(d);
                assert(self@ == next);
                assert(n == k2);
                assert(0 < k2 <= d.len());
                assert(d.skip(k2) =~= full.skip(i + n));
            }
            i = i + n;
        }
        assert(full.skip(i as int) =~= Seq::<u8>::empty());
    }

    /// Whether bytes of an escape sequence or character that the shell's
    /// output cut off wait for the rest of it.
    pub fn has_pending(&self) -> (b: bool)
        ensures
            b == (self@.pending.len() > 0),
    {
        self.pending.len() > 0
    }

    /// The character at column `x` of row `y`, or a blank off the screen.
    pub fn get_char(&self, x: u16, y: u16) -> (ch: char)
        requires
            self.wf(),
        ensures
            ch == self@.char_at(x, y),
    {
        if x < self.cols && y < self.rows {
            proof { self.lemma_row(y as int); }
            self.cells[y as usize][x as usize].ch
        } else {
            ' '
        }
    }

    /// The cursor: column and row.
    pub fn cursor(&self) -> (c: (u16, u16))
        ensures
            c == (self@.cursor_x, self@.cursor_y),
    {
        (self.cursor_x, self.cursor_y)
    }

    pub fn cols(&self) -> (c: u16)
        ensures
            c == self@.cols,
    {
        self.cols
    }

    pub fn rows(&self) -> (r: u16)
        ensures
            r == self@.rows,
    {
        self.rows
    }
}

} // verus!
