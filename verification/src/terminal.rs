//! The bytes that draw on the terminal: cursor positioning, bug emoji and
//! the characters that a bug covered.

use vstd::prelude::*;
use vstd::utf8::*;

verus! {

/// Decimal digits of `n`, most significant first, without leading zeros.
pub open spec fn decimal(n: nat) -> Seq<u8>
    decreases n,
{
    if n < 10 {
        seq![(0x30 + n) as u8]
    } else {
        decimal(n / 10).push((0x30 + n % 10) as u8)
    }
}

/// `ESC [ row ; col H`: moves the cursor to the 1-based `row` and `col`.
pub open spec fn cursor_to(row: u16, col: u16) -> Seq<u8> {
    seq![0x1bu8, 0x5bu8] + decimal(row as nat) + seq![0x3bu8] + decimal(col as nat) + seq![0x48u8]
}

/// The 1-based row or column of the 0-based cell coordinate `v`.
pub open spec fn one_based(v: u16) -> u16 {
    v.wrapping_add(1)
}

/// The bytes that write `text` starting at the 0-based cell `(x, y)`.
pub open spec fn draw_bytes(x: u16, y: u16, text: Seq<char>) -> Seq<u8> {
    cursor_to(one_based(y), one_based(x)) + encode_utf8(text)
}

/// The bytes that write `left` at cell `(x, y)` and `right` at `(x + 1, y)`,
/// each after its own cursor move.
pub open spec fn restore_bytes(x: u16, y: u16, left: char, right: char) -> Seq<u8> {
    draw_bytes(x, y, seq![left]) + draw_bytes(x.wrapping_add(1), y, seq![right])
}

/// Appends the decimal digits of `n`.
pub fn push_decimal(out: &mut Vec<u8>, n: u16)
    ensures
        final(out)@ == old(out)@ + decimal(n as nat),
    decreases n,
{
    if n >= 10 {
        push_decimal(out, n / 10);
    }
    let digit: u8 = (n % 10) as u8;
    out.push(0x30 + digit);
    assert(final(out)@ =~= old(out)@ + decimal(n as nat));
}

/// Appends the UTF-8 encoding of `ch`.
pub fn push_char_utf8(out: &mut Vec<u8>, ch: char)
    ensures
        final(out)@ == old(out)@ + encode_utf8(seq![ch]),
{
    let v: u32 = ch as u32;
    proof {
        char_is_scalar(ch);
        assert(seq![ch].drop_first() =~= Seq::<char>::empty());
        assert(encode_utf8(seq![ch]) == encode_scalar(v) + encode_utf8(Seq::<char>::empty()));
        assert(encode_utf8(seq![ch]) =~= encode_scalar(v));
    }
    if v <= 0x7f {
        out.push((v & 0x7f) as u8);
    } else if v <= 0x7ff {
        out.push(0xc0 | ((v >> 6) & 0x1f) as u8);
        out.push(0x80 | (v & 0x3f) as u8);
    } else if v <= 0xffff {
        out.push(0xe0 | ((v >> 12) & 0x0f) as u8);
        out.push(0x80 | ((v >> 6) & 0x3f) as u8);
        out.push(0x80 | (v & 0x3f) as u8);
    } else {
        out.push(0xf0 | ((v >> 18) & 0x7) as u8);
        out.push(0x80 | ((v >> 12) & 0x3f) as u8);
        out.push(0x80 | ((v >> 6) & 0x3f) as u8);
        out.push(0x80 | (v & 0x3f) as u8);
    }
    assert(final(out)@ =~= old(out)@ + encode_scalar(v));
}

/// Appends the bytes that move the cursor to the 1-based `row` and `col`.
pub fn push_cursor_to(out: &mut Vec<u8>, row: u16, col: u16)
    ensures
        final(out)@ == old(out)@ + cursor_to(row, col),
{
    out.push(0x1b);
    out.push(0x5b);
    push_decimal(out, row);
    out.push(0x3b);
    push_decimal(out, col);
    out.push(0x48);
    assert(final(out)@ =~= old(out)@ + cursor_to(row, col));
}

/// Terminal state that the program restores on exit.
pub struct Terminal {
    original_raw_mode: bool,
}

impl Terminal {
    /// A terminal that was (or was not) in raw mode before the program took it over.
    pub fn new(original_raw_mode: bool) -> (t: Terminal)
        ensures
            t.was_raw() == original_raw_mode,
    {
        Terminal { original_raw_mode }
    }

    pub closed spec fn was_raw(&self) -> bool {
        self.original_raw_mode
    }

    /// Whether raw mode was on before the program took the terminal over,
    /// so that leaving it on is what restoring means.
    pub fn original_raw_mode(&self) -> (b: bool)
        ensures
            b == self.was_raw(),
    {
        self.original_raw_mode
    }

    /// Writes `emoji` at the 0-based cell `(x, y)`.
    pub fn draw_bug_to(w: &mut Vec<u8>, x: u16, y: u16, emoji: &str)
        ensures
            final(w)@ == old(w)@ + draw_bytes(x, y, emoji@),
    {
        push_cursor_to(w, y.wrapping_add(1), x.wrapping_add(1));
        let bytes = emoji.as_bytes();
        let ghost start = w@;
        let mut i: usize = 0;
        while i < bytes.len()
            invariant
                0 <= i <= bytes@.len(),
                bytes@ == encode_utf8(emoji@),
                w@ == start + bytes@.take(i as int),
            decreases bytes@.len() - i,
        {
            w.push(bytes[i]);
            assert(bytes@.take(i + 1) =~= bytes@.take(i as int).push(bytes@[i as int]));
            i = i + 1;
        }
        assert(bytes@.take(i as int) =~= bytes@);
    }

    /// Writes the character `ch` at the 0-based cell `(x, y)`.
    pub fn clear_at_to(w: &mut Vec<u8>, x: u16, y: u16, ch: char)
        ensures
            final(w)@ == old(w)@ + draw_bytes(x, y, seq![ch]),
    {
        push_cursor_to(w, y.wrapping_add(1), x.wrapping_add(1));
        push_char_utf8(w, ch);
        assert(final(w)@ =~= old(w)@ + draw_bytes(x, y, seq![ch]));
    }

    /// Writes back the two characters that a bug covered: `ch_left` at
    /// `(x, y)` and `ch_right` at `(x + 1, y)`.
    pub fn clear_bug_at_to(w: &mut Vec<u8>, x: u16, y: u16, ch_left: char, ch_right: char)
        ensures
            final(w)@ == old(w)@ + restore_bytes(x, y, ch_left, ch_right),
    {
        Self::clear_at_to(w, x, y, ch_left);
        Self::clear_at_to(w, x.wrapping_add(1), y, ch_right);
        assert(final(w)@ =~= old(w)@ + restore_bytes(x, y, ch_left, ch_right));
    }
}

} // verus!
