//! Laws of what the terminal shows: read through the screen model, the
//! bytes that the sniffer writes keep the terminal showing what the screen
//! buffer holds, but under the bugs, and exactly that once they are gone.

use vstd::prelude::*;
use vstd::utf8::*;

use crate::animation::{
    bug_wf, draw_new_bugs, is_dead, moved, restore_all, restore_from, tick_bugs, Bug, BugManagerModel,
};
use crate::animation_laws::{lemma_moved_settles, settled_on};
use crate::daemon::{cursor_home, then_home};
use crate::screen::{min_u16, ScreenModel};
use crate::screen_laws::{
    all_printable, is_printable, law_cursor_position, law_pair_written, lemma_cursor_to_valid_utf8,
    lemma_process_keeps_pending,
    written_pair,
};
use crate::terminal::{cursor_to, draw_bytes, one_based, restore_bytes};

verus! {

/// The cell `(c, r)` is one of the two that bug `b` covers where it was
/// last drawn.
pub open spec fn covers(b: Bug, c: int, r: int) -> bool {
    r == b.old_y && (c == b.old_x || c == b.old_x + 1)
}

/// The cell `(c, r)` is covered by one of `bugs`.
pub open spec fn covered_by(bugs: Seq<Bug>, c: int, r: int) -> bool {
    exists|i: int| 0 <= i < bugs.len() && #[trigger] covers(bugs[i], c, r)
}

/// The terminal `t` has the size of the screen buffer `s`, waits on the
/// same cut-off bytes, and shows what `s` holds in every cell that none of
/// `bugs` covers.
pub open spec fn shows_but_under(t: ScreenModel, s: ScreenModel, bugs: Seq<Bug>) -> bool {
    &&& t.wf()
    &&& t.cols == s.cols
    &&& t.rows == s.rows
    &&& t.pending == s.pending
    &&& forall|r: int, c: int|
        0 <= r < s.rows && 0 <= c < s.cols && !covered_by(bugs, c, r) ==> #[trigger] t.grid[r][c]
            == s.grid[r][c]
}

/// The two cells of bug `b` lie on the screen `s`, the right one not in the
/// bottom-right corner (where writing scrolls the screen).
pub open spec fn restorable(b: Bug, s: ScreenModel) -> bool {
    &&& b.old_x + 1 < s.cols
    &&& b.old_y < s.rows
    &&& (b.old_x + 2 < s.cols || b.old_y + 1 < s.rows)
}

/// The terminal `t` after the cells of each of `bugs` were given back from `s`, in order.
pub open spec fn after_restores(t: ScreenModel, s: ScreenModel, bugs: Seq<Bug>) -> ScreenModel
    decreases bugs.len(),
{
    if bugs.len() == 0 {
        t
    } else {
        let b = bugs.last();
        written_pair(
            after_restores(t, s, bugs.drop_last()),
            b.old_x,
            b.old_y,
            s.char_at(b.old_x, b.old_y),
            s.char_at(b.old_x.wrapping_add(1), b.old_y),
        )
    }
}

/// What the sniffer writes to give cells back is valid UTF-8.
proof fn lemma_restore_bytes_valid(x: u16, y: u16, l: char, r: char)
    ensures
        valid_utf8(restore_bytes(x, y, l, r)),
{
    lemma_cursor_to_valid_utf8(one_based(y), one_based(x));
    lemma_cursor_to_valid_utf8(one_based(y), one_based(x.wrapping_add(1)));
    encode_utf8_valid_utf8(seq![l]);
    encode_utf8_valid_utf8(seq![r]);
    let a = cursor_to(one_based(y), one_based(x));
    let b = cursor_to(one_based(y), one_based(x.wrapping_add(1)));
    let el = encode_utf8(seq![l]);
    let er = encode_utf8(seq![r]);
    valid_utf8_concat(a, el);
    valid_utf8_concat(b, er);
    valid_utf8_concat(a + el, b + er);
    assert(restore_bytes(x, y, l, r) == (a + el) + (b + er));
}

proof fn lemma_restore_all_valid(bugs: Seq<Bug>, s: ScreenModel)
    ensures
        valid_utf8(restore_all(bugs, s)),
    decreases bugs.len(),
{
    if bugs.len() == 0 {
        assert(valid_utf8(Seq::<u8>::empty()));
    } else {
        let b = bugs.last();
        lemma_restore_all_valid(bugs.drop_last(), s);
        lemma_restore_bytes_valid(b.old_x, b.old_y, s.char_at(b.old_x, b.old_y), s.char_at(b.old_x.wrapping_add(1), b.old_y));
        valid_utf8_concat(restore_all(bugs.drop_last(), s), restore_from(s, b.old_x, b.old_y));
    }
}

/// Giving back the cells of `bugs` one after the other, then reading `rest`,
/// is reading `rest` on the terminal where those cells were given back.
proof fn lemma_restores_read(t: ScreenModel, s: ScreenModel, bugs: Seq<Bug>, rest: Seq<u8>)
    requires
        s.wf(),
        s.cols >= 1,
        s.rows >= 1,
        all_printable(s),
        t.wf(),
        t.cols == s.cols,
        t.rows == s.rows,
        forall|i: int| 0 <= i < bugs.len() ==> restorable(#[trigger] bugs[i], s),
        valid_utf8(rest),
    ensures
        t.process(restore_all(bugs, s) + rest) == after_restores(t, s, bugs).process(rest),
        after_restores(t, s, bugs).wf(),
        after_restores(t, s, bugs).cols == s.cols,
        after_restores(t, s, bugs).rows == s.rows,
    decreases bugs.len(),
{
    if bugs.len() == 0 {
        assert(restore_all(bugs, s) + rest =~= rest);
    } else {
        let init = bugs.drop_last();
        let b = bugs.last();
        assert(restorable(bugs[bugs.len() - 1], s));
        assert forall|i: int| 0 <= i < init.len() implies restorable(#[trigger] init[i], s) by {
            assert(init[i] == bugs[i]);
        }
        let l = s.char_at(b.old_x, b.old_y);
        let r = s.char_at(b.old_x.wrapping_add(1), b.old_y);
        let piece = restore_from(s, b.old_x, b.old_y);
        lemma_restore_bytes_valid(b.old_x, b.old_y, l, r);
        valid_utf8_concat(piece, rest);
        lemma_restores_read(t, s, init, piece + rest);
        assert(restore_all(bugs, s) + rest =~= restore_all(init, s) + (piece + rest));
        let t1 = after_restores(t, s, init);
        assert(b.old_x.wrapping_add(1) == b.old_x + 1);
        assert(is_printable(s.grid[b.old_y as int][b.old_x as int]));
        assert(is_printable(s.grid[b.old_y as int][b.old_x + 1]));
        law_pair_written(t1, b.old_x, b.old_y, l, r, rest);
    }
}

/// After the cells of `bugs` were given back, a cell covered by one of them
/// shows what `s` holds there, and any other cell is as it was.
proof fn lemma_restores_grid(t: ScreenModel, s: ScreenModel, bugs: Seq<Bug>)
    requires
        s.wf(),
        s.cols >= 1,
        s.rows >= 1,
        all_printable(s),
        t.wf(),
        t.cols == s.cols,
        t.rows == s.rows,
        forall|i: int| 0 <= i < bugs.len() ==> restorable(#[trigger] bugs[i], s),
    ensures
        forall|r: int, c: int|
            0 <= r < s.rows && 0 <= c < s.cols ==> #[trigger] after_restores(t, s, bugs).grid[r][c] == if covered_by(
                bugs,
                c,
                r,
            ) {
                s.grid[r][c]
            } else {
                t.grid[r][c]
            },
    decreases bugs.len(),
{
    assert(valid_utf8(Seq::<u8>::empty()));
    lemma_restores_read(t, s, bugs, seq![]);
    if bugs.len() > 0 {
        let init = bugs.drop_last();
        let b = bugs.last();
        assert(restorable(bugs[bugs.len() - 1], s));
        assert forall|i: int| 0 <= i < init.len() implies restorable(#[trigger] init[i], s) by {
            assert(init[i] == bugs[i]);
        }
        lemma_restores_read(t, s, init, seq![]);
        lemma_restores_grid(t, s, init);
        let t1 = after_restores(t, s, init);
        let l = s.char_at(b.old_x, b.old_y);
        let r = s.char_at(b.old_x.wrapping_add(1), b.old_y);
        assert(b.old_x.wrapping_add(1) == b.old_x + 1);
        assert(is_printable(s.grid[b.old_y as int][b.old_x as int]));
        assert(is_printable(s.grid[b.old_y as int][b.old_x + 1]));
        law_pair_written(t1, b.old_x, b.old_y, l, r, seq![]);
        assert forall|rr: int, c: int| 0 <= rr < s.rows && 0 <= c < s.cols implies #[trigger] after_restores(
            t,
            s,
            bugs,
        ).grid[rr][c] == if covered_by(bugs, c, rr) {
            s.grid[rr][c]
        } else {
            t.grid[rr][c]
        } by {
            if covers(b, c, rr) {
                assert(covers(bugs[bugs.len() - 1], c, rr));
            } else {
                if covered_by(bugs, c, rr) {
                    let i = choose|i: int| 0 <= i < bugs.len() && #[trigger] covers(bugs[i], c, rr);
                    assert(i < bugs.len() - 1);
                    assert(covers(init[i], c, rr));
                } else {
                    if covered_by(init, c, rr) {
                        let i = choose|i: int| 0 <= i < init.len() && #[trigger] covers(init[i], c, rr);
                        assert(covers(bugs[i], c, rr));
                    }
                }
            }
        }
    }
}

/// On exit, when the terminal shows what the screen buffer holds but under
/// the bugs, giving every bug's cells back and moving the cursor home leaves
/// it showing exactly the screen buffer (cursor included, once there were
/// bugs). The bugs' cells must lie on the screen, the right ones out of the
/// bottom-right corner, and the buffer hold printable characters.
pub proof fn law_exit_leaves_no_trace(t: ScreenModel, s: ScreenModel, bugs: Seq<Bug>)
    requires
        s.wf(),
        s.cols >= 1,
        s.rows >= 1,
        all_printable(s),
        shows_but_under(t, s, bugs),
        forall|i: int| 0 <= i < bugs.len() ==> restorable(#[trigger] bugs[i], s),
    ensures
        t.process(then_home(restore_all(bugs, s), s)).grid == s.grid,
        bugs.len() > 0 ==> t.process(then_home(restore_all(bugs, s), s)) == s,
{
    let home = cursor_home(s);
    lemma_process_keeps_pending(t, then_home(restore_all(bugs, s), s));
    lemma_cursor_to_valid_utf8(one_based(s.cursor_y), one_based(s.cursor_x));
    lemma_restores_read(t, s, bugs, home);
    lemma_restores_grid(t, s, bugs);
    let t1 = after_restores(t, s, bugs);
    assert forall|rr: int| 0 <= rr < s.rows implies #[trigger] t1.grid[rr] =~= s.grid[rr] by {
        assert(s.grid[rr].len() == s.cols);
        assert(t1.grid[rr].len() == s.cols);
    }
    assert(t1.grid =~= s.grid);
    if bugs.len() > 0 {
        lemma_restore_len_positive(bugs, s);
        assert(then_home(restore_all(bugs, s), s) == restore_all(bugs, s) + home);
        assert(one_based(s.cursor_y) == s.cursor_y + 1);
        assert(one_based(s.cursor_x) == s.cursor_x + 1);
        law_cursor_position(t1, one_based(s.cursor_y), one_based(s.cursor_x), seq![]);
        assert(home + seq![] =~= home);
        let t2 = t1.with_cursor(s.cursor_x, s.cursor_y);
        assert(t1.with_cursor(
            min_u16((one_based(s.cursor_x) - 1) as u16, (t1.cols - 1) as u16),
            min_u16((one_based(s.cursor_y) - 1) as u16, (t1.rows - 1) as u16),
        ) == t2);
        assert(t2.process(seq![]) == t2);
    } else {
        assert(restore_all(bugs, s) == Seq::<u8>::empty());
        assert(t.process(seq![]) == t);
        assert(t1 == t);
    }
}

proof fn lemma_restore_len_positive(bugs: Seq<Bug>, s: ScreenModel)
    requires
        bugs.len() > 0,
    ensures
        restore_all(bugs, s).len() > 0,
{
    let b = bugs.last();
    assert(restore_from(s, b.old_x, b.old_y).len() > 0) by {
        assert(cursor_to(one_based(b.old_y), one_based(b.old_x)).len() > 0);
    }
}

/// A cell is covered by the bugs of `a + b` exactly when it is covered by
/// those of `a` or by those of `b`.
proof fn lemma_covered_concat(a: Seq<Bug>, b: Seq<Bug>, c: int, r: int)
    ensures
        covered_by(a + b, c, r) <==> (covered_by(a, c, r) || covered_by(b, c, r)),
{
    if covered_by(a + b, c, r) {
        let i = choose|i: int| 0 <= i < (a + b).len() && #[trigger] covers((a + b)[i], c, r);
        if i < a.len() {
            assert(covers(a[i], c, r));
        } else {
            assert(covers(b[i - a.len()], c, r));
        }
    }
    if covered_by(a, c, r) {
        let i = choose|i: int| 0 <= i < a.len() && #[trigger] covers(a[i], c, r);
        assert(covers((a + b)[i], c, r));
    }
    if covered_by(b, c, r) {
        let i = choose|i: int| 0 <= i < b.len() && #[trigger] covers(b[i], c, r);
        assert(covers((a + b)[a.len() + i], c, r));
    }
}

/// A cell is covered by the bugs of `[b]` exactly when `b` covers it.
proof fn lemma_covered_single(b: Bug, c: int, r: int)
    ensures
        covered_by(seq![b], c, r) <==> covers(b, c, r),
{
    if covers(b, c, r) {
        assert(covers(seq![b][0], c, r));
    }
}

/// The terminal `t` after reading what one tick at time `now` (animation
/// tick `tick`) writes for `bugs` on the screen buffer `s`: each bug's
/// cells are given back and each living bug is drawn at its new cell.
pub open spec fn after_tick(t: ScreenModel, s: ScreenModel, bugs: Seq<Bug>, now: u64, tick: u64) -> ScreenModel
    decreases bugs.len(),
{
    if bugs.len() == 0 {
        t
    } else {
        let b = bugs.last();
        let t1 = after_tick(t, s, bugs.drop_last(), now, tick);
        let t2 = written_pair(
            t1,
            b.old_x,
            b.old_y,
            s.char_at(b.old_x, b.old_y),
            s.char_at(b.old_x.wrapping_add(1), b.old_y),
        );
        if is_dead(b, now) {
            t2
        } else {
            let m = moved(b, tick, s.cols, s.rows);
            t2.with_cursor(m.x, m.y).put_char(m.emoji)
        }
    }
}

/// The bugs can take part in a tick on `s`: their cells can be given back,
/// they head one way on each axis, and their emoji is printable.
pub open spec fn tickable(bugs: Seq<Bug>, s: ScreenModel) -> bool {
    forall|i: int|
        0 <= i < bugs.len() ==> {
            &&& restorable(#[trigger] bugs[i], s)
            &&& bug_wf(bugs[i])
            &&& is_printable(bugs[i].emoji)
        }
}

/// A screen on which a tick's bytes can be read cell by cell: at least 3
/// columns and 2 rows, every cell printable.
pub open spec fn tick_screen(s: ScreenModel) -> bool {
    &&& s.wf()
    &&& s.cols >= 3
    &&& s.rows >= 2
    &&& all_printable(s)
}

proof fn lemma_tickable_init(bugs: Seq<Bug>, s: ScreenModel)
    requires
        tickable(bugs, s),
        bugs.len() > 0,
    ensures
        tickable(bugs.drop_last(), s),
        restorable(bugs.last(), s),
        bug_wf(bugs.last()),
        is_printable(bugs.last().emoji),
{
    assert(restorable(bugs[bugs.len() - 1], s));
    assert forall|i: int| 0 <= i < bugs.drop_last().len() implies {
        &&& restorable(#[trigger] bugs.drop_last()[i], s)
        &&& bug_wf(bugs.drop_last()[i])
        &&& is_printable(bugs.drop_last()[i].emoji)
    } by {
        assert(bugs.drop_last()[i] == bugs[i]);
    }
}

/// What a living bug writes after its cells are given back (its emoji at
/// its new cell) reads as that emoji written there.
proof fn lemma_draw_read(t: ScreenModel, x: u16, y: u16, emoji: char, rest: Seq<u8>)
    requires
        t.wf(),
        t.cols >= 1,
        t.rows >= 1,
        x + 1 < t.cols,
        y < t.rows,
        is_printable(emoji),
        valid_utf8(rest),
    ensures
        t.process(draw_bytes(x, y, seq![emoji]) + rest) == t.with_cursor(x, y).put_char(emoji).process(rest),
        t.with_cursor(x, y).put_char(emoji).wf(),
        t.with_cursor(x, y).put_char(emoji).cols == t.cols,
        t.with_cursor(x, y).put_char(emoji).rows == t.rows,
        t.with_cursor(x, y).put_char(emoji).grid == t.grid.update(y as int, t.grid[y as int].update(x as int, emoji)),
        valid_utf8(draw_bytes(x, y, seq![emoji]) + rest),
{
    let cup = cursor_to(one_based(y), one_based(x));
    let e = encode_utf8(seq![emoji]);
    assert(one_based(y) == y + 1);
    assert(one_based(x) == x + 1);
    assert(draw_bytes(x, y, seq![emoji]) + rest =~= cup + (e + rest));
    lemma_cursor_to_valid_utf8(one_based(y), one_based(x));
    encode_utf8_valid_utf8(seq![emoji]);
    valid_utf8_concat(e, rest);
    valid_utf8_concat(cup, e + rest);
    law_cursor_position(t, one_based(y), one_based(x), e + rest);
    let t1 = t.with_cursor(x, y);
    assert(t.with_cursor(
        min_u16((one_based(x) - 1) as u16, (t.cols - 1) as u16),
        min_u16((one_based(y) - 1) as u16, (t.rows - 1) as u16),
    ) == t1);
    crate::screen_laws::law_printable_written(t1, emoji, rest);
    let t2 = t1.put_char(emoji);
    assert(t2.grid =~= t.grid.update(y as int, t.grid[y as int].update(x as int, emoji)));
}

/// The terminal `t1` after the cells of bug `b` were given back from `s`
/// and, if `b` is alive at `now`, its emoji drawn at its new cell.
pub open spec fn after_bug(t1: ScreenModel, s: ScreenModel, b: Bug, now: u64, tick: u64) -> ScreenModel {
    let t2 = written_pair(
        t1,
        b.old_x,
        b.old_y,
        s.char_at(b.old_x, b.old_y),
        s.char_at(b.old_x.wrapping_add(1), b.old_y),
    );
    if is_dead(b, now) {
        t2
    } else {
        let m = moved(b, tick, s.cols, s.rows);
        t2.with_cursor(m.x, m.y).put_char(m.emoji)
    }
}

/// Reading what one tick writes for bug `b`, then `rest`, is reading `rest`
/// on `after_bug`.
proof fn lemma_bug_read(t1: ScreenModel, s: ScreenModel, b: Bug, now: u64, tick: u64, rest: Seq<u8>)
    requires
        tick_screen(s),
        t1.wf(),
        t1.cols == s.cols,
        t1.rows == s.rows,
        restorable(b, s),
        bug_wf(b),
        is_printable(b.emoji),
        valid_utf8(rest),
    ensures
        t1.process(crate::animation::tick_bug(b, now, tick, s).0 + rest) == after_bug(t1, s, b, now, tick).process(rest),
        after_bug(t1, s, b, now, tick).wf(),
        after_bug(t1, s, b, now, tick).cols == s.cols,
        after_bug(t1, s, b, now, tick).rows == s.rows,
        valid_utf8(crate::animation::tick_bug(b, now, tick, s).0 + rest),
{
    let l = s.char_at(b.old_x, b.old_y);
    let r = s.char_at(b.old_x.wrapping_add(1), b.old_y);
    assert(b.old_x.wrapping_add(1) == b.old_x + 1);
    assert(is_printable(s.grid[b.old_y as int][b.old_x as int]));
    assert(is_printable(s.grid[b.old_y as int][b.old_x + 1]));
    let piece = restore_from(s, b.old_x, b.old_y);
    lemma_restore_bytes_valid(b.old_x, b.old_y, l, r);
    if is_dead(b, now) {
        valid_utf8_concat(piece, rest);
        law_pair_written(t1, b.old_x, b.old_y, l, r, rest);
    } else {
        let m = moved(b, tick, s.cols, s.rows);
        lemma_moved_settles(b, tick, s.cols, s.rows);
        let draw = draw_bytes(m.x, m.y, seq![m.emoji]);
        law_pair_written(t1, b.old_x, b.old_y, l, r, seq![]);
        let t2 = written_pair(t1, b.old_x, b.old_y, l, r);
        lemma_draw_read(t2, m.x, m.y, m.emoji, rest);
        valid_utf8_concat(piece, draw + rest);
        law_pair_written(t1, b.old_x, b.old_y, l, r, draw + rest);
        assert(crate::animation::tick_bug(b, now, tick, s).0 + rest =~= piece + (draw + rest));
    }
}

/// Reading what one tick writes, then `rest`, is reading `rest` on the
/// terminal `after_tick` gives.
proof fn lemma_tick_read(t: ScreenModel, s: ScreenModel, bugs: Seq<Bug>, now: u64, tick: u64, rest: Seq<u8>)
    requires
        tick_screen(s),
        t.wf(),
        t.cols == s.cols,
        t.rows == s.rows,
        tickable(bugs, s),
        valid_utf8(rest),
    ensures
        t.process(tick_bugs(bugs, now, tick, s).0 + rest) == after_tick(t, s, bugs, now, tick).process(rest),
        after_tick(t, s, bugs, now, tick).wf(),
        after_tick(t, s, bugs, now, tick).cols == s.cols,
        after_tick(t, s, bugs, now, tick).rows == s.rows,
        valid_utf8(tick_bugs(bugs, now, tick, s).0 + rest),
    decreases bugs.len(),
{
    if bugs.len() == 0 {
        assert(tick_bugs(bugs, now, tick, s).0 + rest =~= rest);
    } else {
        let init = bugs.drop_last();
        let b = bugs.last();
        lemma_tickable_init(bugs, s);
        let mine = crate::animation::tick_bug(b, now, tick, s).0;
        // The bug's bytes are valid UTF-8 whatever terminal reads them;
        // reading them on `s` itself shows it.
        lemma_bug_read(s, s, b, now, tick, rest);
        lemma_tick_read(t, s, init, now, tick, mine + rest);
        assert(tick_bugs(bugs, now, tick, s).0 + rest =~= tick_bugs(init, now, tick, s).0 + (mine + rest));
        let t1 = after_tick(t, s, init, now, tick);
        lemma_bug_read(t1, s, b, now, tick, rest);
        assert(after_tick(t, s, bugs, now, tick) == after_bug(t1, s, b, now, tick));
    }
}

/// After a tick, the terminal shows what the screen buffer holds but under
/// the living bugs (at their new cells) and under `extra`, when before it
/// did but under the bugs and `extra`.
proof fn lemma_tick_shows(t: ScreenModel, s: ScreenModel, bugs: Seq<Bug>, extra: Seq<Bug>, now: u64, tick: u64)
    requires
        tick_screen(s),
        shows_but_under(t, s, bugs + extra),
        tickable(bugs, s),
    ensures
        shows_but_under(after_tick(t, s, bugs, now, tick), s, tick_bugs(bugs, now, tick, s).1 + extra),
    decreases bugs.len(),
{
    assert(valid_utf8(Seq::<u8>::empty()));
    lemma_tick_read(t, s, bugs, now, tick, seq![]);
    if bugs.len() == 0 {
        assert(tick_bugs(bugs, now, tick, s).1 + extra =~= extra);
        assert(bugs + extra =~= extra);
    } else {
        let init = bugs.drop_last();
        let b = bugs.last();
        lemma_tickable_init(bugs, s);
        let more = seq![b] + extra;
        assert(bugs + extra =~= init + more);
        lemma_tick_read(t, s, init, now, tick, seq![]);
        lemma_tick_shows(t, s, init, more, now, tick);
        let t1 = after_tick(t, s, init, now, tick);
        let alive = tick_bugs(init, now, tick, s).1;
        let l = s.char_at(b.old_x, b.old_y);
        let r = s.char_at(b.old_x.wrapping_add(1), b.old_y);
        assert(b.old_x.wrapping_add(1) == b.old_x + 1);
        assert(is_printable(s.grid[b.old_y as int][b.old_x as int]));
        assert(is_printable(s.grid[b.old_y as int][b.old_x + 1]));
        law_pair_written(t1, b.old_x, b.old_y, l, r, seq![]);
        let t2 = written_pair(t1, b.old_x, b.old_y, l, r);
        // t2 shows s but under alive + extra
        assert forall|rr: int, c: int|
            0 <= rr < s.rows && 0 <= c < s.cols && !covered_by(alive + extra, c, rr) implies #[trigger] t2.grid[rr][c]
            == s.grid[rr][c] by {
            lemma_covered_concat(alive, more, c, rr);
            lemma_covered_concat(alive, extra, c, rr);
            lemma_covered_concat(seq![b], extra, c, rr);
            lemma_covered_single(b, c, rr);
            if !covers(b, c, rr) {
                assert(!covered_by(alive + more, c, rr));
            }
        }
        if is_dead(b, now) {
            assert(tick_bugs(bugs, now, tick, s).1 == alive);
        } else {
            let m = moved(b, tick, s.cols, s.rows);
            lemma_moved_settles(b, tick, s.cols, s.rows);
            let nb = Bug { old_x: m.x, old_y: m.y, drawn: true, ..m };
            assert(tick_bugs(bugs, now, tick, s).1 == alive.push(nb));
            assert(alive.push(nb) + extra =~= alive + (seq![nb] + extra));
            lemma_draw_read(t2, m.x, m.y, m.emoji, seq![]);
            let t3 = t2.with_cursor(m.x, m.y).put_char(m.emoji);
            assert forall|rr: int, c: int|
                0 <= rr < s.rows && 0 <= c < s.cols && !covered_by(alive.push(nb) + extra, c, rr) implies #[trigger] t3.grid[rr][c]
                == s.grid[rr][c] by {
                lemma_covered_concat(alive, seq![nb] + extra, c, rr);
                lemma_covered_concat(seq![nb], extra, c, rr);
                lemma_covered_concat(alive, extra, c, rr);
                lemma_covered_single(nb, c, rr);
                assert(!covers(nb, c, rr));
                assert(t3.grid[rr][c] == t2.grid[rr][c]);
            }
        }
    }
}

/// One tick, with the cursor then sent home if anything was written, keeps
/// the terminal showing what the screen buffer holds but under the living
/// bugs, and puts the cursor where the buffer has it. The screen must have
/// at least 3 columns and 2 rows and hold printable characters; the bugs'
/// cells must lie on it, out of the bottom-right corner; their emoji must be
/// printable.
pub proof fn law_tick_keeps_display(t: ScreenModel, s: ScreenModel, m: BugManagerModel, now: u64)
    requires
        tick_screen(s),
        shows_but_under(t, s, m.bugs),
        tickable(m.bugs, s),
    ensures
        ({
            let (bytes, after) = m.updated(now, s);
            let shown = t.process(then_home(bytes, s));
            &&& shows_but_under(shown, s, after.bugs)
            &&& bytes.len() > 0 ==> shown.cursor_x == s.cursor_x && shown.cursor_y == s.cursor_y
        }),
{
    let tick = m.tick.wrapping_add(1);
    let (bytes, after) = m.updated(now, s);
    let now = m.reading(now);
    assert(bytes == tick_bugs(m.bugs, now, tick, s).0);
    assert(after.bugs == tick_bugs(m.bugs, now, tick, s).1);
    let home = cursor_home(s);
    lemma_cursor_to_valid_utf8(one_based(s.cursor_y), one_based(s.cursor_x));
    assert(valid_utf8(Seq::<u8>::empty()));
    assert(m.bugs + seq![] =~= m.bugs);
    lemma_tick_shows(t, s, m.bugs, seq![], now, tick);
    assert(after.bugs + seq![] =~= after.bugs);
    let t1 = after_tick(t, s, m.bugs, now, tick);
    if bytes.len() > 0 {
        lemma_tick_read(t, s, m.bugs, now, tick, home);
        assert(then_home(bytes, s) == bytes + home);
        assert(one_based(s.cursor_y) == s.cursor_y + 1);
        assert(one_based(s.cursor_x) == s.cursor_x + 1);
        law_cursor_position(t1, one_based(s.cursor_y), one_based(s.cursor_x), seq![]);
        assert(home + seq![] =~= home);
        let t2 = t1.with_cursor(s.cursor_x, s.cursor_y);
        assert(t1.with_cursor(
            min_u16((one_based(s.cursor_x) - 1) as u16, (t1.cols - 1) as u16),
            min_u16((one_based(s.cursor_y) - 1) as u16, (t1.rows - 1) as u16),
        ) == t2);
        assert(t2.process(seq![]) == t2);
    } else {
        lemma_tick_read(t, s, m.bugs, now, tick, seq![]);
        assert(bytes + seq![] =~= bytes);
        assert(then_home(bytes, s) == bytes);
    }
}

/// The terminal `t` after each of `bugs` not yet drawn at its cell was drawn there.
pub open spec fn after_draws(t: ScreenModel, bugs: Seq<Bug>) -> ScreenModel
    decreases bugs.len(),
{
    if bugs.len() == 0 {
        t
    } else {
        let b = bugs.last();
        let t1 = after_draws(t, bugs.drop_last());
        if !b.drawn {
            t1.with_cursor(b.x, b.y).put_char(b.emoji)
        } else {
            t1
        }
    }
}

/// The bugs can be drawn on `s`: their cells lie on it, out of the
/// bottom-right corner, their emoji is printable, and a bug not drawn yet
/// has not moved since it was created.
pub open spec fn drawable(bugs: Seq<Bug>, s: ScreenModel) -> bool {
    forall|i: int|
        0 <= i < bugs.len() ==> {
            &&& restorable(#[trigger] bugs[i], s)
            &&& is_printable(bugs[i].emoji)
            &&& !bugs[i].drawn ==> bugs[i].old_x == bugs[i].x && bugs[i].old_y == bugs[i].y
        }
}

/// Reading the drawing of the bugs, then `rest`, is reading `rest` on
/// `after_draws`, which differs from `t` only in cells the bugs cover.
proof fn lemma_draws_read(t: ScreenModel, s: ScreenModel, bugs: Seq<Bug>, rest: Seq<u8>)
    requires
        s.wf(),
        s.cols >= 1,
        s.rows >= 1,
        t.wf(),
        t.cols == s.cols,
        t.rows == s.rows,
        drawable(bugs, s),
        valid_utf8(rest),
    ensures
        t.process(draw_new_bugs(bugs) + rest) == after_draws(t, bugs).process(rest),
        after_draws(t, bugs).wf(),
        after_draws(t, bugs).cols == s.cols,
        after_draws(t, bugs).rows == s.rows,
        valid_utf8(draw_new_bugs(bugs) + rest),
        forall|r: int, c: int|
            0 <= r < s.rows && 0 <= c < s.cols && !covered_by(bugs, c, r) ==> #[trigger] after_draws(t, bugs).grid[r][c]
                == t.grid[r][c],
    decreases bugs.len(),
{
    if bugs.len() == 0 {
        assert(draw_new_bugs(bugs) + rest =~= rest);
    } else {
        let init = bugs.drop_last();
        let b = bugs.last();
        assert(restorable(bugs[bugs.len() - 1], s) && is_printable(bugs[bugs.len() - 1].emoji));
        assert(bugs[bugs.len() - 1] == b);
        assert(drawable(init, s)) by {
            assert forall|i: int| 0 <= i < init.len() implies restorable(#[trigger] init[i], s) by {
                assert(init[i] == bugs[i]);
            }
        }
        if !b.drawn {
            let piece = draw_bytes(b.x, b.y, seq![b.emoji]);
            lemma_draw_read(s, b.x, b.y, b.emoji, rest);
            lemma_draws_read(t, s, init, piece + rest);
            assert(draw_new_bugs(bugs) + rest =~= draw_new_bugs(init) + (piece + rest));
            let t1 = after_draws(t, init);
            lemma_draw_read(t1, b.x, b.y, b.emoji, rest);
            assert forall|r: int, c: int|
                0 <= r < s.rows && 0 <= c < s.cols && !covered_by(bugs, c, r) implies #[trigger] after_draws(t, bugs).grid[r][c]
                == t.grid[r][c] by {
                lemma_covered_concat(init, seq![b], c, r);
                lemma_covered_single(b, c, r);
                assert(bugs =~= init + seq![b]);
            }
        } else {
            lemma_draws_read(t, s, init, rest);
            assert(draw_new_bugs(bugs) + rest =~= draw_new_bugs(init) + rest);
            assert forall|r: int, c: int|
                0 <= r < s.rows && 0 <= c < s.cols && !covered_by(bugs, c, r) implies #[trigger] after_draws(t, bugs).grid[r][c]
                == t.grid[r][c] by {
                lemma_covered_concat(init, seq![b], c, r);
                assert(bugs =~= init + seq![b]);
            }
        }
    }
}

/// Drawing the bugs that are not yet drawn, then sending the cursor home,
/// keeps the terminal showing what the screen buffer holds but under the
/// bugs, and puts the cursor where the buffer has it.
pub proof fn law_draw_keeps_display(t: ScreenModel, s: ScreenModel, bugs: Seq<Bug>)
    requires
        s.wf(),
        s.cols >= 1,
        s.rows >= 1,
        shows_but_under(t, s, bugs),
        drawable(bugs, s),
    ensures
        ({
            let shown = t.process(draw_new_bugs(bugs) + cursor_home(s));
            &&& shows_but_under(shown, s, bugs)
            &&& shown.cursor_x == s.cursor_x
            &&& shown.cursor_y == s.cursor_y
        }),
{
    let home = cursor_home(s);
    lemma_process_keeps_pending(t, draw_new_bugs(bugs) + home);
    lemma_cursor_to_valid_utf8(one_based(s.cursor_y), one_based(s.cursor_x));
    lemma_draws_read(t, s, bugs, home);
    let t1 = after_draws(t, bugs);
    assert(one_based(s.cursor_y) == s.cursor_y + 1);
    assert(one_based(s.cursor_x) == s.cursor_x + 1);
    law_cursor_position(t1, one_based(s.cursor_y), one_based(s.cursor_x), seq![]);
    assert(home + seq![] =~= home);
    let t2 = t1.with_cursor(s.cursor_x, s.cursor_y);
    assert(t1.with_cursor(
        min_u16((one_based(s.cursor_x) - 1) as u16, (t1.cols - 1) as u16),
        min_u16((one_based(s.cursor_y) - 1) as u16, (t1.rows - 1) as u16),
    ) == t2);
    assert(t2.process(seq![]) == t2);
}

} // verus!
