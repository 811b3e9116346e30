//! The decisions of the sniffer's main loop: what happens to the user's
//! input, to each chunk of shell output, on each animation tick and on exit.
//! The loop itself (reading, forwarding, sleeping) is outside the library.

use std::collections::VecDeque;

use vstd::prelude::*;

use crate::animation::{bug_wf, draw_new_bugs, marked_drawn, restore_all, BugManager, BugManagerModel};
use crate::screen::{ScreenBuffer, ScreenModel};
use crate::terminal::{cursor_to, one_based, push_cursor_to};
use crate::watcher::{total_matches, utf8_lossy, Watcher};

verus! {

/// How many bytes of input may wait to be seen again as echo.
pub const ECHO_LIMIT: usize = 4096;

/// `n` is the length of the longest common prefix of `a` and `b`.
pub open spec fn is_common_prefix_len(a: Seq<u8>, b: Seq<u8>, n: int) -> bool {
    &&& 0 <= n <= a.len()
    &&& n <= b.len()
    &&& a.take(n) == b.take(n)
    &&& (n == a.len() || n == b.len() || a[n] != b[n])
}

/// Strips from the head of `data` the bytes that match the input still
/// waiting to be echoed, and drops them from `pending`. Returns the rest of
/// `data` and the number of bytes stripped.
pub fn strip_echo<'a>(data: &'a [u8], pending: &mut VecDeque<u8>) -> (r: (&'a [u8], usize))
    ensures
        is_common_prefix_len(data@, old(pending)@, r.1 as int),
        r.0@ == data@.skip(r.1 as int),
        final(pending)@ == old(pending)@.skip(r.1 as int),
{
    let mut consumed: usize = 0;
    while consumed < data.len() && pending.len() > 0 && pending[0] == data[consumed]
        invariant
            consumed <= data@.len(),
            consumed <= old(pending)@.len(),
            data@.take(consumed as int) == old(pending)@.take(consumed as int),
            pending@ == old(pending)@.skip(consumed as int),
        decreases data@.len() - consumed,
    {
        pending.pop_front();
        assert(data@.take(consumed + 1) =~= old(pending)@.take(consumed + 1));
        assert(pending@ =~= old(pending)@.skip(consumed + 1));
        consumed = consumed + 1;
    }
    (&data[consumed..data.len()], consumed)
}

/// The input still waiting to be echoed once `data` has been sent to the
/// shell: the last `ECHO_LIMIT` bytes at most.
pub open spec fn pending_after_input(pending: Seq<u8>, data: Seq<u8>) -> Seq<u8> {
    let all = pending + data;
    if all.len() > ECHO_LIMIT {
        all.skip(all.len() - ECHO_LIMIT)
    } else {
        all
    }
}

/// Records input sent to the shell, to be recognized when echoed back.
pub fn record_input(pending: &mut VecDeque<u8>, data: &[u8])
    ensures
        final(pending)@ == pending_after_input(old(pending)@, data@),
{
    let mut i: usize = 0;
    while i < data.len()
        invariant
            i <= data@.len(),
            pending@ == old(pending)@ + data@.take(i as int),
        decreases data@.len() - i,
    {
        pending.push_back(data[i]);
        assert(data@.take(i + 1) =~= data@.take(i as int).push(data@[i as int]));
        i = i + 1;
    }
    assert(data@.take(i as int) =~= data@);
    let ghost all = pending@;
    while pending.len() > ECHO_LIMIT
        invariant
            all == old(pending)@ + data@,
            pending@.len() >= ECHO_LIMIT || all.len() <= ECHO_LIMIT,
            all.len() <= ECHO_LIMIT ==> pending@.len() == all.len(),
            pending@.len() <= all.len(),
            pending@ == all.skip(all.len() - pending@.len()),
        decreases pending@.len(),
    {
        pending.pop_front();
        assert(pending@ =~= all.skip(all.len() - pending@.len()));
    }
    assert(pending@ =~= pending_after_input(old(pending)@, data@));
}

/// The number of keyword matches that `watcher` reports for `bytes`.
pub open spec fn scan_count(patterns: Seq<Seq<char>>, bytes: Seq<u8>) -> nat {
    let total = total_matches(patterns, utf8_lossy(bytes));
    if total > usize::MAX {
        usize::MAX as nat
    } else {
        total
    }
}

/// The bytes that put the terminal's cursor where the screen buffer has it.
pub open spec fn cursor_home(screen: ScreenModel) -> Seq<u8> {
    cursor_to(one_based(screen.cursor_y), one_based(screen.cursor_x))
}

/// Puts the terminal's cursor where the screen buffer has it.
pub fn restore_cursor(out: &mut Vec<u8>, screen: &ScreenBuffer)
    ensures
        final(out)@ == old(out)@ + cursor_home(screen@),
{
    let (x, y) = screen.cursor();
    push_cursor_to(out, y.wrapping_add(1), x.wrapping_add(1));
}

/// Handles a chunk of shell output that was forwarded to the terminal: the
/// screen buffer takes it in; the echo of the user's input is stripped from
/// its head; the rest, if any, is scanned for keywords; on a match, bugs are
/// spawned with lifetimes around `lifetime_ms`. They are drawn, and the cursor
/// put back where the screen buffer has it, unless the output ended inside an
/// escape sequence or character: the terminal then waits for its end, and
/// the bugs are first drawn by a later tick. Returns the number of matches.
pub fn handle_output(
    screen: &mut ScreenBuffer,
    pending: &mut VecDeque<u8>,
    watcher: &Watcher,
    bugs: &mut BugManager,
    lifetime_ms: u64,
    data: &[u8],
    out: &mut Vec<u8>,
) -> (matches: usize)
    requires
        old(screen).wf(),
        old(screen)@.rows >= 1 || old(screen)@.feed_scroll_free(data@),
    ensures
        final(screen).wf(),
        final(screen)@ == old(screen)@.fed(data@),
        exists|n: int|
            {
                &&& is_common_prefix_len(data@, old(pending)@, n)
                &&& final(pending)@ == old(pending)@.skip(n)
                &&& matches == if n < data@.len() {
                    scan_count(watcher@, data@.skip(n))
                } else {
                    0
                }
            },
        final(bugs)@.wf(),
        matches == 0 ==> final(bugs)@ == old(bugs)@ && final(out)@ == old(out)@,
        matches > 0 ==> exists|clock_nanos: u64, now: u64|
            #![trigger old(bugs)@.triggered(matches, lifetime_ms, final(screen)@, clock_nanos, now)]
            {
                let spawned = old(bugs)@.triggered(matches, lifetime_ms, final(screen)@, clock_nanos, now);
                &&& final(screen)@.pending.len() == 0 ==> {
                    &&& final(bugs)@ == (BugManagerModel { bugs: marked_drawn(spawned.bugs), ..spawned })
                    &&& final(out)@ == old(out)@ + draw_new_bugs(spawned.bugs) + cursor_home(final(screen)@)
                }
                &&& final(screen)@.pending.len() > 0 ==> final(bugs)@ == spawned && final(out)@ == old(out)@
            },
{
    proof {
        use_type_invariant(&*bugs);
    }
    screen.process_output(data);
    let (rest, _consumed) = strip_echo(data, pending);
    if rest.len() == 0 {
        return 0;
    }
    let matches = watcher.scan(rest);
    if matches > 0 {
        bugs.trigger(matches, lifetime_ms, screen);
        if !screen.has_pending() {
            let ghost spawned = bugs@;
            bugs.draw_to(out, screen);
            assert forall|i: int| 0 <= i < bugs@.bugs.len() implies bug_wf(#[trigger] bugs@.bugs[i]) by {
                assert(bug_wf(spawned.bugs[i]));
            }
            restore_cursor(out, screen);
        }
    }
    matches
}

/// The cursor move home after `bytes` were written for the bugs, if any were.
pub open spec fn then_home(bytes: Seq<u8>, screen: ScreenModel) -> Seq<u8> {
    if bytes.len() > 0 {
        bytes + cursor_home(screen)
    } else {
        bytes
    }
}

/// One animation tick: bugs die or move (see `BugManager::update`); if
/// anything was written for them, the cursor is then put back where the
/// screen buffer has it. While the shell's output has stopped inside an
/// escape sequence or character, the tick is skipped: the terminal waits for
/// the rest of it, and nothing is written in between.
pub fn handle_tick(bugs: &mut BugManager, screen: &mut ScreenBuffer, out: &mut Vec<u8>)
    requires
        old(screen).wf(),
    ensures
        final(bugs)@.wf(),
        final(screen)@ == old(screen)@,
        old(screen)@.pending.len() > 0 ==> final(bugs)@ == old(bugs)@ && final(out)@ == old(out)@,
        old(screen)@.pending.len() == 0 ==> exists|now: u64|
            {
                &&& final(bugs)@ == old(bugs)@.updated(now, old(screen)@).1
                &&& final(out)@ == old(out)@ + then_home(old(bugs)@.updated(now, old(screen)@).0, old(screen)@)
            },
{
    proof {
        use_type_invariant(&*bugs);
    }
    if screen.has_pending() {
        return;
    }
    let start = out.len();
    bugs.update(out, screen);
    if out.len() > start {
        restore_cursor(out, screen);
    }
    assert(old(out)@.len() == start);
}

/// On exit: every bug gives its cells back; if there were any, the cursor
/// is then put back where the screen buffer has it.
pub fn handle_exit(bugs: &mut BugManager, screen: &mut ScreenBuffer, out: &mut Vec<u8>)
    requires
        old(screen).wf(),
    ensures
        final(bugs)@ == (BugManagerModel { bugs: seq![], ..old(bugs)@ }),
        final(screen)@ == old(screen)@,
        final(out)@ == old(out)@ + then_home(restore_all(old(bugs)@.bugs, old(screen)@), old(screen)@),
{
    let start = out.len();
    bugs.clear_all(out, screen);
    if out.len() > start {
        restore_cursor(out, screen);
    }
}

/// What the echo stripping removes is a common head of the data and the
/// pending input: the data is that head and what is left to scan, and the
/// pending input is that head and what stays pending.
pub proof fn law_echo_split(data: Seq<u8>, pending: Seq<u8>, n: int)
    requires
        is_common_prefix_len(data, pending, n),
    ensures
        data == data.take(n) + data.skip(n),
        pending == data.take(n) + pending.skip(n),
{
    assert(data =~= data.take(n) + data.skip(n));
    assert(pending =~= pending.take(n) + pending.skip(n));
}

/// The input still awaiting its echo never exceeds `ECHO_LIMIT` bytes, ends
/// with the newest input, and is all of it while it fits.
pub proof fn law_pending_input_bounded(pending: Seq<u8>, data: Seq<u8>)
    ensures
        pending_after_input(pending, data).len() <= ECHO_LIMIT,
        pending + data == (pending + data).take(
            (pending + data).len() - pending_after_input(pending, data).len(),
        ) + pending_after_input(pending, data),
        (pending + data).len() <= ECHO_LIMIT ==> pending_after_input(pending, data) == pending + data,
{
    let all = pending + data;
    let kept = pending_after_input(pending, data);
    assert(all =~= all.take(all.len() - kept.len()) + kept);
}

/// Input typed with nothing else pending (and no more than `ECHO_LIMIT`
/// bytes) is stripped entirely when the shell echoes it back first.
pub proof fn law_echo_of_input_is_stripped(input: Seq<u8>, more: Seq<u8>, n: int)
    requires
        input.len() <= ECHO_LIMIT,
        is_common_prefix_len(input + more, pending_after_input(seq![], input), n),
    ensures
        n == input.len(),
{
    let pending = pending_after_input(seq![], input);
    assert(pending =~= input);
    if n < input.len() {
        assert((input + more)[n] == input[n]);
    }
}

} // verus!
