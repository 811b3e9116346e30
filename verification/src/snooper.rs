//! Decisions of the commands that stop the sniffer and report on it: the
//! stop command as a state machine (the caller reads the pid file, probes
//! and signals the process, waits and reports), the status it reports, and
//! how long the sniffer has run, read from the kernel's process tables.

use vstd::prelude::*;

verus! {

/// How many times the stop command probes the process after SIGTERM before
/// it gives up on it.
pub const PROBE_LIMIT: u32 = 40;

/// The pause between two probes, in milliseconds.
pub const PROBE_INTERVAL_MS: u64 = 50;

/// What the stop command has learned so far, between two of its actions.
#[derive(Debug, Clone, Copy, PartialEq, Eq, Structural)]
pub enum StopState {
    /// Nothing yet: the pid file is read.
    Start,
    /// A pid was read; whether that process is alive is asked.
    Checking { pid: u32 },
    /// The process is alive; SIGTERM is asked for.
    Terminating { pid: u32 },
    /// SIGTERM was sent; the answer to the `probes`-th probe is awaited.
    Polling { pid: u32, probes: u32 },
    /// Every probe found the process alive; a last pause is asked for.
    Waiting { pid: u32 },
    /// The process was reported unresponsive; SIGKILL comes next.
    Warned { pid: u32 },
    /// The pid file is removed next.
    Removing,
    /// Nothing is left to do.
    Finished,
}

/// What the caller found out by carrying out the last action.
#[derive(Debug, Clone, Copy, PartialEq, Eq, Structural)]
pub enum StopEvent {
    /// The pid file held this pid, or there was none.
    PidRead(Option<u32>),
    /// Whether the process answered a probe.
    Alive(bool),
    /// Whether SIGTERM could be sent.
    TermSent(bool),
    /// The action was carried out.
    Performed,
}

/// What the stop command tells the user.
#[derive(Debug, Clone, Copy, PartialEq, Eq, Structural)]
pub enum StopReport {
    /// There is no pid file.
    NotRunning,
    /// The pid file names a process that no longer runs.
    AlreadyStopped(u32),
    /// SIGTERM could not be sent.
    TermFailed,
    /// The process stopped after SIGTERM.
    Stopped,
    /// The process kept running after every probe; it is killed.
    Unresponsive,
}

/// What the caller does next.
#[derive(Debug, Clone, Copy, PartialEq, Eq, Structural)]
pub enum StopAction {
    /// Tell the user.
    Report(StopReport),
    /// Ask at once whether the process is alive.
    Probe(u32),
    /// Send SIGTERM to the process.
    SendTerm(u32),
    /// Pause `PROBE_INTERVAL_MS`, then ask whether the process is alive.
    WaitThenProbe(u32),
    /// Pause `PROBE_INTERVAL_MS`.
    Wait,
    /// Send SIGKILL to the process.
    SendKill(u32),
    /// Remove the pid file.
    RemovePidFile,
    /// Stop: the command is over.
    Done,
}

/// The next state and action of the stop command, from its state and what
/// the last action found out. An event that the state does not wait for ends
/// the command.
pub open spec fn stop_next(state: StopState, event: StopEvent) -> (StopState, StopAction) {
    match state {
        StopState::Start => match event {
            StopEvent::PidRead(None) => (StopState::Finished, StopAction::Report(StopReport::NotRunning)),
            StopEvent::PidRead(Some(pid)) => (StopState::Checking { pid }, StopAction::Probe(pid)),
            _ => (StopState::Finished, StopAction::Done),
        },
        StopState::Checking { pid } => match event {
            StopEvent::Alive(false) => (StopState::Removing, StopAction::Report(StopReport::AlreadyStopped(pid))),
            StopEvent::Alive(true) => (StopState::Terminating { pid }, StopAction::SendTerm(pid)),
            _ => (StopState::Finished, StopAction::Done),
        },
        StopState::Terminating { pid } => match event {
            StopEvent::TermSent(false) => (StopState::Finished, StopAction::Report(StopReport::TermFailed)),
            StopEvent::TermSent(true) => (StopState::Polling { pid, probes: 1 }, StopAction::Probe(pid)),
            _ => (StopState::Finished, StopAction::Done),
        },
        StopState::Polling { pid, probes } => match event {
            StopEvent::Alive(false) => (StopState::Removing, StopAction::Report(StopReport::Stopped)),
            StopEvent::Alive(true) => if probes < PROBE_LIMIT {
                (StopState::Polling { pid, probes: (probes + 1) as u32 }, StopAction::WaitThenProbe(pid))
            } else {
                (StopState::Waiting { pid }, StopAction::Wait)
            },
            _ => (StopState::Finished, StopAction::Done),
        },
        StopState::Waiting { pid } => match event {
            StopEvent::Performed => (StopState::Warned { pid }, StopAction::Report(StopReport::Unresponsive)),
            _ => (StopState::Finished, StopAction::Done),
        },
        StopState::Warned { pid } => match event {
            StopEvent::Performed => (StopState::Removing, StopAction::SendKill(pid)),
            _ => (StopState::Finished, StopAction::Done),
        },
        StopState::Removing => match event {
            StopEvent::Performed => (StopState::Finished, StopAction::RemovePidFile),
            _ => (StopState::Finished, StopAction::Done),
        },
        StopState::Finished => (StopState::Finished, StopAction::Done),
    }
}

/// One step of the stop command, as `stop_next` says. The probes after
/// SIGTERM are counted from 1 to `PROBE_LIMIT`; the process is given up on
/// (and later killed) exactly when it answers the last of them alive, and
/// SIGKILL is sent only after it was reported unresponsive.
pub fn stop_step(state: StopState, event: StopEvent) -> (r: (StopState, StopAction))
    ensures
        r == stop_next(state, event),
        r.0 matches StopState::Polling { probes, .. } ==> 1 <= probes <= PROBE_LIMIT,
        (r.0 matches StopState::Waiting { .. }) <==> (state matches StopState::Polling { probes, .. }
            && probes >= PROBE_LIMIT && event == StopEvent::Alive(true)),
        r.1 matches StopAction::SendKill(pid) ==> state == (StopState::Warned { pid }),
{
    match state {
        StopState::Start => match event {
            StopEvent::PidRead(None) => (StopState::Finished, StopAction::Report(StopReport::NotRunning)),
            StopEvent::PidRead(Some(pid)) => (StopState::Checking { pid }, StopAction::Probe(pid)),
            _ => (StopState::Finished, StopAction::Done),
        },
        StopState::Checking { pid } => match event {
            StopEvent::Alive(false) => (StopState::Removing, StopAction::Report(StopReport::AlreadyStopped(pid))),
            StopEvent::Alive(true) => (StopState::Terminating { pid }, StopAction::SendTerm(pid)),
            _ => (StopState::Finished, StopAction::Done),
        },
        StopState::Terminating { pid } => match event {
            StopEvent::TermSent(false) => (StopState::Finished, StopAction::Report(StopReport::TermFailed)),
            StopEvent::TermSent(true) => (StopState::Polling { pid, probes: 1 }, StopAction::Probe(pid)),
            _ => (StopState::Finished, StopAction::Done),
        },
        StopState::Polling { pid, probes } => match event {
            StopEvent::Alive(false) => (StopState::Removing, StopAction::Report(StopReport::Stopped)),
            StopEvent::Alive(true) => if probes < PROBE_LIMIT {
                (StopState::Polling { pid, probes: probes + 1 }, StopAction::WaitThenProbe(pid))
            } else {
                (StopState::Waiting { pid }, StopAction::Wait)
            },
            _ => (StopState::Finished, StopAction::Done),
        },
        StopState::Waiting { pid } => match event {
            StopEvent::Performed => (StopState::Warned { pid }, StopAction::Report(StopReport::Unresponsive)),
            _ => (StopState::Finished, StopAction::Done),
        },
        StopState::Warned { pid } => match event {
            StopEvent::Performed => (StopState::Removing, StopAction::SendKill(pid)),
            _ => (StopState::Finished, StopAction::Done),
        },
        StopState::Removing => match event {
            StopEvent::Performed => (StopState::Finished, StopAction::RemovePidFile),
            _ => (StopState::Finished, StopAction::Done),
        },
        StopState::Finished => (StopState::Finished, StopAction::Done),
    }
}

/// The stop command fed the events `events` from state `state`: the state
/// it ends in and the actions it asked for, in order.
pub open spec fn stop_run(state: StopState, events: Seq<StopEvent>) -> (StopState, Seq<StopAction>)
    decreases events.len(),
{
    if events.len() == 0 {
        (state, seq![])
    } else {
        let (next, action) = stop_next(state, events[0]);
        let (last, actions) = stop_run(next, events.drop_first());
        (last, seq![action] + actions)
    }
}

/// `n` copies of `e`.
pub open spec fn repeated<T>(e: T, n: nat) -> Seq<T> {
    Seq::new(n, |i: int| e)
}

/// The events of a stop command that finds the live process `pid` and
/// sends it SIGTERM.
pub open spec fn terminated(pid: u32) -> Seq<StopEvent> {
    seq![StopEvent::PidRead(Some(pid)), StopEvent::Alive(true), StopEvent::TermSent(true)]
}

/// The actions answering `terminated(pid)`.
pub open spec fn terminating(pid: u32) -> Seq<StopAction> {
    seq![StopAction::Probe(pid), StopAction::SendTerm(pid), StopAction::Probe(pid)]
}

proof fn lemma_run_concat(state: StopState, a: Seq<StopEvent>, b: Seq<StopEvent>)
    ensures
        stop_run(state, a + b) == ({
            let (mid, first) = stop_run(state, a);
            let (last, second) = stop_run(mid, b);
            (last, first + second)
        }),
    decreases a.len(),
{
    if a.len() == 0 {
        assert(a + b =~= b);
    } else {
        let (next, action) = stop_next(state, a[0]);
        assert((a + b).drop_first() =~= a.drop_first() + b);
        lemma_run_concat(next, a.drop_first(), b);
        let (mid, first) = stop_run(next, a.drop_first());
        let (last, second) = stop_run(mid, b);
        assert(seq![action] + (first + second) =~= (seq![action] + first) + second);
    }
}

/// From the `probes`-th probe on, `n` live answers that stay within the
/// limit lead to as many pauses and probes.
proof fn lemma_run_polling(pid: u32, probes: u32, n: nat)
    requires
        1 <= probes,
        probes + n <= PROBE_LIMIT,
    ensures
        stop_run(StopState::Polling { pid, probes }, repeated(StopEvent::Alive(true), n)) == (
            StopState::Polling { pid, probes: (probes + n) as u32 },
            repeated(StopAction::WaitThenProbe(pid), n),
        ),
    decreases n,
{
    let events = repeated(StopEvent::Alive(true), n);
    if n == 0 {
        assert(repeated(StopAction::WaitThenProbe(pid), 0) =~= Seq::<StopAction>::empty());
    } else {
        assert(events[0] == StopEvent::Alive(true));
        assert(events.drop_first() =~= repeated(StopEvent::Alive(true), (n - 1) as nat));
        lemma_run_polling(pid, (probes + 1) as u32, (n - 1) as nat);
        assert(seq![StopAction::WaitThenProbe(pid)] + repeated(StopAction::WaitThenProbe(pid), (n - 1) as nat)
            =~= repeated(StopAction::WaitThenProbe(pid), n));
    }
}

/// A process that still answers the last of the `PROBE_LIMIT` probes after
/// SIGTERM alive is reported unresponsive and sent SIGKILL, and the pid file
/// is removed.
pub proof fn law_stop_kills_after_last_live_probe(pid: u32)
    ensures
        stop_run(
            StopState::Start,
            terminated(pid) + repeated(StopEvent::Alive(true), PROBE_LIMIT as nat) + repeated(
                StopEvent::Performed,
                4,
            ),
        ) == (
            StopState::Finished,
            terminating(pid) + repeated(StopAction::WaitThenProbe(pid), (PROBE_LIMIT - 1) as nat) + seq![
                StopAction::Wait,
                StopAction::Report(StopReport::Unresponsive),
                StopAction::SendKill(pid),
                StopAction::RemovePidFile,
                StopAction::Done,
            ],
        ),
{
    let live = repeated(StopEvent::Alive(true), (PROBE_LIMIT - 1) as nat);
    let last = seq![StopEvent::Alive(true)];
    let acks = repeated(StopEvent::Performed, 4);
    assert(repeated(StopEvent::Alive(true), PROBE_LIMIT as nat) =~= live + last);
    let events = terminated(pid) + (live + last) + acks;
    assert(events =~= terminated(pid) + (live + (last + acks)));
    lemma_run_concat(StopState::Start, terminated(pid), live + (last + acks));
    reveal_with_fuel(stop_run, 4);
    let polling1 = StopState::Polling { pid, probes: 1 };
    assert(stop_run(StopState::Start, terminated(pid)) == (polling1, terminating(pid)));
    lemma_run_concat(polling1, live, last + acks);
    lemma_run_polling(pid, 1, (PROBE_LIMIT - 1) as nat);
    let polling40 = StopState::Polling { pid, probes: PROBE_LIMIT };
    reveal_with_fuel(stop_run, 6);
    assert(last + acks =~= seq![
        StopEvent::Alive(true),
        StopEvent::Performed,
        StopEvent::Performed,
        StopEvent::Performed,
        StopEvent::Performed,
    ]);
    assert(stop_run(polling40, last + acks).1 =~= seq![
        StopAction::Wait,
        StopAction::Report(StopReport::Unresponsive),
        StopAction::SendKill(pid),
        StopAction::RemovePidFile,
        StopAction::Done,
    ]);
    assert(repeated(StopEvent::Alive(true), PROBE_LIMIT as nat) + acks =~= live + (last + acks));
    assert(terminated(pid) + repeated(StopEvent::Alive(true), PROBE_LIMIT as nat) + acks
        =~= terminated(pid) + (live + (last + acks)));
}

/// A process that answers one of the probes after SIGTERM dead, after `k`
/// live answers (fewer than `PROBE_LIMIT`), is reported stopped and never
/// sent SIGKILL; the pid file is removed.
pub proof fn law_stop_spares_exited_process(pid: u32, k: nat)
    requires
        k < PROBE_LIMIT,
    ensures
        stop_run(
            StopState::Start,
            terminated(pid) + repeated(StopEvent::Alive(true), k) + seq![
                StopEvent::Alive(false),
                StopEvent::Performed,
                StopEvent::Performed,
            ],
        ) == (
            StopState::Finished,
            terminating(pid) + repeated(StopAction::WaitThenProbe(pid), k) + seq![
                StopAction::Report(StopReport::Stopped),
                StopAction::RemovePidFile,
                StopAction::Done,
            ],
        ),
{
    let live = repeated(StopEvent::Alive(true), k);
    let tail = seq![StopEvent::Alive(false), StopEvent::Performed, StopEvent::Performed];
    assert(terminated(pid) + live + tail =~= terminated(pid) + (live + tail));
    lemma_run_concat(StopState::Start, terminated(pid), live + tail);
    reveal_with_fuel(stop_run, 4);
    let polling1 = StopState::Polling { pid, probes: 1 };
    assert(stop_run(StopState::Start, terminated(pid)) == (polling1, terminating(pid)));
    lemma_run_concat(polling1, live, tail);
    lemma_run_polling(pid, 1, k);
    let pollingk = StopState::Polling { pid, probes: (1 + k) as u32 };
    assert(stop_run(pollingk, tail).1 =~= seq![
        StopAction::Report(StopReport::Stopped),
        StopAction::RemovePidFile,
        StopAction::Done,
    ]);
}

/// What the status command finds: no pid file, the sniffer running (with
/// how long it has run, in hours, minutes and seconds, when that could be
/// read), or a pid file left by a sniffer that no longer runs, which the
/// caller removes.
#[derive(Debug, Clone, Copy, PartialEq, Eq, Structural)]
pub enum Status {
    NotRunning,
    Running { pid: u32, uptime: Option<Uptime> },
    Stopped,
}

/// A running time in hours, minutes (below 60) and seconds (below 60).
#[derive(Debug, Clone, Copy, PartialEq, Eq, Structural)]
pub struct Uptime {
    pub hours: u64,
    pub minutes: u64,
    pub seconds: u64,
}

/// `secs` seconds as hours, minutes and seconds.
pub open spec fn hours_minutes_seconds(secs: u64) -> Uptime {
    Uptime { hours: (secs / 3600) as u64, minutes: ((secs % 3600) / 60) as u64, seconds: (secs % 60) as u64 }
}

/// The status for the pid file's content `pid`, whether that process is
/// alive, and how many seconds it has run.
pub open spec fn status_spec(pid: Option<u32>, alive: bool, uptime: Option<u64>) -> Status {
    match pid {
        None => Status::NotRunning,
        Some(p) => if alive {
            Status::Running {
                pid: p,
                uptime: match uptime {
                    Some(u) => Some(hours_minutes_seconds(u)),
                    None => None,
                },
            }
        } else {
            Status::Stopped
        },
    }
}

/// What the status report says, read off the pid file, whether the
/// process is alive and how long it has run: not running exactly when there
/// is no pid, stopped exactly when the pid's process is dead, and otherwise
/// running with that pid and with a running time, when one was read, whose
/// hours, minutes (below 60) and seconds (below 60) add up to it.
pub open spec fn status_reports(pid: Option<u32>, alive: bool, uptime: Option<u64>, s: Status) -> bool {
    &&& (s is NotRunning <==> pid is None)
    &&& (s is Stopped <==> (pid is Some && !alive))
    &&& s matches Status::Running { pid: p, uptime: t } ==> {
        &&& pid == Some(p)
        &&& alive
        &&& (t is Some <==> uptime is Some)
        &&& t matches Some(h) ==> {
            &&& h.minutes < 60
            &&& h.seconds < 60
            &&& h.hours * 3600 + h.minutes * 60 + h.seconds == uptime->0
        }
    }
}

/// The status report says what the pid file, the probe and the running
/// time found: the hours, minutes and seconds of a running time add back up
/// to the seconds it was made from.
pub proof fn law_status_reports(pid: Option<u32>, alive: bool, uptime: Option<u64>)
    ensures
        status_reports(pid, alive, uptime, status_spec(pid, alive, uptime)),
{
    if let Some(u) = uptime {
        let h = hours_minutes_seconds(u);
        assert(h.hours * 3600 + h.minutes * 60 + h.seconds == u);
    }
}

/// The status to report, as `status_spec` says.
pub fn status_of(pid: Option<u32>, alive: bool, uptime: Option<u64>) -> (s: Status)
    ensures
        s == status_spec(pid, alive, uptime),
        status_reports(pid, alive, uptime, s),
{
    proof {
        law_status_reports(pid, alive, uptime);
    }
    match pid {
        None => Status::NotRunning,
        Some(p) => if alive {
            let hms = match uptime {
                Some(u) => Some(Uptime { hours: u / 3600, minutes: (u % 3600) / 60, seconds: u % 60 }),
                None => None,
            };
            Status::Running { pid: p, uptime: hms }
        } else {
            Status::Stopped
        },
    }
}

/// Whether `c` is white space (Unicode `White_Space`).
pub open spec fn is_space(c: char) -> bool {
    let v = c as u32;
    (0x09 <= v <= 0x0d) || v == 0x20 || v == 0x85 || v == 0xa0 || v == 0x1680 || (0x2000 <= v <= 0x200a)
        || v == 0x2028 || v == 0x2029 || v == 0x202f || v == 0x205f || v == 0x3000
}

/// The words of `s`: its maximal runs of characters that are not white space.
pub open spec fn words(s: Seq<char>) -> Seq<Seq<char>>
    decreases s.len(),
{
    if s.len() == 0 {
        seq![]
    } else {
        let init = words(s.drop_last());
        let c = s.last();
        if is_space(c) {
            init
        } else if s.len() >= 2 && !is_space(s[s.len() - 2]) {
            init.drop_last().push(init.last().push(c))
        } else {
            init.push(seq![c])
        }
    }
}

/// Whether `c` is an ASCII digit.
pub open spec fn is_digit(c: char) -> bool {
    '0' <= c <= '9'
}

/// The number that the decimal digits `d` write.
pub open spec fn decimal_value(d: Seq<char>) -> int
    decreases d.len(),
{
    if d.len() == 0 {
        0
    } else {
        decimal_value(d.drop_last()) * 10 + (d.last() as u32 - '0' as u32)
    }
}

/// Whether every character of `d` is a decimal digit.
pub open spec fn all_digits(d: Seq<char>) -> bool {
    forall|i: int| 0 <= i < d.len() ==> is_digit(#[trigger] d[i])
}

/// What follows the sign of `w`: a leading `+` is dropped unless it is
/// all there is.
pub open spec fn unsigned_part(w: Seq<char>) -> Seq<char> {
    if w.len() > 1 && w[0] == '+' {
        w.drop_first()
    } else {
        w
    }
}

/// `w` read as a `u64`: an optional `+`, then at least one decimal digit
/// and nothing else, of a value that fits.
pub open spec fn parse_u64(w: Seq<char>) -> Option<u64> {
    let d = unsigned_part(w);
    if d.len() > 0 && all_digits(d) && decimal_value(d) <= u64::MAX {
        Some(decimal_value(d) as u64)
    } else {
        None
    }
}

/// `s` without its leading white space.
pub open spec fn trim_start(s: Seq<char>) -> Seq<char>
    decreases s.len(),
{
    if s.len() > 0 && is_space(s[0]) {
        trim_start(s.drop_first())
    } else {
        s
    }
}

/// `s` without its trailing white space.
pub open spec fn trim_end(s: Seq<char>) -> Seq<char>
    decreases s.len(),
{
    if s.len() > 0 && is_space(s.last()) {
        trim_end(s.drop_last())
    } else {
        s
    }
}

/// Whether `s` starts with `btime `.
pub open spec fn starts_with_btime(s: Seq<char>) -> bool {
    s.len() >= 6 && s.take(6) == seq!['b', 't', 'i', 'm', 'e', ' ']
}

/// `s` without every `btime ` at its head.
pub open spec fn strip_btime(s: Seq<char>) -> Seq<char>
    decreases s.len(),
{
    if starts_with_btime(s) {
        strip_btime(s.skip(6))
    } else {
        s
    }
}

/// Where the line that starts at `i` ends: the first newline from `i` on,
/// or the end of `s`.
pub open spec fn line_end(s: Seq<char>, i: int) -> int
    decreases s.len() - i,
{
    if i >= s.len() {
        s.len() as int
    } else if s[i] == '\n' {
        i
    } else {
        line_end(s, i + 1)
    }
}

/// The line of `s` that starts at `i`, without its ending: a newline, and a
/// carriage return just before it.
pub open spec fn line_at(s: Seq<char>, i: int) -> Seq<char> {
    let e = line_end(s, i);
    let raw = s.subrange(i, e);
    if e < s.len() && raw.len() > 0 && raw.last() == '\r' {
        raw.drop_last()
    } else {
        raw
    }
}

/// The first line of `s`, from the one that starts at `i` on, that starts
/// with `btime `.
pub open spec fn btime_line_from(s: Seq<char>, i: int) -> Option<Seq<char>>
    decreases s.len() - i,
{
    if i < 0 || i >= s.len() {
        None
    } else if starts_with_btime(line_at(s, i)) {
        Some(line_at(s, i))
    } else if line_end(s, i) < i || line_end(s, i) >= s.len() {
        None
    } else {
        btime_line_from(s, line_end(s, i) + 1)
    }
}

/// The line that starts at `i` ends at the first newline from `i` on, or
/// at the end of `s`.
pub proof fn lemma_line_end(s: Seq<char>, i: int)
    requires
        0 <= i <= s.len(),
    ensures
        i <= line_end(s, i) <= s.len(),
        line_end(s, i) < s.len() ==> s[line_end(s, i)] == '\n',
        forall|k: int| i <= k < line_end(s, i) ==> s[k] != '\n',
    decreases s.len() - i,
{
    if i < s.len() && s[i] != '\n' {
        lemma_line_end(s, i + 1);
    }
}

/// The boot time that the kernel's `/proc/stat` text `proc_stat` gives, in
/// seconds since the epoch.
pub open spec fn boot_time(proc_stat: Seq<char>) -> Option<u64> {
    match btime_line_from(proc_stat, 0) {
        Some(line) => parse_u64(trim_end(trim_start(strip_btime(line)))),
        None => None,
    }
}

/// How long a process has run, in seconds: from its `/proc/<pid>/stat`
/// text `stat` (the 22nd word is its start, in clock ticks of 1/100 s
/// after boot), the `/proc/stat` text `proc_stat` (its `btime` line is the
/// boot time) and the wall clock `now_secs`; `None` when a number is
/// missing or unreadable.
pub open spec fn uptime_spec(stat: Seq<char>, proc_stat: Seq<char>, now_secs: u64) -> Option<u64> {
    match boot_time(proc_stat) {
        None => None,
        Some(boot) => {
            let w = words(stat);
            if w.len() <= 21 {
                None
            } else {
                match parse_u64(w[21]) {
                    None => None,
                    Some(ticks) => Some(now_secs.saturating_sub(boot.wrapping_add(ticks / 100))),
                }
            }
        },
    }
}

/// The characters of `s`, in order.
fn chars_of(s: &str) -> (v: Vec<char>)
    ensures
        v@ == s@,
{
    let mut v: Vec<char> = Vec::new();
    for c in it: s.chars()
        invariant
            v@ == it.seq().take(it.index() as int),
    {
        v.push(c);
    }
    v
}

fn space(c: char) -> (b: bool)
    ensures
        b == is_space(c),
{
    let v = c as u32;
    (0x09 <= v && v <= 0x0d) || v == 0x20 || v == 0x85 || v == 0xa0 || v == 0x1680 || (0x2000 <= v && v
        <= 0x200a) || v == 0x2028 || v == 0x2029 || v == 0x202f || v == 0x205f || v == 0x3000
}

/// The `n`-th word of `s` (from 0), if it has that many.
fn nth_word(s: &Vec<char>, n: usize) -> (w: Option<Vec<char>>)
    ensures
        w matches Some(v) ==> words(s@).len() > n && v@ == words(s@)[n as int],
        w is None ==> words(s@).len() <= n,
{
    let mut count: usize = 0;
    let mut cur: Vec<char> = Vec::new();
    let mut i: usize = 0;
    while i < s.len()
        invariant
            i <= s@.len(),
            count <= i,
            count == words(s@.take(i as int)).len(),
            count > n ==> cur@ == words(s@.take(i as int))[n as int],
            count <= n ==> cur@ == Seq::<char>::empty(),
            i > 0 && !is_space(s@[i - 1]) ==> count > 0,
        decreases s@.len() - i,
    {
        let c = s[i];
        let ghost prev = s@.take(i as int);
        let ghost next = s@.take(i + 1);
        assert(next.drop_last() =~= prev);
        assert(next.last() == c);
        if space(c) {
        } else if i > 0 && !space(s[i - 1]) {
            assert(next[next.len() - 2] == s@[i - 1]);
            if count > 0 && count - 1 == n {
                cur.push(c);
            }
        } else {
            if i > 0 {
                assert(next[next.len() - 2] == s@[i - 1]);
            }
            if count == n {
                cur.push(c);
            }
            count = count + 1;
        }
        i = i + 1;
    }
    assert(s@.take(i as int) =~= s@);
    if count > n {
        Some(cur)
    } else {
        None
    }
}

/// `v` without its first `k` characters.
fn skip_chars(v: &Vec<char>, k: usize) -> (r: Vec<char>)
    requires
        k <= v@.len(),
    ensures
        r@ == v@.skip(k as int),
{
    let mut r: Vec<char> = Vec::new();
    let mut i: usize = k;
    while i < v.len()
        invariant
            k <= i <= v@.len(),
            r@ == v@.subrange(k as int, i as int),
        decreases v@.len() - i,
    {
        r.push(v[i]);
        i = i + 1;
    }
    r
}

/// `w` read as a `u64`, as `parse_u64` says.
fn parse_number(w: &Vec<char>) -> (r: Option<u64>)
    ensures
        r == parse_u64(w@),
{
    let start: usize = if w.len() > 1 && w[0] == '+' {
        1
    } else {
        0
    };
    let ghost d = unsigned_part(w@);
    assert(d =~= w@.skip(start as int));
    if start >= w.len() {
        return None;
    }
    let mut acc: u64 = 0;
    let mut j: usize = start;
    while j < w.len()
        invariant
            start <= j <= w@.len(),
            d == w@.skip(start as int),
            d == unsigned_part(w@),
            forall|i: int| 0 <= i < j - start ==> is_digit(#[trigger] d[i]),
            acc == decimal_value(d.take(j - start)),
        decreases w@.len() - j,
    {
        let c = w[j];
        let ghost t = d.take(j - start + 1);
        assert(t.drop_last() =~= d.take(j - start));
        assert(t.last() == c);
        if !('0' <= c && c <= '9') {
            assert(d[j - start] == c);
            assert(!is_digit(d[j - start]));
            assert(!all_digits(d));
            return None;
        }
        let digit = (c as u32 - '0' as u32) as u64;
        assert(is_digit(d[j - start]));
        assert(decimal_value(t) == acc * 10 + digit);
        match acc.checked_mul(10) {
            None => {
                proof {
                    lemma_decimal_grows(d, j - start + 1);
                    assert(all_digits(d) ==> decimal_value(d) > u64::MAX);
                }
                return None;
            },
            Some(a10) => match a10.checked_add(digit) {
                None => {
                    proof {
                        lemma_decimal_grows(d, j - start + 1);
                        assert(all_digits(d) ==> decimal_value(d) > u64::MAX);
                    }
                    return None;
                },
                Some(a) => {
                    acc = a;
                },
            },
        }
        j = j + 1;
    }
    assert(d.take(j - start) =~= d);
    assert(all_digits(d));
    Some(acc)
}

/// A number written in decimal digits is at least what any head of it writes.
proof fn lemma_decimal_grows(d: Seq<char>, k: int)
    requires
        0 <= k <= d.len(),
        forall|i: int| 0 <= i < k ==> is_digit(#[trigger] d[i]),
    ensures
        all_digits(d) ==> decimal_value(d) >= decimal_value(d.take(k)),
    decreases d.len() - k,
{
    if k < d.len() && all_digits(d) {
        let t = d.take(k + 1);
        assert(t.drop_last() =~= d.take(k));
        assert(is_digit(d[k]));
        assert forall|i: int| 0 <= i < d.take(k).len() implies is_digit(#[trigger] d.take(k)[i]) by {
            assert(d.take(k)[i] == d[i]);
        }
        lemma_decimal_nonneg(d.take(k));
        assert(decimal_value(t) >= decimal_value(d.take(k))) by (nonlinear_arith)
            requires
                decimal_value(t) == decimal_value(d.take(k)) * 10 + (t.last() as u32 - '0' as u32),
                decimal_value(d.take(k)) >= 0,
                t.last() as u32 >= '0' as u32,
        {
        }
        lemma_decimal_nonneg(d.take(k));
        lemma_decimal_grows(d, k + 1);
    } else if k == d.len() {
        assert(d.take(k) =~= d);
    }
}

proof fn lemma_decimal_nonneg(d: Seq<char>)
    requires
        forall|i: int| 0 <= i < d.len() ==> is_digit(#[trigger] d[i]),
    ensures
        decimal_value(d) >= 0,
    decreases d.len(),
{
    if d.len() > 0 {
        assert(is_digit(d[d.len() - 1]));
        lemma_decimal_nonneg(d.drop_last());
    }
}

/// `s` without its leading and trailing white space.
fn trim_chars(s: &Vec<char>) -> (r: Vec<char>)
    ensures
        r@ == trim_end(trim_start(s@)),
{
    let mut a: usize = 0;
    assert(s@.skip(0) =~= s@);
    while a < s.len() && space(s[a])
        invariant
            a <= s@.len(),
            trim_start(s@) == trim_start(s@.skip(a as int)),
        decreases s@.len() - a,
    {
        assert(s@.skip(a as int).drop_first() =~= s@.skip(a + 1));
        a = a + 1;
    }
    let mut b: usize = s.len();
    while b > a && space(s[b - 1])
        invariant
            a <= b <= s@.len(),
            trim_end(trim_start(s@)) == trim_end(s@.subrange(a as int, b as int)),
        decreases b - a,
    {
        assert(s@.subrange(a as int, b as int).drop_last() =~= s@.subrange(a as int, b - 1));
        b = b - 1;
    }
    let mut r: Vec<char> = Vec::new();
    let mut i: usize = a;
    while i < b
        invariant
            a <= i <= b <= s@.len(),
            r@ == s@.subrange(a as int, i as int),
        decreases b - i,
    {
        r.push(s[i]);
        i = i + 1;
    }
    r
}

fn begins_with_btime(s: &Vec<char>) -> (b: bool)
    ensures
        b == starts_with_btime(s@),
{
    if s.len() < 6 {
        return false;
    }
    let r = s[0] == 'b' && s[1] == 't' && s[2] == 'i' && s[3] == 'm' && s[4] == 'e' && s[5] == ' ';
    proof {
        if r {
            assert(s@.take(6) =~= seq!['b', 't', 'i', 'm', 'e', ' ']);
        } else {
            if s@.take(6) == seq!['b', 't', 'i', 'm', 'e', ' '] {
                assert(s@.take(6)[0] == 'b');
                assert(s@.take(6)[5] == ' ');
            }
        }
    }
    r
}

/// The boot time in `/proc/stat`'s text, as `boot_time` says.
fn read_boot_time(text: &Vec<char>) -> (r: Option<u64>)
    ensures
        r == boot_time(text@),
{
    let mut i: usize = 0;
    while i < text.len()
        invariant
            i <= text@.len(),
            btime_line_from(text@, 0) == btime_line_from(text@, i as int),
        decreases text@.len() - i,
    {
        let mut e: usize = i;
        while e < text.len() && text[e] != '\n'
            invariant
                i <= e <= text@.len(),
                line_end(text@, i as int) == line_end(text@, e as int),
            decreases text@.len() - e,
        {
            e = e + 1;
        }
        let mut line: Vec<char> = Vec::new();
        let mut k: usize = i;
        while k < e
            invariant
                i <= k <= e <= text@.len(),
                line@ == text@.subrange(i as int, k as int),
            decreases e - k,
        {
            line.push(text[k]);
            k = k + 1;
        }
        if e < text.len() && line.len() > 0 && line[line.len() - 1] == '\r' {
            line.pop();
        }
        assert(line@ == line_at(text@, i as int));
        if begins_with_btime(&line) {
            let mut rest = line;
            while begins_with_btime(&rest)
                invariant
                    strip_btime(line_at(text@, i as int)) == strip_btime(rest@),
                decreases rest@.len(),
            {
                rest = skip_chars(&rest, 6);
            }
            let value = trim_chars(&rest);
            return parse_number(&value);
        }
        if e >= text.len() {
            return None;
        }
        i = e + 1;
    }
    None
}

/// How long a process has run, in seconds, as `uptime_spec` says: `stat`
/// is its `/proc/<pid>/stat` text, `proc_stat` the `/proc/stat` text, and
/// `now_secs` the wall clock in seconds since the epoch.
pub fn uptime_secs(stat: &str, proc_stat: &str, now_secs: u64) -> (r: Option<u64>)
    ensures
        r == uptime_spec(stat@, proc_stat@, now_secs),
{
    let boot = match read_boot_time(&chars_of(proc_stat)) {
        Some(b) => b,
        None => {
            return None;
        },
    };
    let word = match nth_word(&chars_of(stat), 21) {
        Some(w) => w,
        None => {
            return None;
        },
    };
    match parse_number(&word) {
        Some(ticks) => Some(now_secs.saturating_sub(boot.wrapping_add(ticks / 100))),
        None => None,
    }
}

} // verus!
