use oh_bugs::snooper::{
    status_of, stop_step, uptime_secs, Status, StopAction, StopEvent, StopReport, StopState, Uptime, PROBE_LIMIT,
};

fn run(events: &[StopEvent]) -> (StopState, Vec<StopAction>) {
    let mut state = StopState::Start;
    let mut actions = Vec::new();
    for e in events {
        let (s, a) = stop_step(state, *e);
        state = s;
        actions.push(a);
    }
    (state, actions)
}

#[test]
fn stop_without_pid_file_reports_not_running() {
    let (state, actions) = run(&[StopEvent::PidRead(None), StopEvent::Performed]);
    assert_eq!(state, StopState::Finished);
    assert_eq!(actions, vec![StopAction::Report(StopReport::NotRunning), StopAction::Done]);
}

#[test]
fn stop_of_a_dead_process_removes_the_pid_file() {
    let (_, actions) = run(&[
        StopEvent::PidRead(Some(42)),
        StopEvent::Alive(false),
        StopEvent::Performed,
        StopEvent::Performed,
    ]);
    assert_eq!(
        actions,
        vec![
            StopAction::Probe(42),
            StopAction::Report(StopReport::AlreadyStopped(42)),
            StopAction::RemovePidFile,
            StopAction::Done
        ]
    );
}

#[test]
fn failed_sigterm_is_reported_and_nothing_else() {
    let (_, actions) = run(&[
        StopEvent::PidRead(Some(7)),
        StopEvent::Alive(true),
        StopEvent::TermSent(false),
        StopEvent::Performed,
    ]);
    assert_eq!(
        actions,
        vec![
            StopAction::Probe(7),
            StopAction::SendTerm(7),
            StopAction::Report(StopReport::TermFailed),
            StopAction::Done
        ]
    );
}

#[test]
fn process_that_exits_after_sigterm_is_not_killed() {
    let mut events = vec![StopEvent::PidRead(Some(9)), StopEvent::Alive(true), StopEvent::TermSent(true)];
    events.extend(std::iter::repeat(StopEvent::Alive(true)).take(5));
    events.extend([StopEvent::Alive(false), StopEvent::Performed, StopEvent::Performed]);
    let (_, actions) = run(&events);
    assert!(!actions.iter().any(|a| matches!(a, StopAction::SendKill(_))));
    assert_eq!(actions.iter().filter(|a| **a == StopAction::WaitThenProbe(9)).count(), 5);
    assert_eq!(
        actions[actions.len() - 3..].to_vec(),
        vec![StopAction::Report(StopReport::Stopped), StopAction::RemovePidFile, StopAction::Done]
    );
}

#[test]
fn process_alive_after_the_last_probe_is_killed() {
    let mut events = vec![StopEvent::PidRead(Some(9)), StopEvent::Alive(true), StopEvent::TermSent(true)];
    events.extend(std::iter::repeat(StopEvent::Alive(true)).take(PROBE_LIMIT as usize));
    events.extend(std::iter::repeat(StopEvent::Performed).take(4));
    let (state, actions) = run(&events);
    assert_eq!(state, StopState::Finished);
    let probes = actions.iter().filter(|a| matches!(a, StopAction::Probe(_) | StopAction::WaitThenProbe(_))).count();
    assert_eq!(probes, 1 + PROBE_LIMIT as usize);
    assert_eq!(
        actions[actions.len() - 5..].to_vec(),
        vec![
            StopAction::Wait,
            StopAction::Report(StopReport::Unresponsive),
            StopAction::SendKill(9),
            StopAction::RemovePidFile,
            StopAction::Done
        ]
    );
}

#[test]
fn probes_are_counted_up_to_the_limit() {
    let (s, a) = stop_step(StopState::Polling { pid: 3, probes: 39 }, StopEvent::Alive(true));
    assert_eq!((s, a), (StopState::Polling { pid: 3, probes: 40 }, StopAction::WaitThenProbe(3)));
    let (s, a) = stop_step(StopState::Polling { pid: 3, probes: 40 }, StopEvent::Alive(true));
    assert_eq!((s, a), (StopState::Waiting { pid: 3 }, StopAction::Wait));
    let (s, a) = stop_step(StopState::Start, StopEvent::Alive(true));
    assert_eq!((s, a), (StopState::Finished, StopAction::Done));
}

#[test]
fn status_cases() {
    assert_eq!(status_of(None, false, None), Status::NotRunning);
    assert_eq!(status_of(Some(5), false, Some(10)), Status::Stopped);
    assert_eq!(status_of(Some(5), true, None), Status::Running { pid: 5, uptime: None });
    assert_eq!(
        status_of(Some(5), true, Some(3725)),
        Status::Running { pid: 5, uptime: Some(Uptime { hours: 1, minutes: 2, seconds: 5 }) }
    );
}

fn stat_with_start(start: &str) -> String {
    let mut fields: Vec<String> = (1..=52).map(|i| i.to_string()).collect();
    fields[1] = "(obugs)".to_string();
    fields[21] = start.to_string();
    fields.join(" ")
}

#[test]
fn uptime_from_the_process_tables() {
    let proc_stat = "cpu  1 2 3\nbtime 1000\nprocesses 5\n";
    assert_eq!(uptime_secs(&stat_with_start("12345"), proc_stat, 2000), Some(2000 - (1000 + 123)));
    assert_eq!(uptime_secs(&stat_with_start("+500"), proc_stat, 1003), Some(0));
    assert_eq!(uptime_secs(&stat_with_start("12345"), "cpu 1\r\nbtime  77 \r\n", 200), Some(200 - 77 - 123));
    assert_eq!(uptime_secs(&stat_with_start("100"), "btime btime 5", 10), Some(4));
}

#[test]
fn uptime_needs_every_number() {
    let proc_stat = "btime 1000\n";
    assert_eq!(uptime_secs("1 2 3", proc_stat, 2000), None);
    assert_eq!(uptime_secs(&stat_with_start("x1"), proc_stat, 2000), None);
    assert_eq!(uptime_secs(&stat_with_start("-1"), proc_stat, 2000), None);
    assert_eq!(uptime_secs(&stat_with_start("99999999999999999999"), proc_stat, 2000), None);
    assert_eq!(uptime_secs(&stat_with_start("10"), "cpu 1\n", 2000), None);
    assert_eq!(uptime_secs(&stat_with_start("10"), "xbtime 5\n", 2000), None);
    assert_eq!(uptime_secs(&stat_with_start("10"), "btime +\n", 2000), None);
}
