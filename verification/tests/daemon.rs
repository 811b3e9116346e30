use std::collections::VecDeque;

use oh_bugs::animation::BugManager;
use oh_bugs::config::default_error_keywords;
use oh_bugs::daemon::{handle_exit, handle_output, handle_tick, record_input, restore_cursor, strip_echo, ECHO_LIMIT};
use oh_bugs::screen::ScreenBuffer;
use oh_bugs::watcher::Watcher;

#[test]
fn echo_is_stripped_from_the_head() {
    let mut pending: VecDeque<u8> = b"ls\r".iter().copied().collect();
    let (rest, n) = strip_echo(b"ls\r\nerror", &mut pending);
    assert_eq!(n, 3);
    assert_eq!(rest, b"\nerror");
    assert!(pending.is_empty());
}

#[test]
fn echo_stripping_stops_at_the_first_difference() {
    let mut pending: VecDeque<u8> = b"abc".iter().copied().collect();
    let (rest, n) = strip_echo(b"abxc", &mut pending);
    assert_eq!(n, 2);
    assert_eq!(rest, b"xc");
    assert_eq!(pending, VecDeque::from(vec![b'c']));
}

#[test]
fn no_pending_input_strips_nothing() {
    let mut pending: VecDeque<u8> = VecDeque::new();
    let (rest, n) = strip_echo(b"error", &mut pending);
    assert_eq!(n, 0);
    assert_eq!(rest, b"error");
}

#[test]
fn recorded_input_is_bounded() {
    let mut pending: VecDeque<u8> = VecDeque::new();
    record_input(&mut pending, b"abc");
    assert_eq!(pending, VecDeque::from(b"abc".to_vec()));
    let big: Vec<u8> = (0..5000u32).map(|i| (i % 251) as u8).collect();
    record_input(&mut pending, &big);
    assert_eq!(pending.len(), ECHO_LIMIT);
    let tail: Vec<u8> = big[big.len() - ECHO_LIMIT..].to_vec();
    assert_eq!(pending, VecDeque::from(tail));
}

#[test]
fn output_with_a_keyword_spawns_and_draws_bugs() {
    let mut screen = ScreenBuffer::new(80, 24);
    let mut pending: VecDeque<u8> = VecDeque::new();
    let watcher = Watcher::new(&default_error_keywords()).unwrap();
    let mut bugs = BugManager::new(30, 80, 24);
    record_input(&mut pending, b"make\r");
    let mut out = Vec::new();
    let n = handle_output(&mut screen, &mut pending, &watcher, &mut bugs, 2500, b"make\r\nerror: oops\r\n", &mut out);
    assert_eq!(n, 1);
    assert!(bugs.bugs().len() >= 2 && bugs.bugs().len() <= 5);
    assert!(bugs.bugs().iter().all(|b| b.drawn));
    assert!(out.ends_with(b"\x1b[3;1H"));
    assert_eq!(screen.get_char(0, 1), 'e');
    assert!(pending.is_empty());
}

#[test]
fn echoed_keyword_alone_spawns_nothing() {
    let mut screen = ScreenBuffer::new(80, 24);
    let mut pending: VecDeque<u8> = VecDeque::new();
    let watcher = Watcher::new(&default_error_keywords()).unwrap();
    let mut bugs = BugManager::new(30, 80, 24);
    record_input(&mut pending, b"grep error");
    let mut out = Vec::new();
    let n = handle_output(&mut screen, &mut pending, &watcher, &mut bugs, 2500, b"grep error", &mut out);
    assert_eq!(n, 0);
    assert!(bugs.bugs().is_empty());
    assert!(out.is_empty());
    assert_eq!(screen.get_char(5, 0), 'e');
}

#[test]
fn tick_and_exit_put_the_cursor_back() {
    let mut screen = ScreenBuffer::new(40, 12);
    screen.process_output(b"\x1b[4;7H");
    let mut pending: VecDeque<u8> = VecDeque::new();
    let watcher = Watcher::new(&default_error_keywords()).unwrap();
    let mut bugs = BugManager::new(30, 40, 12);
    let mut out = Vec::new();
    handle_output(&mut screen, &mut pending, &watcher, &mut bugs, 2500, b"fatal", &mut out);
    let mut tick = Vec::new();
    handle_tick(&mut bugs, &mut screen, &mut tick);
    assert!(tick.ends_with(b"\x1b[4;12H"));
    let mut exit = Vec::new();
    handle_exit(&mut bugs, &mut screen, &mut exit);
    assert!(bugs.bugs().is_empty());
    assert!(exit.ends_with(b"\x1b[4;12H"));
    let mut home = Vec::new();
    restore_cursor(&mut home, &screen);
    assert_eq!(home, b"\x1b[4;12H".to_vec());
}

#[test]
fn bugs_wait_while_the_output_stops_inside_a_sequence() {
    let mut screen = ScreenBuffer::new(40, 12);
    let mut pending: VecDeque<u8> = VecDeque::new();
    let watcher = Watcher::new(&default_error_keywords()).unwrap();
    let mut bugs = BugManager::new(30, 40, 12);
    let mut out = Vec::new();
    let n = handle_output(&mut screen, &mut pending, &watcher, &mut bugs, 2500, b"error\x1b[3", &mut out);
    assert_eq!(n, 1);
    assert!(!bugs.bugs().is_empty());
    assert!(bugs.bugs().iter().all(|b| !b.drawn));
    assert!(out.is_empty());
    let mut tick = Vec::new();
    handle_tick(&mut bugs, &mut screen, &mut tick);
    assert!(tick.is_empty());
    handle_output(&mut screen, &mut pending, &watcher, &mut bugs, 2500, b"1m", &mut out);
    assert!(!screen.has_pending());
    handle_tick(&mut bugs, &mut screen, &mut tick);
    assert!(!tick.is_empty());
    assert!(bugs.bugs().iter().all(|b| b.drawn));
}
