use oh_bugs::animation::{Bug, BugManager, SimpleRng};
use oh_bugs::daemon::restore_cursor;
use oh_bugs::screen::ScreenBuffer;

const POOL: [char; 5] = ['🦟', '🪰', '🐝', '🕷', '🦗'];

fn text_screen(cols: u16, rows: u16) -> ScreenBuffer {
    let mut s = ScreenBuffer::new(cols, rows);
    for r in 0..rows {
        let line: String = (0..cols).map(|c| char::from(b'a' + ((r as u8 * 7 + c as u8) % 26))).collect();
        s.process_output(line.as_bytes());
    }
    s.process_output(b"\x1b[3;5H");
    s
}

fn same_screen(a: &ScreenBuffer, b: &ScreenBuffer) -> bool {
    if a.cols() != b.cols() || a.rows() != b.rows() || a.cursor() != b.cursor() {
        return false;
    }
    for y in 0..a.rows() {
        for x in 0..a.cols() {
            if a.get_char(x, y) != b.get_char(x, y) {
                return false;
            }
        }
    }
    true
}

#[test]
fn rng_sequence() {
    let mut rng = SimpleRng::new(0);
    assert_eq!(rng.next(), 908834774);
    assert_eq!(rng.next(), 1093944153);
    assert_eq!(rng.next(), 1392341196);
    let mut same = SimpleRng::new(1);
    assert_eq!(same.next(), 908834774);
}

#[test]
fn new_manager_is_empty() {
    let m = BugManager::new(30, 80, 24);
    assert!(m.bugs().is_empty());
    assert_eq!(m.max_concurrent(), 30);
}

fn covers(b: &Bug, x: u16, y: u16) -> bool {
    b.y == y && (b.x == x || b.x + 1 == x)
}

fn spot_is_free(bugs: &[Bug], x: u16, y: u16) -> bool {
    !bugs.iter().any(|b| covers(b, x, y) || covers(b, x + 1, y))
}

#[test]
fn trigger_spawns_two_to_five_bugs_in_the_upper_half() {
    let screen = ScreenBuffer::new(80, 24);
    let mut m = BugManager::new(30, 80, 24);
    m.trigger_at(1, 2500, &screen, 42, 1000);
    let n = m.bugs().len();
    assert!(n >= 2 && n <= 5);
    for (i, b) in m.bugs().iter().enumerate() {
        assert_eq!(b.id, i as u64 + 1);
        assert!(b.y < 12);
        assert!(b.x < 78);
        assert!(!b.drawn);
        assert_eq!((b.old_x, b.old_y), (b.x, b.y));
        assert_eq!(b.birth, 1000);
        assert!(b.lifetime >= 2000 && b.lifetime <= 3000);
        assert!(b.direction_x == 1 || b.direction_x == -1);
        assert!(b.direction_y == 1 || b.direction_y == -1);
        assert!(POOL.contains(&b.emoji));
    }
}

#[test]
fn trigger_is_a_function_of_its_readings() {
    let screen = ScreenBuffer::new(80, 24);
    let mut a = BugManager::new(30, 80, 24);
    let mut b = BugManager::new(30, 80, 24);
    a.trigger_at(3, 2500, &screen, 7, 5);
    b.trigger_at(3, 2500, &screen, 7, 5);
    let pa: Vec<(u16, u16, u64)> = a.bugs().iter().map(|x| (x.x, x.y, x.lifetime)).collect();
    let pb: Vec<(u16, u16, u64)> = b.bugs().iter().map(|x| (x.x, x.y, x.lifetime)).collect();
    assert_eq!(pa, pb);
}

#[test]
fn every_trigger_releases_between_the_bounds() {
    let screen = ScreenBuffer::new(80, 24);
    for seed in 0..200u64 {
        let mut m = BugManager::new(30, 80, 24);
        m.trigger_at(1, 2500, &screen, seed, 0);
        let n = m.bugs().len();
        assert!(n >= 2 && n <= 5);
        let mut r = BugManager::new(30, 80, 24).with_spawn_range(3, 7);
        r.trigger_at(1, 2500, &screen, seed, 0);
        assert!(r.bugs().len() >= 3 && r.bugs().len() <= 7);
        let mut one = BugManager::new(30, 80, 24).with_spawn_range(4, 1);
        one.trigger_at(1, 2500, &screen, seed, 0);
        assert_eq!(one.bugs().len(), 4);
    }
    let mut capped = BugManager::new(1, 80, 24);
    capped.trigger_at(1, 2500, &screen, 5, 0);
    assert_eq!(capped.bugs().len(), 1);
}

#[test]
fn new_bugs_keep_off_earlier_bugs_while_there_is_room() {
    for seed in 0..100u64 {
        let screen = ScreenBuffer::new(10, 4);
        let mut m = BugManager::new(30, 10, 4).with_spawn_range(6, 6);
        m.trigger_at(1, 2500, &screen, seed, 0);
        let bugs = m.bugs();
        assert_eq!(bugs.len(), 6);
        for i in 0..bugs.len() {
            let earlier = &bugs[..i];
            let room = (0..2u16).any(|y| (0..8u16).any(|x| spot_is_free(earlier, x, y)));
            if room {
                assert!(spot_is_free(earlier, bugs[i].x, bugs[i].y));
            }
        }
    }
}

#[test]
fn ids_stay_distinct_across_triggers() {
    let screen = ScreenBuffer::new(80, 24);
    let mut m = BugManager::new(30, 80, 24);
    for seed in 0..5u64 {
        m.trigger_at(1, 2500, &screen, seed, 0);
    }
    let ids: Vec<u64> = m.bugs().iter().map(|b| b.id).collect();
    for i in 0..ids.len() {
        assert_eq!(ids[i], i as u64 + 1);
    }
}

#[test]
fn trigger_respects_the_limit() {
    let screen = ScreenBuffer::new(80, 24);
    let mut m = BugManager::new(3, 80, 24).with_spawn_range(8, 8);
    m.trigger_at(1, 2500, &screen, 1, 0);
    assert_eq!(m.bugs().len(), 3);
    m.trigger_at(1, 2500, &screen, 2, 0);
    assert_eq!(m.bugs().len(), 3);
    let mut n = BugManager::new(12, 80, 24).with_spawn_range(8, 8);
    n.trigger_at(1, 2500, &screen, 1, 0);
    n.trigger_at(1, 2500, &screen, 2, 0);
    assert_eq!(n.bugs().len(), 12);
}

#[test]
fn trigger_needs_a_match_and_a_screen() {
    let mut m = BugManager::new(30, 80, 24);
    m.trigger_at(0, 2500, &ScreenBuffer::new(80, 24), 1, 0);
    assert!(m.bugs().is_empty());
    m.trigger_at(1, 2500, &ScreenBuffer::new(1, 24), 1, 0);
    assert!(m.bugs().is_empty());
    m.trigger_at(1, 2500, &ScreenBuffer::new(80, 0), 1, 0);
    assert!(m.bugs().is_empty());
}

#[test]
fn short_lifetimes_last_at_least_half_a_second() {
    let screen = ScreenBuffer::new(80, 24);
    let mut m = BugManager::new(30, 80, 24);
    m.trigger_at(1, 100, &screen, 9, 0);
    for b in m.bugs() {
        assert!(b.lifetime >= 500);
    }
}

#[test]
fn trigger_clock_reading_variant() {
    let mut screen = ScreenBuffer::new(40, 10);
    let mut m = BugManager::new(30, 40, 10);
    m.trigger(2, 2500, &screen);
    let n = m.bugs().len();
    assert!(n >= 2 && n <= 5);
    let mut out = Vec::new();
    m.update(&mut out, &mut screen);
    assert_eq!(m.bugs().len(), n);
}

#[test]
fn dead_bug_gives_its_cells_back_and_goes() {
    let mut screen = ScreenBuffer::new(10, 5);
    screen.process_output(b"\x1b[2;3Hxy");
    let mut m = BugManager::new(30, 10, 5).with_spawn_range(8, 8);
    m.trigger_at(1, 500, &screen, 1, 0);
    assert_eq!(m.bugs().len(), 8);
    let mut expected: Vec<u8> = Vec::new();
    for b in m.bugs() {
        let l = screen.get_char(b.old_x, b.old_y);
        let r = screen.get_char(b.old_x + 1, b.old_y);
        expected.extend(format!("\x1b[{};{}H{}\x1b[{};{}H{}", b.old_y + 1, b.old_x + 1, l, b.old_y + 1, b.old_x + 2, r).as_bytes());
    }
    let mut out = Vec::new();
    m.update_at(u64::MAX, &mut out, &screen);
    assert!(m.bugs().is_empty());
    assert_eq!(out, expected);
}

#[test]
fn living_bugs_move_onto_the_screen() {
    let screen = ScreenBuffer::new(20, 6);
    let mut m = BugManager::new(30, 20, 6).with_spawn_range(8, 8);
    m.trigger_at(1, 2500, &screen, 3, 0);
    let mut out = Vec::new();
    for tick in 0..50u64 {
        let before: Vec<Bug> = m.bugs().clone();
        m.update_at(tick * 1_000_000, &mut out, &screen);
        assert_eq!(m.bugs().len(), 8);
        for (b, p) in m.bugs().iter().zip(before.iter()) {
            assert_eq!(b.id, p.id);
            assert!(b.x >= 1 && b.x <= 18);
            assert!(b.y >= 1 && b.y <= 5);
            assert_eq!((b.old_x, b.old_y), (b.x, b.y));
            assert!(b.drawn);
            if p.x < 3 {
                assert_eq!((b.x, b.direction_x), (p.x + 1, 1));
            } else if p.x + 3 > 18 {
                assert_eq!(b.direction_x, -1);
                assert_eq!(b.x, (p.x - 1).min(18));
            }
        }
    }
}

#[test]
fn tiny_screen_drops_bugs_silently() {
    let screen = ScreenBuffer::new(20, 6);
    let mut m = BugManager::new(30, 20, 6);
    m.trigger_at(1, 2500, &screen, 3, 0);
    let mut out = Vec::new();
    m.update_at(0, &mut out, &ScreenBuffer::new(1, 6));
    assert!(m.bugs().is_empty());
    assert!(out.is_empty());
}

#[test]
fn draw_to_draws_only_new_bugs() {
    let mut screen = ScreenBuffer::new(30, 10);
    let mut m = BugManager::new(30, 30, 10);
    m.trigger_at(1, 2500, &screen, 5, 0);
    let mut expected: Vec<u8> = Vec::new();
    for b in m.bugs() {
        expected.extend(format!("\x1b[{};{}H{}", b.y + 1, b.x + 1, b.emoji).as_bytes());
    }
    let n0 = m.bugs().len();
    let mut out = Vec::new();
    m.draw_to(&mut out, &mut screen);
    assert_eq!(out, expected);
    assert!(m.bugs().iter().all(|b| b.drawn));
    let mut again = Vec::new();
    m.draw_to(&mut again, &mut screen);
    assert!(again.is_empty());
    m.update_at(0, &mut again, &screen);
    m.trigger_at(1, 2500, &screen, 6, 0);
    let mut fresh: Vec<u8> = Vec::new();
    for b in &m.bugs()[n0..] {
        fresh.extend(format!("\x1b[{};{}H{}", b.y + 1, b.x + 1, b.emoji).as_bytes());
    }
    let mut third = Vec::new();
    m.draw_to(&mut third, &mut screen);
    assert_eq!(third, fresh);
}

#[test]
fn clear_all_gives_every_cell_back() {
    let mut screen = text_screen(30, 10);
    let mut m = BugManager::new(30, 30, 10);
    m.trigger_at(1, 2500, &screen, 5, 0);
    let mut expected: Vec<u8> = Vec::new();
    for b in m.bugs() {
        let l = screen.get_char(b.old_x, b.old_y);
        let r = screen.get_char(b.old_x + 1, b.old_y);
        expected.extend(format!("\x1b[{};{}H{}\x1b[{};{}H{}", b.old_y + 1, b.old_x + 1, l, b.old_y + 1, b.old_x + 2, r).as_bytes());
    }
    let mut out = Vec::new();
    m.clear_all(&mut out, &mut screen);
    assert!(m.bugs().is_empty());
    assert_eq!(out, expected);
}

#[test]
fn terminal_shows_the_buffer_again_once_bugs_are_gone() {
    let mut screen = text_screen(30, 10);
    let mut terminal = text_screen(30, 10);
    let mut m = BugManager::new(30, 30, 10);
    m.trigger_at(1, 2500, &screen, 11, 0);
    let mut out = Vec::new();
    m.draw_to(&mut out, &mut screen);
    for tick in 0..3u64 {
        m.update_at(tick, &mut out, &screen);
    }
    terminal.process_output(&out);
    assert!(!same_screen(&terminal, &screen));
    let mut exit = Vec::new();
    m.clear_all(&mut exit, &mut screen);
    restore_cursor(&mut exit, &screen);
    terminal.process_output(&exit);
    assert!(same_screen(&terminal, &screen));
}

#[test]
fn bugs_never_touch_the_screen_buffer() {
    let mut screen = text_screen(30, 10);
    let reference = text_screen(30, 10);
    let mut m = BugManager::new(30, 30, 10);
    m.trigger_at(1, 2500, &screen, 11, 0);
    let mut out = Vec::new();
    m.draw_to(&mut out, &mut screen);
    m.update(&mut out, &mut screen);
    m.clear_all(&mut out, &mut screen);
    assert!(same_screen(&screen, &reference));
}

#[test]
fn single_dead_bug_restores_its_two_cells() {
    let mut screen = ScreenBuffer::new(10, 3);
    screen.process_output(b"0123456789");
    let mut m = BugManager::new(30, 10, 3);
    m.trigger_at(1, 2500, &screen, 0, 0);
    let b = m.bugs()[0];
    let mut out = Vec::new();
    m.update_at(u64::MAX, &mut out, &screen);
    assert!(m.bugs().is_empty());
    let head = format!(
        "\x1b[{};{}H{}\x1b[{};{}H{}",
        b.old_y + 1,
        b.old_x + 1,
        screen.get_char(b.old_x, b.old_y),
        b.old_y + 1,
        b.old_x + 2,
        screen.get_char(b.old_x + 1, b.old_y)
    );
    assert!(out.starts_with(head.as_bytes()));
}
