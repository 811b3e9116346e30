//! Bug animation engine: bugs float over the screen, drawn on top of the text
//! and, when they move on or die, the text under them is written back from
//! the screen buffer, which never learns about the bugs.

use vstd::prelude::*;
use vstd::utf8::*;

use crate::screen::{ScreenBuffer, ScreenModel};
use crate::terminal::{draw_bytes, restore_bytes, Terminal};

verus! {

/// `std::time::Instant`, an opaque point of the monotonic clock.
#[verifier::external_type_specification]
#[verifier::external_body]
pub struct ExInstant(std::time::Instant);

/// `std::time::Instant::now`: the current point of the monotonic clock.
#[verifier::external_body]
fn instant_now() -> std::time::Instant {
    std::time::Instant::now()
}

/// `std::time::Instant::elapsed`: the nanoseconds since `start` (truncated
/// to 64 bits). Depends on the clock alone; nothing is promised of it.
#[verifier::external_body]
fn nanos_since(start: &std::time::Instant) -> u64 {
    start.elapsed().as_nanos() as u64
}

/// `std::time::SystemTime::now`: nanoseconds since the Unix epoch (0 before
/// it, truncated to 64 bits). Depends on the clock alone; nothing is promised
/// of it.
#[verifier::external_body]
fn wall_clock_nanos() -> u64 {
    std::time::SystemTime::now().duration_since(std::time::UNIX_EPOCH).unwrap_or_default().as_nanos() as u64
}

/// Multiplier of the linear congruential generator.
pub const LCG_MULTIPLIER: u64 = 6364136223846793005;

/// Increment of the linear congruential generator.
pub const LCG_INCREMENT: u64 = 1442695040888963407;

/// The next state of the generator.
#[verifier::opaque]
pub open spec fn lcg_step(state: u64) -> u64 {
    state.wrapping_mul(LCG_MULTIPLIER).wrapping_add(LCG_INCREMENT)
}

/// The value the generator yields on moving to state `state`.
pub open spec fn lcg_output(state: u64) -> u64 {
    state >> 33u64
}

/// The first state of a generator seeded with `seed` (0 is replaced by 1).
pub open spec fn lcg_seed(seed: u64) -> u64 {
    if seed == 0 {
        1
    } else {
        seed
    }
}

/// Small linear congruential pseudo-random generator.
pub struct SimpleRng {
    state: u64,
}

impl View for SimpleRng {
    type V = u64;

    closed spec fn view(&self) -> u64 {
        self.state
    }
}

impl SimpleRng {
    pub fn new(seed: u64) -> (rng: SimpleRng)
        ensures
            rng@ == lcg_seed(seed),
    {
        SimpleRng { state: if seed == 0 {
            1
        } else {
            seed
        } }
    }

    pub fn next(&mut self) -> (v: u64)
        ensures
            final(self)@ == lcg_step(old(self)@),
            v == lcg_output(final(self)@),
            v < 0x8000_0000,
    {
        let state = self.state.wrapping_mul(LCG_MULTIPLIER).wrapping_add(LCG_INCREMENT);
        proof {
            reveal(lcg_step);
        }
        self.state = state;
        let v = state >> 33u64;
        assert(state >> 33u64 < 0x8000_0000) by (bit_vector);
        v
    }
}

/// The emoji of the bug pool at index `i % 5`.
pub open spec fn bug_emoji_spec(i: u64) -> char {
    let k = i % 5;
    if k == 0 {
        '🦟'
    } else if k == 1 {
        '🪰'
    } else if k == 2 {
        '🐝'
    } else if k == 3 {
        '🕷'
    } else {
        '🦗'
    }
}

/// The emoji of the bug pool at index `i % 5`.
pub fn bug_emoji(i: u64) -> (ch: char)
    ensures
        ch == bug_emoji_spec(i),
{
    let k = i % 5;
    if k == 0 {
        '🦟'
    } else if k == 1 {
        '🪰'
    } else if k == 2 {
        '🐝'
    } else if k == 3 {
        '🕷'
    } else {
        '🦗'
    }
}

/// One bug. It does not remember what it covers: the text under it is read
/// from the screen buffer when it moves on or dies.
#[derive(Debug, Clone, Copy)]
pub struct Bug {
    pub id: u64,
    /// Current cell (0-based column and row); the bug covers this cell and the
    /// one to its right.
    pub x: u16,
    pub y: u16,
    /// Cell where the bug was last drawn, to be restored.
    pub old_x: u16,
    pub old_y: u16,
    pub emoji: char,
    /// Birth time, in nanoseconds on the manager's clock.
    pub birth: u64,
    pub direction_x: i8,
    pub direction_y: i8,
    pub phase: u64,
    /// Lifetime in milliseconds.
    pub lifetime: u64,
    /// Whether the bug has been drawn on the terminal since it was created.
    pub drawn: bool,
}

/// A bug is dead once its lifetime has fully elapsed at time `now`.
pub open spec fn is_dead(bug: Bug, now: u64) -> bool {
    now.saturating_sub(bug.birth) / 1_000_000 >= bug.lifetime
}

/// Directions are one cell left/up (-1) or right/down (1), and the bug is
/// not in the last possible column.
pub open spec fn bug_wf(bug: Bug) -> bool {
    &&& bug.x < 0xffff
    &&& (bug.direction_x == 1 || bug.direction_x == -1)
    &&& (bug.direction_y == 1 || bug.direction_y == -1)
}

/// The two cells that a bug at `(x, y)` covers.
pub open spec fn covered_cells(x: u16, y: u16) -> Seq<(u16, u16)> {
    seq![(x, y), (x.wrapping_add(1), y)]
}

/// The cells covered by the bugs, in order.
pub open spec fn occupied_cells(bugs: Seq<Bug>) -> Seq<(u16, u16)>
    decreases bugs.len(),
{
    if bugs.len() == 0 {
        seq![]
    } else {
        occupied_cells(bugs.drop_last()) + covered_cells(bugs.last().x, bugs.last().y)
    }
}

/// Bounds of a spawn: rows of the upper half, columns, lifetime center and
/// spread (ms), and the birth time.
pub struct SpawnArea {
    pub half_rows: u16,
    pub max_x: u16,
    pub base_ms: u64,
    pub half_ms: u64,
    pub now: u64,
}

/// Whether a bug at `(x, y)` would cover none of the `occupied` cells.
pub open spec fn spot_free(occupied: Seq<(u16, u16)>, x: u16, y: u16) -> bool {
    !occupied.contains((x, y)) && !occupied.contains((x.wrapping_add(1), y))
}

/// Whether some cell in the first `half_rows` rows and `max_x` columns is
/// free for a bug.
pub open spec fn has_free_spot(occupied: Seq<(u16, u16)>, half_rows: u16, max_x: u16) -> bool {
    exists|x: u16, y: u16| x < max_x && y < half_rows && #[trigger] spot_free(occupied, x, y)
}

/// The first cell free for a bug, in reading order from the `k`-th cell of
/// the `half_rows × max_x` area on (row `k / max_x`, column `k % max_x`).
pub open spec fn first_free_from(occupied: Seq<(u16, u16)>, half_rows: u16, max_x: u16, k: nat) -> Option<(u16, u16)>
    decreases half_rows * max_x - k,
{
    if max_x == 0 || k >= half_rows * max_x {
        None
    } else {
        let x = (k % (max_x as nat)) as u16;
        let y = (k / (max_x as nat)) as u16;
        if spot_free(occupied, x, y) {
            Some((x, y))
        } else {
            first_free_from(occupied, half_rows, max_x, k + 1)
        }
    }
}

/// The cell that the search for a free spot settles on, from generator
/// state `state`: each try draws a row below `half_rows` then a column below
/// `max_x`; it stops at a cell whose two covered cells are free. After the
/// 100th try it takes the first free cell of the area in reading order, or
/// the last cell drawn when the area has none. Yields the generator state
/// afterwards and the cell.
pub open spec fn find_spot(state: u64, occupied: Seq<(u16, u16)>, half_rows: u16, max_x: u16, attempt: nat) -> (u64, u16, u16)
    decreases 100 - attempt,
{
    let s1 = lcg_step(state);
    let y = (lcg_output(s1) % (half_rows as u64)) as u16;
    let s2 = lcg_step(s1);
    let x = (lcg_output(s2) % (max_x as u64)) as u16;
    if spot_free(occupied, x, y) {
        (s2, x, y)
    } else if attempt + 1 >= 100 {
        match first_free_from(occupied, half_rows, max_x, 0) {
            Some((fx, fy)) => (s2, fx, fy),
            None => (s2, x, y),
        }
    } else {
        find_spot(s2, occupied, half_rows, max_x, attempt + 1)
    }
}

/// A cell found in reading order lies in the area and is free; when some
/// cell from the `k`-th on is free, one is found.
pub proof fn lemma_first_free(occupied: Seq<(u16, u16)>, half_rows: u16, max_x: u16, k: nat)
    ensures
        first_free_from(occupied, half_rows, max_x, k) matches Some((x, y)) ==> x < max_x && y < half_rows
            && spot_free(occupied, x, y),
        (exists|x: u16, y: u16|
            x < max_x && y < half_rows && y * max_x + x >= k && #[trigger] spot_free(occupied, x, y))
            ==> first_free_from(occupied, half_rows, max_x, k) is Some,
    decreases half_rows * max_x - k,
{
    if max_x == 0 || k >= half_rows * max_x {
        if exists|x: u16, y: u16|
            x < max_x && y < half_rows && y * max_x + x >= k && #[trigger] spot_free(occupied, x, y) {
            let (x, y) = choose|x: u16, y: u16|
                x < max_x && y < half_rows && y * max_x + x >= k && #[trigger] spot_free(occupied, x, y);
            assert(y * max_x + x < half_rows * max_x) by (nonlinear_arith)
                requires
                    x < max_x,
                    y < half_rows,
            ;
        }
    } else {
        let x = (k % (max_x as nat)) as u16;
        let y = (k / (max_x as nat)) as u16;
        assert(k / (max_x as nat) < half_rows) by (nonlinear_arith)
            requires
                k < half_rows * max_x,
                max_x > 0,
        ;
        assert(k % (max_x as nat) < max_x);
        assert(y * max_x + x == k) by (nonlinear_arith)
            requires
                x == k % (max_x as nat),
                y == k / (max_x as nat),
                max_x > 0,
        ;
        if !spot_free(occupied, x, y) {
            lemma_first_free(occupied, half_rows, max_x, k + 1);
            if exists|x2: u16, y2: u16|
                x2 < max_x && y2 < half_rows && y2 * max_x + x2 >= k && #[trigger] spot_free(occupied, x2, y2) {
                let (x2, y2) = choose|x2: u16, y2: u16|
                    x2 < max_x && y2 < half_rows && y2 * max_x + x2 >= k && #[trigger] spot_free(occupied, x2, y2);
                if y2 * max_x + x2 == k {
                    assert(x2 == x && y2 == y) by (nonlinear_arith)
                        requires
                            y2 * max_x + x2 == k,
                            x2 < max_x,
                            x == k % (max_x as nat),
                            y == k / (max_x as nat),
                            max_x > 0,
                    ;
                }
                assert(y2 * max_x + x2 >= k + 1);
            }
        }
    }
}

/// The spot found lies in the allowed rows and columns.
pub proof fn lemma_find_spot_bounds(state: u64, occupied: Seq<(u16, u16)>, half_rows: u16, max_x: u16, attempt: nat)
    requires
        half_rows >= 1,
        max_x >= 1,
    ensures
        find_spot(state, occupied, half_rows, max_x, attempt).1 < max_x,
        find_spot(state, occupied, half_rows, max_x, attempt).2 < half_rows,
    decreases 100 - attempt,
{
    let s1 = lcg_step(state);
    let s2 = lcg_step(s1);
    assert(lcg_output(s1) % (half_rows as u64) < half_rows);
    assert(lcg_output(s2) % (max_x as u64) < max_x);
    let y = (lcg_output(s1) % (half_rows as u64)) as u16;
    let x = (lcg_output(s2) % (max_x as u64)) as u16;
    if spot_free(occupied, x, y) {
    } else if attempt + 1 >= 100 {
        lemma_first_free(occupied, half_rows, max_x, 0);
    } else {
        lemma_find_spot_bounds(s2, occupied, half_rows, max_x, attempt + 1);
    }
}

/// A new bug with id `id`, from generator state `state`: its cell, then its
/// emoji, horizontal and vertical direction, lifetime and phase, each drawn
/// in turn. Yields the generator state afterwards and the bug.
pub open spec fn spawn_bug(state: u64, occupied: Seq<(u16, u16)>, id: u64, area: SpawnArea) -> (u64, Bug) {
    let (s0, x, y) = find_spot(state, occupied, area.half_rows, area.max_x, 0);
    let s1 = lcg_step(s0);
    let s2 = lcg_step(s1);
    let s3 = lcg_step(s2);
    let s4 = lcg_step(s3);
    let s5 = lcg_step(s4);
    let ms = (area.base_ms - area.half_ms) as u64;
    let ms = ms.wrapping_add(lcg_output(s4) % (area.half_ms * 2 + 1) as u64);
    (
        s5,
        Bug {
            id,
            x,
            y,
            old_x: x,
            old_y: y,
            emoji: bug_emoji_spec(lcg_output(s1)),
            birth: area.now,
            direction_x: if lcg_output(s2) % 2 == 0 { 1i8 } else { -1i8 },
            direction_y: if lcg_output(s3) % 2 == 0 { 1i8 } else { -1i8 },
            phase: lcg_output(s5),
            lifetime: if ms > 500 { ms } else { 500 },
            drawn: false,
        },
    )
}

/// `count` new bugs with ids from `next_id` on, each kept off the cells
/// occupied before it. Yields the generator state and the next id
/// afterwards, and the bugs.
pub open spec fn spawn_bugs(state: u64, occupied: Seq<(u16, u16)>, next_id: u64, count: nat, area: SpawnArea) -> (u64, u64, Seq<Bug>)
    decreases count,
{
    if count == 0 {
        (state, next_id, seq![])
    } else {
        let (s1, bug) = spawn_bug(state, occupied, next_id, area);
        let (s2, id2, rest) = spawn_bugs(
            s1,
            occupied + covered_cells(bug.x, bug.y),
            next_id.wrapping_add(1),
            (count - 1) as nat,
            area,
        );
        (s2, id2, seq![bug] + rest)
    }
}

/// The step a draw `roll` in `0..10` gives a bug heading `dir`: 60% on,
/// 30% stay, 10% back.
pub open spec fn rolled_step(dir: i8, roll: u64) -> int {
    if roll <= 5 {
        dir as int
    } else if roll <= 8 {
        0
    } else {
        -(dir as int)
    }
}

/// Horizontal step of a bug at column `x`, heading `dir`, where `max_x` is
/// the last column allowed: within 3 columns of the left edge it is forced
/// right, within 3 columns of the right limit forced left; elsewhere the draw
/// `roll` decides. Yields the offset, the new direction and whether the draw
/// was used.
pub open spec fn x_step(x: u16, dir: i8, max_x: u16, roll: u64) -> (int, i8, bool) {
    if x < 3 {
        (1, 1i8, false)
    } else if x + 3 > max_x {
        (-1, -1i8, false)
    } else {
        (rolled_step(dir, roll), dir, true)
    }
}

/// Vertical step of a bug at row `pos`, heading `dir`, where `low` is the
/// top zone's bound and `high` the bottom limit, and `roll` is a draw in
/// `0..10` used away from the edges. Yields the offset, the new direction
/// and whether the draw was used.
pub open spec fn axis_step(pos: u16, dir: i8, low: u16, high: u16, roll: u64) -> (int, i8, bool) {
    if pos < low && dir == -1 {
        (1, 1i8, false)
    } else if pos >= high && dir == 1 {
        (-1, -1i8, false)
    } else if roll <= 5 {
        (dir as int, dir, true)
    } else if roll <= 8 {
        (0, dir, true)
    } else {
        (-(dir as int), dir, true)
    }
}

/// A living bug after one move on a `cols × rows` screen at animation tick
/// `tick`; its previous cell is not yet updated.
pub open spec fn moved(bug: Bug, tick: u64, cols: u16, rows: u16) -> Bug {
    let max_x = if cols.saturating_sub(2) > 1 { cols.saturating_sub(2) } else { 1u16 };
    let safe_rows = rows.saturating_sub(2);
    let s0 = lcg_seed(tick.wrapping_mul(LCG_MULTIPLIER).wrapping_add(bug.phase));
    let sx = lcg_step(s0);
    let (dx, dir_x, used_x) = x_step(bug.x, bug.direction_x, max_x, lcg_output(sx) % 10);
    let sy = if used_x { lcg_step(sx) } else { sx };
    let (dy, dir_y, _used_y) = axis_step(bug.y, bug.direction_y, 2, safe_rows, lcg_output(sy) % 10);
    let new_x: i32 = (bug.x as i32 + dx) as i32;
    let (x, dir_x) = if new_x <= 0 {
        (1u16, 1i8)
    } else if new_x as u16 >= max_x {
        (max_x, -1i8)
    } else {
        (new_x as u16, dir_x)
    };
    let new_y: i16 = (bug.y as i16).wrapping_add(dy as i16);
    let (y, dir_y) = if new_y <= 0 {
        (1u16, 1i8)
    } else if new_y as u16 >= rows {
        (if safe_rows > 1 { safe_rows } else { 1u16 }, -1i8)
    } else {
        (new_y as u16, dir_y)
    };
    Bug { x, y, direction_x: dir_x, direction_y: dir_y, ..bug }
}

/// The bytes that give back the two cells under a bug drawn at `(x, y)`,
/// read from `screen`.
pub open spec fn restore_from(screen: ScreenModel, x: u16, y: u16) -> Seq<u8> {
    restore_bytes(x, y, screen.char_at(x, y), screen.char_at(x.wrapping_add(1), y))
}

/// One bug at animation tick `tick` and time `now`: the bytes written and
/// the bug that lives on, if any. A dead bug's cells are given back; a living
/// one moves, its previous cells are given back and it is drawn at the new cell.
pub open spec fn tick_bug(bug: Bug, now: u64, tick: u64, screen: ScreenModel) -> (Seq<u8>, Option<Bug>) {
    if is_dead(bug, now) {
        (restore_from(screen, bug.old_x, bug.old_y), None)
    } else {
        let m = moved(bug, tick, screen.cols, screen.rows);
        (
            restore_from(screen, bug.old_x, bug.old_y) + draw_bytes(m.x, m.y, seq![m.emoji]),
            Some(Bug { old_x: m.x, old_y: m.y, drawn: true, ..m }),
        )
    }
}

/// All bugs at animation tick `tick` and time `now`, in order: the bytes
/// written and the bugs that live on.
pub open spec fn tick_bugs(bugs: Seq<Bug>, now: u64, tick: u64, screen: ScreenModel) -> (Seq<u8>, Seq<Bug>)
    decreases bugs.len(),
{
    if bugs.len() == 0 {
        (seq![], seq![])
    } else {
        let (out, alive) = tick_bugs(bugs.drop_last(), now, tick, screen);
        let (bytes, next) = tick_bug(bugs.last(), now, tick, screen);
        (
            out + bytes,
            match next {
                Some(b) => alive.push(b),
                None => alive,
            },
        )
    }
}

/// The bytes that draw every bug not yet drawn since it was created.
pub open spec fn draw_new_bugs(bugs: Seq<Bug>) -> Seq<u8>
    decreases bugs.len(),
{
    if bugs.len() == 0 {
        seq![]
    } else {
        let b = bugs.last();
        draw_new_bugs(bugs.drop_last()) + if !b.drawn {
            draw_bytes(b.x, b.y, seq![b.emoji])
        } else {
            seq![]
        }
    }
}

/// The bugs, each marked as drawn.
pub open spec fn marked_drawn(bugs: Seq<Bug>) -> Seq<Bug> {
    bugs.map_values(|b: Bug| Bug { drawn: true, ..b })
}

/// The bytes that give back the cells under every bug, in order.
pub open spec fn restore_all(bugs: Seq<Bug>, screen: ScreenModel) -> Seq<u8>
    decreases bugs.len(),
{
    if bugs.len() == 0 {
        seq![]
    } else {
        restore_all(bugs.drop_last(), screen) + restore_from(screen, bugs.last().old_x, bugs.last().old_y)
    }
}

/// How many bugs a trigger releases, from the draw `roll`: `min_bugs` plus
/// `roll` modulo the width of the range up to `max_bugs` (taken as
/// `min_bugs` when smaller), and no more than `available`.
pub open spec fn spawn_count(roll: u64, min_bugs: usize, max_bugs: usize, available: int) -> int {
    let hi: int = if max_bugs > min_bugs { max_bugs as int } else { min_bugs as int };
    let span: int = hi - min_bugs;
    let offset: int = if span >= 0x7fff_ffff { roll as int } else { roll as int % (span + 1) };
    let c: int = min_bugs + offset;
    if c < available { c } else { available }
}

/// Abstract state of the bug manager.
pub struct BugManagerModel {
    pub bugs: Seq<Bug>,
    pub max_concurrent: usize,
    pub min_bugs: usize,
    pub max_bugs: usize,
    pub next_id: u64,
    pub tick: u64,
    /// The latest reading of the manager's clock that it has used, in
    /// nanoseconds: bugs are born at such readings and die by them.
    pub last_reading: u64,
}

/// Manager of the bugs on screen.
pub struct BugManager {
    bugs: Vec<Bug>,
    max_concurrent: usize,
    min_bugs: usize,
    max_bugs: usize,
    next_id: u64,
    tick: u64,
    last_reading: u64,
    clock: std::time::Instant,
}

impl View for BugManager {
    type V = BugManagerModel;

    closed spec fn view(&self) -> BugManagerModel {
        BugManagerModel {
            bugs: self.bugs@,
            max_concurrent: self.max_concurrent,
            min_bugs: self.min_bugs,
            max_bugs: self.max_bugs,
            next_id: self.next_id,
            tick: self.tick,
            last_reading: self.last_reading,
        }
    }
}

impl BugManagerModel {
    /// No more bugs than the limit, every bug heads one way on each axis,
    /// and none was born after the latest clock reading.
    pub open spec fn wf(self) -> bool {
        &&& self.bugs.len() <= self.max_concurrent
        &&& forall|i: int| 0 <= i < self.bugs.len() ==> bug_wf(#[trigger] self.bugs[i])
        &&& forall|i: int| 0 <= i < self.bugs.len() ==> #[trigger] self.bugs[i].birth <= self.last_reading
    }

    /// The time that a clock reading `now` stands for: the clock never runs
    /// back, so a reading earlier than the latest one counts as the latest.
    pub open spec fn reading(self, now: u64) -> u64 {
        if now > self.last_reading {
            now
        } else {
            self.last_reading
        }
    }

    /// How many more bugs fit under the limit.
    pub open spec fn available(self) -> int {
        if self.max_concurrent >= self.bugs.len() {
            self.max_concurrent - self.bugs.len()
        } else {
            0
        }
    }

    /// Where and for how long the bugs of a trigger may live on a `cols × rows`
    /// screen, with lifetimes around `lifetime_ms`, born at `now`.
    pub open spec fn spawn_area(cols: u16, rows: u16, lifetime_ms: u64, now: u64) -> SpawnArea {
        SpawnArea {
            half_rows: if rows / 2 > 1 { (rows / 2) as u16 } else { 1u16 },
            max_x: if cols.saturating_sub(2) > 1 { cols.saturating_sub(2) } else { 1u16 },
            base_ms: lifetime_ms,
            half_ms: if lifetime_ms < 500 { lifetime_ms } else { 500u64 },
            now,
        }
    }

    /// The first draw of a trigger's generator, seeded from the wall clock
    /// at `clock_nanos`: it decides how many bugs are released.
    pub open spec fn count_roll(self, clock_nanos: u64) -> u64 {
        lcg_output(lcg_step(lcg_seed(clock_nanos.wrapping_add(self.tick))))
    }

    /// The manager after `match_count` keyword matches, with lifetimes
    /// around `lifetime_ms`, on `screen`, with the wall clock at
    /// `clock_nanos` and the manager's clock at `now`: nothing happens when
    /// there was no match, no room, or a screen narrower than 2 columns or
    /// with no row; otherwise `spawn_count` bugs join the others.
    pub open spec fn triggered(self, match_count: usize, lifetime_ms: u64, screen: ScreenModel, clock_nanos: u64, now: u64) -> BugManagerModel {
        if match_count == 0 || self.available() == 0 || screen.cols < 2 || screen.rows == 0 {
            self
        } else {
            let count: nat = spawn_count(
                self.count_roll(clock_nanos),
                self.min_bugs,
                self.max_bugs,
                self.available(),
            ) as nat;
            let (_state, next_id, spawned) = spawn_bugs(
                lcg_step(lcg_seed(clock_nanos.wrapping_add(self.tick))),
                occupied_cells(self.bugs),
                self.next_id,
                count,
                Self::spawn_area(screen.cols, screen.rows, lifetime_ms, self.reading(now)),
            );
            BugManagerModel {
                bugs: self.bugs + spawned,
                next_id,
                tick: self.tick.wrapping_add(1),
                last_reading: self.reading(now),
                ..self
            }
        }
    }

    /// One animation tick with the clock reading `now` on `screen`: the
    /// bytes written and the manager afterwards. On a screen narrower than
    /// 2 columns or with no row, all bugs vanish without a trace written.
    pub open spec fn updated(self, now: u64, screen: ScreenModel) -> (Seq<u8>, BugManagerModel) {
        let tick = self.tick.wrapping_add(1);
        let t = self.reading(now);
        if screen.cols < 2 || screen.rows == 0 {
            (seq![], BugManagerModel { bugs: seq![], tick, last_reading: t, ..self })
        } else {
            let (out, alive) = tick_bugs(self.bugs, t, tick, screen);
            (out, BugManagerModel { bugs: alive, tick, last_reading: t, ..self })
        }
    }
}

/// How many bugs a trigger releases, as `spawn_count` says.
fn spawn_count_of(roll: u64, min_bugs: usize, max_bugs: usize, available: usize) -> (n: usize)
    requires
        roll < 0x8000_0000,
    ensures
        n == spawn_count(roll, min_bugs, max_bugs, available as int),
{
    let hi = if max_bugs > min_bugs {
        max_bugs
    } else {
        min_bugs
    };
    let span: u64 = (hi - min_bugs) as u64;
    let offset: u64 = if span >= 0x7fff_ffff {
        roll
    } else {
        roll % (span + 1)
    };
    if min_bugs >= available {
        available
    } else if offset >= (available - min_bugs) as u64 {
        available
    } else {
        min_bugs + offset as usize
    }
}

/// The key under which the cell `(x, y)` is kept in a set of cells.
pub open spec fn cell_key(x: u16, y: u16) -> u32 {
    (x as int * 0x10000 + y as int) as u32
}

proof fn lemma_cell_key(x: u16, y: u16, a: u16, b: u16)
    ensures
        cell_key(x, y) == x as int * 0x10000 + y as int,
        cell_key(x, y) == cell_key(a, b) <==> (x == a && y == b),
{
    assert(x as int * 0x10000 + y as int <= 0xffff_ffff) by (nonlinear_arith)
        requires
            x <= 0xffff,
            y <= 0xffff,
    ;
    assert(a as int * 0x10000 + b as int <= 0xffff_ffff) by (nonlinear_arith)
        requires
            a <= 0xffff,
            b <= 0xffff,
    ;
    if x as int * 0x10000 + y as int == a as int * 0x10000 + b as int {
        assert(x == a && y == b) by (nonlinear_arith)
            requires
                x as int * 0x10000 + y as int == a as int * 0x10000 + b as int,
                y < 0x10000,
                b < 0x10000,
                x >= 0,
                a >= 0,
        ;
    }
}

/// The cells that bugs cover, kept in a hash set by their keys; its view
/// is the cells in the order they were added.
struct OccupiedCells {
    keys: std::collections::HashSet<u32>,
    cells: Ghost<Seq<(u16, u16)>>,
}

impl View for OccupiedCells {
    type V = Seq<(u16, u16)>;

    closed spec fn view(&self) -> Seq<(u16, u16)> {
        self.cells@
    }
}

impl OccupiedCells {
    /// The set holds the key of a cell exactly when the cell was added.
    closed spec fn wf(&self) -> bool {
        forall|x: u16, y: u16| #[trigger] self.keys@.contains(cell_key(x, y)) <==> self.cells@.contains((x, y))
    }

    fn new() -> (c: OccupiedCells)
        ensures
            c.wf(),
            c@ == Seq::<(u16, u16)>::empty(),
    {
        OccupiedCells { keys: std::collections::HashSet::new(), cells: Ghost(Seq::empty()) }
    }

    fn insert(&mut self, x: u16, y: u16)
        requires
            old(self).wf(),
        ensures
            final(self).wf(),
            final(self)@ == old(self)@.push((x, y)),
    {
        broadcast use vstd::std_specs::hash::group_hash_axioms;

        proof {
            lemma_cell_key(x, y, x, y);
        }
        self.keys.insert(x as u32 * 0x10000 + y as u32);
        self.cells = Ghost(self.cells@.push((x, y)));
        assert forall|a: u16, b: u16| #[trigger] self.keys@.contains(cell_key(a, b)) <==> self.cells@.contains(
            (a, b),
        ) by {
            lemma_cell_key(x, y, a, b);
            if self.cells@.contains((a, b)) && (a, b) != (x, y) {
                let k = choose|k: int| 0 <= k < self.cells@.len() && self.cells@[k] == (a, b);
                assert(old(self).cells@[k] == (a, b));
            }
            if old(self).cells@.contains((a, b)) {
                let k = choose|k: int| 0 <= k < old(self).cells@.len() && old(self).cells@[k] == (a, b);
                assert(self.cells@[k] == (a, b));
            }
            assert(self.cells@[old(self).cells@.len() as int] == (x, y));
        }
    }

    /// Whether the cell `(x, y)` was added.
    fn contains(&self, x: u16, y: u16) -> (b: bool)
        requires
            self.wf(),
        ensures
            b == self@.contains((x, y)),
    {
        broadcast use vstd::std_specs::hash::group_hash_axioms;

        proof {
            lemma_cell_key(x, y, x, y);
        }
        let k: u32 = x as u32 * 0x10000 + y as u32;
        self.keys.contains(&k)
    }
}

/// Searches a free spot for a new bug, as `find_spot` says.
fn find_free_spot(rng: &mut SimpleRng, occupied: &OccupiedCells, half_rows: u16, max_x: u16) -> (spot: (u16, u16))
    requires
        occupied.wf(),
        half_rows >= 1,
        max_x >= 1,
    ensures
        find_spot(old(rng)@, occupied@, half_rows, max_x, 0) == (final(rng)@, spot.0, spot.1),
{
    let mut attempt: u32 = 0;
    loop
        invariant
            occupied.wf(),
            half_rows >= 1,
            max_x >= 1,
            attempt < 100,
            find_spot(old(rng)@, occupied@, half_rows, max_x, 0) == find_spot(
                rng@,
                occupied@,
                half_rows,
                max_x,
                attempt as nat,
            ),
        decreases 100 - attempt,
    {
        let y = (rng.next() % (half_rows as u64)) as u16;
        let x = (rng.next() % (max_x as u64)) as u16;
        if !occupied.contains(x, y) && !occupied.contains(x.wrapping_add(1), y) {
            return (x, y);
        }
        attempt = attempt + 1;
        if attempt >= 100 {
            return match first_free_cell(occupied, half_rows, max_x) {
                Some(spot) => spot,
                None => (x, y),
            };
        }
    }
}

/// The first cell free for a bug in the `half_rows × max_x` area, in
/// reading order, as `first_free_from` says.
fn first_free_cell(occupied: &OccupiedCells, half_rows: u16, max_x: u16) -> (spot: Option<(u16, u16)>)
    requires
        occupied.wf(),
    ensures
        spot == first_free_from(occupied@, half_rows, max_x, 0),
{
    if max_x == 0 {
        return None;
    }
    assert(half_rows * max_x <= 0xffff * 0xffff) by (nonlinear_arith)
        requires
            half_rows <= 0xffff,
            max_x <= 0xffff,
    ;
    let total: u64 = half_rows as u64 * max_x as u64;
    let mut k: u64 = 0;
    while k < total
        invariant
            occupied.wf(),
            max_x > 0,
            total == half_rows * max_x,
            k <= total,
            first_free_from(occupied@, half_rows, max_x, 0) == first_free_from(occupied@, half_rows, max_x, k as nat),
        decreases total - k,
    {
        let x = (k % max_x as u64) as u16;
        let y = (k / max_x as u64) as u16;
        proof {
            assert(k / (max_x as u64) < 0x10000) by (nonlinear_arith)
                requires
                    k < half_rows * max_x,
                    max_x > 0,
                    half_rows < 0x10000,
            ;
        }
        if !occupied.contains(x, y) && !occupied.contains(x.wrapping_add(1), y) {
            return Some((x, y));
        }
        k = k + 1;
    }
    None
}

/// Moves a living bug, as `moved` says.
fn move_bug(bug: Bug, tick: u64, cols: u16, rows: u16) -> (m: Bug)
    requires
        bug_wf(bug),
    ensures
        m == moved(bug, tick, cols, rows),
        bug_wf(m),
{
    let mut bug = bug;
    let max_x: u16 = if cols.saturating_sub(2) > 1 {
        cols.saturating_sub(2)
    } else {
        1
    };
    let safe_rows = rows.saturating_sub(2);
    let mut rng = SimpleRng::new(tick.wrapping_mul(LCG_MULTIPLIER).wrapping_add(bug.phase));
    let dx: i32;
    if bug.x < 3 {
        bug.direction_x = 1;
        dx = 1;
    } else if bug.x as u32 + 3 > max_x as u32 {
        bug.direction_x = -1;
        dx = -1;
    } else {
        let roll = rng.next() % 10;
        dx = if roll <= 5 {
            bug.direction_x as i32
        } else if roll <= 8 {
            0
        } else {
            (-bug.direction_x) as i32
        };
    }
    let new_x: i32 = bug.x as i32 + dx;
    if new_x <= 0 {
        bug.x = 1;
        bug.direction_x = 1;
    } else if new_x as u16 >= max_x {
        bug.x = max_x;
        bug.direction_x = -1;
    } else {
        bug.x = new_x as u16;
    }
    let dy: i16;
    if bug.y < 2 && bug.direction_y == -1 {
        bug.direction_y = 1;
        dy = 1;
    } else if bug.y >= safe_rows && bug.direction_y == 1 {
        bug.direction_y = -1;
        dy = -1;
    } else {
        let roll = rng.next() % 10;
        dy = if roll <= 5 {
            bug.direction_y as i16
        } else if roll <= 8 {
            0
        } else {
            (-bug.direction_y) as i16
        };
    }
    let new_y: i16 = (bug.y as i16).wrapping_add(dy);
    if new_y <= 0 {
        bug.y = 1;
        bug.direction_y = 1;
    } else if new_y as u16 >= rows {
        bug.y = if safe_rows > 1 {
            safe_rows
        } else {
            1
        };
        bug.direction_y = -1;
    } else {
        bug.y = new_y as u16;
    }
    bug
}

/// Spawns one bug with id `id`, as `spawn_bug` says, and marks its cells occupied.
fn spawn_one(
    rng: &mut SimpleRng,
    occupied: &mut OccupiedCells,
    id: u64,
    now: u64,
    base_ms: u64,
    half: u64,
    half_rows: u16,
    max_x: u16,
) -> (bug: Bug)
    requires
        old(occupied).wf(),
        half_rows >= 1,
        max_x >= 1,
        half <= base_ms,
        half <= 500,
    ensures
        final(occupied).wf(),
        spawn_bug(
            old(rng)@,
            old(occupied)@,
            id,
            SpawnArea { half_rows, max_x, base_ms, half_ms: half, now },
        ) == (final(rng)@, bug),
        final(occupied)@ == old(occupied)@ + covered_cells(bug.x, bug.y),
        bug_wf(bug),
{
    proof {
        lemma_find_spot_bounds(old(rng)@, old(occupied)@, half_rows, max_x, 0);
    }
    let (x, y) = find_free_spot(rng, occupied, half_rows, max_x);
    occupied.insert(x, y);
    occupied.insert(x.wrapping_add(1), y);
    let emoji = bug_emoji(rng.next());
    let direction_x: i8 = if rng.next() % 2 == 0 {
        1
    } else {
        -1
    };
    let direction_y: i8 = if rng.next() % 2 == 0 {
        1
    } else {
        -1
    };
    let ms = (base_ms - half).wrapping_add(rng.next() % (half * 2 + 1));
    let phase = rng.next();
    assert(occupied@ =~= old(occupied)@ + covered_cells(x, y));
    Bug {
        id,
        x,
        y,
        old_x: x,
        old_y: y,
        emoji,
        birth: now,
        direction_x,
        direction_y,
        phase,
        lifetime: if ms > 500 {
            ms
        } else {
            500
        },
        drawn: false,
    }
}

impl BugManager {
    /// No more bugs than the limit, and every bug heads one way on each axis.
    #[verifier::type_invariant]
    pub open spec fn bounded(&self) -> bool {
        self@.wf()
    }

    /// A manager with no bugs that shows at most `max_concurrent` at a time
    /// and releases 2 to 5 bugs a trigger.
    pub fn new(max_concurrent: usize, _cols: u16, _rows: u16) -> (m: BugManager)
        ensures
            m@.bugs == Seq::<Bug>::empty(),
            m@.max_concurrent == max_concurrent,
            m@.min_bugs == 2,
            m@.max_bugs == 5,
            m@.next_id == 1,
            m@.tick == 0,
            m@.last_reading == 0,
            m@.wf(),
    {
        BugManager {
            bugs: Vec::new(),
            max_concurrent,
            min_bugs: 2,
            max_bugs: 5,
            next_id: 1,
            tick: 0,
            last_reading: 0,
            clock: instant_now(),
        }
    }

    /// The same manager, releasing `min_bugs` to `max_bugs` bugs a trigger.
    pub fn with_spawn_range(self, min_bugs: usize, max_bugs: usize) -> (m: BugManager)
        ensures
            m@ == (BugManagerModel { min_bugs, max_bugs, ..self@ }),
    {
        proof {
            use_type_invariant(&self);
        }
        BugManager { min_bugs, max_bugs, ..self }
    }

    /// The bugs on screen, oldest first.
    pub fn bugs(&self) -> (bugs: &Vec<Bug>)
        ensures
            bugs@ == self@.bugs,
    {
        &self.bugs
    }

    /// The most bugs shown at a time.
    pub fn max_concurrent(&self) -> (n: usize)
        ensures
            n == self@.max_concurrent,
    {
        self.max_concurrent
    }

    /// Gives back the two cells under a bug drawn at `(x, y)`, read from the
    /// screen buffer.
    fn restore_at(dev: &mut Vec<u8>, screen: &ScreenBuffer, x: u16, y: u16)
        requires
            screen.wf(),
        ensures
            final(dev)@ == old(dev)@ + restore_from(screen@, x, y),
    {
        let ch_left = screen.get_char(x, y);
        let ch_right = screen.get_char(x.wrapping_add(1), y);
        Terminal::clear_bug_at_to(dev, x, y, ch_left, ch_right);
    }

    /// Spawns bugs in answer to `match_count` keyword matches, as `triggered`
    /// says, with the wall clock at `clock_nanos` (the seed of the placement)
    /// and the manager's clock at `now` (the bugs' birth).
    pub fn trigger_at(&mut self, match_count: usize, lifetime_ms: u64, screen: &ScreenBuffer, clock_nanos: u64, now: u64)
        requires
            screen.wf(),
        ensures
            final(self)@ == old(self)@.triggered(match_count, lifetime_ms, screen@, clock_nanos, now),
            final(self)@.wf(),
    {
        proof {
            use_type_invariant(&*self);
        }
        if match_count == 0 {
            return;
        }
        let available = self.max_concurrent.saturating_sub(self.bugs.len());
        if available == 0 {
            return;
        }
        let cols = screen.cols();
        let rows = screen.rows();
        if cols < 2 || rows == 0 {
            return;
        }
        let ghost old_view = self@;
        let ghost now0 = now;
        let now: u64 = if now > self.last_reading {
            now
        } else {
            self.last_reading
        };
        self.last_reading = now;
        let mut rng = SimpleRng::new(clock_nanos.wrapping_add(self.tick));
        let roll = rng.next();
        let to_spawn = spawn_count_of(roll, self.min_bugs, self.max_bugs, available);
        self.tick = self.tick.wrapping_add(1);
        let base_ms = lifetime_ms;
        let half: u64 = if base_ms < 500 {
            base_ms
        } else {
            500
        };
        let max_x: u16 = if cols.saturating_sub(2) > 1 {
            cols.saturating_sub(2)
        } else {
            1
        };
        let half_rows: u16 = if rows / 2 > 1 {
            rows / 2
        } else {
            1
        };
        let ghost area = BugManagerModel::spawn_area(cols, rows, lifetime_ms, now);
        let mut occupied = OccupiedCells::new();
        let mut i: usize = 0;
        while i < self.bugs.len()
            invariant
                i <= self.bugs@.len(),
                self.bugs@ == old_view.bugs,
                occupied.wf(),
                occupied@ == occupied_cells(self.bugs@.take(i as int)),
            decreases self.bugs@.len() - i,
        {
            let b = self.bugs[i];
            occupied.insert(b.x, b.y);
            occupied.insert(b.x.wrapping_add(1), b.y);
            assert(self.bugs@.take(i + 1).drop_last() =~= self.bugs@.take(i as int));
            assert(occupied@ =~= occupied_cells(self.bugs@.take(i + 1)));
            i = i + 1;
        }
        assert(self.bugs@.take(i as int) =~= self.bugs@);
        let mut bugs: Vec<Bug> = Vec::new();
        std::mem::swap(&mut bugs, &mut self.bugs);
        let ghost first_state = rng@;
        let ghost spawned: Seq<Bug> = seq![];
        let mut k: usize = 0;
        while k < to_spawn
            invariant
                k <= to_spawn <= available,
                occupied.wf(),
                available == old_view.available(),
                max_x >= 1,
                half_rows >= 1,
                half <= base_ms,
                half <= 500,
                half == area.half_ms,
                max_x == area.max_x,
                half_rows == area.half_rows,
                base_ms == area.base_ms,
                now == area.now,
                area == BugManagerModel::spawn_area(cols, rows, lifetime_ms, now),
                self.max_concurrent == old_view.max_concurrent,
                self.min_bugs == old_view.min_bugs,
                self.max_bugs == old_view.max_bugs,
                self.tick == old_view.tick.wrapping_add(1),
                self.last_reading == now,
                now == old_view.reading(now0),
                old_view.last_reading <= now,
                self.bugs@ == Seq::<Bug>::empty(),
                old_view.wf(),
                forall|j: int| 0 <= j < spawned.len() ==> #[trigger] spawned[j].birth == now,
                bugs@ == old_view.bugs + spawned,
                spawned.len() == k,
                forall|j: int| 0 <= j < spawned.len() ==> bug_wf(#[trigger] spawned[j]),
                ({
                    let (s_all, id_all, all) = spawn_bugs(
                        first_state,
                        occupied_cells(old_view.bugs),
                        old_view.next_id,
                        to_spawn as nat,
                        area,
                    );
                    let (s_rest, id_rest, rest) = spawn_bugs(
                        rng@,
                        occupied@,
                        self.next_id,
                        (to_spawn - k) as nat,
                        area,
                    );
                    s_all == s_rest && id_all == id_rest && all == spawned + rest
                }),
            decreases to_spawn - k,
        {
            let ghost state_before = rng@;
            let ghost occupied_before = occupied@;
            let id = self.next_id;
            let bug = spawn_one(&mut rng, &mut occupied, id, now, base_ms, half, half_rows, max_x);
            self.next_id = self.next_id.wrapping_add(1);
            proof {
                let (s_rest, id_rest, rest) = spawn_bugs(state_before, occupied_before, id, (to_spawn - k) as nat, area);
                let (s_next, id_next, rest_next) = spawn_bugs(rng@, occupied@, self.next_id, (to_spawn - k - 1) as nat, area);
                assert(rest == seq![bug] + rest_next);
                assert(spawned + rest =~= spawned.push(bug) + rest_next);
                spawned = spawned.push(bug);
            }
            bugs.push(bug);
            k = k + 1;
        }
        proof {
            let (s_rest, id_rest, rest) = spawn_bugs(rng@, occupied@, self.next_id, 0, area);
            assert(spawned + rest =~= spawned);
            assert forall|j: int| 0 <= j < bugs@.len() implies bug_wf(#[trigger] bugs@[j]) && bugs@[j].birth <= now by {
                if j >= old_view.bugs.len() {
                    assert(bugs@[j] == spawned[j - old_view.bugs.len()]);
                } else {
                    assert(bugs@[j] == old_view.bugs[j]);
                }
            }
        }
        self.bugs = bugs;
    }

    /// Spawns bugs in answer to `match_count` keyword matches, with lifetimes
    /// around `lifetime_ms`, on `screen`. The placement draws on the wall
    /// clock, the birth on the manager's clock: whatever they read,
    /// the result is the one `triggered` gives for those readings.
    pub fn trigger(&mut self, match_count: usize, lifetime_ms: u64, screen: &ScreenBuffer)
        requires
            screen.wf(),
        ensures
            exists|clock_nanos: u64, now: u64|
                final(self)@ == old(self)@.triggered(match_count, lifetime_ms, screen@, clock_nanos, now),
            final(self)@.wf(),
    {
        proof {
            use_type_invariant(&*self);
        }
        let clock_nanos = wall_clock_nanos();
        let now = nanos_since(&self.clock);
        self.trigger_at(match_count, lifetime_ms, screen, clock_nanos, now);
    }

    /// One animation tick at time `now` on `screen`, as `updated` says: dead
    /// bugs give their cells back and go; living bugs move, give back the
    /// cells they were drawn on and are drawn anew. The screen buffer is not
    /// changed.
    pub fn update_at(&mut self, now: u64, dev: &mut Vec<u8>, screen: &ScreenBuffer)
        requires
            screen.wf(),
        ensures
            final(dev)@ == old(dev)@ + old(self)@.updated(now, screen@).0,
            final(self)@ == old(self)@.updated(now, screen@).1,
            final(self)@.wf(),
    {
        proof {
            use_type_invariant(&*self);
        }
        self.tick = self.tick.wrapping_add(1);
        let now: u64 = if now > self.last_reading {
            now
        } else {
            self.last_reading
        };
        self.last_reading = now;
        let cols = screen.cols();
        let rows = screen.rows();
        if cols < 2 || rows == 0 {
            self.bugs = Vec::new();
            return;
        }
        let ghost old_dev = dev@;
        let mut bugs: Vec<Bug> = Vec::new();
        std::mem::swap(&mut bugs, &mut self.bugs);
        let mut alive: Vec<Bug> = Vec::new();
        let mut i: usize = 0;
        while i < bugs.len()
            invariant
                i <= bugs@.len(),
                bugs@ == old(self)@.bugs,
                old(self)@.wf(),
                self.tick == old(self)@.tick.wrapping_add(1),
                self.max_concurrent == old(self)@.max_concurrent,
                self.min_bugs == old(self)@.min_bugs,
                self.max_bugs == old(self)@.max_bugs,
                self.next_id == old(self)@.next_id,
                self.last_reading == now,
                old(self)@.last_reading <= now,
                screen.wf(),
                screen@.cols == cols,
                screen@.rows == rows,
                alive@.len() <= i,
                forall|j: int| 0 <= j < alive@.len() ==> bug_wf(#[trigger] alive@[j]),
                forall|j: int| 0 <= j < alive@.len() ==> #[trigger] alive@[j].birth <= now,
                ({
                    let (out, live) = tick_bugs(bugs@.take(i as int), now, self.tick, screen@);
                    dev@ == old_dev + out && alive@ == live
                }),
            decreases bugs@.len() - i,
        {
            let bug = bugs[i];
            assert(bug_wf(bugs@[i as int]));
            assert(bugs@[i as int].birth <= old(self)@.last_reading);
            assert(bugs@.take(i + 1).drop_last() =~= bugs@.take(i as int));
            assert(bugs@.take(i + 1).last() == bug);
            if now.saturating_sub(bug.birth) / 1_000_000 >= bug.lifetime {
                Self::restore_at(dev, screen, bug.old_x, bug.old_y);
            } else {
                let mut m = move_bug(bug, self.tick, cols, rows);
                Self::restore_at(dev, screen, bug.old_x, bug.old_y);
                m.old_x = m.x;
                m.old_y = m.y;
                m.drawn = true;
                Terminal::clear_at_to(dev, m.x, m.y, m.emoji);
                alive.push(m);
            }
            proof {
                let (out, live) = tick_bugs(bugs@.take(i + 1), now, self.tick, screen@);
                assert(dev@ =~= old_dev + out);
            }
            i = i + 1;
        }
        assert(bugs@.take(i as int) =~= bugs@);
        self.bugs = alive;
    }

    /// One animation tick on `screen`, reading the manager's clock: whatever
    /// it reads, the bytes written and the manager afterwards are those that
    /// `updated` gives for that time. The screen buffer is not changed.
    pub fn update(&mut self, dev: &mut Vec<u8>, screen: &mut ScreenBuffer)
        requires
            old(screen).wf(),
        ensures
            exists|now: u64|
                {
                    &&& final(dev)@ == old(dev)@ + old(self)@.updated(now, old(screen)@).0
                    &&& final(self)@ == old(self)@.updated(now, old(screen)@).1
                },
            final(self)@.wf(),
            final(screen)@ == old(screen)@,
    {
        proof {
            use_type_invariant(&*self);
        }
        let now = nanos_since(&self.clock);
        self.update_at(now, dev, screen);
    }

    /// Draws every bug not yet drawn since it was created, and marks every
    /// bug as drawn. The screen buffer does not change.
    pub fn draw_to(&mut self, dev: &mut Vec<u8>, _screen: &mut ScreenBuffer)
        ensures
            final(dev)@ == old(dev)@ + draw_new_bugs(old(self)@.bugs),
            final(self)@ == (BugManagerModel { bugs: marked_drawn(old(self)@.bugs), ..old(self)@ }),
            final(_screen)@ == old(_screen)@,
    {
        proof {
            use_type_invariant(&*self);
        }
        let ghost old_dev = dev@;
        let ghost old_bugs = self.bugs@;
        let mut bugs: Vec<Bug> = Vec::new();
        std::mem::swap(&mut bugs, &mut self.bugs);
        let mut i: usize = 0;
        while i < bugs.len()
            invariant
                i <= bugs@.len(),
                bugs@.len() == old_bugs.len(),
                self.bugs@ == Seq::<Bug>::empty(),
                self.max_concurrent == old(self).max_concurrent,
                self.min_bugs == old(self).min_bugs,
                self.max_bugs == old(self).max_bugs,
                self.next_id == old(self).next_id,
                self.tick == old(self).tick,
                self.last_reading == old(self).last_reading,
                old_bugs == old(self)@.bugs,
                forall|j: int| 0 <= j < i ==> #[trigger] bugs@[j] == marked_drawn(old_bugs)[j],
                forall|j: int| i <= j < old_bugs.len() ==> #[trigger] bugs@[j] == old_bugs[j],
                dev@ == old_dev + draw_new_bugs(old_bugs.take(i as int)),
            decreases old_bugs.len() - i,
        {
            let bug = bugs[i];
            assert(old_bugs.take(i + 1).drop_last() =~= old_bugs.take(i as int));
            if !bug.drawn {
                Terminal::clear_at_to(dev, bug.x, bug.y, bug.emoji);
            }
            bugs.set(i, Bug { drawn: true, ..bug });
            assert(dev@ =~= old_dev + draw_new_bugs(old_bugs.take(i + 1)));
            i = i + 1;
        }
        assert(old_bugs.take(i as int) =~= old_bugs);
        assert(bugs@ =~= marked_drawn(old_bugs));
        assert forall|j: int| 0 <= j < bugs@.len() implies bug_wf(#[trigger] bugs@[j]) && bugs@[j].birth
            <= self.last_reading by {
            assert(bug_wf(old_bugs[j]));
            assert(old_bugs[j].birth <= old(self)@.last_reading);
        }
        self.bugs = bugs;
    }

    /// Gives back the cells under every bug, read from the screen buffer,
    /// and removes all bugs. The screen buffer is not changed.
    pub fn clear_all(&mut self, dev: &mut Vec<u8>, screen: &mut ScreenBuffer)
        requires
            old(screen).wf(),
        ensures
            final(dev)@ == old(dev)@ + restore_all(old(self)@.bugs, old(screen)@),
            final(self)@ == (BugManagerModel { bugs: seq![], ..old(self)@ }),
            final(screen)@ == old(screen)@,
    {
        proof {
            use_type_invariant(&*self);
        }
        let ghost old_dev = dev@;
        let mut i: usize = 0;
        while i < self.bugs.len()
            invariant
                i <= self.bugs@.len(),
                self@ == old(self)@,
                screen.wf(),
                screen@ == old(screen)@,
                dev@ == old_dev + restore_all(self.bugs@.take(i as int), screen@),
            decreases self.bugs@.len() - i,
        {
            let bug = self.bugs[i];
            assert(self.bugs@.take(i + 1).drop_last() =~= self.bugs@.take(i as int));
            Self::restore_at(dev, screen, bug.old_x, bug.old_y);
            assert(dev@ =~= old_dev + restore_all(self.bugs@.take(i + 1), screen@));
            i = i + 1;
        }
        assert(self.bugs@.take(i as int) =~= self.bugs@);
        self.bugs = Vec::new();
    }
}

} // verus!
