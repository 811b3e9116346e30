//! Laws of the bug animation: where and for how long new bugs live, what a
//! tick leaves, and how bugs turn at the edges.

use vstd::prelude::*;

use crate::animation::{
    bug_wf, covered_cells, find_spot, first_free_from, has_free_spot, is_dead, lcg_output, lcg_seed, lcg_step,
    lemma_find_spot_bounds, lemma_first_free, moved, occupied_cells, spawn_bug, spawn_bugs, spawn_count, spot_free,
    tick_bug, tick_bugs, Bug, BugManagerModel, SpawnArea,
};
use crate::screen::ScreenModel;
use crate::screen_laws::is_printable;

verus! {

/// A bug born by a trigger in `area`: in the upper rows and the allowed
/// columns, not yet moved, born at the area's time, with a lifetime of at
/// least 500 ms within the area's spread around its center.
pub open spec fn fresh_in(b: Bug, area: SpawnArea) -> bool {
    &&& b.y < area.half_rows
    &&& b.x < area.max_x
    &&& b.old_x == b.x
    &&& b.old_y == b.y
    &&& !b.drawn
    &&& b.birth == area.now
    &&& is_printable(b.emoji)
    &&& bug_wf(b)
    &&& b.lifetime >= 500
    &&& (area.base_ms <= u64::MAX - 500 ==> area.base_ms - area.half_ms <= b.lifetime)
    &&& (area.base_ms <= u64::MAX - 500 ==> b.lifetime <= if area.base_ms + area.half_ms > 500 {
        area.base_ms + area.half_ms
    } else {
        500
    })
}

proof fn lemma_spawn_bug_fresh(state: u64, occupied: Seq<(u16, u16)>, id: u64, area: SpawnArea)
    requires
        area.half_rows >= 1,
        area.max_x >= 1,
        area.half_ms <= area.base_ms,
        area.half_ms <= 500,
    ensures
        fresh_in(spawn_bug(state, occupied, id, area).1, area),
        spawn_bug(state, occupied, id, area).1.id == id,
{
    lemma_find_spot_bounds(state, occupied, area.half_rows, area.max_x, 0);
    let (s0, x, y) = find_spot(state, occupied, area.half_rows, area.max_x, 0);
    let s4 = lcg_step(lcg_step(lcg_step(lcg_step(s0))));
    let r = lcg_output(s4) % (area.half_ms * 2 + 1) as u64;
    assert(r <= area.half_ms * 2);
    assert(is_printable(crate::animation::bug_emoji_spec(lcg_output(lcg_step(s0)))));
}

proof fn lemma_spawn_bugs_fresh(state: u64, occupied: Seq<(u16, u16)>, next_id: u64, count: nat, area: SpawnArea)
    requires
        area.half_rows >= 1,
        area.max_x >= 1,
        area.half_ms <= area.base_ms,
        area.half_ms <= 500,
    ensures
        spawn_bugs(state, occupied, next_id, count, area).2.len() == count,
        forall|i: int|
            0 <= i < count ==> fresh_in(#[trigger] spawn_bugs(state, occupied, next_id, count, area).2[i], area),
    decreases count,
{
    if count > 0 {
        let (s1, bug) = spawn_bug(state, occupied, next_id, area);
        lemma_spawn_bug_fresh(state, occupied, next_id, area);
        lemma_spawn_bugs_fresh(
            s1,
            occupied + covered_cells(bug.x, bug.y),
            next_id.wrapping_add(1),
            (count - 1) as nat,
            area,
        );
        let rest = spawn_bugs(
            s1,
            occupied + covered_cells(bug.x, bug.y),
            next_id.wrapping_add(1),
            (count - 1) as nat,
            area,
        ).2;
        assert forall|i: int| 0 <= i < count implies fresh_in(
            #[trigger] spawn_bugs(state, occupied, next_id, count, area).2[i],
            area,
        ) by {
            if i > 0 {
                assert(spawn_bugs(state, occupied, next_id, count, area).2[i] == rest[i - 1]);
            }
        }
    }
}

/// The count drawn for a trigger lies between `min_bugs` and `max_bugs`
/// (taken as `min_bugs` when smaller), capped by the room left.
proof fn lemma_spawn_count_range(roll: u64, min_bugs: usize, max_bugs: usize, available: int)
    requires
        roll < 0x8000_0000,
        available >= 0,
    ensures
        ({
            let hi: int = if max_bugs > min_bugs { max_bugs as int } else { min_bugs as int };
            let n = spawn_count(roll, min_bugs, max_bugs, available);
            &&& n <= available
            &&& n <= hi
            &&& (n >= min_bugs || n == available)
        }),
{
}

/// A trigger on a screen at least 2 columns wide with a row, with at least
/// one match and room for more bugs, adds between `min_bugs` and `max_bugs`
/// new bugs (`min_bugs` when `max_bugs` is smaller), no more than there is
/// room for, after the ones already there; each new bug lies in the upper
/// half of the screen and at least 2 columns from its right edge, has not
/// moved or been drawn yet, is born now, and lives at least 500 ms and within
/// 500 ms of `lifetime_ms`.
pub proof fn law_trigger_spawns(
    m: BugManagerModel,
    match_count: usize,
    lifetime_ms: u64,
    screen: ScreenModel,
    clock_nanos: u64,
    now: u64,
)
    requires
        m.wf(),
        match_count > 0,
        m.available() > 0,
        screen.cols >= 2,
        screen.rows >= 1,
    ensures
        ({
            let after = m.triggered(match_count, lifetime_ms, screen, clock_nanos, now);
            let count = after.bugs.len() - m.bugs.len();
            let hi: int = if m.max_bugs > m.min_bugs { m.max_bugs as int } else { m.min_bugs as int };
            let area = BugManagerModel::spawn_area(screen.cols, screen.rows, lifetime_ms, m.reading(now));
            &&& count == spawn_count(m.count_roll(clock_nanos), m.min_bugs, m.max_bugs, m.available())
            &&& count <= m.available()
            &&& count <= hi
            &&& (count >= m.min_bugs || count == m.available())
            &&& after.bugs.take(m.bugs.len() as int) == m.bugs
            &&& after.wf()
            &&& after.max_concurrent == m.max_concurrent
            &&& forall|i: int| m.bugs.len() <= i < after.bugs.len() ==> fresh_in(#[trigger] after.bugs[i], area)
        }),
{
    let roll = m.count_roll(clock_nanos);
    let s0 = lcg_step(lcg_seed(clock_nanos.wrapping_add(m.tick)));
    assert(lcg_output(s0) < 0x8000_0000) by (bit_vector);
    lemma_spawn_count_range(roll, m.min_bugs, m.max_bugs, m.available());
    let count: nat = spawn_count(roll, m.min_bugs, m.max_bugs, m.available()) as nat;
    let area = BugManagerModel::spawn_area(screen.cols, screen.rows, lifetime_ms, m.reading(now));
    lemma_spawn_bugs_fresh(s0, occupied_cells(m.bugs), m.next_id, count, area);
    let after = m.triggered(match_count, lifetime_ms, screen, clock_nanos, now);
    let spawned = spawn_bugs(s0, occupied_cells(m.bugs), m.next_id, count, area).2;
    assert(after.bugs == m.bugs + spawned);
    assert(after.bugs.take(m.bugs.len() as int) =~= m.bugs);
    assert forall|i: int| m.bugs.len() <= i < after.bugs.len() implies fresh_in(#[trigger] after.bugs[i], area) by {
        assert(after.bugs[i] == spawned[i - m.bugs.len()]);
    }
    assert forall|i: int| 0 <= i < after.bugs.len() implies bug_wf(#[trigger] after.bugs[i]) by {
        if i >= m.bugs.len() {
            assert(after.bugs[i] == spawned[i - m.bugs.len()]);
        }
    }
}

/// The search for a spot finds a free one whenever the area has one.
proof fn lemma_find_spot_free(state: u64, occupied: Seq<(u16, u16)>, half_rows: u16, max_x: u16, attempt: nat)
    requires
        has_free_spot(occupied, half_rows, max_x),
    ensures
        ({
            let (_s, x, y) = find_spot(state, occupied, half_rows, max_x, attempt);
            spot_free(occupied, x, y)
        }),
    decreases 100 - attempt,
{
    let s1 = lcg_step(state);
    let s2 = lcg_step(s1);
    let y = (lcg_output(s1) % (half_rows as u64)) as u16;
    let x = (lcg_output(s2) % (max_x as u64)) as u16;
    if spot_free(occupied, x, y) {
    } else if attempt + 1 >= 100 {
        let (fx, fy) = choose|fx: u16, fy: u16| fx < max_x && fy < half_rows && #[trigger] spot_free(occupied, fx, fy);
        assert(fy * max_x + fx >= 0) by (nonlinear_arith);
        lemma_first_free(occupied, half_rows, max_x, 0);
    } else {
        lemma_find_spot_free(s2, occupied, half_rows, max_x, attempt + 1);
    }
}

/// Spawning after the bugs `prefix`: each new bug keeps off the cells of
/// the bugs before it whenever the area still has room for it, and the ids
/// run on from `next_id` when they do not pass the largest id.
proof fn lemma_spawn_bugs_placed(state: u64, prefix: Seq<Bug>, next_id: u64, count: nat, area: SpawnArea)
    ensures
        ({
            let (_s, id_after, spawned) = spawn_bugs(state, occupied_cells(prefix), next_id, count, area);
            &&& spawned.len() == count
            &&& forall|i: int|
                0 <= i < count ==> (has_free_spot(
                    occupied_cells(prefix + spawned.take(i)),
                    area.half_rows,
                    area.max_x,
                ) ==> spot_free(
                    occupied_cells(prefix + spawned.take(i)),
                    #[trigger] spawned[i].x,
                    spawned[i].y,
                ))
            &&& next_id + count <= u64::MAX ==> {
                &&& id_after == next_id + count
                &&& forall|i: int| 0 <= i < count ==> #[trigger] spawned[i].id == next_id + i
            }
        }),
    decreases count,
{
    if count > 0 {
        let (s1, bug) = spawn_bug(state, occupied_cells(prefix), next_id, area);
        let prefix2 = prefix.push(bug);
        assert(prefix2.drop_last() =~= prefix);
        assert(occupied_cells(prefix2) == occupied_cells(prefix) + covered_cells(bug.x, bug.y));
        lemma_spawn_bugs_placed(s1, prefix2, next_id.wrapping_add(1), (count - 1) as nat, area);
        let rest = spawn_bugs(s1, occupied_cells(prefix2), next_id.wrapping_add(1), (count - 1) as nat, area).2;
        let spawned = spawn_bugs(state, occupied_cells(prefix), next_id, count, area).2;
        assert(spawned == seq![bug] + rest);
        assert forall|i: int|
            0 <= i < count && has_free_spot(
                occupied_cells(prefix + spawned.take(i)),
                area.half_rows,
                area.max_x,
            ) implies spot_free(occupied_cells(prefix + spawned.take(i)), #[trigger] spawned[i].x, spawned[i].y) by {
            if i == 0 {
                assert(prefix + spawned.take(0) =~= prefix);
                lemma_find_spot_free(state, occupied_cells(prefix), area.half_rows, area.max_x, 0);
            } else {
                assert(prefix + spawned.take(i) =~= prefix2 + rest.take(i - 1));
                assert(spawned[i] == rest[i - 1]);
            }
        }
        if next_id + count <= u64::MAX {
            assert(next_id.wrapping_add(1) == next_id + 1);
            assert forall|i: int| 0 <= i < count implies #[trigger] spawned[i].id == next_id + i by {
                if i > 0 {
                    assert(spawned[i] == rest[i - 1]);
                }
            }
        }
    }
}

/// Positions are kept apart: each bug that a trigger adds covers none of the
/// cells of the bugs before it (those already there and those added before
/// it), whenever the area where bugs appear still held a free position for it.
pub proof fn law_trigger_places_apart(
    m: BugManagerModel,
    match_count: usize,
    lifetime_ms: u64,
    screen: ScreenModel,
    clock_nanos: u64,
    now: u64,
)
    ensures
        ({
            let after = m.triggered(match_count, lifetime_ms, screen, clock_nanos, now);
            let area = BugManagerModel::spawn_area(screen.cols, screen.rows, lifetime_ms, m.reading(now));
            forall|i: int|
                m.bugs.len() <= i < after.bugs.len() ==> (has_free_spot(
                    occupied_cells(after.bugs.take(i)),
                    area.half_rows,
                    area.max_x,
                ) ==> spot_free(occupied_cells(after.bugs.take(i)), #[trigger] after.bugs[i].x, after.bugs[i].y))
        }),
{
    let after = m.triggered(match_count, lifetime_ms, screen, clock_nanos, now);
    if !(match_count == 0 || m.available() == 0 || screen.cols < 2 || screen.rows == 0) {
        let s0 = lcg_step(lcg_seed(clock_nanos.wrapping_add(m.tick)));
        let count: nat = spawn_count(m.count_roll(clock_nanos), m.min_bugs, m.max_bugs, m.available()) as nat;
        let area = BugManagerModel::spawn_area(screen.cols, screen.rows, lifetime_ms, m.reading(now));
        lemma_spawn_bugs_placed(s0, m.bugs, m.next_id, count, area);
        let spawned = spawn_bugs(s0, occupied_cells(m.bugs), m.next_id, count, area).2;
        assert(after.bugs == m.bugs + spawned);
        assert forall|i: int|
            m.bugs.len() <= i < after.bugs.len() && has_free_spot(
                occupied_cells(after.bugs.take(i)),
                area.half_rows,
                area.max_x,
            ) implies spot_free(occupied_cells(after.bugs.take(i)), #[trigger] after.bugs[i].x, after.bugs[i].y) by {
            let j = i - m.bugs.len();
            assert(after.bugs.take(i) =~= m.bugs + spawned.take(j));
            assert(after.bugs[i] == spawned[j]);
        }
    }
}

/// No two of the bugs share an id.
pub open spec fn ids_distinct(bugs: Seq<Bug>) -> bool {
    forall|i: int, j: int| 0 <= i < j < bugs.len() ==> #[trigger] bugs[i].id != #[trigger] bugs[j].id
}

/// Every bug's id is below `next_id`.
pub open spec fn ids_below(bugs: Seq<Bug>, next_id: u64) -> bool {
    forall|i: int| 0 <= i < bugs.len() ==> #[trigger] bugs[i].id < next_id
}

/// A trigger keeps the bugs there were as they were and in order, gives
/// each new bug an id from the old `next_id` on, and keeps the ids distinct
/// and below `next_id`, as long as the ids do not run past the largest one.
pub proof fn law_trigger_ids(
    m: BugManagerModel,
    match_count: usize,
    lifetime_ms: u64,
    screen: ScreenModel,
    clock_nanos: u64,
    now: u64,
)
    requires
        ids_distinct(m.bugs),
        ids_below(m.bugs, m.next_id),
        m.next_id + m.available() <= u64::MAX,
    ensures
        ({
            let after = m.triggered(match_count, lifetime_ms, screen, clock_nanos, now);
            &&& after.bugs.take(m.bugs.len() as int) == m.bugs
            &&& forall|i: int| m.bugs.len() <= i < after.bugs.len() ==> #[trigger] after.bugs[i].id >= m.next_id
            &&& ids_distinct(after.bugs)
            &&& ids_below(after.bugs, after.next_id)
        }),
{
    let after = m.triggered(match_count, lifetime_ms, screen, clock_nanos, now);
    if match_count == 0 || m.available() == 0 || screen.cols < 2 || screen.rows == 0 {
        assert(after.bugs.take(m.bugs.len() as int) =~= m.bugs);
    } else {
        let roll = m.count_roll(clock_nanos);
        let s0 = lcg_step(lcg_seed(clock_nanos.wrapping_add(m.tick)));
        assert(lcg_output(s0) < 0x8000_0000) by (bit_vector);
        lemma_spawn_count_range(roll, m.min_bugs, m.max_bugs, m.available());
        let count: nat = spawn_count(roll, m.min_bugs, m.max_bugs, m.available()) as nat;
        let area = BugManagerModel::spawn_area(screen.cols, screen.rows, lifetime_ms, m.reading(now));
        lemma_spawn_bugs_placed(s0, m.bugs, m.next_id, count, area);
        let spawned = spawn_bugs(s0, occupied_cells(m.bugs), m.next_id, count, area).2;
        assert(after.bugs == m.bugs + spawned);
        assert(after.bugs.take(m.bugs.len() as int) =~= m.bugs);
        let n = m.bugs.len() as int;
        assert forall|i: int| n <= i < after.bugs.len() implies #[trigger] after.bugs[i].id == m.next_id + (i - n) by {
            assert(after.bugs[i] == spawned[i - n]);
        }
        assert forall|i: int| 0 <= i < n implies #[trigger] after.bugs[i].id < m.next_id by {
            assert(after.bugs[i] == m.bugs[i]);
        }
        assert forall|i: int, j: int| 0 <= i < j < after.bugs.len() implies #[trigger] after.bugs[i].id
            != #[trigger] after.bugs[j].id by {
            if j < n {
                assert(after.bugs[i] == m.bugs[i]);
                assert(after.bugs[j] == m.bugs[j]);
            }
        }
    }
}

/// With no match, no room for more bugs, or a screen narrower than 2
/// columns or with no row, a trigger changes nothing.
pub proof fn law_trigger_idle(
    m: BugManagerModel,
    match_count: usize,
    lifetime_ms: u64,
    screen: ScreenModel,
    clock_nanos: u64,
    now: u64,
)
    requires
        match_count == 0 || m.available() == 0 || screen.cols < 2 || screen.rows == 0,
    ensures
        m.triggered(match_count, lifetime_ms, screen, clock_nanos, now) == m,
{
}

/// The ids of the bugs that are still alive at `now`, in order.
pub open spec fn alive_ids(bugs: Seq<Bug>, now: u64) -> Seq<u64>
    decreases bugs.len(),
{
    if bugs.len() == 0 {
        seq![]
    } else if is_dead(bugs.last(), now) {
        alive_ids(bugs.drop_last(), now)
    } else {
        alive_ids(bugs.drop_last(), now).push(bugs.last().id)
    }
}

/// A bug that has moved on a `cols × rows` screen, and been drawn there.
pub open spec fn settled_on(b: Bug, cols: u16, rows: u16) -> bool {
    let max_x = if cols.saturating_sub(2) > 1 { cols.saturating_sub(2) } else { 1u16 };
    let max_y = if rows.saturating_sub(1) > 1 { rows.saturating_sub(1) } else { 1u16 };
    &&& 1 <= b.x <= max_x
    &&& 1 <= b.y <= max_y
    &&& b.old_x == b.x
    &&& b.old_y == b.y
    &&& bug_wf(b)
}

/// A moved bug lies on the screen and keeps its id, birth and lifetime.
pub proof fn lemma_moved_settles(bug: Bug, tick: u64, cols: u16, rows: u16)
    requires
        bug_wf(bug),
    ensures
        ({
            let m = moved(bug, tick, cols, rows);
            settled_on(Bug { old_x: m.x, old_y: m.y, ..m }, cols, rows)
                && m.id == bug.id && m.birth == bug.birth && m.lifetime == bug.lifetime
        }),
{
}

proof fn lemma_tick_bugs(bugs: Seq<Bug>, now: u64, tick: u64, screen: ScreenModel)
    requires
        forall|i: int| 0 <= i < bugs.len() ==> bug_wf(#[trigger] bugs[i]),
    ensures
        tick_bugs(bugs, now, tick, screen).1.map_values(|b: Bug| b.id) == alive_ids(bugs, now),
        forall|i: int|
            0 <= i < tick_bugs(bugs, now, tick, screen).1.len() ==> {
                let b = #[trigger] tick_bugs(bugs, now, tick, screen).1[i];
                &&& settled_on(b, screen.cols, screen.rows)
                &&& !is_dead(b, now)
            },
    decreases bugs.len(),
{
    if bugs.len() > 0 {
        let init = bugs.drop_last();
        assert forall|i: int| 0 <= i < init.len() implies bug_wf(#[trigger] init[i]) by {
            assert(init[i] == bugs[i]);
        }
        lemma_tick_bugs(init, now, tick, screen);
        let last = bugs.last();
        assert(bug_wf(bugs[bugs.len() - 1]));
        lemma_moved_settles(last, tick, screen.cols, screen.rows);
        let (_out, alive) = tick_bugs(init, now, tick, screen);
        let (_bytes, next) = tick_bug(last, now, tick, screen);
        let result = tick_bugs(bugs, now, tick, screen).1;
        match next {
            Some(b) => {
                assert(result == alive.push(b));
                assert(result.map_values(|b: Bug| b.id) =~= alive.map_values(|b: Bug| b.id).push(b.id));
            },
            None => {
                assert(result == alive);
            },
        }
    }
}

/// After a tick at time `now`, the bugs are those of before that were not
/// dead, in the same order; each has moved onto the screen (columns 1 to
/// `cols - 2`, rows 1 to `rows - 1`, when there are that many) and is drawn
/// where it is; none is dead. There are never more than the limit.
pub proof fn law_tick_survivors(m: BugManagerModel, now: u64, screen: ScreenModel)
    requires
        m.wf(),
    ensures
        ({
            let after = m.updated(now, screen).1;
            &&& after.wf()
            &&& (screen.cols >= 2 && screen.rows >= 1) ==> after.bugs.map_values(|b: Bug| b.id)
                == alive_ids(m.bugs, m.reading(now))
            &&& forall|i: int|
                0 <= i < after.bugs.len() ==> {
                    &&& settled_on(#[trigger] after.bugs[i], screen.cols, screen.rows)
                    &&& !is_dead(after.bugs[i], m.reading(now))
                }
        }),
{
    if screen.cols >= 2 && screen.rows >= 1 {
        lemma_tick_bugs(m.bugs, m.reading(now), m.tick.wrapping_add(1), screen);
        lemma_alive_ids_len(m.bugs, m.reading(now));
        lemma_tick_births(m.bugs, m.reading(now), m.tick.wrapping_add(1), screen, m.reading(now));
        let after = m.updated(now, screen).1;
        assert(after.bugs.map_values(|b: Bug| b.id).len() == after.bugs.len());
    }
}

/// The bugs that live on after a tick were born no later than the latest
/// birth before it.
proof fn lemma_tick_births(bugs: Seq<Bug>, now: u64, tick: u64, screen: ScreenModel, bound: u64)
    requires
        forall|i: int| 0 <= i < bugs.len() ==> #[trigger] bugs[i].birth <= bound,
    ensures
        forall|j: int|
            0 <= j < tick_bugs(bugs, now, tick, screen).1.len() ==> #[trigger] tick_bugs(
                bugs,
                now,
                tick,
                screen,
            ).1[j].birth <= bound,
    decreases bugs.len(),
{
    if bugs.len() > 0 {
        let init = bugs.drop_last();
        assert forall|i: int| 0 <= i < init.len() implies #[trigger] init[i].birth <= bound by {
            assert(init[i] == bugs[i]);
        }
        lemma_tick_births(init, now, tick, screen, bound);
        assert(bugs[bugs.len() - 1].birth <= bound);
        let alive = tick_bugs(init, now, tick, screen).1;
        let result = tick_bugs(bugs, now, tick, screen).1;
        assert forall|j: int| 0 <= j < result.len() implies #[trigger] result[j].birth <= bound by {
            if j < alive.len() {
                assert(result[j] == alive[j]);
            }
        }
    }
}

proof fn lemma_alive_ids_len(bugs: Seq<Bug>, now: u64)
    ensures
        alive_ids(bugs, now).len() <= bugs.len(),
    decreases bugs.len(),
{
    if bugs.len() > 0 {
        lemma_alive_ids_len(bugs.drop_last(), now);
    }
}

/// A bug in the three leftmost columns, whichever way it heads, is forced
/// toward the centre: it turns right and moves one column right (on a
/// screen of at least 8 columns).
pub proof fn law_turns_at_left_edge(bug: Bug, tick: u64, cols: u16, rows: u16)
    requires
        bug_wf(bug),
        bug.x < 3,
        cols >= 8,
    ensures
        moved(bug, tick, cols, rows).direction_x == 1,
        moved(bug, tick, cols, rows).x == bug.x + 1,
{
}

/// A bug within 3 columns of the last column allowed (`cols - 2`), or past
/// it, whichever way it heads, is forced toward the centre: it turns left
/// and moves one column left, to that column at most (on a screen of at
/// least 8 columns).
pub proof fn law_turns_at_right_edge(bug: Bug, tick: u64, cols: u16, rows: u16)
    requires
        bug_wf(bug),
        cols >= 8,
        bug.x + 3 > cols - 2,
    ensures
        moved(bug, tick, cols, rows).direction_x == -1,
        moved(bug, tick, cols, rows).x == if bug.x - 1 < cols - 2 { bug.x - 1 } else { cols - 2 },
{
}

/// A bug in the two top rows heading up turns down and moves one row down
/// (on a screen of at least 4 rows).
pub proof fn law_turns_at_top_edge(bug: Bug, tick: u64, cols: u16, rows: u16)
    requires
        bug_wf(bug),
        bug.y < 2,
        bug.direction_y == -1,
        rows >= 4,
    ensures
        moved(bug, tick, cols, rows).direction_y == 1,
        moved(bug, tick, cols, rows).y == bug.y + 1,
{
}

/// The manager's clock never runs back: an update stands at least at its
/// reading and at every earlier one, a trigger at least at every earlier
/// reading, and the bugs a trigger adds are born at the trigger's time,
/// which is no earlier than the birth of any bug already there.
pub proof fn law_clock_never_runs_back(
    m: BugManagerModel,
    now: u64,
    screen: ScreenModel,
    match_count: usize,
    lifetime_ms: u64,
    clock_nanos: u64,
)
    requires
        m.wf(),
    ensures
        m.updated(now, screen).1.last_reading >= m.last_reading,
        m.updated(now, screen).1.last_reading >= now,
        ({
            let after = m.triggered(match_count, lifetime_ms, screen, clock_nanos, now);
            &&& after.last_reading >= m.last_reading
            &&& forall|i: int|
                m.bugs.len() <= i < after.bugs.len() ==> {
                    &&& #[trigger] after.bugs[i].birth == after.last_reading
                    &&& after.bugs[i].birth >= now
                    &&& forall|j: int| 0 <= j < m.bugs.len() ==> after.bugs[i].birth >= #[trigger] m.bugs[j].birth
                }
        }),
{
    let after = m.triggered(match_count, lifetime_ms, screen, clock_nanos, now);
    if !(match_count == 0 || m.available() == 0 || screen.cols < 2 || screen.rows == 0) {
        law_trigger_spawns(m, match_count, lifetime_ms, screen, clock_nanos, now);
        assert forall|i: int| m.bugs.len() <= i < after.bugs.len() implies {
            &&& #[trigger] after.bugs[i].birth == after.last_reading
            &&& after.bugs[i].birth >= now
            &&& forall|j: int| 0 <= j < m.bugs.len() ==> after.bugs[i].birth >= #[trigger] m.bugs[j].birth
        } by {
            assert(fresh_in(after.bugs[i], BugManagerModel::spawn_area(screen.cols, screen.rows, lifetime_ms, m.reading(now))));
            assert forall|j: int| 0 <= j < m.bugs.len() implies after.bugs[i].birth >= #[trigger] m.bugs[j].birth by {
                assert(m.bugs[j].birth <= m.last_reading);
            }
        }
    }
}

/// Among bugs with distinct ids, the id of a bug is among those alive at
/// `now` exactly when that bug is not dead at `now`.
proof fn lemma_alive_ids_contain(bugs: Seq<Bug>, now: u64, i: int)
    requires
        ids_distinct(bugs),
        0 <= i < bugs.len(),
    ensures
        alive_ids(bugs, now).contains(bugs[i].id) <==> !is_dead(bugs[i], now),
    decreases bugs.len(),
{
    let init = bugs.drop_last();
    let last = bugs.last();
    assert(ids_distinct(init)) by {
        assert forall|a: int, b: int| 0 <= a < b < init.len() implies #[trigger] init[a].id != #[trigger] init[b].id by {
            assert(init[a] == bugs[a] && init[b] == bugs[b]);
        }
    }
    if i < bugs.len() - 1 {
        lemma_alive_ids_contain(init, now, i);
        assert(init[i] == bugs[i]);
        assert(bugs[i].id != bugs[bugs.len() - 1].id);
        if !is_dead(last, now) {
            assert(alive_ids(bugs, now) == alive_ids(init, now).push(last.id));
            if alive_ids(bugs, now).contains(bugs[i].id) {
                let k = choose|k: int| 0 <= k < alive_ids(bugs, now).len() && alive_ids(bugs, now)[k] == bugs[i].id;
                if k < alive_ids(init, now).len() {
                    assert(alive_ids(init, now)[k] == bugs[i].id);
                }
            }
            if alive_ids(init, now).contains(bugs[i].id) {
                let k = choose|k: int| 0 <= k < alive_ids(init, now).len() && alive_ids(init, now)[k] == bugs[i].id;
                assert(alive_ids(bugs, now)[k] == bugs[i].id);
            }
        }
    } else {
        lemma_alive_ids_ids(init, now);
        if !is_dead(last, now) {
            assert(alive_ids(bugs, now) == alive_ids(init, now).push(last.id));
            assert(alive_ids(bugs, now)[alive_ids(init, now).len() as int] == last.id);
        } else {
            if alive_ids(init, now).contains(last.id) {
                let k = choose|k: int| 0 <= k < alive_ids(init, now).len() && alive_ids(init, now)[k] == last.id;
                let j = choose|j: int| 0 <= j < init.len() && init[j].id == alive_ids(init, now)[k];
                assert(bugs[j].id == bugs[bugs.len() - 1].id);
            }
        }
    }
}

/// Every id alive at `now` is the id of one of the bugs.
proof fn lemma_alive_ids_ids(bugs: Seq<Bug>, now: u64)
    ensures
        forall|k: int|
            0 <= k < alive_ids(bugs, now).len() ==> exists|j: int|
                0 <= j < bugs.len() && bugs[j].id == #[trigger] alive_ids(bugs, now)[k],
    decreases bugs.len(),
{
    if bugs.len() > 0 {
        let init = bugs.drop_last();
        lemma_alive_ids_ids(init, now);
        assert forall|k: int| 0 <= k < alive_ids(bugs, now).len() implies exists|j: int|
            0 <= j < bugs.len() && bugs[j].id == #[trigger] alive_ids(bugs, now)[k] by {
            if k < alive_ids(init, now).len() {
                let j = choose|j: int| 0 <= j < init.len() && init[j].id == alive_ids(init, now)[k];
                assert(bugs[j] == init[j]);
                if !is_dead(bugs.last(), now) {
                    assert(alive_ids(bugs, now)[k] == alive_ids(init, now)[k]);
                }
            } else {
                assert(bugs[bugs.len() - 1].id == alive_ids(bugs, now)[k]);
            }
        }
    }
}

/// A tick removes a bug exactly when its lifetime has run out: a bug whose
/// lifetime (in ms) has passed since its birth by the update's clock
/// reading gives its cells back and leaves, and a bug whose lifetime has not
/// passed by the time the update stands at lives on (bugs having distinct
/// ids, on a screen of at least 2 columns and a row).
pub proof fn law_tick_removes_expired(m: BugManagerModel, now: u64, screen: ScreenModel)
    requires
        m.wf(),
        ids_distinct(m.bugs),
        screen.cols >= 2,
        screen.rows >= 1,
    ensures
        ({
            let after = m.updated(now, screen).1;
            &&& forall|i: int|
                0 <= i < m.bugs.len() && now.saturating_sub(m.bugs[i].birth) / 1_000_000 >= m.bugs[i].lifetime
                    ==> forall|j: int| 0 <= j < after.bugs.len() ==> #[trigger] after.bugs[j].id != #[trigger] m.bugs[i].id
            &&& forall|i: int|
                0 <= i < m.bugs.len() && (after.last_reading - m.bugs[i].birth) / 1_000_000 < m.bugs[i].lifetime
                    ==> exists|j: int| 0 <= j < after.bugs.len() && #[trigger] after.bugs[j].id == #[trigger] m.bugs[i].id
        }),
{
    law_tick_survivors(m, now, screen);
    let t = m.reading(now);
    let after = m.updated(now, screen).1;
    let ids = after.bugs.map_values(|b: Bug| b.id);
    assert(ids == alive_ids(m.bugs, t));
    assert forall|i: int|
        0 <= i < m.bugs.len() && now.saturating_sub(m.bugs[i].birth) / 1_000_000 >= m.bugs[i].lifetime implies forall|j: int|
            0 <= j < after.bugs.len() ==> #[trigger] after.bugs[j].id != #[trigger] m.bugs[i].id by {
        lemma_alive_ids_contain(m.bugs, t, i);
        let b = m.bugs[i];
        assert(now.saturating_sub(b.birth) <= t.saturating_sub(b.birth));
        assert(t.saturating_sub(b.birth) / 1_000_000 >= now.saturating_sub(b.birth) / 1_000_000) by (nonlinear_arith)
            requires
                now.saturating_sub(b.birth) <= t.saturating_sub(b.birth),
        ;
        assert(is_dead(b, t));
        assert forall|j: int| 0 <= j < after.bugs.len() implies #[trigger] after.bugs[j].id != #[trigger] m.bugs[i].id by {
            assert(ids[j] == after.bugs[j].id);
        }
    }
    assert forall|i: int|
        0 <= i < m.bugs.len() && (after.last_reading - m.bugs[i].birth) / 1_000_000 < m.bugs[i].lifetime implies exists|j: int|
            0 <= j < after.bugs.len() && #[trigger] after.bugs[j].id == #[trigger] m.bugs[i].id by {
        lemma_alive_ids_contain(m.bugs, t, i);
        assert(m.bugs[i].birth <= m.last_reading);
        assert(!is_dead(m.bugs[i], t));
        let k = choose|k: int| 0 <= k < ids.len() && ids[k] == m.bugs[i].id;
        assert(after.bugs[k].id == ids[k]);
    }
}

/// Drawing the new bugs of a list is drawing those of each part in turn:
/// a bug already drawn writes nothing, a new one writes its emoji at its
/// cell, and the lists' drawings follow each other.
pub proof fn law_draw_new_bugs(a: Seq<Bug>, b: Seq<Bug>, bug: Bug)
    ensures
        crate::animation::draw_new_bugs(a + b) == crate::animation::draw_new_bugs(a)
            + crate::animation::draw_new_bugs(b),
        crate::animation::draw_new_bugs(seq![bug]) == if bug.drawn {
            Seq::<u8>::empty()
        } else {
            crate::terminal::draw_bytes(bug.x, bug.y, seq![bug.emoji])
        },
    decreases b.len(),
{
    assert(seq![bug].drop_last() =~= Seq::<Bug>::empty());
    assert(crate::animation::draw_new_bugs(Seq::<Bug>::empty()) == Seq::<u8>::empty());
    assert(Seq::<u8>::empty() + Seq::<u8>::empty() =~= Seq::<u8>::empty());
    assert(Seq::<u8>::empty() + crate::terminal::draw_bytes(bug.x, bug.y, seq![bug.emoji])
        =~= crate::terminal::draw_bytes(bug.x, bug.y, seq![bug.emoji]));
    if b.len() == 0 {
        assert(a + b =~= a);
        assert(crate::animation::draw_new_bugs(a) + Seq::<u8>::empty() =~= crate::animation::draw_new_bugs(a));
    } else {
        assert((a + b).drop_last() =~= a + b.drop_last());
        assert((a + b).last() == b.last());
        law_draw_new_bugs(a, b.drop_last(), bug);
        let x = crate::animation::draw_new_bugs(a);
        let y = crate::animation::draw_new_bugs(b.drop_last());
        let z = if !b.last().drawn {
            crate::terminal::draw_bytes(b.last().x, b.last().y, seq![b.last().emoji])
        } else {
            Seq::<u8>::empty()
        };
        assert((x + y) + z =~= x + (y + z));
    }
}

} // verus!
