//! Task expansion and the randomized placement search.

use vstd::prelude::*;
use vstd::set_lib::{lemma_int_range, lemma_len_subset, set_int_range};
use rand::rngs::StdRng;
use crate::index::{FixedIndex, chained, hits, intervals_in_range, mutually_apart, sorted_by_start};
use crate::model::{
    HORIZON, Interval, Slot, Task, TIME_LIMIT, Unit, all_in_range, all_units, apart, fixed_intervals,
    fixed_slots, pairwise_apart, some_too_many_sessions, within_limit,
};
use crate::outside::{choose_one, seeded_rng};

verus! {

/// Work budget shared by all passes of one search.
pub const SEARCH_BUDGET: u64 = 1000000;

/// Cursor advance when nothing can be placed: 30 minutes.
pub const IDLE_STEP: i64 = 1800;

/// Grid that the cursor is rounded up to after an idle step: 10 minutes.
pub const GRID: i64 = 600;

#[derive(Debug, PartialEq, Eq)]
pub enum ScheduleError {
    /// A project would split into too many sessions.
    TooManySessions,
    /// The work budget ran out before any pass was complete.
    NoValidSchedule,
}

/// `t` rounded up to a multiple of `GRID`.
pub open spec fn round_up_spec(t: int) -> int {
    if t % (GRID as int) == 0 { t } else { t - t % (GRID as int) + GRID }
}

/// Rounds an instant up to the next multiple of ten minutes.
pub fn round_up_to_grid(t: i64) -> (r: i64)
    requires
        t <= i64::MAX - GRID,
    ensures
        r == round_up_spec(t as int),
        r % GRID == 0,
        t <= r < t + GRID,
{
    let m: i64 = t % GRID;
    let r: i64 = if m == 0 {
        t
    } else if m > 0 {
        t - m + GRID
    } else {
        t - m
    };
    r
}

/// Grid that a request's "now" is rounded up to: 5 minutes.
pub const NOW_GRID: i64 = 300;

/// Rounds an instant up to the next multiple of five minutes.
pub fn round_up_to_five_minutes(t: i64) -> (r: i64)
    requires
        t <= i64::MAX - NOW_GRID,
    ensures
        r % NOW_GRID == 0,
        t <= r < t + NOW_GRID,
{
    let m: i64 = t % NOW_GRID;
    if m == 0 {
        t
    } else if m > 0 {
        t - m + NOW_GRID
    } else {
        t - m
    }
}

/// The units of all tasks, or `TooManySessions` if some project would
/// split into too many sessions.
pub fn expand(tasks: &[Task]) -> (r: Result<Vec<Unit>, ScheduleError>)
    requires
        all_in_range(tasks@),
    ensures
        r is Err <==> some_too_many_sessions(tasks@),
        r matches Err(e) ==> e == ScheduleError::TooManySessions,
        r matches Ok(u) ==> u@ == all_units(tasks@),
{
    let mut out: Vec<Unit> = Vec::new();
    let mut i: usize = 0;
    while i < tasks.len()
        invariant
            0 <= i <= tasks@.len(),
            all_in_range(tasks@),
            out@ == all_units(tasks@.subrange(0, i as int)),
            !some_too_many_sessions(tasks@.subrange(0, i as int)),
        decreases tasks@.len() - i,
    {
        let ghost before = out@;
        let ghost prefix = tasks@.subrange(0, i + 1);
        proof {
            assert(prefix.drop_last() == tasks@.subrange(0, i as int));
            assert(prefix.last() == tasks@[i as int]);
            assert(tasks@[i as int].in_range());
        }
        match &tasks[i] {
            Task::Fixed { .. } => {
                assert(tasks@[i as int].units() == Seq::<Unit>::empty());
                assert(out@ == before + tasks@[i as int].units());
            },
            Task::Continuous { id, duration, kickoff, deadline, leisure } => {
                out.push(Unit { id: id.clone(), duration: *duration, kickoff: *kickoff, deadline: *deadline, leisure: *leisure });
                assert(out@ == before + tasks@[i as int].units());
            },
            Task::Project { id, duration, kickoff, deadline, timings, leisure } => {
                let work = timings.work;
                if *duration as i128 > 1000 * (work as i128) {
                    proof {
                        assert(tasks@[i as int].too_many_sessions());
                    }
                    return Err(ScheduleError::TooManySessions);
                }
                let ghost unit = Unit { id: *id, duration: work, kickoff: *kickoff, deadline: *deadline, leisure: *leisure };
                let mut total: i64 = 0;
                let mut k: usize = 0;
                while total < *duration
                    invariant
                        *duration <= 1000 * work,
                        within_limit(*duration),
                        within_limit(work),
                        *duration > 0 ==> work > 0,
                        0 <= k <= 1000,
                        total == k * work,
                        total >= 0,
                        k > 0 ==> *duration > 0,
                        k > 0 ==> (k - 1) * work < *duration,
                        out@ == before + Seq::new(k as nat, |j: int| unit),
                        unit == (Unit { id: *id, duration: work, kickoff: *kickoff, deadline: *deadline, leisure: *leisure }),
                    decreases 1000 - k,
                {
                    proof {
                        assert(work > 0);
                        assert(k < 1000) by (nonlinear_arith)
                            requires total == k * work, total < *duration, *duration <= 1000 * work, work > 0, k >= 0;
                        assert((k + 1) * work == k * work + work) by (nonlinear_arith);
                    }
                    let ghost prev = out@;
                    let u = Unit { id: id.clone(), duration: work, kickoff: *kickoff, deadline: *deadline, leisure: *leisure };
                    assert(u == unit);
                    out.push(u);
                    total = total + work;
                    k = k + 1;
                    proof {
                        let want = before + Seq::new(k as nat, |j: int| unit);
                        assert(prev =~= before + Seq::new((k - 1) as nat, |j: int| unit));
                        assert(out@.len() == want.len());
                        assert forall|j: int| 0 <= j < want.len() implies out@[j] == want[j] by {
                            if j < prev.len() {
                                assert(out@[j] == prev[j]);
                            }
                        }
                        assert(out@ =~= want);
                    }
                }
                proof {
                    let c = tasks@[i as int].session_count();
                    if *duration <= 0 {
                        assert(k == 0);
                    } else {
                        assert(k > 0);
                        assert((*duration as int + work as int - 1) / (work as int) == k as int) by (nonlinear_arith)
                            requires (k - 1) * work < *duration, *duration <= k * work, work > 0, k > 0;
                    }
                    assert(c == k);
                    assert(tasks@[i as int].units() =~= Seq::new(k as nat, |j: int| unit));
                }
            },
        }
        proof {
            assert(!tasks@[i as int].too_many_sessions());
            assert forall|j: int| 0 <= j < prefix.len() implies !(#[trigger] prefix[j]).too_many_sessions() by {
                if j < i {
                    assert(prefix[j] == tasks@.subrange(0, i as int)[j]);
                }
            }
        }
        i = i + 1;
    }
    assert(tasks@.subrange(0, tasks@.len() as int) == tasks@);
    Ok(out)
}

/// The slots of the fixed tasks, in the order the tasks are given.
pub fn fixed_task_slots(tasks: &[Task]) -> (r: Vec<Slot>)
    ensures
        r@ == fixed_slots(tasks@),
{
    let mut out: Vec<Slot> = Vec::new();
    let mut i: usize = 0;
    while i < tasks.len()
        invariant
            0 <= i <= tasks@.len(),
            out@ == fixed_slots(tasks@.subrange(0, i as int)),
        decreases tasks@.len() - i,
    {
        proof {
            assert(tasks@.subrange(0, i + 1).drop_last() == tasks@.subrange(0, i as int));
        }
        match &tasks[i] {
            Task::Fixed { id, start, end, .. } => {
                out.push(Slot { start: *start, end: *end, task_id: id.clone() });
            },
            _ => {},
        }
        i = i + 1;
    }
    assert(tasks@.subrange(0, tasks@.len() as int) == tasks@);
    out
}

/// Every unit's instants and duration lie within `TIME_LIMIT`.
pub open spec fn units_in_range(units: Seq<Unit>) -> bool {
    forall|i: int| 0 <= i < units.len() ==> within_limit((#[trigger] units[i]).duration)
        && within_limit(units[i].kickoff) && within_limit(units[i].deadline)
}

pub open spec fn durations_nonnegative(units: Seq<Unit>) -> bool {
    forall|i: int| 0 <= i < units.len() ==> (#[trigger] units[i]).duration >= 0
}

/// Where the search stops: 28 days after `now`.
pub open spec fn horizon_end(now: int) -> int {
    now + HORIZON
}

/// The slots `placed` come from the units `picks` names, one each, in
/// order, with the alternation rule: a non-leisure unit starts after a gap
/// (the cursor was moved on) or right after a leisure unit.
pub open spec fn placements(units: Seq<Unit>, placed: Seq<Slot>, picks: Seq<int>, now: int) -> bool {
    &&& picks.len() == placed.len()
    &&& picks.no_duplicates()
    &&& forall|k: int| 0 <= k < picks.len() ==> 0 <= #[trigger] picks[k] < units.len()
    &&& forall|k: int| 0 <= k < picks.len() ==> (#[trigger] placed[k]).task_id == units[picks[k]].id
        && placed[k].end == placed[k].start + units[picks[k]].duration
        && units[picks[k]].kickoff <= placed[k].start
    &&& forall|k: int| 0 <= k < picks.len() && !units[#[trigger] picks[k]].leisure ==>
        if k == 0 { placed[k].start > now } else {
            placed[k].start > placed[k - 1].end || units[picks[k - 1]].leisure
        }
}

/// Unit `i` is among the first `k` picks.
pub open spec fn picked_before(picks: Seq<int>, i: int, k: int) -> bool {
    exists|m: int| 0 <= m < k && picks[m] == i
}

/// Nothing is placed while some unit still waits for its kickoff: when
/// slot `k` is placed, every unit with a later kickoff was placed before.
pub open spec fn kickoffs_reached(units: Seq<Unit>, placed: Seq<Slot>, picks: Seq<int>) -> bool {
    forall|k: int, i: int| 0 <= k < placed.len() && 0 <= i < units.len()
        && units[i].kickoff > (#[trigger] placed[k]).start ==> #[trigger] picked_before(picks, i, k)
}

/// Placed slots start no earlier than `now`, do not end before they
/// start, and each starts no earlier than the previous ones end.
pub open spec fn placements_ordered(placed: Seq<Slot>, now: int) -> bool {
    &&& forall|k: int| 0 <= k < placed.len() ==> now <= (#[trigger] placed[k]).start <= placed[k].end
    &&& forall|j: int, k: int| 0 <= j < k < placed.len() ==> (#[trigger] placed[j]).end <= (#[trigger] placed[k]).start
}

/// Each placed slot lies in its unit's window and within the horizon, meets
/// no fixed interval, and starts no earlier than the previous ones end.
pub open spec fn placements_fit(units: Seq<Unit>, fixed: Seq<Interval>, placed: Seq<Slot>, picks: Seq<int>, now: int) -> bool {
    &&& forall|k: int| 0 <= k < picks.len() ==> units[#[trigger] picks[k]].kickoff <= placed[k].start
        && placed[k].end <= units[picks[k]].deadline
        && now <= placed[k].start <= horizon_end(now)
        && placed[k].start <= placed[k].end
    &&& forall|k: int, f: int| 0 <= k < picks.len() && 0 <= f < fixed.len()
        ==> !hits(#[trigger] fixed[f], (#[trigger] placed[k]).start as int, placed[k].end as int)
    &&& forall|j: int, k: int| 0 <= j < k < picks.len() ==> (#[trigger] placed[j]).end <= (#[trigger] placed[k]).start
}

/// A copy of the slots.
fn copy_slots(v: &Vec<Slot>) -> (r: Vec<Slot>)
    ensures
        r@ == v@,
{
    let mut out: Vec<Slot> = Vec::new();
    let mut i: usize = 0;
    while i < v.len()
        invariant
            0 <= i <= v@.len(),
            out@ == v@.subrange(0, i as int),
        decreases v@.len() - i,
    {
        let s = &v[i];
        out.push(Slot { start: s.start, end: s.end, task_id: s.task_id.clone() });
        assert(out@ =~= v@.subrange(0, i + 1));
        i = i + 1;
    }
    assert(v@.subrange(0, v@.len() as int) =~= v@);
    out
}

proof fn lemma_picks_bounded(picks: Seq<int>, n: int)
    requires
        picks.no_duplicates(),
        0 <= n,
        forall|k: int| 0 <= k < picks.len() ==> 0 <= #[trigger] picks[k] < n,
    ensures
        picks.len() <= n,
{
    picks.unique_seq_to_set();
    lemma_int_range(0, n);
    assert(picks.to_set().subset_of(set_int_range(0, n)));
    lemma_len_subset(picks.to_set(), set_int_range(0, n));
}

/// Where the previous placement ended, or `now` before the first.
pub open spec fn prev_end(placed: Seq<Slot>, now: int) -> int {
    if placed.len() == 0 { now } else { placed.last().end as int }
}

proof fn lemma_place(units: Seq<Unit>, placed: Seq<Slot>, picks: Seq<int>, now: int, t0: int, last: bool, pick: int, slot: Slot)
    requires
        placements(units, placed, picks, now),
        0 <= pick < units.len(),
        !picks.contains(pick),
        slot.task_id == units[pick].id,
        slot.end == slot.start + units[pick].duration,
        units[pick].kickoff <= slot.start,
        slot.start >= t0,
        !last ==> t0 == prev_end(placed, now),
        last ==> t0 > prev_end(placed, now) || (picks.len() > 0 && units[picks.last()].leisure),
        last || units[pick].leisure,
    ensures
        placements(units, placed.push(slot), picks.push(pick), now),
{
    let p2 = placed.push(slot);
    let k2 = picks.push(pick);
    assert forall|a: int, b: int| 0 <= a < k2.len() && 0 <= b < k2.len() && a != b implies k2[a] != k2[b] by {
        if a < picks.len() && b < picks.len() {
            assert(picks[a] != picks[b]);
        } else if a < picks.len() {
            assert(picks.contains(k2[a]));
        } else {
            assert(picks.contains(k2[b]));
        }
    }
    assert forall|k: int| 0 <= k < k2.len() && !units[#[trigger] k2[k]].leisure implies
        (if k == 0 { p2[k].start > now } else { p2[k].start > p2[k - 1].end || units[k2[k - 1]].leisure }) by {
        if k < picks.len() {
            assert(k2[k] == picks[k]);
            assert(p2[k] == placed[k]);
            if k > 0 {
                assert(p2[k - 1] == placed[k - 1]);
                assert(k2[k - 1] == picks[k - 1]);
            }
        } else if k > 0 {
            assert(p2[k - 1] == placed.last());
            assert(k2[k - 1] == picks.last());
        }
    }
    assert forall|k: int| 0 <= k < k2.len() implies (#[trigger] p2[k]).task_id == units[k2[k]].id
        && p2[k].end == p2[k].start + units[k2[k]].duration
        && units[k2[k]].kickoff <= p2[k].start by {
        if k < picks.len() {
            assert(k2[k] == picks[k]);
        }
    }
}

proof fn lemma_place_ordered(placed: Seq<Slot>, now: int, slot: Slot)
    requires
        placements_ordered(placed, now),
        prev_end(placed, now) <= slot.start,
        now <= slot.start <= slot.end,
    ensures
        placements_ordered(placed.push(slot), now),
{
    let p2 = placed.push(slot);
    assert forall|k: int| 0 <= k < p2.len() implies now <= (#[trigger] p2[k]).start <= p2[k].end by {
        if k < placed.len() {
            assert(p2[k] == placed[k]);
        }
    }
    assert forall|j: int, k: int| 0 <= j < k < p2.len() implies (#[trigger] p2[j]).end <= (#[trigger] p2[k]).start by {
        assert(p2[j] == placed[j]);
        if k < placed.len() {
            assert(p2[k] == placed[k]);
        } else if j < placed.len() - 1 {
            assert(placed[j].end <= placed[placed.len() - 1].start);
        }
    }
}

#[verifier::rlimit(100)]
#[verifier::spinoff_prover]
proof fn lemma_place_fits(units: Seq<Unit>, fixed: Seq<Interval>, placed: Seq<Slot>, picks: Seq<int>, now: int, pick: int, slot: Slot)
    requires
        picks.len() == placed.len(),
        forall|k: int| 0 <= k < picks.len() ==> 0 <= #[trigger] picks[k] < units.len(),
        placements_fit(units, fixed, placed, picks, now),
        0 <= pick < units.len(),
        units[pick].duration >= 0,
        slot.end == slot.start + units[pick].duration,
        units[pick].kickoff <= slot.start,
        slot.end <= units[pick].deadline,
        now <= slot.start <= horizon_end(now),
        prev_end(placed, now) <= slot.start,
        forall|f: int| 0 <= f < fixed.len() ==> !hits(#[trigger] fixed[f], slot.start as int, slot.end as int),
    ensures
        placements_fit(units, fixed, placed.push(slot), picks.push(pick), now),
{
    let p2 = placed.push(slot);
    let k2 = picks.push(pick);
    assert forall|k: int| 0 <= k < k2.len() implies units[#[trigger] k2[k]].kickoff <= p2[k].start
        && p2[k].end <= units[k2[k]].deadline
        && now <= p2[k].start <= horizon_end(now)
        && p2[k].start <= p2[k].end by {
        if k < picks.len() {
            assert(k2[k] == picks[k]);
            assert(p2[k] == placed[k]);
        }
    }
    assert forall|k: int, f: int| 0 <= k < k2.len() && 0 <= f < fixed.len()
        implies !hits(#[trigger] fixed[f], (#[trigger] p2[k]).start as int, p2[k].end as int) by {
        if k < picks.len() {
            assert(p2[k] == placed[k]);
        }
    }
    assert forall|j: int, k: int| 0 <= j < k < k2.len() implies (#[trigger] p2[j]).end <= (#[trigger] p2[k]).start by {
        assert(p2[j] == placed[j]);
        if k < picks.len() {
            assert(p2[k] == placed[k]);
        } else {
            let l = placed.len() - 1;
            assert(units[picks[l]].kickoff <= placed[l].start);
            if j < l {
                assert(placed[j].end <= placed[l].start);
            }
        }
    }
}

/// How many unused units have a kickoff after `t`, among the first `k`.
pub open spec fn pending(units: Seq<Unit>, used: Seq<bool>, t: int, k: int) -> nat
    decreases k,
{
    if k <= 0 {
        0
    } else {
        pending(units, used, t, k - 1) + (if !used[k - 1] && units[k - 1].kickoff > t { 1nat } else { 0nat })
    }
}

/// How many idle steps can still come before the horizon.
pub open spec fn idle_left(t: int, now: int) -> int {
    if t > horizon_end(now) { 0 } else { (horizon_end(now) - t) / (IDLE_STEP as int) + 1 }
}

/// A bound on the charged steps left in a pass: placements, kickoff jumps
/// and idle steps.
pub open spec fn steps_left(units: Seq<Unit>, used: Seq<bool>, t: int, now: int, placed: int) -> int {
    (units.len() - placed) + pending(units, used, t, units.len() as int) + idle_left(t, now)
}

proof fn lemma_pending_bound(units: Seq<Unit>, used: Seq<bool>, t: int, k: int)
    requires
        0 <= k,
    ensures
        pending(units, used, t, k) <= k,
    decreases k,
{
    if k > 0 {
        lemma_pending_bound(units, used, t, k - 1);
    }
}

proof fn lemma_pending_mono(units: Seq<Unit>, u1: Seq<bool>, u2: Seq<bool>, t1: int, t2: int, k: int)
    requires
        t1 <= t2,
        0 <= k <= u1.len(),
        u1.len() == u2.len(),
        forall|i: int| 0 <= i < k ==> #[trigger] u1[i] ==> u2[i],
    ensures
        pending(units, u2, t2, k) <= pending(units, u1, t1, k),
    decreases k,
{
    if k > 0 {
        lemma_pending_mono(units, u1, u2, t1, t2, k - 1);
        assert(u1[k - 1] ==> u2[k - 1]);
    }
}

proof fn lemma_pending_drop(units: Seq<Unit>, used: Seq<bool>, t1: int, t2: int, k: int, j: int)
    requires
        0 <= j < k <= used.len(),
        !used[j],
        t1 < units[j].kickoff <= t2,
    ensures
        pending(units, used, t2, k) < pending(units, used, t1, k),
    decreases k,
{
    if j == k - 1 {
        lemma_pending_mono(units, used, used, t1, t2, k - 1);
    } else {
        lemma_pending_drop(units, used, t1, t2, k - 1, j);
    }
}

proof fn lemma_idle_left(t1: int, t2: int, now: int)
    requires
        t1 <= t2,
    ensures
        idle_left(t2, now) <= idle_left(t1, now),
        t1 <= horizon_end(now) ==> idle_left(t1, now) >= 1,
        t1 <= horizon_end(now) && t2 >= t1 + IDLE_STEP ==> idle_left(t2, now) <= idle_left(t1, now) - 1,
{
}

proof fn lemma_charge(n: int, p0: int, p1: int, b: int, cost: int)
    requires
        0 <= cost <= n,
        p1 <= p0 - 1,
        b >= n * p0,
    ensures
        b - cost >= n * p1,
{
    assert(n * p1 <= n * (p0 - 1)) by (nonlinear_arith)
        requires p1 <= p0 - 1, n >= 0;
    assert(n * (p0 - 1) == n * p0 - n) by (nonlinear_arith);
}

proof fn lemma_afford(n: int, p0: int, b: int, cost: int)
    requires
        0 <= cost <= n,
        p0 >= 1,
        b >= n * p0,
    ensures
        cost <= b,
{
    assert(n * p0 >= n) by (nonlinear_arith)
        requires p0 >= 1, n >= 0;
}

proof fn lemma_start_budget(n: int, p0: int, b: int)
    requires
        0 <= n,
        p0 <= 2 * n + 1346,
        n * (2 * n + 1346) <= b,
    ensures
        n * p0 <= b,
{
    assert(n * p0 <= n * (2 * n + 1346)) by (nonlinear_arith)
        requires p0 <= 2 * n + 1346, n >= 0;
}

/// Places unit `pick` at `t`: marks it used, appends its slot, and returns
/// the cursor after it and whether it was a leisure unit.
pub fn apply_pick(units: &Vec<Unit>, pick: usize, t: i64, slots: &mut Vec<Slot>, used: &mut Vec<bool>) -> (r: (i64, bool))
    requires
        pick < units@.len(),
        pick < old(used)@.len(),
        i64::MIN <= t + units@[pick as int].duration <= i64::MAX,
    ensures
        final(used)@ == old(used)@.update(pick as int, true),
        final(slots)@ == old(slots)@.push(
            Slot { start: t, end: (t + units@[pick as int].duration) as i64, task_id: units@[pick as int].id },
        ),
        r == ((t + units@[pick as int].duration) as i64, units@[pick as int].leisure),
{
    let unit = &units[pick];
    used.set(pick, true);
    slots.push(Slot { start: t, end: t + unit.duration, task_id: unit.id.clone() });
    (t + unit.duration, unit.leisure)
}

/// One pass of the search from `now` to the horizon, starting from the
/// fixed slots `initial`. Returns `None` when the budget runs out. The
/// ghost result names the unit of each placed slot.
#[verifier::rlimit(100)]
#[verifier::spinoff_prover]
pub fn run_pass(
    units: &Vec<Unit>,
    index: &FixedIndex,
    initial: &Vec<Slot>,
    now: i64,
    rng: &mut StdRng,
    budget: &mut u64,
) -> (r: (Option<Vec<Slot>>, Ghost<Seq<int>>))
    requires
        sorted_by_start(index@),
        intervals_in_range(index@),
        within_limit(now),
        units_in_range(units@),
    ensures
        *final(budget) <= *old(budget),
        r.0 matches Some(s) ==> {
            let placed = s@.subrange(initial@.len() as int, s@.len() as int);
            &&& s@.len() >= initial@.len()
            &&& s@.subrange(0, initial@.len() as int) == initial@
            &&& placements(units@, placed, r.1@, now as int)
            &&& kickoffs_reached(units@, placed, r.1@)
            &&& durations_nonnegative(units@) ==> placements_ordered(placed, now as int)
            &&& (chained(index@) && durations_nonnegative(units@))
                ==> placements_fit(units@, index@, placed, r.1@, now as int)
        },
        *final(budget) == *old(budget) ==> (r.0 matches Some(s) ==> s@ == initial@),
        durations_nonnegative(units@) && units@.len() * (2 * units@.len() + 1346) <= *old(budget)
            ==> r.0 is Some,
{
    let n: usize = units.len();
    let ghost sane = chained(index@) && durations_nonnegative(units@);
    let ghost nonneg = durations_nonnegative(units@);
    let ghost roomy = nonneg && n * (2 * n + 1346) <= *old(budget);
    let mut slots: Vec<Slot> = copy_slots(initial);
    let mut t: i64 = now;
    let mut last_was_leisure: bool = false;
    let mut used: Vec<bool> = Vec::new();
    let mut u: usize = 0;
    while u < n
        invariant
            0 <= u <= n,
            used@.len() == u,
            forall|i: int| 0 <= i < u ==> !(#[trigger] used@[i]),
        decreases n - u,
    {
        used.push(false);
        u = u + 1;
    }
    let ghost mut picks: Seq<int> = seq![];
    let ghost mut placed: Seq<Slot> = seq![];
    assert(slots@ =~= initial@ + placed);
    proof {
        if roomy {
            lemma_pending_bound(units@, used@, t as int, n as int);
            lemma_start_budget(n as int, steps_left(units@, used@, t as int, now as int, 0), *budget as int);
        }
    }
    loop
        invariant
            nonneg == durations_nonnegative(units@),
            roomy == (nonneg && n * (2 * n + 1346) <= *old(budget)),
            nonneg ==> now <= t,
            nonneg ==> placements_ordered(placed, now as int),
            kickoffs_reached(units@, placed, picks),
            roomy ==> *budget >= n * steps_left(units@, used@, t as int, now as int, picks.len() as int),
            n == units@.len(),
            sorted_by_start(index@),
            intervals_in_range(index@),
            within_limit(now),
            units_in_range(units@),
            sane == (chained(index@) && durations_nonnegative(units@)),
            *budget <= *old(budget),
            used@.len() == n,
            forall|i: int| 0 <= i < n ==> (#[trigger] used@[i] <==> picks.contains(i)),
            slots@ == initial@ + placed,
            placements(units@, placed, picks, now as int),
            sane ==> placements_fit(units@, index@, placed, picks, now as int),
            -2 * (TIME_LIMIT as int) <= t <= 2 * (TIME_LIMIT as int),
            t >= prev_end(placed, now as int),
            !last_was_leisure ==> t == prev_end(placed, now as int),
            last_was_leisure ==> t > prev_end(placed, now as int)
                || (picks.len() > 0 && units@[picks.last()].leisure),
            sane ==> now <= t,
            *budget == *old(budget) ==> picks.len() == 0,
        decreases n - picks.len(), 4 * (TIME_LIMIT as int) - t,
    {
        proof {
            lemma_picks_bounded(picks, n as int);
        }
        let ghost p0 = steps_left(units@, used@, t as int, now as int, picks.len() as int);
        let ghost t_head = t;
        let ghost used_head = used@;
        if t > now + HORIZON {
            break;
        }
        let mut outdated: usize = 0;
        let mut unused: usize = 0;
        let mut options: Vec<usize> = Vec::new();
        let mut first_kickoff: Option<i64> = None;
        let mut i: usize = 0;
        let ghost mut kj: int = 0;
        while i < n
            invariant
                0 <= i <= n,
                n == units@.len(),
                first_kickoff matches Some(k) ==> 0 <= kj < n && !used@[kj] && units@[kj].kickoff == k,
                first_kickoff is None ==> forall|j: int| 0 <= j < i && !used@[j] ==> #[trigger] units@[j].kickoff <= t,
                used@.len() == n,
                units_in_range(units@),
                sorted_by_start(index@),
                -2 * (TIME_LIMIT as int) <= t <= 2 * (TIME_LIMIT as int),
                outdated <= unused <= i,
                options@.len() > 0 ==> unused > 0,
                first_kickoff matches Some(k) ==> t < k <= (TIME_LIMIT as int),
                forall|o: int| 0 <= o < options@.len() ==> {
                    let x = #[trigger] options@[o];
                    &&& 0 <= x < n
                    &&& !used@[x as int]
                    &&& units@[x as int].kickoff <= t
                    &&& t + units@[x as int].duration <= units@[x as int].deadline
                    &&& (chained(index@) ==> forall|f: int| 0 <= f < index@.len()
                        ==> !hits(#[trigger] index@[f], t as int, t + units@[x as int].duration))
                    &&& (last_was_leisure || units@[x as int].leisure)
                },
            decreases n - i,
        {
            if !used[i] {
                unused = unused + 1;
                let unit = &units[i];
                proof {
                    assert(within_limit(units@[i as int].duration));
                }
                if t < unit.kickoff {
                    match first_kickoff {
                        Some(k) => {
                            if unit.kickoff < k {
                                first_kickoff = Some(unit.kickoff);
                                proof {
                                    kj = i as int;
                                }
                            }
                        },
                        None => {
                            first_kickoff = Some(unit.kickoff);
                            proof {
                                kj = i as int;
                            }
                        },
                    }
                } else if t + unit.duration > unit.deadline {
                    outdated = outdated + 1;
                } else if index.overlaps(t, t + unit.duration).is_some() {
                } else if !last_was_leisure && !unit.leisure {
                } else {
                    options.push(i);
                }
            }
            i = i + 1;
        }
        if outdated == unused {
            break;
        }
        proof {
            if roomy {
                lemma_idle_left(t as int, t as int, now as int);
                lemma_afford(n as int, p0, *budget as int, unused as int);
            }
        }
        if unused as u64 > *budget {
            return (None, Ghost(picks));
        }
        let ghost b_head = *budget;
        *budget = *budget - unused as u64;
        match first_kickoff {
            Some(k) => {
                t = k;
                last_was_leisure = true;
                proof {
                    if roomy {
                        lemma_pending_drop(units@, used@, t_head as int, t as int, n as int, kj);
                        lemma_idle_left(t_head as int, t as int, now as int);
                        lemma_charge(n as int, p0, steps_left(units@, used@, t as int, now as int, picks.len() as int), b_head as int, unused as int);
                    }
                }
                continue;
            },
            None => {},
        }
        if options.len() == 0 {
            t = round_up_to_grid(t + IDLE_STEP);
            last_was_leisure = true;
            proof {
                if roomy {
                    lemma_pending_mono(units@, used@, used@, t_head as int, t as int, n as int);
                    lemma_idle_left(t_head as int, t as int, now as int);
                    lemma_charge(n as int, p0, steps_left(units@, used@, t as int, now as int, picks.len() as int), b_head as int, unused as int);
                }
            }
            continue;
        }
        let ghost t0 = t;
        match index.overlaps(t, t) {
            Some(f) => {
                proof {
                    if sane {
                        let x = options@[0];
                        assert(!hits(index@[f as int], t as int, t + units@[x as int].duration));
                        assert(units@[x as int].duration >= 0);
                    }
                }
                assert(within_limit(index@[f as int].end));
                t = index.intervals[f].end;
            },
            None => {},
        }
        let pick = choose_one(&options, rng);
        let ghost w = choose|w: int| 0 <= w < options@.len() && options@[w] == pick;
        proof {
            assert(options@[w] == pick);
            assert(within_limit(units@[pick as int].duration));
        }
        let ghost old_used = used@;
        let ghost slot = Slot { start: t, end: (t + units@[pick as int].duration) as i64, task_id: units@[pick as int].id };
        let (t_next, leisure_next) = apply_pick(units, pick, t, &mut slots, &mut used);
        proof {
            assert(!picks.contains(pick as int));
            lemma_place(units@, placed, picks, now as int, t0 as int, last_was_leisure, pick as int, slot);
            if nonneg {
                assert(units@[pick as int].duration >= 0);
                lemma_place_ordered(placed, now as int, slot);
            }
            if sane {
                assert(t == t0);
                assert(units@[pick as int].duration >= 0);
                lemma_place_fits(units@, index@, placed, picks, now as int, pick as int, slot);
            }
            let old_picks = picks;
            let old_placed = placed;
            picks = picks.push(pick as int);
            placed = placed.push(slot);
            assert forall|k: int, x: int| 0 <= k < placed.len() && 0 <= x < units@.len()
                && units@[x].kickoff > (#[trigger] placed[k]).start implies #[trigger] picked_before(picks, x, k) by {
                if k < old_placed.len() {
                    assert(placed[k] == old_placed[k]);
                    assert(picked_before(old_picks, x, k));
                    let m = choose|m: int| 0 <= m < k && old_picks[m] == x;
                    assert(picks[m] == x);
                } else {
                    assert(placed[k] == slot);
                    assert(old_used[x]);
                    assert(old_picks.contains(x));
                    let m = choose|m: int| 0 <= m < old_picks.len() && old_picks[m] == x;
                    assert(picks[m] == x);
                }
            }
            lemma_picks_bounded(picks, n as int);
            assert forall|x: int| 0 <= x < n implies (#[trigger] used@[x] <==> picks.contains(x)) by {
                if x != pick {
                    if old_picks.contains(x) {
                        let v = choose|v: int| 0 <= v < old_picks.len() && old_picks[v] == x;
                        assert(picks[v] == x);
                    }
                    if picks.contains(x) {
                        let v = choose|v: int| 0 <= v < picks.len() && picks[v] == x;
                        assert(v < old_picks.len());
                        assert(old_picks[v] == x);
                    }
                } else {
                    assert(picks[old_picks.len() as int] == x);
                }
            }
        }
        assert(slots@ =~= initial@ + placed);
        t = t_next;
        last_was_leisure = leisure_next;
        proof {
            if nonneg {
                assert(units@[pick as int].duration >= 0);
            }
            if roomy {
                assert forall|x: int| 0 <= x < n && #[trigger] used_head[x] implies used@[x] by {
                    if x != pick {
                        assert(used@[x] == used_head[x]);
                    }
                }
                lemma_pending_mono(units@, used_head, used@, t_head as int, t as int, n as int);
                lemma_idle_left(t_head as int, t as int, now as int);
                lemma_charge(n as int, p0, steps_left(units@, used@, t as int, now as int, picks.len() as int), b_head as int, unused as int);
            }
        }
    }
    proof {
        assert(slots@.subrange(initial@.len() as int, slots@.len() as int) =~= placed);
        assert(slots@.subrange(0, initial@.len() as int) =~= initial@);
        if *budget == *old(budget) {
            assert(slots@ =~= initial@);
        }
    }
    (Some(slots), Ghost(picks))
}

/// Inputs on which the search keeps slots apart: the fixed tasks are
/// non-empty and share no instant, and no unit has a negative duration.
pub open spec fn well_spaced(tasks: Seq<Task>) -> bool {
    mutually_apart(fixed_intervals(tasks)) && durations_nonnegative(all_units(tasks))
}

/// What a returned schedule is: the fixed tasks' slots in task order, then
/// one slot for each of some distinct units, placed by the rules.
pub open spec fn valid_schedule(tasks: Seq<Task>, now: int, s: Seq<Slot>) -> bool {
    let fixed = fixed_slots(tasks);
    let placed = s.subrange(fixed.len() as int, s.len() as int);
    &&& s.len() >= fixed.len()
    &&& s.subrange(0, fixed.len() as int) == fixed
    &&& durations_nonnegative(all_units(tasks)) ==> placements_ordered(placed, now)
    &&& exists|picks: Seq<int>| #[trigger] placements(all_units(tasks), placed, picks, now)
        && kickoffs_reached(all_units(tasks), placed, picks)
        && (well_spaced(tasks) ==> placements_fit(all_units(tasks), fixed_intervals(tasks), placed, picks, now))
}

proof fn lemma_fixed_views(tasks: Seq<Task>)
    ensures
        fixed_slots(tasks).len() == fixed_intervals(tasks).len(),
        forall|i: int| 0 <= i < fixed_slots(tasks).len() ==> (#[trigger] fixed_slots(tasks)[i]).start == fixed_intervals(tasks)[i].start
            && fixed_slots(tasks)[i].end == fixed_intervals(tasks)[i].end,
    decreases tasks.len(),
{
    if tasks.len() > 0 {
        lemma_fixed_views(tasks.drop_last());
    }
}

proof fn lemma_ranges(tasks: Seq<Task>)
    requires
        all_in_range(tasks),
    ensures
        intervals_in_range(fixed_intervals(tasks)),
        units_in_range(all_units(tasks)),
    decreases tasks.len(),
{
    if tasks.len() > 0 {
        let rest = tasks.drop_last();
        assert(all_in_range(rest)) by {
            assert forall|i: int| 0 <= i < rest.len() implies #[trigger] rest[i].in_range() by {
                assert(rest[i] == tasks[i]);
            }
        }
        lemma_ranges(rest);
        assert(tasks[tasks.len() - 1].in_range());
        let us = tasks.last().units();
        assert(units_in_range(us));
        let all = all_units(rest) + us;
        assert forall|i: int| 0 <= i < all.len() implies within_limit((#[trigger] all[i]).duration)
            && within_limit(all[i].kickoff) && within_limit(all[i].deadline) by {
            if i < all_units(rest).len() {
                assert(all[i] == all_units(rest)[i]);
            } else {
                assert(all[i] == us[i - all_units(rest).len()]);
            }
        }
    }
}

proof fn lemma_pair_apart(units: Seq<Unit>, fixed: Seq<Slot>, fi: Seq<Interval>, placed: Seq<Slot>, picks: Seq<int>, now: int, i: int, j: int)
    requires
        fixed.len() == fi.len(),
        forall|x: int| 0 <= x < fixed.len() ==> (#[trigger] fixed[x]).start == fi[x].start && fixed[x].end == fi[x].end,
        mutually_apart(fi),
        picks.len() == placed.len(),
        placements_fit(units, fi, placed, picks, now),
        0 <= i < fixed.len() + placed.len(),
        0 <= j < fixed.len() + placed.len(),
        i != j,
    ensures
        apart((fixed + placed)[i], (fixed + placed)[j]),
{
    let s = fixed + placed;
    let nf = fixed.len() as int;
    if i < nf && j < nf {
        assert(s[i] == fixed[i]);
        assert(s[j] == fixed[j]);
        assert(fi[i].end <= fi[j].start || fi[j].end <= fi[i].start);
    } else if i < nf {
        assert(s[i] == fixed[i]);
        assert(s[j] == placed[j - nf]);
        assert(!hits(fi[i], placed[j - nf].start as int, placed[j - nf].end as int));
    } else if j < nf {
        assert(s[j] == fixed[j]);
        assert(s[i] == placed[i - nf]);
        assert(!hits(fi[j], placed[i - nf].start as int, placed[i - nf].end as int));
    } else {
        assert(s[i] == placed[i - nf]);
        assert(s[j] == placed[j - nf]);
        if i < j {
            assert(placed[i - nf].end <= placed[j - nf].start);
        } else {
            assert(placed[j - nf].end <= placed[i - nf].start);
        }
    }
}

proof fn lemma_all_apart(units: Seq<Unit>, fixed: Seq<Slot>, fi: Seq<Interval>, placed: Seq<Slot>, picks: Seq<int>, now: int)
    requires
        fixed.len() == fi.len(),
        forall|x: int| 0 <= x < fixed.len() ==> (#[trigger] fixed[x]).start == fi[x].start && fixed[x].end == fi[x].end,
        mutually_apart(fi),
        picks.len() == placed.len(),
        placements_fit(units, fi, placed, picks, now),
    ensures
        pairwise_apart(fixed + placed),
{
    let s = fixed + placed;
    assert forall|i: int, j: int| 0 <= i < s.len() && 0 <= j < s.len() && i != j implies apart(#[trigger] s[i], #[trigger] s[j]) by {
        lemma_pair_apart(units, fixed, fi, placed, picks, now, i, j);
    }
}

proof fn lemma_fit_witness(tasks: Seq<Task>, now: int, s: Seq<Slot>) -> (picks: Seq<int>)
    requires
        valid_schedule(tasks, now, s),
        well_spaced(tasks),
    ensures
        picks.len() == s.len() - fixed_slots(tasks).len(),
        placements_fit(all_units(tasks), fixed_intervals(tasks),
            s.subrange(fixed_slots(tasks).len() as int, s.len() as int), picks, now),
{
    let placed = s.subrange(fixed_slots(tasks).len() as int, s.len() as int);
    choose|picks: Seq<int>| #[trigger] placements(all_units(tasks), placed, picks, now)
        && kickoffs_reached(all_units(tasks), placed, picks)
        && (well_spaced(tasks) ==> placements_fit(all_units(tasks), fixed_intervals(tasks), placed, picks, now))
}

/// No two slots of a schedule share an instant, on inputs whose fixed tasks
/// are non-empty and apart and whose units have no negative duration.
pub proof fn schedule_slots_apart(tasks: Seq<Task>, now: int, s: Seq<Slot>)
    requires
        valid_schedule(tasks, now, s),
        well_spaced(tasks),
    ensures
        pairwise_apart(s),
{
    let fixed = fixed_slots(tasks);
    let placed = s.subrange(fixed.len() as int, s.len() as int);
    let picks = lemma_fit_witness(tasks, now, s);
    lemma_fixed_views(tasks);
    lemma_all_apart(all_units(tasks), fixed, fixed_intervals(tasks), placed, picks, now);
    assert(s =~= fixed + placed);
}

proof fn lemma_fixed_slot_listed(tasks: Seq<Task>, i: int)
    requires
        0 <= i < tasks.len(),
        tasks[i].is_fixed(),
    ensures
        fixed_slots(tasks).contains(tasks[i].fixed_slot()),
    decreases tasks.len(),
{
    let rest = tasks.drop_last();
    if i < tasks.len() - 1 {
        assert(rest[i] == tasks[i]);
        lemma_fixed_slot_listed(rest, i);
        let w = choose|w: int| 0 <= w < fixed_slots(rest).len() && fixed_slots(rest)[w] == tasks[i].fixed_slot();
        assert(fixed_slots(tasks)[w] == tasks[i].fixed_slot());
    } else {
        assert(fixed_slots(tasks).last() == tasks[i].fixed_slot());
    }
}

/// Every fixed task appears in a schedule as a slot with its own start,
/// end and identifier.
pub proof fn fixed_tasks_kept(tasks: Seq<Task>, now: int, s: Seq<Slot>, i: int)
    requires
        valid_schedule(tasks, now, s),
        0 <= i < tasks.len(),
        tasks[i].is_fixed(),
    ensures
        s.contains(tasks[i].fixed_slot()),
{
    lemma_fixed_slot_listed(tasks, i);
    let fixed = fixed_slots(tasks);
    let w = choose|w: int| 0 <= w < fixed.len() && fixed[w] == tasks[i].fixed_slot();
    assert(s.subrange(0, fixed.len() as int)[w] == s[w]);
}

/// Tasks that are all fixed give no unit to place and no project to reject,
/// so scheduling them returns exactly their slots.
pub proof fn fixed_only_tasks_have_no_units(tasks: Seq<Task>)
    requires
        forall|i: int| 0 <= i < tasks.len() ==> (#[trigger] tasks[i]).is_fixed(),
    ensures
        all_units(tasks).len() == 0,
        !some_too_many_sessions(tasks),
    decreases tasks.len(),
{
    if tasks.len() > 0 {
        let rest = tasks.drop_last();
        assert forall|i: int| 0 <= i < rest.len() implies (#[trigger] rest[i]).is_fixed() by {
            assert(rest[i] == tasks[i]);
        }
        fixed_only_tasks_have_no_units(rest);
        assert(tasks[tasks.len() - 1].is_fixed());
        assert(tasks.last().units().len() == 0);
    }
    assert forall|i: int| 0 <= i < tasks.len() implies !(#[trigger] tasks[i]).too_many_sessions() by {
        assert(tasks[i].is_fixed());
    }
}

/// Schedules the tasks from `now` on, drawing from a generator seeded with
/// `seed`. Fails with `TooManySessions` exactly when some project would
/// split into too many sessions; without any unit to place it returns the
/// fixed tasks' slots.
#[verifier::spinoff_prover]
pub fn monte_carlo_schedule(tasks: &[Task], now: i64, seed: u64) -> (r: Result<Vec<Slot>, ScheduleError>)
    requires
        all_in_range(tasks@),
        within_limit(now),
    ensures
        some_too_many_sessions(tasks@) <==> r matches Err(ScheduleError::TooManySessions),
        r matches Err(ScheduleError::NoValidSchedule) ==> all_units(tasks@).len() > 0,
        all_units(tasks@).len() == 0 && !some_too_many_sessions(tasks@)
            ==> (r matches Ok(s) && s@ == fixed_slots(tasks@)),
        r matches Ok(s) ==> valid_schedule(tasks@, now as int, s@),
        r matches Ok(s) ==> (well_spaced(tasks@) ==> pairwise_apart(s@)),
        !some_too_many_sessions(tasks@) && durations_nonnegative(all_units(tasks@))
            && all_units(tasks@).len() * (2 * all_units(tasks@).len() + 1346) <= SEARCH_BUDGET
            ==> r is Ok,
{
    let units = match expand(tasks) {
        Ok(u) => u,
        Err(e) => {
            return Err(e);
        },
    };
    let index = FixedIndex::build(tasks);
    let initial = fixed_task_slots(tasks);
    proof {
        lemma_ranges(tasks@);
        lemma_fixed_views(tasks@);
    }
    if units.len() == 0 {
        proof {
            let placed = initial@.subrange(initial@.len() as int, initial@.len() as int);
            let picks: Seq<int> = seq![];
            assert(placements(all_units(tasks@), placed, picks, now as int));
            assert(initial@.subrange(0, initial@.len() as int) =~= initial@);
            assert(valid_schedule(tasks@, now as int, initial@));
            if well_spaced(tasks@) {
                schedule_slots_apart(tasks@, now as int, initial@);
            }
        }
        return Ok(initial);
    }
    let ghost roomy = durations_nonnegative(units@) && units@.len() * (2 * units@.len() + 1346) <= SEARCH_BUDGET;
    let mut rng = seeded_rng(seed);
    let mut budget: u64 = SEARCH_BUDGET;
    let mut best: Option<Vec<Slot>> = None;
    loop
        invariant
            units@ == all_units(tasks@),
            units@.len() > 0,
            initial@ == fixed_slots(tasks@),
            sorted_by_start(index@),
            intervals_in_range(index@),
            units_in_range(units@),
            within_limit(now),
            !some_too_many_sessions(tasks@),
            mutually_apart(fixed_intervals(tasks@)) ==> chained(index@),
            forall|j: int| 0 <= j < fixed_intervals(tasks@).len() ==> index@.contains(#[trigger] fixed_intervals(tasks@)[j]),
            best matches Some(s) ==> valid_schedule(tasks@, now as int, s@),
            roomy == (durations_nonnegative(units@) && units@.len() * (2 * units@.len() + 1346) <= SEARCH_BUDGET),
            roomy ==> (best is Some || budget == SEARCH_BUDGET),
        ensures
            best matches Some(s) ==> valid_schedule(tasks@, now as int, s@),
            roomy ==> best is Some,
        decreases budget,
    {
        let before: u64 = budget;
        let pass = run_pass(&units, &index, &initial, now, &mut rng, &mut budget);
        let ghost picks = pass.1@;
        match pass.0 {
            None => {
                break;
            },
            Some(s) => {
                // Every pass scores the same, so the first completed one is kept.
                if best.is_none() {
                    proof {
                        let nf = initial@.len() as int;
                        let placed = s@.subrange(nf, s@.len() as int);
                        if well_spaced(tasks@) {
                            let fi = fixed_intervals(tasks@);
                            assert forall|k: int, f: int| 0 <= k < picks.len() && 0 <= f < fi.len()
                                implies !hits(#[trigger] fi[f], (#[trigger] placed[k]).start as int, placed[k].end as int) by {
                                let g = choose|g: int| 0 <= g < index@.len() && index@[g] == fi[f];
                                assert(!hits(index@[g], placed[k].start as int, placed[k].end as int));
                            }
                        }
                        assert(placements(all_units(tasks@), placed, picks, now as int));
                    }
                    best = Some(s);
                }
            },
        }
        if budget == before {
            break;
        }
    }
    match best {
        Some(s) => {
            proof {
                if well_spaced(tasks@) {
                    schedule_slots_apart(tasks@, now as int, s@);
                }
            }
            Ok(s)
        },
        None => Err(ScheduleError::NoValidSchedule),
    }
}

} // verus!
