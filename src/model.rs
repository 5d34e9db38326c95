//! Tasks, the units the search places, and the slots it emits.

use vstd::prelude::*;
use smol_str::SmolStr;

verus! {

/// Largest magnitude of an instant or a duration that the scheduler accepts.
/// Far beyond any calendar date, and small enough that the search's sums
/// stay within `i64`.
pub const TIME_LIMIT: i64 = 1152921504606846976;

/// Horizon of one search pass: 28 days, in seconds.
pub const HORIZON: i64 = 2419200;

/// A placed range `[start, end)` of a task.
#[derive(Debug, Clone, PartialEq, Eq)]
pub struct Slot {
    pub start: i64,
    pub end: i64,
    pub task_id: SmolStr,
}

/// Session layout of a project. Only `work` is read by the search.
#[derive(Debug, Clone, PartialEq, Eq)]
pub struct ProjectTimings {
    pub work: i64,
    pub small_break: i64,
    pub large_break: i64,
    pub number_of_small_breaks: u32,
}

#[derive(Debug, Clone)]
pub enum Task {
    Fixed { id: SmolStr, start: i64, end: i64, leisure: bool },
    Continuous { id: SmolStr, duration: i64, kickoff: i64, deadline: i64, leisure: bool },
    Project {
        id: SmolStr,
        duration: i64,
        kickoff: i64,
        deadline: i64,
        timings: ProjectTimings,
        leisure: bool,
    },
}

/// One placeable piece of work: a continuous task, or one session of a project.
#[derive(Debug, Clone)]
pub struct Unit {
    pub id: SmolStr,
    pub duration: i64,
    pub kickoff: i64,
    pub deadline: i64,
    pub leisure: bool,
}

/// A fixed commitment as the overlap index holds it.
#[derive(Debug, Clone, Copy, PartialEq, Eq)]
pub struct Interval {
    pub start: i64,
    pub end: i64,
    pub leisure: bool,
}

pub open spec fn within_limit(x: i64) -> bool {
    -TIME_LIMIT <= x <= TIME_LIMIT
}

impl Task {
    /// Every instant and duration of the task lies within `TIME_LIMIT`.
    pub open spec fn in_range(&self) -> bool {
        match self {
            Task::Fixed { start, end, .. } => within_limit(*start) && within_limit(*end),
            Task::Continuous { duration, kickoff, deadline, .. } =>
                within_limit(*duration) && within_limit(*kickoff) && within_limit(*deadline),
            Task::Project { duration, kickoff, deadline, timings, .. } =>
                within_limit(*duration) && within_limit(*kickoff) && within_limit(*deadline)
                    && within_limit(timings.work),
        }
    }

    pub open spec fn is_fixed(&self) -> bool {
        self is Fixed
    }

    /// A project whose duration, divided by a thousand, exceeds its session
    /// length: it would split into too many sessions.
    pub open spec fn too_many_sessions(&self) -> bool {
        match self {
            Task::Project { duration, timings, .. } => duration > 1000 * timings.work,
            _ => false,
        }
    }

    /// The slot that a fixed task occupies.
    pub open spec fn fixed_slot(&self) -> Slot {
        match self {
            Task::Fixed { id, start, end, .. } => Slot { start: *start, end: *end, task_id: *id },
            _ => arbitrary(),
        }
    }

    pub open spec fn interval(&self) -> Interval {
        match self {
            Task::Fixed { start, end, leisure, .. } =>
                Interval { start: *start, end: *end, leisure: *leisure },
            _ => arbitrary(),
        }
    }

    /// How many sessions a project splits into: enough of them, each `work`
    /// long, to cover its duration.
    pub open spec fn session_count(&self) -> nat {
        match self {
            Task::Project { duration, timings, .. } =>
                if *duration <= 0 || timings.work <= 0 {
                    0
                } else {
                    ((*duration + timings.work - 1) / timings.work as int) as nat
                },
            _ => 0,
        }
    }

    /// The pieces of work a task contributes: none when fixed, one when
    /// continuous, one per session for a project.
    pub open spec fn units(&self) -> Seq<Unit> {
        match self {
            Task::Fixed { .. } => seq![],
            Task::Continuous { id, duration, kickoff, deadline, leisure } =>
                seq![Unit { id: *id, duration: *duration, kickoff: *kickoff, deadline: *deadline, leisure: *leisure }],
            Task::Project { id, kickoff, deadline, timings, leisure, .. } =>
                Seq::new(self.session_count(), |k: int|
                    Unit { id: *id, duration: timings.work, kickoff: *kickoff, deadline: *deadline, leisure: *leisure }),
        }
    }
}

pub open spec fn all_in_range(tasks: Seq<Task>) -> bool {
    forall|i: int| 0 <= i < tasks.len() ==> #[trigger] tasks[i].in_range()
}

pub open spec fn some_too_many_sessions(tasks: Seq<Task>) -> bool {
    exists|i: int| 0 <= i < tasks.len() && #[trigger] tasks[i].too_many_sessions()
}

/// The slots of the fixed tasks, in the order the tasks are given.
pub open spec fn fixed_slots(tasks: Seq<Task>) -> Seq<Slot>
    decreases tasks.len(),
{
    if tasks.len() == 0 {
        seq![]
    } else {
        let rest = fixed_slots(tasks.drop_last());
        if tasks.last().is_fixed() { rest.push(tasks.last().fixed_slot()) } else { rest }
    }
}

/// The intervals of the fixed tasks, in the order the tasks are given.
pub open spec fn fixed_intervals(tasks: Seq<Task>) -> Seq<Interval>
    decreases tasks.len(),
{
    if tasks.len() == 0 {
        seq![]
    } else {
        let rest = fixed_intervals(tasks.drop_last());
        if tasks.last().is_fixed() { rest.push(tasks.last().interval()) } else { rest }
    }
}

/// The units of all tasks, task by task.
pub open spec fn all_units(tasks: Seq<Task>) -> Seq<Unit>
    decreases tasks.len(),
{
    if tasks.len() == 0 {
        seq![]
    } else {
        all_units(tasks.drop_last()) + tasks.last().units()
    }
}

/// Two ranges `[a.start, a.end)` and `[b.start, b.end)` share no instant.
pub open spec fn apart(a: Slot, b: Slot) -> bool {
    a.end <= b.start || b.end <= a.start
}

pub open spec fn pairwise_apart(s: Seq<Slot>) -> bool {
    forall|i: int, j: int| 0 <= i < s.len() && 0 <= j < s.len() && i != j ==> apart(#[trigger] s[i], #[trigger] s[j])
}

} // verus!
