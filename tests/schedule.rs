use schedge_solver::index::FixedIndex;
use schedge_solver::model::Interval;
use schedge_solver::model::Unit;
use schedge_solver::solver::{apply_pick, expand, fixed_task_slots, round_up_to_grid};
use schedge_solver::{monte_carlo_schedule, ProjectTimings, ScheduleError, Slot, Task};

// 2023-10-01T09:00:00Z
const NINE: i64 = 1696150800;
const MINUTE: i64 = 60;
const HOUR: i64 = 3600;
const DAY: i64 = 86400;

fn timings(work: i64) -> ProjectTimings {
    ProjectTimings { work, small_break: 5 * MINUTE, large_break: 15 * MINUTE, number_of_small_breaks: 2 }
}

fn fixed(id: &str, start: i64, end: i64, leisure: bool) -> Task {
    Task::Fixed { id: id.into(), start, end, leisure }
}

fn continuous(id: &str, duration: i64, kickoff: i64, deadline: i64, leisure: bool) -> Task {
    Task::Continuous { id: id.into(), duration, kickoff, deadline, leisure }
}

fn project(id: &str, duration: i64, work: i64, kickoff: i64, deadline: i64, leisure: bool) -> Task {
    Task::Project { id: id.into(), duration, kickoff, deadline, timings: timings(work), leisure }
}

fn slot(start: i64, end: i64, id: &str) -> Slot {
    Slot { start, end, task_id: id.into() }
}

fn assert_apart(slots: &[Slot]) {
    for i in 0..slots.len() {
        for j in 0..slots.len() {
            if i != j {
                let a = &slots[i];
                let b = &slots[j];
                assert!(a.end <= b.start || b.end <= a.start, "{:?} meets {:?}", a, b);
            }
        }
    }
}

#[test]
fn solve_example() {
    let tasks = vec![
        project("a", 2 * HOUR, 25 * MINUTE, NINE, NINE + 2 * DAY, false),
        fixed("b", NINE, NINE + HOUR, false),
    ];
    let schedule = monte_carlo_schedule(&tasks, NINE, 0).expect("Failed to schedule tasks");
    let expected = vec![
        slot(NINE, NINE + HOUR, "b"),
        slot(NINE + HOUR, NINE + HOUR + 25 * MINUTE, "a"),
        slot(NINE + 2 * HOUR, NINE + 2 * HOUR + 25 * MINUTE, "a"),
        slot(NINE + 3 * HOUR, NINE + 3 * HOUR + 25 * MINUTE, "a"),
        slot(NINE + 4 * HOUR, NINE + 4 * HOUR + 25 * MINUTE, "a"),
        slot(NINE + 5 * HOUR, NINE + 5 * HOUR + 25 * MINUTE, "a"),
    ];
    assert_eq!(schedule, expected);
}

#[test]
fn too_many_sessions_rejected() {
    let tasks = vec![
        fixed("f", NINE, NINE + HOUR, false),
        continuous("c", HOUR, NINE, NINE + DAY, true),
        project("p", 1001 * MINUTE, MINUTE, NINE, NINE + DAY, false),
    ];
    assert_eq!(monte_carlo_schedule(&tasks, NINE, 7), Err(ScheduleError::TooManySessions));
}

#[test]
fn thousand_sessions_accepted() {
    let tasks = vec![project("p", 1000 * MINUTE, MINUTE, NINE, NINE + 40 * DAY, true)];
    let units = expand(&tasks).ok().unwrap();
    assert_eq!(units.len(), 1000);
}

#[test]
fn fixed_only_returns_fixed_slots() {
    let tasks = vec![
        fixed("late", NINE + 5 * HOUR, NINE + 6 * HOUR, true),
        fixed("early", NINE, NINE + HOUR, false),
    ];
    let schedule = monte_carlo_schedule(&tasks, NINE, 3).unwrap();
    assert_eq!(schedule, vec![slot(NINE + 5 * HOUR, NINE + 6 * HOUR, "late"), slot(NINE, NINE + HOUR, "early")]);
}

#[test]
fn empty_input_gives_empty_schedule() {
    let tasks: Vec<Task> = vec![];
    assert_eq!(monte_carlo_schedule(&tasks, NINE, 0), Ok(vec![]));
}

#[test]
fn same_seed_same_schedule() {
    let tasks = vec![
        continuous("x", HOUR, NINE, NINE + 3 * DAY, true),
        continuous("y", 30 * MINUTE, NINE, NINE + 3 * DAY, true),
        continuous("z", 45 * MINUTE, NINE, NINE + 3 * DAY, false),
        project("p", 3 * HOUR, 50 * MINUTE, NINE, NINE + 3 * DAY, true),
        fixed("f", NINE + 2 * HOUR, NINE + 3 * HOUR, false),
    ];
    let first = monte_carlo_schedule(&tasks, NINE, 42).unwrap();
    let second = monte_carlo_schedule(&tasks, NINE, 42).unwrap();
    assert_eq!(first, second);
    assert_apart(&first);
    assert_eq!(first.len(), 1 + 3 + 4);
    assert_eq!(first[0], slot(NINE + 2 * HOUR, NINE + 3 * HOUR, "f"));
}

#[test]
fn leisure_tasks_fill_back_to_back() {
    let tasks = vec![
        continuous("x", HOUR, NINE, NINE + DAY, true),
        continuous("y", HOUR, NINE, NINE + DAY, true),
    ];
    let schedule = monte_carlo_schedule(&tasks, NINE, 5).unwrap();
    assert_eq!(schedule.len(), 2);
    assert_eq!(schedule[0].start, NINE);
    assert_eq!(schedule[0].end, NINE + HOUR);
    assert_eq!(schedule[1].start, NINE + HOUR);
    assert_eq!(schedule[1].end, NINE + 2 * HOUR);
}

#[test]
fn non_leisure_first_waits_for_a_gap() {
    let tasks = vec![continuous("w", HOUR, NINE, NINE + DAY, false)];
    let schedule = monte_carlo_schedule(&tasks, NINE + 5 * MINUTE, 1).unwrap();
    // nothing fits at once: the cursor moves 30 minutes and rounds up to 09:40
    assert_eq!(schedule, vec![slot(NINE + 40 * MINUTE, NINE + 100 * MINUTE, "w")]);
}

#[test]
fn kickoff_jump_allows_non_leisure() {
    let tasks = vec![continuous("w", HOUR, NINE + 7 * HOUR, NINE + DAY, false)];
    let schedule = monte_carlo_schedule(&tasks, NINE, 1).unwrap();
    assert_eq!(schedule, vec![slot(NINE + 7 * HOUR, NINE + 8 * HOUR, "w")]);
}

#[test]
fn expired_task_is_left_out() {
    let tasks = vec![
        fixed("f", NINE, NINE + HOUR, false),
        continuous("old", HOUR, NINE - DAY, NINE - HOUR, true),
    ];
    let schedule = monte_carlo_schedule(&tasks, NINE, 9).unwrap();
    assert_eq!(schedule, vec![slot(NINE, NINE + HOUR, "f")]);
}

#[test]
fn placed_slots_avoid_fixed_ones() {
    let tasks = vec![
        fixed("f1", NINE, NINE + HOUR, false),
        fixed("f2", NINE + 90 * MINUTE, NINE + 4 * HOUR, true),
        continuous("a", 2 * HOUR, NINE, NINE + 2 * DAY, true),
        continuous("b", 20 * MINUTE, NINE, NINE + 2 * DAY, true),
        project("p", 2 * HOUR, 40 * MINUTE, NINE, NINE + 2 * DAY, false),
    ];
    for seed in 0..20u64 {
        let schedule = monte_carlo_schedule(&tasks, NINE, seed).unwrap();
        assert_apart(&schedule);
        assert_eq!(schedule[0], slot(NINE, NINE + HOUR, "f1"));
        assert_eq!(schedule[1], slot(NINE + 90 * MINUTE, NINE + 4 * HOUR, "f2"));
    }
}

#[test]
fn budget_runs_out() {
    let tasks = vec![
        project("p", 1000 * MINUTE, MINUTE, NINE, NINE + 60 * DAY, false),
        project("q", 500 * MINUTE, MINUTE, NINE, NINE + 60 * DAY, false),
    ];
    assert_eq!(monte_carlo_schedule(&tasks, NINE, 0), Err(ScheduleError::NoValidSchedule));
}

#[test]
fn round_up_examples() {
    assert_eq!(round_up_to_grid(0), 0);
    assert_eq!(round_up_to_grid(1), 600);
    assert_eq!(round_up_to_grid(600), 600);
    assert_eq!(round_up_to_grid(NINE + 55 * MINUTE), NINE + HOUR);
    assert_eq!(round_up_to_grid(-1), 0);
    assert_eq!(round_up_to_grid(-601), -600);
}

#[test]
fn expand_counts_sessions() {
    let tasks = vec![
        fixed("f", NINE, NINE + HOUR, false),
        continuous("c", HOUR, NINE, NINE + DAY, true),
        project("p", 2 * HOUR, 25 * MINUTE, NINE, NINE + DAY, false),
        project("q", 0, 25 * MINUTE, NINE, NINE + DAY, false),
    ];
    let units = expand(&tasks).ok().unwrap();
    assert_eq!(units.len(), 6);
    assert_eq!(units[0].duration, HOUR);
    assert!(units[1..].iter().all(|u| u.duration == 25 * MINUTE && u.id == "p"));
    assert_eq!(fixed_task_slots(&tasks), vec![slot(NINE, NINE + HOUR, "f")]);
}

#[test]
fn index_finds_overlaps() {
    let tasks = vec![
        fixed("c", 50, 60, false),
        fixed("a", 10, 20, false),
        fixed("b", 30, 40, true),
    ];
    let index = FixedIndex::build(&tasks);
    let starts: Vec<i64> = index.intervals.iter().map(|i: &Interval| i.start).collect();
    assert_eq!(starts, vec![10, 30, 50]);
    assert_eq!(index.overlaps(20, 30), None);
    assert_eq!(index.overlaps(0, 10), None);
    assert_eq!(index.overlaps(35, 36), Some(1));
    assert_eq!(index.overlaps(15, 15), Some(0));
    assert_eq!(index.overlaps(10, 10), None);
    assert_eq!(index.overlaps(55, 100), Some(2));
}

#[test]
fn apply_pick_places_the_unit() {
    let units = vec![
        Unit { id: "a".into(), duration: 100, kickoff: 0, deadline: 1000, leisure: false },
        Unit { id: "b".into(), duration: 50, kickoff: 0, deadline: 1000, leisure: true },
    ];
    let mut slots = vec![slot(0, 10, "f")];
    let mut used = vec![false, false];
    let r = apply_pick(&units, 1, 20, &mut slots, &mut used);
    assert_eq!(r, (70, true));
    assert_eq!(used, vec![false, true]);
    assert_eq!(slots, vec![slot(0, 10, "f"), slot(20, 70, "b")]);
}
