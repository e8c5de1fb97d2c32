use std::cell::Cell;
use std::rc::Rc;

use tuple_fut::{random, FairRng, Join, Joiner, Select, SelectFuture, Step, Task};

/// A task that becomes ready once the clock handed to it reaches `deadline`,
/// and then answers `outcome`. Counts how often it was driven and panics if
/// it is driven after it has answered.
struct Timed {
    deadline: u64,
    outcome: Result<u64, String>,
    polls: Rc<Cell<u32>>,
    answered: bool,
}

impl Timed {
    fn ok(deadline: u64, value: u64) -> Timed {
        Timed { deadline, outcome: Ok(value), polls: Rc::new(Cell::new(0)), answered: false }
    }

    fn failing(deadline: u64, msg: &str) -> Timed {
        Timed { deadline, outcome: Err(msg.to_string()), polls: Rc::new(Cell::new(0)), answered: false }
    }

    fn never() -> Timed {
        Timed::ok(u64::MAX, 0)
    }
}

impl Task<u64> for Timed {
    type Output = u64;
    type Error = String;

    fn poll_step(&mut self, now: &mut u64) -> Step<u64, String> {
        assert!(!self.answered, "task driven after it answered");
        self.polls.set(self.polls.get() + 1);
        if *now < self.deadline {
            return Step::Pending;
        }
        self.answered = true;
        match &self.outcome {
            Ok(v) => Step::Ready(*v),
            Err(e) => Step::Failed(e.clone()),
        }
    }
}

/// Resumes the join once per time unit from 0 to `limit`; returns the time of
/// the first non-pending answer and that answer.
fn drive_join(j: &mut Joiner<Timed, u64>, limit: u64) -> (u64, Step<Vec<u64>, String>) {
    for t in 0..=limit {
        let mut now = t;
        match j.poll(&mut now) {
            Step::Pending => {}
            other => return (t, other),
        }
    }
    (limit, Step::Pending)
}

fn drive_select(s: &mut SelectFuture<Timed, u64>, rng: &mut FairRng, limit: u64) -> (u64, Step<u64, String>) {
    for t in 0..=limit {
        let mut now = t;
        match s.poll(&mut now, rng) {
            Step::Pending => {}
            other => return (t, other),
        }
    }
    (limit, Step::Pending)
}

#[test]
fn join_waits_for_the_slowest_task() {
    let mut j: Joiner<Timed, u64> = vec![Timed::ok(100, 100), Timed::ok(2, "hello".len() as u64)].join();
    let (t, r) = drive_join(&mut j, 500);
    assert_eq!(t, 100);
    assert_eq!(r, Step::Ready(vec![100, 5]));
    assert!(j.is_terminated());
}

#[test]
fn select_answers_with_the_fastest_task() {
    let mut rng = FairRng::new(7);
    let mut s: SelectFuture<Timed, u64> = vec![Timed::ok(100, 100), Timed::ok(2, 5)].select();
    let (t, r) = drive_select(&mut s, &mut rng, 500);
    assert_eq!(t, 2);
    assert_eq!(r, Step::Ready(5));
    assert!(s.is_terminated());
}

#[test]
fn single_task_join_and_select() {
    let mut j: Joiner<Timed, u64> = vec![Timed::ok(3, 42)].join();
    assert_eq!(drive_join(&mut j, 10), (3, Step::Ready(vec![42])));

    let mut rng = FairRng::new(1);
    let mut s: SelectFuture<Timed, u64> = vec![Timed::ok(3, 42)].select();
    assert_eq!(drive_select(&mut s, &mut rng, 10), (3, Step::Ready(42)));
}

#[test]
fn join_propagates_a_failure() {
    let mut j: Joiner<Timed, u64> = vec![Timed::ok(100, 1), Timed::failing(3, "boom"), Timed::ok(1, 2)].join();
    let (t, r) = drive_join(&mut j, 500);
    assert_eq!(t, 3);
    assert_eq!(r, Step::Failed("boom".to_string()));
}

#[test]
fn select_propagates_a_failure() {
    let mut rng = FairRng::new(99);
    let mut s: SelectFuture<Timed, u64> = vec![Timed::ok(100, 1), Timed::failing(3, "boom")].select();
    let (t, r) = drive_select(&mut s, &mut rng, 500);
    assert_eq!(t, 3);
    assert_eq!(r, Step::Failed("boom".to_string()));
}

#[test]
fn join_of_twelve_keeps_slot_order() {
    let deadlines: Vec<u64> = vec![5, 0, 12, 7, 7, 30, 1, 2, 29, 3, 18, 4];
    let tasks: Vec<Timed> = deadlines.iter().enumerate().map(|(i, d)| Timed::ok(*d, 1000 + i as u64)).collect();
    let mut j: Joiner<Timed, u64> = tasks.join();
    let (t, r) = drive_join(&mut j, 100);
    assert_eq!(t, 30);
    let expected: Vec<u64> = (0..12).map(|i| 1000 + i).collect();
    assert_eq!(r, Step::Ready(expected));
}

#[test]
fn join_never_drives_a_completed_slot_again() {
    let tasks = vec![Timed::ok(4, 1), Timed::ok(0, 2), Timed::ok(9, 3)];
    let counters: Vec<Rc<Cell<u32>>> = tasks.iter().map(|t| t.polls.clone()).collect();
    let mut j: Joiner<Timed, u64> = tasks.join();
    let (t, r) = drive_join(&mut j, 50);
    assert_eq!(t, 9);
    assert_eq!(r, Step::Ready(vec![1, 2, 3]));
    // a slot is driven at times 0..=deadline and never afterwards
    let polls: Vec<u32> = counters.iter().map(|c| c.get()).collect();
    assert_eq!(polls, vec![5, 1, 10]);
}

#[test]
fn join_pending_until_last_slot_completes() {
    let mut j: Joiner<Timed, u64> = vec![Timed::ok(1, 10), Timed::ok(6, 20)].join();
    for t in 0..6u64 {
        let mut now = t;
        assert_eq!(j.poll(&mut now), Step::Pending);
        assert!(!j.is_terminated());
    }
    let mut now = 6;
    assert_eq!(j.poll(&mut now), Step::Ready(vec![10, 20]));
    assert!(j.is_terminated());
}

#[test]
fn select_sole_finisher_wins_from_any_start() {
    for seed in 0..64u64 {
        let mut rng = FairRng::new(seed);
        let mut s: SelectFuture<Timed, u64> =
            vec![Timed::never(), Timed::never(), Timed::ok(5, 77), Timed::never()].select();
        assert_eq!(drive_select(&mut s, &mut rng, 20), (5, Step::Ready(77)));
    }
}

#[test]
fn select_pending_pass_drives_every_slot_once() {
    let tasks = vec![Timed::ok(3, 1), Timed::ok(4, 2), Timed::ok(5, 3)];
    let counters: Vec<Rc<Cell<u32>>> = tasks.iter().map(|t| t.polls.clone()).collect();
    let mut rng = FairRng::new(11);
    let mut s: SelectFuture<Timed, u64> = tasks.select();
    let mut now = 0;
    assert_eq!(s.poll(&mut now, &mut rng), Step::Pending);
    let polls: Vec<u32> = counters.iter().map(|c| c.get()).collect();
    assert_eq!(polls, vec![1, 1, 1]);
    assert!(!s.is_terminated());
}

#[test]
fn select_is_fair_when_all_are_ready() {
    let n: usize = 4;
    let trials: usize = 40_000;
    let mut wins = vec![0usize; n];
    let mut rng = FairRng::new(20_240_101);
    for _ in 0..trials {
        let tasks: Vec<Timed> = (0..n).map(|i| Timed::ok(0, i as u64)).collect();
        let mut s: SelectFuture<Timed, u64> = tasks.select();
        let mut now = 0;
        match s.poll(&mut now, &mut rng) {
            Step::Ready(i) => wins[i as usize] += 1,
            other => panic!("unexpected answer {:?}", other),
        }
    }
    let expected = (trials / n) as f64;
    for w in wins {
        let ratio = w as f64 / expected;
        assert!(ratio > 0.9 && ratio < 1.1, "slot won {} times of {}", w, trials);
    }
}

#[test]
fn random_first_draws_from_zero_seed() {
    let mut rng = FairRng::new(0);
    assert_eq!(random(&mut rng, 0, 9), 0);
    assert_eq!(random(&mut rng, 0, 9), 5);
    assert_eq!(random(&mut rng, 0, 9), 3);
}

#[test]
fn random_offsets_by_start() {
    let mut rng = FairRng::new(42);
    assert_eq!(random(&mut rng, 7, 20), 14);
}

#[test]
fn random_single_value_range() {
    let mut rng = FairRng::new(123);
    for _ in 0..100 {
        assert_eq!(random(&mut rng, 0, 0), 0);
        assert_eq!(random(&mut rng, 9, 9), 9);
    }
}

#[test]
fn random_stays_in_range() {
    let mut rng = FairRng::new(5);
    for _ in 0..10_000 {
        let r = random(&mut rng, 3, 14);
        assert!((3..=14).contains(&r));
    }
    let mut seen_high = false;
    for _ in 0..10_000 {
        let r = random(&mut rng, 0, u32::MAX);
        seen_high |= r > u32::MAX / 2;
    }
    assert!(seen_high);
}

#[test]
fn random_is_deterministic_for_a_seed() {
    let mut a = FairRng::new(987_654_321);
    let mut b = FairRng::new(987_654_321);
    for _ in 0..50 {
        assert_eq!(random(&mut a, 0, 11), random(&mut b, 0, 11));
    }
}
