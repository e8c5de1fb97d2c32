//! The select engine: races the slots and hands back the first answer it
//! observes, starting each pass at a randomly drawn slot.
use vstd::prelude::*;

use crate::rng::{lcg_next, random, scale_high, FairRng};
use crate::task::{report_of, Report, Step, Task};

verus! {

/// The slot that a pass over `n` slots beginning at `start` visits `d`-th.
pub open spec fn slot_at(start: int, d: int, n: int) -> int {
    if start + d < n {
        start + d
    } else {
        start + d - n
    }
}

/// A pass that began at `start` answered `r` from the `k`-th slot it visited:
/// the slots visited before it were still pending, the slot itself reported
/// that answer, and the slots after it were not driven.
pub open spec fn won_at<O, E>(start: int, k: int, reports: Seq<Report<O>>, r: Step<O, E>) -> bool {
    let n = reports.len() as int;
    &&& 0 <= k < n
    &&& reports[slot_at(start, k, n)] == report_of(r)
    &&& forall|d: int| 0 <= d < k ==> #[trigger] reports[slot_at(start, d, n)] == Report::<O>::Pending
    &&& forall|d: int| k < d < n ==> #[trigger] reports[slot_at(start, d, n)] is Unpolled
}

/// One resumption of a select that began at slot `start`, where slot `i`
/// reported `reports[i]` and the select answered `r`: either every slot was
/// driven once and all are pending, or the answer is that of the first slot,
/// in cyclic order from `start`, that did not report pending.
pub open spec fn select_pass<O, E>(start: int, reports: Seq<Report<O>>, r: Step<O, E>) -> bool {
    &&& 0 <= start < reports.len()
    &&& match r {
        Step::Pending => forall|i: int| 0 <= i < reports.len() ==> #[trigger] reports[i] == Report::<O>::Pending,
        _ => exists|k: int| won_at(start, k, reports, r),
    }
}

/// When only one slot ever completes, wherever the pass begins: if that slot
/// answers whenever it is driven and every other slot stays pending, the
/// select answers with that slot's result.
pub proof fn lemma_select_sole_finisher<O, E>(start: int, reports: Seq<Report<O>>, r: Step<O, E>, w: int, o: O)
    requires
        select_pass(start, reports, r),
        0 <= w < reports.len(),
        reports[w] is Unpolled || reports[w] == Report::<O>::Ready(o),
        forall|i: int| 0 <= i < reports.len() && i != w ==> #[trigger] reports[i] is Unpolled
            || reports[i] is Pending,
    ensures
        r == Step::<O, E>::Ready(o),
{
    let n = reports.len() as int;
    if r is Pending {
        assert(reports[w] == Report::<O>::Pending);
    } else {
        let k = choose|k: int| won_at(start, k, reports, r);
        let i = slot_at(start, k, n);
        assert(reports[i] == report_of(r));
        assert(i == w);
    }
}

/// When every slot is ready at once, the select answers from the slot at
/// which the pass began, without driving any other slot; which slot wins is
/// therefore decided by the random draw alone.
pub proof fn lemma_select_all_ready<O, E>(start: int, reports: Seq<Report<O>>, r: Step<O, E>)
    requires
        select_pass(start, reports, r),
        forall|i: int| 0 <= i < reports.len() ==> #[trigger] reports[i] is Unpolled || reports[i] is Ready,
    ensures
        !(r is Pending),
        r is Ready,
        reports[start] == report_of(r),
        forall|i: int| 0 <= i < reports.len() && i != start ==> #[trigger] reports[i] is Unpolled,
{
    let n = reports.len() as int;
    if r is Pending {
        assert(reports[start] == Report::<O>::Pending);
    } else {
        let k = choose|k: int| won_at(start, k, reports, r);
        if k > 0 {
            assert(reports[slot_at(start, 0, n)] == Report::<O>::Pending);
        }
        assert(slot_at(start, 0, n) == start);
        assert forall|i: int| 0 <= i < n && i != start implies #[trigger] reports[i] is Unpolled by {
            let e = if i >= start { i - start } else { i + n - start };
            assert(slot_at(start, e, n) == i);
        }
    }
}

/// Turns a group of tasks into a select engine.
pub trait Select<F, O>: Sized {
    /// The tasks, in slot order.
    spec fn tasks_to_race(&self) -> Seq<F>;

    /// Takes the tasks, in order, as the slots of the race.
    fn select(self) -> (r: SelectFuture<F, O>)
        requires
            1 <= self.tasks_to_race().len() <= 12,
        ensures
            r.is_live(),
            r.tasks() == self.tasks_to_race(),
    ;
}

impl<F, O> Select<F, O> for Vec<F> {
    open spec fn tasks_to_race(&self) -> Seq<F> {
        self@
    }

    fn select(self) -> (r: SelectFuture<F, O>) {
        let n = self.len();
        SelectFuture {
            tasks: self,
            finished: false,
            reports: Ghost(Seq::new(n as nat, |_i: int| Report::Unpolled)),
            start: Ghost(0),
        }
    }
}

/// The select engine: owns the tasks themselves, since it answers as soon as
/// any one of them does.
pub struct SelectFuture<F, O> {
    tasks: Vec<F>,
    finished: bool,
    reports: Ghost<Seq<Report<O>>>,
    start: Ghost<int>,
}

impl<F, O> SelectFuture<F, O> {
    /// The tasks, in slot order.
    pub closed spec fn tasks(&self) -> Seq<F> {
        self.tasks@
    }

    /// Whether the race has already answered.
    pub closed spec fn finished(&self) -> bool {
        self.finished
    }

    /// What each slot reported during the most recent resumption.
    pub closed spec fn reports(&self) -> Seq<Report<O>> {
        self.reports@
    }

    /// The slot at which the most recent resumption began.
    pub closed spec fn start(&self) -> int {
        self.start@
    }

    /// Between one and twelve tasks, and no answer given yet: the race can be resumed.
    pub open spec fn is_live(&self) -> bool {
        &&& 1 <= self.tasks().len() <= 12
        &&& !self.finished()
    }

    /// Whether the race has already answered.
    pub fn is_terminated(&self) -> (r: bool)
        ensures
            r == self.finished(),
    {
        self.finished
    }

    /// One resumption: draws a starting slot from `rng`, then drives the
    /// slots once each in cyclic order from it, and answers with the first
    /// result or failure; pending when every slot is still suspended.
    #[verifier::loop_isolation(false)]
    pub fn poll<C>(&mut self, cx: &mut C, rng: &mut FairRng) -> (r: Step<O, F::Error>)
        where
            F: Task<C, Output = O>,
        requires
            old(self).is_live(),
        ensures
            final(rng).state() == lcg_next(old(rng).state()),
            final(self).start() == scale_high(final(rng).state(), old(self).tasks().len()),
            final(self).tasks().len() == old(self).tasks().len(),
            final(self).reports().len() == old(self).tasks().len(),
            select_pass(final(self).start(), final(self).reports(), r),
            final(self).finished() == !(r is Pending),
    {
        let n = self.tasks.len();
        let s = random(rng, 0, (n - 1) as u32) as usize;
        self.start = Ghost(s as int);
        let ghost mut reports: Seq<Report<O>> = Seq::new(n as nat, |_i: int| Report::Unpolled);
        let mut d: usize = 0;
        while d < n
            invariant
                1 <= n <= 12,
                s < n,
                d <= n,
                self.tasks@.len() == n,
                self.start@ == s,
                !self.finished,
                reports.len() == n,
                forall|e: int| 0 <= e < d ==> #[trigger] reports[slot_at(s as int, e, n as int)] == Report::<O>::Pending,
                forall|e: int| d <= e < n ==> #[trigger] reports[slot_at(s as int, e, n as int)] is Unpolled,
            decreases n - d,
        {
            let cur: usize = if s + d < n { s + d } else { s + d - n };
            let step = self.tasks[cur].poll_step(cx);
            match step {
                Step::Pending => {
                    proof {
                        let old_reports = reports;
                        reports = reports.update(cur as int, Report::Pending);
                        assert forall|e: int| 0 <= e < d + 1 implies #[trigger] reports[slot_at(s as int, e, n as int)] == Report::<O>::Pending by {
                            if e < d {
                                assert(old_reports[slot_at(s as int, e, n as int)] == Report::<O>::Pending);
                            }
                        }
                        assert forall|e: int| d + 1 <= e < n implies #[trigger] reports[slot_at(s as int, e, n as int)] is Unpolled by {
                            assert(old_reports[slot_at(s as int, e, n as int)] is Unpolled);
                        }
                    }
                },
                _ => {
                    proof {
                        let old_reports = reports;
                        reports = reports.update(cur as int, report_of(step));
                        assert forall|e: int| 0 <= e < d implies #[trigger] reports[slot_at(s as int, e, n as int)] == Report::<O>::Pending by {
                            assert(old_reports[slot_at(s as int, e, n as int)] == Report::<O>::Pending);
                        }
                        assert forall|e: int| d < e < n implies #[trigger] reports[slot_at(s as int, e, n as int)] is Unpolled by {
                            assert(old_reports[slot_at(s as int, e, n as int)] is Unpolled);
                        }
                        assert(won_at(s as int, d as int, reports, step));
                    }
                    self.reports = Ghost(reports);
                    self.finished = true;
                    return step;
                },
            }
            d = d + 1;
        }
        proof {
            assert forall|i: int| 0 <= i < n implies #[trigger] reports[i] == Report::<O>::Pending by {
                let e = if i >= s { i - s } else { i + n - s };
                assert(slot_at(s as int, e, n as int) == i);
            }
        }
        self.reports = Ghost(reports);
        Step::Pending
    }
}

} // verus!
