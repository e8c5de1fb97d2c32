//! The join engine: drives every slot to completion, then hands back all
//! results at once, in slot order.
use vstd::prelude::*;

use crate::task::{Report, Step, Task};

verus! {

/// The state of one slot of a join.
pub enum FutStatus<F, O> {
    /// Still suspended: holds the computation.
    Future(F),
    /// Completed: holds the result, not yet handed out.
    Output(O),
    /// The result has been moved out; the slot is spent.
    Empty,
}

impl<F, O> FutStatus<F, O> {
    /// Drives the slot forward if it is still suspended: `Ok(true)` once the
    /// slot holds a result, `Ok(false)` while it is suspended, `Err` when the
    /// computation failed. A completed slot answers `Ok(true)` without being
    /// driven.
    pub fn progress<C>(&mut self, cx: &mut C) -> (r: Result<bool, F::Error>)
        where
            F: Task<C, Output = O>,
        requires
            !(*old(self) is Empty),
        ensures
            *old(self) is Output ==> *final(self) == *old(self) && r == Ok::<bool, F::Error>(true),
            *old(self) is Future ==> match r {
                Ok(true) => *final(self) is Output,
                _ => *final(self) is Future,
            },
    {
        let step = match self {
            FutStatus::Future(f) => f.poll_step(cx),
            FutStatus::Output(_) => {
                return Ok(true);
            },
            FutStatus::Empty => vstd::pervasive::unreached(),
        };
        self.absorb(step)
    }

    /// Records what a suspended slot's computation answered: a result makes
    /// the slot completed, anything else leaves it suspended.
    pub fn absorb<E>(&mut self, step: Step<O, E>) -> (r: Result<bool, E>)
        requires
            *old(self) is Future,
        ensures
            match step {
                Step::Ready(o) => *final(self) == FutStatus::<F, O>::Output(o) && r == Ok::<bool, E>(true),
                Step::Pending => *final(self) == *old(self) && r == Ok::<bool, E>(false),
                Step::Failed(e) => *final(self) == *old(self) && r == Err::<bool, E>(e),
            },
    {
        match step {
            Step::Ready(o) => {
                *self = FutStatus::Output(o);
                Ok(true)
            },
            Step::Pending => Ok(false),
            Step::Failed(e) => Err(e),
        }
    }

    /// Moves the result out of a completed slot, leaving it spent.
    pub fn take_output(&mut self) -> (o: O)
        requires
            *old(self) is Output,
        ensures
            *old(self) == FutStatus::<F, O>::Output(o),
            *final(self) == FutStatus::<F, O>::Empty,
    {
        let mut taken = FutStatus::Empty;
        core::mem::swap(self, &mut taken);
        match taken {
            FutStatus::Output(o) => o,
            _ => vstd::pervasive::unreached(),
        }
    }
}


/// What a slot holds after a pass, given what it held before and what it
/// reported: a completed slot is not driven and keeps its result; a driven
/// slot becomes completed exactly when it reported a result.
pub open spec fn slot_after<F, O>(before: FutStatus<F, O>, report: Report<O>, after: FutStatus<F, O>) -> bool {
    match before {
        FutStatus::Future(_) => match report {
            Report::Ready(o) => after == FutStatus::<F, O>::Output(o),
            _ => after is Future,
        },
        FutStatus::Output(_) => report == Report::<O>::Unpolled && after == before,
        FutStatus::Empty => false,
    }
}

/// The result a slot holds at the end of a pass, if it holds one.
pub open spec fn settled<F, O>(before: FutStatus<F, O>, report: Report<O>) -> Option<O> {
    match before {
        FutStatus::Output(o) => Some(o),
        FutStatus::Future(_) => match report {
            Report::Ready(o) => Some(o),
            _ => None,
        },
        FutStatus::Empty => None,
    }
}

/// One resumption of a join, from the slots `before` to the slots `after`,
/// where slot `i` reported `reports[i]` and the join answered `r`:
/// - every suspended slot is driven, in slot order, until one fails; no slot
///   after a failure is driven, and a completed slot is never driven;
/// - the join fails exactly when some slot failed;
/// - it completes exactly when no slot failed and every slot holds a result,
///   and then hands back those results in slot order, leaving every slot spent;
/// - otherwise it is still pending and every slot holds what the pass left.
pub open spec fn join_pass<F, O, E>(
    before: Seq<FutStatus<F, O>>,
    reports: Seq<Report<O>>,
    r: Step<Vec<O>, E>,
    after: Seq<FutStatus<F, O>>,
) -> bool {
    &&& reports.len() == before.len()
    &&& after.len() == before.len()
    &&& forall|i: int| 0 <= i < before.len() && #[trigger] before[i] is Output ==> reports[i] is Unpolled
    &&& forall|i: int| 0 <= i < before.len() && before[i] is Future && !(reports[i] is Unpolled)
        ==> forall|j: int| 0 <= j < i && before[j] is Future ==> !(#[trigger] reports[j] is Unpolled)
    &&& forall|i: int| #![trigger reports[i]] 0 <= i < before.len() && reports[i] is Failed
        ==> forall|j: int| i < j < before.len() ==> #[trigger] reports[j] is Unpolled
    &&& (r is Failed) == (exists|i: int| 0 <= i < before.len() && #[trigger] reports[i] is Failed)
    &&& !(r is Failed) ==> forall|i: int| 0 <= i < before.len() && before[i] is Future
        ==> !(#[trigger] reports[i] is Unpolled)
    &&& (r is Ready) == (!(r is Failed) && forall|i: int| 0 <= i < before.len()
        ==> #[trigger] settled(before[i], reports[i]) is Some)
    &&& match r {
        Step::Ready(v) => {
            &&& v@.len() == before.len()
            &&& forall|i: int| 0 <= i < before.len()
                ==> v@[i] == (#[trigger] settled(before[i], reports[i]))->Some_0
            &&& forall|i: int| 0 <= i < before.len() ==> #[trigger] after[i] is Empty
        },
        _ => forall|i: int| 0 <= i < before.len() ==> slot_after(before[i], reports[i], #[trigger] after[i]),
    }
}

/// A join that did not fail completes exactly when every slot holds a result at
/// the end of the pass; it then hands back one result per slot, in slot order.
/// Until then it is pending, and each slot that already completed keeps its
/// result for a later pass.
pub proof fn lemma_join_completeness<F, O, E>(
    before: Seq<FutStatus<F, O>>,
    reports: Seq<Report<O>>,
    r: Step<Vec<O>, E>,
    after: Seq<FutStatus<F, O>>,
)
    requires
        join_pass(before, reports, r, after),
        forall|i: int| 0 <= i < before.len() ==> !(#[trigger] before[i] is Empty),
        !(r is Failed),
    ensures
        (r is Ready) == forall|i: int| 0 <= i < before.len() ==> #[trigger] settled(before[i], reports[i]) is Some,
        (r is Pending) == exists|i: int| 0 <= i < before.len() && #[trigger] settled(before[i], reports[i]) is None,
        r is Pending ==> forall|i: int| 0 <= i < before.len() ==> (#[trigger] after[i] is Output
            <==> settled(before[i], reports[i]) is Some),
        r is Pending ==> forall|i: int| 0 <= i < before.len() && #[trigger] before[i] is Output ==> after[i] == before[i],
        match r {
            Step::Ready(v) => v@.len() == before.len() && forall|i: int| 0 <= i < before.len()
                ==> v@[i] == (#[trigger] settled(before[i], reports[i]))->Some_0,
            _ => true,
        },
{
    if r is Pending {
        assert forall|i: int| 0 <= i < before.len() implies (#[trigger] after[i] is Output
            <==> settled(before[i], reports[i]) is Some) by {
            assert(slot_after(before[i], reports[i], after[i]));
        }
    }
}

/// A join completes only once every slot has reported a result, and a slot
/// that had already completed is never driven again.
pub proof fn lemma_join_atomicity<F, O, E>(
    before: Seq<FutStatus<F, O>>,
    reports: Seq<Report<O>>,
    r: Step<Vec<O>, E>,
    after: Seq<FutStatus<F, O>>,
)
    requires
        join_pass(before, reports, r, after),
    ensures
        r is Ready ==> forall|i: int| 0 <= i < before.len()
            ==> #[trigger] before[i] is Output || reports[i] is Ready,
        forall|i: int| 0 <= i < before.len() && #[trigger] before[i] is Output ==> reports[i] is Unpolled,
{
    if r is Ready {
        assert forall|i: int| 0 <= i < before.len() implies #[trigger] before[i] is Output || reports[i] is Ready by {
            assert(settled(before[i], reports[i]) is Some);
        }
    }
}

/// A result is moved out of its slot once: the pass that hands back the
/// results leaves every slot spent, so no slot holds a result to move out
/// again, and the engine cannot be resumed.
pub proof fn lemma_join_extracts_once<F, O>(j: Joiner<F, O>)
    requires
        j.is_spent(),
    ensures
        forall|i: int| 0 <= i < j.slots().len() ==> !(#[trigger] j.slots()[i] is Output),
        !j.is_live(),
{
    assert(j.slots()[0] is Empty);
}

/// Turns a group of tasks into a join engine.
pub trait Join<F, O>: Sized {
    /// The tasks, in slot order.
    spec fn tasks_to_join(&self) -> Seq<F>;

    /// Wraps each task, in order, as a suspended slot.
    fn join(self) -> (r: Joiner<F, O>)
        requires
            1 <= self.tasks_to_join().len() <= 12,
        ensures
            r.is_live(),
            r.slots().len() == self.tasks_to_join().len(),
            forall|i: int| 0 <= i < self.tasks_to_join().len()
                ==> #[trigger] r.slots()[i] == FutStatus::<F, O>::Future(self.tasks_to_join()[i]),
    ;
}

impl<F, O> Join<F, O> for Vec<F> {
    open spec fn tasks_to_join(&self) -> Seq<F> {
        self@
    }

    fn join(self) -> (r: Joiner<F, O>) {
        let mut tasks = self;
        let ghost all = tasks@;
        let n = tasks.len();
        let mut slots: Vec<FutStatus<F, O>> = Vec::new();
        while tasks.len() > 0
            invariant
                all.len() == n,
                tasks@.len() + slots@.len() == n,
                forall|i: int| 0 <= i < tasks@.len() ==> #[trigger] tasks@[i] == all[slots@.len() + i],
                forall|i: int| 0 <= i < slots@.len()
                    ==> #[trigger] slots@[i] == FutStatus::<F, O>::Future(all[i]),
            decreases tasks@.len(),
        {
            let f = tasks.remove(0);
            slots.push(FutStatus::Future(f));
        }
        Joiner { slots, reports: Ghost(Seq::new(n as nat, |_i: int| Report::Unpolled)) }
    }
}

/// The join engine: one slot per task, in the order the tasks were given.
pub struct Joiner<F, O> {
    slots: Vec<FutStatus<F, O>>,
    reports: Ghost<Seq<Report<O>>>,
}

impl<F, O> Joiner<F, O> {
    /// The slots, in task order.
    pub closed spec fn slots(&self) -> Seq<FutStatus<F, O>> {
        self.slots@
    }

    /// What each slot reported during the most recent resumption.
    pub closed spec fn reports(&self) -> Seq<Report<O>> {
        self.reports@
    }

    /// Between one and twelve slots, none of them spent: the join can be resumed.
    pub open spec fn is_live(&self) -> bool {
        &&& 1 <= self.slots().len() <= 12
        &&& forall|i: int| 0 <= i < self.slots().len() ==> !(#[trigger] self.slots()[i] is Empty)
    }

    /// Between one and twelve slots, all of them spent: the join has completed.
    pub open spec fn is_spent(&self) -> bool {
        &&& 1 <= self.slots().len() <= 12
        &&& forall|i: int| 0 <= i < self.slots().len() ==> #[trigger] self.slots()[i] is Empty
    }

    /// Whether the join has already handed out its results.
    pub fn is_terminated(&self) -> (r: bool)
        requires
            self.is_live() || self.is_spent(),
        ensures
            r == self.is_spent(),
    {
        matches!(self.slots[0], FutStatus::Empty)
    }

    /// One resumption: drives every suspended slot once, in slot order, and
    /// completes with all results once every slot holds one. A failing slot
    /// ends the resumption at once with its failure.
    #[verifier::loop_isolation(false)]
    pub fn poll<C>(&mut self, cx: &mut C) -> (r: Step<Vec<O>, F::Error>)
        where
            F: Task<C, Output = O>,
        requires
            old(self).is_live(),
        ensures
            join_pass(old(self).slots(), final(self).reports(), r, final(self).slots()),
            r is Ready ==> final(self).is_spent(),
            !(r is Ready) ==> final(self).is_live(),
    {
        let n = self.slots.len();
        let ghost before = self.slots@;
        let mut all_done = true;
        let ghost mut reports: Seq<Report<O>> = Seq::empty();
        let mut i: usize = 0;
        while i < n
            invariant
                n == before.len(),
                1 <= n <= 12,
                self.slots@.len() == n,
                i <= n,
                reports.len() == i,
                forall|j: int| 0 <= j < n ==> !(#[trigger] before[j] is Empty),
                forall|j: int| i <= j < n ==> #[trigger] self.slots@[j] == before[j],
                forall|j: int| 0 <= j < i ==> slot_after(before[j], reports[j], #[trigger] self.slots@[j]),
                forall|j: int| 0 <= j < i ==> !(#[trigger] reports[j] is Failed),
                forall|j: int| 0 <= j < i && #[trigger] before[j] is Output ==> reports[j] is Unpolled,
                forall|j: int| 0 <= j < i && before[j] is Future ==> !(#[trigger] reports[j] is Unpolled),
                all_done == forall|j: int| 0 <= j < i ==> #[trigger] settled(before[j], reports[j]) is Some,
            decreases n - i,
        {
            let progressed = self.slots[i].progress(cx);
            match progressed {
                Ok(done) => {
                    proof {
                        let rep = if before[i as int] is Output {
                            Report::Unpolled
                        } else if done {
                            Report::Ready(self.slots@[i as int]->Output_0)
                        } else {
                            Report::Pending
                        };
                        let old_reports = reports;
                        reports = reports.push(rep);
                        assert forall|j: int| 0 <= j < i implies #[trigger] reports[j] == old_reports[j] by {}
                        assert((settled(before[i as int], reports[i as int]) is Some) == done);
                        if done && all_done {
                            assert forall|j: int| 0 <= j < i + 1 implies #[trigger] settled(before[j], reports[j]) is Some by {
                                if j < i {
                                    assert(settled(before[j], old_reports[j]) is Some);
                                }
                            }
                        }
                        if !all_done {
                            let w = choose|j: int| 0 <= j < i && !(#[trigger] settled(before[j], old_reports[j]) is Some);
                            assert(reports[w] == old_reports[w]);
                        }
                    }
                    if !done {
                        all_done = false;
                    }
                },
                Err(e) => {
                    proof {
                        let old_reports = reports;
                        reports = reports.push(Report::Failed) + Seq::new(
                            (n - i - 1) as nat,
                            |_j: int| Report::Unpolled,
                        );
                        assert(reports[i as int] is Failed);
                        assert forall|j: int| 0 <= j < i implies #[trigger] reports[j] == old_reports[j] by {}
                        assert forall|j: int| i < j < n implies #[trigger] reports[j] is Unpolled by {}
                    }
                    self.reports = Ghost(reports);
                    return Step::Failed(e);
                },
            }
            i = i + 1;
        }
        self.reports = Ghost(reports);
        if !all_done {
            return Step::Pending;
        }
        let ghost mid = self.slots@;
        let mut out: Vec<O> = Vec::new();
        let mut k: usize = 0;
        while k < n
            invariant
                n == before.len(),
                self.slots@.len() == n,
                k <= n,
                out@.len() == k,
                reports == self.reports@,
                reports.len() == n,
                mid.len() == n,
                forall|j: int| 0 <= j < n ==> slot_after(before[j], reports[j], #[trigger] mid[j]),
                forall|j: int| 0 <= j < n ==> #[trigger] settled(before[j], reports[j]) is Some,
                forall|j: int| 0 <= j < n && #[trigger] before[j] is Output ==> reports[j] is Unpolled,
                forall|j: int| k <= j < n ==> #[trigger] self.slots@[j] == mid[j],
                forall|j: int| 0 <= j < k ==> #[trigger] self.slots@[j] is Empty,
                forall|j: int| 0 <= j < k ==> #[trigger] out@[j] == settled(before[j], reports[j])->Some_0,
            decreases n - k,
        {
            assert(settled(before[k as int], reports[k as int]) is Some);
            assert(mid[k as int] is Output);
            let o = self.slots[k].take_output();
            out.push(o);
            k = k + 1;
        }
        Step::Ready(out)
    }
}

} // verus!
