//! What an interrupt by the user does.
//!
//! A flag tells loops that run no program to stop. The programs in the
//! foreground are signalled, and terminated where they do not end in time.

use crate::execution::ExecutionId;
use vstd::prelude::*;

verus! {

/// Whether the user asked to interrupt.
#[derive(Debug, Clone, Copy, PartialEq, Eq, Structural)]
pub struct Interrupts {
    pub requested: bool,
}

impl Default for Interrupts {
    fn default() -> (r: Interrupts)
        ensures
            !r.requested,
    {
        Interrupts { requested: false }
    }
}

/// The executions that are to end, and their processes.
#[derive(Debug, Clone, PartialEq, Eq)]
pub struct Cancellation {
    pub process_ids: Vec<u32>,
    pub execution_ids: Vec<ExecutionId>,
}

/// What is to be done to make executions end.
#[derive(Debug, Clone, PartialEq, Eq)]
pub enum CancelStep {
    /// Signals a process.
    Signal(u32),
    /// Terminates what is left of some executions after some milliseconds.
    TerminateAfter(u64, Vec<ExecutionId>),
}

/// What is to be done to make executions end.
pub enum CancelStepView {
    Signal(u32),
    TerminateAfter(u64, Seq<ExecutionId>),
}

impl View for CancelStep {
    type V = CancelStepView;

    open spec fn view(&self) -> CancelStepView {
        match self {
            CancelStep::Signal(pid) => CancelStepView::Signal(*pid),
            CancelStep::TerminateAfter(n, ids) => CancelStepView::TerminateAfter(*n, ids@),
        }
    }
}

/// What the steps of a list are.
pub open spec fn step_views(list: Seq<CancelStep>) -> Seq<CancelStepView> {
    Seq::new(list.len(), |i: int| list[i]@)
}

/// A signal to each process.
pub open spec fn signals(pids: Seq<u32>) -> Seq<CancelStepView> {
    Seq::new(pids.len(), |i: int| CancelStepView::Signal(pids[i]))
}

/// The steps that make executions end: every process is signalled, and after
/// a time of grace what is left is terminated.
pub open spec fn cancel_steps(pids: Seq<u32>, ids: Seq<ExecutionId>) -> Seq<CancelStepView> {
    if ids.len() == 0 {
        signals(pids)
    } else {
        signals(pids).push(CancelStepView::TerminateAfter(750, ids))
    }
}

fn plan_steps(c: Cancellation) -> (r: Vec<CancelStep>)
    ensures
        step_views(r@) == cancel_steps(c.process_ids@, c.execution_ids@),
{
    let pids = c.process_ids;
    let ids = c.execution_ids;
    let mut out: Vec<CancelStep> = Vec::new();
    let mut i: usize = 0;
    assert(step_views(out@) =~= signals(pids@).take(0));
    while i < pids.len()
        invariant
            i <= pids@.len(),
            step_views(out@) == signals(pids@).take(i as int),
        decreases pids@.len() - i,
    {
        let ghost before = out@;
        let step = CancelStep::Signal(pids[i]);
        out.push(step);
        proof {
            assert(step_views(out@) =~= step_views(before).push(step@));
            assert(signals(pids@).take(i + 1) =~= signals(pids@).take(i as int).push(step@));
        }
        i = i + 1;
    }
    assert(signals(pids@).take(pids@.len() as int) =~= signals(pids@));
    if ids.len() > 0 {
        let ghost before = out@;
        let step = CancelStep::TerminateAfter(750, ids);
        out.push(step);
        assert(step_views(out@) =~= step_views(before).push(step@));
    }
    out
}

/// Sets the flag, and says how the executions in the foreground are ended.
pub fn request_interrupt(flag: &mut Interrupts, foreground: Cancellation) -> (r: Vec<CancelStep>)
    ensures
        final(flag).requested,
        step_views(r@) == cancel_steps(foreground.process_ids@, foreground.execution_ids@),
{
    flag.requested = true;
    plan_steps(foreground)
}

/// Says how one execution is ended; the flag is left alone.
pub fn cancel_execution(found: Result<Cancellation, String>) -> (r: Result<
    Vec<CancelStep>,
    String,
>)
    ensures
        match (found, r) {
            (Ok(c), Ok(steps)) => step_views(steps@) == cancel_steps(
                c.process_ids@,
                c.execution_ids@,
            ),
            (Err(e), Err(e2)) => e2 == e,
            _ => false,
        },
{
    match found {
        Ok(c) => Ok(plan_steps(c)),
        Err(e) => Err(e),
    }
}

/// Tells whether the user asked to interrupt, and takes the request back.
pub fn take_interrupt(flag: &mut Interrupts) -> (r: bool)
    ensures
        r == old(flag).requested,
        !final(flag).requested,
{
    let r = flag.requested;
    flag.requested = false;
    r
}

/// Tells whether the user asked to interrupt.
pub fn interrupt_requested(flag: &Interrupts) -> (r: bool)
    ensures
        r == flag.requested,
{
    flag.requested
}

/// Every process is signalled, in order, and before anything is terminated.
pub proof fn law_signals_come_first(pids: Seq<u32>, ids: Seq<ExecutionId>, i: int)
    requires
        0 <= i < pids.len(),
    ensures
        cancel_steps(pids, ids)[i] == CancelStepView::Signal(pids[i]),
{
}

/// What is left is terminated after the signals, and only where there is
/// something to terminate; nothing else is done.
pub proof fn law_termination_comes_last(pids: Seq<u32>, ids: Seq<ExecutionId>)
    ensures
        ids.len() == 0 ==> cancel_steps(pids, ids).len() == pids.len(),
        ids.len() > 0 ==> cancel_steps(pids, ids).len() == pids.len() + 1 && (cancel_steps(
            pids,
            ids,
        ).last() matches CancelStepView::TerminateAfter(grace, left) && grace > 0 && left == ids),
{
}

} // verus!
