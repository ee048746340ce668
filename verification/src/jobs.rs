//! The jobs in the background.

use crate::dialog;
use crate::dialog::{Request, RequestView, Talk, TalkView};
use vstd::prelude::*;

verus! {

/// A job: its process and its command.
#[derive(Debug, Clone, PartialEq, Eq)]
pub struct Job {
    pub pid: u32,
    pub command: String,
}

/// A job.
pub struct JobView {
    pub pid: u32,
    pub command: Seq<char>,
}

impl View for Job {
    type V = JobView;

    open spec fn view(&self) -> JobView {
        JobView { pid: self.pid, command: self.command@ }
    }
}

/// What the jobs of a list are.
pub open spec fn job_views(list: Seq<Job>) -> Seq<JobView> {
    Seq::new(list.len(), |i: int| list[i]@)
}

/// The jobs that the shell knows of, in the order of their start.
#[derive(Debug, Clone, PartialEq, Eq)]
pub struct Jobs {
    pub all: Vec<Job>,
}

impl View for Jobs {
    type V = Seq<JobView>;

    open spec fn view(&self) -> Seq<JobView> {
        job_views(self.all@)
    }
}

impl Default for Jobs {
    fn default() -> (r: Jobs)
        ensures
            r@ == Seq::<JobView>::empty(),
    {
        let r = Jobs { all: Vec::new() };
        assert(r@ =~= Seq::<JobView>::empty());
        r
    }
}

/// The first `n` jobs that still run.
pub open spec fn running(jobs: Seq<JobView>, n: int, t: TalkView) -> (Seq<JobView>, TalkView)
    decreases n,
{
    if n <= 0 {
        (Seq::empty(), t)
    } else {
        let (before, t1) = running(jobs, n - 1, t);
        let (a, t2) = dialog::asked(t1, RequestView::StillRuns(jobs[n - 1].pid));
        (
            if a.as_truth() {
                before.push(jobs[n - 1])
            } else {
                before
            },
            t2,
        )
    }
}

/// The exchange after the first `n` jobs were waited for.
pub open spec fn awaited(jobs: Seq<JobView>, n: int, t: TalkView) -> TalkView
    decreases n,
{
    if n <= 0 {
        t
    } else {
        dialog::asked(
            awaited(jobs, n - 1, t),
            RequestView::AwaitProcess(jobs[n - 1].pid),
        ).1
    }
}

/// The first `n` jobs without those of some processes; without all where no
/// process is named.
pub open spec fn kept(jobs: Seq<JobView>, n: int, pids: Seq<u32>) -> Seq<JobView>
    decreases n,
{
    if n <= 0 || pids.len() == 0 {
        Seq::empty()
    } else if pids.contains(jobs[n - 1].pid) {
        kept(jobs, n - 1, pids)
    } else {
        kept(jobs, n - 1, pids).push(jobs[n - 1])
    }
}

/// What the pairs of a list are.
pub open spec fn pair_views(list: Seq<(u32, String)>) -> Seq<JobView> {
    Seq::new(list.len(), |i: int| JobView { pid: list[i].0, command: list[i].1@ })
}

fn holds(pids: &[u32], pid: u32) -> (r: bool)
    ensures
        r == pids@.contains(pid),
{
    let mut i: usize = 0;
    while i < pids.len()
        invariant
            i <= pids@.len(),
            forall|k: int| 0 <= k < i ==> pids@[k] != pid,
        decreases pids@.len() - i,
    {
        if pids[i] == pid {
            assert(pids@[i as int] == pid);
            return true;
        }
        i = i + 1;
    }
    false
}

fn copy_job(j: &Job) -> (r: Job)
    ensures
        r@ == j@,
{
    Job { pid: j.pid, command: j.command.clone() }
}

/// Records a job that was started.
pub fn register(jobs: &mut Jobs, pid: u32, command: String)
    ensures
        final(jobs)@ == old(jobs)@.push(JobView { pid, command: command@ }),
{
    let ghost before = jobs@;
    let j = Job { pid, command };
    jobs.all.push(j);
    assert(jobs@ =~= before.push(j@));
}

/// The jobs that still run; the others are forgotten.
pub fn list(jobs: &mut Jobs, talk: &mut Talk) -> (r: Vec<(u32, String)>)
    ensures
        (final(jobs)@, final(talk)@) == running(
            old(jobs)@,
            old(jobs)@.len() as int,
            old(talk)@,
        ),
        pair_views(r@) == final(jobs)@,
{
    let ghost all = jobs@;
    let ghost start = talk@;
    let mut left: Vec<Job> = Vec::new();
    let mut out: Vec<(u32, String)> = Vec::new();
    let mut i: usize = 0;
    assert(job_views(left@) =~= Seq::<JobView>::empty());
    assert(pair_views(out@) =~= job_views(left@));
    while i < jobs.all.len()
        invariant
            i <= jobs.all@.len(),
            all == job_views(jobs.all@),
            all == old(jobs)@,
            start == old(talk)@,
            (job_views(left@), talk@) == running(all, i as int, start),
            pair_views(out@) == job_views(left@),
        decreases jobs.all@.len() - i,
    {
        let j = copy_job(&jobs.all[i]);
        assert(all[i as int] == j@);
        let ghost before = left@;
        let ghost pairs = out@;
        if talk.ask(Request::StillRuns(j.pid)).truth() {
            let pair = (j.pid, j.command.clone());
            left.push(j);
            out.push(pair);
            assert(job_views(left@) =~= job_views(before).push(j@));
            assert(pair_views(out@) =~= pair_views(pairs).push(j@));
        }
        i = i + 1;
    }
    assert(all.len() == jobs.all@.len());
    jobs.all = left;
    out
}

/// Waits for all jobs; none is left.
pub fn wait_all(jobs: &mut Jobs, talk: &mut Talk)
    ensures
        final(jobs)@.len() == 0,
        final(talk)@ == awaited(old(jobs)@, old(jobs)@.len() as int, old(talk)@),
{
    let ghost all = jobs@;
    let ghost start = talk@;
    let mut i: usize = 0;
    while i < jobs.all.len()
        invariant
            i <= jobs.all@.len(),
            all == job_views(jobs.all@),
            all == old(jobs)@,
            start == old(talk)@,
            talk@ == awaited(all, i as int, start),
        decreases jobs.all@.len() - i,
    {
        assert(all[i as int] == jobs.all@[i as int]@);
        let _ended = talk.ask(Request::AwaitProcess(jobs.all[i].pid));
        i = i + 1;
    }
    assert(all.len() == jobs.all@.len());
    jobs.all = Vec::new();
}

/// Forgets the jobs of some processes, or all of them where none is named;
/// how many were forgotten.
pub fn disown(jobs: &mut Jobs, pids: &[u32]) -> (r: usize)
    ensures
        final(jobs)@ == kept(old(jobs)@, old(jobs)@.len() as int, pids@),
        r == old(jobs)@.len() - final(jobs)@.len(),
{
    let ghost all = jobs@;
    let before = jobs.all.len();
    assert(all.len() == before);
    let mut left: Vec<Job> = Vec::new();
    assert(job_views(left@) =~= Seq::<JobView>::empty());
    if pids.len() == 0 {
        jobs.all = left;
        return before;
    }
    let mut i: usize = 0;
    while i < jobs.all.len()
        invariant
            i <= jobs.all@.len(),
            pids@.len() > 0,
            all == job_views(jobs.all@),
            all == old(jobs)@,
            left@.len() <= i,
            job_views(left@) == kept(all, i as int, pids@),
        decreases jobs.all@.len() - i,
    {
        let j = copy_job(&jobs.all[i]);
        assert(all[i as int] == j@);
        let ghost so_far = left@;
        if !holds(pids, j.pid) {
            left.push(j);
            assert(job_views(left@) =~= job_views(so_far).push(j@));
        }
        i = i + 1;
    }
    let n = before - left.len();
    assert(job_views(left@).len() == left@.len());
    jobs.all = left;
    n
}

proof fn lemma_kept(jobs: Seq<JobView>, n: int, pids: Seq<u32>, i: int)
    requires
        0 <= n <= jobs.len(),
        0 <= i < kept(jobs, n, pids).len(),
    ensures
        !pids.contains(kept(jobs, n, pids)[i].pid),
        jobs.contains(kept(jobs, n, pids)[i]),
    decreases n,
{
    if n > 0 && pids.len() > 0 {
        let before = kept(jobs, n - 1, pids);
        if pids.contains(jobs[n - 1].pid) || i < before.len() {
            lemma_kept(jobs, n - 1, pids, i);
        } else {
            assert(jobs[n - 1] == kept(jobs, n, pids)[i]);
        }
    }
}

/// A job that was disowned is not known any more, and no other job appears.
pub proof fn law_disowned_jobs_are_gone(jobs: Seq<JobView>, pids: Seq<u32>, i: int)
    requires
        0 <= i < kept(jobs, jobs.len() as int, pids).len(),
    ensures
        !pids.contains(kept(jobs, jobs.len() as int, pids)[i].pid),
        jobs.contains(kept(jobs, jobs.len() as int, pids)[i]),
{
    lemma_kept(jobs, jobs.len() as int, pids, i);
}

/// Disowning no job in particular disowns them all.
pub proof fn law_bare_disown_forgets_all(jobs: Seq<JobView>)
    ensures
        kept(jobs, jobs.len() as int, Seq::empty()).len() == 0,
{
}

/// The jobs that are known to run are those that are answered to: one more job
/// is asked about once, and stays exactly where it still runs.
pub proof fn law_running_jobs_are_asked_about(jobs: Seq<JobView>, job: JobView, t: TalkView)
    ensures
        ({
            let n = jobs.len() as int;
            let (before, t1) = running(jobs, n, t);
            let (a, t2) = dialog::asked(t1, RequestView::StillRuns(job.pid));
            running(jobs.push(job), n + 1, t) == if a.as_truth() {
                (before.push(job), t2)
            } else {
                (before, t2)
            }
        }),
        running(Seq::empty(), 0, t) == (Seq::<JobView>::empty(), t),
{
    lemma_running(jobs, job, jobs.len() as int, t);
    assert(jobs.push(job)[jobs.len() as int] == job);
}

proof fn lemma_running(jobs: Seq<JobView>, job: JobView, n: int, t: TalkView)
    requires
        n <= jobs.len(),
    ensures
        running(jobs.push(job), n, t) == running(jobs, n, t),
        awaited(jobs.push(job), n, t) == awaited(jobs, n, t),
    decreases n,
{
    if n > 0 {
        lemma_running(jobs, job, n - 1, t);
        assert(jobs.push(job)[n - 1] == jobs[n - 1]);
    }
}

/// Waiting waits for every job, one after the other.
pub proof fn law_every_job_is_awaited(jobs: Seq<JobView>, job: JobView, t: TalkView)
    ensures
        awaited(jobs.push(job), jobs.len() as int + 1, t) == dialog::asked(
            awaited(jobs, jobs.len() as int, t),
            RequestView::AwaitProcess(job.pid),
        ).1,
        awaited(Seq::empty(), 0, t) == t,
{
    lemma_running(jobs, job, jobs.len() as int, t);
    assert(jobs.push(job)[jobs.len() as int] == job);
}

/// A job whose process is not named stays known, where some are named.
pub proof fn law_other_jobs_stay(jobs: Seq<JobView>, n: int, pids: Seq<u32>, k: int)
    requires
        0 <= k < n <= jobs.len(),
        pids.len() > 0,
        !pids.contains(jobs[k].pid),
    ensures
        kept(jobs, n, pids).contains(jobs[k]),
    decreases n,
{
    let before = kept(jobs, n - 1, pids);
    let list = kept(jobs, n, pids);
    if k == n - 1 {
        assert(list[before.len() as int] == jobs[k]);
    } else {
        law_other_jobs_stay(jobs, n - 1, pids, k);
        let m = choose|m: int| 0 <= m < before.len() && before[m] == jobs[k];
        assert(list[m] == jobs[k]);
    }
}

} // verus!
