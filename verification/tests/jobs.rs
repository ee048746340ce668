use ion_win::dialog::{Answer, Request, Talk};
use ion_win::jobs::{disown, list, register, wait_all, Jobs};

/// Runs something until every request that it makes is answered.
#[allow(dead_code)]
fn run<R>(mut reply: impl FnMut(&Request) -> Answer, mut work: impl FnMut(&mut Talk) -> R) -> (R, Vec<String>) {
    let mut answers: Vec<Answer> = Vec::new();
    loop {
        let mut talk = Talk::open(answers.clone());
        let result = work(&mut talk);
        match talk.pending {
            None => return (result, talk.notes.into_iter().map(|note| note.text).collect()),
            Some(request) => answers.push(reply(&request)),
        }
    }
}

fn three() -> Jobs {
    let mut jobs = Jobs::default();
    register(&mut jobs, 1, "one".to_string());
    register(&mut jobs, 2, "two".to_string());
    register(&mut jobs, 3, "three".to_string());
    jobs
}

#[test]
fn ended_jobs_are_forgotten() {
    let jobs = three();
    let ((left, shown), _) = run(
        |request| match request {
            Request::StillRuns(pid) => Answer::Truth(*pid != 2),
            _ => Answer::Missing,
        },
        |talk| {
            let mut jobs = jobs.clone();
            let shown = list(&mut jobs, talk);
            (jobs, shown)
        },
    );
    assert_eq!(shown, [(1, "one".to_string()), (3, "three".to_string())]);
    assert_eq!(left.all.len(), 2);
}

#[test]
fn every_job_is_waited_for() {
    let jobs = three();
    let mut waited = Vec::new();
    let (left, _) = run(
        |request| {
            if let Request::AwaitProcess(pid) = request {
                waited.push(*pid);
            }
            Answer::Truth(true)
        },
        |talk| {
            let mut jobs = jobs.clone();
            wait_all(&mut jobs, talk);
            jobs
        },
    );
    assert_eq!(waited, [1, 2, 3]);
    assert!(left.all.is_empty());
}

#[test]
fn disowned_jobs_are_counted() {
    let mut jobs = three();
    assert_eq!(disown(&mut jobs, &[2, 9]), 1);
    assert_eq!(jobs.all.iter().map(|j| j.pid).collect::<Vec<u32>>(), [1, 3]);
    assert_eq!(disown(&mut jobs, &[]), 2);
    assert!(jobs.all.is_empty());
}
