use ion_win::dialog::{Answer, Request, Talk};
use ion_win::job_object::{ClosePolicy, JobAccounting};
use ion_win::startup::{adjust_interactive_startup_dir, is_windows_default, state_db_path};

/// Runs something until every request that it makes is answered.
#[allow(dead_code)]
fn run<R>(mut reply: impl FnMut(&Request) -> Answer, mut work: impl FnMut(&mut Talk) -> R) -> (R, Vec<String>) {
    let mut answers: Vec<Answer> = Vec::new();
    loop {
        let mut talk = Talk::open(answers.clone());
        let result = work(&mut talk);
        match talk.pending {
            None => return (result, talk.notes.into_iter().map(|note| note.text).collect()),
            Some(request) => answers.push(reply(&request)),
        }
    }
}

fn started(args: &[&str], cwd: &str, own: bool) -> Vec<String> {
    let args: Vec<String> = args.iter().map(|s| s.to_string()).collect();
    let mut entered = Vec::new();
    run(
        |request| match request {
            Request::OnWindows => Answer::Truth(true),
            Request::OwnConsole => Answer::Truth(own),
            Request::WorkingDirectory => Answer::Text(cwd.to_string()),
            Request::Canonical(p) => Answer::Text(p.clone()),
            Request::Environment(_) => Answer::Text("C:\\Windows".to_string()),
            Request::ShellFile => Answer::Text("C:\\Tools\\ion-win.exe".to_string()),
            Request::EnterDirectory(p) => {
                entered.push(p.clone());
                Answer::Truth(true)
            },
            _ => Answer::Missing,
        },
        |talk| adjust_interactive_startup_dir(&args, talk),
    );
    entered
}

#[test]
fn a_default_directory_is_left() {
    assert_eq!(started(&["ion-win.exe"], "C:\\Windows\\System32", true), ["C:\\Tools"]);
    assert!(started(&["ion-win.exe"], "C:\\Users\\Bob", true).is_empty());
    assert!(started(&["ion-win.exe"], "C:\\Windows", false).is_empty());
    assert!(started(&["ion-win.exe", "script.ion"], "C:\\Windows", true).is_empty());
}

#[test]
fn default_directories_are_known() {
    assert!(is_windows_default("C:\\Windows", "C:\\Windows"));
    assert!(is_windows_default("C:\\Windows\\SysWOW64", "C:\\Windows"));
    assert!(!is_windows_default("C:\\Windows\\Temp", "C:\\Windows"));
}

#[test]
fn the_state_lies_with_the_applications() {
    let (r, _) = run(|_| Answer::Text("C:\\Data".to_string()), state_db_path);
    assert_eq!(r, "C:\\Data\\ion-win\\state.redb");
    let (r, _) = run(|_| Answer::Missing, |talk| state_db_path(talk));
    assert!(r.is_empty() || r == "ion-win-state.redb");
}

#[test]
fn only_one_policy_sets_a_limit() {
    assert_eq!(ClosePolicy::PreserveProcesses.limit_flags(), None);
    assert_eq!(ClosePolicy::TerminateProcesses.limit_flags(), Some(0x2000));
    assert_eq!(JobAccounting::default().active_processes, 0);
}
