use ion_win::dialog::{Answer, Request, Talk};
use ion_win::elevate;
use ion_win::elevate::{is_elevated, parameter_string, parse_options, quote_argument, Options, Outcome};

/// Runs something until every request that it makes is answered.
#[allow(dead_code)]
fn run<R>(mut reply: impl FnMut(&Request) -> Answer, mut work: impl FnMut(&mut Talk) -> R) -> (R, Vec<String>) {
    let mut answers: Vec<Answer> = Vec::new();
    loop {
        let mut talk = Talk::open(answers.clone());
        let result = work(&mut talk);
        match talk.pending {
            None => return (result, talk.notes.into_iter().map(|note| note.text).collect()),
            Some(request) => answers.push(reply(&request)),
        }
    }
}

fn strings(values: &[&str]) -> Vec<String> {
    values.iter().map(|value| (*value).to_string()).collect()
}

#[test]
fn parses_options_only_before_the_program() {
    assert_eq!(
        parse_options(&strings(&[
            "--wait", "--cwd", "C:\\Work", "tool.exe", "--quiet"
        ]))
        .unwrap(),
        Options {
            wait: true,
            cwd: Some("C:\\Work".to_string()),
            program: "tool.exe".to_string(),
            arguments: strings(&["--quiet"]),
        }
    );
}

#[test]
fn option_terminator_allows_a_dash_prefixed_program() {
    assert_eq!(
        parse_options(&strings(&["--", "-tool"])).unwrap().program,
        "-tool"
    );
}

#[test]
fn rejects_missing_values_and_program() {
    assert!(parse_options(&strings(&["--cwd"])).is_err());
    assert!(parse_options(&strings(&["--wait"])).is_err());
    assert!(parse_options(&strings(&["--unknown", "tool.exe"])).is_err());
}

#[test]
fn quotes_windows_arguments_without_changing_boundaries() {
    assert_eq!(quote_argument("plain"), "plain");
    assert_eq!(quote_argument(""), "\"\"");
    assert_eq!(quote_argument("two words"), "\"two words\"");
    assert_eq!(quote_argument("say\"hello"), "\"say\\\"hello\"");
    assert_eq!(
        quote_argument("C:\\path with space\\"),
        "\"C:\\path with space\\\\\""
    );
}

#[test]
fn wait_outcome_reflects_the_child_exit_code() {
    assert!(Outcome::Launched.success());
    assert!(Outcome::Exited(0).success());
    assert!(!Outcome::Exited(5).success());
}

#[test]
fn current_token_elevation_can_be_inspected_without_prompting() {
    let (r, _) = run(
        |request| match request {
            Request::OnWindows => Answer::Truth(true),
            Request::Elevation => Answer::Truth(false),
            other => panic!("{other:?}"),
        },
        is_elevated,
    );
    assert!(r.is_ok());
}

#[test]
fn elevation_is_for_windows() {
    let (r, _) = run(|_| Answer::Truth(false), |talk| elevate::run(&strings(&["tool.exe"]), talk));
    assert_eq!(r, Err("elevation is only available on Windows".to_string()));
    let (r, _) = run(|_| Answer::Truth(false), is_elevated);
    assert_eq!(r, Err("elevation status is only available on Windows".to_string()));
}

fn launch(args: &[&str], reply: fn(&Request) -> Answer) -> (Result<Outcome, String>, Vec<String>) {
    let mut seen: Vec<String> = Vec::new();
    let (r, _) = run(
        |request| {
            seen.push(format!("{request:?}"));
            reply(request)
        },
        |talk| elevate::run(&strings(args), talk),
    );
    (r, seen)
}

#[test]
fn a_program_is_launched_with_its_quoted_arguments() {
    let (r, seen) = launch(&["--wait", "tool.exe", "a b", "c"], |request| match request {
        Request::OnWindows => Answer::Truth(true),
        Request::Elevate(program, parameters, cwd) => {
            assert_eq!(program, "tool.exe");
            assert_eq!(parameters, "\"a b\" c");
            assert_eq!(cwd, &None);
            Answer::Number(9)
        },
        Request::ElevatedExit(9) => Answer::Number(5),
        _ => Answer::Truth(true),
    });
    assert_eq!(r, Ok(Outcome::Exited(5)));
    assert!(seen.last().unwrap().contains("ReleaseElevated(9)"));
}

#[test]
fn what_goes_wrong_is_told_apart() {
    let (r, _) = launch(&["tool.exe"], |request| match request {
        Request::OnWindows => Answer::Truth(true),
        _ => Answer::Code(1223, "cancelled".to_string()),
    });
    assert_eq!(r, Err("UAC consent was cancelled".to_string()));
    let (r, _) = launch(&["tool.exe"], |request| match request {
        Request::OnWindows => Answer::Truth(true),
        _ => Answer::Code(5, "denied".to_string()),
    });
    assert_eq!(r, Err("could not start 'tool.exe': denied".to_string()));
    let (r, _) = launch(&["tool.exe"], |request| match request {
        Request::OnWindows => Answer::Truth(true),
        _ => Answer::Truth(true),
    });
    assert!(r.unwrap_err().contains("did not return a process handle"));
    let (r, _) = launch(&["--cwd", "nowhere", "tool.exe"], |request| match request {
        Request::OnWindows => Answer::Truth(true),
        _ => Answer::Truth(false),
    });
    assert_eq!(r, Err("working directory does not exist: nowhere".to_string()));
    let (r, _) = launch(&["--wait", "tool.exe"], |request| match request {
        Request::OnWindows => Answer::Truth(true),
        Request::Elevate(..) => Answer::Number(1),
        Request::AwaitElevated(_) => Answer::Failure("no".to_string()),
        _ => Answer::Truth(true),
    });
    assert_eq!(r, Err("waiting for 'tool.exe' failed".to_string()));
    let (r, _) = launch(&["--wait", "tool.exe"], |request| match request {
        Request::OnWindows => Answer::Truth(true),
        Request::Elevate(..) => Answer::Number(1),
        Request::ElevatedExit(_) => Answer::Failure("lost".to_string()),
        _ => Answer::Truth(true),
    });
    assert_eq!(r, Err("could not read 'tool.exe' exit code: lost".to_string()));
    let (r, _) = launch(&["tool.exe"], |request| match request {
        Request::OnWindows => Answer::Truth(true),
        _ => Answer::Number(1),
    });
    assert_eq!(r, Ok(Outcome::Launched));
}

#[test]
fn a_command_line_joins_quoted_arguments() {
    assert_eq!(parameter_string(&strings(&["x\\", "a\\\"b", ""])), "x\\ \"a\\\\\\\"b\" \"\"");
}
