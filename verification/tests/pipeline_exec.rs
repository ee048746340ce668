use ion_win::dialog::{Answer, FloatCall, Request, StageCall, Talk};
use ion_win::interp::Interpreter;
use ion_win::pipeline::parse;
use ion_win::pipeline_exec;
use ion_win::pipeline_exec::{pipeline_display, run_capturing_table, CapturedStructured};
use ion_win::table::Table;

/// Runs something until every request that it makes is answered.
#[allow(dead_code)]
fn run<R>(mut reply: impl FnMut(&Request) -> Answer, mut work: impl FnMut(&mut Talk) -> R) -> (R, Vec<String>) {
    let mut answers: Vec<Answer> = Vec::new();
    loop {
        let mut talk = Talk::open(answers.clone());
        let result = work(&mut talk);
        match talk.pending {
            None => return (result, talk.notes.into_iter().map(|note| note.text).collect()),
            Some(request) => answers.push(reply(&request)),
        }
    }
}


/// What a line had done: the calls that were made, and what was written.
struct Seen {
    ok: bool,
    calls: Vec<String>,
    written: Vec<(u64, String)>,
    printed: String,
    notes: Vec<String>,
    captured: Option<CapturedStructured>,
    unknown: bool,
}

fn table(rows: &[&[(&str, &str)]]) -> Table {
    Table {
        rows: rows.iter().map(|r| r.iter().map(|(c, v)| (c.to_string(), v.to_string())).collect()).collect(),
    }
}

fn perform(line: &str, capture: bool) -> Seen {
    let pipeline = parse(&Interpreter::tokenize(line));
    let interp = Interpreter::new();
    let mut calls: Vec<String> = Vec::new();
    let mut written: Vec<(u64, String)> = Vec::new();
    let mut printed = String::new();
    let mut next = 0;
    let ((ok, captured, unknown), notes) = run(
        |request| match request {
            Request::Stage(call) => {
                match call {
                    StageCall::Print(s) => printed.push_str(s),
                    StageCall::Write(n, s) => written.push((*n, s.clone())),
                    other => calls.push(format!("{other:?}")),
                }
                match call {
                    StageCall::OpenTarget(path, _) if path == "/denied" => Answer::Failure("denied".to_string()),
                    StageCall::OpenTarget(..) | StageCall::ShareTarget(_) => {
                        next += 1;
                        Answer::Number(next)
                    },
                    StageCall::Launch(program, ..) if program.contains("missing") => Answer::Missing,
                    StageCall::Launch(program, ..) if program.contains("broken") => Answer::Failure("cannot start".to_string()),
                    StageCall::Launch(..) => {
                        next += 1;
                        Answer::Number(next)
                    },
                    StageCall::Drain(_) => Answer::Text("drained".to_string()),
                    StageCall::FromJson(s) | StageCall::FromCsv(s) => {
                        if s.contains("bad") {
                            Answer::Failure("not a table".to_string())
                        } else {
                            Answer::Rows(table(&[&[("name", "a"), ("size", "5")], &[("name", "b"), ("size", "7")]]))
                        }
                    },
                    StageCall::ToJson(t) | StageCall::ToCsv(t) => Answer::Text(format!("{} rows", t.rows.len())),
                    StageCall::SelectColumns(t, _) => Answer::Rows(t.clone()),
                    _ => Answer::Truth(true),
                }
            },
            Request::WorkingDirectory => Answer::Text("/work".to_string()),
            Request::Environment(name) if name == "PATHEXT" => Answer::Text(".exe".to_string()),
            Request::IsFile(path) => Answer::Truth(!path.contains("absent")),
            Request::ReadText(path) if path == "f" => Answer::Text("text of f".to_string()),
            Request::ReadText(_) => Answer::Failure("no such file".to_string()),
            Request::Float(FloatCall::Parse(s)) => match s.parse::<f64>() {
                Ok(x) => Answer::Number(x.to_bits()),
                Err(_) => Answer::Missing,
            },
            _ => Answer::Truth(true),
        },
        |talk| {
            let mut own = interp.copy();
            let (ok, captured) = if capture {
                run_capturing_table(&pipeline, &mut own, talk)
            } else {
                (pipeline_exec::run(&pipeline, &mut own, talk), None)
            };
            let unknown = own.take_command_not_found();
            (ok, captured, unknown)
        },
    );
    Seen { ok, calls, written, printed, notes, captured, unknown }
}

fn launches(seen: &Seen) -> Vec<&String> {
    seen.calls.iter().filter(|c| c.starts_with("Launch")).collect()
}

#[test]
fn words_are_written_to_a_file() {
    let seen = perform("echo hello world > out", false);
    assert!(seen.ok);
    assert_eq!(seen.written, [(1, "hello world\n".to_string())]);
    assert!(seen.calls.iter().any(|c| c.contains("OpenTarget(\"out\", false)")), "{:?}", seen.calls);
    assert!(launches(&seen).is_empty());
    let seen = perform("echo -n hello >> out", false);
    assert_eq!(seen.written, [(1, "hello".to_string())]);
    assert!(seen.calls.iter().any(|c| c.contains("OpenTarget(\"out\", true)")), "{:?}", seen.calls);
}

#[test]
fn words_feed_a_program() {
    let seen = perform("echo hello | sort -r", false);
    assert!(seen.ok);
    let started = launches(&seen);
    assert_eq!(started.len(), 1);
    assert!(started[0].contains("\"/work/sort.exe\", [\"-r\"], Text(\"hello\\n\")"), "{started:?}");
    assert!(seen.calls.iter().any(|c| c == "Wait"));
}

#[test]
fn programs_feed_each_other() {
    let seen = perform("first | second", false);
    let started = launches(&seen);
    assert_eq!(started.len(), 2);
    assert!(started[0].contains("Inherit, Pipe"), "{started:?}");
    assert!(started[1].contains("Output(1)"), "{started:?}");
    let seen = perform("first ^| second", false);
    assert!(launches(&seen)[1].contains("Errors(1)"), "{:?}", seen.calls);
    let seen = perform("first &| second", false);
    assert!(launches(&seen)[1].contains("Both(1)"), "{:?}", seen.calls);
}

#[test]
fn a_missing_program_fails_the_line() {
    let seen = perform("missing | second", false);
    assert!(!seen.ok);
    assert!(seen.notes.iter().any(|n| n.contains("missing")), "{:?}", seen.notes);
    assert!(seen.unknown);
    let seen = perform("absent | second", false);
    assert!(!seen.ok && launches(&seen).is_empty());
    assert!(seen.unknown);
    assert!(perform("absent | from-json", true).unknown);
    let seen = perform("broken | second", false);
    assert!(!seen.ok && !seen.unknown);
    assert!(seen.notes.iter().any(|n| n.contains("cannot start")), "{:?}", seen.notes);
}

#[test]
fn a_file_that_cannot_be_opened_fails_the_line() {
    let seen = perform("echo x > /denied", false);
    assert!(!seen.ok);
    assert!(seen.written.is_empty());
    assert!(seen.notes.iter().any(|n| n.contains("denied")), "{:?}", seen.notes);
}

#[test]
fn a_file_becomes_a_table() {
    let seen = perform("cat f | from-json", true);
    assert!(seen.ok, "{:?}", seen.notes);
    match seen.captured {
        Some(CapturedStructured::Table(t)) => assert_eq!(t.rows.len(), 2),
        other => panic!("{other:?}"),
    }
    let seen = perform("cat f | from-json | to-json > out", false);
    assert!(seen.ok, "{:?}", seen.notes);
    assert_eq!(seen.written.len(), 1);
    assert!(seen.written[0].1.contains("2 rows"));
}

#[test]
fn rows_are_filtered() {
    let seen = perform("cat f | from-json | where size -gt 6", true);
    match seen.captured {
        Some(CapturedStructured::Table(t)) => {
            assert_eq!(t, table(&[&[("name", "b"), ("size", "7")]]));
        },
        other => panic!("{other:?} {:?}", seen.notes),
    }
}

#[test]
fn text_that_is_no_table_is_refused() {
    let seen = perform("echo bad | from-json", true);
    assert!(!seen.ok);
    assert!(seen.captured.is_none());
    assert!(seen.notes.iter().any(|n| n.contains("not a table")), "{:?}", seen.notes);
}

#[test]
fn a_missing_file_stops_the_line() {
    let seen = perform("cat nothing | second", false);
    assert!(!seen.ok);
    assert!(launches(&seen).is_empty());
}

#[test]
fn a_pipeline_in_the_background_is_handed_over() {
    let seen = perform("first | second &", false);
    assert!(seen.ok, "{:?}", seen.notes);
    assert!(seen.calls.iter().any(|c| c == "Retain"), "{:?}", seen.calls);
    assert!(!seen.calls.iter().any(|c| c == "Wait"), "{:?}", seen.calls);
}

#[test]
fn an_empty_line_succeeds() {
    let seen = perform("", false);
    assert!(seen.ok && seen.calls.is_empty() && seen.printed.is_empty());
}

#[test]
fn a_pipeline_is_shown_as_it_was_written() {
    let line = parse(&Interpreter::tokenize("first a | second b"));
    assert_eq!(pipeline_display(&line), "first a | second b");
}

#[test]
fn the_last_redirection_counts() {
    let seen = perform("first > one > two", false);
    assert!(!seen.calls.iter().any(|c| c.contains("\"one\"")), "{:?}", seen.calls);
    assert!(seen.calls.iter().any(|c| c.contains("\"two\"")), "{:?}", seen.calls);
}
