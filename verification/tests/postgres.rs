use ion_win::dialog::{Answer, Request, StageCall, Talk};
use ion_win::postgres::{connect, parse_options, Options};

/// Runs something until every request that it makes is answered.
#[allow(dead_code)]
fn run<R>(mut reply: impl FnMut(&Request) -> Answer, mut work: impl FnMut(&mut Talk) -> R) -> (R, Vec<String>) {
    let mut answers: Vec<Answer> = Vec::new();
    loop {
        let mut talk = Talk::open(answers.clone());
        let result = work(&mut talk);
        match talk.pending {
            None => return (result, talk.notes.into_iter().map(|note| note.text).collect()),
            Some(request) => answers.push(reply(&request)),
        }
    }
}

fn strings(values: &[&str]) -> Vec<String> {
    values.iter().map(|value| (*value).into()).collect()
}

#[test]
fn defaults_target_local_postgres() {
    assert_eq!(parse_options(&[]).unwrap(), Options::default());
}

#[test]
fn connection_target_can_be_overridden() {
    assert_eq!(
        parse_options(&strings(&[
            "--host",
            "db",
            "-p",
            "5544",
            "-d",
            "application"
        ]))
        .unwrap(),
        Options {
            host: "db".into(),
            port: "5544".into(),
            database: "application".into(),
            user: "postgres".into(),
        }
    );
}

#[test]
fn connection_user_can_be_overridden() {
    assert_eq!(
        parse_options(&strings(&["--user", "application_user"]))
            .unwrap()
            .user,
        "application_user"
    );
}

#[test]
fn malformed_options_are_rejected() {
    assert!(parse_options(&strings(&["--host"])).is_err());
    assert!(parse_options(&strings(&["--bogus", "value"])).is_err());
}

fn shell(ready_after: u64, resolve: bool, interrupt: bool) -> (bool, Vec<String>, Vec<String>) {
    let mut seen: Vec<String> = Vec::new();
    let mut probes = 0;
    let (r, notes) = run(
        |request| match request {
            Request::WorkingDirectory => Answer::Text("/work".to_string()),
            Request::SearchPath => Answer::Words(vec!["/bin".to_string()], None),
            Request::Environment(_) => Answer::Text(".EXE".to_string()),
            Request::IsFile(path) => Answer::Truth(resolve && path.starts_with("/bin/") && path.ends_with(".EXE")),
            Request::TakeInterrupt => Answer::Truth(interrupt),
            Request::Probe(program, args) => {
                seen.push(format!("{program} {}", args.join(" ")));
                probes += 1;
                Answer::Truth(probes > ready_after)
            },
            Request::RunForeground(program, args, cwd) => {
                seen.push(format!("{cwd}: {program} {}", args.join(" ")));
                Answer::Truth(true)
            },
            Request::Stage(StageCall::Print(s)) => {
                seen.push(s.clone());
                Answer::Truth(true)
            },
            _ => Answer::Truth(true),
        },
        |talk| connect(&strings(&["-h", "db"]), talk),
    );
    (r, seen, notes)
}

#[test]
fn the_server_is_asked_until_it_is_ready() {
    let (r, seen, notes) = shell(2, true, false);
    assert!(r);
    assert!(notes.is_empty());
    assert_eq!(
        seen,
        [
            "Waiting for PostgreSQL at db:5432 ...\n",
            "/bin/pg_isready.EXE -q -h db -p 5432 -U postgres -d postgres",
            "/bin/pg_isready.EXE -q -h db -p 5432 -U postgres -d postgres",
            "/bin/pg_isready.EXE -q -h db -p 5432 -U postgres -d postgres",
            "PostgreSQL is ready; opening psql as postgres.\n",
            "/work: /bin/psql.EXE -h db -p 5432 -U postgres -d postgres",
        ]
    );
}

#[test]
fn an_interrupt_ends_the_wait() {
    let (r, seen, _) = shell(0, true, true);
    assert!(!r);
    assert_eq!(seen.last().unwrap(), "^C\n");
}

#[test]
fn a_missing_program_is_named() {
    let (r, _, notes) = shell(0, false, false);
    assert!(!r);
    assert_eq!(notes, ["ion-win: pg-connect: pg_isready was not found on PATH"]);
}

#[test]
fn wrong_options_show_the_usage() {
    let (r, notes) = run(|_| Answer::Missing, |talk| connect(&strings(&["--bogus", "x"]), talk));
    assert!(!r);
    assert_eq!(notes[0], "ion-win: pg-connect: unknown option '--bogus'");
    assert!(notes[1].starts_with("usage: pg-connect"));
}
