use ion_win::dialog::{Answer, Request, StageCall, Talk};
use ion_win::editor::{KeyCode, KeyPress};
use ion_win::keyboard_input::{cut_line, read, split_fields, ReadError, ReadRequest};

/// Runs something until every request that it makes is answered.
#[allow(dead_code)]
fn run<R>(mut reply: impl FnMut(&Request) -> Answer, mut work: impl FnMut(&mut Talk) -> R) -> (R, Vec<String>) {
    let mut answers: Vec<Answer> = Vec::new();
    loop {
        let mut talk = Talk::open(answers.clone());
        let result = work(&mut talk);
        match talk.pending {
            None => return (result, talk.notes.into_iter().map(|note| note.text).collect()),
            Some(request) => answers.push(reply(&request)),
        }
    }
}

#[test]
fn one_variable_receives_the_complete_line() {
    assert_eq!(split_fields("Robert James", 1), ["Robert James"]);
}

#[test]
fn last_variable_receives_the_remainder() {
    assert_eq!(
        split_fields("one two three four", 3),
        ["one", "two", "three four"]
    );
}

#[test]
fn missing_fields_can_be_filled_by_the_caller() {
    assert_eq!(split_fields("one", 3), ["one"]);
}

fn key(code: KeyCode) -> Answer {
    Answer::Key(KeyPress { code, control: false, alt: false, shift: false, release: false })
}

fn type_keys(silent: bool, count: Option<usize>, keys: Vec<Answer>) -> (Result<Option<String>, ReadError>, Vec<String>) {
    let mut keys = keys.into_iter();
    let mut shown = Vec::new();
    let (r, _) = run(
        |request| match request {
            Request::IsTerminal(0) => Answer::Truth(true),
            Request::ReadKey => keys.next().unwrap_or(Answer::Failure("no more keys".to_string())),
            Request::Prompt(s) => {
                shown.push(s.clone());
                Answer::Truth(true)
            },
            Request::Stage(StageCall::Print(s)) => {
                shown.push(s.clone());
                Answer::Truth(true)
            },
            _ => Answer::Truth(true),
        },
        |talk| read(ReadRequest { prompt: "? ", silent, count }, talk),
    );
    (r, shown)
}

#[test]
fn hidden_input_is_not_echoed() {
    let keys = vec![key(KeyCode::Char('a')), key(KeyCode::Char('b')), key(KeyCode::Backspace), key(KeyCode::Enter)];
    let (r, shown) = type_keys(true, None, keys);
    assert_eq!(r, Ok(Some("a".to_string())));
    assert_eq!(shown, ["? ", "\r\n"]);
}

#[test]
fn a_fixed_count_ends_the_input() {
    let keys = vec![key(KeyCode::Char('a')), key(KeyCode::Backspace), key(KeyCode::Char('b'))];
    let (r, shown) = type_keys(false, Some(2), keys);
    assert_eq!(r, Ok(Some("ab".to_string())));
    assert_eq!(shown, ["? ", "a", "b"]);
}

#[test]
fn an_interrupt_is_told_apart_from_a_failure() {
    let interrupt = Answer::Key(KeyPress { code: KeyCode::Char('c'), control: true, alt: false, shift: false, release: false });
    let (r, shown) = type_keys(true, None, vec![interrupt]);
    assert_eq!(r, Err(ReadError::Interrupted));
    assert_eq!(ReadError::Interrupted.text(), "input interrupted");
    assert_eq!(shown.last().unwrap(), "^C\r\n");
    let (r, _) = type_keys(true, None, Vec::new());
    assert_eq!(r, Err(ReadError::Failed("no more keys".to_string())));
}

#[test]
fn a_line_loses_its_end() {
    assert_eq!(cut_line("word\r\n", None), "word");
    assert_eq!(cut_line("word\n", Some(2)), "wo");
    assert_eq!(cut_line("w", Some(2)), "w");
    let (r, _) = run(
        |request| match request {
            Request::IsTerminal(0) => Answer::Truth(false),
            Request::ReadInput => Answer::Text("typed\n".to_string()),
            _ => Answer::Truth(true),
        },
        |talk| read(ReadRequest { prompt: "", silent: true, count: None }, talk),
    );
    assert_eq!(r, Ok(Some("typed".to_string())));
    let (r, _) = run(
        |request| match request {
            Request::IsTerminal(0) => Answer::Truth(false),
            Request::ReadInput => Answer::Missing,
            _ => Answer::Truth(true),
        },
        |talk| read(ReadRequest { prompt: "", silent: false, count: None }, talk),
    );
    assert_eq!(r, Ok(None));
}

#[test]
fn an_event_that_is_no_key_does_not_end_the_input() {
    let keys = vec![key(KeyCode::Char('a')), Answer::Missing, Answer::Truth(true), key(KeyCode::Char('b')), key(KeyCode::Enter)];
    let (r, shown) = type_keys(true, None, keys);
    assert_eq!(r, Ok(Some("ab".to_string())));
    assert_eq!(shown, ["? ", "\r\n"]);
}
