use ion_win::clipboard::{from_memory, read_text, to_memory, write_text};
use ion_win::dialog::{Answer, Request, Talk};

/// Runs something until every request that it makes is answered.
#[allow(dead_code)]
fn run<R>(mut reply: impl FnMut(&Request) -> Answer, mut work: impl FnMut(&mut Talk) -> R) -> (R, Vec<String>) {
    let mut answers: Vec<Answer> = Vec::new();
    loop {
        let mut talk = Talk::open(answers.clone());
        let result = work(&mut talk);
        match talk.pending {
            None => return (result, talk.notes.into_iter().map(|note| note.text).collect()),
            Some(request) => answers.push(reply(&request)),
        }
    }
}

#[test]
fn text_is_held_in_units_of_sixteen_bits() {
    assert_eq!(to_memory("A\u{20ac}"), [0x41, 0x20ac, 0]);
    assert_eq!(to_memory("\u{1f600}"), [0xd83d, 0xde00, 0]);
    let memory: Vec<u16> = "h\u{e9}llo \u{1f600}".encode_utf16().chain([0]).collect();
    assert_eq!(to_memory("h\u{e9}llo \u{1f600}"), memory);
}

#[test]
fn text_ends_at_the_first_zero() {
    assert_eq!(from_memory(&[0x41, 0, 0x42]), Some("A".to_string()));
    assert_eq!(from_memory(&[0x41]), Some("A".to_string()));
    assert_eq!(from_memory(&[0xd83d, 0xde00, 0]), Some("\u{1f600}".to_string()));
}

#[test]
fn stray_halves_are_no_text() {
    assert_eq!(from_memory(&[0xd83d]), None);
    assert_eq!(from_memory(&[0xd83d, 0x41]), None);
    assert_eq!(from_memory(&[0xde00]), None);
}

#[test]
fn what_is_written_is_read_back() {
    let mut held: Vec<u16> = Vec::new();
    let (r, _) = run(
        |request| match request {
            Request::OnWindows => Answer::Truth(true),
            Request::WriteClipboard(units) => {
                held = units.clone();
                Answer::Truth(true)
            },
            _ => Answer::Missing,
        },
        |talk| write_text("Gr\u{fc}\u{df}e \u{1f600}", talk),
    );
    assert_eq!(r, Ok(()));
    let (r, _) = run(
        |request| match request {
            Request::OnWindows => Answer::Truth(true),
            _ => Answer::Units(held.clone()),
        },
        read_text,
    );
    assert_eq!(r, Ok("Gr\u{fc}\u{df}e \u{1f600}".to_string()));
}

#[test]
fn other_systems_have_no_clipboard() {
    let message = "clipboard operations are only supported on Windows".to_string();
    let (r, _) = run(|_| Answer::Truth(false), |talk| write_text("x", talk));
    assert_eq!(r, Err(message.clone()));
    let (r, _) = run(|_| Answer::Truth(false), read_text);
    assert_eq!(r, Err(message));
}

#[test]
fn a_clipboard_may_hold_no_text() {
    let read = |answer: Answer| {
        run(
            move |request| match request {
                Request::OnWindows => Answer::Truth(true),
                _ => answer.clone(),
            },
            read_text,
        )
        .0
    };
    assert_eq!(read(Answer::Units(vec![0xd800, 0])), Err("clipboard contains invalid UTF-16".to_string()));
    assert_eq!(read(Answer::Failure("cannot open clipboard: busy".to_string())), Err("cannot open clipboard: busy".to_string()));
    assert_eq!(read(Answer::Missing), Err("clipboard does not contain text".to_string()));
}
