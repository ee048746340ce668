use ion_win::dialog::{Answer, Request, Talk};
use ion_win::colorout::{eprint_err, print_err, wants_color};

/// Runs something until every request that it makes is answered.
#[allow(dead_code)]
fn run<R>(mut reply: impl FnMut(&Request) -> Answer, mut work: impl FnMut(&mut Talk) -> R) -> (R, Vec<String>) {
    let mut answers: Vec<Answer> = Vec::new();
    loop {
        let mut talk = Talk::open(answers.clone());
        let result = work(&mut talk);
        match talk.pending {
            None => return (result, talk.notes.into_iter().map(|note| note.text).collect()),
            Some(request) => answers.push(reply(&request)),
        }
    }
}

#[test]
fn only_colors_a_real_terminal_with_no_color_unset() {
    assert!(wants_color(true, false));
    assert!(!wants_color(false, false), "never color non-terminal output");
    assert!(!wants_color(true, true), "NO_COLOR must override a real terminal");
    assert!(!wants_color(false, true));
}

#[test]
fn messages_are_red_on_a_terminal_only() {
    let show = |terminal: bool, no_color: bool| {
        let mut shown = Vec::new();
        run(
            |request| match request {
                Request::IsTerminal(_) => Answer::Truth(terminal),
                Request::Environment(name) if name == "NO_COLOR" && no_color => Answer::Text(String::new()),
                Request::Show(stream, line, red) => {
                    shown.push((*stream, line.clone(), *red));
                    Answer::Truth(true)
                },
                _ => Answer::Missing,
            },
            |talk| {
                print_err("out", talk);
                eprint_err("err", talk);
            },
        );
        shown
    };
    assert_eq!(show(true, false), [(1, "out".to_string(), true), (2, "err".to_string(), true)]);
    assert_eq!(show(true, true), [(1, "out".to_string(), false), (2, "err".to_string(), false)]);
    assert_eq!(show(false, false), [(1, "out".to_string(), false), (2, "err".to_string(), false)]);
}
