use ion_win::interp::Interpreter;
use ion_win::pipeline::{parse, PipeKind, Pipeline, Stream};

fn parse_line(line: &str) -> Pipeline {
    parse(&Interpreter::tokenize(line))
}

#[test]
fn trivial_single_command() {
    let p = parse_line("echo hello world");
    assert!(p.is_trivial());
    assert_eq!(p.stages.len(), 1);
    assert_eq!(p.stages[0].tokens.len(), 3);
}

#[test]
fn simple_pipe() {
    let p = parse_line("command | command");
    assert!(!p.is_trivial());
    assert_eq!(p.stages.len(), 2);
    assert_eq!(p.pipes, vec![PipeKind::Stdout]);
}

#[test]
fn stderr_and_combined_pipes() {
    assert_eq!(
        parse_line("command ^| command").pipes,
        vec![PipeKind::Stderr]
    );
    assert_eq!(
        parse_line("command &| command").pipes,
        vec![PipeKind::Combined]
    );
}

#[test]
fn redirection_forms() {
    let p = parse_line("command > stdout");
    assert_eq!(p.stages[0].redirects.len(), 1);
    assert_eq!(p.stages[0].redirects[0].stream, Stream::Stdout);
    assert_eq!(p.stages[0].redirects[0].path, "stdout");
    assert!(!p.stages[0].redirects[0].append);

    assert!(parse_line("command >> stdout").stages[0].redirects[0].append);
    assert_eq!(
        parse_line("command ^> stderr").stages[0].redirects[0].stream,
        Stream::Stderr
    );
    assert_eq!(
        parse_line("command &> combined").stages[0].redirects[0].stream,
        Stream::Combined
    );
}

#[test]
fn multiple_redirection() {
    let p = parse_line("command > stdout ^> stderr &> combined");
    assert!(!p.is_trivial());
    assert_eq!(p.stages[0].redirects.len(), 3);
    assert_eq!(p.stages[0].tokens.len(), 1);
}

#[test]
fn combined_pipe_and_redirect() {
    let p = parse_line("command | command > stdout");
    assert_eq!(p.stages.len(), 2);
    assert!(p.stages[0].redirects.is_empty());
    assert_eq!(p.stages[1].redirects.len(), 1);
}

#[test]
fn background_and_disown() {
    assert!(parse_line("command &").background);
    assert!(parse_line("command &!").disown);
    assert!(!parse_line("command &").is_trivial());
}

#[test]
fn concatenating_redirect_example_from_manual() {
    let p1 = parse_line("command > stdout");
    let p2 = parse_line("command >> stdout");
    assert!(!p1.stages[0].redirects[0].append);
    assert!(p2.stages[0].redirects[0].append);
}
