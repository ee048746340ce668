use ion_win::dialog::{
    Action, Answer, Entry, FileFacts, FloatCall, FloatOp, Request, StageCall, Talk,
};
use ion_win::operation::OperationJournal;
use crossterm::style::Stylize;
use ion_win::editor::{
    apply_selection_highlight, choose_completion, common_prefix, complete, delete_selection, highlight,
    highlight_enabled, looks_like_path, next_word_boundary, prev_word_boundary, selection_range,
    set_highlight_enabled, typed_dir_prefix, EditorOutcome, Highlighting, KeyCode, KeyPress,
    LineEditor, SpanKind,
};

/// Runs something until every request that it makes is answered.
#[allow(dead_code)]
fn run<R>(mut reply: impl FnMut(&Request) -> Answer, mut work: impl FnMut(&mut Talk) -> R) -> (R, Vec<String>) {
    let mut answers: Vec<Answer> = Vec::new();
    loop {
        let mut talk = Talk::open(answers.clone());
        let result = work(&mut talk);
        match talk.pending {
            None => return (result, talk.notes.into_iter().map(|note| note.text).collect()),
            Some(request) => answers.push(reply(&request)),
        }
    }
}

/// Does floating-point work.
#[allow(dead_code)]
fn float(call: &FloatCall) -> Answer {
    let of = |x: f64| Answer::Number(x.to_bits());
    match call {
        FloatCall::OfInt(i) => of(*i as f64),
        FloatCall::Parse(s) => match s.parse::<f64>() {
            Ok(x) => of(x),
            Err(_) => Answer::Missing,
        },
        FloatCall::Negate(a) => of(-f64::from_bits(*a)),
        FloatCall::Binary(op, a, b) => {
            let (a, b) = (f64::from_bits(*a), f64::from_bits(*b));
            of(match op {
                FloatOp::Add => a + b,
                FloatOp::Subtract => a - b,
                FloatOp::Multiply => a * b,
                FloatOp::Divide => a / b,
                FloatOp::Remainder => a % b,
                FloatOp::Power => a.powf(b),
                FloatOp::FloorDivide => (a / b).floor(),
            })
        },
        FloatCall::Show(a) => Answer::Text(format!("{:?}", f64::from_bits(*a))),
    }
}

/// A file or a directory of a small file system.
#[derive(Clone, Debug)]
#[allow(dead_code)]
struct Node {
    dir: bool,
    data: String,
}

/// A small world to run things in: files, an environment and a clock.
#[derive(Clone, Debug, Default)]
#[allow(dead_code)]
struct World {
    nodes: std::collections::BTreeMap<String, Node>,
    environment: std::collections::BTreeMap<String, String>,
    programs: std::collections::BTreeMap<String, String>,
    search: Vec<String>,
    archive: Option<(String, String)>,
    recycled: Vec<String>,
    printed: Vec<String>,
    interrupted: bool,
    counter: u64,
    saved: Vec<OperationJournal>,
    failing: Vec<String>,
}

#[allow(dead_code)]
impl World {
    fn new() -> World {
        let mut w = World::default();
        w.dir("/");
        w.dir("/work");
        w.dir("/temp");
        w
    }

    fn norm(&self, path: &str) -> String {
        let mut parts: Vec<String> = Vec::new();
        let path = path.replace('\\', "/");
        let whole = if path.starts_with('/') { path } else { format!("/work/{path}") };
        for part in whole.split('/') {
            match part {
                "" | "." => {},
                ".." => {
                    parts.pop();
                },
                name => parts.push(name.to_string()),
            }
        }
        format!("/{}", parts.join("/"))
    }

    fn above(path: &str) -> String {
        match path.rfind('/') {
            Some(0) | None => "/".to_string(),
            Some(i) => path[..i].to_string(),
        }
    }

    fn dir(&mut self, path: &str) {
        let path = if path == "/" { path.to_string() } else { self.norm(path) };
        if path != "/" {
            let above = World::above(&path);
            if !self.nodes.contains_key(&above) {
                self.dir(&above);
            }
        }
        self.nodes.entry(path).or_insert(Node { dir: true, data: String::new() });
    }

    fn file(&mut self, path: &str, data: &str) {
        let path = self.norm(path);
        self.dir(&World::above(&path));
        self.nodes.insert(path, Node { dir: false, data: data.to_string() });
    }

    fn read(&self, path: &str) -> Option<String> {
        self.nodes.get(&self.norm(path)).filter(|n| !n.dir).map(|n| n.data.clone())
    }

    fn has(&self, path: &str) -> bool {
        self.nodes.contains_key(&self.norm(path))
    }

    fn is_dir(&self, path: &str) -> bool {
        self.nodes.get(&self.norm(path)).is_some_and(|n| n.dir)
    }

    fn inside(&self, path: &str) -> Vec<String> {
        let start = if path == "/" { "/".to_string() } else { format!("{path}/") };
        self.nodes.keys().filter(|k| k.starts_with(&start) && k.as_str() != "/").cloned().collect()
    }

    fn remove_tree(&mut self, path: &str) {
        for k in self.inside(path) {
            self.nodes.remove(&k);
        }
        self.nodes.remove(path);
    }

    fn done(ok: bool, what: &str) -> Answer {
        if ok { Answer::Truth(true) } else { Answer::Failure(what.to_string()) }
    }

    fn act(&mut self, action: &Action) -> Answer {
        match action {
            Action::CreateDirs(p) => {
                let p = self.norm(p);
                if self.nodes.get(&p).is_some_and(|n| !n.dir) {
                    return Answer::Failure("a file is in the way".to_string());
                }
                self.dir(&p);
                Answer::Truth(true)
            },
            Action::CopyFile(a, b) => match self.read(a) {
                Some(data) if self.is_dir(&World::above(&self.norm(b))) => {
                    self.file(b, &data);
                    Answer::Truth(true)
                },
                _ => Answer::Failure("no such file".to_string()),
            },
            Action::RemoveFile(p) => {
                let p = self.norm(p);
                let ok = self.nodes.get(&p).is_some_and(|n| !n.dir);
                if ok {
                    self.nodes.remove(&p);
                }
                World::done(ok, "no such file")
            },
            Action::RemoveDir(p) => {
                let p = self.norm(p);
                let ok = self.is_dir(&p) && self.inside(&p).is_empty();
                if ok {
                    self.nodes.remove(&p);
                }
                World::done(ok, "directory not empty")
            },
            Action::RemoveTree(p) => {
                let p = self.norm(p);
                let ok = self.is_dir(&p);
                self.remove_tree(&p);
                World::done(ok, "no such directory")
            },
            Action::Rename(a, b) | Action::Replace(a, b) => {
                let (a, b) = (self.norm(a), self.norm(b));
                if !self.has(&a) || !self.is_dir(&World::above(&b)) {
                    return Answer::Failure("no such file".to_string());
                }
                let moved: Vec<(String, Node)> = self
                    .nodes
                    .iter()
                    .filter(|(k, _)| **k == a || k.starts_with(&format!("{a}/")))
                    .map(|(k, n)| (format!("{b}{}", &k[a.len()..]), n.clone()))
                    .collect();
                self.remove_tree(&a);
                for (k, n) in moved {
                    self.nodes.insert(k, n);
                }
                Answer::Truth(true)
            },
            Action::Recycle(p) => {
                let p = self.norm(p);
                let ok = self.has(&p);
                self.remove_tree(&p);
                self.recycled.push(p);
                World::done(ok, "no such file")
            },
            Action::OpenArchive(p) => {
                let p = self.norm(p);
                self.file(&p, "");
                self.archive = Some((p, String::new()));
                Answer::Truth(true)
            },
            Action::DropArchive => {
                self.archive = None;
                Answer::Truth(true)
            },
            Action::FinishArchive => match self.archive.take() {
                Some((p, data)) => {
                    self.file(&p, &data);
                    Answer::Truth(true)
                },
                None => Answer::Failure("no archive".to_string()),
            },
            Action::AddEntry(small) => match (self.read(small), &mut self.archive) {
                (Some(data), Some((_, all))) => {
                    all.push_str(&data);
                    Answer::Truth(true)
                },
                _ => Answer::Failure("no archive".to_string()),
            },
            Action::Lock(p) => {
                let p = format!("{}.lock", self.norm(p));
                self.file(&p, "");
                Answer::Truth(true)
            },
            Action::Unlock(p) => {
                let p = format!("{}.lock", self.norm(p));
                self.nodes.remove(&p);
                Answer::Truth(true)
            },
            Action::AppendText(p, s) => {
                let data = self.read(p).unwrap_or_default();
                self.file(p, &format!("{data}{s}"));
                Answer::Truth(true)
            },
            Action::WriteText(p, s) => {
                self.file(p, s);
                Answer::Truth(true)
            },
        }
    }

    fn facts(&self, path: &str) -> Option<FileFacts> {
        self.nodes.get(&self.norm(path)).map(|n| FileFacts {
            is_symlink: false,
            is_dir: n.dir,
            is_file: !n.dir,
            size: n.data.len() as u64,
            modified: Some(7),
        })
    }

    fn answer(&mut self, request: &Request) -> Answer {
        if let Some(i) = self.failing.iter().position(|f| format!("{request:?}").contains(f)) {
            self.failing.remove(i);
            return Answer::Failure("refused".to_string());
        }
        let text = |s: Option<&String>| match s {
            Some(s) => Answer::Text(s.clone()),
            None => Answer::Missing,
        };
        match request {
            Request::Environment(name) => text(self.environment.get(name)),
            Request::Exists(p) => Answer::Truth(self.has(p)),
            Request::IsFile(p) => Answer::Truth(self.read(p).is_some()),
            Request::IsDirectory(p) => Answer::Truth(self.is_dir(p)),
            Request::IsTerminal(_) => Answer::Truth(false),
            Request::ReadText(p) | Request::ReadStrict(p) => match self.read(p) {
                Some(s) => Answer::Text(s),
                None => Answer::Failure("no such file".to_string()),
            },
            Request::ListWhole(root) => self.answer(&Request::List(root.clone(), Vec::new())),
            Request::List(root, below) => {
                let mut p = self.norm(root);
                for name in below {
                    p = format!("{p}/{name}");
                }
                if !self.is_dir(&p) {
                    return Answer::Failure("no such directory".to_string());
                }
                let start = if p == "/" { 1 } else { p.len() + 1 };
                let list = self
                    .inside(&p)
                    .iter()
                    .filter(|k| !k[start..].contains('/'))
                    .map(|k| Entry {
                        name: k[start..].to_string(),
                        is_dir: self.nodes[k].dir,
                        is_file: !self.nodes[k].dir,
                    })
                    .collect();
                Answer::Entries(list)
            },
            Request::WorkingDirectory => Answer::Text("/work".to_string()),
            Request::Absolute(p) => Answer::Text(self.norm(p)),
            Request::Inspect(p) | Request::Examine(p) => match self.facts(p) {
                Some(f) => Answer::File(f),
                None => Answer::Failure("no such file".to_string()),
            },
            Request::Program(args) => text(self.programs.get(&args.join(" "))),
            Request::Float(call) => float(call),
            Request::SearchPath => Answer::Words(self.search.clone(), None),
            Request::Facts(p) => match self.facts(p) {
                Some(f) => Answer::File(f),
                None => Answer::Missing,
            },
            Request::Canonical(p) => {
                if self.has(p) {
                    Answer::Text(self.norm(p))
                } else {
                    Answer::Failure("no such file".to_string())
                }
            },
            Request::Do(action) => self.act(action),
            Request::Seconds => Answer::Number(1_700_000_000),
            Request::Nanoseconds => Answer::Number(255),
            Request::Sequence => {
                self.counter += 1;
                Answer::Number(self.counter)
            },
            Request::ProcessId => Answer::Number(42),
            Request::Interrupted => Answer::Truth(self.interrupted),
            Request::TakeInterrupt => Answer::Truth(std::mem::replace(&mut self.interrupted, false)),
            Request::Workers => Answer::Number(2),
            Request::TempDirectory => Answer::Text("/temp".to_string()),
            Request::Pack(source, name, small) => match self.read(source) {
                Some(data) => {
                    self.file(small, &format!("{name}={data};"));
                    Answer::Truth(true)
                },
                None => Answer::Truth(false),
            },
            Request::AwaitPack(small) => World::done(self.has(small), "no such file"),
            Request::SaveJournal(journal) => {
                self.saved.push(journal.clone());
                Answer::Truth(true)
            },
            Request::CheckArchive(_) => Answer::Truth(true),
            Request::BuildArchive(item, path) => {
                let mut all = String::new();
                for entry in &item.entries {
                    match self.read(&entry.source.path) {
                        Some(data) => all.push_str(&format!("{}={data};", entry.archive_name)),
                        None => return Answer::Failure("no such file".to_string()),
                    }
                }
                self.file(path, &all);
                Answer::Truth(true)
            },
            Request::Stage(StageCall::Print(s)) => {
                self.printed.push(s.clone());
                Answer::Truth(true)
            },
            _ => Answer::Missing,
        }
    }

    /// Runs something in this world; what it printed as diagnostics is given
    /// too.
    fn noted<R>(&mut self, work: impl FnMut(&mut Talk) -> R) -> (R, Vec<String>) {
        run(|request| self.answer(request), work)
    }

    /// Runs something in this world.
    fn run<R>(&mut self, work: impl FnMut(&mut Talk) -> R) -> R {
        self.noted(work).0
    }
}

fn paint(line: &str) -> String {
    let mut out = String::new();
    for span in highlight(line) {
        let text = span.text;
        out.push_str(&match span.kind {
            SpanKind::Plain => text,
            SpanKind::Comment => text.dark_grey().to_string(),
            SpanKind::Quoted => text.green().to_string(),
            SpanKind::Variable => text.cyan().to_string(),
            SpanKind::Keyword => text.magenta().to_string(),
            SpanKind::Command => text.blue().to_string(),
        });
    }
    out
}

#[test]
fn prev_word_boundary_skips_trailing_space_then_the_word() {
    let buf: Vec<char> = "echo hello world".chars().collect();
    assert_eq!(prev_word_boundary(&buf, buf.len()), 11);
    assert_eq!(prev_word_boundary(&buf, 5), 0);
    assert_eq!(prev_word_boundary(&buf, 0), 0);
}

#[test]
fn prev_word_boundary_handles_cursor_mid_word() {
    let buf: Vec<char> = "hello world".chars().collect();
    assert_eq!(prev_word_boundary(&buf, 8), 6);
}

#[test]
fn next_word_boundary_skips_word_then_space() {
    let buf: Vec<char> = "echo hello world".chars().collect();
    assert_eq!(next_word_boundary(&buf, 0), 5);
    assert_eq!(next_word_boundary(&buf, 5), 11);
    assert_eq!(next_word_boundary(&buf, 11), buf.len());
}

#[test]
fn selection_range_normalizes_both_directions_and_ignores_empty() {
    assert_eq!(selection_range(Some(2), 5), Some((2, 5)));
    assert_eq!(selection_range(Some(5), 2), Some((2, 5)));
    assert_eq!(selection_range(Some(2), 2), None);
    assert_eq!(selection_range(None, 2), None);
}

#[test]
fn deleting_selection_replaces_the_whole_selected_range() {
    let mut buffer: Vec<char> = "echo hello".chars().collect();
    let mut cursor = 10;
    let mut anchor = Some(5);
    assert!(delete_selection(&mut buffer, &mut cursor, &mut anchor));
    assert_eq!(buffer.into_iter().collect::<String>(), "echo ");
    assert_eq!(cursor, 5);
    assert_eq!(anchor, None);
}

#[test]
fn selection_highlight_preserves_text_and_ansi_syntax_colors() {
    let rendered = paint("echo \"$name\"");
    let selected = apply_selection_highlight(&rendered, (5, 12));
    assert_eq!(strip_ansi(&selected), "echo \"$name\"");
    assert!(selected.contains("\u{1b}[7m"));
    assert!(selected.contains("\u{1b}[27m"));
}

fn strip_ansi(s: &str) -> String {
    let mut out = String::new();
    let mut chars = s.chars();
    while let Some(c) = chars.next() {
        if c == '\u{1b}' && chars.clone().next() == Some('[') {
            chars.next();
            for ch in chars.by_ref() {
                if ch == 'm' {
                    break;
                }
            }
            continue;
        }
        out.push(c);
    }
    out
}

#[test]
fn highlight_preserves_every_character_including_incomplete_syntax() {
    for line in [
        "echo \"hello world\" $x @arr # a comment",
        "while true",
        "echo 'unclosed",
        "",
        "   ",
        "if $x -eq 1",
    ] {
        assert_eq!(strip_ansi(&paint(line)), line, "line: {line:?}");
    }
}

#[test]
fn highlight_toggle_defaults_on_and_roundtrips() {
    let mut state = Highlighting::default();
    assert!(highlight_enabled(&state), "should default to on");
    set_highlight_enabled(&mut state, false);
    assert!(!highlight_enabled(&state));
    set_highlight_enabled(&mut state, true);
    assert!(highlight_enabled(&state));
}

#[test]
fn add_history_skips_empty_and_consecutive_duplicates() {
    let mut editor = LineEditor::new();
    editor.add_history("");
    editor.add_history("   ");
    editor.add_history("echo hi");
    editor.add_history("echo hi");
    editor.add_history("echo bye");
    assert_eq!(
        editor.history(),
        vec!["echo hi".to_string(), "echo bye".to_string()]
    );
}

#[test]
fn add_history_allows_non_consecutive_repeats() {
    let mut editor = LineEditor::new();
    editor.add_history("a");
    editor.add_history("b");
    editor.add_history("a");
    assert_eq!(
        editor.history(),
        vec!["a".to_string(), "b".to_string(), "a".to_string()]
    );
}

#[test]
fn remove_last_history_if_only_removes_the_matching_latest_entry() {
    let mut editor = LineEditor::default();
    editor.add_history("echo kept");
    editor.add_history("missing-command");
    editor.remove_last_history_if("different-command");
    assert_eq!(editor.history(), vec!["echo kept", "missing-command"]);
    editor.remove_last_history_if("missing-command");
    assert_eq!(editor.history(), vec!["echo kept"]);
}

#[test]
fn tab_completes_unique_builtin() {
    let input: Vec<char> = "pw".chars().collect();
    let (completed, cursor) = World::new().run(|talk| complete(&input, input.len(), talk)).unwrap();
    assert_eq!(completed.into_iter().collect::<String>(), "pwd");
    assert_eq!(cursor, 3);
}

#[test]
fn tab_leaves_ambiguous_builtin_prefix_alone() {
    let input: Vec<char> = "ex".chars().collect();
    assert!(World::new().run(|talk| complete(&input, input.len(), talk)).is_none());
}

fn press(code: KeyCode) -> KeyPress {
    KeyPress { code, control: false, alt: false, shift: false, release: false }
}

fn control(c: char) -> KeyPress {
    KeyPress { control: true, ..press(KeyCode::Char(c)) }
}

fn typed(text: &str) -> Vec<KeyPress> {
    text.chars().map(|c| press(KeyCode::Char(c))).collect()
}

fn type_line(editor: &mut LineEditor, keys: &[KeyPress], block: bool) -> (EditorOutcome, Vec<String>) {
    let mut keys = keys.iter();
    let mut printed = Vec::new();
    let (r, _) = run(
        |request| match request {
            Request::IsTerminal(0) => Answer::Truth(true),
            Request::ReadKey => match keys.next() {
                Some(k) => Answer::Key(*k),
                None => Answer::Failure("no more keys".to_string()),
            },
            Request::Stage(StageCall::Print(s)) => {
                printed.push(s.clone());
                Answer::Truth(true)
            },
            _ => Answer::Truth(true),
        },
        |talk| {
            if block {
                editor.read_continuation_line("> ", talk)
            } else {
                match editor.read_line("> ", talk) {
                    Some(line) => EditorOutcome::Line(line),
                    None => EditorOutcome::Eof,
                }
            }
        },
    );
    (r, printed)
}

fn line_of(keys: Vec<Vec<KeyPress>>) -> String {
    let mut all: Vec<KeyPress> = keys.concat();
    all.push(press(KeyCode::Enter));
    match type_line(&mut LineEditor::new(), &all, false).0 {
        EditorOutcome::Line(line) => line,
        other => panic!("{other:?}"),
    }
}

#[test]
fn keys_edit_the_line() {
    assert_eq!(line_of(vec![typed("echo hi")]), "echo hi");
    assert_eq!(line_of(vec![typed("ab"), vec![press(KeyCode::Left)], typed("x")]), "axb");
    assert_eq!(line_of(vec![typed("one two"), vec![control('w')]]), "one ");
    assert_eq!(line_of(vec![typed("one two"), vec![press(KeyCode::Home), control('k')]]), "");
    assert_eq!(line_of(vec![typed("one two"), vec![control('u')], typed("x")]), "x");
    assert_eq!(line_of(vec![typed("abc"), vec![press(KeyCode::Backspace)]]), "ab");
    assert_eq!(line_of(vec![typed("abc"), vec![press(KeyCode::Home), press(KeyCode::Delete)]]), "bc");
    assert_eq!(line_of(vec![typed("abc"), vec![press(KeyCode::Esc)], typed("d")]), "d");
    let release = KeyPress { release: true, ..press(KeyCode::Char('z')) };
    assert_eq!(line_of(vec![typed("a"), vec![release, press(KeyCode::Other)], typed("b")]), "ab");
}

#[test]
fn a_selection_is_replaced_by_what_is_typed() {
    let select = KeyPress { shift: true, ..press(KeyCode::Home) };
    assert_eq!(line_of(vec![typed("old"), vec![select], typed("n")]), "n");
    let word = KeyPress { shift: true, control: true, ..press(KeyCode::Left) };
    assert_eq!(line_of(vec![typed("keep drop"), vec![word, press(KeyCode::Delete)]]), "keep ");
}

#[test]
fn the_history_is_walked_and_left() {
    let mut editor = LineEditor::with_history(vec!["first".to_string(), "second".to_string()]);
    let up = press(KeyCode::Up);
    let down = press(KeyCode::Down);
    let enter = press(KeyCode::Enter);
    let (r, _) = type_line(&mut editor, &[up, up, up, enter], false);
    assert_eq!(r, EditorOutcome::Line("first".to_string()));
    let keys = [typed("new"), vec![up, down, enter]].concat();
    let (r, _) = type_line(&mut editor, &keys, false);
    assert_eq!(r, EditorOutcome::Line("new".to_string()));
}

#[test]
fn only_a_block_is_aborted() {
    let esc = press(KeyCode::Esc);
    let (r, printed) = type_line(&mut LineEditor::new(), &[esc], true);
    assert_eq!(r, EditorOutcome::Aborted);
    assert_eq!(printed, ["^[\r\n", "\r\n"]);
    let (r, _) = type_line(&mut LineEditor::new(), &[esc, control('d')], false);
    assert_eq!(r, EditorOutcome::Eof);
    let (r, printed) = type_line(&mut LineEditor::new(), &[control('c')], false);
    assert_eq!(r, EditorOutcome::Eof);
    assert_eq!(printed[0], "^C\r\n");
}

#[test]
fn plain_input_loses_its_trailing_space() {
    let mut editor = LineEditor::new();
    let (r, _) = run(
        |request| match request {
            Request::ReadPlain(prompt) => Answer::Text(format!("{prompt}line \r\n")),
            _ => Answer::Truth(false),
        },
        |talk| editor.read_line("$ ", talk),
    );
    assert_eq!(r, Some("$ line".to_string()));
}

#[test]
fn tab_completes_paths() {
    let mut w = World::new();
    w.file("/work/notes.txt", "");
    w.dir("/work/Nested");
    let complete_in = |w: &mut World, s: &str| {
        let input: Vec<char> = s.chars().collect();
        w.run(|talk| complete(&input, input.len(), talk)).map(|(v, c)| (v.into_iter().collect::<String>(), c))
    };
    assert_eq!(complete_in(&mut w, "cat not"), Some(("cat notes.txt ".to_string(), 14)));
    assert_eq!(complete_in(&mut w, "cat ./nes"), Some(("cat ./Nested\\".to_string(), 13)));
    assert_eq!(complete_in(&mut w, "cat n"), None);
    assert_eq!(complete_in(&mut w, "cat "), None);
}

#[test]
fn completions_share_their_beginning() {
    let list = vec!["Report-1".to_string(), "report-2".to_string()];
    assert_eq!(common_prefix(&list), Some("Report-".to_string()));
    assert_eq!(choose_completion("re", &list), Some("Report-".to_string()));
    assert_eq!(choose_completion("Report-", &list), None);
    assert_eq!(choose_completion("x", &[]), None);
    assert!(looks_like_path("~x") && looks_like_path("a/b") && !looks_like_path("ab"));
    assert_eq!(typed_dir_prefix("a/b\\c"), "a/b\\");
}

#[test]
fn an_event_that_is_no_key_does_not_end_the_line() {
    let mut events = vec![
        Answer::Missing, Answer::Key(press(KeyCode::Char('a'))), Answer::Missing, Answer::Truth(true),
        Answer::Key(press(KeyCode::Char('b'))), Answer::Key(press(KeyCode::Enter)),
    ]
    .into_iter();
    let mut editor = LineEditor::new();
    let (r, _) = run(
        |request| match request {
            Request::ReadKey => events.next().unwrap(),
            _ => Answer::Truth(true),
        },
        |talk| editor.read_line("$ ", talk),
    );
    assert_eq!(r, Some("ab".to_string()));
}

#[test]
fn a_line_that_is_given_up_is_shown_twice() {
    let mut events = vec![control('c'), press(KeyCode::Enter)].into_iter();
    let mut shown = 0;
    let mut editor = LineEditor::new();
    let (r, _) = run(
        |request| match request {
            Request::ReadKey => Answer::Key(events.next().unwrap()),
            Request::Redraw(..) => {
                shown += 1;
                Answer::Truth(true)
            },
            _ => Answer::Truth(true),
        },
        |talk| editor.read_line("$ ", talk),
    );
    assert_eq!((r, shown), (Some(String::new()), 3));
}
