use ion_win::dialog::{
    Action, Answer, Entry, FileFacts, FloatCall, FloatOp, Request, StageCall, Stream, Talk,
};
use ion_win::operation::OperationJournal;
use ion_win::interp::Interpreter;
use ion_win::token::{Quoting, Token};

/// Runs something until every request that it makes is answered.
#[allow(dead_code)]
fn run<R>(mut reply: impl FnMut(&Request) -> Answer, mut work: impl FnMut(&mut Talk) -> R) -> (R, Vec<String>) {
    let mut answers: Vec<Answer> = Vec::new();
    loop {
        let mut talk = Talk::open(answers.clone());
        let result = work(&mut talk);
        match talk.pending {
            None => return (result, talk.notes.into_iter().map(|note| note.text).collect()),
            Some(request) => answers.push(reply(&request)),
        }
    }
}

/// Does floating-point work.
#[allow(dead_code)]
fn float(call: &FloatCall) -> Answer {
    let of = |x: f64| Answer::Number(x.to_bits());
    match call {
        FloatCall::OfInt(i) => of(*i as f64),
        FloatCall::Parse(s) => match s.parse::<f64>() {
            Ok(x) => of(x),
            Err(_) => Answer::Missing,
        },
        FloatCall::Negate(a) => of(-f64::from_bits(*a)),
        FloatCall::Binary(op, a, b) => {
            let (a, b) = (f64::from_bits(*a), f64::from_bits(*b));
            of(match op {
                FloatOp::Add => a + b,
                FloatOp::Subtract => a - b,
                FloatOp::Multiply => a * b,
                FloatOp::Divide => a / b,
                FloatOp::Remainder => a % b,
                FloatOp::Power => a.powf(b),
                FloatOp::FloorDivide => (a / b).floor(),
            })
        },
        FloatCall::Show(a) => Answer::Text(format!("{:?}", f64::from_bits(*a))),
    }
}

/// A file or a directory of a small file system.
#[derive(Clone, Debug)]
#[allow(dead_code)]
struct Node {
    dir: bool,
    data: String,
}

/// A small world to run things in: files, an environment and a clock.
#[derive(Clone, Debug, Default)]
#[allow(dead_code)]
struct World {
    nodes: std::collections::BTreeMap<String, Node>,
    environment: std::collections::BTreeMap<String, String>,
    programs: std::collections::BTreeMap<String, String>,
    search: Vec<String>,
    archive: Option<(String, String)>,
    recycled: Vec<String>,
    printed: Vec<String>,
    interrupted: bool,
    counter: u64,
    saved: Vec<OperationJournal>,
    failing: Vec<String>,
}

#[allow(dead_code)]
impl World {
    fn new() -> World {
        let mut w = World::default();
        w.dir("/");
        w.dir("/work");
        w.dir("/temp");
        w
    }

    fn norm(&self, path: &str) -> String {
        let mut parts: Vec<String> = Vec::new();
        let path = path.replace('\\', "/");
        let whole = if path.starts_with('/') { path } else { format!("/work/{path}") };
        for part in whole.split('/') {
            match part {
                "" | "." => {},
                ".." => {
                    parts.pop();
                },
                name => parts.push(name.to_string()),
            }
        }
        format!("/{}", parts.join("/"))
    }

    fn above(path: &str) -> String {
        match path.rfind('/') {
            Some(0) | None => "/".to_string(),
            Some(i) => path[..i].to_string(),
        }
    }

    fn dir(&mut self, path: &str) {
        let path = if path == "/" { path.to_string() } else { self.norm(path) };
        if path != "/" {
            let above = World::above(&path);
            if !self.nodes.contains_key(&above) {
                self.dir(&above);
            }
        }
        self.nodes.entry(path).or_insert(Node { dir: true, data: String::new() });
    }

    fn file(&mut self, path: &str, data: &str) {
        let path = self.norm(path);
        self.dir(&World::above(&path));
        self.nodes.insert(path, Node { dir: false, data: data.to_string() });
    }

    fn read(&self, path: &str) -> Option<String> {
        self.nodes.get(&self.norm(path)).filter(|n| !n.dir).map(|n| n.data.clone())
    }

    fn has(&self, path: &str) -> bool {
        self.nodes.contains_key(&self.norm(path))
    }

    fn is_dir(&self, path: &str) -> bool {
        self.nodes.get(&self.norm(path)).is_some_and(|n| n.dir)
    }

    fn inside(&self, path: &str) -> Vec<String> {
        let start = if path == "/" { "/".to_string() } else { format!("{path}/") };
        self.nodes.keys().filter(|k| k.starts_with(&start) && k.as_str() != "/").cloned().collect()
    }

    fn remove_tree(&mut self, path: &str) {
        for k in self.inside(path) {
            self.nodes.remove(&k);
        }
        self.nodes.remove(path);
    }

    fn done(ok: bool, what: &str) -> Answer {
        if ok { Answer::Truth(true) } else { Answer::Failure(what.to_string()) }
    }

    fn act(&mut self, action: &Action) -> Answer {
        match action {
            Action::CreateDirs(p) => {
                let p = self.norm(p);
                if self.nodes.get(&p).is_some_and(|n| !n.dir) {
                    return Answer::Failure("a file is in the way".to_string());
                }
                self.dir(&p);
                Answer::Truth(true)
            },
            Action::CopyFile(a, b) => match self.read(a) {
                Some(data) if self.is_dir(&World::above(&self.norm(b))) => {
                    self.file(b, &data);
                    Answer::Truth(true)
                },
                _ => Answer::Failure("no such file".to_string()),
            },
            Action::RemoveFile(p) => {
                let p = self.norm(p);
                let ok = self.nodes.get(&p).is_some_and(|n| !n.dir);
                if ok {
                    self.nodes.remove(&p);
                }
                World::done(ok, "no such file")
            },
            Action::RemoveDir(p) => {
                let p = self.norm(p);
                let ok = self.is_dir(&p) && self.inside(&p).is_empty();
                if ok {
                    self.nodes.remove(&p);
                }
                World::done(ok, "directory not empty")
            },
            Action::RemoveTree(p) => {
                let p = self.norm(p);
                let ok = self.is_dir(&p);
                self.remove_tree(&p);
                World::done(ok, "no such directory")
            },
            Action::Rename(a, b) | Action::Replace(a, b) => {
                let (a, b) = (self.norm(a), self.norm(b));
                if !self.has(&a) || !self.is_dir(&World::above(&b)) {
                    return Answer::Failure("no such file".to_string());
                }
                let moved: Vec<(String, Node)> = self
                    .nodes
                    .iter()
                    .filter(|(k, _)| **k == a || k.starts_with(&format!("{a}/")))
                    .map(|(k, n)| (format!("{b}{}", &k[a.len()..]), n.clone()))
                    .collect();
                self.remove_tree(&a);
                for (k, n) in moved {
                    self.nodes.insert(k, n);
                }
                Answer::Truth(true)
            },
            Action::Recycle(p) => {
                let p = self.norm(p);
                let ok = self.has(&p);
                self.remove_tree(&p);
                self.recycled.push(p);
                World::done(ok, "no such file")
            },
            Action::OpenArchive(p) => {
                let p = self.norm(p);
                self.file(&p, "");
                self.archive = Some((p, String::new()));
                Answer::Truth(true)
            },
            Action::DropArchive => {
                self.archive = None;
                Answer::Truth(true)
            },
            Action::FinishArchive => match self.archive.take() {
                Some((p, data)) => {
                    self.file(&p, &data);
                    Answer::Truth(true)
                },
                None => Answer::Failure("no archive".to_string()),
            },
            Action::AddEntry(small) => match (self.read(small), &mut self.archive) {
                (Some(data), Some((_, all))) => {
                    all.push_str(&data);
                    Answer::Truth(true)
                },
                _ => Answer::Failure("no archive".to_string()),
            },
            Action::Lock(p) => {
                let p = format!("{}.lock", self.norm(p));
                self.file(&p, "");
                Answer::Truth(true)
            },
            Action::Unlock(p) => {
                let p = format!("{}.lock", self.norm(p));
                self.nodes.remove(&p);
                Answer::Truth(true)
            },
            Action::AppendText(p, s) => {
                let data = self.read(p).unwrap_or_default();
                self.file(p, &format!("{data}{s}"));
                Answer::Truth(true)
            },
            Action::WriteText(p, s) => {
                self.file(p, s);
                Answer::Truth(true)
            },
        }
    }

    fn facts(&self, path: &str) -> Option<FileFacts> {
        self.nodes.get(&self.norm(path)).map(|n| FileFacts {
            is_symlink: false,
            is_dir: n.dir,
            is_file: !n.dir,
            size: n.data.len() as u64,
            modified: Some(7),
        })
    }

    fn answer(&mut self, request: &Request) -> Answer {
        if let Some(i) = self.failing.iter().position(|f| format!("{request:?}").contains(f)) {
            self.failing.remove(i);
            return Answer::Failure("refused".to_string());
        }
        let text = |s: Option<&String>| match s {
            Some(s) => Answer::Text(s.clone()),
            None => Answer::Missing,
        };
        match request {
            Request::Environment(name) => text(self.environment.get(name)),
            Request::Exists(p) => Answer::Truth(self.has(p)),
            Request::IsFile(p) => Answer::Truth(self.read(p).is_some()),
            Request::IsDirectory(p) => Answer::Truth(self.is_dir(p)),
            Request::IsTerminal(_) => Answer::Truth(false),
            Request::ReadText(p) | Request::ReadStrict(p) => match self.read(p) {
                Some(s) => Answer::Text(s),
                None => Answer::Failure("no such file".to_string()),
            },
            Request::ListWhole(root) => self.answer(&Request::List(root.clone(), Vec::new())),
            Request::List(root, below) => {
                let mut p = self.norm(root);
                for name in below {
                    p = format!("{p}/{name}");
                }
                if !self.is_dir(&p) {
                    return Answer::Failure("no such directory".to_string());
                }
                let start = if p == "/" { 1 } else { p.len() + 1 };
                let list = self
                    .inside(&p)
                    .iter()
                    .filter(|k| !k[start..].contains('/'))
                    .map(|k| Entry {
                        name: k[start..].to_string(),
                        is_dir: self.nodes[k].dir,
                        is_file: !self.nodes[k].dir,
                    })
                    .collect();
                Answer::Entries(list)
            },
            Request::WorkingDirectory => Answer::Text("/work".to_string()),
            Request::Absolute(p) => Answer::Text(self.norm(p)),
            Request::Inspect(p) | Request::Examine(p) => match self.facts(p) {
                Some(f) => Answer::File(f),
                None => Answer::Failure("no such file".to_string()),
            },
            Request::Program(args) => text(self.programs.get(&args.join(" "))),
            Request::Float(call) => float(call),
            Request::SearchPath => Answer::Words(self.search.clone(), None),
            Request::Facts(p) => match self.facts(p) {
                Some(f) => Answer::File(f),
                None => Answer::Missing,
            },
            Request::Canonical(p) => {
                if self.has(p) {
                    Answer::Text(self.norm(p))
                } else {
                    Answer::Failure("no such file".to_string())
                }
            },
            Request::Do(action) => self.act(action),
            Request::Seconds => Answer::Number(1_700_000_000),
            Request::Nanoseconds => Answer::Number(255),
            Request::Sequence => {
                self.counter += 1;
                Answer::Number(self.counter)
            },
            Request::ProcessId => Answer::Number(42),
            Request::Interrupted => Answer::Truth(self.interrupted),
            Request::TakeInterrupt => Answer::Truth(std::mem::replace(&mut self.interrupted, false)),
            Request::Workers => Answer::Number(2),
            Request::TempDirectory => Answer::Text("/temp".to_string()),
            Request::Pack(source, name, small) => match self.read(source) {
                Some(data) => {
                    self.file(small, &format!("{name}={data};"));
                    Answer::Truth(true)
                },
                None => Answer::Truth(false),
            },
            Request::AwaitPack(small) => World::done(self.has(small), "no such file"),
            Request::SaveJournal(journal) => {
                self.saved.push(journal.clone());
                Answer::Truth(true)
            },
            Request::CheckArchive(_) => Answer::Truth(true),
            Request::BuildArchive(item, path) => {
                let mut all = String::new();
                for entry in &item.entries {
                    match self.read(&entry.source.path) {
                        Some(data) => all.push_str(&format!("{}={data};", entry.archive_name)),
                        None => return Answer::Failure("no such file".to_string()),
                    }
                }
                self.file(path, &all);
                Answer::Truth(true)
            },
            Request::Stage(StageCall::Print(s)) => {
                self.printed.push(s.clone());
                Answer::Truth(true)
            },
            _ => Answer::Missing,
        }
    }

    /// Runs something in this world; what it printed as diagnostics is given
    /// too.
    fn noted<R>(&mut self, work: impl FnMut(&mut Talk) -> R) -> (R, Vec<String>) {
        run(|request| self.answer(request), work)
    }

    /// Runs something in this world.
    fn run<R>(&mut self, work: impl FnMut(&mut Talk) -> R) -> R {
        self.noted(work).0
    }
}

fn bare(text: &str) -> Token {
    Token { text: text.to_string(), quoting: Quoting::Bare }
}

fn cmd(w: &mut World) {
    for words in ["hello world", "one two three"] {
        w.programs.insert(format!("cmd /c echo {words}"), format!("{words}\r\n"));
    }
}

fn assign(w: &mut World, interp: &mut Interpreter, words: &[&str]) {
    let tokens: Vec<Token> = words.iter().map(|s| bare(s)).collect();
    *interp = w.run(|talk| {
        let mut next = interp.copy();
        next.builtin_let(&tokens, talk);
        next
    });
}

fn export(w: &mut World, interp: &mut Interpreter, words: &[&str]) -> Option<(String, String)> {
    let tokens: Vec<Token> = words.iter().map(|s| bare(s)).collect();
    let (next, exported) = w.run(|talk| {
        let mut next = interp.copy();
        let exported = next.builtin_export(&tokens, talk);
        (next, exported)
    });
    *interp = next;
    exported
}

fn expand(w: &mut World, interp: &Interpreter, tokens: &[Token]) -> Vec<String> {
    cmd(w);
    w.run(|talk| interp.expand_all(tokens, talk))
}

#[test]
fn interpolates_multiple_refs_in_one_token() {
    let mut w = World::new();
    let mut interp = Interpreter::new();
    assign(&mut w, &mut interp, &["string", "=", "example string"]);
    let expanded = expand(&mut w, &interp, &[bare("$string:$string")]);
    assert_eq!(expanded, vec!["example string:example string".to_string()]);
}

#[test]
fn array_slicing_matches_manual() {
    let mut w = World::new();
    let mut interp = Interpreter::new();
    assign(&mut w, &mut interp, &["array", "=", "[{1...10}]"]);
    assert_eq!(
        expand(&mut w, &interp, &[bare("@array[0..5]")]),
        vec![
            "1".to_string(),
            "2".to_string(),
            "3".to_string(),
            "4".to_string(),
            "5".to_string()
        ]
    );
    assert_eq!(
        expand(&mut w, &interp, &[bare("@array[0...5]")]),
        vec!["1", "2", "3", "4", "5", "6"]
            .into_iter()
            .map(String::from)
            .collect::<Vec<_>>()
    );
}

#[test]
fn string_slicing_matches_manual() {
    let mut w = World::new();
    let mut interp = Interpreter::new();
    assign(&mut w, &mut interp, &["string", "=", "hello world"]);
    assert_eq!(
        expand(&mut w, &interp, &[bare("$string[..5]")]),
        vec!["hello".to_string()]
    );
    assert_eq!(
        expand(&mut w, &interp, &[bare("$string[6..]")]),
        vec!["world".to_string()]
    );
}

#[test]
fn interp_single_index_matches_manual() {
    let mut w = World::new();
    let mut interp = Interpreter::new();
    assign(&mut w, &mut interp, &["array", "=", "[ 1 2 3 4 5 ]"]);
    assert_eq!(
        expand(&mut w, &interp, &[bare("@array[0]")]),
        vec!["1".to_string()]
    );
}

#[test]
fn brace_range_expands_as_bare_token() {
    let mut w = World::new();
    let interp = Interpreter::new();
    let expanded = expand(&mut w, &interp, &[bare("{1..10}")]);
    assert_eq!(
        expanded,
        vec!["1", "2", "3", "4", "5", "6", "7", "8", "9"]
            .into_iter()
            .map(String::from)
            .collect::<Vec<_>>()
    );
    let expanded = expand(&mut w, &interp, &[bare("{a..d}")]);
    assert_eq!(
        expanded,
        vec!["a".to_string(), "b".to_string(), "c".to_string()]
    );
}

#[test]
fn brace_permutation_expands_as_infix_with_interpolation() {
    let mut w = World::new();
    let interp = Interpreter::new();
    let expanded = expand(&mut w, &interp, &[bare("filename.{ext1,ext2}")]);
    assert_eq!(
        expanded,
        vec!["filename.ext1".to_string(), "filename.ext2".to_string()]
    );

    let expanded = expand(&mut w, &interp, &[bare("job_{01,02}.{ext1,ext2}")]);
    assert_eq!(
        expanded,
        vec![
            "job_01.ext1".to_string(),
            "job_01.ext2".to_string(),
            "job_02.ext1".to_string(),
            "job_02.ext2".to_string(),
        ]
    );

    let mut interp = interp;
    interp.set_scalar("name".to_string(), "report".to_string());
    let expanded = expand(&mut w, &interp, &[bare("$name.{a,b}")]);
    assert_eq!(
        expanded,
        vec!["report.a".to_string(), "report.b".to_string()]
    );
}

#[test]
fn dollar_brace_disambiguation_survives_permutation_pass() {
    let mut w = World::new();
    let mut interp = Interpreter::new();
    interp.set_scalar("name".to_string(), "val".to_string());
    let expanded = expand(&mut w, &interp, &[bare("${name}suffix")]);
    assert_eq!(expanded, vec!["valsuffix".to_string()]);
}

#[test]
fn process_expansion_slicing_works() {
    let mut w = World::new();
    let interp = Interpreter::new();
    let expanded = expand(&mut w, &interp, &[bare("$(cmd /c echo hello world)[..5]")]);
    assert_eq!(expanded, vec!["hello".to_string()]);
    let expanded = expand(&mut w, &interp, &[bare("@(cmd /c echo one two three)[0]")]);
    assert_eq!(expanded, vec!["one".to_string()]);
}

#[test]
fn array_literal_method_arg_resolves_to_elements() {
    let mut w = World::new();
    let interp = Interpreter::new();
    assert_eq!(
        expand(&mut w, &interp, &[bare("$len([one two three four])")]),
        vec!["4".to_string()]
    );
    assert_eq!(
        expand(&mut w, &interp, &[bare("@reverse([1 2 3])")]),
        vec!["3".to_string(), "2".to_string(), "1".to_string()]
    );
}

#[test]
fn method_call_bare_word_arg_resolves_variable_by_name() {
    let mut w = World::new();
    let mut interp = Interpreter::new();
    assign(&mut w, &mut interp, &["input", "=", "one two one two"]);
    let expanded = expand(&mut w, &interp, &[bare("$replace(input one 1)")]);
    assert_eq!(expanded, vec!["1 two 1 two".to_string()]);
}

#[test]
fn nested_method_calls_work() {
    let mut w = World::new();
    let interp = Interpreter::new();
    let expanded = expand(&mut w, &interp, &[bare("@lines($unescape(\"firstline\\nsecondline\"))")]);
    assert_eq!(
        expanded,
        vec!["firstline".to_string(), "secondline".to_string()]
    );
}

#[test]
fn env_namespace_reads_os_environment() {
    let mut w = World::new();
    let interp = Interpreter::new();
    w.environment.insert("ION_WIN_TEST_ENV_VAR_XYZ".to_string(), "hello_env".to_string());
    let expanded = expand(&mut w, &interp, &[bare("${env::ION_WIN_TEST_ENV_VAR_XYZ}")]);
    assert_eq!(expanded, vec!["hello_env".to_string()]);
}

#[test]
fn env_namespace_undefined_var_is_empty_not_error() {
    let mut w = World::new();
    let interp = Interpreter::new();
    let expanded = expand(&mut w, &interp, &[bare("${env::ION_WIN_TEST_DEFINITELY_UNDEFINED_XYZ}")]);
    assert_eq!(expanded, vec![String::new()]);
}

#[test]
fn export_sets_scalar_and_os_environment() {
    let mut w = World::new();
    let mut interp = Interpreter::new();
    let exported = export(&mut w, &mut interp, &[
        "ION_WIN_TEST_EXPORT_XYZ",
        "=",
        "exported_value",
    ]);
    assert_eq!(
        interp.get_scalar("ION_WIN_TEST_EXPORT_XYZ").unwrap(),
        "exported_value"
    );
    let (os_name, os_value) = exported.unwrap();
    assert_eq!(os_name, "ION_WIN_TEST_EXPORT_XYZ");
    assert_eq!(os_value, "exported_value");
}

#[test]
fn export_rejects_array_rhs() {
    let mut w = World::new();
    let mut interp = Interpreter::new();
    let exported = export(&mut w, &mut interp, &[
        "ION_WIN_TEST_EXPORT_ARR_XYZ",
        "=",
        "[ a b c ]",
    ]);
    assert!(interp.get_scalar("ION_WIN_TEST_EXPORT_ARR_XYZ").is_none());
    assert!(exported.is_none());
}

#[test]
fn scalar_process_expansion_captures_stdout() {
    let mut w = World::new();
    let interp = Interpreter::new();
    let expanded = expand(&mut w, &interp, &[bare("$(cmd /c echo hello world)")]);
    assert_eq!(expanded, vec!["hello world".to_string()]);
}

#[test]
fn array_process_expansion_fans_out() {
    let mut w = World::new();
    let interp = Interpreter::new();
    let expanded = expand(&mut w, &interp, &[bare("@(cmd /c echo hello world)")]);
    assert_eq!(expanded, vec!["hello".to_string(), "world".to_string()]);
}

#[test]
fn embedded_process_expansion_coerces_to_string() {
    let mut w = World::new();
    let interp = Interpreter::new();
    let tokens = Interpreter::tokenize(r#"echo "result: @(cmd /c echo hello world)""#);
    let expanded = expand(&mut w, &interp, &tokens[1..]);
    assert_eq!(expanded, vec!["result: hello world".to_string()]);
}

#[test]
fn process_expansion_of_echo_runs_in_process() {
    let mut w = World::new();
    let interp = Interpreter::new();
    let expanded = expand(&mut w, &interp, &[bare("$(echo in-process)")]);
    assert_eq!(expanded, vec!["in-process".to_string()]);
}

#[test]
fn pipes_inside_process_expansion_are_rejected() {
    let mut w = World::new();
    let interp = Interpreter::new();
    let _ = expand(&mut w, &interp, &[bare("$(cmd1 | cmd2)")]);
}

#[test]
fn braced_scalar_interpolation() {
    let mut w = World::new();
    let mut interp = Interpreter::new();
    assign(&mut w, &mut interp, &["hello", "=", "hello123"]);
    let expanded = expand(&mut w, &interp, &[bare("${hello}world")]);
    assert_eq!(expanded, vec!["hello123world".to_string()]);
}

#[test]
fn braced_array_interpolation_joins_with_spaces() {
    let mut w = World::new();
    let mut interp = Interpreter::new();
    assign(&mut w, &mut interp, &["hello", "=", "[ hello 123 ' ' ]"]);
    let expanded = expand(&mut w, &interp, &[bare("@{hello}world")]);
    assert_eq!(expanded, vec!["hello 123  world".to_string()]);
}

#[test]
fn bare_array_token_still_fans_out() {
    let mut w = World::new();
    let mut interp = Interpreter::new();
    assign(&mut w, &mut interp, &["arr", "=", "[ one two three ]"]);
    let expanded = expand(&mut w, &interp, &[bare("@arr")]);
    assert_eq!(
        expanded,
        vec!["one".to_string(), "two".to_string(), "three".to_string()]
    );
}

#[test]
fn double_quoted_array_coerces_to_single_string() {
    let mut w = World::new();
    let mut interp = Interpreter::new();
    assign(&mut w, &mut interp, &["arr", "=", "[ one two three ]"]);
    let tokens = Interpreter::tokenize(r#"echo "@arr""#);
    let expanded = expand(&mut w, &interp, &tokens[1..]);
    assert_eq!(expanded, vec!["one two three".to_string()]);
}

#[test]
fn single_quotes_suppress_expansion() {
    let mut w = World::new();
    let interp = Interpreter::new();
    let tokens = Interpreter::tokenize("echo '$undefined_var @also_undefined'");
    let expanded = expand(&mut w, &interp, &tokens[1..]);
    assert_eq!(expanded, vec!["$undefined_var @also_undefined".to_string()]);
}

#[test]
fn scalar_roundtrip() {
    let mut w = World::new();
    let mut interp = Interpreter::new();
    assign(&mut w, &mut interp, &["x", "=", "hello"]);
    assert_eq!(interp.get_scalar("x"), Some(&"hello".to_string()));
    let expanded = expand(&mut w, &interp, &[bare("$x")]);
    assert_eq!(expanded, vec!["hello".to_string()]);
}

#[test]
fn array_roundtrip() {
    let mut w = World::new();
    let mut interp = Interpreter::new();
    assign(&mut w, &mut interp, &["arr", "=", "[ one two three ]"]);
    let expanded = expand(&mut w, &interp, &[bare("@arr")]);
    assert_eq!(
        expanded,
        vec!["one".to_string(), "two".to_string(), "three".to_string()]
    );
}

#[test]
fn scope_teardown_matches_manual_worked_example() {
    let mut w = World::new();
    let mut interp = Interpreter::new();
    assign(&mut w, &mut interp, &["x", "=", "5"]);

    interp.push_scope();
    assign(&mut w, &mut interp, &["x", "=", "2"]);
    assign(&mut w, &mut interp, &["y", "=", "3"]);
    assert_eq!(interp.get_scalar("x"), Some(&"2".to_string()));
    assert_eq!(interp.get_scalar("y"), Some(&"3".to_string()));
    interp.pop_scope();

    assert_eq!(interp.get_scalar("x"), Some(&"2".to_string()));
    assert_eq!(interp.get_scalar("y"), None);
}

#[test]
fn nested_scope_new_variable_is_destroyed_but_outer_survives() {
    let mut w = World::new();
    let mut interp = Interpreter::new();
    interp.push_scope();
    assign(&mut w, &mut interp, &["a", "=", "outer"]);
    interp.push_scope();
    assign(&mut w, &mut interp, &["b", "=", "inner"]);
    assert_eq!(interp.get_scalar("a"), Some(&"outer".to_string()));
    assert_eq!(interp.get_scalar("b"), Some(&"inner".to_string()));
    interp.pop_scope();
    assert_eq!(interp.get_scalar("a"), Some(&"outer".to_string()));
    assert_eq!(interp.get_scalar("b"), None);
    interp.pop_scope();
    assert_eq!(interp.get_scalar("a"), None);
}

#[test]
fn pop_scope_never_pops_the_global_frame() {
    let mut w = World::new();
    let mut interp = Interpreter::new();
    assign(&mut w, &mut interp, &["x", "=", "global"]);
    interp.pop_scope(); // no matching push — must be a no-op, not a panic
    interp.pop_scope();
    assert_eq!(interp.get_scalar("x"), Some(&"global".to_string()));
}

#[test]
fn previous_status_defaults_true_and_roundtrips() {
    let mut interp = Interpreter::new();
    assert!(interp.previous_status());
    interp.set_previous_status(false);
    assert!(!interp.previous_status());
    interp.set_previous_status(true);
    assert!(interp.previous_status());
}

#[test]
fn isolate_global_scope_hides_local_but_not_global_variables() {
    let mut w = World::new();
    let mut interp = Interpreter::new();
    assign(&mut w, &mut interp, &["g", "=", "global"]);
    interp.push_scope();
    assign(&mut w, &mut interp, &["l", "=", "local"]);

    let saved = interp.isolate_global_scope();
    assert_eq!(interp.get_scalar("g"), Some(&"global".to_string()));
    assert_eq!(interp.get_scalar("l"), None);
    interp.restore_scope(saved);

    assert_eq!(interp.get_scalar("l"), Some(&"local".to_string()));
}

#[test]
fn define_local_shadows_rather_than_updates_outer_variable() {
    let mut w = World::new();
    let mut interp = Interpreter::new();
    assign(&mut w, &mut interp, &["x", "=", "global"]);
    interp.push_scope();
    interp.define_local_scalar("x".to_string(), "shadowed".to_string());
    assert_eq!(interp.get_scalar("x"), Some(&"shadowed".to_string()));
    interp.pop_scope();
    assert_eq!(interp.get_scalar("x"), Some(&"global".to_string()));
}

#[test]
fn tokenize_respects_quotes_and_arrays() {
    let tokens = Interpreter::tokenize(r#"let x = "hello world""#);
    let texts: Vec<&str> = tokens.iter().map(|t| t.text.as_str()).collect();
    assert_eq!(texts, vec!["let", "x", "=", "hello world"]);
    assert_eq!(tokens[3].quoting, Quoting::Double);

    let tokens = Interpreter::tokenize("let arr = [ one two 'three four' ]");
    let texts: Vec<&str> = tokens.iter().map(|t| t.text.as_str()).collect();
    assert_eq!(texts, vec!["let", "arr", "=", "[ one two 'three four' ]"]);
    assert_eq!(tokens[3].quoting, Quoting::Bare);

    let tokens = Interpreter::tokenize("echo 'literal'");
    assert_eq!(tokens[1].quoting, Quoting::Single);
}

#[test]
fn comments_are_stripped() {
    let tokens = Interpreter::tokenize("# a whole-line comment");
    assert!(tokens.is_empty());

    let tokens = Interpreter::tokenize("echo foo # trailing comment");
    let texts: Vec<&str> = tokens.iter().map(|t| t.text.as_str()).collect();
    assert_eq!(texts, vec!["echo", "foo"]);

    let tokens = Interpreter::tokenize("#!/usr/bin/env ion");
    assert!(tokens.is_empty());

    let tokens = Interpreter::tokenize("echo file#1");
    let texts: Vec<&str> = tokens.iter().map(|t| t.text.as_str()).collect();
    assert_eq!(texts, vec!["echo", "file#1"]);
}

#[test]
fn arithmetic_matches_manual_worked_example() {
    let mut w = World::new();
    let mut interp = Interpreter::new();
    assign(&mut w, &mut interp, &["value", "=", "5"]);
    assert_eq!(interp.get_scalar("value").unwrap(), "5");

    assign(&mut w, &mut interp, &["value", "+=", "5"]);
    assert_eq!(interp.get_scalar("value").unwrap(), "10");

    assign(&mut w, &mut interp, &["value", "-=", "2"]);
    assert_eq!(interp.get_scalar("value").unwrap(), "8");

    assign(&mut w, &mut interp, &["value", "*=", "2"]);
    assert_eq!(interp.get_scalar("value").unwrap(), "16");

    assign(&mut w, &mut interp, &["value", "//=", "2"]);
    assert_eq!(interp.get_scalar("value").unwrap(), "8");

    assign(&mut w, &mut interp, &["value", "**=", "2"]);
    assert_eq!(interp.get_scalar("value").unwrap(), "64.0");

    assign(&mut w, &mut interp, &["value", "/=", "2"]);
    assert_eq!(interp.get_scalar("value").unwrap(), "32.0");
}

#[test]
fn a_missing_variable_is_reported_once() {
    let mut w = World::new();
    let interp = Interpreter::new();
    let (words, notes) = w.noted(|talk| interp.expand_all(&[bare("$nothing")], talk));
    assert_eq!(words, [""]);
    assert_eq!(notes.len(), 1);
}

#[test]
fn arithmetic_expands_in_place() {
    let mut w = World::new();
    let mut interp = Interpreter::new();
    assign(&mut w, &mut interp, &["n", "=", "4"]);
    assert_eq!(expand(&mut w, &interp, &[bare("$((n * (n + 1)))")]), ["20"]);
    assert_eq!(expand(&mut w, &interp, &[bare("$((n / 8))")]), ["0.5"]);
}

#[test]
fn a_copy_holds_the_same_and_goes_its_own_way() {
    let mut w = World::new();
    let mut interp = Interpreter::new();
    assign(&mut w, &mut interp, &["x", "=", "1"]);
    assign(&mut w, &mut interp, &["list", "=", "[ a b ]"]);
    let mut other = interp.copy();
    assert_eq!(other.get_scalar("x").unwrap(), "1");
    assert_eq!(other.get_array("list").unwrap(), &["a", "b"]);
    assign(&mut w, &mut other, &["x", "=", "2"]);
    assert_eq!(interp.get_scalar("x").unwrap(), "1");
}

#[test]
fn dropped_variables_are_gone() {
    let mut w = World::new();
    let mut interp = Interpreter::new();
    assign(&mut w, &mut interp, &["x", "=", "1"]);
    interp.builtin_drop(&[bare("x")]);
    assert!(interp.get_scalar("x").is_none());
}

#[test]
fn text_compares_to_nothing_in_arithmetic() {
    let mut w = World::new();
    let mut interp = Interpreter::new();
    assign(&mut w, &mut interp, &["x", "=", "word"]);
    let before = interp.get_scalar("x").unwrap().clone();
    assign(&mut w, &mut interp, &["x", "+=", "1"]);
    assert_eq!(interp.get_scalar("x").unwrap(), &before);
}

#[test]
fn diagnostics_name_their_stream() {
    let mut talk = Talk::open(vec![]);
    let mut interp = Interpreter::new();
    interp.builtin_let(&[bare("x")], &mut talk);
    interp.expand_all(&[bare("$nothing")], &mut talk);
    assert_eq!(talk.notes.len(), 2);
    assert_eq!(talk.notes[0].stream, Stream::Output);
    assert_eq!(talk.notes[1].stream, Stream::Error);
}

#[test]
fn the_global_scope_stays() {
    let mut interp = Interpreter::new();
    interp.pop_scope();
    interp.set_scalar("x".to_string(), "1".to_string());
    interp.set_array("l".to_string(), vec!["a".to_string()]);
    assert_eq!(interp.get_scalar("x").unwrap(), "1");
    assert_eq!(interp.get_array("l").unwrap(), &["a"]);
    interp.push_scope();
    interp.define_local_scalar("x".to_string(), "2".to_string());
    assert_eq!(interp.get_scalar("x").unwrap(), "2");
    interp.pop_scope();
    interp.pop_scope();
    assert_eq!(interp.get_scalar("x").unwrap(), "1");
}

#[test]
fn a_command_that_is_not_found_is_told_once() {
    let mut interp = Interpreter::new();
    assert!(!interp.take_command_not_found());
    interp.mark_command_not_found();
    assert!(interp.copy().take_command_not_found());
    assert!(interp.take_command_not_found());
    assert!(!interp.take_command_not_found());
}
