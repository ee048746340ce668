use ion_win::dialog::{
    Action, Answer, Entry, FileFacts, FloatCall, FloatOp, Request, StageCall, Talk,
};
use ion_win::operation::OperationJournal;
use ion_win::history::{
    append, apply_ignore_rules, default_ignore_rules, ignores_no_such_command, inspect,
    is_timestamp_marker, load, parse_records, refresh, retain_latest, seed_defaults,
    serialize_records, HistoryRecord,
};
use ion_win::interp::Interpreter;

/// Runs something until every request that it makes is answered.
#[allow(dead_code)]
fn run<R>(mut reply: impl FnMut(&Request) -> Answer, mut work: impl FnMut(&mut Talk) -> R) -> (R, Vec<String>) {
    let mut answers: Vec<Answer> = Vec::new();
    loop {
        let mut talk = Talk::open(answers.clone());
        let result = work(&mut talk);
        match talk.pending {
            None => return (result, talk.notes.into_iter().map(|note| note.text).collect()),
            Some(request) => answers.push(reply(&request)),
        }
    }
}

/// Does floating-point work.
#[allow(dead_code)]
fn float(call: &FloatCall) -> Answer {
    let of = |x: f64| Answer::Number(x.to_bits());
    match call {
        FloatCall::OfInt(i) => of(*i as f64),
        FloatCall::Parse(s) => match s.parse::<f64>() {
            Ok(x) => of(x),
            Err(_) => Answer::Missing,
        },
        FloatCall::Negate(a) => of(-f64::from_bits(*a)),
        FloatCall::Binary(op, a, b) => {
            let (a, b) = (f64::from_bits(*a), f64::from_bits(*b));
            of(match op {
                FloatOp::Add => a + b,
                FloatOp::Subtract => a - b,
                FloatOp::Multiply => a * b,
                FloatOp::Divide => a / b,
                FloatOp::Remainder => a % b,
                FloatOp::Power => a.powf(b),
                FloatOp::FloorDivide => (a / b).floor(),
            })
        },
        FloatCall::Show(a) => Answer::Text(format!("{:?}", f64::from_bits(*a))),
    }
}

/// A file or a directory of a small file system.
#[derive(Clone, Debug)]
#[allow(dead_code)]
struct Node {
    dir: bool,
    data: String,
}

/// A small world to run things in: files, an environment and a clock.
#[derive(Clone, Debug, Default)]
#[allow(dead_code)]
struct World {
    nodes: std::collections::BTreeMap<String, Node>,
    environment: std::collections::BTreeMap<String, String>,
    programs: std::collections::BTreeMap<String, String>,
    search: Vec<String>,
    archive: Option<(String, String)>,
    recycled: Vec<String>,
    printed: Vec<String>,
    interrupted: bool,
    counter: u64,
    saved: Vec<OperationJournal>,
    failing: Vec<String>,
}

#[allow(dead_code)]
impl World {
    fn new() -> World {
        let mut w = World::default();
        w.dir("/");
        w.dir("/work");
        w.dir("/temp");
        w
    }

    fn norm(&self, path: &str) -> String {
        let mut parts: Vec<String> = Vec::new();
        let path = path.replace('\\', "/");
        let whole = if path.starts_with('/') { path } else { format!("/work/{path}") };
        for part in whole.split('/') {
            match part {
                "" | "." => {},
                ".." => {
                    parts.pop();
                },
                name => parts.push(name.to_string()),
            }
        }
        format!("/{}", parts.join("/"))
    }

    fn above(path: &str) -> String {
        match path.rfind('/') {
            Some(0) | None => "/".to_string(),
            Some(i) => path[..i].to_string(),
        }
    }

    fn dir(&mut self, path: &str) {
        let path = if path == "/" { path.to_string() } else { self.norm(path) };
        if path != "/" {
            let above = World::above(&path);
            if !self.nodes.contains_key(&above) {
                self.dir(&above);
            }
        }
        self.nodes.entry(path).or_insert(Node { dir: true, data: String::new() });
    }

    fn file(&mut self, path: &str, data: &str) {
        let path = self.norm(path);
        self.dir(&World::above(&path));
        self.nodes.insert(path, Node { dir: false, data: data.to_string() });
    }

    fn read(&self, path: &str) -> Option<String> {
        self.nodes.get(&self.norm(path)).filter(|n| !n.dir).map(|n| n.data.clone())
    }

    fn has(&self, path: &str) -> bool {
        self.nodes.contains_key(&self.norm(path))
    }

    fn is_dir(&self, path: &str) -> bool {
        self.nodes.get(&self.norm(path)).is_some_and(|n| n.dir)
    }

    fn inside(&self, path: &str) -> Vec<String> {
        let start = if path == "/" { "/".to_string() } else { format!("{path}/") };
        self.nodes.keys().filter(|k| k.starts_with(&start) && k.as_str() != "/").cloned().collect()
    }

    fn remove_tree(&mut self, path: &str) {
        for k in self.inside(path) {
            self.nodes.remove(&k);
        }
        self.nodes.remove(path);
    }

    fn done(ok: bool, what: &str) -> Answer {
        if ok { Answer::Truth(true) } else { Answer::Failure(what.to_string()) }
    }

    fn act(&mut self, action: &Action) -> Answer {
        match action {
            Action::CreateDirs(p) => {
                let p = self.norm(p);
                if self.nodes.get(&p).is_some_and(|n| !n.dir) {
                    return Answer::Failure("a file is in the way".to_string());
                }
                self.dir(&p);
                Answer::Truth(true)
            },
            Action::CopyFile(a, b) => match self.read(a) {
                Some(data) if self.is_dir(&World::above(&self.norm(b))) => {
                    self.file(b, &data);
                    Answer::Truth(true)
                },
                _ => Answer::Failure("no such file".to_string()),
            },
            Action::RemoveFile(p) => {
                let p = self.norm(p);
                let ok = self.nodes.get(&p).is_some_and(|n| !n.dir);
                if ok {
                    self.nodes.remove(&p);
                }
                World::done(ok, "no such file")
            },
            Action::RemoveDir(p) => {
                let p = self.norm(p);
                let ok = self.is_dir(&p) && self.inside(&p).is_empty();
                if ok {
                    self.nodes.remove(&p);
                }
                World::done(ok, "directory not empty")
            },
            Action::RemoveTree(p) => {
                let p = self.norm(p);
                let ok = self.is_dir(&p);
                self.remove_tree(&p);
                World::done(ok, "no such directory")
            },
            Action::Rename(a, b) | Action::Replace(a, b) => {
                let (a, b) = (self.norm(a), self.norm(b));
                if !self.has(&a) || !self.is_dir(&World::above(&b)) {
                    return Answer::Failure("no such file".to_string());
                }
                let moved: Vec<(String, Node)> = self
                    .nodes
                    .iter()
                    .filter(|(k, _)| **k == a || k.starts_with(&format!("{a}/")))
                    .map(|(k, n)| (format!("{b}{}", &k[a.len()..]), n.clone()))
                    .collect();
                self.remove_tree(&a);
                for (k, n) in moved {
                    self.nodes.insert(k, n);
                }
                Answer::Truth(true)
            },
            Action::Recycle(p) => {
                let p = self.norm(p);
                let ok = self.has(&p);
                self.remove_tree(&p);
                self.recycled.push(p);
                World::done(ok, "no such file")
            },
            Action::OpenArchive(p) => {
                let p = self.norm(p);
                self.file(&p, "");
                self.archive = Some((p, String::new()));
                Answer::Truth(true)
            },
            Action::DropArchive => {
                self.archive = None;
                Answer::Truth(true)
            },
            Action::FinishArchive => match self.archive.take() {
                Some((p, data)) => {
                    self.file(&p, &data);
                    Answer::Truth(true)
                },
                None => Answer::Failure("no archive".to_string()),
            },
            Action::AddEntry(small) => match (self.read(small), &mut self.archive) {
                (Some(data), Some((_, all))) => {
                    all.push_str(&data);
                    Answer::Truth(true)
                },
                _ => Answer::Failure("no archive".to_string()),
            },
            Action::Lock(p) => {
                let p = format!("{}.lock", self.norm(p));
                self.file(&p, "");
                Answer::Truth(true)
            },
            Action::Unlock(p) => {
                let p = format!("{}.lock", self.norm(p));
                self.nodes.remove(&p);
                Answer::Truth(true)
            },
            Action::AppendText(p, s) => {
                let data = self.read(p).unwrap_or_default();
                self.file(p, &format!("{data}{s}"));
                Answer::Truth(true)
            },
            Action::WriteText(p, s) => {
                self.file(p, s);
                Answer::Truth(true)
            },
        }
    }

    fn facts(&self, path: &str) -> Option<FileFacts> {
        self.nodes.get(&self.norm(path)).map(|n| FileFacts {
            is_symlink: false,
            is_dir: n.dir,
            is_file: !n.dir,
            size: n.data.len() as u64,
            modified: Some(7),
        })
    }

    fn answer(&mut self, request: &Request) -> Answer {
        if let Some(i) = self.failing.iter().position(|f| format!("{request:?}").contains(f)) {
            self.failing.remove(i);
            return Answer::Failure("refused".to_string());
        }
        let text = |s: Option<&String>| match s {
            Some(s) => Answer::Text(s.clone()),
            None => Answer::Missing,
        };
        match request {
            Request::Environment(name) => text(self.environment.get(name)),
            Request::Exists(p) => Answer::Truth(self.has(p)),
            Request::IsFile(p) => Answer::Truth(self.read(p).is_some()),
            Request::IsDirectory(p) => Answer::Truth(self.is_dir(p)),
            Request::IsTerminal(_) => Answer::Truth(false),
            Request::ReadText(p) | Request::ReadStrict(p) => match self.read(p) {
                Some(s) => Answer::Text(s),
                None => Answer::Failure("no such file".to_string()),
            },
            Request::ListWhole(root) => self.answer(&Request::List(root.clone(), Vec::new())),
            Request::List(root, below) => {
                let mut p = self.norm(root);
                for name in below {
                    p = format!("{p}/{name}");
                }
                if !self.is_dir(&p) {
                    return Answer::Failure("no such directory".to_string());
                }
                let start = if p == "/" { 1 } else { p.len() + 1 };
                let list = self
                    .inside(&p)
                    .iter()
                    .filter(|k| !k[start..].contains('/'))
                    .map(|k| Entry {
                        name: k[start..].to_string(),
                        is_dir: self.nodes[k].dir,
                        is_file: !self.nodes[k].dir,
                    })
                    .collect();
                Answer::Entries(list)
            },
            Request::WorkingDirectory => Answer::Text("/work".to_string()),
            Request::Absolute(p) => Answer::Text(self.norm(p)),
            Request::Inspect(p) | Request::Examine(p) => match self.facts(p) {
                Some(f) => Answer::File(f),
                None => Answer::Failure("no such file".to_string()),
            },
            Request::Program(args) => text(self.programs.get(&args.join(" "))),
            Request::Float(call) => float(call),
            Request::SearchPath => Answer::Words(self.search.clone(), None),
            Request::Facts(p) => match self.facts(p) {
                Some(f) => Answer::File(f),
                None => Answer::Missing,
            },
            Request::Canonical(p) => {
                if self.has(p) {
                    Answer::Text(self.norm(p))
                } else {
                    Answer::Failure("no such file".to_string())
                }
            },
            Request::Do(action) => self.act(action),
            Request::Seconds => Answer::Number(1_700_000_000),
            Request::Nanoseconds => Answer::Number(255),
            Request::Sequence => {
                self.counter += 1;
                Answer::Number(self.counter)
            },
            Request::ProcessId => Answer::Number(42),
            Request::Interrupted => Answer::Truth(self.interrupted),
            Request::TakeInterrupt => Answer::Truth(std::mem::replace(&mut self.interrupted, false)),
            Request::Workers => Answer::Number(2),
            Request::TempDirectory => Answer::Text("/temp".to_string()),
            Request::Pack(source, name, small) => match self.read(source) {
                Some(data) => {
                    self.file(small, &format!("{name}={data};"));
                    Answer::Truth(true)
                },
                None => Answer::Truth(false),
            },
            Request::AwaitPack(small) => World::done(self.has(small), "no such file"),
            Request::SaveJournal(journal) => {
                self.saved.push(journal.clone());
                Answer::Truth(true)
            },
            Request::CheckArchive(_) => Answer::Truth(true),
            Request::BuildArchive(item, path) => {
                let mut all = String::new();
                for entry in &item.entries {
                    match self.read(&entry.source.path) {
                        Some(data) => all.push_str(&format!("{}={data};", entry.archive_name)),
                        None => return Answer::Failure("no such file".to_string()),
                    }
                }
                self.file(path, &all);
                Answer::Truth(true)
            },
            Request::Stage(StageCall::Print(s)) => {
                self.printed.push(s.clone());
                Answer::Truth(true)
            },
            _ => Answer::Missing,
        }
    }

    /// Runs something in this world; what it printed as diagnostics is given
    /// too.
    fn noted<R>(&mut self, work: impl FnMut(&mut Talk) -> R) -> (R, Vec<String>) {
        run(|request| self.answer(request), work)
    }

    /// Runs something in this world.
    fn run<R>(&mut self, work: impl FnMut(&mut Talk) -> R) -> R {
        self.noted(work).0
    }
}

fn seeded(w: &mut World, interp: &Interpreter) -> Interpreter {
    w.run(|talk| {
        let mut next = interp.copy();
        seed_defaults(&mut next, talk);
        next
    })
}

fn fresh(w: &mut World) -> Interpreter {
    let mut interp = seeded(w, &Interpreter::new());
    interp.set_scalar("HISTFILE".to_string(), "/work/history".to_string());
    interp
}

fn v(items: &[&str]) -> Vec<String> {
    items.iter().map(|s| s.to_string()).collect()
}


#[test]
fn all_rule_drops_everything() {
    let entries = v(&["echo hi", "echo bye"]);
    assert!(apply_ignore_rules(&entries, &v(&["all"])).is_empty());
}

#[test]
fn whitespace_rule_skips_space_prefixed_lines() {
    let entries = v(&["echo kept", " echo secret", "echo also kept"]);
    assert_eq!(
        apply_ignore_rules(&entries, &v(&["whitespace"])),
        v(&["echo kept", "echo also kept"])
    );
}

#[test]
fn duplicates_rule_keeps_only_latest_occurrence() {
    let entries = v(&["echo a", "echo b", "echo a", "echo c"]);
    assert_eq!(
        apply_ignore_rules(&entries, &v(&["duplicates"])),
        v(&["echo b", "echo a", "echo c"])
    );
}

#[test]
fn regex_rule_filters_matching_lines() {
    let entries = v(&["echo keep", "echo secret_token", "echo also_keep"]);
    assert_eq!(
        apply_ignore_rules(&entries, &v(&["regex:secret"])),
        v(&["echo keep", "echo also_keep"])
    );
}

#[test]
fn empty_rules_keep_everything() {
    let entries = v(&["echo a", "echo a", " echo b"]);
    assert_eq!(apply_ignore_rules(&entries, &[]), entries);
}

#[test]
fn timestamp_marker_detection() {
    assert!(is_timestamp_marker("#1700000000"));
    assert!(!is_timestamp_marker("#not-a-number"));
    assert!(!is_timestamp_marker("echo hi"));
}

#[test]
fn legacy_and_session_tagged_records_parse_together() {
    let records = parse_records(
        "echo legacy\n#@session=window-a\n#1700000000\necho tagged\n#@session=window-b\necho other\n",
    );
    assert_eq!(
        records,
        vec![
            HistoryRecord {
                timestamp: None,
                session: None,
                command: "echo legacy".to_string(),
            },
            HistoryRecord {
                timestamp: Some(1_700_000_000),
                session: Some("window-a".to_string()),
                command: "echo tagged".to_string(),
            },
            HistoryRecord {
                timestamp: None,
                session: Some("window-b".to_string()),
                command: "echo other".to_string(),
            },
        ]
    );
    assert_eq!(parse_records(&serialize_records(&records)), records);
}

#[test]
fn seed_defaults_populates_expected_variables() {
    let mut w = World::new();
    let mut interp = Interpreter::new();
    interp = seeded(&mut w, &interp);
    assert!(interp.get_scalar("HISTFILE").is_some());
    assert_eq!(interp.get_scalar("HISTFILE_ENABLED").unwrap(), "1");
    assert_eq!(interp.get_scalar("HISTFILE_SIZE").unwrap(), "100000");
    assert_eq!(interp.get_scalar("HISTORY_SIZE").unwrap(), "1000");
    assert!(interp
        .get_scalar("HISTORY_SESSION_ID")
        .is_some_and(|id| id.starts_with("s-")));
    assert_eq!(
        interp.get_array("HISTORY_IGNORE").unwrap(),
        &default_ignore_rules()
    );
    assert_eq!(interp.get_scalar("HISTORY_TIMESTAMP").unwrap(), "0");
}

#[test]
fn seed_defaults_does_not_override_user_values() {
    let mut w = World::new();
    let mut interp = Interpreter::new();
    interp.set_scalar("HISTFILE_ENABLED".to_string(), "0".to_string());
    interp = seeded(&mut w, &interp);
    assert_eq!(interp.get_scalar("HISTFILE_ENABLED").unwrap(), "0");
}

#[test]
fn session_id_is_stable_per_interpreter_and_unique_between_sessions() {
    let mut w = World::new();
    let mut first = Interpreter::new();
    first = seeded(&mut w, &first);
    let original = first.get_scalar("HISTORY_SESSION_ID").unwrap().clone();
    first = seeded(&mut w, &first);
    assert_eq!(first.get_scalar("HISTORY_SESSION_ID").unwrap(), &original);

    let mut second = Interpreter::new();
    second = seeded(&mut w, &second);
    assert_ne!(
        second.get_scalar("HISTORY_SESSION_ID").unwrap(),
        &original
    );
}

#[test]
fn no_such_command_rule_is_detected_from_current_interpreter_state() {
    let mut w = World::new();
    let mut interp = Interpreter::new();
    interp = seeded(&mut w, &interp);
    assert!(ignores_no_such_command(&interp));
    interp.set_array("HISTORY_IGNORE".to_string(), v(&["duplicates"]));
    assert!(!ignores_no_such_command(&interp));
}

#[test]
fn append_preserves_existing_commands_and_load_applies_duplicate_rule() {
    let mut w = World::new();
    let interp = fresh(&mut w);
    w.run(|talk| append(&interp, &v(&["echo first", "echo shared"]), talk));
    w.run(|talk| append(&interp, &v(&["echo second", "echo shared"]), talk));
    assert_eq!(
        w.run(|talk| load(&interp, talk)),
        v(&["echo first", "echo second", "echo shared"])
    );
    }

#[test]
fn append_respects_live_filter_and_timestamp_settings() {
    let mut w = World::new();
    let mut interp = fresh(&mut w);
    interp.set_array(
        "HISTORY_IGNORE".to_string(),
        v(&["whitespace", "regex:secret"]),
    );
    interp.set_scalar("HISTORY_TIMESTAMP".to_string(), "1".to_string());
    w.run(|talk| append(&interp, &v(&["echo kept", " echo private", "echo secret"]), talk));
    let raw = w.read("/work/history").unwrap();
    assert!(raw.lines().next().unwrap().starts_with("#@session="));
    assert!(raw.lines().any(is_timestamp_marker));
    assert_eq!(w.run(|talk| load(&interp, talk)), v(&["echo kept"]));
    }

#[test]
fn history_size_limits_the_live_recall_snapshot() {
    let mut w = World::new();
    let mut interp = fresh(&mut w);
    interp.set_array("HISTORY_IGNORE".to_string(), Vec::new());
    interp.set_scalar("HISTORY_SIZE".to_string(), "2".to_string());
    w.run(|talk| append(&interp, &v(&["echo one", "echo two", "echo three"]), talk));
    assert_eq!(w.run(|talk| load(&interp, talk)), v(&["echo two", "echo three"]));
    assert_eq!(parse_records(&w.read("/work/history").unwrap()).len(), 3);
    }

#[test]
fn histfile_size_compacts_to_latest_records_with_metadata() {
    let mut w = World::new();
    let mut interp = fresh(&mut w);
    interp.set_array("HISTORY_IGNORE".to_string(), Vec::new());
    interp.set_scalar("HISTFILE_SIZE".to_string(), "2".to_string());
    interp.set_scalar("HISTORY_TIMESTAMP".to_string(), "1".to_string());
    w.run(|talk| append(&interp, &v(&["echo one", "echo two"]), talk));
    interp.set_scalar("HISTORY_SESSION_ID".to_string(), "second-window".to_string());
    w.run(|talk| append(&interp, &v(&["echo three"]), talk));

    let records = parse_records(&w.read("/work/history").unwrap());
    assert_eq!(
        records.iter().map(|r| r.command.as_str()).collect::<Vec<&str>>(),
        vec!["echo two", "echo three"]
    );
    assert!(records.iter().all(|record| record.timestamp.is_some()));
    assert_eq!(records[1].session.as_deref(), Some("second-window"));
    }

#[test]
fn history_inspection_filters_sessions_and_lists_counts() {
    let mut w = World::new();
    let mut interp = fresh(&mut w);
    interp.set_array("HISTORY_IGNORE".to_string(), Vec::new());
    interp.set_scalar("HISTORY_SESSION_ID".to_string(), "window-a".to_string());
    w.run(|talk| append(&interp, &v(&["echo a1", "echo a2"]), talk));
    interp.set_scalar("HISTORY_SESSION_ID".to_string(), "window-b".to_string());
    w.run(|talk| append(&interp, &v(&["echo b"]), talk));

    let current = w.run(|talk| inspect(&interp, &v(&["--session", "current"]), talk)).unwrap();
    assert!(current.contains("echo b"));
    assert!(!current.contains("echo a"));
    let sessions = w.run(|talk| inspect(&interp, &v(&["--sessions"]), talk)).unwrap();
    assert!(sessions.contains("window-a\t2"));
    assert!(sessions.contains("window-b\t1"));
    }



#[test]
fn a_disabled_file_is_left_alone() {
    let mut w = World::new();
    let mut interp = fresh(&mut w);
    interp.set_scalar("HISTFILE_ENABLED".to_string(), "0".to_string());
    w.run(|talk| append(&interp, &v(&["echo one"]), talk));
    assert!(!w.has("/work/history"));
    assert!(w.run(|talk| load(&interp, talk)).is_empty());
    assert!(w.run(|talk| refresh(&interp, talk)).is_none());
}

#[test]
fn wrong_requests_to_inspect_are_refused() {
    let mut w = World::new();
    let interp = fresh(&mut w);
    assert!(w.run(|talk| inspect(&interp, &v(&["--bogus"]), talk)).is_err());
}

#[test]
fn the_latest_entries_are_retained() {
    let mut list = vec![1, 2, 3, 4];
    retain_latest(&mut list, 2);
    assert_eq!(list, [3, 4]);
    retain_latest(&mut list, 5);
    assert_eq!(list, [3, 4]);
}

#[test]
fn settings_are_filled_in_once() {
    let mut w = World::new();
    let mut interp = Interpreter::new();
    interp.set_scalar("HISTORY_SIZE".to_string(), "7".to_string());
    interp.set_scalar("other".to_string(), "x".to_string());
    let first = w.run(|talk| {
        let mut own = interp.copy();
        seed_defaults(&mut own, talk);
        own
    });
    assert_eq!(first.get_scalar("HISTORY_SIZE").unwrap(), "7");
    assert_eq!(first.get_scalar("HISTFILE_SIZE").unwrap(), "100000");
    assert_eq!(first.get_scalar("other").unwrap(), "x");
    let mut second = first.copy();
    let mut talk = Talk::open(vec![]);
    seed_defaults(&mut second, &mut talk);
    assert_eq!(talk.pending, None);
    for name in ["HISTFILE", "HISTFILE_ENABLED", "HISTFILE_SIZE", "HISTORY_SIZE", "HISTORY_SESSION_ID", "HISTORY_TIMESTAMP"] {
        assert_eq!(first.get_scalar(name), second.get_scalar(name), "{name}");
    }
    assert_eq!(first.get_array("HISTORY_IGNORE"), second.get_array("HISTORY_IGNORE"));
}
