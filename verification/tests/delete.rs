use ion_win::dialog::{
    Action, Answer, Entry, FileFacts, FloatCall, FloatOp, Request, StageCall, Talk,
};
use ion_win::operation::OperationJournal;
use ion_win::delete::{
    delete_paths, delete_table, parse_and_delete_files, parse_flags, reject_broad_target,
    DeleteOptions,
};
use ion_win::table::Table;

/// Runs something until every request that it makes is answered.
#[allow(dead_code)]
fn run<R>(mut reply: impl FnMut(&Request) -> Answer, mut work: impl FnMut(&mut Talk) -> R) -> (R, Vec<String>) {
    let mut answers: Vec<Answer> = Vec::new();
    loop {
        let mut talk = Talk::open(answers.clone());
        let result = work(&mut talk);
        match talk.pending {
            None => return (result, talk.notes.into_iter().map(|note| note.text).collect()),
            Some(request) => answers.push(reply(&request)),
        }
    }
}

/// Does floating-point work.
#[allow(dead_code)]
fn float(call: &FloatCall) -> Answer {
    let of = |x: f64| Answer::Number(x.to_bits());
    match call {
        FloatCall::OfInt(i) => of(*i as f64),
        FloatCall::Parse(s) => match s.parse::<f64>() {
            Ok(x) => of(x),
            Err(_) => Answer::Missing,
        },
        FloatCall::Negate(a) => of(-f64::from_bits(*a)),
        FloatCall::Binary(op, a, b) => {
            let (a, b) = (f64::from_bits(*a), f64::from_bits(*b));
            of(match op {
                FloatOp::Add => a + b,
                FloatOp::Subtract => a - b,
                FloatOp::Multiply => a * b,
                FloatOp::Divide => a / b,
                FloatOp::Remainder => a % b,
                FloatOp::Power => a.powf(b),
                FloatOp::FloorDivide => (a / b).floor(),
            })
        },
        FloatCall::Show(a) => Answer::Text(format!("{:?}", f64::from_bits(*a))),
    }
}

/// A file or a directory of a small file system.
#[derive(Clone, Debug)]
#[allow(dead_code)]
struct Node {
    dir: bool,
    data: String,
}

/// A small world to run things in: files, an environment and a clock.
#[derive(Clone, Debug, Default)]
#[allow(dead_code)]
struct World {
    nodes: std::collections::BTreeMap<String, Node>,
    environment: std::collections::BTreeMap<String, String>,
    programs: std::collections::BTreeMap<String, String>,
    search: Vec<String>,
    archive: Option<(String, String)>,
    recycled: Vec<String>,
    printed: Vec<String>,
    interrupted: bool,
    counter: u64,
    saved: Vec<OperationJournal>,
    failing: Vec<String>,
}

#[allow(dead_code)]
impl World {
    fn new() -> World {
        let mut w = World::default();
        w.dir("/");
        w.dir("/work");
        w.dir("/temp");
        w
    }

    fn norm(&self, path: &str) -> String {
        let mut parts: Vec<String> = Vec::new();
        let path = path.replace('\\', "/");
        let whole = if path.starts_with('/') { path } else { format!("/work/{path}") };
        for part in whole.split('/') {
            match part {
                "" | "." => {},
                ".." => {
                    parts.pop();
                },
                name => parts.push(name.to_string()),
            }
        }
        format!("/{}", parts.join("/"))
    }

    fn above(path: &str) -> String {
        match path.rfind('/') {
            Some(0) | None => "/".to_string(),
            Some(i) => path[..i].to_string(),
        }
    }

    fn dir(&mut self, path: &str) {
        let path = if path == "/" { path.to_string() } else { self.norm(path) };
        if path != "/" {
            let above = World::above(&path);
            if !self.nodes.contains_key(&above) {
                self.dir(&above);
            }
        }
        self.nodes.entry(path).or_insert(Node { dir: true, data: String::new() });
    }

    fn file(&mut self, path: &str, data: &str) {
        let path = self.norm(path);
        self.dir(&World::above(&path));
        self.nodes.insert(path, Node { dir: false, data: data.to_string() });
    }

    fn read(&self, path: &str) -> Option<String> {
        self.nodes.get(&self.norm(path)).filter(|n| !n.dir).map(|n| n.data.clone())
    }

    fn has(&self, path: &str) -> bool {
        self.nodes.contains_key(&self.norm(path))
    }

    fn is_dir(&self, path: &str) -> bool {
        self.nodes.get(&self.norm(path)).is_some_and(|n| n.dir)
    }

    fn inside(&self, path: &str) -> Vec<String> {
        let start = if path == "/" { "/".to_string() } else { format!("{path}/") };
        self.nodes.keys().filter(|k| k.starts_with(&start) && k.as_str() != "/").cloned().collect()
    }

    fn remove_tree(&mut self, path: &str) {
        for k in self.inside(path) {
            self.nodes.remove(&k);
        }
        self.nodes.remove(path);
    }

    fn done(ok: bool, what: &str) -> Answer {
        if ok { Answer::Truth(true) } else { Answer::Failure(what.to_string()) }
    }

    fn act(&mut self, action: &Action) -> Answer {
        match action {
            Action::CreateDirs(p) => {
                let p = self.norm(p);
                if self.nodes.get(&p).is_some_and(|n| !n.dir) {
                    return Answer::Failure("a file is in the way".to_string());
                }
                self.dir(&p);
                Answer::Truth(true)
            },
            Action::CopyFile(a, b) => match self.read(a) {
                Some(data) if self.is_dir(&World::above(&self.norm(b))) => {
                    self.file(b, &data);
                    Answer::Truth(true)
                },
                _ => Answer::Failure("no such file".to_string()),
            },
            Action::RemoveFile(p) => {
                let p = self.norm(p);
                let ok = self.nodes.get(&p).is_some_and(|n| !n.dir);
                if ok {
                    self.nodes.remove(&p);
                }
                World::done(ok, "no such file")
            },
            Action::RemoveDir(p) => {
                let p = self.norm(p);
                let ok = self.is_dir(&p) && self.inside(&p).is_empty();
                if ok {
                    self.nodes.remove(&p);
                }
                World::done(ok, "directory not empty")
            },
            Action::RemoveTree(p) => {
                let p = self.norm(p);
                let ok = self.is_dir(&p);
                self.remove_tree(&p);
                World::done(ok, "no such directory")
            },
            Action::Rename(a, b) | Action::Replace(a, b) => {
                let (a, b) = (self.norm(a), self.norm(b));
                if !self.has(&a) || !self.is_dir(&World::above(&b)) {
                    return Answer::Failure("no such file".to_string());
                }
                let moved: Vec<(String, Node)> = self
                    .nodes
                    .iter()
                    .filter(|(k, _)| **k == a || k.starts_with(&format!("{a}/")))
                    .map(|(k, n)| (format!("{b}{}", &k[a.len()..]), n.clone()))
                    .collect();
                self.remove_tree(&a);
                for (k, n) in moved {
                    self.nodes.insert(k, n);
                }
                Answer::Truth(true)
            },
            Action::Recycle(p) => {
                let p = self.norm(p);
                let ok = self.has(&p);
                self.remove_tree(&p);
                self.recycled.push(p);
                World::done(ok, "no such file")
            },
            Action::OpenArchive(p) => {
                let p = self.norm(p);
                self.file(&p, "");
                self.archive = Some((p, String::new()));
                Answer::Truth(true)
            },
            Action::DropArchive => {
                self.archive = None;
                Answer::Truth(true)
            },
            Action::FinishArchive => match self.archive.take() {
                Some((p, data)) => {
                    self.file(&p, &data);
                    Answer::Truth(true)
                },
                None => Answer::Failure("no archive".to_string()),
            },
            Action::AddEntry(small) => match (self.read(small), &mut self.archive) {
                (Some(data), Some((_, all))) => {
                    all.push_str(&data);
                    Answer::Truth(true)
                },
                _ => Answer::Failure("no archive".to_string()),
            },
            Action::Lock(p) => {
                let p = format!("{}.lock", self.norm(p));
                self.file(&p, "");
                Answer::Truth(true)
            },
            Action::Unlock(p) => {
                let p = format!("{}.lock", self.norm(p));
                self.nodes.remove(&p);
                Answer::Truth(true)
            },
            Action::AppendText(p, s) => {
                let data = self.read(p).unwrap_or_default();
                self.file(p, &format!("{data}{s}"));
                Answer::Truth(true)
            },
            Action::WriteText(p, s) => {
                self.file(p, s);
                Answer::Truth(true)
            },
        }
    }

    fn facts(&self, path: &str) -> Option<FileFacts> {
        self.nodes.get(&self.norm(path)).map(|n| FileFacts {
            is_symlink: false,
            is_dir: n.dir,
            is_file: !n.dir,
            size: n.data.len() as u64,
            modified: Some(7),
        })
    }

    fn answer(&mut self, request: &Request) -> Answer {
        if let Some(i) = self.failing.iter().position(|f| format!("{request:?}").contains(f)) {
            self.failing.remove(i);
            return Answer::Failure("refused".to_string());
        }
        let text = |s: Option<&String>| match s {
            Some(s) => Answer::Text(s.clone()),
            None => Answer::Missing,
        };
        match request {
            Request::Environment(name) => text(self.environment.get(name)),
            Request::Exists(p) => Answer::Truth(self.has(p)),
            Request::IsFile(p) => Answer::Truth(self.read(p).is_some()),
            Request::IsDirectory(p) => Answer::Truth(self.is_dir(p)),
            Request::IsTerminal(_) => Answer::Truth(false),
            Request::ReadText(p) | Request::ReadStrict(p) => match self.read(p) {
                Some(s) => Answer::Text(s),
                None => Answer::Failure("no such file".to_string()),
            },
            Request::ListWhole(root) => self.answer(&Request::List(root.clone(), Vec::new())),
            Request::List(root, below) => {
                let mut p = self.norm(root);
                for name in below {
                    p = format!("{p}/{name}");
                }
                if !self.is_dir(&p) {
                    return Answer::Failure("no such directory".to_string());
                }
                let start = if p == "/" { 1 } else { p.len() + 1 };
                let list = self
                    .inside(&p)
                    .iter()
                    .filter(|k| !k[start..].contains('/'))
                    .map(|k| Entry {
                        name: k[start..].to_string(),
                        is_dir: self.nodes[k].dir,
                        is_file: !self.nodes[k].dir,
                    })
                    .collect();
                Answer::Entries(list)
            },
            Request::WorkingDirectory => Answer::Text("/work".to_string()),
            Request::Absolute(p) => Answer::Text(self.norm(p)),
            Request::Inspect(p) | Request::Examine(p) => match self.facts(p) {
                Some(f) => Answer::File(f),
                None => Answer::Failure("no such file".to_string()),
            },
            Request::Program(args) => text(self.programs.get(&args.join(" "))),
            Request::Float(call) => float(call),
            Request::SearchPath => Answer::Words(self.search.clone(), None),
            Request::Facts(p) => match self.facts(p) {
                Some(f) => Answer::File(f),
                None => Answer::Missing,
            },
            Request::Canonical(p) => {
                if self.has(p) {
                    Answer::Text(self.norm(p))
                } else {
                    Answer::Failure("no such file".to_string())
                }
            },
            Request::Do(action) => self.act(action),
            Request::Seconds => Answer::Number(1_700_000_000),
            Request::Nanoseconds => Answer::Number(255),
            Request::Sequence => {
                self.counter += 1;
                Answer::Number(self.counter)
            },
            Request::ProcessId => Answer::Number(42),
            Request::Interrupted => Answer::Truth(self.interrupted),
            Request::TakeInterrupt => Answer::Truth(std::mem::replace(&mut self.interrupted, false)),
            Request::Workers => Answer::Number(2),
            Request::TempDirectory => Answer::Text("/temp".to_string()),
            Request::Pack(source, name, small) => match self.read(source) {
                Some(data) => {
                    self.file(small, &format!("{name}={data};"));
                    Answer::Truth(true)
                },
                None => Answer::Truth(false),
            },
            Request::AwaitPack(small) => World::done(self.has(small), "no such file"),
            Request::SaveJournal(journal) => {
                self.saved.push(journal.clone());
                Answer::Truth(true)
            },
            Request::CheckArchive(_) => Answer::Truth(true),
            Request::BuildArchive(item, path) => {
                let mut all = String::new();
                for entry in &item.entries {
                    match self.read(&entry.source.path) {
                        Some(data) => all.push_str(&format!("{}={data};", entry.archive_name)),
                        None => return Answer::Failure("no such file".to_string()),
                    }
                }
                self.file(path, &all);
                Answer::Truth(true)
            },
            Request::Stage(StageCall::Print(s)) => {
                self.printed.push(s.clone());
                Answer::Truth(true)
            },
            _ => Answer::Missing,
        }
    }

    /// Runs something in this world; what it printed as diagnostics is given
    /// too.
    fn noted<R>(&mut self, work: impl FnMut(&mut Talk) -> R) -> (R, Vec<String>) {
        run(|request| self.answer(request), work)
    }

    /// Runs something in this world.
    fn run<R>(&mut self, work: impl FnMut(&mut Talk) -> R) -> R {
        self.noted(work).0
    }
}

fn strings(values: &[&str]) -> Vec<String> {
    values.iter().map(|value| value.to_string()).collect()
}

fn rows(paths: &[(&str, &str)]) -> Table {
    Table { rows: paths.iter().map(|(c, v)| vec![(c.to_string(), v.to_string())]).collect() }
}


const PERMANENT: DeleteOptions = DeleteOptions { permanent: true, force: true, recurse: false };

#[test]
fn permanent_requires_force_and_unknown_flags_are_rejected() {
    let err = parse_flags(&["--permanent".to_string(), "a.txt".to_string()]).unwrap_err();
    assert!(
        err.contains("requires both --permanent and --force"),
        "{err}"
    );
    let err = parse_flags(&["--bogus".to_string()]).unwrap_err();
    assert!(err.contains("unknown option"), "{err}");
}

#[test]
fn permanent_file_delete_requires_explicit_pair_and_deletes() {
    let mut w = World::new();
    w.file("/d/gone.txt", "data");
    let result = w.run(|t| delete_paths(&strings(&["/d/gone.txt"]), PERMANENT, t));
    assert_eq!(
        result,
        "ion-win: delete: permanently deleted 1 item(s), skipped 0, failed 0"
    );
    assert!(!w.has("/d/gone.txt"));
}

#[test]
fn directory_requires_recurse_then_deletes_tree() {
    let mut w = World::new();
    w.file("/d/tree/nested/file.txt", "data");
    let path = strings(&["/d/tree"]);
    let refused = w.run(|t| delete_paths(&path, PERMANENT, t));
    assert_eq!(
        refused,
        "ion-win: delete: permanently deleted 0 item(s), skipped 0, failed 1"
    );
    assert!(w.has("/d/tree"));
    let deep = DeleteOptions { recurse: true, ..PERMANENT };
    let deleted = w.run(|t| delete_paths(&path, deep, t));
    assert_eq!(
        deleted,
        "ion-win: delete: permanently deleted 1 item(s), skipped 0, failed 0"
    );
    assert!(!w.has("/d/tree"));
}

#[test]
fn missing_paths_and_table_rows_are_counted_as_skipped() {
    let mut w = World::new();
    let table = rows(&[("path", "/d/missing.txt"), ("name", "no-path")]);
    let result = w.run(|t| delete_table(&table, PERMANENT, t));
    assert_eq!(
        result,
        "ion-win: delete: permanently deleted 0 item(s), skipped 2, failed 0"
    );
}

#[test]
fn current_directory_and_filesystem_root_are_rejected() {
    let mut w = World::new();
    assert!(w.run(|t| reject_broad_target("/work", t)).is_err());
    assert!(w.run(|t| reject_broad_target("/", t)).is_err());
    w.dir("/work/inner");
    assert!(w.run(|t| reject_broad_target("/work/inner", t)).is_ok());
}

#[test]
fn what_is_not_permanent_goes_to_the_recycle_bin() {
    let mut w = World::new();
    w.file("/d/a.txt", "data");
    let result = w.run(|t| parse_and_delete_files(&strings(&["/d/a.txt"]), t)).unwrap();
    assert!(result.contains("1 item(s)"), "{result}");
    assert_eq!(w.recycled, ["/d/a.txt"]);
    assert!(!w.has("/d/a.txt"));
}

fn broad(canonical: &str, working: &str) -> Result<(), String> {
    run(
        |request| match request {
            Request::Canonical(path) if path == "target" => Answer::Text(canonical.to_string()),
            Request::Canonical(path) => Answer::Text(path.clone()),
            Request::WorkingDirectory => Answer::Text(working.to_string()),
            other => panic!("{other:?}"),
        },
        |talk| reject_broad_target("target", talk),
    )
    .0
}

#[test]
fn the_roots_of_drives_and_shares_are_rejected() {
    let working = r"\\?\C:\Users\me";
    for root in [
        r"\\?\C:\", r"\\?\D:\", "D:\\", r"\\server\share\", r"\\?\UNC\server\share\",
        r"\\.\Volume1\",
    ] {
        let error = broad(root, working).unwrap_err();
        assert_eq!(error, "target: refusing to delete a filesystem root", "{root}");
    }
    let refused = "target: refusing to delete the current directory or one of its ancestors";
    assert_eq!(broad(r"\\?\C:\Users", working).unwrap_err(), refused);
    assert_eq!(broad(r"\\?\C:\Users\me", working).unwrap_err(), refused);
    assert!(broad(r"\\?\C:\Users\other", working).is_ok());
    assert!(broad(r"\\server\share\folder", working).is_ok());
}
