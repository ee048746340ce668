use ion_win::dialog::{
    Action, Answer, Entry, FileFacts, FloatCall, FloatOp, Request, StageCall, Talk,
};
use ion_win::delete::DeleteOptions;
use ion_win::fileset::{FileIdentity, FileKind, FileRecord, FileSet};
use ion_win::journal::{hex_file_id, parse_file_id};
use ion_win::operation::{
    transactional_rollback, ArchivePlan, ArchivePlanEntry, ArchivePlanItem, JournalOutput,
    OperationJournal, OperationPlan, PlannedOperation, RecoveryStep,
};
use ion_win::paths::table_row_target;
use ion_win::table::Table;

/// Runs something until every request that it makes is answered.
#[allow(dead_code)]
fn run<R>(mut reply: impl FnMut(&Request) -> Answer, mut work: impl FnMut(&mut Talk) -> R) -> (R, Vec<String>) {
    let mut answers: Vec<Answer> = Vec::new();
    loop {
        let mut talk = Talk::open(answers.clone());
        let result = work(&mut talk);
        match talk.pending {
            None => return (result, talk.notes.into_iter().map(|note| note.text).collect()),
            Some(request) => answers.push(reply(&request)),
        }
    }
}

/// Does floating-point work.
#[allow(dead_code)]
fn float(call: &FloatCall) -> Answer {
    let of = |x: f64| Answer::Number(x.to_bits());
    match call {
        FloatCall::OfInt(i) => of(*i as f64),
        FloatCall::Parse(s) => match s.parse::<f64>() {
            Ok(x) => of(x),
            Err(_) => Answer::Missing,
        },
        FloatCall::Negate(a) => of(-f64::from_bits(*a)),
        FloatCall::Binary(op, a, b) => {
            let (a, b) = (f64::from_bits(*a), f64::from_bits(*b));
            of(match op {
                FloatOp::Add => a + b,
                FloatOp::Subtract => a - b,
                FloatOp::Multiply => a * b,
                FloatOp::Divide => a / b,
                FloatOp::Remainder => a % b,
                FloatOp::Power => a.powf(b),
                FloatOp::FloorDivide => (a / b).floor(),
            })
        },
        FloatCall::Show(a) => Answer::Text(format!("{:?}", f64::from_bits(*a))),
    }
}

/// A file or a directory of a small file system.
#[derive(Clone, Debug)]
#[allow(dead_code)]
struct Node {
    dir: bool,
    data: String,
}

/// A small world to run things in: files, an environment and a clock.
#[derive(Clone, Debug, Default)]
#[allow(dead_code)]
struct World {
    nodes: std::collections::BTreeMap<String, Node>,
    environment: std::collections::BTreeMap<String, String>,
    programs: std::collections::BTreeMap<String, String>,
    search: Vec<String>,
    archive: Option<(String, String)>,
    recycled: Vec<String>,
    printed: Vec<String>,
    interrupted: bool,
    counter: u64,
    saved: Vec<OperationJournal>,
    failing: Vec<String>,
}

#[allow(dead_code)]
impl World {
    fn new() -> World {
        let mut w = World::default();
        w.dir("/");
        w.dir("/work");
        w.dir("/temp");
        w
    }

    fn norm(&self, path: &str) -> String {
        let mut parts: Vec<String> = Vec::new();
        let path = path.replace('\\', "/");
        let whole = if path.starts_with('/') { path } else { format!("/work/{path}") };
        for part in whole.split('/') {
            match part {
                "" | "." => {},
                ".." => {
                    parts.pop();
                },
                name => parts.push(name.to_string()),
            }
        }
        format!("/{}", parts.join("/"))
    }

    fn above(path: &str) -> String {
        match path.rfind('/') {
            Some(0) | None => "/".to_string(),
            Some(i) => path[..i].to_string(),
        }
    }

    fn dir(&mut self, path: &str) {
        let path = if path == "/" { path.to_string() } else { self.norm(path) };
        if path != "/" {
            let above = World::above(&path);
            if !self.nodes.contains_key(&above) {
                self.dir(&above);
            }
        }
        self.nodes.entry(path).or_insert(Node { dir: true, data: String::new() });
    }

    fn file(&mut self, path: &str, data: &str) {
        let path = self.norm(path);
        self.dir(&World::above(&path));
        self.nodes.insert(path, Node { dir: false, data: data.to_string() });
    }

    fn read(&self, path: &str) -> Option<String> {
        self.nodes.get(&self.norm(path)).filter(|n| !n.dir).map(|n| n.data.clone())
    }

    fn has(&self, path: &str) -> bool {
        self.nodes.contains_key(&self.norm(path))
    }

    fn is_dir(&self, path: &str) -> bool {
        self.nodes.get(&self.norm(path)).is_some_and(|n| n.dir)
    }

    fn inside(&self, path: &str) -> Vec<String> {
        let start = if path == "/" { "/".to_string() } else { format!("{path}/") };
        self.nodes.keys().filter(|k| k.starts_with(&start) && k.as_str() != "/").cloned().collect()
    }

    fn remove_tree(&mut self, path: &str) {
        for k in self.inside(path) {
            self.nodes.remove(&k);
        }
        self.nodes.remove(path);
    }

    fn done(ok: bool, what: &str) -> Answer {
        if ok { Answer::Truth(true) } else { Answer::Failure(what.to_string()) }
    }

    fn act(&mut self, action: &Action) -> Answer {
        match action {
            Action::CreateDirs(p) => {
                let p = self.norm(p);
                if self.nodes.get(&p).is_some_and(|n| !n.dir) {
                    return Answer::Failure("a file is in the way".to_string());
                }
                self.dir(&p);
                Answer::Truth(true)
            },
            Action::CopyFile(a, b) => match self.read(a) {
                Some(data) if self.is_dir(&World::above(&self.norm(b))) => {
                    self.file(b, &data);
                    Answer::Truth(true)
                },
                _ => Answer::Failure("no such file".to_string()),
            },
            Action::RemoveFile(p) => {
                let p = self.norm(p);
                let ok = self.nodes.get(&p).is_some_and(|n| !n.dir);
                if ok {
                    self.nodes.remove(&p);
                }
                World::done(ok, "no such file")
            },
            Action::RemoveDir(p) => {
                let p = self.norm(p);
                let ok = self.is_dir(&p) && self.inside(&p).is_empty();
                if ok {
                    self.nodes.remove(&p);
                }
                World::done(ok, "directory not empty")
            },
            Action::RemoveTree(p) => {
                let p = self.norm(p);
                let ok = self.is_dir(&p);
                self.remove_tree(&p);
                World::done(ok, "no such directory")
            },
            Action::Rename(a, b) | Action::Replace(a, b) => {
                let (a, b) = (self.norm(a), self.norm(b));
                if !self.has(&a) || !self.is_dir(&World::above(&b)) {
                    return Answer::Failure("no such file".to_string());
                }
                let moved: Vec<(String, Node)> = self
                    .nodes
                    .iter()
                    .filter(|(k, _)| **k == a || k.starts_with(&format!("{a}/")))
                    .map(|(k, n)| (format!("{b}{}", &k[a.len()..]), n.clone()))
                    .collect();
                self.remove_tree(&a);
                for (k, n) in moved {
                    self.nodes.insert(k, n);
                }
                Answer::Truth(true)
            },
            Action::Recycle(p) => {
                let p = self.norm(p);
                let ok = self.has(&p);
                self.remove_tree(&p);
                self.recycled.push(p);
                World::done(ok, "no such file")
            },
            Action::OpenArchive(p) => {
                let p = self.norm(p);
                self.file(&p, "");
                self.archive = Some((p, String::new()));
                Answer::Truth(true)
            },
            Action::DropArchive => {
                self.archive = None;
                Answer::Truth(true)
            },
            Action::FinishArchive => match self.archive.take() {
                Some((p, data)) => {
                    self.file(&p, &data);
                    Answer::Truth(true)
                },
                None => Answer::Failure("no archive".to_string()),
            },
            Action::AddEntry(small) => match (self.read(small), &mut self.archive) {
                (Some(data), Some((_, all))) => {
                    all.push_str(&data);
                    Answer::Truth(true)
                },
                _ => Answer::Failure("no archive".to_string()),
            },
            Action::Lock(p) => {
                let p = format!("{}.lock", self.norm(p));
                self.file(&p, "");
                Answer::Truth(true)
            },
            Action::Unlock(p) => {
                let p = format!("{}.lock", self.norm(p));
                self.nodes.remove(&p);
                Answer::Truth(true)
            },
            Action::AppendText(p, s) => {
                let data = self.read(p).unwrap_or_default();
                self.file(p, &format!("{data}{s}"));
                Answer::Truth(true)
            },
            Action::WriteText(p, s) => {
                self.file(p, s);
                Answer::Truth(true)
            },
        }
    }

    fn facts(&self, path: &str) -> Option<FileFacts> {
        self.nodes.get(&self.norm(path)).map(|n| FileFacts {
            is_symlink: false,
            is_dir: n.dir,
            is_file: !n.dir,
            size: n.data.len() as u64,
            modified: Some(7),
        })
    }

    fn answer(&mut self, request: &Request) -> Answer {
        if let Some(i) = self.failing.iter().position(|f| format!("{request:?}").contains(f)) {
            self.failing.remove(i);
            return Answer::Failure("refused".to_string());
        }
        let text = |s: Option<&String>| match s {
            Some(s) => Answer::Text(s.clone()),
            None => Answer::Missing,
        };
        match request {
            Request::Environment(name) => text(self.environment.get(name)),
            Request::Exists(p) => Answer::Truth(self.has(p)),
            Request::IsFile(p) => Answer::Truth(self.read(p).is_some()),
            Request::IsDirectory(p) => Answer::Truth(self.is_dir(p)),
            Request::IsTerminal(_) => Answer::Truth(false),
            Request::ReadText(p) | Request::ReadStrict(p) => match self.read(p) {
                Some(s) => Answer::Text(s),
                None => Answer::Failure("no such file".to_string()),
            },
            Request::ListWhole(root) => self.answer(&Request::List(root.clone(), Vec::new())),
            Request::List(root, below) => {
                let mut p = self.norm(root);
                for name in below {
                    p = format!("{p}/{name}");
                }
                if !self.is_dir(&p) {
                    return Answer::Failure("no such directory".to_string());
                }
                let start = if p == "/" { 1 } else { p.len() + 1 };
                let list = self
                    .inside(&p)
                    .iter()
                    .filter(|k| !k[start..].contains('/'))
                    .map(|k| Entry {
                        name: k[start..].to_string(),
                        is_dir: self.nodes[k].dir,
                        is_file: !self.nodes[k].dir,
                    })
                    .collect();
                Answer::Entries(list)
            },
            Request::WorkingDirectory => Answer::Text("/work".to_string()),
            Request::Absolute(p) => Answer::Text(self.norm(p)),
            Request::Inspect(p) | Request::Examine(p) => match self.facts(p) {
                Some(f) => Answer::File(f),
                None => Answer::Failure("no such file".to_string()),
            },
            Request::Program(args) => text(self.programs.get(&args.join(" "))),
            Request::Float(call) => float(call),
            Request::SearchPath => Answer::Words(self.search.clone(), None),
            Request::Facts(p) => match self.facts(p) {
                Some(f) => Answer::File(f),
                None => Answer::Missing,
            },
            Request::Canonical(p) => {
                if self.has(p) {
                    Answer::Text(self.norm(p))
                } else {
                    Answer::Failure("no such file".to_string())
                }
            },
            Request::Do(action) => self.act(action),
            Request::Seconds => Answer::Number(1_700_000_000),
            Request::Nanoseconds => Answer::Number(255),
            Request::Sequence => {
                self.counter += 1;
                Answer::Number(self.counter)
            },
            Request::ProcessId => Answer::Number(42),
            Request::Interrupted => Answer::Truth(self.interrupted),
            Request::TakeInterrupt => Answer::Truth(std::mem::replace(&mut self.interrupted, false)),
            Request::Workers => Answer::Number(2),
            Request::TempDirectory => Answer::Text("/temp".to_string()),
            Request::Pack(source, name, small) => match self.read(source) {
                Some(data) => {
                    self.file(small, &format!("{name}={data};"));
                    Answer::Truth(true)
                },
                None => Answer::Truth(false),
            },
            Request::AwaitPack(small) => World::done(self.has(small), "no such file"),
            Request::SaveJournal(journal) => {
                self.saved.push(journal.clone());
                Answer::Truth(true)
            },
            Request::CheckArchive(_) => Answer::Truth(true),
            Request::BuildArchive(item, path) => {
                let mut all = String::new();
                for entry in &item.entries {
                    match self.read(&entry.source.path) {
                        Some(data) => all.push_str(&format!("{}={data};", entry.archive_name)),
                        None => return Answer::Failure("no such file".to_string()),
                    }
                }
                self.file(path, &all);
                Answer::Truth(true)
            },
            Request::Stage(StageCall::Print(s)) => {
                self.printed.push(s.clone());
                Answer::Truth(true)
            },
            _ => Answer::Missing,
        }
    }

    /// Runs something in this world; what it printed as diagnostics is given
    /// too.
    fn noted<R>(&mut self, work: impl FnMut(&mut Talk) -> R) -> (R, Vec<String>) {
        run(|request| self.answer(request), work)
    }

    /// Runs something in this world.
    fn run<R>(&mut self, work: impl FnMut(&mut Talk) -> R) -> R {
        self.noted(work).0
    }
}


fn record(w: &mut World, path: &str) -> FileRecord {
    w.run(|t| FileRecord::from_path(path.to_string(), None, t)).unwrap()
}

fn output(w: &mut World, role: &str, path: &str, contents: &str) -> JournalOutput {
    w.file(path, contents);
    JournalOutput { role: role.to_string(), record: record(w, path), original_path: None }
}

fn journal(operation: &str, status: &str, outputs: Vec<JournalOutput>) -> OperationJournal {
    OperationJournal {
        id: "operation-1".into(),
        plan_id: "plan".into(),
        operation: operation.into(),
        started_at: 1,
        finished_at: 2,
        outputs,
        staging_paths: Vec::new(),
        remaining_steps: Vec::new(),
        remaining_archives: Vec::new(),
        resume_supported: false,
        undo_safe: true,
        status: status.into(),
        error: None,
        undone_at: None,
    }
}

#[test]
fn journal_round_trips_persistent_json() {
    let journal = OperationJournal { id: "operation-1".into(), plan_id: "plan-1".into(), operation: "compress".into(), started_at: 1, finished_at: 2, outputs: vec![JournalOutput { role: "archive".into(), record: FileRecord { path: "a.zip".into(), identity: FileIdentity { volume_id: Some(7), file_id: Some([3; 16]) }, kind: FileKind::File, size: 10, modified: Some(9), sha256: None }, original_path: None }], staging_paths: Vec::new(), remaining_steps: Vec::new(), remaining_archives: Vec::new(), resume_supported: false, undo_safe: true, status: "applied".into(), error: None, undone_at: None };
    assert_eq!(OperationJournal::from_json(&journal.to_json()).unwrap(), journal);
}

#[test]
fn undo_removes_unchanged_created_outputs() {
    let mut w = World::new();
    let made = output(&mut w, "archive", "/d/undo.zip", "archive");
    let journal = journal("compress", "applied", vec![made]);
    let undone = w.run(|t| journal.undo(t)).unwrap();
    assert!(!w.has("/d/undo.zip"));
    assert!(undone.undone_at.is_some());
}

#[test]
fn undo_validates_all_outputs_before_deleting_any() {
    let mut w = World::new();
    let first = output(&mut w, "archive", "/d/atomic-a.zip", "first");
    let second = output(&mut w, "backup", "/d/atomic-b.zip", "second");
    let journal = journal("compress", "applied", vec![first, second]);
    w.file("/d/atomic-b.zip", "changed-size");
    let error = w.run(|t| journal.undo(t)).unwrap_err();
    assert!(error.contains("output drift"), "{error}");
    assert!(w.has("/d/atomic-a.zip"), "no output may be removed when validation fails");
    assert!(w.has("/d/atomic-b.zip"));
}

fn transfer_fixture() -> (World, FileSet) {
    let mut w = World::new();
    w.file("/d/source/file.txt", "typed transfer");
    let set = FileSet::new(vec![record(&mut w, "/d/source/file.txt")], "test");
    (w, set)
}

fn destinations(plan: &OperationPlan) -> Vec<String> {
    match &plan.operation {
        PlannedOperation::Copy(plan) | PlannedOperation::Move(plan) => {
            plan.items.iter().map(|item| item.destination.clone()).collect()
        },
        _ => unreachable!(),
    }
}

#[test]
fn copy_plan_applies_and_undo_removes_the_typed_destination() {
    let (mut w, set) = transfer_fixture();
    let plan = w.run(|t| OperationPlan::copy(&set, "/d/copies", false, t)).unwrap();
    let destination = destinations(&plan)[0].clone();
    let journal = w.run(|t| plan.apply(t)).unwrap();
    assert_eq!(w.read(&destination).unwrap(), "typed transfer");
    assert!(w.has("/d/source/file.txt"));
    assert_eq!(journal.operation, "copy");
    w.run(|t| journal.undo(t)).unwrap();
    assert!(!w.has(&destination));
    assert!(w.has("/d/source/file.txt"));
}

#[test]
fn move_plan_undo_restores_the_original_path() {
    let (mut w, set) = transfer_fixture();
    let plan = w.run(|t| OperationPlan::move_files(&set, "/d/moved", false, t)).unwrap();
    let destination = destinations(&plan)[0].clone();
    let journal = w.run(|t| plan.apply(t)).unwrap();
    assert!(!w.has("/d/source/file.txt"));
    assert!(w.has(&destination));
    assert_eq!(journal.outputs[0].original_path.as_deref(), Some("/d/source/file.txt"));
    w.run(|t| journal.undo(t)).unwrap();
    assert!(!w.has(&destination));
    assert_eq!(w.read("/d/source/file.txt").unwrap(), "typed transfer");
}

#[test]
fn transfer_apply_rejects_source_drift_before_writes() {
    let (mut w, set) = transfer_fixture();
    let plan = w.run(|t| OperationPlan::copy(&set, "/d/copies", false, t)).unwrap();
    w.file("/d/source/file.txt", "changed after planning and a different size");
    let error = w.run(|t| plan.apply(t)).unwrap_err();
    assert!(error.contains("source drift"), "{error}");
    assert!(!w.has(&destinations(&plan)[0]));
}

#[test]
fn forced_transfer_that_replaces_a_destination_is_not_undoable() {
    let (mut w, set) = transfer_fixture();
    let planned = table_row_target("/d/copies", &set.files[0].path);
    w.file(&planned, "existing destination");
    let plan = w.run(|t| OperationPlan::copy(&set, "/d/copies", true, t)).unwrap();
    let journal = w.run(|t| plan.apply(t)).unwrap();
    assert!(!journal.undo_safe);
    assert!(w.run(|t| journal.undo(t)).unwrap_err().contains("cannot be safely undone"));
    assert!(w.has(&planned));
}

#[test]
fn transactional_rollback_removes_completed_safe_copy_outputs() {
    let mut w = World::new();
    let made = output(&mut w, "copy", "/d/copy.tmp", "completed copy");
    let started = journal("copy", "in_progress", vec![made]);
    let rolled = w.run(|t| {
        let mut journal = started.clone();
        transactional_rollback(&mut journal, t);
        journal
    });
    assert_eq!(rolled.status, "rolled_back");
    assert!(!w.has("/d/copy.tmp"));
}

#[test]
fn recovery_rolls_back_a_crash_checkpoint_after_identity_validation() {
    let mut w = World::new();
    let made = output(&mut w, "copy", "/d/copy.tmp", "checkpointed copy");
    let journal = journal("copy", "in_progress", vec![made]);
    assert!(journal.needs_recovery());
    let recovered = w.run(|t| journal.recover_rollback(t)).unwrap();
    assert_eq!(recovered.status, "rolled_back");
    assert!(!w.has("/d/copy.tmp"));
    assert!(!recovered.needs_recovery());
}

#[test]
fn recovery_fails_closed_when_a_checkpointed_output_drifted() {
    let mut w = World::new();
    let made = output(&mut w, "archive", "/d/drift.tmp", "before");
    let journal = journal("compress", "partially_applied", vec![made]);
    w.file("/d/drift.tmp", "changed and now a different size");
    let error = w.run(|t| journal.recover_rollback(t)).unwrap_err();
    assert!(error.contains("output drift"), "{error}");
    assert!(w.has("/d/drift.tmp"));
}

#[test]
fn recovery_removes_only_the_exact_persisted_staging_intent() {
    let mut w = World::new();
    w.file("/d/stage.tmp", "partial zip");
    w.file("/d/unrelated.tmp", "must survive");
    let mut journal = journal("compress", "in_progress", Vec::new());
    journal.staging_paths.push("/d/stage.tmp".to_string());
    let recovered = w.run(|t| journal.recover_rollback(t)).unwrap();
    assert_eq!(recovered.status, "rolled_back");
    assert!(recovered.staging_paths.is_empty());
    assert!(!w.has("/d/stage.tmp"));
    assert!(w.has("/d/unrelated.tmp"));
}

#[test]
fn delete_plan_source_drift_persists_a_failed_journal_before_writes() {
    let (mut w, set) = transfer_fixture();
    let options = DeleteOptions { permanent: false, force: false, recurse: false };
    let plan = w.run(|t| OperationPlan::delete(&set, options, t)).unwrap();
    w.file("/d/source/file.txt", "changed after delete planning");
    let error = w.run(|t| plan.apply(t)).unwrap_err();
    assert!(error.contains("source drift"), "{error}");
    assert!(w.has("/d/source/file.txt"));
    let last = w.saved.last().unwrap();
    assert_eq!(last.status, "failed");
    assert!(last.outputs.is_empty());
}

fn archive_plan(w: &mut World) -> OperationPlan {
    let source = record(w, "/d/source/file.txt");
    let item = ArchivePlanItem {
        root: "/d/source".into(),
        archive: "/d/archives/source.zip".into(),
        backup: Some("/d/backups/source.zip".into()),
        entries: vec![ArchivePlanEntry { archive_name: "file.txt".into(), source }],
    };
    let plan = ArchivePlan { items: vec![item], preview: Table { rows: Vec::new() } };
    w.run(|t| OperationPlan::archive(plan.clone(), false, t))
}

#[test]
fn archive_plan_checkpoints_each_atomic_output_and_undo_removes_them() {
    let (mut w, _) = transfer_fixture();
    let plan = archive_plan(&mut w);
    let journal = w.run(|t| plan.apply(t)).unwrap();
    assert_eq!(journal.status, "applied");
    assert_eq!(
        journal.outputs.iter().map(|output| output.role.as_str()).collect::<Vec<&str>>(),
        vec!["archive", "backup"]
    );
    assert!(journal.outputs.iter().all(|output| w.has(&output.record.path)));
    let undone = w.run(|t| journal.undo(t)).unwrap();
    assert_eq!(undone.status, "undone");
    assert!(journal.outputs.iter().all(|output| !w.has(&output.record.path)));
}

#[test]
fn archive_backup_failure_rolls_back_an_already_published_archive() {
    let (mut w, _) = transfer_fixture();
    let plan = archive_plan(&mut w);
    w.file("/d/backups", "blocks creation of the backup directory");
    let error = w.run(|t| plan.apply(t)).unwrap_err();
    assert!(error.contains("could not create"), "{error}");
    assert!(!w.has("/d/archives/source.zip"), "published archive must be rolled back");
    let last = w.saved.last().unwrap();
    assert_eq!(last.status, "rolled_back");
    assert_eq!(last.outputs.len(), 1, "the completed archive remains as evidence");
}

/// Lets an operation make some requests and then stops it for good; whether
/// it came to its end.
fn crash_after(w: &mut World, requests: usize, plan: &OperationPlan) -> bool {
    let mut answers: Vec<Answer> = Vec::new();
    loop {
        let mut talk = Talk::open(answers.clone());
        let _ = plan.apply(&mut talk);
        match talk.pending {
            None => return true,
            Some(_) if answers.len() == requests => return false,
            Some(request) => answers.push(w.answer(&request)),
        }
    }
}

fn left_below(w: &World, dirs: &[&str]) -> Vec<String> {
    dirs.iter().flat_map(|d| w.inside(d)).filter(|p| w.read(p).is_some()).collect()
}

#[test]
fn every_archive_crash_boundary_recovers_from_persisted_state_without_debris() {
    for requests in 0.. {
        let (mut w, _) = transfer_fixture();
        let plan = archive_plan(&mut w);
        let finished = crash_after(&mut w, requests, &plan);
        if finished {
            break;
        }
        let Some(journal) = w.saved.last().cloned() else {
            assert!(left_below(&w, &["/d/archives", "/d/backups"]).is_empty(), "{requests}");
            continue;
        };
        if journal.status == "in_progress" {
            let recovered = w.run(|t| journal.recover_rollback(t)).unwrap_or_else(|e| panic!("{requests}: {e}"));
            assert_eq!(recovered.status, "rolled_back", "{requests}");
            assert!(recovered.staging_paths.is_empty(), "{requests}");
            let left = left_below(&w, &["/d/archives", "/d/backups"]);
            assert!(left.is_empty(), "{requests}: {left:?}");
        }
        assert!(w.has("/d/source/file.txt"), "{requests}: recovery removed a source");
    }
}

fn two_files() -> (World, FileSet) {
    let (mut w, mut set) = transfer_fixture();
    w.file("/d/source/second.txt", "second typed transfer");
    let second = record(&mut w, "/d/source/second.txt");
    set.files.push(second);
    (w, set)
}

#[test]
fn every_copy_and_move_crash_boundary_recovers_without_unexplained_files() {
    for moving in [false, true] {
        for requests in 0.. {
            let (mut w, set) = two_files();
            let plan = w
                .run(|t| {
                    if moving {
                        OperationPlan::move_files(&set, "/d/destination", false, t)
                    } else {
                        OperationPlan::copy(&set, "/d/destination", false, t)
                    }
                })
                .unwrap();
            if crash_after(&mut w, requests, &plan) {
                break;
            }
            let Some(journal) = w.saved.last().cloned() else {
                assert!(left_below(&w, &["/d/destination"]).is_empty());
                continue;
            };
            if journal.status != "in_progress" {
                continue;
            }
            let recovered =
                w.run(|t| journal.recover_rollback(t)).unwrap_or_else(|e| panic!("{moving}/{requests}: {e}"));
            assert_eq!(recovered.status, "rolled_back", "{moving}/{requests}");
            assert!(recovered.staging_paths.is_empty(), "{moving}/{requests}");
            assert!(
                w.has("/d/source/file.txt") && w.has("/d/source/second.txt"),
                "{moving}/{requests}: a source was not restored"
            );
            let left = left_below(&w, &["/d/destination"]);
            assert!(left.is_empty(), "{moving}/{requests}: {left:?}");
        }
    }
}

#[test]
fn copy_resume_completes_every_persisted_crash_state_idempotently() {
    let mut completed = 0;
    let mut half_staged = 0;
    for requests in 0.. {
        let (mut w, set) = two_files();
        let plan = w.run(|t| OperationPlan::copy(&set, "/d/destination", false, t)).unwrap();
        if crash_after(&mut w, requests, &plan) {
            break;
        }
        let Some(journal) = w.saved.last().cloned() else {
            continue;
        };
        if journal.status != "in_progress" {
            continue;
        }
        let resumed = match w.run(|t| journal.recover_resume(t)) {
            Ok(resumed) => resumed,
            Err(error) => {
                assert!(error.contains("destination already exists"), "{requests}: {error}");
                let journal = w.saved.last().cloned().unwrap();
                let back = w.run(|t| journal.recover_rollback(t)).unwrap();
                assert_eq!(back.status, "rolled_back", "{requests}");
                assert!(left_below(&w, &["/d/destination"]).is_empty(), "{requests}");
                half_staged += 1;
                continue;
            },
        };
        completed += 1;
        assert_eq!(resumed.status, "applied", "{requests}");
        assert!(resumed.remaining_steps.is_empty(), "{requests}");
        assert!(resumed.staging_paths.is_empty(), "{requests}");
        assert_eq!(resumed.outputs.iter().filter(|output| output.role == "copy").count(), 2, "{requests}");
        let targets = destinations(&plan);
        assert_eq!(w.read(&targets[0]).unwrap(), "typed transfer", "{requests}");
        assert_eq!(w.read(&targets[1]).unwrap(), "second typed transfer", "{requests}");
        assert!(w.has("/d/source/file.txt") && w.has("/d/source/second.txt"), "{requests}");
    }
    assert!(completed > half_staged && half_staged <= 4, "{completed} {half_staged}");
}

/// The journal of an operation that stopped right after it was first saved.
fn first_journal(w: &mut World, plan: &OperationPlan) -> OperationJournal {
    let mut requests = 0;
    while w.saved.is_empty() {
        requests += 1;
        let mut fresh = w.clone();
        crash_after(&mut fresh, requests, plan);
        if !fresh.saved.is_empty() {
            *w = fresh;
        }
    }
    w.saved.last().unwrap().clone()
}

#[test]
fn copy_resume_refuses_source_drift_before_rebuilding() {
    let (mut w, set) = transfer_fixture();
    let plan = w.run(|t| OperationPlan::copy(&set, "/d/destination", false, t)).unwrap();
    let journal = first_journal(&mut w, &plan);
    w.file("/d/source/file.txt", "source changed after crash and has another size");
    let error = w.run(|t| journal.recover_resume(t)).unwrap_err();
    assert!(error.contains("source drift"), "{error}");
    assert!(!w.has("/d/destination"));
}

#[test]
fn archive_resume_completes_every_persisted_crash_state() {
    for requests in 0.. {
        let (mut w, _) = transfer_fixture();
        let plan = archive_plan(&mut w);
        if crash_after(&mut w, requests, &plan) {
            break;
        }
        let Some(journal) = w.saved.last().cloned() else {
            continue;
        };
        if journal.status != "in_progress" {
            continue;
        }
        let resumed = w.run(|t| journal.recover_resume(t)).unwrap_or_else(|e| panic!("{requests}: {e}"));
        assert_eq!(resumed.status, "applied", "{requests}");
        assert!(resumed.remaining_archives.is_empty(), "{requests}");
        assert!(resumed.staging_paths.is_empty(), "{requests}");
        let made =
            resumed.outputs.iter().filter(|output| matches!(output.role.as_str(), "archive" | "backup")).count();
        assert_eq!(made, 2, "{requests}");
        assert_eq!(w.read("/d/archives/source.zip"), w.read("/d/backups/source.zip"), "{requests}");
        assert_eq!(w.read("/d/archives/source.zip").unwrap(), "file.txt=typed transfer;", "{requests}");
    }
}

#[test]
fn archive_resume_refuses_source_drift_before_rebuild() {
    let (mut w, _) = transfer_fixture();
    let plan = archive_plan(&mut w);
    let journal = first_journal(&mut w, &plan);
    w.file("/d/source/file.txt", "archive source drifted to a different size");
    let error = w.run(|t| journal.recover_resume(t)).unwrap_err();
    assert!(error.contains("source drift"), "{error}");
    assert!(!w.has("/d/archives/source.zip"));
}

#[test]
fn an_operation_is_undone_once() {
    let (mut w, set) = transfer_fixture();
    let plan = w.run(|t| OperationPlan::copy(&set, "/d/copies", false, t)).unwrap();
    let journal = w.run(|t| plan.apply(t)).unwrap();
    let undone = w.run(|t| journal.undo(t)).unwrap();
    assert!(w.run(|t| undone.undo(t)).is_err());
}

#[test]
fn a_whole_journal_comes_back_from_its_text() {
    let mut w = World::new();
    let mut all = journal("copy", "in_progress", vec![output(&mut w, "copy", "/d/a", "x")]);
    all.outputs[0].original_path = Some("/d/\u{e4} \"quoted\"".to_string());
    all.staging_paths = vec!["/d/one".to_string(), "/d/two".to_string()];
    let source = record(&mut w, "/d/a");
    all.remaining_steps = vec![RecoveryStep { operation: "copy".into(), source: source.clone(), destination: "/d/b".into() }];
    all.remaining_archives = vec![ArchivePlanItem {
        root: "/d".into(),
        archive: "/d/x.zip".into(),
        backup: None,
        entries: vec![ArchivePlanEntry { archive_name: "a".into(), source }],
    }];
    all.error = Some("broken".to_string());
    all.undone_at = Some(u64::MAX);
    assert_eq!(OperationJournal::from_json(&all.to_json()).unwrap(), all);
}

#[test]
fn wrong_journals_are_refused() {
    let refused = |s: &str| OperationJournal::from_json(s).unwrap_err();
    assert!(refused("nonsense").starts_with("journal: invalid persisted JSON: "));
    assert_eq!(refused("{}"), "journal: missing 'outputs'");
    assert_eq!(refused("{\"outputs\":[{}]}"), "journal: output missing path");
    assert_eq!(refused("{\"outputs\":[{\"file_id\":\"xyz\"}]}"), "journal: invalid file identity");
    assert_eq!(
        refused("{\"outputs\":[],\"remaining_steps\":[{}]}"),
        "journal: recovery step missing source"
    );
    assert_eq!(
        refused("{\"outputs\":[],\"remaining_steps\":[{\"source\":{}}]}"),
        "journal: recovery step missing destination"
    );
    assert_eq!(
        refused("{\"outputs\":[],\"remaining_steps\":[{\"source\":{},\"destination\":\"d\"}]}"),
        "journal: recovery source missing path"
    );
    assert_eq!(
        refused("{\"outputs\":[],\"remaining_archives\":[{\"entries\":[{}]}]}"),
        "journal: archive recovery entry missing source"
    );
    assert_eq!(
        refused("{\"outputs\":[],\"remaining_archives\":[{\"entries\":[{\"source\":{}}]}]}"),
        "journal: archive recovery source missing path"
    );
    assert_eq!(
        refused("{\"outputs\":[],\"remaining_archives\":[{}]}"),
        "journal: archive recovery step missing destination"
    );
    assert_eq!(refused("{\"outputs\":[]}"), "journal: missing 'id'");
    assert_eq!(
        refused("{\"outputs\":[],\"id\":\"i\",\"plan_id\":\"p\",\"operation\":\"copy\",\"started_at\":-1}"),
        "journal: missing 'started_at'"
    );
}

#[test]
fn an_old_journal_gets_a_status() {
    let text = "{\"outputs\":[],\"id\":\"i\",\"plan_id\":\"p\",\"operation\":\"copy\",\"started_at\":1,\"finished_at\":2";
    let applied = OperationJournal::from_json(&format!("{text}}}")).unwrap();
    assert_eq!(applied.status, "applied");
    let undone = OperationJournal::from_json(&format!("{text},\"undone_at\":3}}")).unwrap();
    assert_eq!(undone.status, "undone");
}

#[test]
fn identities_are_written_in_hexadecimal() {
    let mut id = [0u8; 16];
    id[0] = 0xab;
    id[15] = 7;
    assert_eq!(hex_file_id(&id), "ab000000000000000000000000000007");
    assert_eq!(parse_file_id("AB000000000000000000000000000007"), Ok(id));
    assert!(parse_file_id("ab").is_err());
    assert!(parse_file_id("zb000000000000000000000000000007").is_err());
}
