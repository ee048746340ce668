//! Outside work that the shell's logic asks for.
//!
//! Expansion and evaluation are pure: where they need a program's output, an
//! environment variable, a fact about the file system or a floating-point
//! result, they ask for it and read the reply from a list of answers. A run
//! whose answers do not suffice ends with the request that is still open; the
//! caller performs it, adds the answer to the list and runs again.

use crate::editor::KeyPress;
use crate::fileset;
use crate::fileset::{FileSet, FileSetView};
use crate::operation::{
    ArchivePlan, ArchivePlanItem, ArchivePlanItemView, ArchivePlanView, JournalView, OperationJournal,
};
use crate::table;
use crate::table::Table;
use crate::text;
use crate::text::copy_texts;
use vstd::prelude::*;

verus! {

/// The floating-point operations on two numbers.
#[derive(Debug, Clone, Copy, PartialEq, Eq, Structural)]
pub enum FloatOp {
    Add,
    Subtract,
    Multiply,
    Divide,
    Remainder,
    Power,
    /// The quotient, rounded towards negative infinity.
    FloorDivide,
}

/// A piece of floating-point work. A number is carried by its 64 bits, in the
/// binary interchange format of IEEE 754.
#[derive(Debug, Clone, PartialEq, Eq)]
pub enum FloatCall {
    /// The number nearest to an integer: answered by `Number`.
    OfInt(i64),
    /// The number that a text writes: answered by `Number`, or by `Missing`
    /// when the text writes none.
    Parse(String),
    /// The number with the other sign: answered by `Number`.
    Negate(u64),
    /// An operation on two numbers: answered by `Number`.
    Binary(FloatOp, u64, u64),
    /// The shortest text that reads back as the number and shows that it is
    /// no integer type: answered by `Text`.
    Show(u64),
}

/// What a piece of floating-point work consists of.
pub enum FloatCallView {
    OfInt(i64),
    Parse(Seq<char>),
    Negate(u64),
    Binary(FloatOp, u64, u64),
    Show(u64),
}

impl View for FloatCall {
    type V = FloatCallView;

    open spec fn view(&self) -> FloatCallView {
        match self {
            FloatCall::OfInt(i) => FloatCallView::OfInt(*i),
            FloatCall::Parse(t) => FloatCallView::Parse(t@),
            FloatCall::Negate(a) => FloatCallView::Negate(*a),
            FloatCall::Binary(op, a, b) => FloatCallView::Binary(*op, *a, *b),
            FloatCall::Show(a) => FloatCallView::Show(*a),
        }
    }
}

/// A change to the file system.
#[derive(Debug, Clone, PartialEq, Eq)]
pub enum Action {
    /// Makes a directory and those above it that are missing.
    CreateDirs(String),
    /// Copies one file to another.
    CopyFile(String, String),
    RemoveFile(String),
    /// Removes an empty directory.
    RemoveDir(String),
    /// Removes a directory and all below it.
    RemoveTree(String),
    Rename(String, String),
    /// Hands a path to the recycle bin.
    Recycle(String),
    /// Starts a new archive at a path.
    OpenArchive(String),
    /// Gives the open archive up.
    DropArchive,
    /// Completes the open archive.
    FinishArchive,
    /// Takes the one entry of a small archive over into the open archive.
    AddEntry(String),
    /// Takes the lock that guards a file, and gives it back.
    Lock(String),
    Unlock(String),
    /// Writes at the end of a file, which is made where it is missing.
    AppendText(String, String),
    /// Writes a file anew.
    WriteText(String, String),
    /// Puts one file into the place of another.
    Replace(String, String),
}

/// What a change to the file system is.
pub enum ActionView {
    CreateDirs(Seq<char>),
    CopyFile(Seq<char>, Seq<char>),
    RemoveFile(Seq<char>),
    RemoveDir(Seq<char>),
    RemoveTree(Seq<char>),
    Rename(Seq<char>, Seq<char>),
    Recycle(Seq<char>),
    OpenArchive(Seq<char>),
    DropArchive,
    FinishArchive,
    AddEntry(Seq<char>),
    Lock(Seq<char>),
    Unlock(Seq<char>),
    AppendText(Seq<char>, Seq<char>),
    WriteText(Seq<char>, Seq<char>),
    Replace(Seq<char>, Seq<char>),
}

impl View for Action {
    type V = ActionView;

    open spec fn view(&self) -> ActionView {
        match self {
            Action::CreateDirs(p) => ActionView::CreateDirs(p@),
            Action::CopyFile(a, b) => ActionView::CopyFile(a@, b@),
            Action::RemoveFile(p) => ActionView::RemoveFile(p@),
            Action::RemoveDir(p) => ActionView::RemoveDir(p@),
            Action::RemoveTree(p) => ActionView::RemoveTree(p@),
            Action::Rename(a, b) => ActionView::Rename(a@, b@),
            Action::Recycle(p) => ActionView::Recycle(p@),
            Action::OpenArchive(p) => ActionView::OpenArchive(p@),
            Action::DropArchive => ActionView::DropArchive,
            Action::FinishArchive => ActionView::FinishArchive,
            Action::AddEntry(p) => ActionView::AddEntry(p@),
            Action::Lock(p) => ActionView::Lock(p@),
            Action::Unlock(p) => ActionView::Unlock(p@),
            Action::AppendText(p, s) => ActionView::AppendText(p@, s@),
            Action::WriteText(p, s) => ActionView::WriteText(p@, s@),
            Action::Replace(a, b) => ActionView::Replace(a@, b@),
        }
    }
}

/// What a launched program reads.
#[derive(Debug, Clone, PartialEq, Eq)]
pub enum Feed {
    /// What the shell reads.
    Inherit,
    /// Nothing.
    Empty,
    /// The standard output of an earlier program.
    Output(u64),
    /// The standard error of an earlier program.
    Errors(u64),
    /// Both streams of an earlier program, one after the other.
    Both(u64),
    Text(String),
}

/// What a launched program reads.
pub enum FeedView {
    Inherit,
    Empty,
    Output(u64),
    Errors(u64),
    Both(u64),
    Text(Seq<char>),
}

impl View for Feed {
    type V = FeedView;

    open spec fn view(&self) -> FeedView {
        match self {
            Feed::Inherit => FeedView::Inherit,
            Feed::Empty => FeedView::Empty,
            Feed::Output(n) => FeedView::Output(*n),
            Feed::Errors(n) => FeedView::Errors(*n),
            Feed::Both(n) => FeedView::Both(*n),
            Feed::Text(t) => FeedView::Text(t@),
        }
    }
}

/// Where a stream of a launched program goes.
#[derive(Debug, Clone, Copy, PartialEq, Eq, Structural)]
pub enum Sink {
    /// Where that of the shell goes.
    Inherit,
    /// To a later program, or to the shell.
    Pipe,
    /// To an open file.
    File(u64),
}

/// Work on a pipeline.
#[derive(Debug, Clone, PartialEq, Eq)]
pub enum StageCall {
    /// Opens a file to write, at its end or emptied: answered by `Number`,
    /// which names the open file, or by `Failure`.
    OpenTarget(String, bool),
    /// Opens an open file once more: answered as above.
    ShareTarget(u64),
    /// Writes to an open file.
    Write(u64, String),
    /// Writes to the shell's standard output.
    Print(String),
    /// Registers a pipeline, in the background or not: answered by `Failure`,
    /// or by anything else when it was registered.
    Begin(String, bool),
    /// Marks the registered pipeline as failed.
    Abandon(String),
    /// Launches a program: answered by `Number`, which names the launched
    /// program, by `Missing` when there is none of that name, or by `Failure`.
    Launch(String, Vec<String>, Feed, Sink, Sink),
    /// Registers a launched program: answered by `Failure` or anything else.
    Register(u64, String),
    /// All that a launched program writes to its standard output: answered by
    /// `Text`.
    Drain(u64),
    /// Hands the launched programs over as a background job: answered by
    /// `Failure` or anything else.
    Retain,
    /// Waits for the launched programs: answered by `Truth`, whether the
    /// last succeeded.
    Wait,
    /// The text of a table: answered by `Text`.
    ToJson(Table),
    ToCsv(Table),
    /// The table of a text: answered by `Rows` or `Failure`.
    FromJson(String),
    FromCsv(String),
    /// A table with a column of dates worked on: answered by `Rows` or
    /// `Failure`.
    DateColumn(Table, Vec<String>),
    /// The columns of a table that are named: answered by `Rows`.
    SelectColumns(Table, Vec<String>),
    /// The table or the set of files that a variable holds: answered by
    /// `Rows`, `Files` or `Missing`.
    Variable(String),
    /// What the arguments of `stat` ask for: answered by `Words` or
    /// `Failure`.
    StatArguments(Vec<String>),
    /// The set of the files at some paths, with their hashes where asked for:
    /// answered by `Files`.
    BuildSet(Vec<String>, Option<String>),
    /// Copies or packs the files of a set below a destination: answered by
    /// `Text`.
    CopySet(FileSet, String, bool),
    PackSet(FileSet, String, bool),
    /// The plan to pack a set, one archive for each root: answered by `Rows`
    /// or `Failure`.
    PlanPerRoot(FileSet, String, Option<String>),
    /// Packs a set, one archive for each root: answered by `Text` or
    /// `Failure`.
    PackPerRoot(FileSet, String, Option<String>, bool),
}

/// What a piece of work on a pipeline is.
pub enum StageCallView {
    OpenTarget(Seq<char>, bool),
    ShareTarget(u64),
    Write(u64, Seq<char>),
    Print(Seq<char>),
    Begin(Seq<char>, bool),
    Abandon(Seq<char>),
    Launch(Seq<char>, Seq<Seq<char>>, FeedView, Sink, Sink),
    Register(u64, Seq<char>),
    Drain(u64),
    Retain,
    Wait,
    ToJson(Seq<table::RowView>),
    ToCsv(Seq<table::RowView>),
    FromJson(Seq<char>),
    FromCsv(Seq<char>),
    DateColumn(Seq<table::RowView>, Seq<Seq<char>>),
    SelectColumns(Seq<table::RowView>, Seq<Seq<char>>),
    Variable(Seq<char>),
    StatArguments(Seq<Seq<char>>),
    BuildSet(Seq<Seq<char>>, Option<Seq<char>>),
    CopySet(FileSetView, Seq<char>, bool),
    PackSet(FileSetView, Seq<char>, bool),
    PlanPerRoot(FileSetView, Seq<char>, Option<Seq<char>>),
    PackPerRoot(FileSetView, Seq<char>, Option<Seq<char>>, bool),
}

impl View for StageCall {
    type V = StageCallView;

    open spec fn view(&self) -> StageCallView {
        match self {
            StageCall::OpenTarget(p, a) => StageCallView::OpenTarget(p@, *a),
            StageCall::ShareTarget(n) => StageCallView::ShareTarget(*n),
            StageCall::Write(n, t) => StageCallView::Write(*n, t@),
            StageCall::Print(t) => StageCallView::Print(t@),
            StageCall::Begin(t, b) => StageCallView::Begin(t@, *b),
            StageCall::Abandon(t) => StageCallView::Abandon(t@),
            StageCall::Launch(p, args, feed, out, err) => StageCallView::Launch(
                p@,
                text::texts(args@),
                feed@,
                *out,
                *err,
            ),
            StageCall::Register(n, t) => StageCallView::Register(*n, t@),
            StageCall::Drain(n) => StageCallView::Drain(*n),
            StageCall::Retain => StageCallView::Retain,
            StageCall::Wait => StageCallView::Wait,
            StageCall::ToJson(t) => StageCallView::ToJson(t@),
            StageCall::ToCsv(t) => StageCallView::ToCsv(t@),
            StageCall::FromJson(t) => StageCallView::FromJson(t@),
            StageCall::FromCsv(t) => StageCallView::FromCsv(t@),
            StageCall::DateColumn(t, args) => StageCallView::DateColumn(t@, text::texts(args@)),
            StageCall::SelectColumns(t, args) => StageCallView::SelectColumns(
                t@,
                text::texts(args@),
            ),
            StageCall::Variable(t) => StageCallView::Variable(t@),
            StageCall::StatArguments(args) => StageCallView::StatArguments(text::texts(args@)),
            StageCall::BuildSet(paths, hash) => StageCallView::BuildSet(
                text::texts(paths@),
                fileset::opt_text(*hash),
            ),
            StageCall::CopySet(set, dest, force) => StageCallView::CopySet(set@, dest@, *force),
            StageCall::PackSet(set, dest, force) => StageCallView::PackSet(set@, dest@, *force),
            StageCall::PlanPerRoot(set, dest, backup) => StageCallView::PlanPerRoot(
                set@,
                dest@,
                fileset::opt_text(*backup),
            ),
            StageCall::PackPerRoot(set, dest, backup, force) => StageCallView::PackPerRoot(
                set@,
                dest@,
                fileset::opt_text(*backup),
                *force,
            ),
        }
    }
}

/// Work that only the outside can do.
#[derive(Debug, Clone, PartialEq, Eq)]
pub enum Request {
    /// The value of an environment variable: answered by `Text`, or by
    /// `Missing` when it is not set.
    Environment(String),
    /// Whether a path exists: answered by `Truth`.
    Exists(String),
    /// Whether a path is a file: answered by `Truth`.
    IsFile(String),
    /// Whether a path is a directory: answered by `Truth`.
    IsDirectory(String),
    /// Whether standard stream 0, 1 or 2 is a terminal: answered by `Truth`.
    IsTerminal(u8),
    /// The contents of a file as text, with what is no text replaced:
    /// answered by `Text` or `Failure`.
    ReadText(String),
    /// The text of a file: answered by `Text`, or by `Failure` when it cannot
    /// be read or is no text.
    ReadStrict(String),
    /// The entries of the directory that is reached from a root through the
    /// named entries, without those that cannot be read: answered by
    /// `Entries` or `Failure`.
    List(String, Vec<String>),
    /// All entries of a directory: answered by `Entries`, by `Failure` when
    /// the directory cannot be read, or by `Text`, the message, when one of
    /// its entries cannot.
    ListWhole(String),
    /// The working directory: answered by `Text` or `Failure`.
    WorkingDirectory,
    /// A path made absolute by the working directory: answered by `Text` or
    /// `Failure`.
    Absolute(String),
    /// What is known of the file that a path leads to: answered by `File` or
    /// `Failure`.
    Inspect(String),
    /// What is known of the entry at a path, no link followed: answered by
    /// `File` or `Failure`.
    Examine(String),
    /// What a program wrote to its standard output: answered by `Text`, by
    /// `Missing` when there is no such program, or by `Failure`.
    Program(Vec<String>),
    /// Floating-point work.
    Float(FloatCall),
    /// The directories that are searched for programs: answered by `Words`.
    SearchPath,
    /// What is known of the entry at a path that need not be there, no link
    /// followed: answered by `File`, by `Missing` when nothing is there, or by
    /// `Failure`.
    Facts(String),
    /// The path with its links followed: answered by `Text` or `Failure`.
    Canonical(String),
    /// A change to the file system: answered by `Failure`, or by anything
    /// else when it was made.
    Do(Action),
    /// The seconds since the start of 1970: answered by `Number`.
    Seconds,
    /// The nanoseconds since the start of 1970: answered by `Number`.
    Nanoseconds,
    /// A number that was not given before: answered by `Number`.
    Sequence,
    /// The number of the shell's process: answered by `Number`.
    ProcessId,
    /// Whether the user asked to interrupt: answered by `Truth`.
    Interrupted,
    /// Takes such a request back: answered by `Truth`, whether there was one.
    TakeInterrupt,
    /// How many workers can run at a time: answered by `Number`.
    Workers,
    /// A directory for temporary files: answered by `Text`.
    TempDirectory,
    /// Has a worker pack a file under a name into a small archive.
    Pack(String, String, String),
    /// Waits for the worker of a small archive: answered by `Failure` when
    /// the file could not be packed, by `Text` when the worker itself failed,
    /// or by anything else.
    AwaitPack(String),
    /// Makes a journal last: answered by `Failure` or anything else.
    SaveJournal(OperationJournal),
    /// Checks the sources of an archive plan: answered by `Failure` or
    /// anything else.
    CheckArchive(ArchivePlan),
    /// Builds an archive at a path: answered by `Failure` or anything else.
    BuildArchive(ArchivePlanItem, String),
    /// Work on a pipeline.
    Stage(StageCall),
    /// The next event of the keyboard: answered by `Key`, by `Failure` when
    /// none can be read, or by anything else for an event that is no key.
    ReadKey,
    /// Puts the terminal into or out of the mode that hands every key on:
    /// answered by `Failure` or anything else.
    RawMode(bool),
    /// Shows a prompt and a line, with the cursor at a place of it and a part
    /// of it selected.
    Redraw(String, String, u64, Option<(u64, u64)>),
    /// Shows a prompt and reads a whole line: answered by `Text`, or by
    /// anything else at the end of the input.
    ReadPlain(String),
    /// Runs a program with no streams: answered by `Truth`, whether it
    /// succeeded, or by `Failure`.
    Probe(String, Vec<String>),
    /// Waits for some seconds.
    Pause(u64),
    /// Runs a program on the terminal of the shell, in a directory: answered
    /// by `Truth`, whether it succeeded, or by `Failure`.
    RunForeground(String, Vec<String>, String),
    /// Whether the shell runs on Windows: answered by `Truth`.
    OnWindows,
    /// Whether the shell runs with the rights of an administrator: answered
    /// by `Truth` or `Failure`.
    Elevation,
    /// Launches a program with such rights, with its parameters, in a
    /// directory: answered by `Number`, which names the process, by `Missing`
    /// when none was given, or by `Code`.
    Elevate(String, String, Option<String>),
    /// Waits for such a process: answered by `Failure` or anything else.
    AwaitElevated(u64),
    /// The exit code of such a process: answered by `Number` or `Failure`.
    ElevatedExit(u64),
    /// Lets go of such a process.
    ReleaseElevated(u64),
    /// Writes text to the clipboard: answered by `Failure` or anything else.
    WriteClipboard(Vec<u16>),
    /// The text on the clipboard, all of its memory: answered by `Units`,
    /// or by `Failure`.
    ReadClipboard,
    /// Shows a line on standard stream 1 or 2, in red or not.
    Show(u8, String, bool),
    /// Whether a process still runs: answered by `Truth`.
    StillRuns(u32),
    /// Waits for a process.
    AwaitProcess(u32),
    /// Shows text on the standard output: answered by `Failure` or anything
    /// else.
    Prompt(String),
    /// A line of the standard input with what ends it: answered by `Text`, by
    /// `Missing` at the end of the input, or by `Failure`.
    ReadInput,
    /// The file that the shell runs from: answered by `Text` or `Failure`.
    ShellFile,
    /// Whether the shell has a console of its own: answered by `Truth`.
    OwnConsole,
    /// Makes a directory the working directory.
    EnterDirectory(String),
}

/// What a request asks for.
pub enum RequestView {
    Environment(Seq<char>),
    Exists(Seq<char>),
    IsFile(Seq<char>),
    IsDirectory(Seq<char>),
    IsTerminal(u8),
    ReadText(Seq<char>),
    ReadStrict(Seq<char>),
    List(Seq<char>, Seq<Seq<char>>),
    ListWhole(Seq<char>),
    WorkingDirectory,
    Absolute(Seq<char>),
    Inspect(Seq<char>),
    Examine(Seq<char>),
    Program(Seq<Seq<char>>),
    Float(FloatCallView),
    SearchPath,
    Facts(Seq<char>),
    Canonical(Seq<char>),
    Do(ActionView),
    Seconds,
    Nanoseconds,
    Sequence,
    ProcessId,
    Interrupted,
    TakeInterrupt,
    Workers,
    TempDirectory,
    Pack(Seq<char>, Seq<char>, Seq<char>),
    AwaitPack(Seq<char>),
    SaveJournal(JournalView),
    CheckArchive(ArchivePlanView),
    BuildArchive(ArchivePlanItemView, Seq<char>),
    Stage(StageCallView),
    ReadKey,
    RawMode(bool),
    Redraw(Seq<char>, Seq<char>, u64, Option<(u64, u64)>),
    ReadPlain(Seq<char>),
    Probe(Seq<char>, Seq<Seq<char>>),
    Pause(u64),
    RunForeground(Seq<char>, Seq<Seq<char>>, Seq<char>),
    OnWindows,
    Elevation,
    Elevate(Seq<char>, Seq<char>, Option<Seq<char>>),
    AwaitElevated(u64),
    ElevatedExit(u64),
    ReleaseElevated(u64),
    WriteClipboard(Seq<u16>),
    ReadClipboard,
    Show(u8, Seq<char>, bool),
    StillRuns(u32),
    AwaitProcess(u32),
    Prompt(Seq<char>),
    ReadInput,
    ShellFile,
    OwnConsole,
    EnterDirectory(Seq<char>),
}

impl View for Request {
    type V = RequestView;

    open spec fn view(&self) -> RequestView {
        match self {
            Request::Environment(t) => RequestView::Environment(t@),
            Request::Exists(t) => RequestView::Exists(t@),
            Request::IsFile(t) => RequestView::IsFile(t@),
            Request::IsDirectory(t) => RequestView::IsDirectory(t@),
            Request::IsTerminal(n) => RequestView::IsTerminal(*n),
            Request::ReadText(t) => RequestView::ReadText(t@),
            Request::ReadStrict(t) => RequestView::ReadStrict(t@),
            Request::ListWhole(t) => RequestView::ListWhole(t@),
            Request::List(root, below) => RequestView::List(root@, text::texts(below@)),
            Request::WorkingDirectory => RequestView::WorkingDirectory,
            Request::Absolute(t) => RequestView::Absolute(t@),
            Request::Inspect(t) => RequestView::Inspect(t@),
            Request::Examine(t) => RequestView::Examine(t@),
            Request::Program(args) => RequestView::Program(text::texts(args@)),
            Request::Float(call) => RequestView::Float(call@),
            Request::SearchPath => RequestView::SearchPath,
            Request::Facts(p) => RequestView::Facts(p@),
            Request::Canonical(p) => RequestView::Canonical(p@),
            Request::Do(a) => RequestView::Do(a@),
            Request::Seconds => RequestView::Seconds,
            Request::Nanoseconds => RequestView::Nanoseconds,
            Request::Sequence => RequestView::Sequence,
            Request::ProcessId => RequestView::ProcessId,
            Request::Interrupted => RequestView::Interrupted,
            Request::TakeInterrupt => RequestView::TakeInterrupt,
            Request::Workers => RequestView::Workers,
            Request::TempDirectory => RequestView::TempDirectory,
            Request::Pack(source, name, small) => RequestView::Pack(source@, name@, small@),
            Request::AwaitPack(small) => RequestView::AwaitPack(small@),
            Request::SaveJournal(j) => RequestView::SaveJournal(j@),
            Request::CheckArchive(plan) => RequestView::CheckArchive(plan@),
            Request::BuildArchive(item, path) => RequestView::BuildArchive(item@, path@),
            Request::Stage(call) => RequestView::Stage(call@),
            Request::ReadKey => RequestView::ReadKey,
            Request::RawMode(on) => RequestView::RawMode(*on),
            Request::Redraw(prompt, line, cursor, selected) => RequestView::Redraw(
                prompt@,
                line@,
                *cursor,
                *selected,
            ),
            Request::ReadPlain(prompt) => RequestView::ReadPlain(prompt@),
            Request::Probe(program, args) => RequestView::Probe(program@, text::texts(args@)),
            Request::Pause(n) => RequestView::Pause(*n),
            Request::RunForeground(program, args, cwd) => RequestView::RunForeground(
                program@,
                text::texts(args@),
                cwd@,
            ),
            Request::OnWindows => RequestView::OnWindows,
            Request::Elevation => RequestView::Elevation,
            Request::Elevate(program, parameters, cwd) => RequestView::Elevate(
                program@,
                parameters@,
                fileset::opt_text(*cwd),
            ),
            Request::AwaitElevated(n) => RequestView::AwaitElevated(*n),
            Request::ElevatedExit(n) => RequestView::ElevatedExit(*n),
            Request::ReleaseElevated(n) => RequestView::ReleaseElevated(*n),
            Request::WriteClipboard(units) => RequestView::WriteClipboard(units@),
            Request::ReadClipboard => RequestView::ReadClipboard,
            Request::Show(n, line, red) => RequestView::Show(*n, line@, *red),
            Request::StillRuns(pid) => RequestView::StillRuns(*pid),
            Request::AwaitProcess(pid) => RequestView::AwaitProcess(*pid),
            Request::Prompt(s) => RequestView::Prompt(s@),
            Request::ReadInput => RequestView::ReadInput,
            Request::ShellFile => RequestView::ShellFile,
            Request::OwnConsole => RequestView::OwnConsole,
            Request::EnterDirectory(p) => RequestView::EnterDirectory(p@),
        }
    }
}

/// An entry of a directory. Whether it is a directory or a file tells what
/// it leads to.
#[derive(Debug, Clone, PartialEq, Eq)]
pub struct Entry {
    pub name: String,
    pub is_dir: bool,
    pub is_file: bool,
}

/// What an entry of a directory is.
pub struct EntryView {
    pub name: Seq<char>,
    pub is_dir: bool,
    pub is_file: bool,
}

impl View for Entry {
    type V = EntryView;

    open spec fn view(&self) -> EntryView {
        EntryView { name: self.name@, is_dir: self.is_dir, is_file: self.is_file }
    }
}

/// What the entries of a list are.
pub open spec fn entry_views(list: Seq<Entry>) -> Seq<EntryView> {
    Seq::new(list.len(), |i: int| list[i]@)
}

/// What is known of a file.
#[derive(Debug, Clone, Copy, PartialEq, Eq, Structural)]
pub struct FileFacts {
    pub is_symlink: bool,
    pub is_dir: bool,
    pub is_file: bool,
    pub size: u64,
    /// The time of the last change, in seconds since the start of 1970.
    pub modified: Option<u64>,
}

/// The reply to a request.
#[derive(Debug, Clone, PartialEq, Eq)]
pub enum Answer {
    Text(String),
    Failure(String),
    Missing,
    Number(u64),
    Truth(bool),
    Entries(Vec<Entry>),
    File(FileFacts),
    Rows(Table),
    Files(FileSet),
    Words(Vec<String>, Option<String>),
    Key(KeyPress),
    /// A number by which the system names a failure, with its message.
    Code(u32, String),
    /// Text as the system holds it.
    Units(Vec<u16>),
}

/// What a reply says.
pub enum AnswerView {
    Text(Seq<char>),
    Failure(Seq<char>),
    Missing,
    Number(u64),
    Truth(bool),
    Entries(Seq<EntryView>),
    File(FileFacts),
    Rows(Seq<table::RowView>),
    Files(FileSetView),
    Words(Seq<Seq<char>>, Option<Seq<char>>),
    Key(KeyPress),
    Code(u32, Seq<char>),
    Units(Seq<u16>),
}

impl View for Answer {
    type V = AnswerView;

    open spec fn view(&self) -> AnswerView {
        match self {
            Answer::Text(t) => AnswerView::Text(t@),
            Answer::Failure(t) => AnswerView::Failure(t@),
            Answer::Missing => AnswerView::Missing,
            Answer::Number(n) => AnswerView::Number(*n),
            Answer::Truth(b) => AnswerView::Truth(*b),
            Answer::Entries(list) => AnswerView::Entries(entry_views(list@)),
            Answer::File(f) => AnswerView::File(*f),
            Answer::Rows(t) => AnswerView::Rows(t@),
            Answer::Files(set) => AnswerView::Files(set@),
            Answer::Words(list, word) => AnswerView::Words(
                text::texts(list@),
                fileset::opt_text(*word),
            ),
            Answer::Key(k) => AnswerView::Key(*k),
            Answer::Code(n, e) => AnswerView::Code(*n, e@),
            Answer::Units(units) => AnswerView::Units(units@),
        }
    }
}

impl AnswerView {
    /// The text of the reply; empty when it carries none.
    pub open spec fn as_text(self) -> Seq<char> {
        match self {
            AnswerView::Text(t) => t,
            _ => Seq::empty(),
        }
    }

    /// The failure that the reply reports; empty when it reports none.
    pub open spec fn as_failure(self) -> Seq<char> {
        match self {
            AnswerView::Failure(t) => t,
            _ => Seq::empty(),
        }
    }

    /// The number of the reply; zero when it carries none.
    pub open spec fn as_number(self) -> u64 {
        match self {
            AnswerView::Number(n) => n,
            _ => 0,
        }
    }

    /// The truth value of the reply; false when it carries none.
    pub open spec fn as_truth(self) -> bool {
        match self {
            AnswerView::Truth(b) => b,
            _ => false,
        }
    }
}

impl Answer {
    /// A copy of the reply.
    pub fn copy(&self) -> (r: Answer)
        ensures
            r@ == self@,
    {
        match self {
            Answer::Text(t) => Answer::Text(t.clone()),
            Answer::Failure(t) => Answer::Failure(t.clone()),
            Answer::Missing => Answer::Missing,
            Answer::Number(n) => Answer::Number(*n),
            Answer::Truth(b) => Answer::Truth(*b),
            Answer::Entries(list) => Answer::Entries(copy_entries(list)),
            Answer::File(f) => Answer::File(*f),
            Answer::Rows(t) => Answer::Rows(t.copy()),
            Answer::Files(set) => Answer::Files(set.copy()),
            Answer::Words(list, word) => Answer::Words(copy_texts(list), fileset::copy_opt(word)),
            Answer::Key(k) => Answer::Key(*k),
            Answer::Code(n, e) => Answer::Code(*n, e.clone()),
            Answer::Units(units) => Answer::Units(copy_units(units)),
        }
    }

    /// The text of the reply; empty when it carries none.
    pub fn into_text(self) -> (r: String)
        ensures
            r@ == self@.as_text(),
    {
        match self {
            Answer::Text(t) => t,
            _ => String::new(),
        }
    }

    /// The failure that the reply reports; empty when it reports none.
    pub fn into_failure(self) -> (r: String)
        ensures
            r@ == self@.as_failure(),
    {
        match self {
            Answer::Failure(t) => t,
            _ => String::new(),
        }
    }

    /// The number of the reply; zero when it carries none.
    pub fn number(&self) -> (r: u64)
        ensures
            r == self@.as_number(),
    {
        match self {
            Answer::Number(n) => *n,
            _ => 0,
        }
    }

    /// The truth value of the reply; false when it carries none.
    pub fn truth(&self) -> (r: bool)
        ensures
            r == self@.as_truth(),
    {
        match self {
            Answer::Truth(b) => *b,
            _ => false,
        }
    }
}

fn copy_units(list: &Vec<u16>) -> (r: Vec<u16>)
    ensures
        r@ == list@,
{
    let mut out: Vec<u16> = Vec::new();
    let mut i: usize = 0;
    while i < list.len()
        invariant
            i <= list@.len(),
            out@ == list@.take(i as int),
        decreases list@.len() - i,
    {
        out.push(list[i]);
        assert(list@.take(i + 1) =~= list@.take(i as int).push(list@[i as int]));
        i = i + 1;
    }
    assert(list@.take(list@.len() as int) =~= list@);
    out
}

fn copy_entries(list: &Vec<Entry>) -> (r: Vec<Entry>)
    ensures
        entry_views(r@) == entry_views(list@),
{
    let mut out: Vec<Entry> = Vec::new();
    let mut i: usize = 0;
    while i < list.len()
        invariant
            i <= list@.len(),
            entry_views(out@) == entry_views(list@).take(i as int),
        decreases list@.len() - i,
    {
        let ghost before = out@;
        let e = Entry {
            name: list[i].name.clone(),
            is_dir: list[i].is_dir,
            is_file: list[i].is_file,
        };
        out.push(e);
        proof {
            assert(entry_views(out@) =~= entry_views(before).push(e@));
            assert(entry_views(list@).take(i + 1) =~= entry_views(list@).take(i as int).push(e@));
        }
        i = i + 1;
    }
    assert(entry_views(list@).take(list@.len() as int) =~= entry_views(list@));
    out
}

/// What the replies of a list say.
pub open spec fn answer_views(list: Seq<Answer>) -> Seq<AnswerView> {
    Seq::new(list.len(), |i: int| list[i]@)
}

/// What the requests of a list ask for.
pub open spec fn request_views(list: Seq<Request>) -> Seq<RequestView> {
    Seq::new(list.len(), |i: int| list[i]@)
}

/// Where a diagnostic is written.
#[derive(Debug, Clone, Copy, PartialEq, Eq, Structural)]
pub enum Stream {
    Output,
    Error,
}

/// A diagnostic, and where it is written.
#[derive(Debug, Clone, PartialEq, Eq)]
pub struct Note {
    pub stream: Stream,
    pub text: String,
}

/// What a diagnostic says.
pub struct NoteView {
    pub stream: Stream,
    pub text: Seq<char>,
}

impl View for Note {
    type V = NoteView;

    open spec fn view(&self) -> NoteView {
        NoteView { stream: self.stream, text: self.text@ }
    }
}

/// What the diagnostics of a list say.
pub open spec fn note_views(list: Seq<Note>) -> Seq<NoteView> {
    Seq::new(list.len(), |i: int| list[i]@)
}

/// One run's exchange with the outside: the answers that are there, how many
/// of them were read, the requests that they answered, the diagnostics that
/// were given, and the first request that found no answer.
#[derive(Debug, Clone, PartialEq, Eq)]
pub struct Talk {
    pub answers: Vec<Answer>,
    pub next: usize,
    pub made: Vec<Request>,
    pub notes: Vec<Note>,
    pub pending: Option<Request>,
}

/// What an exchange consists of.
#[verifier::ext_equal]
pub struct TalkView {
    pub answers: Seq<AnswerView>,
    pub next: int,
    pub made: Seq<RequestView>,
    pub notes: Seq<NoteView>,
    pub pending: Option<RequestView>,
}

impl View for Talk {
    type V = TalkView;

    open spec fn view(&self) -> TalkView {
        TalkView {
            answers: answer_views(self.answers@),
            next: self.next as int,
            made: request_views(self.made@),
            notes: note_views(self.notes@),
            pending: match self.pending {
                Some(r) => Some(r@),
                None => None,
            },
        }
    }
}

/// A fresh exchange over a list of answers.
pub open spec fn opened(answers: Seq<AnswerView>) -> TalkView {
    TalkView { answers, next: 0, made: Seq::empty(), notes: Seq::empty(), pending: None }
}

/// The reply to a request, and the exchange after it: the next answer, or
/// none when there is none left, in which case the request stays open. Once a
/// request is open, every further one finds no answer.
pub open spec fn asked(t: TalkView, r: RequestView) -> (AnswerView, TalkView) {
    if t.pending is Some {
        (AnswerView::Missing, t)
    } else if 0 <= t.next < t.answers.len() {
        (t.answers[t.next], TalkView { next: t.next + 1, made: t.made.push(r), ..t })
    } else {
        (AnswerView::Missing, TalkView { pending: Some(r), ..t })
    }
}

impl TalkView {
    /// Whether every request that was made has its answer: the first request
    /// the first answer, and so on.
    pub open spec fn in_step(self) -> bool {
        self.made.len() == self.next
    }
}

/// Whether an exchange goes on from another one: the answers are the same, no
/// request is forgotten, and none is made any more once one is open.
pub open spec fn follows(t: TalkView, t2: TalkView) -> bool {
    &&& t2.answers == t.answers
    &&& t.made.len() <= t2.made.len()
    &&& forall|k: int| 0 <= k < t.made.len() ==> #[trigger] t2.made[k] == t.made[k]
    &&& t.in_step() ==> t2.in_step()
    &&& t.pending is Some ==> t2.pending is Some && t2.made == t.made
}

/// The exchange with one more diagnostic, for the standard output.
pub open spec fn noted(t: TalkView, message: Seq<char>) -> TalkView {
    TalkView { notes: t.notes.push(NoteView { stream: Stream::Output, text: message }), ..t }
}

/// The exchange with one more diagnostic, for the standard error.
pub open spec fn warned(t: TalkView, message: Seq<char>) -> TalkView {
    TalkView { notes: t.notes.push(NoteView { stream: Stream::Error, text: message }), ..t }
}

impl Talk {
    /// A fresh exchange over a list of answers.
    pub fn open(answers: Vec<Answer>) -> (r: Talk)
        ensures
            r@ == opened(answer_views(answers@)),
    {
        let r = Talk { answers, next: 0, made: Vec::new(), notes: Vec::new(), pending: None };
        assert(r@ =~= opened(answer_views(answers@)));
        r
    }

    /// Asks for outside work and reads the reply.
    pub fn ask(&mut self, r: Request) -> (a: Answer)
        ensures
            (a@, final(self)@) == asked(old(self)@, r@),
    {
        let ghost before = self@;
        if self.pending.is_some() {
            return Answer::Missing;
        }
        if self.next < self.answers.len() {
            let a = self.answers[self.next].copy();
            self.next = self.next + 1;
            let ghost made = self.made@;
            self.made.push(r);
            assert(request_views(self.made@) =~= request_views(made).push(r@));
            assert(self@ =~= asked(before, r@).1);
            return a;
        }
        self.pending = Some(r);
        assert(self@ =~= asked(before, r@).1);
        Answer::Missing
    }

    /// Gives a diagnostic on the standard output.
    pub fn note(&mut self, message: String)
        ensures
            final(self)@ == noted(old(self)@, message@),
    {
        let ghost before = self@;
        let ghost notes = self.notes@;
        let note = Note { stream: Stream::Output, text: message };
        self.notes.push(note);
        assert(note_views(self.notes@) =~= note_views(notes).push(note@));
        assert(self@ =~= noted(before, message@));
    }

    /// Gives a diagnostic on the standard error.
    pub fn warn(&mut self, message: String)
        ensures
            final(self)@ == warned(old(self)@, message@),
    {
        let ghost before = self@;
        let ghost notes = self.notes@;
        let note = Note { stream: Stream::Error, text: message };
        self.notes.push(note);
        assert(note_views(self.notes@) =~= note_views(notes).push(note@));
        assert(self@ =~= warned(before, message@));
    }
}

/// What a request that succeeds unless it is answered by a failure gives.
pub open spec fn tried(t: TalkView, r: RequestView) -> (Result<(), Seq<char>>, TalkView) {
    let (a, t2) = asked(t, r);
    (
        match a {
            AnswerView::Failure(e) => Err(e),
            _ => Ok(()),
        },
        t2,
    )
}

/// The outcome of something that succeeds or gives a message.
pub open spec fn outcome(r: Result<(), String>) -> Result<(), Seq<char>> {
    match r {
        Ok(_) => Ok(()),
        Err(e) => Err(e@),
    }
}

/// What a change to the file system gives.
pub open spec fn acted(t: TalkView, a: ActionView) -> (Result<(), Seq<char>>, TalkView) {
    tried(t, RequestView::Do(a))
}

/// Whether a path exists.
pub open spec fn exists_at(t: TalkView, path: Seq<char>) -> (bool, TalkView) {
    let (a, t2) = asked(t, RequestView::Exists(path));
    (a.as_truth(), t2)
}

/// The exchange after work on a pipeline whose reply does not matter.
pub open spec fn told(t: TalkView, call: StageCallView) -> TalkView {
    asked(t, RequestView::Stage(call)).1
}

impl Talk {
    /// Makes a request that succeeds unless it is answered by a failure.
    pub fn attempt(&mut self, r: Request) -> (result: Result<(), String>)
        ensures
            (outcome(result), final(self)@) == tried(old(self)@, r@),
    {
        match self.ask(r) {
            Answer::Failure(e) => Err(e),
            _ => Ok(()),
        }
    }

    /// Changes the file system.
    pub fn act(&mut self, a: Action) -> (r: Result<(), String>)
        ensures
            (outcome(r), final(self)@) == acted(old(self)@, a@),
    {
        self.attempt(Request::Do(a))
    }

    /// Asks whether a path exists.
    pub fn is_there(&mut self, path: &str) -> (r: bool)
        ensures
            (r, final(self)@) == exists_at(old(self)@, path@),
    {
        self.ask(Request::Exists(path.to_owned())).truth()
    }

    /// Has work on a pipeline done whose reply does not matter.
    pub fn tell(&mut self, call: StageCall)
        ensures
            final(self)@ == told(old(self)@, call@),
    {
        let _ignored = self.ask(Request::Stage(call));
    }
}

/// An open request stays open and is the answer to nothing: asking again
/// changes nothing.
pub proof fn law_open_request_stays(t: TalkView, r: RequestView)
    requires
        t.pending is Some,
    ensures
        asked(t, r) == (AnswerView::Missing, t),
{
}

/// Two questions in a row get the two next answers, in order, and stand in the
/// record in order; a question for which no answer is left stays open and gets
/// none.
pub proof fn law_answers_come_in_order(t: TalkView, r: RequestView, s: RequestView)
    requires
        t.pending is None,
        0 <= t.next,
    ensures
        ({
            let (a, t1) = asked(t, r);
            let (b, t2) = asked(t1, s);
            &&& t.next + 1 < t.answers.len() ==> a == t.answers[t.next] && b == t.answers[t.next
                + 1] && t2.made == t.made.push(r).push(s) && t2.pending is None
            &&& t.next >= t.answers.len() ==> a is Missing && b is Missing && t2.made == t.made
                && t2.pending == Some(r)
            &&& t2.answers == t.answers && t2.notes == t.notes
        }),
{
}

/// Notes are kept in the order in which they came, each for its own stream;
/// neither asks for anything.
pub proof fn law_notes_are_kept_in_order(t: TalkView, out: Seq<char>, err: Seq<char>)
    ensures
        ({
            let after = warned(noted(t, out), err);
            let n = t.notes.len() as int;
            &&& after.notes.len() == n + 2
            &&& after.notes.take(n) == t.notes
            &&& after.notes[n].stream is Output && after.notes[n].text == out
            &&& after.notes[n + 1].stream is Error && after.notes[n + 1].text == err
            &&& after.made == t.made && after.next == t.next && after.pending == t.pending
        }),
{
    assert(warned(noted(t, out), err).notes.take(t.notes.len() as int) =~= t.notes);
}

/// An attempt fails exactly when its answer reports a failure, and with that.
pub proof fn law_failures_are_passed_on(t: TalkView, r: RequestView)
    requires
        t.pending is None,
        0 <= t.next < t.answers.len(),
    ensures
        ({
            let told = t.answers[t.next];
            let outcome = tried(t, r).0;
            &&& told is Failure ==> outcome == Err::<(), Seq<char>>(told->Failure_0)
            &&& !(told is Failure) ==> outcome is Ok
        }),
{
}

} // verus!
