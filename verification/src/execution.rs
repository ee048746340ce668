//! Executions: what is launched, the states it goes through, and the registry
//! of those that run and of those that have ended.
//!
//! A time is given by the caller, in milliseconds since the start of 1970.

use crate::names::Names;
use crate::pieces;
use crate::text;
use crate::text::{cat2, cat3, cat4, copy_texts, join_texts, u64_text};
use vstd::prelude::*;

verus! {

/// The number of an execution.
#[derive(Clone, Copy, Debug, Eq, PartialEq, Hash, Structural)]
pub struct ExecutionId(pub u64);

impl ExecutionId {
    /// The number.
    pub fn get(self) -> (r: u64)
        ensures
            r == self.0,
    {
        self.0
    }
}

/// What is launched.
#[derive(Debug, Clone, PartialEq, Eq)]
pub enum ExecutionTarget {
    External { program: String, args: Vec<String> },
    Pipeline { display: String },
    Builtin { name: String, args: Vec<String> },
}

/// What a target is.
pub enum TargetView {
    External { program: Seq<char>, args: Seq<Seq<char>> },
    Pipeline { display: Seq<char> },
    Builtin { name: Seq<char>, args: Seq<Seq<char>> },
}

impl View for ExecutionTarget {
    type V = TargetView;

    open spec fn view(&self) -> TargetView {
        match self {
            ExecutionTarget::External { program, args } => TargetView::External {
                program: program@,
                args: text::texts(args@),
            },
            ExecutionTarget::Pipeline { display } => TargetView::Pipeline { display: display@ },
            ExecutionTarget::Builtin { name, args } => TargetView::Builtin {
                name: name@,
                args: text::texts(args@),
            },
        }
    }
}

/// Whether the shell waits for an execution.
#[derive(Clone, Copy, Debug, Eq, PartialEq, Structural)]
pub enum ExecutionMode {
    Foreground,
    Background,
    Detached,
}

/// Where a stream goes.
#[derive(Clone, Copy, Debug, Eq, PartialEq, Structural)]
pub enum IoMode {
    Inherit,
    Redirected,
    Capture,
}

/// Which terminal an execution sees.
#[derive(Clone, Copy, Debug, Eq, PartialEq, Structural)]
pub enum TerminalMode {
    Inherit,
    Redirected,
    PseudoConsole,
}

/// The limits of an execution, where it has any.
#[derive(Clone, Copy, Debug, Eq, PartialEq, Structural)]
pub struct ExecutionLimits {
    pub memory_bytes: Option<u64>,
    pub process_count: Option<u32>,
}

impl Default for ExecutionLimits {
    fn default() -> (r: ExecutionLimits)
        ensures
            r.memory_bytes is None,
            r.process_count is None,
    {
        ExecutionLimits { memory_bytes: None, process_count: None }
    }
}

/// What is to be launched and how. It does not change once it is made; a
/// builder gives a new one.
pub struct ExecutionSpec {
    target: ExecutionTarget,
    cwd: String,
    environment_overrides: Names<String>,
    mode: ExecutionMode,
    stdin: IoMode,
    stdout: IoMode,
    stderr: IoMode,
    terminal: TerminalMode,
    limits: ExecutionLimits,
    timeout: Option<u64>,
}

/// What a launch intent is.
#[verifier::ext_equal]
pub struct SpecView {
    pub target: TargetView,
    pub cwd: Seq<char>,
    pub environment_overrides: Map<Seq<char>, Seq<char>>,
    pub mode: ExecutionMode,
    pub stdin: IoMode,
    pub stdout: IoMode,
    pub stderr: IoMode,
    pub terminal: TerminalMode,
    pub limits: ExecutionLimits,
    pub timeout: Option<u64>,
}

impl View for ExecutionSpec {
    type V = SpecView;

    closed spec fn view(&self) -> SpecView {
        SpecView {
            target: self.target@,
            cwd: self.cwd@,
            environment_overrides: self.environment_overrides@,
            mode: self.mode,
            stdin: self.stdin,
            stdout: self.stdout,
            stderr: self.stderr,
            terminal: self.terminal,
            limits: self.limits,
            timeout: self.timeout,
        }
    }
}

/// A launch intent with everything but its target, directory and mode as
/// usual.
pub open spec fn usual_spec(target: TargetView, cwd: Seq<char>, mode: ExecutionMode) -> SpecView {
    SpecView {
        target,
        cwd,
        environment_overrides: Map::empty(),
        mode,
        stdin: IoMode::Inherit,
        stdout: IoMode::Inherit,
        stderr: IoMode::Inherit,
        terminal: TerminalMode::Inherit,
        limits: ExecutionLimits { memory_bytes: None, process_count: None },
        timeout: None,
    }
}

impl ExecutionSpec {
    /// A launch intent that inherits everything and has no limits.
    pub fn new(target: ExecutionTarget, cwd: String, mode: ExecutionMode) -> (r: ExecutionSpec)
        ensures
            r@ == usual_spec(target@, cwd@, mode),
    {
        ExecutionSpec {
            target,
            cwd,
            environment_overrides: Names::new(),
            mode,
            stdin: IoMode::Inherit,
            stdout: IoMode::Inherit,
            stderr: IoMode::Inherit,
            terminal: TerminalMode::Inherit,
            limits: ExecutionLimits { memory_bytes: None, process_count: None },
            timeout: None,
        }
    }

    /// What is launched.
    pub fn target(&self) -> (r: &ExecutionTarget)
        ensures
            r@ == self@.target,
    {
        &self.target
    }

    /// The working directory.
    pub fn cwd(&self) -> (r: &str)
        ensures
            r@ == self@.cwd,
    {
        self.cwd.as_str()
    }

    /// The environment variables that differ from the shell's.
    pub fn environment_overrides(&self) -> (r: &Names<String>)
        ensures
            r@ == self@.environment_overrides,
    {
        &self.environment_overrides
    }

    /// Whether the shell waits.
    pub fn mode(&self) -> (r: ExecutionMode)
        ensures
            r == self@.mode,
    {
        self.mode
    }

    /// Where standard input comes from.
    pub fn stdin(&self) -> (r: IoMode)
        ensures
            r == self@.stdin,
    {
        self.stdin
    }

    /// Where standard output goes.
    pub fn stdout(&self) -> (r: IoMode)
        ensures
            r == self@.stdout,
    {
        self.stdout
    }

    /// Where standard error goes.
    pub fn stderr(&self) -> (r: IoMode)
        ensures
            r == self@.stderr,
    {
        self.stderr
    }

    /// The terminal.
    pub fn terminal(&self) -> (r: TerminalMode)
        ensures
            r == self@.terminal,
    {
        self.terminal
    }

    /// The limits.
    pub fn limits(&self) -> (r: &ExecutionLimits)
        ensures
            *r == self@.limits,
    {
        &self.limits
    }

    /// The time limit, in milliseconds.
    pub fn timeout(&self) -> (r: Option<u64>)
        ensures
            r == self@.timeout,
    {
        self.timeout
    }

    /// The intent with an environment variable set.
    pub fn with_environment_override(self, name: String, value: String) -> (r: ExecutionSpec)
        ensures
            r@ == (SpecView {
                environment_overrides: self@.environment_overrides.insert(name@, value@),
                ..self@
            }),
    {
        let mut s = self;
        let _old = s.environment_overrides.insert(name, value);
        s
    }

    /// The intent with other streams.
    pub fn with_io(self, stdin: IoMode, stdout: IoMode, stderr: IoMode) -> (r: ExecutionSpec)
        ensures
            r@ == (SpecView { stdin, stdout, stderr, ..self@ }),
    {
        let mut s = self;
        s.stdin = stdin;
        s.stdout = stdout;
        s.stderr = stderr;
        s
    }

    /// The intent with another terminal.
    pub fn with_terminal(self, terminal: TerminalMode) -> (r: ExecutionSpec)
        ensures
            r@ == (SpecView { terminal, ..self@ }),
    {
        let mut s = self;
        s.terminal = terminal;
        s
    }

    /// The intent with other limits.
    pub fn with_limits(self, limits: ExecutionLimits) -> (r: ExecutionSpec)
        ensures
            r@ == (SpecView { limits, ..self@ }),
    {
        let mut s = self;
        s.limits = limits;
        s
    }

    /// The intent with a time limit.
    pub fn with_timeout(self, timeout: u64) -> (r: ExecutionSpec)
        ensures
            r@ == (SpecView { timeout: Some(timeout), ..self@ }),
    {
        let mut s = self;
        s.timeout = Some(timeout);
        s
    }
}

/// Whether an execution was asked to stop. Once it was, it stays so.
#[derive(Clone, Copy, Debug, Eq, PartialEq, Structural)]
pub struct CancellationToken {
    cancelled: bool,
}

impl View for CancellationToken {
    type V = bool;

    closed spec fn view(&self) -> bool {
        self.cancelled
    }
}

impl CancellationToken {
    /// A token that nobody has used.
    pub fn fresh() -> (r: CancellationToken)
        ensures
            !r@,
    {
        CancellationToken { cancelled: false }
    }

    /// Asks to stop.
    pub fn cancel(&mut self)
        ensures
            final(self)@,
    {
        self.cancelled = true;
    }

    /// Whether a stop was asked for.
    pub fn is_cancelled(&self) -> (r: bool)
        ensures
            r == self@,
    {
        self.cancelled
    }
}

/// A value that is shown only to who asks for it.
pub struct SecretValue(String);

impl View for SecretValue {
    type V = Seq<char>;

    closed spec fn view(&self) -> Seq<char> {
        self.0@
    }
}

impl DeepView for SecretValue {
    type V = Seq<char>;

    open spec fn deep_view(&self) -> Seq<char> {
        self@
    }
}

impl SecretValue {
    /// A secret.
    pub fn new(value: String) -> (r: SecretValue)
        ensures
            r@ == value@,
    {
        SecretValue(value)
    }

    /// The value itself.
    pub fn expose(&self) -> (r: &str)
        ensures
            r@ == self@,
    {
        self.0.as_str()
    }

    /// What stands for the value wherever it is printed.
    pub fn redacted(&self) -> (r: String)
        ensures
            r@ == "<redacted>"@,
    {
        "<redacted>".to_owned()
    }
}

/// What one launch runs with. None of it goes into a record.
pub struct ExecutionContext {
    effective_cwd: String,
    effective_environment: Names<String>,
    temporary_secrets: Names<SecretValue>,
    cancellation: CancellationToken,
    correlation_id: Option<String>,
}

/// What a context is.
#[verifier::ext_equal]
pub struct ContextView {
    pub cwd: Seq<char>,
    pub environment: Map<Seq<char>, Seq<char>>,
    pub secrets: Map<Seq<char>, Seq<char>>,
    pub cancelled: bool,
    pub correlation_id: Option<Seq<char>>,
}

impl View for ExecutionContext {
    type V = ContextView;

    closed spec fn view(&self) -> ContextView {
        ContextView {
            cwd: self.effective_cwd@,
            environment: self.effective_environment@,
            secrets: self.temporary_secrets@,
            cancelled: self.cancellation@,
            correlation_id: pieces::opt_view(self.correlation_id),
        }
    }
}

impl ExecutionContext {
    /// A context without secrets.
    pub fn new(effective_cwd: String, effective_environment: Names<String>) -> (r: ExecutionContext)
        ensures
            r@ == (ContextView {
                cwd: effective_cwd@,
                environment: effective_environment@,
                secrets: Map::empty(),
                cancelled: false,
                correlation_id: None,
            }),
    {
        ExecutionContext {
            effective_cwd,
            effective_environment,
            temporary_secrets: Names::new(),
            cancellation: CancellationToken::fresh(),
            correlation_id: None,
        }
    }

    /// The working directory.
    pub fn effective_cwd(&self) -> (r: &str)
        ensures
            r@ == self@.cwd,
    {
        self.effective_cwd.as_str()
    }

    /// The environment.
    pub fn effective_environment(&self) -> (r: &Names<String>)
        ensures
            r@ == self@.environment,
    {
        &self.effective_environment
    }

    /// The secrets.
    pub fn temporary_secrets(&self) -> (r: &Names<SecretValue>)
        ensures
            r@ == self@.secrets,
    {
        &self.temporary_secrets
    }

    /// The cancellation token.
    pub fn cancellation(&self) -> (r: &CancellationToken)
        ensures
            r@ == self@.cancelled,
    {
        &self.cancellation
    }

    /// The identifier that ties the launch to a request.
    pub fn correlation_id(&self) -> (r: Option<&str>)
        ensures
            self@.correlation_id == match r {
                Some(s) => Some(s@),
                None => None,
            },
    {
        match &self.correlation_id {
            Some(s) => Some(s.as_str()),
            None => None,
        }
    }

    /// The context with a secret.
    pub fn with_secret(self, name: String, value: SecretValue) -> (r: ExecutionContext)
        ensures
            r@ == (ContextView { secrets: self@.secrets.insert(name@, value@), ..self@ }),
    {
        let mut c = self;
        let _old = c.temporary_secrets.insert(name, value);
        c
    }

    /// The context with an identifier.
    pub fn with_correlation_id(self, id: String) -> (r: ExecutionContext)
        ensures
            r@ == (ContextView { correlation_id: Some(id@), ..self@ }),
    {
        let mut c = self;
        c.correlation_id = Some(id);
        c
    }
}

/// The states that an execution goes through.
#[derive(Clone, Copy, Debug, Eq, PartialEq, Structural)]
pub enum ExecutionState {
    Created,
    Starting,
    Running,
    Cancelling,
    Completed,
    Failed,
    Cancelled,
}

impl ExecutionState {
    /// Whether nothing follows the state.
    pub open spec fn terminal(self) -> bool {
        self == ExecutionState::Completed || self == ExecutionState::Failed || self
            == ExecutionState::Cancelled
    }

    /// Whether `next` may follow the state.
    pub open spec fn leads_to(self, next: ExecutionState) -> bool {
        match self {
            ExecutionState::Created => next == ExecutionState::Starting,
            ExecutionState::Starting => next == ExecutionState::Running || next
                == ExecutionState::Failed,
            ExecutionState::Running => next == ExecutionState::Completed || next
                == ExecutionState::Failed || next == ExecutionState::Cancelling,
            ExecutionState::Cancelling => next == ExecutionState::Cancelled,
            _ => false,
        }
    }

    /// The name of the state.
    pub open spec fn name(self) -> Seq<char> {
        match self {
            ExecutionState::Created => "Created"@,
            ExecutionState::Starting => "Starting"@,
            ExecutionState::Running => "Running"@,
            ExecutionState::Cancelling => "Cancelling"@,
            ExecutionState::Completed => "Completed"@,
            ExecutionState::Failed => "Failed"@,
            ExecutionState::Cancelled => "Cancelled"@,
        }
    }

    /// Whether nothing follows the state.
    pub fn is_terminal(self) -> (r: bool)
        ensures
            r == self.terminal(),
    {
        self == ExecutionState::Completed || self == ExecutionState::Failed || self
            == ExecutionState::Cancelled
    }

    /// Whether `next` may follow the state.
    pub fn can_transition_to(self, next: ExecutionState) -> (r: bool)
        ensures
            r == self.leads_to(next),
    {
        match self {
            ExecutionState::Created => next == ExecutionState::Starting,
            ExecutionState::Starting => next == ExecutionState::Running || next
                == ExecutionState::Failed,
            ExecutionState::Running => next == ExecutionState::Completed || next
                == ExecutionState::Failed || next == ExecutionState::Cancelling,
            ExecutionState::Cancelling => next == ExecutionState::Cancelled,
            _ => false,
        }
    }

    /// The name of the state.
    pub fn text(self) -> (r: String)
        ensures
            r@ == self.name(),
    {
        match self {
            ExecutionState::Created => "Created".to_owned(),
            ExecutionState::Starting => "Starting".to_owned(),
            ExecutionState::Running => "Running".to_owned(),
            ExecutionState::Cancelling => "Cancelling".to_owned(),
            ExecutionState::Completed => "Completed".to_owned(),
            ExecutionState::Failed => "Failed".to_owned(),
            ExecutionState::Cancelled => "Cancelled".to_owned(),
        }
    }
}

/// How an execution ended.
#[derive(Debug, Clone, PartialEq, Eq)]
pub struct ExecutionResult {
    pub exit_code: Option<i32>,
    pub message: Option<String>,
}

/// What a result says.
#[verifier::ext_equal]
pub struct ResultView {
    pub exit_code: Option<i32>,
    pub message: Option<Seq<char>>,
}

impl View for ExecutionResult {
    type V = ResultView;

    open spec fn view(&self) -> ResultView {
        ResultView { exit_code: self.exit_code, message: pieces::opt_view(self.message) }
    }
}

/// What a result that may be absent says.
pub open spec fn opt_result(r: Option<ExecutionResult>) -> Option<ResultView> {
    match r {
        Some(x) => Some(x@),
        None => None,
    }
}

fn copy_opt_text(s: &Option<String>) -> (r: Option<String>)
    ensures
        pieces::opt_view(r) == pieces::opt_view(*s),
{
    match s {
        Some(t) => Some(t.clone()),
        None => None,
    }
}

impl ExecutionResult {
    /// A result.
    pub fn new(exit_code: Option<i32>, message: Option<String>) -> (r: ExecutionResult)
        ensures
            r@ == (ResultView { exit_code, message: pieces::opt_view(message) }),
    {
        ExecutionResult { exit_code, message }
    }

    fn copy(&self) -> (r: ExecutionResult)
        ensures
            r@ == self@,
    {
        ExecutionResult { exit_code: self.exit_code, message: copy_opt_text(&self.message) }
    }
}

/// A process of an execution.
#[derive(Clone, Copy, Debug, Eq, PartialEq, Structural)]
pub struct ProcessRecord {
    pub pid: u32,
    pub exit_code: Option<i32>,
}

/// An execution that has not ended.
pub struct Execution {
    id: ExecutionId,
    spec: ExecutionSpec,
    context: ExecutionContext,
    state: ExecutionState,
    created_at: u64,
    started_at: Option<u64>,
    finished_at: Option<u64>,
    root_pid: Option<u32>,
    processes: Vec<ProcessRecord>,
    result: Option<ExecutionResult>,
}

/// What an execution is.
#[verifier::ext_equal]
pub struct ExecutionView {
    pub id: ExecutionId,
    pub spec: SpecView,
    pub context: ContextView,
    pub state: ExecutionState,
    pub created_at: u64,
    pub started_at: Option<u64>,
    pub finished_at: Option<u64>,
    pub root_pid: Option<u32>,
    pub processes: Seq<ProcessRecord>,
    pub result: Option<ResultView>,
}

impl View for Execution {
    type V = ExecutionView;

    closed spec fn view(&self) -> ExecutionView {
        ExecutionView {
            id: self.id,
            spec: self.spec@,
            context: self.context@,
            state: self.state,
            created_at: self.created_at,
            started_at: self.started_at,
            finished_at: self.finished_at,
            root_pid: self.root_pid,
            processes: self.processes@,
            result: opt_result(self.result),
        }
    }
}

/// The place of the first process with that number, from `i` on.
pub open spec fn process_place(list: Seq<ProcessRecord>, pid: u32, i: int) -> Option<int>
    decreases list.len() - i,
{
    if i < 0 || i >= list.len() {
        None
    } else if list[i].pid == pid {
        Some(i)
    } else {
        process_place(list, pid, i + 1)
    }
}

/// The processes after one of them ended: the first with that number gets the
/// exit code.
pub open spec fn with_exit(
    list: Seq<ProcessRecord>,
    pid: u32,
    exit_code: Option<i32>,
) -> Seq<ProcessRecord> {
    match process_place(list, pid, 0) {
        Some(i) => list.update(i, ProcessRecord { pid, exit_code }),
        None => list,
    }
}

/// The execution after a process was added: the first one is its root.
pub open spec fn with_process(e: ExecutionView, pid: u32) -> ExecutionView {
    ExecutionView {
        root_pid: match e.root_pid {
            Some(p) => Some(p),
            None => Some(pid),
        },
        processes: e.processes.push(ProcessRecord { pid, exit_code: None }),
        ..e
    }
}

impl Execution {
    /// The number.
    pub fn id(&self) -> (r: ExecutionId)
        ensures
            r == self@.id,
    {
        self.id
    }

    /// The launch intent.
    pub fn spec(&self) -> (r: &ExecutionSpec)
        ensures
            r@ == self@.spec,
    {
        &self.spec
    }

    /// The context.
    pub fn context(&self) -> (r: &ExecutionContext)
        ensures
            r@ == self@.context,
    {
        &self.context
    }

    /// The state.
    pub fn state(&self) -> (r: ExecutionState)
        ensures
            r == self@.state,
    {
        self.state
    }

    /// When it was created.
    pub fn created_at(&self) -> (r: u64)
        ensures
            r == self@.created_at,
    {
        self.created_at
    }

    /// When it started to run.
    pub fn started_at(&self) -> (r: Option<u64>)
        ensures
            r == self@.started_at,
    {
        self.started_at
    }

    /// When it ended.
    pub fn finished_at(&self) -> (r: Option<u64>)
        ensures
            r == self@.finished_at,
    {
        self.finished_at
    }

    /// Its first process.
    pub fn root_pid(&self) -> (r: Option<u32>)
        ensures
            r == self@.root_pid,
    {
        self.root_pid
    }

    /// Its processes.
    pub fn processes(&self) -> (r: &[ProcessRecord])
        ensures
            r@ == self@.processes,
    {
        self.processes.as_slice()
    }

    /// How it ended.
    pub fn result(&self) -> (r: Option<&ExecutionResult>)
        ensures
            self@.result == match r {
                Some(x) => Some(x@),
                None => None,
            },
    {
        match &self.result {
            Some(x) => Some(x),
            None => None,
        }
    }

    /// Sets its first process.
    pub fn set_root_pid(&mut self, pid: u32)
        ensures
            final(self)@ == (ExecutionView { root_pid: Some(pid), ..old(self)@ }),
    {
        self.root_pid = Some(pid);
    }

    /// Adds a process.
    pub fn add_process(&mut self, pid: u32)
        ensures
            final(self)@ == with_process(old(self)@, pid),
    {
        let ghost before = self@;
        if self.root_pid.is_none() {
            self.root_pid = Some(pid);
        }
        self.processes.push(ProcessRecord { pid, exit_code: None });
        assert(self@ =~= with_process(before, pid));
    }

    /// Records how a process ended.
    pub fn set_process_exit(&mut self, pid: u32, exit_code: Option<i32>)
        ensures
            final(self)@ == (ExecutionView {
                processes: with_exit(old(self)@.processes, pid, exit_code),
                ..old(self)@
            }),
    {
        let ghost before = self@;
        let mut i: usize = 0;
        while i < self.processes.len()
            invariant
                i <= self.processes@.len(),
                self@ == before,
                before == old(self)@,
                process_place(before.processes, pid, 0) == process_place(
                    before.processes,
                    pid,
                    i as int,
                ),
            decreases self.processes@.len() - i,
        {
            if self.processes[i].pid == pid {
                self.processes[i] = ProcessRecord { pid, exit_code };
                assert(self@ =~= ExecutionView {
                    processes: with_exit(before.processes, pid, exit_code),
                    ..before
                });
                return;
            }
            i = i + 1;
        }
    }
}

/// An execution that has ended.
#[derive(Debug, Clone, PartialEq, Eq)]
pub struct ExecutionRecord {
    pub id: ExecutionId,
    pub display: String,
    pub state: ExecutionState,
    pub created_at: u64,
    pub started_at: Option<u64>,
    pub finished_at: u64,
    pub root_pid: Option<u32>,
    pub processes: Vec<ProcessRecord>,
    pub result: Option<ExecutionResult>,
}

/// What a record says.
#[verifier::ext_equal]
pub struct RecordView {
    pub id: ExecutionId,
    pub display: Seq<char>,
    pub state: ExecutionState,
    pub created_at: u64,
    pub started_at: Option<u64>,
    pub finished_at: u64,
    pub root_pid: Option<u32>,
    pub processes: Seq<ProcessRecord>,
    pub result: Option<ResultView>,
}

impl View for ExecutionRecord {
    type V = RecordView;

    open spec fn view(&self) -> RecordView {
        RecordView {
            id: self.id,
            display: self.display@,
            state: self.state,
            created_at: self.created_at,
            started_at: self.started_at,
            finished_at: self.finished_at,
            root_pid: self.root_pid,
            processes: self.processes@,
            result: opt_result(self.result),
        }
    }
}

fn copy_processes(list: &Vec<ProcessRecord>) -> (r: Vec<ProcessRecord>)
    ensures
        r@ == list@,
{
    let mut out: Vec<ProcessRecord> = Vec::new();
    let mut i: usize = 0;
    while i < list.len()
        invariant
            i <= list@.len(),
            out@ == list@.take(i as int),
        decreases list@.len() - i,
    {
        out.push(list[i]);
        assert(list@.take(i + 1) =~= list@.take(i as int).push(list@[i as int]));
        i = i + 1;
    }
    assert(list@.take(list@.len() as int) =~= list@);
    out
}

impl ExecutionRecord {
    /// A copy of the record.
    pub fn copy(&self) -> (r: ExecutionRecord)
        ensures
            r@ == self@,
    {
        let result = match &self.result {
            Some(x) => Some(x.copy()),
            None => None,
        };
        ExecutionRecord {
            id: self.id,
            display: self.display.clone(),
            state: self.state,
            created_at: self.created_at,
            started_at: self.started_at,
            finished_at: self.finished_at,
            root_pid: self.root_pid,
            processes: copy_processes(&self.processes),
            result,
        }
    }
}

/// What can go wrong with the registry.
#[derive(Clone, Copy, Debug, Eq, PartialEq, Structural)]
pub enum ExecutionError {
    IdExhausted,
    NotFound(ExecutionId),
    InvalidTransition { from: ExecutionState, to: ExecutionState },
    TerminalResultRequired(ExecutionState),
    ResultBeforeTerminal(ExecutionState),
}

impl ExecutionError {
    /// The message of the error.
    pub open spec fn message(self) -> Seq<char> {
        match self {
            ExecutionError::IdExhausted => "execution ID space exhausted"@,
            ExecutionError::NotFound(id) => "execution "@ + text::nat_text(id.0 as nat)
                + " was not found"@,
            ExecutionError::InvalidTransition { from, to } => "invalid execution transition: "@
                + from.name() + " -> "@ + to.name(),
            ExecutionError::TerminalResultRequired(state) =>
                "a result is required when entering terminal state "@ + state.name(),
            ExecutionError::ResultBeforeTerminal(state) =>
                "a result cannot be attached to non-terminal state "@ + state.name(),
        }
    }

    /// The message of the error.
    pub fn text(self) -> (r: String)
        ensures
            r@ == self.message(),
    {
        match self {
            ExecutionError::IdExhausted => "execution ID space exhausted".to_owned(),
            ExecutionError::NotFound(id) => {
                let n = u64_text(id.0);
                cat3("execution ", n.as_str(), " was not found")
            },
            ExecutionError::InvalidTransition { from, to } => {
                let a = from.text();
                let b = to.text();
                cat4("invalid execution transition: ", a.as_str(), " -> ", b.as_str())
            },
            ExecutionError::TerminalResultRequired(state) => {
                let a = state.text();
                cat2("a result is required when entering terminal state ", a.as_str())
            },
            ExecutionError::ResultBeforeTerminal(state) => {
                let a = state.text();
                cat2("a result cannot be attached to non-terminal state ", a.as_str())
            },
        }
    }
}

// ---------------------------------------------------------------------------
// The registry
// ---------------------------------------------------------------------------

/// The executions that have not ended, and the last of those that have.
pub struct ExecutionManager {
    next_id: u64,
    active: Vec<Execution>,
    history: Vec<ExecutionRecord>,
    history_limit: usize,
}

/// What a registry holds.
#[verifier::ext_equal]
pub struct ManagerView {
    pub next_id: u64,
    pub active: Seq<ExecutionView>,
    pub history: Seq<RecordView>,
    pub limit: nat,
}

/// What the executions of a list are.
pub open spec fn execution_views(list: Seq<Execution>) -> Seq<ExecutionView> {
    Seq::new(list.len(), |i: int| list[i]@)
}

/// What the records of a list say.
pub open spec fn record_views(list: Seq<ExecutionRecord>) -> Seq<RecordView> {
    Seq::new(list.len(), |i: int| list[i]@)
}

impl View for ExecutionManager {
    type V = ManagerView;

    closed spec fn view(&self) -> ManagerView {
        ManagerView {
            next_id: self.next_id,
            active: execution_views(self.active@),
            history: record_views(self.history@),
            limit: self.history_limit as nat,
        }
    }
}

impl ManagerView {
    /// Whether every number is given once and was given before the next one,
    /// nothing that has ended is active, and the history keeps its limit.
    pub open spec fn valid(self) -> bool {
        &&& forall|i: int, j: int|
            0 <= i < j < self.active.len() ==> (#[trigger] self.active[i]).id.0 < (
            #[trigger] self.active[j]).id.0
        &&& forall|i: int|
            0 <= i < self.active.len() ==> (#[trigger] self.active[i]).id.0 < self.next_id
                && !self.active[i].state.terminal()
        &&& self.history.len() <= self.limit
        &&& self.next_id >= 1
    }

    /// The place of an execution, from `i` on.
    pub open spec fn place(self, id: ExecutionId, i: int) -> Option<int>
        decreases self.active.len() - i,
    {
        if i < 0 || i >= self.active.len() {
            None
        } else if self.active[i].id == id {
            Some(i)
        } else {
            self.place(id, i + 1)
        }
    }

    /// An active execution.
    pub open spec fn find(self, id: ExecutionId) -> Option<ExecutionView> {
        match self.place(id, 0) {
            Some(i) => Some(self.active[i]),
            None => None,
        }
    }
}

/// What is shown of a target.
pub open spec fn display_of(target: TargetView) -> Seq<char> {
    match target {
        TargetView::External { program, args } => text::joined(seq![program] + args, " "@),
        TargetView::Pipeline { display } => display,
        TargetView::Builtin { name, args } => text::joined(seq![name] + args, " "@),
    }
}

/// The record of an execution that ended at `now`.
pub open spec fn record_of(e: ExecutionView, now: u64) -> RecordView {
    RecordView {
        id: e.id,
        display: display_of(e.spec.target),
        state: e.state,
        created_at: e.created_at,
        started_at: e.started_at,
        finished_at: now,
        root_pid: e.root_pid,
        processes: e.processes,
        result: e.result,
    }
}

/// The last `limit` records of a history.
pub open spec fn bounded(history: Seq<RecordView>, limit: nat) -> Seq<RecordView> {
    if history.len() > limit {
        history.skip(history.len() - limit)
    } else {
        history
    }
}

/// What a transition gives, and the registry after it. A transition that is
/// refused changes nothing. An execution that ends leaves the active ones, and
/// its record goes to the history, of which the last `limit` records are kept.
pub open spec fn transitioned(
    m: ManagerView,
    id: ExecutionId,
    next: ExecutionState,
    result: Option<ResultView>,
    now: u64,
) -> (Result<Option<RecordView>, ExecutionError>, ManagerView) {
    match m.place(id, 0) {
        None => (Err(ExecutionError::NotFound(id)), m),
        Some(i) => {
            let e = m.active[i];
            if !e.state.leads_to(next) {
                (Err(ExecutionError::InvalidTransition { from: e.state, to: next }), m)
            } else if next.terminal() && result is None {
                (Err(ExecutionError::TerminalResultRequired(next)), m)
            } else if !next.terminal() && result is Some {
                (Err(ExecutionError::ResultBeforeTerminal(next)), m)
            } else if !next.terminal() {
                let moved = ExecutionView {
                    state: next,
                    started_at: if next == ExecutionState::Running {
                        Some(now)
                    } else {
                        e.started_at
                    },
                    ..e
                };
                (Ok(None), ManagerView { active: m.active.update(i, moved), ..m })
            } else {
                let record = record_of(ExecutionView { state: next, result, ..e }, now);
                let active = m.active.remove(i);
                if m.limit > 0 {
                    (
                        Ok(Some(record)),
                        ManagerView {
                            active,
                            history: bounded(m.history.push(record), m.limit),
                            ..m
                        },
                    )
                } else {
                    (Ok(None), ManagerView { active, ..m })
                }
            }
        },
    }
}

/// The execution that a launch intent starts as.
pub open spec fn created(
    id: ExecutionId,
    spec: SpecView,
    context: ContextView,
    now: u64,
) -> ExecutionView {
    ExecutionView {
        id,
        spec,
        context,
        state: ExecutionState::Created,
        created_at: now,
        started_at: None,
        finished_at: None,
        root_pid: None,
        processes: Seq::empty(),
        result: None,
    }
}

/// A registry as it is made.
pub open spec fn fresh(limit: nat) -> ManagerView {
    ManagerView { next_id: 1, active: Seq::empty(), history: Seq::empty(), limit }
}

/// A registry with one more execution.
pub open spec fn with_created(
    m: ManagerView,
    spec: SpecView,
    context: ContextView,
    now: u64,
) -> ManagerView {
    ManagerView {
        next_id: (m.next_id + 1) as u64,
        active: m.active.push(created(ExecutionId(m.next_id), spec, context, now)),
        ..m
    }
}

fn display_text(target: &ExecutionTarget) -> (r: String)
    ensures
        r@ == display_of(target@),
{
    match target {
        ExecutionTarget::External { program, args } => join_first(program, args),
        ExecutionTarget::Pipeline { display } => display.clone(),
        ExecutionTarget::Builtin { name, args } => join_first(name, args),
    }
}

fn join_first(first: &String, rest: &Vec<String>) -> (r: String)
    ensures
        r@ == text::joined(seq![first@] + text::texts(rest@), " "@),
{
    let mut all: Vec<String> = vec![first.clone()];
    assert(text::texts(all@) =~= seq![first@]);
    text::extend_texts(&mut all, rest);
    join_texts(&all, " ")
}

/// The record of an execution that ended, without anything of its context.
fn sanitize(e: Execution, now: u64) -> (r: ExecutionRecord)
    ensures
        r@ == record_of(e@, now),
{
    ExecutionRecord {
        id: e.id,
        display: display_text(&e.spec.target),
        state: e.state,
        created_at: e.created_at,
        started_at: e.started_at,
        finished_at: now,
        root_pid: e.root_pid,
        processes: e.processes,
        result: e.result,
    }
}

impl ExecutionManager {
    /// A registry without executions that keeps that many records.
    pub fn new(history_limit: usize) -> (r: ExecutionManager)
        ensures
            r@ == fresh(history_limit as nat),
            r@.valid(),
    {
        let r = ExecutionManager {
            next_id: 1,
            active: Vec::new(),
            history: Vec::new(),
            history_limit,
        };
        assert(r@.active =~= Seq::<ExecutionView>::empty());
        assert(r@.history =~= Seq::<RecordView>::empty());
        r
    }

    /// Registers an execution under a new number; fails when the numbers are
    /// used up.
    pub fn create(&mut self, spec: ExecutionSpec, context: ExecutionContext, now: u64) -> (r: Result<
        ExecutionId,
        ExecutionError,
    >)
        requires
            old(self)@.valid(),
        ensures
            final(self)@.valid(),
            old(self)@.next_id == u64::MAX ==> r == Err::<ExecutionId, ExecutionError>(
                ExecutionError::IdExhausted,
            ) && final(self)@ == old(self)@,
            old(self)@.next_id < u64::MAX ==> ({
                let id = ExecutionId(old(self)@.next_id);
                &&& r == Ok::<ExecutionId, ExecutionError>(id)
                &&& final(self)@ == with_created(old(self)@, spec@, context@, now)
            }),
    {
        let ghost before = self@;
        if self.next_id == u64::MAX {
            return Err(ExecutionError::IdExhausted);
        }
        let id = ExecutionId(self.next_id);
        self.next_id = self.next_id + 1;
        let e = Execution {
            id,
            spec,
            context,
            state: ExecutionState::Created,
            created_at: now,
            started_at: None,
            finished_at: None,
            root_pid: None,
            processes: Vec::new(),
            result: None,
        };
        assert(e@ =~= created(id, spec@, context@, now));
        self.active.push(e);
        assert(self@.active =~= before.active.push(e@));
        Ok(id)
    }

    fn position(&self, id: ExecutionId) -> (r: Option<usize>)
        ensures
            match r {
                Some(i) => self@.place(id, 0) == Some(i as int) && i < self.active@.len()
                    && self@.active[i as int].id == id,
                None => self@.place(id, 0) is None,
            },
    {
        let mut i: usize = 0;
        while i < self.active.len()
            invariant
                i <= self.active@.len(),
                self@.place(id, 0) == self@.place(id, i as int),
            decreases self.active@.len() - i,
        {
            assert(self@.active[i as int] == self.active@[i as int]@);
            if self.active[i].id == id {
                return Some(i);
            }
            i = i + 1;
        }
        None
    }

    /// An active execution.
    pub fn get(&self, id: ExecutionId) -> (r: Option<&Execution>)
        ensures
            self@.find(id) == match r {
                Some(e) => Some(e@),
                None => None,
            },
    {
        match self.position(id) {
            Some(i) => Some(&self.active[i]),
            None => None,
        }
    }

    /// An active execution, to be changed.
    pub fn get_mut(&mut self, id: ExecutionId) -> (r: Option<&mut Execution>)
        ensures
            match r {
                Some(e) => old(self)@.find(id) == Some(e@) && final(self)@ == (ManagerView {
                    active: old(self)@.active.update(
                        old(self)@.place(id, 0)->0,
                        final(e)@,
                    ),
                    ..old(self)@
                }),
                None => old(self)@.find(id) is None && final(self)@ == old(self)@,
            },
    {
        match self.position(id) {
            Some(i) => Some(&mut self.active[i]),
            None => None,
        }
    }

    /// The active executions, in the order in which they were created.
    pub fn active(&self) -> (r: &Vec<Execution>)
        ensures
            execution_views(r@) == self@.active,
    {
        &self.active
    }

    /// The records, the oldest first.
    pub fn history(&self) -> (r: &Vec<ExecutionRecord>)
        ensures
            record_views(r@) == self@.history,
    {
        &self.history
    }

    /// Moves an execution to its next state.
    pub fn transition(
        &mut self,
        id: ExecutionId,
        next: ExecutionState,
        result: Option<ExecutionResult>,
        now: u64,
    ) -> (r: Result<Option<ExecutionRecord>, ExecutionError>)
        requires
            old(self)@.valid(),
        ensures
            (match r {
                Ok(Some(record)) => Ok(Some(record@)),
                Ok(None) => Ok(None),
                Err(e) => Err(e),
            }, final(self)@) == transitioned(old(self)@, id, next, opt_result(result), now),
            final(self)@.valid(),
    {
        let ghost before = self@;
        let i: usize = match self.position(id) {
            None => return Err(ExecutionError::NotFound(id)),
            Some(i) => i,
        };
        assert(before.active[i as int] == self.active@[i as int]@);
        let from = self.active[i].state;
        if !from.can_transition_to(next) {
            return Err(ExecutionError::InvalidTransition { from, to: next });
        }
        let terminal = next.is_terminal();
        if terminal && result.is_none() {
            return Err(ExecutionError::TerminalResultRequired(next));
        }
        if !terminal && result.is_some() {
            return Err(ExecutionError::ResultBeforeTerminal(next));
        }
        if !terminal {
            self.active[i].state = next;
            if next == ExecutionState::Running {
                self.active[i].started_at = Some(now);
            }
            proof {
                let after = transitioned(before, id, next, opt_result(result), now).1;
                assert(self@.active =~= after.active);
                assert(self@ =~= after);
            }
            return Ok(None);
        }
        let mut ended = self.active.remove(i);
        ended.state = next;
        ended.result = result;
        let ghost last = ended@;
        let record = sanitize(ended, now);
        proof {
            assert(self@.active =~= before.active.remove(i as int));
            assert(record@ =~= record_of(
                ExecutionView { state: next, result: opt_result(result), ..before.active[i as int] },
                now,
            ));
            assert(forall|k: int|
                0 <= k < self@.active.len() ==> (#[trigger] self@.active[k])
                    == before.active[if k < i {
                    k
                } else {
                    k + 1
                }]);
        }
        if self.history_limit == 0 {
            return Ok(None);
        }
        let kept = record.copy();
        let ghost had = self@.history;
        self.history.push(kept);
        assert(record_views(self.history@) =~= had.push(record@));
        if self.history.len() > self.history_limit {
            let ghost full = self.history@;
            let _oldest = self.history.remove(0);
            assert(record_views(self.history@) =~= record_views(full).skip(1));
        }
        assert(self@.history =~= bounded(had.push(record@), before.limit));
        Ok(Some(record))
    }
}

// ---------------------------------------------------------------------------
// Lifecycles
// ---------------------------------------------------------------------------

/// How waiting for a process went.
#[derive(Debug, Clone, PartialEq, Eq)]
pub enum WaitOutcome {
    Exited { success: bool, code: Option<i32> },
    Failed(String),
}

/// What a wait gave.
pub enum WaitView {
    Exited { success: bool, code: Option<i32> },
    Failed(Seq<char>),
}

impl View for WaitOutcome {
    type V = WaitView;

    open spec fn view(&self) -> WaitView {
        match self {
            WaitOutcome::Exited { success, code } => WaitView::Exited {
                success: *success,
                code: *code,
            },
            WaitOutcome::Failed(e) => WaitView::Failed(e@),
        }
    }
}

/// The registry after a new execution was registered and moved to `Starting`,
/// and, when `run` holds, to `Running`.
pub open spec fn begun(
    m: ManagerView,
    spec: SpecView,
    context: ContextView,
    run: bool,
    now: u64,
) -> ManagerView {
    let id = ExecutionId(m.next_id);
    let m1 = with_created(m, spec, context, now);
    let m2 = transitioned(m1, id, ExecutionState::Starting, None, now).1;
    if run {
        transitioned(m2, id, ExecutionState::Running, None, now).1
    } else {
        m2
    }
}

proof fn lemma_last_is_found(m: ManagerView, i: int)
    requires
        m.valid(),
        m.active.len() > 0,
        0 <= i < m.active.len(),
    ensures
        m.place(m.active.last().id, i) == Some(m.active.len() - 1),
    decreases m.active.len() - i,
{
    if i < m.active.len() - 1 {
        assert(m.active[i].id.0 < m.active[m.active.len() - 1].id.0);
        lemma_last_is_found(m, i + 1);
    }
}

fn begin(
    manager: &mut ExecutionManager,
    target: ExecutionTarget,
    cwd: String,
    environment: Names<String>,
    mode: ExecutionMode,
    run: bool,
    now: u64,
) -> (r: Result<ExecutionId, ExecutionError>)
    requires
        old(manager)@.valid(),
    ensures
        final(manager)@.valid(),
        old(manager)@.next_id == u64::MAX ==> r == Err::<ExecutionId, ExecutionError>(
            ExecutionError::IdExhausted,
        ) && final(manager)@ == old(manager)@,
        old(manager)@.next_id < u64::MAX ==> r == Ok::<ExecutionId, ExecutionError>(
            ExecutionId(old(manager)@.next_id),
        ) && final(manager)@ == begun(
            old(manager)@,
            usual_spec(target@, cwd@, mode),
            fresh_context(cwd@, environment@),
            run,
            now,
        ),
{
    let context = ExecutionContext::new(cwd.clone(), environment);
    let spec = ExecutionSpec::new(target, cwd, mode);
    let id = match manager.create(spec, context, now) {
        Err(e) => return Err(e),
        Ok(id) => id,
    };
    proof {
        lemma_last_is_found(manager@, 0);
    }
    let moved = manager.transition(id, ExecutionState::Starting, None, now);
    match moved {
        Err(e) => return Err(e),
        Ok(_) => {},
    }
    if run {
        proof {
            lemma_last_is_found(manager@, 0);
        }
        match manager.transition(id, ExecutionState::Running, None, now) {
            Err(e) => return Err(e),
            Ok(_) => {},
        }
    }
    Ok(id)
}

/// A context without secrets.
pub open spec fn fresh_context(cwd: Seq<char>, environment: Map<Seq<char>, Seq<char>>) -> ContextView {
    ContextView { cwd, environment, secrets: Map::empty(), cancelled: false, correlation_id: None }
}

/// Registers a program that the shell waits for, before it is launched.
pub fn begin_foreground_external(
    manager: &mut ExecutionManager,
    program: &str,
    args: &[String],
    cwd: String,
    environment: Names<String>,
    now: u64,
) -> (r: Result<ExecutionId, ExecutionError>)
    requires
        old(manager)@.valid(),
    ensures
        final(manager)@.valid(),
        old(manager)@.next_id == u64::MAX ==> r == Err::<ExecutionId, ExecutionError>(
            ExecutionError::IdExhausted,
        ) && final(manager)@ == old(manager)@,
        old(manager)@.next_id < u64::MAX ==> r == Ok::<ExecutionId, ExecutionError>(
            ExecutionId(old(manager)@.next_id),
        ) && final(manager)@ == begun(
            old(manager)@,
            usual_spec(
                TargetView::External { program: program@, args: text::texts(args@) },
                cwd@,
                ExecutionMode::Foreground,
            ),
            fresh_context(cwd@, environment@),
            false,
            now,
        ),
{
    let target = ExecutionTarget::External { program: program.to_owned(), args: copy_texts(args) };
    begin(manager, target, cwd, environment, ExecutionMode::Foreground, false, now)
}

/// Registers a pipeline that the shell waits for, before any of its processes
/// is launched.
pub fn begin_foreground_pipeline(
    manager: &mut ExecutionManager,
    display: String,
    cwd: String,
    environment: Names<String>,
    now: u64,
) -> (r: Result<ExecutionId, ExecutionError>)
    requires
        old(manager)@.valid(),
    ensures
        final(manager)@.valid(),
        old(manager)@.next_id == u64::MAX ==> r == Err::<ExecutionId, ExecutionError>(
            ExecutionError::IdExhausted,
        ) && final(manager)@ == old(manager)@,
        old(manager)@.next_id < u64::MAX ==> r == Ok::<ExecutionId, ExecutionError>(
            ExecutionId(old(manager)@.next_id),
        ) && final(manager)@ == begun(
            old(manager)@,
            usual_spec(
                TargetView::Pipeline { display: display@ },
                cwd@,
                ExecutionMode::Foreground,
            ),
            fresh_context(cwd@, environment@),
            true,
            now,
        ),
{
    begin(
        manager,
        ExecutionTarget::Pipeline { display },
        cwd,
        environment,
        ExecutionMode::Foreground,
        true,
        now,
    )
}

/// The registry after a process was added to an execution.
pub open spec fn with_new_process(m: ManagerView, id: ExecutionId, pid: u32) -> ManagerView {
    match m.place(id, 0) {
        Some(i) => ManagerView { active: m.active.update(i, with_process(m.active[i], pid)), ..m },
        None => m,
    }
}

/// The registry after a process of an execution ended.
pub open spec fn with_process_exit(
    m: ManagerView,
    id: ExecutionId,
    pid: u32,
    code: Option<i32>,
) -> ManagerView {
    match m.place(id, 0) {
        Some(i) => ManagerView {
            active: m.active.update(
                i,
                ExecutionView {
                    processes: with_exit(m.active[i].processes, pid, code),
                    ..m.active[i]
                },
            ),
            ..m
        },
        None => m,
    }
}

proof fn lemma_place(m: ManagerView, id: ExecutionId, i: int)
    requires
        0 <= i,
    ensures
        match m.place(id, i) {
            Some(k) => i <= k < m.active.len() && m.active[k].id == id,
            None => forall|k: int| i <= k < m.active.len() ==> (#[trigger] m.active[k]).id != id,
        },
    decreases m.active.len() - i,
{
    if i < m.active.len() && m.active[i].id != id {
        lemma_place(m, id, i + 1);
    }
}

/// Adds a launched process to a pipeline.
pub fn register_pipeline_process(manager: &mut ExecutionManager, id: ExecutionId, pid: u32) -> (r:
    Result<(), ExecutionError>)
    requires
        old(manager)@.valid(),
    ensures
        final(manager)@.valid(),
        final(manager)@ == with_new_process(old(manager)@, id, pid),
        r == if old(manager)@.find(id) is Some {
            Ok::<(), ExecutionError>(())
        } else {
            Err(ExecutionError::NotFound(id))
        },
{
    proof {
        lemma_place(manager@, id, 0);
    }
    match manager.get_mut(id) {
        None => Err(ExecutionError::NotFound(id)),
        Some(e) => {
            e.add_process(pid);
            Ok(())
        },
    }
}

fn record_exit(manager: &mut ExecutionManager, id: ExecutionId, pid: u32, code: Option<i32>) -> (r:
    Result<(), ExecutionError>)
    requires
        old(manager)@.valid(),
    ensures
        final(manager)@.valid(),
        final(manager)@ == with_process_exit(old(manager)@, id, pid, code),
        r == if old(manager)@.find(id) is Some {
            Ok::<(), ExecutionError>(())
        } else {
            Err(ExecutionError::NotFound(id))
        },
{
    proof {
        lemma_place(manager@, id, 0);
    }
    match manager.get_mut(id) {
        None => Err(ExecutionError::NotFound(id)),
        Some(e) => {
            e.set_process_exit(pid, code);
            Ok(())
        },
    }
}

/// What a transition without a record gives.
pub open spec fn moved(
    m: ManagerView,
    id: ExecutionId,
    next: ExecutionState,
    result: Option<ResultView>,
    now: u64,
) -> (Result<(), ExecutionError>, ManagerView) {
    let (r, m2) = transitioned(m, id, next, result, now);
    (
        match r {
            Ok(_) => Ok(()),
            Err(e) => Err(e),
        },
        m2,
    )
}

fn move_to(
    manager: &mut ExecutionManager,
    id: ExecutionId,
    next: ExecutionState,
    result: Option<ExecutionResult>,
    now: u64,
) -> (r: Result<(), ExecutionError>)
    requires
        old(manager)@.valid(),
    ensures
        (r, final(manager)@) == moved(old(manager)@, id, next, opt_result(result), now),
        final(manager)@.valid(),
{
    match manager.transition(id, next, result, now) {
        Ok(_) => Ok(()),
        Err(e) => Err(e),
    }
}

/// Records that a program could not be launched.
pub fn launch_failed(manager: &mut ExecutionManager, id: ExecutionId, message: String, now: u64) -> (r:
    Result<(), ExecutionError>)
    requires
        old(manager)@.valid(),
    ensures
        (r, final(manager)@) == moved(
            old(manager)@,
            id,
            ExecutionState::Failed,
            Some(ResultView { exit_code: None, message: Some(message@) }),
            now,
        ),
        final(manager)@.valid(),
{
    move_to(
        manager,
        id,
        ExecutionState::Failed,
        Some(ExecutionResult::new(None, Some(message))),
        now,
    )
}

/// Records that a program was launched.
pub fn launched(manager: &mut ExecutionManager, id: ExecutionId, pid: u32, now: u64) -> (r: Result<
    (),
    ExecutionError,
>)
    requires
        old(manager)@.valid(),
    ensures
        old(manager)@.find(id) is None ==> r == Err::<(), ExecutionError>(
            ExecutionError::NotFound(id),
        ) && final(manager)@ == old(manager)@,
        old(manager)@.find(id) is Some ==> (r, final(manager)@) == moved(
            with_new_process(old(manager)@, id, pid),
            id,
            ExecutionState::Running,
            None,
            now,
        ),
        final(manager)@.valid(),
{
    match register_pipeline_process(manager, id, pid) {
        Err(e) => return Err(e),
        Ok(_) => {},
    }
    move_to(manager, id, ExecutionState::Running, None, now)
}

/// The state and result that a wait for a program leads to.
pub open spec fn external_end(w: WaitView) -> (ExecutionState, ResultView) {
    match w {
        WaitView::Exited { success, code } => if success {
            (ExecutionState::Completed, ResultView { exit_code: code, message: None })
        } else {
            (
                ExecutionState::Failed,
                ResultView { exit_code: code, message: Some("process exited unsuccessfully"@) },
            )
        },
        WaitView::Failed(e) => (
            ExecutionState::Failed,
            ResultView { exit_code: None, message: Some("failed to wait for process: "@ + e) },
        ),
    }
}

/// Records how a program that the shell waited for ended.
pub fn external_ended(
    manager: &mut ExecutionManager,
    id: ExecutionId,
    pid: u32,
    outcome: &WaitOutcome,
    now: u64,
) -> (r: Result<(), ExecutionError>)
    requires
        old(manager)@.valid(),
    ensures
        outcome@ is Exited && old(manager)@.find(id) is None ==> r == Err::<(), ExecutionError>(
            ExecutionError::NotFound(id),
        ) && final(manager)@ == old(manager)@,
        !(outcome@ is Exited && old(manager)@.find(id) is None) ==> (r, final(manager)@) == moved(
            match outcome@ {
                WaitView::Exited { success, code } => with_process_exit(
                    old(manager)@,
                    id,
                    pid,
                    code,
                ),
                WaitView::Failed(e) => old(manager)@,
            },
            id,
            external_end(outcome@).0,
            Some(external_end(outcome@).1),
            now,
        ),
        final(manager)@.valid(),
{
    let (state, result) = match outcome {
        WaitOutcome::Exited { success, code } => {
            match record_exit(manager, id, pid, *code) {
                Err(e) => return Err(e),
                Ok(_) => {},
            }
            if *success {
                (ExecutionState::Completed, ExecutionResult::new(*code, None))
            } else {
                (
                    ExecutionState::Failed,
                    ExecutionResult::new(
                        *code,
                        Some("process exited unsuccessfully".to_owned()),
                    ),
                )
            }
        },
        WaitOutcome::Failed(e) => (
            ExecutionState::Failed,
            ExecutionResult::new(None, Some(cat2("failed to wait for process: ", e.as_str()))),
        ),
    };
    assert(result@ == external_end(outcome@).1);
    move_to(manager, id, state, Some(result), now)
}

/// Records that a pipeline could not be set up; an execution that is not
/// there, or cannot fail any more, is left alone.
pub fn fail_foreground_pipeline(
    manager: &mut ExecutionManager,
    id: ExecutionId,
    message: String,
    now: u64,
)
    requires
        old(manager)@.valid(),
    ensures
        final(manager)@ == moved(
            old(manager)@,
            id,
            ExecutionState::Failed,
            Some(ResultView { exit_code: None, message: Some(message@) }),
            now,
        ).1,
        final(manager)@.valid(),
{
    let _ignored = launch_failed(manager, id, message, now);
}

/// The waits for the processes of a pipeline.
pub open spec fn wait_views(list: Seq<(u32, WaitOutcome)>) -> Seq<(u32, WaitView)> {
    Seq::new(list.len(), |i: int| (list[i].0, list[i].1@))
}

/// Whether the last of the first `n` waits succeeded, its exit code, and its
/// failure. A wait that failed keeps the exit code from before.
pub open spec fn pipeline_end(waits: Seq<(u32, WaitView)>, n: int) -> (
    bool,
    Option<i32>,
    Option<Seq<char>>,
)
    decreases n,
{
    if n <= 0 {
        (true, None, None)
    } else {
        match waits[n - 1].1 {
            WaitView::Exited { success, code } => (success, code, None),
            WaitView::Failed(e) => (false, pipeline_end(waits, n - 1).1, Some(e)),
        }
    }
}

/// The registry after the first `n` waits were recorded.
pub open spec fn waits_recorded(
    m: ManagerView,
    id: ExecutionId,
    waits: Seq<(u32, WaitView)>,
    n: int,
) -> ManagerView
    decreases n,
{
    if n <= 0 {
        m
    } else {
        let before = waits_recorded(m, id, waits, n - 1);
        match waits[n - 1].1 {
            WaitView::Exited { success, code } => with_process_exit(
                before,
                id,
                waits[n - 1].0,
                code,
            ),
            WaitView::Failed(e) => before,
        }
    }
}

/// The state and result that the waits for a pipeline lead to.
pub open spec fn pipeline_result(waits: Seq<(u32, WaitView)>) -> (ExecutionState, ResultView) {
    let (success, code, failure) = pipeline_end(waits, waits.len() as int);
    (
        if success && failure is None {
            ExecutionState::Completed
        } else {
            ExecutionState::Failed
        },
        ResultView {
            exit_code: code,
            message: match failure {
                Some(e) => Some("failed to wait for pipeline process: "@ + e),
                None => None,
            },
        },
    )
}

proof fn lemma_place_after_exit(m: ManagerView, id: ExecutionId, pid: u32, code: Option<i32>)
    ensures
        with_process_exit(m, id, pid, code).place(id, 0) == m.place(id, 0),
{
    lemma_place(m, id, 0);
    let after = with_process_exit(m, id, pid, code);
    lemma_same_ids(m, after, id, 0);
}

proof fn lemma_same_ids(a: ManagerView, b: ManagerView, id: ExecutionId, i: int)
    requires
        0 <= i,
        a.active.len() == b.active.len(),
        forall|k: int| 0 <= k < a.active.len() ==> (#[trigger] a.active[k]).id == b.active[k].id,
    ensures
        a.place(id, i) == b.place(id, i),
    decreases a.active.len() - i,
{
    if i < a.active.len() {
        assert(a.active[i].id == b.active[i].id);
        lemma_same_ids(a, b, id, i + 1);
    }
}

/// Records how the processes of a pipeline ended. The pipeline's result is
/// that of its last process: `Ok` tells whether it succeeded, and the inner
/// error is that of the wait for it.
pub fn wait_foreground_pipeline(
    manager: &mut ExecutionManager,
    id: ExecutionId,
    waits: &Vec<(u32, WaitOutcome)>,
    now: u64,
) -> (r: Result<Result<bool, String>, ExecutionError>)
    requires
        old(manager)@.valid(),
    ensures
        ({
            let w = wait_views(waits@);
            let (success, code, failure) = pipeline_end(w, w.len() as int);
            let (state, result) = pipeline_result(w);
            let (end, m) = moved(
                waits_recorded(old(manager)@, id, w, w.len() as int),
                id,
                state,
                Some(result),
                now,
            );
            &&& final(manager)@ == m
            &&& match end {
                Err(e) => r == Err::<Result<bool, String>, ExecutionError>(e),
                Ok(_) => match failure {
                    Some(e) => r matches Ok(Err(why)) && why@ == e,
                    None => r == Ok::<Result<bool, String>, ExecutionError>(Ok(success)),
                },
            }
        }),
        final(manager)@.valid(),
{
    let ghost w = wait_views(waits@);
    let ghost start = manager@;
    let mut success = true;
    let mut code: Option<i32> = None;
    let mut failure: Option<String> = None;
    let mut i: usize = 0;
    while i < waits.len()
        invariant
            i <= waits@.len(),
            w == wait_views(waits@),
            start == old(manager)@,
            manager@.valid(),
            manager@.place(id, 0) == start.place(id, 0),
            manager@ == waits_recorded(start, id, w, i as int),
            (success, code, pieces::opt_view(failure)) == pipeline_end(w, i as int),
        decreases waits@.len() - i,
    {
        assert(w[i as int] == (waits@[i as int].0, waits@[i as int].1@));
        match &waits[i].1 {
            WaitOutcome::Exited { success: s, code: c } => {
                success = *s;
                code = *c;
                failure = None;
                proof {
                    lemma_place_after_exit(manager@, id, waits@[i as int].0, *c);
                }
                let _done = record_exit(manager, id, waits[i].0, *c);
            },
            WaitOutcome::Failed(e) => {
                success = false;
                failure = Some(e.clone());
            },
        }
        i = i + 1;
    }
    let state = if success && failure.is_none() {
        ExecutionState::Completed
    } else {
        ExecutionState::Failed
    };
    let message = match &failure {
        Some(e) => Some(cat2("failed to wait for pipeline process: ", e.as_str())),
        None => None,
    };
    let result = ExecutionResult::new(code, message);
    assert(result@ == pipeline_result(w).1);
    match move_to(manager, id, state, Some(result), now) {
        Err(e) => Err(e),
        Ok(_) => match failure {
            Some(e) => Ok(Err(e)),
            None => Ok(Ok(success)),
        },
    }
}

// ---------------------------------------------------------------------------
// Laws
// ---------------------------------------------------------------------------

/// Nothing follows a terminal state, and every other state has a successor.
pub proof fn law_only_terminal_states_end(s: ExecutionState)
    ensures
        s.terminal() ==> forall|next: ExecutionState| !#[trigger] s.leads_to(next),
        !s.terminal() ==> exists|next: ExecutionState| #[trigger] s.leads_to(next),
{
    assert(ExecutionState::Created.leads_to(ExecutionState::Starting));
    assert(ExecutionState::Starting.leads_to(ExecutionState::Running));
    assert(ExecutionState::Running.leads_to(ExecutionState::Completed));
    assert(ExecutionState::Cancelling.leads_to(ExecutionState::Cancelled));
}

/// A transition that is refused changes nothing.
pub proof fn law_refused_transition_changes_nothing(
    m: ManagerView,
    id: ExecutionId,
    next: ExecutionState,
    result: Option<ResultView>,
    now: u64,
)
    ensures
        transitioned(m, id, next, result, now).0 is Err ==> transitioned(
            m,
            id,
            next,
            result,
            now,
        ).1 == m,
{
}

/// Whether two executions differ in their contexts and times at most; with
/// `timed`, in their contexts.
pub open spec fn alike_execution(e: ExecutionView, f: ExecutionView, timed: bool) -> bool {
    &&& f == (ExecutionView {
        context: f.context,
        created_at: f.created_at,
        started_at: f.started_at,
        finished_at: f.finished_at,
        ..e
    })
    &&& (e.started_at is Some) == (f.started_at is Some)
    &&& (e.finished_at is Some) == (f.finished_at is Some)
    &&& timed ==> e.created_at == f.created_at && e.started_at == f.started_at && e.finished_at
        == f.finished_at
}

/// Whether two records differ in their times at most; with `timed`, in
/// nothing.
pub open spec fn alike_record(r: RecordView, s: RecordView, timed: bool) -> bool {
    &&& s == (RecordView {
        created_at: s.created_at,
        started_at: s.started_at,
        finished_at: s.finished_at,
        ..r
    })
    &&& (r.started_at is Some) == (s.started_at is Some)
    &&& timed ==> r == s
}

/// Whether two registries differ in the contexts of their active executions
/// and in times at most; with `timed`, in those contexts.
pub open spec fn alike(m: ManagerView, n: ManagerView, timed: bool) -> bool {
    &&& m.next_id == n.next_id
    &&& m.limit == n.limit
    &&& m.history.len() == n.history.len()
    &&& forall|i: int|
        0 <= i < m.history.len() ==> #[trigger] alike_record(m.history[i], n.history[i], timed)
    &&& m.active.len() == n.active.len()
    &&& forall|i: int|
        0 <= i < m.active.len() ==> #[trigger] alike_execution(m.active[i], n.active[i], timed)
}

/// A call that changes a registry.
pub enum StepView {
    Create { spec: SpecView, context: ContextView, now: u64 },
    Move { id: ExecutionId, next: ExecutionState, result: Option<ResultView>, now: u64 },
    AddProcess { id: ExecutionId, pid: u32 },
    SetRoot { id: ExecutionId, pid: u32 },
    SetExit { id: ExecutionId, pid: u32, code: Option<i32> },
}

/// What such a call gives back.
pub enum OutcomeView {
    Created(Result<ExecutionId, ExecutionError>),
    Moved(Result<Option<RecordView>, ExecutionError>),
    Nothing,
}

/// The registry after the first process of an execution was set.
pub open spec fn with_root(m: ManagerView, id: ExecutionId, pid: u32) -> ManagerView {
    match m.place(id, 0) {
        Some(i) => ManagerView {
            active: m.active.update(i, ExecutionView { root_pid: Some(pid), ..m.active[i] }),
            ..m
        },
        None => m,
    }
}

/// What a call gives, and the registry after it.
pub open spec fn stepped(m: ManagerView, s: StepView) -> (OutcomeView, ManagerView) {
    match s {
        StepView::Create { spec, context, now } => if m.next_id == u64::MAX {
            (OutcomeView::Created(Err(ExecutionError::IdExhausted)), m)
        } else {
            (
                OutcomeView::Created(Ok(ExecutionId(m.next_id))),
                with_created(m, spec, context, now),
            )
        },
        StepView::Move { id, next, result, now } => {
            let (r, m1) = transitioned(m, id, next, result, now);
            (OutcomeView::Moved(r), m1)
        },
        StepView::AddProcess { id, pid } => (OutcomeView::Nothing, with_new_process(m, id, pid)),
        StepView::SetRoot { id, pid } => (OutcomeView::Nothing, with_root(m, id, pid)),
        StepView::SetExit { id, pid, code } => (
            OutcomeView::Nothing,
            with_process_exit(m, id, pid, code),
        ),
    }
}

/// The registry after a run of calls.
pub open spec fn ran(m: ManagerView, steps: Seq<StepView>) -> ManagerView
    decreases steps.len(),
{
    if steps.len() == 0 {
        m
    } else {
        stepped(ran(m, steps.drop_last()), steps.last()).1
    }
}

/// What the call at `k` of a run gives.
pub open spec fn outcome_at(m: ManagerView, steps: Seq<StepView>, k: int) -> OutcomeView {
    stepped(ran(m, steps.take(k)), steps[k]).0
}

/// Whether two calls differ in the context that they hand over and in their
/// times at most; with `timed`, in that context.
pub open spec fn alike_step(s: StepView, u: StepView, timed: bool) -> bool {
    match (s, u) {
        (
            StepView::Create { spec, context, now },
            StepView::Create { spec: spec2, context: context2, now: now2 },
        ) => spec == spec2 && (timed ==> now == now2),
        (
            StepView::Move { id, next, result, now },
            StepView::Move { id: id2, next: next2, result: result2, now: now2 },
        ) => id == id2 && next == next2 && result == result2 && (timed ==> now == now2),
        _ => s == u,
    }
}

/// Whether what two calls give differs in the times of a record at most; with
/// `timed`, in nothing.
pub open spec fn alike_outcome(a: OutcomeView, b: OutcomeView, timed: bool) -> bool {
    match (a, b) {
        (OutcomeView::Moved(Ok(Some(r))), OutcomeView::Moved(Ok(Some(s)))) => alike_record(
            r,
            s,
            timed,
        ),
        _ => a == b,
    }
}

proof fn lemma_alike_places(m: ManagerView, n: ManagerView, id: ExecutionId, i: int, timed: bool)
    requires
        alike(m, n, timed),
        0 <= i <= m.active.len(),
    ensures
        m.place(id, i) == n.place(id, i),
        match m.place(id, i) {
            Some(k) => i <= k < m.active.len(),
            None => true,
        },
    decreases m.active.len() - i,
{
    if i < m.active.len() {
        assert(alike_execution(m.active[i], n.active[i], timed));
        lemma_alike_places(m, n, id, i + 1, timed);
    }
}

proof fn lemma_alike_update(
    m: ManagerView,
    n: ManagerView,
    k: int,
    e: ExecutionView,
    f: ExecutionView,
    timed: bool,
)
    requires
        alike(m, n, timed),
        0 <= k < m.active.len(),
        alike_execution(e, f, timed),
    ensures
        alike(
            ManagerView { active: m.active.update(k, e), ..m },
            ManagerView { active: n.active.update(k, f), ..n },
            timed,
        ),
{
    let m1 = ManagerView { active: m.active.update(k, e), ..m };
    let n1 = ManagerView { active: n.active.update(k, f), ..n };
    assert forall|i: int| 0 <= i < m1.active.len() implies #[trigger] alike_execution(
        m1.active[i],
        n1.active[i],
        timed,
    ) by {
        assert(alike_execution(m.active[i], n.active[i], timed));
    }
    assert forall|i: int| 0 <= i < m1.history.len() implies #[trigger] alike_record(
        m1.history[i],
        n1.history[i],
        timed,
    ) by {
        assert(alike_record(m.history[i], n.history[i], timed));
    }
}

proof fn lemma_alike_end(
    m: ManagerView,
    n: ManagerView,
    k: int,
    r: RecordView,
    s: RecordView,
    timed: bool,
)
    requires
        alike(m, n, timed),
        0 <= k < m.active.len(),
        alike_record(r, s, timed),
    ensures
        alike(
            ManagerView {
                active: m.active.remove(k),
                history: bounded(m.history.push(r), m.limit),
                ..m
            },
            ManagerView {
                active: n.active.remove(k),
                history: bounded(n.history.push(s), n.limit),
                ..n
            },
            timed,
        ),
        alike(
            ManagerView { active: m.active.remove(k), ..m },
            ManagerView { active: n.active.remove(k), ..n },
            timed,
        ),
{
    let (a, b) = (m.active.remove(k), n.active.remove(k));
    assert forall|i: int| 0 <= i < a.len() implies #[trigger] alike_execution(
        a[i],
        b[i],
        timed,
    ) by {
        assert(alike_execution(m.active[i], n.active[i], timed));
        assert(alike_execution(m.active[i + 1], n.active[i + 1], timed));
    }
    let (h, g) = (m.history.push(r), n.history.push(s));
    assert forall|i: int| 0 <= i < h.len() implies #[trigger] alike_record(h[i], g[i], timed) by {
        if i < m.history.len() {
            assert(alike_record(m.history[i], n.history[i], timed));
        }
    }
    let (x, y) = (bounded(h, m.limit), bounded(g, n.limit));
    assert forall|i: int| 0 <= i < x.len() implies #[trigger] alike_record(x[i], y[i], timed) by {
        if h.len() > m.limit {
            let from = h.len() - m.limit;
            assert(alike_record(h[i + from], g[i + from], timed));
        } else {
            assert(alike_record(h[i], g[i], timed));
        }
    }
    assert forall|i: int| 0 <= i < m.history.len() implies #[trigger] alike_record(
        m.history[i],
        n.history[i],
        timed,
    ) by {
        assert(alike_record(m.history[i], n.history[i], timed));
    }
}

/// One call leaves registries alike and gives the same of both: nothing of a
/// context, secrets among it, reaches a record or any other result.
#[verifier::spinoff_prover]
#[verifier::rlimit(30)]
pub proof fn law_call_tells_nothing_of_the_context(
    m: ManagerView,
    n: ManagerView,
    s: StepView,
    u: StepView,
    timed: bool,
)
    requires
        alike(m, n, timed),
        alike_step(s, u, timed),
    ensures
        alike_outcome(stepped(m, s).0, stepped(n, u).0, timed),
        alike(stepped(m, s).1, stepped(n, u).1, timed),
{
    match s {
        StepView::Create { spec, context, now } => {
            let m1 = stepped(m, s).1;
            let n1 = stepped(n, u).1;
            assert forall|i: int| 0 <= i < m1.active.len() implies #[trigger] alike_execution(
                m1.active[i],
                n1.active[i],
                timed,
            ) by {
                if i < m.active.len() {
                    assert(alike_execution(m.active[i], n.active[i], timed));
                }
            }
            assert forall|i: int| 0 <= i < m1.history.len() implies #[trigger] alike_record(
                m1.history[i],
                n1.history[i],
                timed,
            ) by {
                assert(alike_record(m.history[i], n.history[i], timed));
            }
        },
        StepView::Move { id, next, result, now } => {
            lemma_alike_places(m, n, id, 0, timed);
            if let Some(k) = m.place(id, 0) {
                let now2 = u->Move_now;
                let (e, f) = (m.active[k], n.active[k]);
                assert(alike_execution(e, f, timed));
                let started = |x: ExecutionView, at: u64|
                    ExecutionView {
                        state: next,
                        started_at: if next == ExecutionState::Running {
                            Some(at)
                        } else {
                            x.started_at
                        },
                        ..x
                    };
                lemma_alike_update(m, n, k, started(e, now), started(f, now2), timed);
                let r = record_of(ExecutionView { state: next, result, ..e }, now);
                let q = record_of(ExecutionView { state: next, result, ..f }, now2);
                assert(alike_record(r, q, timed));
                lemma_alike_end(m, n, k, r, q, timed);
            }
        },
        StepView::AddProcess { id, pid } => {
            lemma_alike_places(m, n, id, 0, timed);
            if let Some(k) = m.place(id, 0) {
                let (e, f) = (m.active[k], n.active[k]);
                assert(alike_execution(e, f, timed));
                lemma_alike_update(m, n, k, with_process(e, pid), with_process(f, pid), timed);
            }
        },
        StepView::SetRoot { id, pid } => {
            lemma_alike_places(m, n, id, 0, timed);
            if let Some(k) = m.place(id, 0) {
                let (e, f) = (m.active[k], n.active[k]);
                assert(alike_execution(e, f, timed));
                lemma_alike_update(
                    m,
                    n,
                    k,
                    ExecutionView { root_pid: Some(pid), ..e },
                    ExecutionView { root_pid: Some(pid), ..f },
                    timed,
                );
            }
        },
        StepView::SetExit { id, pid, code } => {
            lemma_alike_places(m, n, id, 0, timed);
            if let Some(k) = m.place(id, 0) {
                let (e, f) = (m.active[k], n.active[k]);
                assert(alike_execution(e, f, timed));
                lemma_alike_update(
                    m,
                    n,
                    k,
                    ExecutionView { processes: with_exit(e.processes, pid, code), ..e },
                    ExecutionView { processes: with_exit(f.processes, pid, code), ..f },
                    timed,
                );
            }
        },
    }
}

/// Registries that receive the same calls, but for contexts and times, stay
/// alike, and every call gives the same of both: no context reaches a record.
/// Where the times are the same too, the records are equal.
pub proof fn law_records_tell_nothing_of_contexts(
    m: ManagerView,
    n: ManagerView,
    steps: Seq<StepView>,
    others: Seq<StepView>,
    timed: bool,
)
    requires
        alike(m, n, timed),
        steps.len() == others.len(),
        forall|k: int| 0 <= k < steps.len() ==> #[trigger] alike_step(steps[k], others[k], timed),
    ensures
        alike(ran(m, steps), ran(n, others), timed),
        forall|k: int|
            0 <= k < steps.len() ==> alike_outcome(
                #[trigger] outcome_at(m, steps, k),
                outcome_at(n, others, k),
                timed,
            ),
    decreases steps.len(),
{
    if steps.len() > 0 {
        let (a, b) = (steps.drop_last(), others.drop_last());
        assert forall|k: int| 0 <= k < a.len() implies #[trigger] alike_step(
            a[k],
            b[k],
            timed,
        ) by {
            assert(alike_step(steps[k], others[k], timed));
        }
        law_records_tell_nothing_of_contexts(m, n, a, b, timed);
        let last = steps.len() - 1;
        assert(alike_step(steps[last], others[last], timed));
        law_call_tells_nothing_of_the_context(
            ran(m, a),
            ran(n, b),
            steps.last(),
            others.last(),
            timed,
        );
        assert forall|k: int| 0 <= k < steps.len() implies alike_outcome(
            #[trigger] outcome_at(m, steps, k),
            outcome_at(n, others, k),
            timed,
        ) by {
            if k < last {
                assert(a.take(k) =~= steps.take(k));
                assert(b.take(k) =~= others.take(k));
                assert(outcome_at(m, a, k) == outcome_at(m, steps, k));
                assert(outcome_at(n, b, k) == outcome_at(n, others, k));
            } else {
                assert(steps.take(k) =~= a);
                assert(others.take(k) =~= b);
            }
        }
    }
}

/// How many of the calls register an execution.
pub open spec fn creations(steps: Seq<StepView>) -> nat
    decreases steps.len(),
{
    if steps.len() == 0 {
        0
    } else {
        creations(steps.drop_last()) + if steps.last() is Create {
            1nat
        } else {
            0
        }
    }
}

proof fn lemma_step_is_valid(m: ManagerView, s: StepView)
    requires
        m.valid(),
    ensures
        stepped(m, s).1.valid(),
        s is Create && m.next_id < u64::MAX ==> stepped(m, s).1.next_id == m.next_id + 1,
        !(s is Create) ==> stepped(m, s).1.next_id == m.next_id,
{
    match s {
        StepView::Create { .. } => {},
        StepView::Move { id, next, result, now } => {
            lemma_place(m, id, 0);
        },
        StepView::AddProcess { id, pid } => {
            lemma_place(m, id, 0);
        },
        StepView::SetRoot { id, pid } => {
            lemma_place(m, id, 0);
        },
        StepView::SetExit { id, pid, code } => {
            lemma_place(m, id, 0);
        },
    }
}

/// A run of calls keeps a registry valid, and the next number counts the
/// executions that were registered.
pub proof fn law_numbers_count_executions(limit: nat, steps: Seq<StepView>)
    requires
        creations(steps) < u64::MAX,
    ensures
        ran(fresh(limit), steps).valid(),
        ran(fresh(limit), steps).next_id == creations(steps) + 1,
    decreases steps.len(),
{
    if steps.len() > 0 {
        law_numbers_count_executions(limit, steps.drop_last());
        lemma_step_is_valid(ran(fresh(limit), steps.drop_last()), steps.last());
    }
}

/// Behind `n` executions that were registered, whatever became of them, the
/// next one gets the number `n + 1`: no number is given twice. It stands there
/// as it was created, and nothing else has changed.
pub proof fn law_next_number_is_new(
    limit: nat,
    steps: Seq<StepView>,
    spec: SpecView,
    context: ContextView,
    now: u64,
)
    requires
        creations(steps) < u64::MAX - 1,
    ensures
        ({
            let m = ran(fresh(limit), steps);
            let id = ExecutionId((creations(steps) + 1) as u64);
            let (r, m1) = stepped(m, StepView::Create { spec, context, now });
            &&& r == OutcomeView::Created(Ok(id))
            &&& m.find(id) is None
            &&& m1.find(id) == Some(created(id, spec, context, now))
            &&& forall|other: ExecutionId|
                other != id ==> #[trigger] m1.find(other) == m.find(other)
            &&& m1.history == m.history
        }),
{
    let m = ran(fresh(limit), steps);
    law_numbers_count_executions(limit, steps);
    let id = ExecutionId((creations(steps) + 1) as u64);
    let m1 = stepped(m, StepView::Create { spec, context, now }).1;
    lemma_place(m, id, 0);
    lemma_place(m1, id, 0);
    assert(m1.active.last().id == id);
    assert(m1.active.drop_last() =~= m.active);
    assert forall|other: ExecutionId| other != id implies #[trigger] m1.find(other) == m.find(
        other,
    ) by {
        lemma_place(m, other, 0);
        lemma_place(m1, other, 0);
        lemma_place_of_front(m, m1, other, 0);
    }
    if let Some(k) = m1.place(id, 0) {
        if k < m.active.len() {
            assert(m1.active[k] == m.active[k]);
        }
    }
}

proof fn lemma_place_of_front(m: ManagerView, m1: ManagerView, id: ExecutionId, i: int)
    requires
        0 <= i <= m.active.len(),
        m1.active.len() == m.active.len() + 1,
        m1.active.drop_last() == m.active,
        m1.active.last().id != id,
    ensures
        m1.place(id, i) == m.place(id, i),
    decreases m.active.len() - i,
{
    if i < m.active.len() {
        assert(m1.active.drop_last()[i] == m1.active[i]);
        lemma_place_of_front(m, m1, id, i + 1);
    } else {
        reveal_with_fuel(ManagerView::place, 2);
    }
}

/// The history never holds more than its limit, and a limit of zero keeps
/// nothing.
pub proof fn law_history_is_bounded(history: Seq<RecordView>, limit: nat)
    ensures
        bounded(history, limit).len() <= limit,
        history.len() > 0 && limit > 0 ==> bounded(history, limit).len() > 0 && bounded(
            history,
            limit,
        ).last() == history.last(),
{
}

/// The whole way of a program that succeeds: registered, launched and waited
/// for, it leaves the active ones and the registry is otherwise as it was,
/// with one more record when records are kept.
pub proof fn law_successful_lifecycle(
    m: ManagerView,
    spec: SpecView,
    context: ContextView,
    pid: u32,
    code: Option<i32>,
    now: u64,
)
    requires
        m.valid(),
        m.next_id < u64::MAX,
    ensures
        ({
            let id = ExecutionId(m.next_id);
            let m1 = begun(m, spec, context, false, now);
            let (r2, m2) = moved(
                with_new_process(m1, id, pid),
                id,
                ExecutionState::Running,
                None,
                now,
            );
            let w = WaitView::Exited { success: true, code };
            let (r3, m3) = moved(
                with_process_exit(m2, id, pid, code),
                id,
                external_end(w).0,
                Some(external_end(w).1),
                now,
            );
            &&& r2 is Ok
            &&& r3 is Ok
            &&& m3.active == m.active
            &&& m3.find(id) is None
            &&& m.limit > 0 ==> m3.history.len() > 0 && m3.history.last().state
                == ExecutionState::Completed && m3.history.last().processes == seq![
                ProcessRecord { pid, exit_code: code },
            ]
        }),
{
    let id = ExecutionId(m.next_id);
    let first = created(id, spec, context, now);
    let m0 = ManagerView {
        next_id: (m.next_id + 1) as u64,
        active: m.active.push(first),
        ..m
    };
    assert(m0.valid());
    lemma_last_is_found(m0, 0);
    let m1 = begun(m, spec, context, false, now);
    let n = m.active.len() as int;
    let started = ExecutionView { state: ExecutionState::Starting, ..first };
    assert(m1.active =~= m.active.push(started));
    assert(m1.valid());
    lemma_last_is_found(m1, 0);
    let p1 = with_new_process(m1, id, pid);
    assert(p1.active =~= m.active.push(with_process(started, pid)));
    assert(p1.valid());
    lemma_last_is_found(p1, 0);
    let m2 = moved(p1, id, ExecutionState::Running, None, now).1;
    let running = ExecutionView {
        state: ExecutionState::Running,
        started_at: Some(now),
        ..with_process(started, pid)
    };
    assert(m2.active =~= m.active.push(running));
    assert(m2.valid());
    lemma_last_is_found(m2, 0);
    let procs = seq![ProcessRecord { pid, exit_code: None }];
    assert(running.processes =~= procs);
    assert(process_place(running.processes, pid, 0) == Some(0int));
    let p2 = with_process_exit(m2, id, pid, code);
    let done = ExecutionView { processes: with_exit(running.processes, pid, code), ..running };
    assert(p2.active =~= m.active.push(done));
    assert(done.processes =~= seq![ProcessRecord { pid, exit_code: code }]);
    assert(p2.valid());
    lemma_last_is_found(p2, 0);
    let w = WaitView::Exited { success: true, code };
    let m3 = moved(p2, id, external_end(w).0, Some(external_end(w).1), now).1;
    assert(m3.active =~= m.active);
    lemma_place(m3, id, 0);
    if m3.place(id, 0) is Some {
        let k = m3.place(id, 0)->0;
        assert(m.active[k].id.0 < m.next_id);
    }
}

/// The ways that an execution can go: it is created, starts, runs, and then
/// completes, fails or is cancelled; only one that starts or runs can fail,
/// and only one that runs can be cancelled.
pub proof fn law_states_follow_each_other(a: ExecutionState, b: ExecutionState)
    ensures
        a.leads_to(b) <==> ((a is Created && b is Starting) || (a is Starting && (b is Running || b
            is Failed)) || (a is Running && (b is Completed || b is Failed || b is Cancelling)) || (a
            is Cancelling && b is Cancelled)),
        a.terminal() <==> a is Completed || a is Failed || a is Cancelled,
{
}

proof fn lemma_found_where(m: ManagerView, id: ExecutionId, k: int)
    requires
        0 <= k < m.active.len(),
        m.active[k].id == id,
        forall|j: int| 0 <= j < m.active.len() && j != k ==> (#[trigger] m.active[j]).id != id,
    ensures
        m.place(id, 0) == Some(k),
{
    lemma_place(m, id, 0);
}

/// A transition that does not end an execution changes its state, and when it
/// starts to run its time, and nothing else of it; no other execution and no
/// record changes.
pub proof fn law_transition_changes_its_own(
    m: ManagerView,
    id: ExecutionId,
    next: ExecutionState,
    other: ExecutionId,
    now: u64,
)
    requires
        m.valid(),
        m.find(id) is Some,
        m.find(id)->0.state.leads_to(next),
        !next.terminal(),
        other != id,
    ensures
        ({
            let (r, m2) = transitioned(m, id, next, None, now);
            let e = m.find(id)->0;
            &&& r == Ok::<Option<RecordView>, ExecutionError>(None)
            &&& m2.find(id) == Some(
                ExecutionView {
                    state: next,
                    started_at: if next is Running {
                        Some(now)
                    } else {
                        e.started_at
                    },
                    ..e
                },
            )
            &&& m2.find(other) == m.find(other)
            &&& m2.history == m.history
            &&& m2.next_id == m.next_id
        }),
{
    lemma_place(m, id, 0);
    lemma_place(m, other, 0);
    let i = m.place(id, 0)->0;
    let (r, m2) = transitioned(m, id, next, None, now);
    assert forall|j: int| 0 <= j < m2.active.len() && j != i implies (#[trigger] m2.active[j]).id
        != id by {
        assert(m2.active[j] == m.active[j]);
        if j < i {
            assert(m.active[j].id.0 < m.active[i].id.0);
        } else {
            assert(m.active[i].id.0 < m.active[j].id.0);
        }
    }
    lemma_found_where(m2, id, i);
    lemma_place(m2, other, 0);
    lemma_same_place(m, m2, other, 0);
}

proof fn lemma_same_place(m: ManagerView, n: ManagerView, id: ExecutionId, i: int)
    requires
        0 <= i,
        m.active.len() == n.active.len(),
        forall|j: int|
            0 <= j < m.active.len() ==> (#[trigger] m.active[j]).id == n.active[j].id,
    ensures
        m.place(id, i) == n.place(id, i),
    decreases m.active.len() - i,
{
    if i < m.active.len() {
        assert(m.active[i].id == n.active[i].id);
        lemma_same_place(m, n, id, i + 1);
    }
}

/// An execution that ends is active no more, and its record, the last of the
/// history, tells how and when it ended, what it was and which processes it
/// had.
pub proof fn law_ended_executions_are_recorded(
    m: ManagerView,
    id: ExecutionId,
    next: ExecutionState,
    result: ResultView,
    now: u64,
)
    requires
        m.valid(),
        m.find(id) is Some,
        m.find(id)->0.state.leads_to(next),
        next.terminal(),
        m.limit > 0,
    ensures
        ({
            let (r, m2) = transitioned(m, id, next, Some(result), now);
            let e = m.find(id)->0;
            let last = m2.history.last();
            &&& r == Ok::<Option<RecordView>, ExecutionError>(Some(last))
            &&& m2.find(id) is None
            &&& m2.active.len() == m.active.len() - 1
            &&& last.id == id
            &&& last.state == next
            &&& last.result == Some(result)
            &&& last.finished_at == now
            &&& last.created_at == e.created_at
            &&& last.started_at == e.started_at
            &&& last.processes == e.processes
            &&& last.root_pid == e.root_pid
        }),
{
    lemma_place(m, id, 0);
    let i = m.place(id, 0)->0;
    let (r, m2) = transitioned(m, id, next, Some(result), now);
    lemma_place(m2, id, 0);
    assert forall|j: int| 0 <= j < m2.active.len() implies (#[trigger] m2.active[j]).id != id by {
        if j < i {
            assert(m2.active[j] == m.active[j]);
            assert(m.active[j].id.0 < m.active[i].id.0);
        } else {
            assert(m2.active[j] == m.active[j + 1]);
            assert(m.active[i].id.0 < m.active[j + 1].id.0);
        }
    }
}

/// A transition needs its execution, a way to its state, and a result exactly
/// where it ends the execution; each fault is told.
pub proof fn law_transitions_are_refused_with_reason(
    m: ManagerView,
    id: ExecutionId,
    next: ExecutionState,
    result: Option<ResultView>,
    now: u64,
)
    ensures
        ({
            let r = transitioned(m, id, next, result, now).0;
            &&& m.find(id) is None ==> r == Err::<Option<RecordView>, ExecutionError>(
                ExecutionError::NotFound(id),
            )
            &&& m.find(id) matches Some(e) ==> {
                &&& !e.state.leads_to(next) ==> r == Err::<Option<RecordView>, ExecutionError>(
                    ExecutionError::InvalidTransition { from: e.state, to: next },
                )
                &&& e.state.leads_to(next) ==> ((r is Ok) == ((result is Some)
                    == next.terminal()))
            }
        }),
{
}

/// The first process of an execution is its root, and every process that is
/// added stands behind the others, still without an exit code.
pub proof fn law_first_process_is_the_root(e: ExecutionView, pid: u32)
    ensures
        with_process(e, pid).processes == e.processes.push(ProcessRecord { pid, exit_code: None }),
        e.root_pid is None ==> with_process(e, pid).root_pid == Some(pid),
        e.root_pid is Some ==> with_process(e, pid).root_pid == e.root_pid,
        with_process(e, pid).state == e.state,
{
}

/// A process that ends gets its exit code, and no other does.
pub proof fn law_exit_codes_are_kept_apart(
    list: Seq<ProcessRecord>,
    k: int,
    code: Option<i32>,
)
    requires
        0 <= k < list.len(),
        forall|j: int| 0 <= j < k ==> (#[trigger] list[j]).pid != list[k].pid,
    ensures
        ({
            let after = with_exit(list, list[k].pid, code);
            &&& after.len() == list.len()
            &&& after[k].exit_code == code
            &&& after[k].pid == list[k].pid
            &&& forall|j: int| 0 <= j < list.len() && j != k ==> #[trigger] after[j] == list[j]
        }),
{
    lemma_process_place(list, list[k].pid, 0, k);
}

proof fn lemma_process_place(list: Seq<ProcessRecord>, pid: u32, i: int, k: int)
    requires
        0 <= i <= k < list.len(),
        list[k].pid == pid,
        forall|j: int| 0 <= j < k ==> (#[trigger] list[j]).pid != pid,
    ensures
        process_place(list, pid, i) == Some(k),
    decreases k - i,
{
    if i < k {
        assert(list[i].pid != pid);
        lemma_process_place(list, pid, i + 1, k);
    }
}

/// A program completes exactly where it exits well, and its exit code is kept
/// either way; one that cannot be waited for fails without a code.
pub proof fn law_exits_decide(w: WaitView)
    ensures
        w matches WaitView::Exited { success, code } ==> (external_end(w).0 is Completed <==> success)
            && (external_end(w).0 is Failed <==> !success) && external_end(w).1.exit_code == code,
        w is Failed ==> external_end(w).0 is Failed && external_end(w).1.exit_code is None
            && external_end(w).1.message is Some,
{
}

/// A pipeline ends as its last program does.
pub proof fn law_last_program_decides(waits: Seq<(u32, WaitView)>, pid: u32, w: WaitView)
    ensures
        ({
            let (state, result) = pipeline_result(waits.push((pid, w)));
            &&& w matches WaitView::Exited { success, code } ==> (state is Completed <==> success)
                && (state is Failed <==> !success) && result.exit_code == code && result.message
                is None
            &&& w is Failed ==> state is Failed && result.message is Some
        }),
{
    let all = waits.push((pid, w));
    assert(all[waits.len() as int] == (pid, w));
}

/// What a program exits with is recorded behind what the programs before it
/// did; waiting for one in vain records nothing.
pub proof fn law_waits_are_recorded_one_by_one(
    m: ManagerView,
    id: ExecutionId,
    waits: Seq<(u32, WaitView)>,
    pid: u32,
    w: WaitView,
)
    ensures
        ({
            let n = waits.len() as int;
            let before = waits_recorded(m, id, waits, n);
            let after = waits_recorded(m, id, waits.push((pid, w)), n + 1);
            &&& w is Failed ==> after == before
            &&& w matches WaitView::Exited { success, code } ==> after == with_process_exit(
                before,
                id,
                pid,
                code,
            )
            &&& waits_recorded(m, id, Seq::empty(), 0) == m
        }),
{
    lemma_waits_before(m, id, waits, (pid, w), waits.len() as int);
    assert(waits.push((pid, w))[waits.len() as int] == (pid, w));
}

proof fn lemma_waits_before(
    m: ManagerView,
    id: ExecutionId,
    waits: Seq<(u32, WaitView)>,
    more: (u32, WaitView),
    n: int,
)
    requires
        n <= waits.len(),
    ensures
        waits_recorded(m, id, waits.push(more), n) == waits_recorded(m, id, waits, n),
    decreases n,
{
    if n > 0 {
        lemma_waits_before(m, id, waits, more, n - 1);
        assert(waits.push(more)[n - 1] == waits[n - 1]);
    }
}

} // verus!
