//! Running a pipeline.
//!
//! Each stage is told apart by its command: the builtins that can stand in a
//! pipeline hand text, tables or sets of files on to the next stage; every
//! other command is a program, which is launched with its streams connected
//! as the pipes and redirections say. A stage that cannot be run ends the
//! pipeline with a message.

use crate::command_resolver;
use crate::compress;
use crate::copy;
use crate::delete;
use crate::dialog;
use crate::dialog::{
    Answer, AnswerView, Feed, FeedView, Request, RequestView, Sink, StageCall, StageCallView, Talk,
    TalkView,
};
use crate::fileset;
use crate::fileset::{copy_opt, FileSet, FileSetView};
use crate::fs_builtins;
use crate::fs_builtins::{capture, capture_fileset, find_in_fileset};
use crate::fs_ops;
use crate::interp;
use crate::interp::{InterpView, Interpreter};
use crate::methods;
use crate::pipeline;
use crate::pipeline::{
    PipeKind, Pipeline, PipelineView, Redirect, RedirectView, StageView, Stream,
};
use crate::table;
use crate::table::Table;
use crate::text;
use crate::text::{
    cat2, cat3, cat4, cat5, copy_texts, join_texts, same, split_texts, tail_texts, trim_text,
    u64_text,
};
use crate::token;
use vstd::prelude::*;

verus! {

// ---------------------------------------------------------------------------
// Kinds of stages
// ---------------------------------------------------------------------------

/// What a stage does.
#[derive(Debug, Clone, PartialEq, Eq)]
pub enum Kind {
    /// Its words, and whether the newline behind them is left out.
    Echo(Vec<String>, bool),
    Cat(Vec<String>),
    Find(Vec<String>),
    ListEntries(String, Vec<String>),
    Copy(Vec<String>),
    Move(Vec<String>),
    Compress(Vec<String>),
    Delete(Vec<String>),
    External(Vec<String>),
    FromJson,
    ToJson,
    FromCsv,
    ToCsv,
    Select(Vec<String>),
    Where(Vec<String>),
    DateColumn(Vec<String>),
    Stat(Vec<String>),
    TableSource(Table),
    FileSetSource(FileSet),
    /// A command that cannot stand in a pipeline; empty when there is none.
    Unsupported(String),
}

/// What a stage does.
pub enum KindView {
    Echo(Seq<Seq<char>>, bool),
    Cat(Seq<Seq<char>>),
    Find(Seq<Seq<char>>),
    ListEntries(Seq<char>, Seq<Seq<char>>),
    Copy(Seq<Seq<char>>),
    Move(Seq<Seq<char>>),
    Compress(Seq<Seq<char>>),
    Delete(Seq<Seq<char>>),
    External(Seq<Seq<char>>),
    FromJson,
    ToJson,
    FromCsv,
    ToCsv,
    Select(Seq<Seq<char>>),
    Where(Seq<Seq<char>>),
    DateColumn(Seq<Seq<char>>),
    Stat(Seq<Seq<char>>),
    TableSource(Seq<table::RowView>),
    FileSetSource(FileSetView),
    Unsupported(Seq<char>),
}

impl View for Kind {
    type V = KindView;

    open spec fn view(&self) -> KindView {
        match self {
            Kind::Echo(w, b) => KindView::Echo(text::texts(w@), *b),
            Kind::Cat(w) => KindView::Cat(text::texts(w@)),
            Kind::Find(w) => KindView::Find(text::texts(w@)),
            Kind::ListEntries(n, w) => KindView::ListEntries(n@, text::texts(w@)),
            Kind::Copy(w) => KindView::Copy(text::texts(w@)),
            Kind::Move(w) => KindView::Move(text::texts(w@)),
            Kind::Compress(w) => KindView::Compress(text::texts(w@)),
            Kind::Delete(w) => KindView::Delete(text::texts(w@)),
            Kind::External(w) => KindView::External(text::texts(w@)),
            Kind::FromJson => KindView::FromJson,
            Kind::ToJson => KindView::ToJson,
            Kind::FromCsv => KindView::FromCsv,
            Kind::ToCsv => KindView::ToCsv,
            Kind::Select(w) => KindView::Select(text::texts(w@)),
            Kind::Where(w) => KindView::Where(text::texts(w@)),
            Kind::DateColumn(w) => KindView::DateColumn(text::texts(w@)),
            Kind::Stat(w) => KindView::Stat(text::texts(w@)),
            Kind::TableSource(t) => KindView::TableSource(t@),
            Kind::FileSetSource(s) => KindView::FileSetSource(s@),
            Kind::Unsupported(n) => KindView::Unsupported(n@),
        }
    }
}

/// What the stages of a list do.
pub open spec fn kind_views(list: Seq<Kind>) -> Seq<KindView> {
    Seq::new(list.len(), |i: int| list[i]@)
}

/// The builtins that cannot stand in a pipeline.
pub open spec fn stays_outside(cmd: Seq<char>) -> bool {
    cmd == "pvar"@ || cmd == "dmark"@ || cmd == "test"@ || cmd == "matches"@ || cmd == "let"@ || cmd
        == "drop"@ || cmd == "fn"@ || cmd == "read"@ || cmd == "source"@ || cmd == "exit"@ || cmd
        == "quit"@ || cmd == "help"@ || cmd == "end"@
}

fn is_outside(cmd: &str) -> (r: bool)
    ensures
        r == stays_outside(cmd@),
{
    same(cmd, "pvar") || same(cmd, "dmark") || same(cmd, "test") || same(cmd, "matches") || same(
        cmd,
        "let",
    ) || same(cmd, "drop") || same(cmd, "fn") || same(cmd, "read") || same(cmd, "source") || same(
        cmd,
        "exit",
    ) || same(cmd, "quit") || same(cmd, "help") || same(cmd, "end")
}

/// The words of `echo`, and whether its newline is left out.
pub open spec fn echo_words(args: Seq<Seq<char>>) -> (Seq<Seq<char>>, bool) {
    if args.len() > 0 && args[0] == "-n"@ {
        (args.skip(1), true)
    } else {
        (args, false)
    }
}

/// Splits `-n` from the words of `echo`.
pub fn split_echo_no_newline_flag(args: &[String]) -> (r: (Vec<String>, bool))
    ensures
        (text::texts(r.0@), r.1) == echo_words(text::texts(args@)),
{
    assert(args@.len() > 0 ==> text::texts(args@)[0] == args@[0]@);
    if args.len() > 0 && same(args[0].as_str(), "-n") {
        (tail_texts(args, 1), true)
    } else {
        (copy_texts(args), false)
    }
}

/// What the words of a stage make of it.
pub open spec fn kind_of(st: InterpView, args: Seq<Seq<char>>, t: TalkView) -> (KindView, TalkView) {
    if args.len() == 0 {
        (KindView::Unsupported(Seq::empty()), t)
    } else {
        let cmd = args[0];
        let rest = args.skip(1);
        if cmd == "echo"@ {
            let (words, bare) = echo_words(rest);
            (KindView::Echo(words, bare), t)
        } else if cmd == "cat"@ {
            (KindView::Cat(rest), t)
        } else if cmd == "find"@ {
            (KindView::Find(rest), t)
        } else if cmd == "files"@ || cmd == "folders"@ || cmd == "dirs"@ {
            (KindView::ListEntries(cmd, rest), t)
        } else if cmd == "copy"@ || cmd == "cp"@ {
            (KindView::Copy(rest), t)
        } else if cmd == "move"@ || cmd == "mv"@ {
            (KindView::Move(rest), t)
        } else if cmd == "compress"@ {
            (KindView::Compress(rest), t)
        } else if cmd == "delete"@ {
            (KindView::Delete(rest), t)
        } else if cmd == "from-json"@ {
            (KindView::FromJson, t)
        } else if cmd == "to-json"@ {
            (KindView::ToJson, t)
        } else if cmd == "from-csv"@ {
            (KindView::FromCsv, t)
        } else if cmd == "to-csv"@ {
            (KindView::ToCsv, t)
        } else if cmd == "select"@ {
            (KindView::Select(rest), t)
        } else if cmd == "where"@ || cmd == "filter"@ {
            (KindView::Where(rest), t)
        } else if cmd == "date-column"@ {
            (KindView::DateColumn(rest), t)
        } else if cmd == "stat"@ {
            (KindView::Stat(rest), t)
        } else {
            let (a, t1) = dialog::asked(t, RequestView::Stage(StageCallView::Variable(cmd)));
            (
                match a {
                    AnswerView::Files(set) => KindView::FileSetSource(set),
                    AnswerView::Rows(rows) => KindView::TableSource(rows),
                    _ => if st.functions.contains_key(cmd) || stays_outside(cmd) {
                        KindView::Unsupported(cmd)
                    } else {
                        KindView::External(args)
                    },
                },
                t1,
            )
        }
    }
}

fn classify(interp: &Interpreter, args: Vec<String>, talk: &mut Talk) -> (r: Kind)
    ensures
        (r@, final(talk)@) == kind_of(interp@, text::texts(args@), old(talk)@),
{
    let ghost all = text::texts(args@);
    if args.len() == 0 {
        let none = String::new();
        assert(none@ =~= Seq::<char>::empty());
        return Kind::Unsupported(none);
    }
    assert(all[0] == args@[0]@);
    let cmd = args[0].as_str();
    let rest = tail_texts(&args, 1);
    if same(cmd, "echo") {
        let (words, bare) = split_echo_no_newline_flag(&rest);
        Kind::Echo(words, bare)
    } else if same(cmd, "cat") {
        Kind::Cat(rest)
    } else if same(cmd, "find") {
        Kind::Find(rest)
    } else if same(cmd, "files") || same(cmd, "folders") || same(cmd, "dirs") {
        Kind::ListEntries(cmd.to_owned(), rest)
    } else if same(cmd, "copy") || same(cmd, "cp") {
        Kind::Copy(rest)
    } else if same(cmd, "move") || same(cmd, "mv") {
        Kind::Move(rest)
    } else if same(cmd, "compress") {
        Kind::Compress(rest)
    } else if same(cmd, "delete") {
        Kind::Delete(rest)
    } else if same(cmd, "from-json") {
        Kind::FromJson
    } else if same(cmd, "to-json") {
        Kind::ToJson
    } else if same(cmd, "from-csv") {
        Kind::FromCsv
    } else if same(cmd, "to-csv") {
        Kind::ToCsv
    } else if same(cmd, "select") {
        Kind::Select(rest)
    } else if same(cmd, "where") || same(cmd, "filter") {
        Kind::Where(rest)
    } else if same(cmd, "date-column") {
        Kind::DateColumn(rest)
    } else if same(cmd, "stat") {
        Kind::Stat(rest)
    } else {
        match talk.ask(Request::Stage(StageCall::Variable(cmd.to_owned()))) {
            Answer::Files(set) => Kind::FileSetSource(set),
            Answer::Rows(rows) => Kind::TableSource(rows),
            _ => if interp.get_function(cmd).is_some() || is_outside(cmd) {
                Kind::Unsupported(cmd.to_owned())
            } else {
                Kind::External(args)
            },
        }
    }
}

/// What the first `n` stages do, once their words are expanded.
pub open spec fn kinds_of(st: InterpView, stages: Seq<StageView>, n: int, t: TalkView) -> (
    Seq<KindView>,
    TalkView,
)
    decreases n,
{
    if n <= 0 {
        (Seq::empty(), t)
    } else {
        let (before, t1) = kinds_of(st, stages, n - 1, t);
        let toks = stages[n - 1].tokens;
        if toks.len() == 0 {
            (before.push(KindView::Unsupported(Seq::empty())), t1)
        } else {
            let (args, t2) = interp::all_expanded(st.vars(), toks, toks.len(), t1);
            let (k, t3) = kind_of(st, args, t2);
            (before.push(k), t3)
        }
    }
}

/// Tells what the stages of a pipeline do.
pub fn classify_stages(line: &Pipeline, interp: &Interpreter, talk: &mut Talk) -> (r: Vec<Kind>)
    ensures
        (kind_views(r@), final(talk)@) == kinds_of(
            interp@,
            line@.stages,
            line@.stages.len() as int,
            old(talk)@,
        ),
        r@.len() == line.stages@.len(),
{
    let ghost all = line@.stages;
    let ghost start = talk@;
    let mut out: Vec<Kind> = Vec::new();
    assert(kind_views(out@) =~= Seq::<KindView>::empty());
    let mut i: usize = 0;
    while i < line.stages.len()
        invariant
            i <= line.stages@.len(),
            out@.len() == i,
            all == line@.stages,
            (kind_views(out@), talk@) == kinds_of(interp@, all, i as int, start),
        decreases line.stages@.len() - i,
    {
        let stage = &line.stages[i];
        assert(all[i as int] == stage@);
        assert(stage@.tokens.len() == stage.tokens@.len());
        let k = if stage.tokens.len() == 0 {
            let none = String::new();
            assert(none@ =~= Seq::<char>::empty());
            Kind::Unsupported(none)
        } else {
            let args = interp.expand_all(&stage.tokens, talk);
            classify(interp, args, talk)
        };
        let ghost before = out@;
        out.push(k);
        assert(kind_views(out@) =~= kind_views(before).push(k@));
        i = i + 1;
    }
    out
}

/// Whether a stage reads its input itself rather than handing it to a
/// program.
pub open spec fn reads_input(k: KindView) -> bool {
    k is FromJson || k is Select || k is ToJson || k is Where || k is DateColumn || k is Stat || k
        is FromCsv
}

/// Whether the stage at `i`, where there is one, reads its input itself.
pub open spec fn needs_input(kinds: Seq<KindView>, i: int) -> bool {
    0 <= i < kinds.len() && reads_input(kinds[i])
}

/// Tells whether the stage that follows reads its input itself.
pub fn next_stage_needs_materialized_input(kinds: &[Kind], i: usize) -> (r: bool)
    ensures
        r == needs_input(kind_views(kinds@), i as int),
{
    if i >= kinds.len() {
        return false;
    }
    assert(kind_views(kinds@)[i as int] == kinds@[i as int]@);
    match &kinds[i] {
        Kind::FromJson => true,
        Kind::Select(_) => true,
        Kind::ToJson => true,
        Kind::Where(_) => true,
        Kind::DateColumn(_) => true,
        Kind::Stat(_) => true,
        Kind::FromCsv => true,
        _ => false,
    }
}

/// What stands between stage `i` and the one before.
pub open spec fn separator(pipes: Seq<PipeKind>, i: int) -> Seq<char> {
    if 0 < i <= pipes.len() {
        match pipes[i - 1] {
            PipeKind::Stdout => " | "@,
            PipeKind::Stderr => " ^| "@,
            PipeKind::Combined => " &| "@,
        }
    } else {
        " | "@
    }
}

/// The texts of a stage's tokens.
pub open spec fn token_texts(toks: Seq<token::TokenView>) -> Seq<Seq<char>> {
    Seq::new(toks.len(), |i: int| toks[i].text)
}

/// The first `n` stages as one line.
pub open spec fn shown(line: PipelineView, n: int) -> Seq<char>
    decreases n,
{
    if n <= 0 {
        Seq::empty()
    } else {
        let words = text::joined(token_texts(line.stages[n - 1].tokens), " "@);
        if n == 1 {
            words
        } else {
            shown(line, n - 1) + separator(line.pipes, n - 1) + words
        }
    }
}

fn stage_line(stage: &pipeline::Stage) -> (r: String)
    ensures
        r@ == text::joined(token_texts(stage@.tokens), " "@),
{
    let ghost whole = token_texts(stage@.tokens);
    let mut words: Vec<String> = Vec::new();
    let mut i: usize = 0;
    while i < stage.tokens.len()
        invariant
            i <= stage.tokens@.len(),
            whole == token_texts(stage@.tokens),
            text::texts(words@) == whole.take(i as int),
        decreases stage.tokens@.len() - i,
    {
        let w = stage.tokens[i].text.clone();
        proof {
            text::lemma_texts_push(words@, w);
            assert(whole.take(i + 1) =~= whole.take(i as int).push(w@));
        }
        words.push(w);
        i = i + 1;
    }
    assert(whole.take(stage.tokens@.len() as int) =~= whole);
    join_texts(&words, " ")
}

/// A pipeline as one line.
pub fn pipeline_display(line: &Pipeline) -> (r: String)
    ensures
        r@ == shown(line@, line@.stages.len() as int),
{
    let mut out = String::new();
    assert(out@ =~= Seq::<char>::empty());
    let mut i: usize = 0;
    while i < line.stages.len()
        invariant
            i <= line.stages@.len(),
            out@ == shown(line@, i as int),
        decreases line.stages@.len() - i,
    {
        assert(line@.stages[i as int] == line.stages@[i as int]@);
        let words = stage_line(&line.stages[i]);
        if i == 0 {
            out = words;
        } else {
            let between = if i - 1 < line.pipes.len() {
                match line.pipes[i - 1] {
                    PipeKind::Stdout => " | ",
                    PipeKind::Stderr => " ^| ",
                    PipeKind::Combined => " &| ",
                }
            } else {
                " | "
            };
            out = cat3(out.as_str(), between, words.as_str());
        }
        i = i + 1;
    }
    assert(line@.stages.len() == line.stages@.len());
    out
}

// ---------------------------------------------------------------------------
// Redirections
// ---------------------------------------------------------------------------

/// Which of the first `n` redirections takes the standard output: the last
/// that names it.
pub open spec fn output_pick(list: Seq<RedirectView>, n: int) -> Option<int>
    decreases n,
{
    if n <= 0 {
        None
    } else if list[n - 1].stream != Stream::Stderr {
        Some(n - 1)
    } else {
        output_pick(list, n - 1)
    }
}

/// Which of the first `n` redirections takes the standard error: the last
/// that names it.
pub open spec fn error_pick(list: Seq<RedirectView>, n: int) -> Option<int>
    decreases n,
{
    if n <= 0 {
        None
    } else if list[n - 1].stream != Stream::Stdout {
        Some(n - 1)
    } else {
        error_pick(list, n - 1)
    }
}

/// What opening the file of a redirection gives.
pub open spec fn target_opened(r: RedirectView, t: TalkView) -> (Result<u64, Seq<char>>, TalkView) {
    let (a, t1) = dialog::asked(
        t,
        RequestView::Stage(StageCallView::OpenTarget(r.path, r.append)),
    );
    (
        match a {
            AnswerView::Number(h) => Ok(h),
            _ => Err(r.path + ": "@ + a.as_failure()),
        },
        t1,
    )
}

fn open_target(r: &Redirect, talk: &mut Talk) -> (result: Result<u64, String>)
    ensures
        (match result {
            Ok(h) => Ok(h),
            Err(e) => Err(e@),
        }, final(talk)@) == target_opened(r@, old(talk)@),
{
    let a = talk.ask(Request::Stage(StageCall::OpenTarget(r.path.clone(), r.append)));
    match a {
        Answer::Number(h) => Ok(h),
        _ => {
            let e = a.into_failure();
            Err(cat3(r.path.as_str(), ": ", e.as_str()))
        },
    }
}

/// The open files that take a stage's streams. Where one redirection takes
/// both, its file is opened once.
pub open spec fn stage_targets(list: Seq<RedirectView>, t: TalkView) -> (
    Result<(Option<u64>, Option<u64>), Seq<char>>,
    TalkView,
) {
    let so = output_pick(list, list.len() as int);
    let se = error_pick(list, list.len() as int);
    match so {
        None => match se {
            None => (Ok((None, None)), t),
            Some(b) => {
                let (r, t1) = target_opened(list[b], t);
                (
                    match r {
                        Ok(h) => Ok((None, Some(h))),
                        Err(e) => Err(e),
                    },
                    t1,
                )
            },
        },
        Some(a) => {
            let (r, t1) = target_opened(list[a], t);
            match r {
                Err(e) => (Err(e), t1),
                Ok(h) => match se {
                    None => (Ok((Some(h), None)), t1),
                    Some(b) => if a == b {
                        let (c, t2) = dialog::asked(
                            t1,
                            RequestView::Stage(StageCallView::ShareTarget(h)),
                        );
                        (
                            match c {
                                AnswerView::Number(k) => Ok((Some(h), Some(k))),
                                _ => Err(c.as_failure()),
                            },
                            t2,
                        )
                    } else {
                        let (s, t2) = target_opened(list[b], t1);
                        (
                            match s {
                                Ok(k) => Ok((Some(h), Some(k))),
                                Err(e) => Err(e),
                            },
                            t2,
                        )
                    },
                },
            }
        },
    }
}

fn pick(list: &[Redirect], errors: bool) -> (r: Option<usize>)
    ensures
        match r {
            Some(i) => i < list@.len() && (if errors {
                error_pick(pipeline::redirect_views(list@), list@.len() as int)
            } else {
                output_pick(pipeline::redirect_views(list@), list@.len() as int)
            }) == Some(i as int),
            None => (if errors {
                error_pick(pipeline::redirect_views(list@), list@.len() as int)
            } else {
                output_pick(pipeline::redirect_views(list@), list@.len() as int)
            }) is None,
        },
{
    let ghost all = pipeline::redirect_views(list@);
    let mut n: usize = list.len();
    while n > 0
        invariant
            n <= list@.len(),
            all == pipeline::redirect_views(list@),
            errors ==> error_pick(all, list@.len() as int) == error_pick(all, n as int),
            !errors ==> output_pick(all, list@.len() as int) == output_pick(all, n as int),
        decreases n,
    {
        assert(all[n - 1] == list@[n - 1]@);
        let other = if errors {
            Stream::Stdout
        } else {
            Stream::Stderr
        };
        if list[n - 1].stream != other {
            return Some(n - 1);
        }
        n = n - 1;
    }
    None
}

/// Opens the files that take a stage's streams.
pub fn resolve_stage_stdio(list: &[Redirect], talk: &mut Talk) -> (r: Result<
    (Option<u64>, Option<u64>),
    String,
>)
    ensures
        (match r {
            Ok(p) => Ok(p),
            Err(e) => Err(e@),
        }, final(talk)@) == stage_targets(pipeline::redirect_views(list@), old(talk)@),
{
    let ghost all = pipeline::redirect_views(list@);
    let so = pick(list, false);
    let se = pick(list, true);
    match so {
        None => match se {
            None => Ok((None, None)),
            Some(b) => {
                assert(all[b as int] == list@[b as int]@);
                match open_target(&list[b], talk) {
                    Ok(h) => Ok((None, Some(h))),
                    Err(e) => Err(e),
                }
            },
        },
        Some(a) => {
            assert(all[a as int] == list@[a as int]@);
            let h = match open_target(&list[a], talk) {
                Err(e) => return Err(e),
                Ok(h) => h,
            };
            match se {
                None => Ok((Some(h), None)),
                Some(b) => if a == b {
                    let c = talk.ask(Request::Stage(StageCall::ShareTarget(h)));
                    match c {
                        Answer::Number(k) => Ok((Some(h), Some(k))),
                        _ => Err(c.into_failure()),
                    }
                } else {
                    assert(all[b as int] == list@[b as int]@);
                    match open_target(&list[b], talk) {
                        Ok(k) => Ok((Some(h), Some(k))),
                        Err(e) => Err(e),
                    }
                },
            }
        },
    }
}

// ---------------------------------------------------------------------------
// What a stage hands on
// ---------------------------------------------------------------------------

/// What feeds the next stage.
#[derive(Debug, Clone, PartialEq, Eq)]
pub enum Carry {
    Nothing,
    /// A stream of a launched program.
    Output(u64),
    Errors(u64),
    Both(u64),
    Bytes(String),
    Rows(Table),
    Files(FileSet),
}

/// What feeds the next stage.
pub enum CarryView {
    Nothing,
    Output(u64),
    Errors(u64),
    Both(u64),
    Bytes(Seq<char>),
    Rows(Seq<table::RowView>),
    Files(FileSetView),
}

impl View for Carry {
    type V = CarryView;

    open spec fn view(&self) -> CarryView {
        match self {
            Carry::Nothing => CarryView::Nothing,
            Carry::Output(n) => CarryView::Output(*n),
            Carry::Errors(n) => CarryView::Errors(*n),
            Carry::Both(n) => CarryView::Both(*n),
            Carry::Bytes(s) => CarryView::Bytes(s@),
            Carry::Rows(t) => CarryView::Rows(t@),
            Carry::Files(s) => CarryView::Files(s@),
        }
    }
}

/// The table or the set of files that a pipeline ends in.
#[derive(Debug, Clone, PartialEq, Eq)]
pub enum CapturedStructured {
    Table(Table),
    FileSet(FileSet),
}

/// The table or the set of files that a pipeline ends in.
pub enum CapturedView {
    Table(Seq<table::RowView>),
    FileSet(FileSetView),
}

impl View for CapturedStructured {
    type V = CapturedView;

    open spec fn view(&self) -> CapturedView {
        match self {
            CapturedStructured::Table(t) => CapturedView::Table(t@),
            CapturedStructured::FileSet(s) => CapturedView::FileSet(s@),
        }
    }
}

/// What was captured, where something was.
pub open spec fn opt_captured(c: Option<CapturedStructured>) -> Option<CapturedView> {
    match c {
        Some(x) => Some(x@),
        None => None,
    }
}

/// Where a stage stands in its pipeline.
#[derive(Debug, Clone, Copy)]
pub struct Place {
    pub first: bool,
    pub last: bool,
    /// The open files that take its streams.
    pub out: Option<u64>,
    pub err: Option<u64>,
    /// The pipe behind it.
    pub pipe: Option<PipeKind>,
    /// The next stage reads its input itself.
    pub read_next: bool,
    /// What the last stage produces is wanted as a value.
    pub capture: bool,
    /// The pipeline is registered.
    pub registered: bool,
}

/// How far a pipeline has come.
#[derive(Debug, Clone, PartialEq, Eq)]
pub struct Run {
    pub carry: Carry,
    pub launched: u64,
    pub captured: Option<CapturedStructured>,
}

/// How far a pipeline has come, with the exchange.
pub struct RunView {
    pub carry: CarryView,
    pub launched: nat,
    pub captured: Option<CapturedView>,
    pub talk: TalkView,
}

/// Why a stage could not be run: whether its command was not found, and the
/// exchange.
pub struct Stopped {
    pub not_found: bool,
    pub talk: TalkView,
}

/// A pipeline after a stage, or the end of it.
pub type Outcome = Result<RunView, Stopped>;

impl Run {
    /// How far the pipeline has come, with an exchange.
    pub open spec fn with(self, t: TalkView) -> RunView {
        RunView {
            carry: self.carry@,
            launched: self.launched as nat,
            captured: opt_captured(self.captured),
            talk: t,
        }
    }
}

/// What a stage gives.
pub open spec fn run_outcome(r: Result<Run, bool>, t: TalkView) -> Outcome {
    match r {
        Ok(run) => Ok(run.with(t)),
        Err(not_found) => Err(Stopped { not_found, talk: t }),
    }
}

/// A stage that ends the pipeline with a message.
pub open spec fn refused(message: Seq<char>, t: TalkView) -> Outcome {
    Err(Stopped { not_found: false, talk: dialog::noted(t, "ion-win: "@ + message) })
}

fn refuse(message: &str, talk: &mut Talk) -> (r: Result<Run, bool>)
    ensures
        run_outcome(r, final(talk)@) == refused(message@, old(talk)@),
{
    talk.note(cat2("ion-win: ", message));
    Err(false)
}

/// What a text does: it goes to the stage's file, to the shell's output, or
/// to the next stage.
pub open spec fn emitted(s: Seq<char>, p: Place, run: RunView, t: TalkView) -> RunView {
    match p.out {
        Some(h) => RunView {
            carry: CarryView::Nothing,
            talk: dialog::told(t, StageCallView::Write(h, s)),
            ..run
        },
        None => if p.last {
            RunView {
                carry: CarryView::Nothing,
                talk: dialog::told(t, StageCallView::Print(s)),
                ..run
            }
        } else {
            RunView { carry: CarryView::Bytes(s), talk: t, ..run }
        },
    }
}

fn emit(s: String, p: Place, run: Run, talk: &mut Talk) -> (r: Run)
    ensures
        r.with(final(talk)@) == emitted(s@, p, run.with(old(talk)@), old(talk)@),
        r.launched == run.launched,
{
    let mut run = run;
    match p.out {
        Some(h) => {
            talk.tell(StageCall::Write(h, s));
            run.carry = Carry::Nothing;
        },
        None => if p.last {
            talk.tell(StageCall::Print(s));
            run.carry = Carry::Nothing;
        } else {
            run.carry = Carry::Bytes(s);
        },
    }
    run
}

/// What the report of a stage that changes files does: it is shown at once,
/// wherever the stage stands.
pub open spec fn reported(s: Seq<char>, p: Place, t: TalkView) -> TalkView {
    match p.out {
        Some(h) => dialog::told(t, StageCallView::Write(h, s + "\n"@)),
        None => dialog::told(t, StageCallView::Print(s + "\n"@)),
    }
}

fn report(s: &str, p: Place, talk: &mut Talk)
    ensures
        final(talk)@ == reported(s@, p, old(talk)@),
{
    let line = cat2(s, "\n");
    match p.out {
        Some(h) => talk.tell(StageCall::Write(h, line)),
        None => talk.tell(StageCall::Print(line)),
    }
}

/// The text of a table.
pub open spec fn json_text(rows: Seq<table::RowView>, t: TalkView) -> (Seq<char>, TalkView) {
    let (a, t1) = dialog::asked(t, RequestView::Stage(StageCallView::ToJson(rows)));
    (a.as_text(), t1)
}

fn write_json(rows: Table, talk: &mut Talk) -> (r: String)
    ensures
        (r@, final(talk)@) == json_text(rows@, old(talk)@),
{
    talk.ask(Request::Stage(StageCall::ToJson(rows))).into_text()
}

/// What a table does: written as text to the stage's file or the shell's
/// output, kept as the value that is wanted, or handed on.
pub open spec fn table_finished(rows: Seq<table::RowView>, p: Place, run: RunView, t: TalkView) -> RunView {
    match p.out {
        Some(h) => {
            let (s, t1) = json_text(rows, t);
            RunView {
                carry: CarryView::Nothing,
                talk: dialog::told(t1, StageCallView::Write(h, s + "\n"@)),
                ..run
            }
        },
        None => if p.last {
            if p.capture {
                RunView {
                    carry: CarryView::Nothing,
                    captured: Some(CapturedView::Table(rows)),
                    talk: t,
                    ..run
                }
            } else {
                let (s, t1) = json_text(rows, t);
                RunView {
                    carry: CarryView::Nothing,
                    talk: dialog::told(t1, StageCallView::Print(s + "\n"@)),
                    ..run
                }
            }
        } else {
            RunView { carry: CarryView::Rows(rows), talk: t, ..run }
        },
    }
}

fn finish_table_stage(rows: Table, p: Place, run: Run, talk: &mut Talk) -> (r: Run)
    ensures
        r.with(final(talk)@) == table_finished(rows@, p, run.with(old(talk)@), old(talk)@),
        r.launched == run.launched,
{
    let mut run = run;
    match p.out {
        Some(h) => {
            let s = write_json(rows, talk);
            talk.tell(StageCall::Write(h, cat2(s.as_str(), "\n")));
            run.carry = Carry::Nothing;
        },
        None => if p.last {
            if p.capture {
                run.captured = Some(CapturedStructured::Table(rows));
            } else {
                let s = write_json(rows, talk);
                talk.tell(StageCall::Print(cat2(s.as_str(), "\n")));
            }
            run.carry = Carry::Nothing;
        } else {
            run.carry = Carry::Rows(rows);
        },
    }
    run
}

/// What a set of files does: as a table, but kept and handed on as a set.
pub open spec fn set_finished(set: FileSetView, p: Place, run: RunView, t: TalkView) -> RunView {
    match p.out {
        Some(h) => {
            let (s, t1) = json_text(fileset::table_of(set), t);
            RunView {
                carry: CarryView::Nothing,
                talk: dialog::told(t1, StageCallView::Write(h, s + "\n"@)),
                ..run
            }
        },
        None => if p.last {
            if p.capture {
                RunView {
                    carry: CarryView::Nothing,
                    captured: Some(CapturedView::FileSet(set)),
                    talk: t,
                    ..run
                }
            } else {
                let (s, t1) = json_text(fileset::table_of(set), t);
                RunView {
                    carry: CarryView::Nothing,
                    talk: dialog::told(t1, StageCallView::Print(s + "\n"@)),
                    ..run
                }
            }
        } else {
            RunView { carry: CarryView::Files(set), talk: t, ..run }
        },
    }
}

fn finish_fileset_stage(set: FileSet, p: Place, run: Run, talk: &mut Talk) -> (r: Run)
    ensures
        r.with(final(talk)@) == set_finished(set@, p, run.with(old(talk)@), old(talk)@),
        r.launched == run.launched,
{
    let mut run = run;
    match p.out {
        Some(h) => {
            let s = write_json(set.to_table(), talk);
            talk.tell(StageCall::Write(h, cat2(s.as_str(), "\n")));
            run.carry = Carry::Nothing;
        },
        None => if p.last {
            if p.capture {
                run.captured = Some(CapturedStructured::FileSet(set));
            } else {
                let s = write_json(set.to_table(), talk);
                talk.tell(StageCall::Print(cat2(s.as_str(), "\n")));
            }
            run.carry = Carry::Nothing;
        } else {
            run.carry = Carry::Files(set);
        },
    }
    run
}

// ---------------------------------------------------------------------------
// Stages that produce text or sets
// ---------------------------------------------------------------------------

/// What `echo` gives.
pub open spec fn echo_stage(words: Seq<Seq<char>>, bare: bool, p: Place, run: RunView) -> Outcome {
    let line = text::joined(words, " "@);
    Ok(
        emitted(
            if bare {
                line
            } else {
                line + "\n"@
            },
            p,
            run,
            run.talk,
        ),
    )
}

fn do_echo(words: &[String], bare: bool, p: Place, run: Run, talk: &mut Talk) -> (r: Result<Run, bool>)
    ensures
        run_outcome(r, final(talk)@) == echo_stage(
            text::texts(words@),
            bare,
            p,
            run.with(old(talk)@),
        ),
        r matches Ok(after) ==> after.launched == run.launched,
{
    let line = join_texts(words, " ");
    let s = if bare {
        line
    } else {
        cat2(line.as_str(), "\n")
    };
    Ok(emit(s, p, run, talk))
}

/// What `cat` gives: the bytes of the files as they are.
pub open spec fn cat_stage(files: Seq<Seq<char>>, p: Place, run: RunView) -> Outcome {
    let (r, t1) = fs_builtins::captured("cat"@, files, run.talk);
    match r {
        Some(Ok(s)) => Ok(emitted(s, p, run, t1)),
        Some(Err(e)) => refused(e, t1),
        None => refused(Seq::empty(), t1),
    }
}

fn do_cat(files: &[String], p: Place, run: Run, talk: &mut Talk) -> (r: Result<Run, bool>)
    ensures
        run_outcome(r, final(talk)@) == cat_stage(text::texts(files@), p, run.with(old(talk)@)),
        r matches Ok(after) ==> after.launched == run.launched,
{
    match capture("cat", files, talk) {
        Some(Ok(s)) => Ok(emit(s, p, run, talk)),
        Some(Err(e)) => refuse(e.as_str(), talk),
        None => {
            let none = String::new();
            assert(none@ =~= Seq::<char>::empty());
            refuse(none.as_str(), talk)
        },
    }
}

/// What `find` gives: below the files that are handed to it, a set; else the
/// names, one a line.
pub open spec fn find_stage(args: Seq<Seq<char>>, p: Place, run: RunView) -> Outcome {
    match run.carry {
        CarryView::Files(roots) => {
            let (r, t1) = fs_builtins::found_set(args, roots.files, run.talk);
            match r {
                Ok(set) => Ok(set_finished(set, p, run, t1)),
                Err(e) => refused(e, t1),
            }
        },
        _ => {
            let (r, t1) = fs_builtins::captured("find"@, args, run.talk);
            match r {
                Some(Ok(s)) => Ok(
                    emitted(
                        if s.len() > 0 {
                            s + "\n"@
                        } else {
                            s
                        },
                        p,
                        run,
                        t1,
                    ),
                ),
                Some(Err(e)) => refused(e, t1),
                None => refused(Seq::empty(), t1),
            }
        },
    }
}

fn do_find(args: &[String], p: Place, run: Run, talk: &mut Talk) -> (r: Result<Run, bool>)
    ensures
        run_outcome(r, final(talk)@) == find_stage(text::texts(args@), p, run.with(old(talk)@)),
        r matches Ok(after) ==> after.launched == run.launched,
{
    match &run.carry {
        Carry::Files(roots) => match find_in_fileset(args, roots, talk) {
            Ok(set) => Ok(finish_fileset_stage(set, p, run, talk)),
            Err(e) => refuse(e.as_str(), talk),
        },
        _ => match capture("find", args, talk) {
            Some(Ok(s)) => {
                let line = if s.as_str().is_empty() {
                    s
                } else {
                    cat2(s.as_str(), "\n")
                };
                Ok(emit(line, p, run, talk))
            },
            Some(Err(e)) => refuse(e.as_str(), talk),
            None => {
                let none = String::new();
                assert(none@ =~= Seq::<char>::empty());
                refuse(none.as_str(), talk)
            },
        },
    }
}

/// What `files` and `folders` give: a set.
pub open spec fn list_stage(name: Seq<char>, args: Seq<Seq<char>>, p: Place, run: RunView) -> Outcome {
    let (r, t1) = fs_builtins::captured_set(name, args, run.talk);
    match r {
        Some(Ok(set)) => Ok(set_finished(set, p, run, t1)),
        Some(Err(e)) => refused(e, t1),
        None => refused(Seq::empty(), t1),
    }
}

fn do_list(name: &str, args: &[String], p: Place, run: Run, talk: &mut Talk) -> (r: Result<Run, bool>)
    ensures
        run_outcome(r, final(talk)@) == list_stage(
            name@,
            text::texts(args@),
            p,
            run.with(old(talk)@),
        ),
        r matches Ok(after) ==> after.launched == run.launched,
{
    match capture_fileset(name, args, talk) {
        Some(Ok(set)) => Ok(finish_fileset_stage(set, p, run, talk)),
        Some(Err(e)) => refuse(e.as_str(), talk),
        None => {
            let none = String::new();
            assert(none@ =~= Seq::<char>::empty());
            refuse(none.as_str(), talk)
        },
    }
}

// ---------------------------------------------------------------------------
// Stages that change files
// ---------------------------------------------------------------------------

/// What `copy` gives. With sources of its own it ignores what is handed to
/// it; else it copies the files of a table or set and hands that on.
pub open spec fn copy_stage(args: Seq<Seq<char>>, p: Place, run: RunView) -> Outcome {
    match copy::copy_flags(args) {
        Err(e) => refused(e, run.talk),
        Ok((force, rest)) => if rest.len() >= 2 {
            let (s, t1) = copy::copy_done(rest.drop_last(), rest.last(), force, run.talk);
            Ok(RunView { carry: CarryView::Nothing, talk: reported(s, p, t1), ..run })
        } else if rest.len() == 1 {
            match run.carry {
                CarryView::Rows(rows) => {
                    let (s, t1) = copy::copy_table_done(rows, rest[0], force, run.talk);
                    Ok(RunView { talk: reported(s, p, t1), ..run })
                },
                CarryView::Files(set) => {
                    let (a, t1) = dialog::asked(
                        run.talk,
                        RequestView::Stage(StageCallView::CopySet(set, rest[0], force)),
                    );
                    Ok(RunView { talk: reported(a.as_text(), p, t1), ..run })
                },
                CarryView::Nothing => refused(
                    "copy: no table piped in (pipe through 'stat' first) and no source files given"@,
                    run.talk,
                ),
                _ => refused("copy: expected a table (pipe through 'stat' first)"@, run.talk),
            }
        } else {
            refused(copy::copy_usage(), run.talk)
        },
    }
}

fn do_copy(args: &[String], p: Place, run: Run, talk: &mut Talk) -> (r: Result<Run, bool>)
    ensures
        run_outcome(r, final(talk)@) == copy_stage(text::texts(args@), p, run.with(old(talk)@)),
        r matches Ok(after) ==> after.launched == run.launched,
{
    let mut run = run;
    let (force, mut rest) = match copy::parse_flags(args) {
        Err(e) => return refuse(e.as_str(), talk),
        Ok(v) => v,
    };
    let ghost all = text::texts(rest@);
    if rest.len() >= 2 {
        match rest.pop() {
            None => {},
            Some(dest) => {
                assert(text::texts(rest@) =~= all.drop_last());
                assert(dest@ == all.last());
                let s = copy::copy_files(&rest, dest.as_str(), force, talk);
                report(s.as_str(), p, talk);
            },
        }
        run.carry = Carry::Nothing;
        return Ok(run);
    }
    if rest.len() == 1 {
        assert(all[0] == rest@[0]@);
        let dest = rest[0].as_str();
        let s = match &run.carry {
            Carry::Rows(rows) => copy::copy_table(rows, dest, force, talk),
            Carry::Files(set) => talk.ask(
                Request::Stage(StageCall::CopySet(set.copy(), dest.to_owned(), force)),
            ).into_text(),
            Carry::Nothing => return refuse(
                "copy: no table piped in (pipe through 'stat' first) and no source files given",
                talk,
            ),
            _ => return refuse("copy: expected a table (pipe through 'stat' first)", talk),
        };
        report(s.as_str(), p, talk);
        return Ok(run);
    }
    refuse("copy: usage: copy [--force] SRC... DEST  |  TABLE | copy [--force] DEST", talk)
}

/// What `move` gives. Nothing is handed on: the paths are no longer right.
pub open spec fn move_stage(args: Seq<Seq<char>>, p: Place, run: RunView) -> Outcome {
    match fs_ops::move_flags(args) {
        Err(e) => refused(e, run.talk),
        Ok((force, rest)) => if rest.len() >= 2 {
            let (s, t1) = fs_ops::move_done(rest.drop_last(), rest.last(), force, run.talk);
            Ok(RunView { carry: CarryView::Nothing, talk: reported(s, p, t1), ..run })
        } else if rest.len() == 1 {
            match run.carry {
                CarryView::Rows(rows) => {
                    let (s, t1) = fs_ops::move_table_done(rows, rest[0], force, run.talk);
                    Ok(RunView { carry: CarryView::Nothing, talk: reported(s, p, t1), ..run })
                },
                CarryView::Files(set) => {
                    let (s, t1) = fs_ops::move_table_done(
                        fileset::table_of(set),
                        rest[0],
                        force,
                        run.talk,
                    );
                    Ok(RunView { carry: CarryView::Nothing, talk: reported(s, p, t1), ..run })
                },
                CarryView::Nothing => refused(
                    "move: no table piped in and no source paths given"@,
                    run.talk,
                ),
                _ => refused("move: expected a table"@, run.talk),
            }
        } else {
            refused(fs_ops::move_usage(), run.talk)
        },
    }
}

fn do_move(args: &[String], p: Place, run: Run, talk: &mut Talk) -> (r: Result<Run, bool>)
    ensures
        run_outcome(r, final(talk)@) == move_stage(text::texts(args@), p, run.with(old(talk)@)),
        r matches Ok(after) ==> after.launched == run.launched,
{
    let mut run = run;
    let (force, mut rest) = match fs_ops::parse_move_flags(args) {
        Err(e) => return refuse(e.as_str(), talk),
        Ok(v) => v,
    };
    let ghost all = text::texts(rest@);
    if rest.len() >= 2 {
        match rest.pop() {
            None => {},
            Some(dest) => {
                assert(text::texts(rest@) =~= all.drop_last());
                assert(dest@ == all.last());
                let s = fs_ops::move_paths(&rest, dest.as_str(), force, talk);
                report(s.as_str(), p, talk);
            },
        }
        run.carry = Carry::Nothing;
        return Ok(run);
    }
    if rest.len() == 1 {
        assert(all[0] == rest@[0]@);
        let dest = rest[0].as_str();
        let s = match &run.carry {
            Carry::Rows(rows) => fs_ops::move_table(rows, dest, force, talk),
            Carry::Files(set) => {
                let rows = set.to_table();
                fs_ops::move_table(&rows, dest, force, talk)
            },
            Carry::Nothing => return refuse(
                "move: no table piped in and no source paths given",
                talk,
            ),
            _ => return refuse("move: expected a table", talk),
        };
        report(s.as_str(), p, talk);
        run.carry = Carry::Nothing;
        return Ok(run);
    }
    refuse("move: usage: move [--force] SRC... DEST  |  TABLE | move [--force] DEST", talk)
}

/// The usage of `compress` as a stage.
pub open spec fn pack_usage() -> Seq<char> {
    "compress: usage: compress [--force] SRC... DEST.zip  |  FILESET | compress [--force] DEST.zip"@
}

/// What `compress` gives, once its options are read.
pub open spec fn packed_stage(o: compress::PackOptionsView, p: Place, run: RunView) -> Outcome {
    let rest = o.positional;
    if o.plan_only {
        if rest.len() != 1 {
            refused("compress: --plan requires one archive directory"@, run.talk)
        } else {
            match run.carry {
                CarryView::Files(set) => {
                    let (a, t1) = dialog::asked(
                        run.talk,
                        RequestView::Stage(StageCallView::PlanPerRoot(set, rest[0], o.backup)),
                    );
                    match a {
                        AnswerView::Rows(rows) => Ok(table_finished(rows, p, run, t1)),
                        _ => refused(a.as_failure(), t1),
                    }
                },
                _ => refused(
                    "compress: --plan requires a FileSet with root provenance"@,
                    run.talk,
                ),
            }
        }
    } else if o.per_root {
        if rest.len() != 1 {
            refused("compress: --per-root requires one destination directory"@, run.talk)
        } else {
            match run.carry {
                CarryView::Files(set) => {
                    let (a, t1) = dialog::asked(
                        run.talk,
                        RequestView::Stage(
                            StageCallView::PackPerRoot(set, rest[0], o.backup, o.force),
                        ),
                    );
                    match a {
                        AnswerView::Text(s) => Ok(RunView { talk: reported(s, p, t1), ..run }),
                        _ => refused(a.as_failure(), t1),
                    }
                },
                _ => refused(
                    "compress: --per-root requires a FileSet with root provenance"@,
                    run.talk,
                ),
            }
        }
    } else if rest.len() >= 2 {
        let (s, t1) = compress::packed(
            compress::named_entries(rest.drop_last()),
            rest.last(),
            o.force,
            0,
            run.talk,
        );
        Ok(RunView { carry: CarryView::Nothing, talk: reported(s, p, t1), ..run })
    } else if rest.len() == 1 {
        match run.carry {
            CarryView::Rows(rows) => {
                let (s, t1) = compress::compress_table_done(rows, rest[0], o.force, run.talk);
                Ok(RunView { talk: reported(s, p, t1), ..run })
            },
            CarryView::Files(set) => {
                let (a, t1) = dialog::asked(
                    run.talk,
                    RequestView::Stage(StageCallView::PackSet(set, rest[0], o.force)),
                );
                Ok(RunView { talk: reported(a.as_text(), p, t1), ..run })
            },
            CarryView::Nothing => refused(
                "compress: no FileSet/table piped in (pipe through 'stat' first) and no source files given"@,
                run.talk,
            ),
            _ => refused(
                "compress: expected a FileSet or table (pipe through 'stat' first)"@,
                run.talk,
            ),
        }
    } else {
        refused(pack_usage(), run.talk)
    }
}

/// What `compress` gives.
pub open spec fn compress_stage(args: Seq<Seq<char>>, p: Place, run: RunView) -> Outcome {
    match compress::pipeline_words(args, 0, compress::plain_options()) {
        Err(e) => refused(e, run.talk),
        Ok(o) => packed_stage(o, p, run),
    }
}

fn do_compress(args: &[String], p: Place, run: Run, talk: &mut Talk) -> (r: Result<Run, bool>)
    ensures
        run_outcome(r, final(talk)@) == compress_stage(
            text::texts(args@),
            p,
            run.with(old(talk)@),
        ),
        r matches Ok(after) ==> after.launched == run.launched,
{
    let mut run = run;
    let o = match compress::parse_pipeline_flags(args) {
        Err(e) => return refuse(e.as_str(), talk),
        Ok(o) => o,
    };
    let ghost all = text::texts(o.positional@);
    let n = o.positional.len();
    assert(n > 0 ==> all[0] == o.positional@[0]@);
    if o.plan_only {
        if n != 1 {
            return refuse("compress: --plan requires one archive directory", talk);
        }
        return match &run.carry {
            Carry::Files(set) => {
                let a = talk.ask(
                    Request::Stage(
                        StageCall::PlanPerRoot(
                            set.copy(),
                            o.positional[0].clone(),
                            copy_opt(&o.backup),
                        ),
                    ),
                );
                match a {
                    Answer::Rows(rows) => Ok(finish_table_stage(rows, p, run, talk)),
                    _ => {
                        let e = a.into_failure();
                        refuse(e.as_str(), talk)
                    },
                }
            },
            _ => refuse("compress: --plan requires a FileSet with root provenance", talk),
        };
    }
    if o.per_root {
        if n != 1 {
            return refuse("compress: --per-root requires one destination directory", talk);
        }
        return match &run.carry {
            Carry::Files(set) => {
                let a = talk.ask(
                    Request::Stage(
                        StageCall::PackPerRoot(
                            set.copy(),
                            o.positional[0].clone(),
                            copy_opt(&o.backup),
                            o.force,
                        ),
                    ),
                );
                match a {
                    Answer::Text(s) => {
                        report(s.as_str(), p, talk);
                        Ok(run)
                    },
                    _ => {
                        let e = a.into_failure();
                        refuse(e.as_str(), talk)
                    },
                }
            },
            _ => refuse("compress: --per-root requires a FileSet with root provenance", talk),
        };
    }
    if n >= 2 {
        let mut rest = copy_texts(&o.positional);
        match rest.pop() {
            None => {},
            Some(dest) => {
                assert(text::texts(rest@) =~= all.drop_last());
                assert(dest@ == all.last());
                let s = compress::compress_files(&rest, dest.as_str(), o.force, talk);
                report(s.as_str(), p, talk);
            },
        }
        run.carry = Carry::Nothing;
        return Ok(run);
    }
    if n == 1 {
        let dest = o.positional[0].as_str();
        let s = match &run.carry {
            Carry::Rows(rows) => compress::compress_table(rows, dest, o.force, talk),
            Carry::Files(set) => talk.ask(
                Request::Stage(StageCall::PackSet(set.copy(), dest.to_owned(), o.force)),
            ).into_text(),
            Carry::Nothing => return refuse(
                "compress: no FileSet/table piped in (pipe through 'stat' first) and no source files given",
                talk,
            ),
            _ => return refuse(
                "compress: expected a FileSet or table (pipe through 'stat' first)",
                talk,
            ),
        };
        report(s.as_str(), p, talk);
        return Ok(run);
    }
    refuse(
        "compress: usage: compress [--force] SRC... DEST.zip  |  FILESET | compress [--force] DEST.zip",
        talk,
    )
}

/// What `delete` gives. Nothing is handed on: the files are gone.
pub open spec fn delete_stage(args: Seq<Seq<char>>, p: Place, run: RunView) -> Outcome {
    match delete::delete_flags(args) {
        Err(e) => refused(e, run.talk),
        Ok((options, rest)) => if rest.len() > 0 {
            let (s, t1) = delete::delete_done(rest, options, 0, run.talk);
            Ok(RunView { carry: CarryView::Nothing, talk: reported(s, p, t1), ..run })
        } else {
            match run.carry {
                CarryView::Rows(rows) => {
                    let (s, t1) = delete::delete_table_done(rows, options, run.talk);
                    Ok(RunView { carry: CarryView::Nothing, talk: reported(s, p, t1), ..run })
                },
                CarryView::Files(set) => {
                    let (s, t1) = delete::delete_table_done(
                        fileset::table_of(set),
                        options,
                        run.talk,
                    );
                    Ok(RunView { carry: CarryView::Nothing, talk: reported(s, p, t1), ..run })
                },
                CarryView::Nothing => refused(
                    "delete: no paths given and no table piped in"@,
                    run.talk,
                ),
                _ => refused("delete: expected a table"@, run.talk),
            }
        },
    }
}

fn do_delete(args: &[String], p: Place, run: Run, talk: &mut Talk) -> (r: Result<Run, bool>)
    ensures
        run_outcome(r, final(talk)@) == delete_stage(text::texts(args@), p, run.with(old(talk)@)),
        r matches Ok(after) ==> after.launched == run.launched,
{
    let mut run = run;
    let (options, rest) = match delete::parse_flags(args) {
        Err(e) => return refuse(e.as_str(), talk),
        Ok(v) => v,
    };
    assert(text::texts(rest@).len() == rest@.len());
    let s = if rest.len() > 0 {
        delete::delete_paths(&rest, options, talk)
    } else {
        match &run.carry {
            Carry::Rows(rows) => delete::delete_table(rows, options, talk),
            Carry::Files(set) => {
                let rows = set.to_table();
                delete::delete_table(&rows, options, talk)
            },
            Carry::Nothing => return refuse("delete: no paths given and no table piped in", talk),
            _ => return refuse("delete: expected a table", talk),
        }
    };
    report(s.as_str(), p, talk);
    run.carry = Carry::Nothing;
    Ok(run)
}

// ---------------------------------------------------------------------------
// Stages on tables
// ---------------------------------------------------------------------------

/// What reading a table out of text gives.
pub open spec fn from_stage(csv: bool, p: Place, run: RunView) -> Outcome {
    match run.carry {
        CarryView::Bytes(s) => {
            let (a, t1) = dialog::asked(
                run.talk,
                RequestView::Stage(
                    if csv {
                        StageCallView::FromCsv(s)
                    } else {
                        StageCallView::FromJson(s)
                    },
                ),
            );
            match a {
                AnswerView::Rows(rows) => Ok(table_finished(rows, p, run, t1)),
                _ => if csv {
                    refused(a.as_failure(), t1)
                } else {
                    refused("from-json: "@ + a.as_failure(), t1)
                },
            }
        },
        CarryView::Nothing => refused(
            if csv {
                "from-csv: no input piped in"@
            } else {
                "from-json: no input piped in"@
            },
            run.talk,
        ),
        CarryView::Rows(rows) => refused(
            if csv {
                "from-csv: input is already a table"@
            } else {
                "from-json: input is already a table"@
            },
            run.talk,
        ),
        CarryView::Files(set) => refused(
            if csv {
                "from-csv: input is already a FileSet"@
            } else {
                "from-json: input is already a FileSet"@
            },
            run.talk,
        ),
        _ => refused(
            if csv {
                "from-csv: only supported right after 'echo'/'cat' or a plain '|' pipe, not '^|'/'&|' yet"@
            } else {
                "from-json: only supported right after 'echo' or a plain '|' pipe, not '^|'/'&|' yet"@
            },
            run.talk,
        ),
    }
}

fn do_from(csv: bool, p: Place, run: Run, talk: &mut Talk) -> (r: Result<Run, bool>)
    ensures
        run_outcome(r, final(talk)@) == from_stage(csv, p, run.with(old(talk)@)),
        r matches Ok(after) ==> after.launched == run.launched,
{
    match &run.carry {
        Carry::Bytes(s) => {
            let call = if csv {
                StageCall::FromCsv(s.clone())
            } else {
                StageCall::FromJson(s.clone())
            };
            let a = talk.ask(Request::Stage(call));
            match a {
                Answer::Rows(rows) => Ok(finish_table_stage(rows, p, run, talk)),
                _ => {
                    let e = a.into_failure();
                    if csv {
                        refuse(e.as_str(), talk)
                    } else {
                        let m = cat2("from-json: ", e.as_str());
                        refuse(m.as_str(), talk)
                    }
                },
            }
        },
        Carry::Nothing => refuse(
            if csv {
                "from-csv: no input piped in"
            } else {
                "from-json: no input piped in"
            },
            talk,
        ),
        Carry::Rows(_) => refuse(
            if csv {
                "from-csv: input is already a table"
            } else {
                "from-json: input is already a table"
            },
            talk,
        ),
        Carry::Files(_) => refuse(
            if csv {
                "from-csv: input is already a FileSet"
            } else {
                "from-json: input is already a FileSet"
            },
            talk,
        ),
        _ => refuse(
            if csv {
                "from-csv: only supported right after 'echo'/'cat' or a plain '|' pipe, not '^|'/'&|' yet"
            } else {
                "from-json: only supported right after 'echo' or a plain '|' pipe, not '^|'/'&|' yet"
            },
            talk,
        ),
    }
}

/// What `select` gives.
pub open spec fn select_stage(columns: Seq<Seq<char>>, p: Place, run: RunView) -> Outcome {
    match run.carry {
        CarryView::Files(set) => Ok(
            set_finished(FileSetView { columns, ..set }, p, run, run.talk),
        ),
        CarryView::Rows(rows) => {
            let (a, t1) = dialog::asked(
                run.talk,
                RequestView::Stage(StageCallView::SelectColumns(rows, columns)),
            );
            match a {
                AnswerView::Rows(kept) => Ok(table_finished(kept, p, run, t1)),
                _ => refused(a.as_failure(), t1),
            }
        },
        CarryView::Nothing => refused(
            "select: no table piped in (pipe through 'from-json' first)"@,
            run.talk,
        ),
        _ => refused("select: expected a table (pipe through 'from-json' first)"@, run.talk),
    }
}

fn do_select(columns: &[String], p: Place, run: Run, talk: &mut Talk) -> (r: Result<Run, bool>)
    ensures
        run_outcome(r, final(talk)@) == select_stage(
            text::texts(columns@),
            p,
            run.with(old(talk)@),
        ),
        r matches Ok(after) ==> after.launched == run.launched,
{
    match &run.carry {
        Carry::Files(set) => {
            let chosen = set.copy().select(columns);
            Ok(finish_fileset_stage(chosen, p, run, talk))
        },
        Carry::Rows(rows) => {
            let a = talk.ask(
                Request::Stage(StageCall::SelectColumns(rows.copy(), copy_texts(columns))),
            );
            match a {
                Answer::Rows(kept) => Ok(finish_table_stage(kept, p, run, talk)),
                _ => {
                    let e = a.into_failure();
                    refuse(e.as_str(), talk)
                },
            }
        },
        Carry::Nothing => refuse(
            "select: no table piped in (pipe through 'from-json' first)",
            talk,
        ),
        _ => refuse("select: expected a table (pipe through 'from-json' first)", talk),
    }
}

/// Whether `where` knows an operator.
pub open spec fn where_op(op: Seq<char>) -> bool {
    op == "="@ || op == "=="@ || op == "!="@ || op == "-eq"@ || op == "-ne"@ || op == "-lt"@ || op
        == "-le"@ || op == "-gt"@ || op == "-ge"@
}

fn knows_op(op: &str) -> (r: bool)
    ensures
        r == where_op(op@),
{
    same(op, "=") || same(op, "==") || same(op, "!=") || same(op, "-eq") || same(op, "-ne") || same(
        op,
        "-lt",
    ) || same(op, "-le") || same(op, "-gt") || same(op, "-ge")
}

/// What `where` gives: the rows or files that pass.
pub open spec fn where_stage(args: Seq<Seq<char>>, p: Place, run: RunView) -> Outcome {
    if run.carry is Nothing {
        refused("where: no table piped in (pipe through 'from-json' first)"@, run.talk)
    } else if !(run.carry is Rows || run.carry is Files) {
        refused("where: expected a table (pipe through 'from-json' first)"@, run.talk)
    } else if args.len() != 3 {
        refused("where: usage: where COLUMN OP VALUE (e.g. 'where pid -gt 1000')"@, run.talk)
    } else if !where_op(args[1]) {
        refused(
            "where: unsupported operator '"@ + args[1]
                + "' (expected one of = == != -eq -ne -lt -le -gt -ge)"@,
            run.talk,
        )
    } else {
        match run.carry {
            CarryView::Rows(rows) => {
                let (kept, t1) = table::rows_passing(
                    rows,
                    rows.len() as int,
                    args[0],
                    args[1],
                    args[2],
                    run.talk,
                );
                Ok(table_finished(kept, p, run, t1))
            },
            CarryView::Files(set) => {
                let (kept, t1) = fileset::files_passing(
                    set.files,
                    set.files.len() as int,
                    args[0],
                    args[1],
                    args[2],
                    run.talk,
                );
                Ok(set_finished(FileSetView { files: kept, ..set }, p, run, t1))
            },
            _ => refused(Seq::empty(), run.talk),
        }
    }
}

fn do_where(args: &[String], p: Place, run: Run, talk: &mut Talk) -> (r: Result<Run, bool>)
    ensures
        run_outcome(r, final(talk)@) == where_stage(text::texts(args@), p, run.with(old(talk)@)),
        r matches Ok(after) ==> after.launched == run.launched,
{
    let ghost all = text::texts(args@);
    match &run.carry {
        Carry::Nothing => return refuse(
            "where: no table piped in (pipe through 'from-json' first)",
            talk,
        ),
        Carry::Rows(_) => {},
        Carry::Files(_) => {},
        _ => return refuse(
            "where: expected a table (pipe through 'from-json' first)",
            talk,
        ),
    }
    if args.len() != 3 {
        return refuse(
            "where: usage: where COLUMN OP VALUE (e.g. 'where pid -gt 1000')",
            talk,
        );
    }
    assert(all[0] == args@[0]@ && all[1] == args@[1]@ && all[2] == args@[2]@);
    if !knows_op(args[1].as_str()) {
        let m = cat3(
            "where: unsupported operator '",
            args[1].as_str(),
            "' (expected one of = == != -eq -ne -lt -le -gt -ge)",
        );
        return refuse(m.as_str(), talk);
    }
    match &run.carry {
        Carry::Rows(rows) => {
            let kept = rows.copy().filter(
                args[0].as_str(),
                args[1].as_str(),
                args[2].as_str(),
                talk,
            );
            Ok(finish_table_stage(kept, p, run, talk))
        },
        Carry::Files(set) => {
            let kept = set.copy().filter(
                args[0].as_str(),
                args[1].as_str(),
                args[2].as_str(),
                talk,
            );
            Ok(finish_fileset_stage(kept, p, run, talk))
        },
        _ => {
            let none = String::new();
            assert(none@ =~= Seq::<char>::empty());
            refuse(none.as_str(), talk)
        },
    }
}

/// What `date-column` gives.
pub open spec fn date_stage(args: Seq<Seq<char>>, p: Place, run: RunView) -> Outcome {
    match run.carry {
        CarryView::Rows(rows) => {
            let (a, t1) = dialog::asked(
                run.talk,
                RequestView::Stage(StageCallView::DateColumn(rows, args)),
            );
            match a {
                AnswerView::Rows(done) => Ok(table_finished(done, p, run, t1)),
                _ => refused(a.as_failure(), t1),
            }
        },
        CarryView::Nothing => refused(
            "date-column: no table piped in (pipe through 'from-json'/'from-csv' first)"@,
            run.talk,
        ),
        _ => refused(
            "date-column: expected a table (pipe through 'from-json'/'from-csv' first)"@,
            run.talk,
        ),
    }
}

fn do_date(args: &[String], p: Place, run: Run, talk: &mut Talk) -> (r: Result<Run, bool>)
    ensures
        run_outcome(r, final(talk)@) == date_stage(text::texts(args@), p, run.with(old(talk)@)),
        r matches Ok(after) ==> after.launched == run.launched,
{
    match &run.carry {
        Carry::Rows(rows) => {
            let a = talk.ask(
                Request::Stage(StageCall::DateColumn(rows.copy(), copy_texts(args))),
            );
            match a {
                Answer::Rows(done) => Ok(finish_table_stage(done, p, run, talk)),
                _ => {
                    let e = a.into_failure();
                    refuse(e.as_str(), talk)
                },
            }
        },
        Carry::Nothing => refuse(
            "date-column: no table piped in (pipe through 'from-json'/'from-csv' first)",
            talk,
        ),
        _ => refuse(
            "date-column: expected a table (pipe through 'from-json'/'from-csv' first)",
            talk,
        ),
    }
}

/// The lines of the first `n` pieces of a text that hold something, trimmed.
pub open spec fn full_lines(parts: Seq<Seq<char>>, n: int) -> Seq<Seq<char>>
    decreases n,
{
    if n <= 0 {
        Seq::empty()
    } else {
        let before = full_lines(parts, n - 1);
        let line = text::trimmed(parts[n - 1]);
        if line.len() > 0 {
            before.push(line)
        } else {
            before
        }
    }
}

/// The lines of a text that hold something, trimmed.
pub open spec fn lines_of(s: Seq<char>) -> Seq<Seq<char>> {
    let parts = text::pieces(s, "\n"@);
    full_lines(parts, parts.len() as int)
}

fn list_lines(s: &str) -> (r: Vec<String>)
    ensures
        text::texts(r@) == lines_of(s@),
{
    let parts = split_texts(s, "\n");
    let ghost all = text::texts(parts@);
    let mut out: Vec<String> = Vec::new();
    assert(text::texts(out@) =~= Seq::<Seq<char>>::empty());
    let mut i: usize = 0;
    while i < parts.len()
        invariant
            i <= parts@.len(),
            all == text::texts(parts@),
            text::texts(out@) == full_lines(all, i as int),
        decreases parts@.len() - i,
    {
        assert(all[i as int] == parts@[i as int]@);
        let line = trim_text(parts[i].as_str());
        if !line.as_str().is_empty() {
            proof {
                text::lemma_texts_push(out@, line);
            }
            out.push(line);
        }
        i = i + 1;
    }
    assert(all.len() == parts@.len());
    out
}

/// The paths of the files of a set.
pub open spec fn set_paths(files: Seq<fileset::FileRecordView>) -> Seq<Seq<char>> {
    Seq::new(files.len(), |i: int| files[i].path)
}

fn list_paths(set: &FileSet) -> (r: Vec<String>)
    ensures
        text::texts(r@) == set_paths(set@.files),
{
    let ghost whole = set_paths(set@.files);
    let mut out: Vec<String> = Vec::new();
    let mut i: usize = 0;
    while i < set.files.len()
        invariant
            i <= set.files@.len(),
            whole == set_paths(set@.files),
            text::texts(out@) == whole.take(i as int),
        decreases set.files@.len() - i,
    {
        let p = set.files[i].path.clone();
        proof {
            text::lemma_texts_push(out@, p);
            assert(whole.take(i + 1) =~= whole.take(i as int).push(p@));
        }
        out.push(p);
        i = i + 1;
    }
    assert(whole.take(set.files@.len() as int) =~= whole);
    out
}

/// What building the set of some paths gives.
pub open spec fn built(
    list: Seq<Seq<char>>,
    hash: Option<Seq<char>>,
    p: Place,
    run: RunView,
    t: TalkView,
) -> Outcome {
    let (a, t1) = dialog::asked(t, RequestView::Stage(StageCallView::BuildSet(list, hash)));
    match a {
        AnswerView::Files(set) => Ok(set_finished(set, p, run, t1)),
        _ => refused(a.as_failure(), t1),
    }
}

fn build(list: Vec<String>, hash: Option<String>, p: Place, run: Run, talk: &mut Talk) -> (r: Result<
    Run,
    bool,
>)
    ensures
        run_outcome(r, final(talk)@) == built(
            text::texts(list@),
            fileset::opt_text(hash),
            p,
            run.with(old(talk)@),
            old(talk)@,
        ),
        r matches Ok(after) ==> after.launched == run.launched,
{
    let a = talk.ask(Request::Stage(StageCall::BuildSet(list, hash)));
    match a {
        Answer::Files(set) => Ok(finish_fileset_stage(set, p, run, talk)),
        _ => {
            let e = a.into_failure();
            refuse(e.as_str(), talk)
        },
    }
}

/// What `stat` gives: a set of the files that it names; without names, of
/// those that are handed to it, one a line or as a set.
pub open spec fn stat_stage(args: Seq<Seq<char>>, p: Place, run: RunView) -> Outcome {
    let (a, t1) = dialog::asked(
        run.talk,
        RequestView::Stage(StageCallView::StatArguments(args)),
    );
    match a {
        AnswerView::Words(files, hash) => if files.len() > 0 {
            built(files, hash, p, run, t1)
        } else {
            match run.carry {
                CarryView::Files(set) => if hash is None {
                    Ok(set_finished(set, p, run, t1))
                } else {
                    built(set_paths(set.files), hash, p, run, t1)
                },
                CarryView::Bytes(s) => built(lines_of(s), hash, p, run, t1),
                _ => built(Seq::empty(), hash, p, run, t1),
            }
        },
        _ => refused(a.as_failure(), t1),
    }
}

fn do_stat(args: &[String], p: Place, run: Run, talk: &mut Talk) -> (r: Result<Run, bool>)
    ensures
        run_outcome(r, final(talk)@) == stat_stage(text::texts(args@), p, run.with(old(talk)@)),
        r matches Ok(after) ==> after.launched == run.launched,
{
    let a = talk.ask(Request::Stage(StageCall::StatArguments(copy_texts(args))));
    match a {
        Answer::Words(files, hash) => {
            assert(text::texts(files@).len() == files@.len());
            if files.len() > 0 {
                return build(files, hash, p, run, talk);
            }
            let list = match &run.carry {
                Carry::Files(set) => {
                    if hash.is_none() {
                        let same_set = set.copy();
                        return Ok(finish_fileset_stage(same_set, p, run, talk));
                    }
                    list_paths(set)
                },
                Carry::Bytes(s) => list_lines(s.as_str()),
                _ => {
                    let none: Vec<String> = Vec::new();
                    assert(text::texts(none@) =~= Seq::<Seq<char>>::empty());
                    none
                },
            };
            build(list, hash, p, run, talk)
        },
        _ => {
            let e = a.into_failure();
            refuse(e.as_str(), talk)
        },
    }
}

/// What writing a table as text gives.
pub open spec fn to_stage(csv: bool, p: Place, run: RunView) -> Outcome {
    let rows = match run.carry {
        CarryView::Rows(rows) => Some(rows),
        CarryView::Files(set) => Some(fileset::table_of(set)),
        _ => None,
    };
    match rows {
        Some(r) => {
            let (a, t1) = dialog::asked(
                run.talk,
                RequestView::Stage(
                    if csv {
                        StageCallView::ToCsv(r)
                    } else {
                        StageCallView::ToJson(r)
                    },
                ),
            );
            Ok(
                emitted(
                    if csv {
                        a.as_text()
                    } else {
                        a.as_text() + "\n"@
                    },
                    p,
                    run,
                    t1,
                ),
            )
        },
        None => refused(
            if run.carry is Nothing {
                if csv {
                    "to-csv: no table piped in (pipe through 'from-json'/'from-csv' first)"@
                } else {
                    "to-json: no table piped in (pipe through 'from-json' first)"@
                }
            } else if csv {
                "to-csv: expected a table (pipe through 'from-json'/'select' first)"@
            } else {
                "to-json: expected a table (pipe through 'from-json'/'select' first)"@
            },
            run.talk,
        ),
    }
}

fn do_to(csv: bool, p: Place, run: Run, talk: &mut Talk) -> (r: Result<Run, bool>)
    ensures
        run_outcome(r, final(talk)@) == to_stage(csv, p, run.with(old(talk)@)),
        r matches Ok(after) ==> after.launched == run.launched,
{
    let rows = match &run.carry {
        Carry::Rows(rows) => rows.copy(),
        Carry::Files(set) => set.to_table(),
        Carry::Nothing => return refuse(
            if csv {
                "to-csv: no table piped in (pipe through 'from-json'/'from-csv' first)"
            } else {
                "to-json: no table piped in (pipe through 'from-json' first)"
            },
            talk,
        ),
        _ => return refuse(
            if csv {
                "to-csv: expected a table (pipe through 'from-json'/'select' first)"
            } else {
                "to-json: expected a table (pipe through 'from-json'/'select' first)"
            },
            talk,
        ),
    };
    let call = if csv {
        StageCall::ToCsv(rows)
    } else {
        StageCall::ToJson(rows)
    };
    let s = talk.ask(Request::Stage(call)).into_text();
    let line = if csv {
        s
    } else {
        cat2(s.as_str(), "\n")
    };
    Ok(emit(line, p, run, talk))
}

// ---------------------------------------------------------------------------
// Programs
// ---------------------------------------------------------------------------

/// A stage whose command was not found.
pub open spec fn unknown(name: Seq<char>, t: TalkView) -> Outcome {
    Err(
        Stopped {
            not_found: true,
            talk: dialog::noted(t, "ion-win: command not found: "@ + name),
        },
    )
}

fn unknown_command(name: &str, talk: &mut Talk) -> (r: Result<Run, bool>)
    ensures
        run_outcome(r, final(talk)@) == unknown(name@, old(talk)@),
{
    talk.note(cat2("ion-win: command not found: ", name));
    Err(true)
}

/// What a program reads: the shell's input for the first stage, else what is
/// handed to it; a table is handed to it as text, and a set of files is not.
pub open spec fn feed_of(p: Place, run: RunView, t: TalkView) -> (Option<FeedView>, TalkView) {
    match run.carry {
        CarryView::Nothing => (
            Some(
                if p.first {
                    FeedView::Inherit
                } else {
                    FeedView::Empty
                },
            ),
            t,
        ),
        CarryView::Output(n) => (Some(FeedView::Output(n)), t),
        CarryView::Errors(n) => (Some(FeedView::Errors(n)), t),
        CarryView::Both(n) => (Some(FeedView::Both(n)), t),
        CarryView::Bytes(s) => (Some(FeedView::Text(s)), t),
        CarryView::Rows(rows) => {
            let (s, t1) = json_text(rows, t);
            (Some(FeedView::Text(s)), t1)
        },
        CarryView::Files(set) => (None, t),
    }
}

/// Whether a program's standard output is piped.
pub open spec fn output_piped(p: Place) -> bool {
    p.out is None && !p.last
}

/// Whether a program's standard error is piped.
pub open spec fn errors_piped(p: Place) -> bool {
    p.err is None && !p.last && (p.pipe == Some(PipeKind::Stderr) || p.pipe == Some(
        PipeKind::Combined,
    ))
}

/// Where a stream goes.
pub open spec fn sink_of(file: Option<u64>, piped: bool) -> Sink {
    match file {
        Some(h) => Sink::File(h),
        None => if piped {
            Sink::Pipe
        } else {
            Sink::Inherit
        },
    }
}

fn choose_sink(file: Option<u64>, piped: bool) -> (r: Sink)
    ensures
        r == sink_of(file, piped),
{
    match file {
        Some(h) => Sink::File(h),
        None => if piped {
            Sink::Pipe
        } else {
            Sink::Inherit
        },
    }
}

/// What a launched program hands on.
pub open spec fn handed_on(child: u64, p: Place, t: TalkView) -> (CarryView, TalkView) {
    match p.pipe {
        None => (CarryView::Nothing, t),
        Some(PipeKind::Stdout) => if !output_piped(p) {
            (CarryView::Nothing, t)
        } else if p.read_next {
            let (a, t1) = dialog::asked(t, RequestView::Stage(StageCallView::Drain(child)));
            (CarryView::Bytes(a.as_text()), t1)
        } else {
            (CarryView::Output(child), t)
        },
        Some(PipeKind::Stderr) => (
            if errors_piped(p) {
                CarryView::Errors(child)
            } else {
                CarryView::Nothing
            },
            t,
        ),
        Some(PipeKind::Combined) => (
            if output_piped(p) && errors_piped(p) {
                CarryView::Both(child)
            } else {
                CarryView::Nothing
            },
            t,
        ),
    }
}

fn hand_on(child: u64, p: Place, talk: &mut Talk) -> (r: Carry)
    ensures
        (r@, final(talk)@) == handed_on(child, p, old(talk)@),
{
    let out = p.out.is_none() && !p.last;
    match p.pipe {
        None => Carry::Nothing,
        Some(PipeKind::Stdout) => if !out {
            Carry::Nothing
        } else if p.read_next {
            let s = talk.ask(Request::Stage(StageCall::Drain(child))).into_text();
            Carry::Bytes(s)
        } else {
            Carry::Output(child)
        },
        Some(PipeKind::Stderr) => if p.err.is_none() && !p.last {
            Carry::Errors(child)
        } else {
            Carry::Nothing
        },
        Some(PipeKind::Combined) => if out && p.err.is_none() && !p.last {
            Carry::Both(child)
        } else {
            Carry::Nothing
        },
    }
}

/// What a program gives, once it is launched.
pub open spec fn launched_stage(args: Seq<Seq<char>>, child: u64, p: Place, run: RunView, t: TalkView) -> Outcome {
    let (r, t1) = if p.registered {
        dialog::tried(
            t,
            RequestView::Stage(StageCallView::Register(child, text::joined(args, " "@))),
        )
    } else {
        (Ok(()), t)
    };
    match r {
        Err(e) => refused("could not register pipeline process: "@ + e, t1),
        Ok(_) => {
            let (carry, t2) = handed_on(child, p, t1);
            Ok(RunView { carry, launched: run.launched + 1, talk: t2, ..run })
        },
    }
}

/// What a program gives: it is looked for, launched with its streams
/// connected, and registered.
pub open spec fn external_stage(args: Seq<Seq<char>>, p: Place, run: RunView) -> Outcome {
    let (found, t1) = command_resolver::resolved(args[0], run.talk);
    match found {
        None => unknown(args[0], t1),
        Some(program) => {
            let (feed, t2) = feed_of(p, run, t1);
            match feed {
                None => refused(
                    "typed FileSet cannot be passed to an external command; convert it with 'to-json' or 'to-csv'"@,
                    t2,
                ),
                Some(f) => {
                    let (a, t3) = dialog::asked(
                        t2,
                        RequestView::Stage(
                            StageCallView::Launch(
                                program,
                                args.skip(1),
                                f,
                                sink_of(p.out, output_piped(p)),
                                sink_of(p.err, errors_piped(p)),
                            ),
                        ),
                    );
                    match a {
                        AnswerView::Number(child) => launched_stage(args, child, p, run, t3),
                        AnswerView::Failure(e) => refused(
                            "failed to run '"@ + args[0] + "': "@ + e,
                            t3,
                        ),
                        _ => unknown(args[0], t3),
                    }
                },
            }
        },
    }
}

fn choose_feed(p: Place, run: &Run, talk: &mut Talk) -> (r: Option<Feed>)
    ensures
        (match r {
            Some(f) => Some(f@),
            None => None,
        }, final(talk)@) == feed_of(p, run.with(old(talk)@), old(talk)@),
{
    match &run.carry {
        Carry::Nothing => Some(
            if p.first {
                Feed::Inherit
            } else {
                Feed::Empty
            },
        ),
        Carry::Output(n) => Some(Feed::Output(*n)),
        Carry::Errors(n) => Some(Feed::Errors(*n)),
        Carry::Both(n) => Some(Feed::Both(*n)),
        Carry::Bytes(s) => Some(Feed::Text(s.clone())),
        Carry::Rows(rows) => {
            let s = write_json(rows.copy(), talk);
            Some(Feed::Text(s))
        },
        Carry::Files(_) => None,
    }
}

fn do_external(args: &[String], p: Place, run: Run, talk: &mut Talk) -> (r: Result<Run, bool>)
    requires
        args@.len() > 0,
        run.launched < u64::MAX,
    ensures
        run_outcome(r, final(talk)@) == external_stage(
            text::texts(args@),
            p,
            run.with(old(talk)@),
        ),
        r matches Ok(after) ==> after.launched <= run.launched + 1,
{
    let mut run = run;
    let ghost all = text::texts(args@);
    assert(all[0] == args@[0]@);
    let name = args[0].as_str();
    let program = match command_resolver::resolve(name, talk) {
        None => return unknown_command(name, talk),
        Some(f) => f,
    };
    let feed = match choose_feed(p, &run, talk) {
        None => return refuse(
            "typed FileSet cannot be passed to an external command; convert it with 'to-json' or 'to-csv'",
            talk,
        ),
        Some(f) => f,
    };
    let out_piped = p.out.is_none() && !p.last;
    let to_pipe = match p.pipe {
        Some(PipeKind::Stderr) => true,
        Some(PipeKind::Combined) => true,
        _ => false,
    };
    let err_piped = p.err.is_none() && !p.last && to_pipe;
    let a = talk.ask(
        Request::Stage(
            StageCall::Launch(
                program,
                tail_texts(args, 1),
                feed,
                choose_sink(p.out, out_piped),
                choose_sink(p.err, err_piped),
            ),
        ),
    );
    let child = match a {
        Answer::Number(child) => child,
        Answer::Failure(e) => {
            let m = cat4("failed to run '", name, "': ", e.as_str());
            return refuse(m.as_str(), talk);
        },
        _ => return unknown_command(name, talk),
    };
    if p.registered {
        let display = join_texts(args, " ");
        match talk.attempt(Request::Stage(StageCall::Register(child, display))) {
            Err(e) => {
                let m = cat2("could not register pipeline process: ", e.as_str());
                return refuse(m.as_str(), talk);
            },
            Ok(_) => {},
        }
    }
    run.carry = hand_on(child, p, talk);
    run.launched = run.launched + 1;
    Ok(run)
}

// ---------------------------------------------------------------------------
// The run
// ---------------------------------------------------------------------------

/// What a stage gives.
pub open spec fn stage_run(k: KindView, p: Place, run: RunView) -> Outcome {
    match k {
        KindView::Echo(words, bare) => echo_stage(words, bare, p, run),
        KindView::Cat(files) => cat_stage(files, p, run),
        KindView::Find(args) => find_stage(args, p, run),
        KindView::ListEntries(name, args) => list_stage(name, args, p, run),
        KindView::Copy(args) => copy_stage(args, p, run),
        KindView::Move(args) => move_stage(args, p, run),
        KindView::Compress(args) => compress_stage(args, p, run),
        KindView::Delete(args) => delete_stage(args, p, run),
        KindView::External(args) => external_stage(args, p, run),
        KindView::FromJson => from_stage(false, p, run),
        KindView::ToJson => to_stage(false, p, run),
        KindView::FromCsv => from_stage(true, p, run),
        KindView::ToCsv => to_stage(true, p, run),
        KindView::Select(columns) => select_stage(columns, p, run),
        KindView::Where(args) => where_stage(args, p, run),
        KindView::DateColumn(args) => date_stage(args, p, run),
        KindView::Stat(args) => stat_stage(args, p, run),
        KindView::TableSource(rows) => Ok(table_finished(rows, p, run, run.talk)),
        KindView::FileSetSource(set) => Ok(set_finished(set, p, run, run.talk)),
        KindView::Unsupported(name) => Err(Stopped { not_found: false, talk: run.talk }),
    }
}

/// Whether a stage can be run: a program has a name.
pub open spec fn runnable(k: KindView) -> bool {
    k matches KindView::External(args) ==> args.len() > 0
}

#[verifier::rlimit(40)]
#[verifier::spinoff_prover]
fn run_stage(k: &Kind, p: Place, run: Run, talk: &mut Talk) -> (r: Result<Run, bool>)
    requires
        runnable(k@),
        run.launched < u64::MAX,
    ensures
        run_outcome(r, final(talk)@) == stage_run(k@, p, run.with(old(talk)@)),
        r matches Ok(after) ==> after.launched <= run.launched + 1,
{
    match k {
        Kind::Echo(words, bare) => do_echo(words, *bare, p, run, talk),
        Kind::Cat(files) => do_cat(files, p, run, talk),
        Kind::Find(args) => do_find(args, p, run, talk),
        Kind::ListEntries(name, args) => do_list(name.as_str(), args, p, run, talk),
        Kind::Copy(args) => do_copy(args, p, run, talk),
        Kind::Move(args) => do_move(args, p, run, talk),
        Kind::Compress(args) => do_compress(args, p, run, talk),
        Kind::Delete(args) => do_delete(args, p, run, talk),
        Kind::External(args) => do_external(args, p, run, talk),
        Kind::FromJson => do_from(false, p, run, talk),
        Kind::ToJson => do_to(false, p, run, talk),
        Kind::FromCsv => do_from(true, p, run, talk),
        Kind::ToCsv => do_to(true, p, run, talk),
        Kind::Select(columns) => do_select(columns, p, run, talk),
        Kind::Where(args) => do_where(args, p, run, talk),
        Kind::DateColumn(args) => do_date(args, p, run, talk),
        Kind::Stat(args) => do_stat(args, p, run, talk),
        Kind::TableSource(rows) => Ok(finish_table_stage(rows.copy(), p, run, talk)),
        Kind::FileSetSource(set) => Ok(finish_fileset_stage(set.copy(), p, run, talk)),
        Kind::Unsupported(_) => Err(false),
    }
}

/// What the stages from `i` on give.
pub open spec fn stages_run(
    kinds: Seq<KindView>,
    line: PipelineView,
    i: int,
    capture: bool,
    registered: bool,
    run: RunView,
) -> Outcome
    decreases kinds.len() - i,
{
    if i < 0 || i >= kinds.len() {
        Ok(run)
    } else {
        let (targets, t1) = stage_targets(line.stages[i].redirects, run.talk);
        match targets {
            Err(e) => refused("redirection error: "@ + e, t1),
            Ok((out, err)) => {
                let p = Place {
                    first: i == 0,
                    last: i == kinds.len() - 1,
                    out,
                    err,
                    pipe: if i < line.pipes.len() {
                        Some(line.pipes[i])
                    } else {
                        None
                    },
                    read_next: needs_input(kinds, i + 1),
                    capture,
                    registered,
                };
                match stage_run(kinds[i], p, RunView { talk: t1, ..run }) {
                    Err(s) => Err(s),
                    Ok(after) => stages_run(kinds, line, i + 1, capture, registered, after),
                }
            },
        }
    }
}

fn run_stages(
    kinds: &[Kind],
    line: &Pipeline,
    capture: bool,
    registered: bool,
    talk: &mut Talk,
) -> (r: Result<Run, bool>)
    requires
        kinds@.len() == line.stages@.len(),
        forall|i: int| 0 <= i < kinds@.len() ==> runnable((#[trigger] kinds@[i])@),
    ensures
        run_outcome(r, final(talk)@) == stages_run(
            kind_views(kinds@),
            line@,
            0,
            capture,
            registered,
            RunView {
                carry: CarryView::Nothing,
                launched: 0,
                captured: None,
                talk: old(talk)@,
            },
        ),
{
    let ghost all = kind_views(kinds@);
    let mut run = Run { carry: Carry::Nothing, launched: 0, captured: None };
    let ghost whole = stages_run(all, line@, 0, capture, registered, run.with(talk@));
    let mut i: usize = 0;
    while i < kinds.len()
        invariant
            i <= kinds@.len(),
            kinds@.len() == line.stages@.len(),
            all == kind_views(kinds@),
            forall|k: int| 0 <= k < kinds@.len() ==> runnable((#[trigger] kinds@[k])@),
            run.launched <= i,
            whole == stages_run(
                all,
                line@,
                0,
                capture,
                registered,
                RunView {
                    carry: CarryView::Nothing,
                    launched: 0,
                    captured: None,
                    talk: old(talk)@,
                },
            ),
            whole == stages_run(all, line@, i as int, capture, registered, run.with(talk@)),
        decreases kinds@.len() - i,
    {
        assert(all[i as int] == kinds@[i as int]@);
        assert(line@.stages[i as int] == line.stages@[i as int]@);
        let (out, err) = match resolve_stage_stdio(&line.stages[i].redirects, talk) {
            Err(e) => {
                let m = cat2("redirection error: ", e.as_str());
                return refuse(m.as_str(), talk);
            },
            Ok(v) => v,
        };
        let pipe = if i < line.pipes.len() {
            Some(line.pipes[i])
        } else {
            None
        };
        let p = Place {
            first: i == 0,
            last: i == kinds.len() - 1,
            out,
            err,
            pipe,
            read_next: next_stage_needs_materialized_input(kinds, i + 1),
            capture,
            registered,
        };
        assert(kinds.len() <= usize::MAX);
        match run_stage(&kinds[i], p, run, talk) {
            Err(not_found) => return Err(not_found),
            Ok(after) => {
                run = after;
            },
        }
        i = i + 1;
    }
    Ok(run)
}

/// How a pipeline went.
#[derive(Debug, Clone, PartialEq, Eq)]
pub struct Finished {
    pub ok: bool,
    /// A command was not found.
    pub not_found: bool,
    pub captured: Option<CapturedStructured>,
}

/// How a pipeline went.
pub struct FinishedView {
    pub ok: bool,
    pub not_found: bool,
    pub captured: Option<CapturedView>,
}

impl View for Finished {
    type V = FinishedView;

    open spec fn view(&self) -> FinishedView {
        FinishedView {
            ok: self.ok,
            not_found: self.not_found,
            captured: opt_captured(self.captured),
        }
    }
}

/// A pipeline that ended before its programs did, well or not.
pub open spec fn ended(ok: bool) -> FinishedView {
    FinishedView { ok, not_found: false, captured: None }
}

fn end(ok: bool) -> (r: Finished)
    ensures
        r@ == ended(ok),
{
    Finished { ok, not_found: false, captured: None }
}

/// The first stage from `i` on that cannot stand in a pipeline.
pub open spec fn first_unsupported(kinds: Seq<KindView>, i: int) -> Option<Seq<char>>
    decreases kinds.len() - i,
{
    if i < 0 || i >= kinds.len() {
        None
    } else {
        match kinds[i] {
            KindView::Unsupported(name) => Some(name),
            _ => first_unsupported(kinds, i + 1),
        }
    }
}

fn find_unsupported(kinds: &[Kind]) -> (r: Option<String>)
    ensures
        fileset::opt_text(r) == first_unsupported(kind_views(kinds@), 0),
{
    let ghost all = kind_views(kinds@);
    let mut i: usize = 0;
    while i < kinds.len()
        invariant
            i <= kinds@.len(),
            all == kind_views(kinds@),
            first_unsupported(all, 0) == first_unsupported(all, i as int),
        decreases kinds@.len() - i,
    {
        assert(all[i as int] == kinds@[i as int]@);
        match &kinds[i] {
            Kind::Unsupported(name) => return Some(name.clone()),
            _ => {},
        }
        i = i + 1;
    }
    None
}

/// What the end of a pipeline gives, once its stages are run: a background
/// one is handed over, a foreground one is waited for.
pub open spec fn concluded(line: PipelineView, run: RunView) -> (FinishedView, TalkView) {
    if line.background || line.disown {
        let (kept, t1) = if line.background {
            dialog::tried(run.talk, RequestView::Stage(StageCallView::Retain))
        } else {
            (Ok(()), run.talk)
        };
        match kept {
            Err(e) => (
                FinishedView { captured: run.captured, ..ended(false) },
                dialog::noted(
                    dialog::told(t1, StageCallView::Abandon(e)),
                    "ion-win: could not retain background pipeline: "@ + e,
                ),
            ),
            Ok(_) => (
                FinishedView { captured: run.captured, ..ended(true) },
                dialog::told(
                    t1,
                    StageCallView::Print(
                        "ion-win: [bg] started "@ + text::nat_text(run.launched)
                            + " process(es)\n"@,
                    ),
                ),
            ),
        }
    } else {
        let (a, t1) = dialog::asked(run.talk, RequestView::Stage(StageCallView::Wait));
        (FinishedView { captured: run.captured, ..ended(a.as_truth()) }, t1)
    }
}

fn conclude(line: &Pipeline, run: Run, talk: &mut Talk) -> (r: Finished)
    ensures
        (r@, final(talk)@) == concluded(line@, run.with(old(talk)@)),
{
    if line.background || line.disown {
        if line.background {
            match talk.attempt(Request::Stage(StageCall::Retain)) {
                Err(e) => {
                    talk.tell(StageCall::Abandon(e.clone()));
                    talk.note(
                        cat2("ion-win: could not retain background pipeline: ", e.as_str()),
                    );
                    return Finished { ok: false, not_found: false, captured: run.captured };
                },
                Ok(_) => {},
            }
        }
        let n = u64_text(run.launched);
        talk.tell(
            StageCall::Print(cat3("ion-win: [bg] started ", n.as_str(), " process(es)\n")),
        );
        return Finished { ok: true, not_found: false, captured: run.captured };
    }
    let ok = talk.ask(Request::Stage(StageCall::Wait)).truth();
    Finished { ok, not_found: false, captured: run.captured }
}

/// Whether a pipeline holds no command at all.
pub open spec fn is_blank(line: PipelineView) -> bool {
    forall|i: int| 0 <= i < line.stages.len() ==> (#[trigger] line.stages[i]).tokens.len() == 0
}

fn blank(line: &Pipeline) -> (r: bool)
    ensures
        r == is_blank(line@),
{
    let mut i: usize = 0;
    while i < line.stages.len()
        invariant
            i <= line.stages@.len(),
            forall|k: int| 0 <= k < i ==> (#[trigger] line@.stages[k]).tokens.len() == 0,
        decreases line.stages@.len() - i,
    {
        assert(line@.stages[i as int] == line.stages@[i as int]@);
        assert(line@.stages[i as int].tokens.len() == line.stages@[i as int].tokens@.len());
        if line.stages[i].tokens.len() > 0 {
            return false;
        }
        i = i + 1;
    }
    true
}

/// What a pipeline whose stages are told apart gives.
pub open spec fn kinds_run(kinds: Seq<KindView>, line: PipelineView, capture: bool, t: TalkView) -> (
    FinishedView,
    TalkView,
) {
    match first_unsupported(kinds, 0) {
        Some(name) => if name.len() == 0 {
            (ended(false), dialog::noted(t, "ion-win: empty command in pipeline"@))
        } else {
            (
                ended(false),
                dialog::told(
                    t,
                    StageCallView::Print(
                        "ion-win: '"@ + name
                            + "': piping/redirection is only supported for 'echo' and external commands so far, not this builtin\n"@,
                    ),
                ),
            )
        },
        None => {
            let registered = line.background || !line.disown;
            let (begun, t1) = if registered {
                dialog::tried(
                    t,
                    RequestView::Stage(
                        StageCallView::Begin(
                            shown(line, line.stages.len() as int),
                            line.background,
                        ),
                    ),
                )
            } else {
                (Ok(()), t)
            };
            match begun {
                Err(e) => (
                    ended(false),
                    dialog::noted(
                        t1,
                        (if line.background {
                            "ion-win: could not register background pipeline: "@
                        } else {
                            "ion-win: could not register foreground pipeline: "@
                        }) + e,
                    ),
                ),
                Ok(_) => match stages_run(
                    kinds,
                    line,
                    0,
                    capture,
                    registered,
                    RunView {
                        carry: CarryView::Nothing,
                        launched: 0,
                        captured: None,
                        talk: t1,
                    },
                ) {
                    Err(s) => (
                        FinishedView { ok: false, not_found: s.not_found, captured: None },
                        if registered {
                            dialog::told(
                                s.talk,
                                StageCallView::Abandon("pipeline setup failed"@),
                            )
                        } else {
                            s.talk
                        },
                    ),
                    Ok(run) => concluded(line, run),
                },
            }
        },
    }
}

/// What running a pipeline gives. It succeeds as its last program does, at
/// once when it is put into the background, and trivially when it is blank.
pub open spec fn pipeline_run(st: InterpView, line: PipelineView, capture: bool, t: TalkView) -> (
    FinishedView,
    TalkView,
) {
    if is_blank(line) {
        (ended(true), t)
    } else {
        let (kinds, t1) = kinds_of(st, line.stages, line.stages.len() as int, t);
        kinds_run(kinds, line, capture, t1)
    }
}

proof fn lemma_kinds_runnable(st: InterpView, stages: Seq<StageView>, n: int, t: TalkView)
    requires
        0 <= n <= stages.len(),
    ensures
        forall|i: int|
            0 <= i < kinds_of(st, stages, n, t).0.len() ==> runnable(
                #[trigger] kinds_of(st, stages, n, t).0[i],
            ),
    decreases n,
{
    if n > 0 {
        lemma_kinds_runnable(st, stages, n - 1, t);
        let (before, t1) = kinds_of(st, stages, n - 1, t);
        let toks = stages[n - 1].tokens;
        let (args, t2) = interp::all_expanded(st.vars(), toks, toks.len(), t1);
        assert(runnable(kind_of(st, args, t2).0));
        let whole = kinds_of(st, stages, n, t).0;
        assert forall|i: int| 0 <= i < whole.len() implies runnable(#[trigger] whole[i]) by {
            if i < before.len() {
                assert(whole[i] == before[i]);
            }
        }
    }
}

/// Runs a pipeline. With `capture`, a table or a set of files that its last
/// stage produces is returned instead of shown.
pub fn run_impl(line: &Pipeline, interp: &Interpreter, capture: bool, talk: &mut Talk) -> (r: Finished)
    ensures
        (r@, final(talk)@) == pipeline_run(interp@, line@, capture, old(talk)@),
{
    if blank(line) {
        return end(true);
    }
    let ghost named = kinds_of(interp@, line@.stages, line@.stages.len() as int, talk@).0;
    proof {
        lemma_kinds_runnable(interp@, line@.stages, line@.stages.len() as int, talk@);
        assert(forall|i: int| 0 <= i < named.len() ==> runnable(#[trigger] named[i]));
    }
    let kinds = classify_stages(line, interp, talk);
    let ghost all = kind_views(kinds@);
    assert forall|i: int| 0 <= i < kinds@.len() implies runnable((#[trigger] kinds@[i])@) by {
        assert(all[i] == kinds@[i]@);
        assert(named[i] == all[i]);
    }
    match find_unsupported(&kinds) {
        Some(name) => {
            if name.as_str().is_empty() {
                talk.note("ion-win: empty command in pipeline".to_owned());
            } else {
                talk.tell(
                    StageCall::Print(
                        cat3(
                            "ion-win: '",
                            name.as_str(),
                            "': piping/redirection is only supported for 'echo' and external commands so far, not this builtin\n",
                        ),
                    ),
                );
            }
            return end(false);
        },
        None => {},
    }
    let registered = line.background || !line.disown;
    if registered {
        let display = pipeline_display(line);
        match talk.attempt(Request::Stage(StageCall::Begin(display, line.background))) {
            Err(e) => {
                talk.note(
                    cat2(
                        if line.background {
                            "ion-win: could not register background pipeline: "
                        } else {
                            "ion-win: could not register foreground pipeline: "
                        },
                        e.as_str(),
                    ),
                );
                return end(false);
            },
            Ok(_) => {},
        }
    }
    match run_stages(&kinds, line, capture, registered, talk) {
        Err(not_found) => {
            if registered {
                talk.tell(StageCall::Abandon("pipeline setup failed".to_owned()));
            }
            Finished { ok: false, not_found, captured: None }
        },
        Ok(run) => conclude(line, run, talk),
    }
}

/// What an interpreter holds once a pipeline has ended: that a command was
/// not found stays noted in it.
pub open spec fn marked(st: InterpView, f: FinishedView) -> InterpView {
    InterpView { not_found: st.not_found || f.not_found, ..st }
}

/// Runs a pipeline and tells whether it succeeded. A command that is not
/// found is noted in the interpreter.
pub fn run(line: &Pipeline, interp: &mut Interpreter, talk: &mut Talk) -> (r: bool)
    ensures
        r == pipeline_run(old(interp)@, line@, false, old(talk)@).0.ok,
        final(interp)@ == marked(
            old(interp)@,
            pipeline_run(old(interp)@, line@, false, old(talk)@).0,
        ),
        final(talk)@ == pipeline_run(old(interp)@, line@, false, old(talk)@).1,
{
    let f = run_impl(line, interp, false, talk);
    if f.not_found {
        interp.mark_command_not_found();
    }
    f.ok
}

/// Runs a pipeline, tells whether it succeeded, and returns the table or set
/// of files that it ends in. A command that is not found is noted in the
/// interpreter.
pub fn run_capturing_table(line: &Pipeline, interp: &mut Interpreter, talk: &mut Talk) -> (r: (
    bool,
    Option<CapturedStructured>,
))
    ensures
        ({
            let (f, t1) = pipeline_run(old(interp)@, line@, true, old(talk)@);
            &&& r.0 == f.ok
            &&& opt_captured(r.1) == f.captured
            &&& final(interp)@ == marked(old(interp)@, f)
            &&& final(talk)@ == t1
        }),
{
    let f = run_impl(line, interp, true, talk);
    if f.not_found {
        interp.mark_command_not_found();
    }
    (f.ok, f.captured)
}

// ---------------------------------------------------------------------------
// Laws
// ---------------------------------------------------------------------------

/// A pipeline with a stage that cannot stand in one does nothing but report
/// it: no program is launched and no file is opened.
pub proof fn law_unsupported_stage_runs_nothing(
    kinds: Seq<KindView>,
    line: PipelineView,
    capture: bool,
    t: TalkView,
)
    requires
        first_unsupported(kinds, 0) is Some,
    ensures
        !kinds_run(kinds, line, capture, t).0.ok,
        kinds_run(kinds, line, capture, t).0.captured is None,
        first_unsupported(kinds, 0)->0.len() == 0 ==> kinds_run(kinds, line, capture, t).1
            == dialog::noted(t, "ion-win: empty command in pipeline"@),
{
}

/// The last redirection of a stream wins, and one of both streams counts for
/// each.
pub proof fn law_last_redirection_wins(list: Seq<RedirectView>, r: RedirectView)
    ensures
        r.stream == Stream::Stdout ==> output_pick(list.push(r), list.len() as int + 1) == Some(
            list.len() as int,
        ),
        r.stream == Stream::Stderr ==> error_pick(list.push(r), list.len() as int + 1) == Some(
            list.len() as int,
        ),
        r.stream == Stream::Combined ==> output_pick(list.push(r), list.len() as int + 1) == Some(
            list.len() as int,
        ) && error_pick(list.push(r), list.len() as int + 1) == Some(list.len() as int),
{
}

/// A set of files never reaches a program: the stage is refused before
/// anything is launched.
pub proof fn law_no_program_gets_a_fileset(args: Seq<Seq<char>>, p: Place, run: RunView)
    requires
        run.carry is Files,
    ensures
        external_stage(args, p, run) is Err,
        external_stage(args, p, run)->Err_0.talk.next == command_resolver::resolved(
            args[0],
            run.talk,
        ).1.next,
{
}

/// Explicit sources win: `copy` with sources of its own does the same
/// whatever is handed to it, and hands nothing on.
pub proof fn law_explicit_sources_win(args: Seq<Seq<char>>, p: Place, run: RunView, other: CarryView)
    requires
        copy::copy_flags(args) matches Ok((force, rest)) && rest.len() >= 2,
    ensures
        copy_stage(args, p, run) == copy_stage(args, p, RunView { carry: other, ..run }),
        copy_stage(args, p, run) matches Ok(after) && after.carry is Nothing,
{
}

/// Whether `a` is the last place of a redirection that names a stream, which
/// all but those of the other stream do, or there is none.
pub open spec fn last_naming(list: Seq<RedirectView>, other: Stream, a: Option<int>) -> bool {
    match a {
        None => forall|k: int| 0 <= k < list.len() ==> (#[trigger] list[k]).stream == other,
        Some(i) => 0 <= i < list.len() && list[i].stream != other && forall|k: int|
            i < k < list.len() ==> (#[trigger] list[k]).stream == other,
    }
}

proof fn lemma_picks(list: Seq<RedirectView>, n: int, a: Option<int>, b: Option<int>)
    requires
        0 <= n <= list.len(),
        last_naming(list, Stream::Stderr, a),
        last_naming(list, Stream::Stdout, b),
        a matches Some(i) ==> i < n,
        b matches Some(i) ==> i < n,
    ensures
        output_pick(list, n) == a,
        error_pick(list, n) == b,
    decreases n,
{
    lemma_output_pick(list, n, a);
    lemma_error_pick(list, n, b);
}

proof fn lemma_output_pick(list: Seq<RedirectView>, n: int, a: Option<int>)
    requires
        0 <= n <= list.len(),
        last_naming(list, Stream::Stderr, a),
        a matches Some(i) ==> i < n,
    ensures
        output_pick(list, n) == a,
    decreases n,
{
    if n > 0 && a != Some(n - 1) {
        lemma_output_pick(list, n - 1, a);
    }
}

proof fn lemma_error_pick(list: Seq<RedirectView>, n: int, b: Option<int>)
    requires
        0 <= n <= list.len(),
        last_naming(list, Stream::Stdout, b),
        b matches Some(i) ==> i < n,
    ensures
        error_pick(list, n) == b,
    decreases n,
{
    if n > 0 && b != Some(n - 1) {
        lemma_error_pick(list, n - 1, b);
    }
}

/// A stream that no redirection names has no file, and nothing is opened for
/// it. A stream that some redirection names has the handle that was answered
/// when the path of the last such one was opened, or, where that one takes
/// the standard output too, the handle that was answered when that file was
/// shared. What is not answered by a handle is an error.
pub proof fn law_streams_go_where_they_are_sent(
    list: Seq<RedirectView>,
    a: Option<int>,
    b: Option<int>,
    t: TalkView,
)
    requires
        last_naming(list, Stream::Stderr, a),
        last_naming(list, Stream::Stdout, b),
        t.pending is None,
        0 <= t.next,
        t.next + 2 <= t.answers.len(),
    ensures
        ({
            let (r, t2) = stage_targets(list, t);
            let (first, second) = (t.answers[t.next], t.answers[t.next + 1]);
            let opening = |i: int|
                RequestView::Stage(StageCallView::OpenTarget(list[i].path, list[i].append));
            match (a, b) {
                (None, None) => r == Ok::<(Option<u64>, Option<u64>), Seq<char>>((None, None)) && t2
                    == t,
                (None, Some(j)) => {
                    &&& t2.made == t.made.push(opening(j))
                    &&& first matches AnswerView::Number(h) ==> r == Ok::<
                        (Option<u64>, Option<u64>),
                        Seq<char>,
                    >((None, Some(h)))
                    &&& !(first is Number) ==> r is Err
                },
                (Some(i), None) => {
                    &&& t2.made == t.made.push(opening(i))
                    &&& first matches AnswerView::Number(h) ==> r == Ok::<
                        (Option<u64>, Option<u64>),
                        Seq<char>,
                    >((Some(h), None))
                    &&& !(first is Number) ==> r is Err
                },
                (Some(i), Some(j)) => {
                    &&& !(first is Number) ==> r is Err && t2.made == t.made.push(opening(i))
                    &&& first matches AnswerView::Number(h) ==> {
                        &&& t2.made == t.made.push(opening(i)).push(
                            if i == j {
                                RequestView::Stage(StageCallView::ShareTarget(h))
                            } else {
                                opening(j)
                            },
                        )
                        &&& second matches AnswerView::Number(k) ==> r == Ok::<
                            (Option<u64>, Option<u64>),
                            Seq<char>,
                        >((Some(h), Some(k)))
                        &&& !(second is Number) ==> r is Err
                    }
                },
            }
        }),
{
    lemma_picks(list, list.len() as int, a, b);
}

proof fn lemma_commands_differ()
    ensures
        "echo"@.len() == 4 && "echo"@[0] == 'e',
        "cat"@.len() == 3,
        "find"@.len() == 4 && "find"@[0] == 'f',
        "dirs"@.len() == 4 && "dirs"@[0] == 'd',
        "copy"@.len() == 4 && "copy"@[0] == 'c',
        "move"@.len() == 4 && "move"@[0] == 'm',
        "stat"@.len() == 4 && "stat"@[0] == 's',
        "files"@.len() == 5 && "files"@[0] == 'f',
        "where"@.len() == 5 && "where"@[0] == 'w',
        "folders"@.len() == 7 && "folders"@[0] == 'f',
        "to-json"@.len() == 7 && "to-json"@[0] == 't',
        "compress"@.len() == 8 && "compress"@[0] == 'c',
        "from-csv"@.len() == 8 && "from-csv"@[0] == 'f',
        "delete"@.len() == 6 && "delete"@[0] == 'd',
        "to-csv"@.len() == 6 && "to-csv"@[0] == 't',
        "select"@.len() == 6 && "select"@[0] == 's',
        "filter"@.len() == 6 && "filter"@[0] == 'f',
        "cp"@.len() == 2 && "cp"@[0] == 'c',
        "mv"@.len() == 2 && "mv"@[0] == 'm',
        "from-json"@.len() == 9,
        "date-column"@.len() == 11,
        "-n"@.len() == 2,
{
    reveal_strlit("echo");
    reveal_strlit("cat");
    reveal_strlit("find");
    reveal_strlit("dirs");
    reveal_strlit("copy");
    reveal_strlit("move");
    reveal_strlit("stat");
    reveal_strlit("files");
    reveal_strlit("where");
    reveal_strlit("folders");
    reveal_strlit("to-json");
    reveal_strlit("compress");
    reveal_strlit("from-csv");
    reveal_strlit("delete");
    reveal_strlit("to-csv");
    reveal_strlit("select");
    reveal_strlit("filter");
    reveal_strlit("cp");
    reveal_strlit("mv");
    reveal_strlit("from-json");
    reveal_strlit("date-column");
    reveal_strlit("-n");
}

/// The first word of a stage tells what it does, and the others are what it is
/// given. A word that is none of the shell's own is looked up as a variable;
/// where it holds no set or table, and is neither a function nor a builtin
/// that stays outside, it is a program.
pub proof fn law_commands_are_told_apart(
    st: InterpView,
    cmd: Seq<char>,
    rest: Seq<Seq<char>>,
    t: TalkView,
)
    ensures
        ({
            let (k, t2) = kind_of(st, seq![cmd] + rest, t);
            let own = |kind: KindView| k == kind && t2 == t;
            &&& cmd == "echo"@ && (rest.len() == 0 || rest[0] != "-n"@) ==> own(
                KindView::Echo(rest, false),
            )
            &&& cmd == "echo"@ && rest.len() > 0 && rest[0] == "-n"@ ==> own(
                KindView::Echo(rest.skip(1), true),
            )
            &&& cmd == "cat"@ ==> own(KindView::Cat(rest))
            &&& cmd == "find"@ ==> own(KindView::Find(rest))
            &&& cmd == "files"@ || cmd == "folders"@ || cmd == "dirs"@ ==> own(
                KindView::ListEntries(cmd, rest),
            )
            &&& cmd == "copy"@ || cmd == "cp"@ ==> own(KindView::Copy(rest))
            &&& cmd == "move"@ || cmd == "mv"@ ==> own(KindView::Move(rest))
            &&& cmd == "compress"@ ==> own(KindView::Compress(rest))
            &&& cmd == "delete"@ ==> own(KindView::Delete(rest))
            &&& cmd == "from-json"@ ==> own(KindView::FromJson)
            &&& cmd == "to-json"@ ==> own(KindView::ToJson)
            &&& cmd == "from-csv"@ ==> own(KindView::FromCsv)
            &&& cmd == "to-csv"@ ==> own(KindView::ToCsv)
            &&& cmd == "select"@ ==> own(KindView::Select(rest))
            &&& cmd == "where"@ || cmd == "filter"@ ==> own(KindView::Where(rest))
            &&& cmd == "date-column"@ ==> own(KindView::DateColumn(rest))
            &&& cmd == "stat"@ ==> own(KindView::Stat(rest))
            &&& !(k is External) || k == KindView::External(seq![cmd] + rest)
            &&& k is External ==> t2 == dialog::asked(
                t,
                RequestView::Stage(StageCallView::Variable(cmd)),
            ).1 && !st.functions.contains_key(cmd)
        }),
{
    lemma_commands_differ();
    let args = seq![cmd] + rest;
    assert(args[0] == cmd);
    assert(args.skip(1) =~= rest);
}

/// Where a stage's text goes: to its file where its output is redirected, and
/// nothing is handed on; else out of the shell where it is the last stage;
/// else, unwritten, to the next stage.
pub proof fn law_text_goes_one_way(
    words: Seq<Seq<char>>,
    bare: bool,
    p: Place,
    run: RunView,
)
    requires
        run.talk.pending is None,
        0 <= run.talk.next < run.talk.answers.len(),
    ensures
        ({
            let s = if bare {
                text::joined(words, " "@)
            } else {
                text::joined(words, " "@) + "\n"@
            };
            let r = stage_run(KindView::Echo(words, bare), p, run);
            r matches Ok(after) && (match p.out {
                Some(h) => after.carry is Nothing && after.talk.made == run.talk.made.push(
                    RequestView::Stage(StageCallView::Write(h, s)),
                ),
                None => if p.last {
                    after.carry is Nothing && after.talk.made == run.talk.made.push(
                        RequestView::Stage(StageCallView::Print(s)),
                    )
                } else {
                    after.carry == CarryView::Bytes(s) && after.talk == run.talk
                },
            }) && after.launched == run.launched && after.captured == run.captured
        }),
{
}

/// Text becomes a table by the format that is named, and a table becomes text
/// by the format that is named: each asks for its own, with what was handed
/// on, and hands the answer on.
pub proof fn law_formats_are_asked_for(
    s: Seq<char>,
    rows: Seq<table::RowView>,
    csv: bool,
    p: Place,
    run: RunView,
)
    requires
        run.talk.pending is None,
        0 <= run.talk.next < run.talk.answers.len(),
        p.out is None,
        !p.last,
    ensures
        ({
            let answer = run.talk.answers[run.talk.next];
            let asked_for = |r: Outcome, call: StageCallView|
                r matches Ok(after) && after.talk.made == run.talk.made.push(
                    RequestView::Stage(call),
                );
            let from = stage_run(
                if csv {
                    KindView::FromCsv
                } else {
                    KindView::FromJson
                },
                p,
                RunView { carry: CarryView::Bytes(s), ..run },
            );
            let to = stage_run(
                if csv {
                    KindView::ToCsv
                } else {
                    KindView::ToJson
                },
                p,
                RunView { carry: CarryView::Rows(rows), ..run },
            );
            &&& answer matches AnswerView::Rows(found) ==> asked_for(
                from,
                if csv {
                    StageCallView::FromCsv(s)
                } else {
                    StageCallView::FromJson(s)
                },
            ) && from->Ok_0.carry == CarryView::Rows(found)
            &&& !(answer is Rows) ==> from is Err
            &&& asked_for(
                to,
                if csv {
                    StageCallView::ToCsv(rows)
                } else {
                    StageCallView::ToJson(rows)
                },
            )
            &&& to->Ok_0.carry == CarryView::Bytes(
                if csv {
                    answer.as_text()
                } else {
                    answer.as_text() + "\n"@
                },
            )
        }),
{
}

/// A set stays a set through `select` and `where`: `select` changes the
/// columns and no file, `where` the files and no column. Neither asks for
/// anything of its own but what its comparison does.
pub proof fn law_sets_stay_sets(
    set: FileSetView,
    args: Seq<Seq<char>>,
    p: Place,
    run: RunView,
)
    requires
        run.carry == CarryView::Files(set),
        p.out is None,
        !p.last,
    ensures
        stage_run(KindView::Select(args), p, run) matches Ok(after) && after.talk == run.talk && (
        after.carry matches CarryView::Files(kept) && kept.columns == args && kept.files
            == set.files),
        args.len() == 3 && (args[1] == "="@ || args[1] == "=="@ || args[1] == "!="@ || args[1]
            == "-eq"@ || args[1] == "-ne"@ || args[1] == "-lt"@ || args[1] == "-le"@ || args[1]
            == "-gt"@ || args[1] == "-ge"@) ==> (stage_run(KindView::Where(args), p, run) matches Ok(
            after,
        ) && (after.carry matches CarryView::Files(kept) && kept.columns == set.columns
            && kept.files == fileset::files_passing(
            set.files,
            set.files.len() as int,
            args[0],
            args[1],
            args[2],
            run.talk,
        ).0)),
        args.len() != 3 ==> stage_run(KindView::Where(args), p, run) is Err,
{
}

/// A table that is wanted as a value is kept as it is and not written; else
/// the last stage writes it and the others hand it on.
pub proof fn law_tables_are_kept_where_wanted(
    rows: Seq<table::RowView>,
    set: FileSetView,
    p: Place,
    run: RunView,
)
    requires
        p.out is None,
    ensures
        ({
            let of_rows = stage_run(KindView::TableSource(rows), p, run);
            let of_set = stage_run(KindView::FileSetSource(set), p, run);
            &&& p.last && p.capture ==> (of_rows matches Ok(a) && a.captured == Some(
                CapturedView::Table(rows),
            ) && a.talk == run.talk) && (of_set matches Ok(b) && b.captured == Some(
                CapturedView::FileSet(set),
            ) && b.talk == run.talk)
            &&& p.last && !p.capture ==> (of_rows matches Ok(a) && a.captured == run.captured
                && a.talk == dialog::told(
                dialog::asked(run.talk, RequestView::Stage(StageCallView::ToJson(rows))).1,
                StageCallView::Print(
                    dialog::asked(
                        run.talk,
                        RequestView::Stage(StageCallView::ToJson(rows)),
                    ).0.as_text() + "\n"@,
                ),
            ))
            &&& !p.last ==> (of_rows matches Ok(a) && a.carry == CarryView::Rows(rows) && a.talk
                == run.talk) && (of_set matches Ok(b) && b.carry == CarryView::Files(set)
                && b.talk == run.talk)
        }),
{
}

/// Where a program reads from: the first stage from where the shell does, a
/// later one what is handed to it, and nothing where nothing is.
pub open spec fn expected_feed(carry: CarryView, first: bool, feed: FeedView) -> bool {
    match carry {
        CarryView::Nothing => feed == (if first {
            FeedView::Inherit
        } else {
            FeedView::Empty
        }),
        CarryView::Output(n) => feed == FeedView::Output(n),
        CarryView::Errors(n) => feed == FeedView::Errors(n),
        CarryView::Both(n) => feed == FeedView::Both(n),
        CarryView::Bytes(s) => feed == FeedView::Text(s),
        _ => false,
    }
}

/// A program that is found is launched with its words, reading what is handed
/// to it. Its output goes to its file where it is redirected, into the pipe
/// where a stage follows, and else where the shell's goes. Its errors go to
/// their file where they are redirected, into the pipe where that takes them,
/// and else where the shell's go.
pub proof fn law_programs_are_connected(
    args: Seq<Seq<char>>,
    program: Seq<char>,
    child: u64,
    feed: FeedView,
    p: Place,
    run: RunView,
)
    requires
        args.len() > 0,
        command_resolver::resolved(args[0], run.talk).0 == Some(program),
        expected_feed(run.carry, p.first, feed),
        ({
            let t1 = command_resolver::resolved(args[0], run.talk).1;
            t1.pending is None && 0 <= t1.next < t1.answers.len() && t1.answers[t1.next]
                == AnswerView::Number(child)
        }),
        !p.registered,
        !p.read_next,
        p.last == (p.pipe is None),
    ensures
        ({
            let t1 = command_resolver::resolved(args[0], run.talk).1;
            let out = if p.out is Some {
                Sink::File(p.out->0)
            } else if p.last {
                Sink::Inherit
            } else {
                Sink::Pipe
            };
            let err = if p.err is Some {
                Sink::File(p.err->0)
            } else if p.pipe == Some(PipeKind::Stderr) || p.pipe == Some(PipeKind::Combined) {
                Sink::Pipe
            } else {
                Sink::Inherit
            };
            stage_run(KindView::External(args), p, run) matches Ok(after) && after.launched
                == run.launched + 1 && after.talk.made == t1.made.push(
                RequestView::Stage(
                    StageCallView::Launch(program, args.skip(1), feed, out, err),
                ),
            ) && (p.pipe is None ==> after.carry is Nothing) && (p.pipe == Some(PipeKind::Stdout)
                && p.out is None ==> after.carry == CarryView::Output(child)) && (p.pipe == Some(
                PipeKind::Stderr,
            ) && p.err is None ==> after.carry == CarryView::Errors(child)) && (p.pipe == Some(
                PipeKind::Combined,
            ) && p.out is None && p.err is None ==> after.carry == CarryView::Both(child)) && (
            p.pipe == Some(PipeKind::Stdout) && p.out is Some ==> after.carry is Nothing)
        }),
{
}

/// What a program writes is read to its end where the next stage reads its
/// input itself, and handed to it as text.
pub proof fn law_output_is_drained_for_the_shell(child: u64, p: Place, t: TalkView)
    requires
        p.pipe == Some(PipeKind::Stdout),
        p.out is None,
        !p.last,
        p.read_next,
        t.pending is None,
        0 <= t.next < t.answers.len(),
    ensures
        handed_on(child, p, t).0 == CarryView::Bytes(t.answers[t.next].as_text()),
        handed_on(child, p, t).1.made == t.made.push(
            RequestView::Stage(StageCallView::Drain(child)),
        ),
{
}

/// A program that is not found, or that cannot be launched, ends the pipeline,
/// and only the first is told apart as not found.
pub proof fn law_missing_programs_end_the_pipeline(args: Seq<Seq<char>>, p: Place, run: RunView)
    requires
        args.len() > 0,
    ensures
        command_resolver::resolved(args[0], run.talk).0 is None ==> (stage_run(
            KindView::External(args),
            p,
            run,
        ) matches Err(s) && s.not_found && s.talk == dialog::noted(
            command_resolver::resolved(args[0], run.talk).1,
            "ion-win: command not found: "@ + args[0],
        )),
{
}

/// A pipeline in the foreground is waited for and succeeds as that is
/// answered. One in the background is kept and not waited for, and succeeds at
/// once; one that is let go is neither kept nor waited for.
pub proof fn law_only_the_foreground_is_waited_for(line: PipelineView, run: RunView)
    requires
        run.talk.pending is None,
        0 <= run.talk.next,
        run.talk.next + 2 <= run.talk.answers.len(),
    ensures
        ({
            let (f, t2) = concluded(line, run);
            let (first, t) = (run.talk.answers[run.talk.next], run.talk);
            let started = RequestView::Stage(
                StageCallView::Print(
                    "ion-win: [bg] started "@ + text::nat_text(run.launched) + " process(es)\n"@,
                ),
            );
            &&& f.captured == run.captured
            &&& !line.background && !line.disown ==> f.ok == first.as_truth() && t2.made
                == t.made.push(RequestView::Stage(StageCallView::Wait))
            &&& line.background && !(first is Failure) ==> f.ok && t2.made == t.made.push(
                RequestView::Stage(StageCallView::Retain),
            ).push(started)
            &&& line.background && first is Failure ==> !f.ok
            &&& !line.background && line.disown ==> f.ok && t2.made == t.made.push(started)
        }),
{
}

/// The stages run one after the other, each with what the one before hands on;
/// the first that stops is the last that is run. The first stage reads what
/// the shell does, and only the last may write where the shell does.
pub proof fn law_stages_run_in_order(
    kinds: Seq<KindView>,
    line: PipelineView,
    i: int,
    capture: bool,
    registered: bool,
    run: RunView,
)
    requires
        0 <= i < kinds.len(),
        kinds.len() == line.stages.len(),
        line.pipes.len() + 1 == line.stages.len(),
        line.stages[i].redirects.len() == 0,
    ensures
        exists|p: Place|
            p.first == (i == 0) && p.last == (i + 1 == kinds.len()) && p.out is None && p.err is None
                && p.capture == capture && p.registered == registered && (if i + 1 < kinds.len() {
                p.pipe == Some(line.pipes[i])
            } else {
                p.pipe is None
            }) && (match #[trigger] stage_run(kinds[i], p, run) {
                Err(s) => stages_run(kinds, line, i, capture, registered, run) == Err::<
                    RunView,
                    Stopped,
                >(s),
                Ok(after) => stages_run(kinds, line, i, capture, registered, run) == stages_run(
                    kinds,
                    line,
                    i + 1,
                    capture,
                    registered,
                    after,
                ),
            }),
{
    let list = line.stages[i].redirects;
    lemma_picks(list, 0, None, None);
    let p = Place {
        first: i == 0,
        last: i == kinds.len() - 1,
        out: None,
        err: None,
        pipe: if i < line.pipes.len() {
            Some(line.pipes[i])
        } else {
            None
        },
        read_next: needs_input(kinds, i + 1),
        capture,
        registered,
    };
    assert(RunView { talk: run.talk, ..run } == run);
    assert(stage_targets(list, run.talk) == (
        Ok::<(Option<u64>, Option<u64>), Seq<char>>((None, None)),
        run.talk,
    ));
    match stage_run(kinds[i], p, run) {
        Err(s) => {},
        Ok(after) => {},
    }
}

/// A line without a word does nothing and goes well.
pub proof fn law_blank_lines_do_nothing(
    st: InterpView,
    line: PipelineView,
    capture: bool,
    t: TalkView,
)
    requires
        forall|i: int| 0 <= i < line.stages.len() ==> (#[trigger] line.stages[i]).tokens.len() == 0,
    ensures
        pipeline_run(st, line, capture, t).0.ok,
        !pipeline_run(st, line, capture, t).0.not_found,
        pipeline_run(st, line, capture, t).0.captured is None,
        pipeline_run(st, line, capture, t).1 == t,
{
}

proof fn lemma_kinds_before(
    st: InterpView,
    stages: Seq<StageView>,
    more: StageView,
    n: int,
    t: TalkView,
)
    requires
        n <= stages.len(),
    ensures
        kinds_of(st, stages.push(more), n, t) == kinds_of(st, stages, n, t),
        n >= 0 ==> kinds_of(st, stages, n, t).0.len() == n,
    decreases n,
{
    if n > 0 {
        lemma_kinds_before(st, stages, more, n - 1, t);
        assert(stages.push(more)[n - 1] == stages[n - 1]);
    }
}

/// Every stage is told apart by its own words, once those of the stages before
/// it were: one more stage changes nothing of what they are.
pub proof fn law_stages_are_told_apart_in_order(
    st: InterpView,
    stages: Seq<StageView>,
    more: StageView,
    t: TalkView,
)
    ensures
        ({
            let n = stages.len() as int;
            let (before, t1) = kinds_of(st, stages, n, t);
            let (after, t2) = kinds_of(st, stages.push(more), n + 1, t);
            &&& before.len() == n && after.len() == n + 1
            &&& after.take(n) == before
            &&& more.tokens.len() > 0 ==> {
                let (words, t3) = interp::all_expanded(st.vars(), more.tokens, more.tokens.len(), t1);
                (after[n], t2) == kind_of(st, words, t3)
            }
        }),
{
    let n = stages.len() as int;
    lemma_kinds_before(st, stages, more, n, t);
    assert(stages.push(more)[n] == more);
    let before = kinds_of(st, stages, n, t).0;
    assert(kinds_of(st, stages.push(more), n + 1, t).0.take(n) =~= before);
}

/// A command that is not found is remembered by the interpreter, and nothing
/// else of it changes; one that is found leaves it as it is.
pub proof fn law_missing_commands_are_remembered(st: InterpView, f: FinishedView)
    ensures
        f.not_found ==> marked(st, f).not_found,
        !f.not_found ==> marked(st, f) == st,
        marked(st, f).scalars == st.scalars && marked(st, f).arrays == st.arrays,
{
}

} // verus!
