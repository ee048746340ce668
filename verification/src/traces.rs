//! What operations do to the file system, told by the requests that they make.
//!
//! A journal is made to last before anything that it does not name is written,
//! checks come before changes, and taking back removes nothing but what the
//! journal names.

use crate::compress;
use crate::copy;
use crate::delete;
use crate::delete::DeleteOptions;
use crate::dialog;
use crate::dialog::{ActionView, AnswerView, EntryView, FileFacts, RequestView, TalkView};
use crate::fileset;
use crate::fileset::FileRecordView;
use crate::fs_ops;
use crate::operation;
use crate::operation::{
    ArchivePlanItemView, ArchivePlanView, JournalView, OutputView, PlanView, PlannedView,
    TransferItemView,
};
use crate::paths;
use vstd::prelude::*;

verus! {

/// Whether a request only asks for something that is so.
pub open spec fn is_question(r: RequestView) -> bool {
    match r {
        RequestView::Exists(_) => true,
        RequestView::IsFile(_) => true,
        RequestView::IsDirectory(_) => true,
        RequestView::List(_, _) => true,
        RequestView::ListWhole(_) => true,
        RequestView::WorkingDirectory => true,
        RequestView::Inspect(_) => true,
        RequestView::Examine(_) => true,
        RequestView::Facts(_) => true,
        RequestView::Canonical(_) => true,
        RequestView::Seconds => true,
        RequestView::Nanoseconds => true,
        RequestView::Sequence => true,
        RequestView::CheckArchive(_) => true,
        _ => false,
    }
}

/// Whether every request that is new in an exchange is one of some.
pub open spec fn all_new(t: TalkView, t2: TalkView, f: spec_fn(RequestView) -> bool) -> bool {
    &&& dialog::follows(t, t2)
    &&& forall|k: int| t.made.len() <= k < t2.made.len() ==> f(#[trigger] t2.made[k])
}

/// Whether the questions are among some requests.
pub open spec fn has_questions(f: spec_fn(RequestView) -> bool) -> bool {
    forall|r: RequestView| is_question(r) ==> #[trigger] f(r)
}

/// Whether making directories is among some requests.
pub open spec fn has_directories(f: spec_fn(RequestView) -> bool) -> bool {
    forall|p: Seq<char>| #[trigger] f(RequestView::Do(ActionView::CreateDirs(p)))
}

proof fn lemma_one(t: TalkView, r: RequestView, f: spec_fn(RequestView) -> bool)
    requires
        f(r),
    ensures
        all_new(t, dialog::asked(t, r).1, f),
{
}

proof fn lemma_none(t: TalkView, f: spec_fn(RequestView) -> bool)
    ensures
        all_new(t, t, f),
{
}

proof fn lemma_then(t1: TalkView, t2: TalkView, t3: TalkView, f: spec_fn(RequestView) -> bool)
    requires
        all_new(t1, t2, f),
        all_new(t2, t3, f),
    ensures
        all_new(t1, t3, f),
{
    assert forall|k: int| t1.made.len() <= k < t3.made.len() implies f(#[trigger] t3.made[k]) by {
        if k < t2.made.len() {
            assert(t3.made[k] == t2.made[k]);
        }
    }
    assert forall|k: int| 0 <= k < t1.made.len() implies #[trigger] t3.made[k] == t1.made[k] by {
        assert(t3.made[k] == t2.made[k]);
    }
}

// ---------------------------------------------------------------------------
// Moves and copies
// ---------------------------------------------------------------------------

/// Whether a move from one path to another is among some requests.
pub open spec fn has_move(
    f: spec_fn(RequestView) -> bool,
    source: Seq<char>,
    target: Seq<char>,
) -> bool {
    &&& has_questions(f)
    &&& has_directories(f)
    &&& f(RequestView::Do(ActionView::Rename(source, target)))
    &&& f(RequestView::Do(ActionView::CopyFile(source, target)))
    &&& f(RequestView::Do(ActionView::RemoveFile(source)))
    &&& f(RequestView::Do(ActionView::RemoveFile(target)))
}

proof fn lemma_same_item(
    source: Seq<char>,
    target: Seq<char>,
    t: TalkView,
    f: spec_fn(RequestView) -> bool,
)
    requires
        has_questions(f),
    ensures
        all_new(t, fs_ops::same_item(source, target, t).1, f),
{
    lemma_none(t, f);
    let (there, t1) = dialog::exists_at(t, target);
    lemma_one(t, RequestView::Exists(target), f);
    let (a, t2) = dialog::asked(t1, RequestView::Canonical(source));
    lemma_one(t1, RequestView::Canonical(source), f);
    lemma_then(t, t1, t2, f);
    let t3 = dialog::asked(t2, RequestView::Canonical(target)).1;
    lemma_one(t2, RequestView::Canonical(target), f);
    lemma_then(t, t2, t3, f);
}

proof fn lemma_cleared(target: Seq<char>, force: bool, t: TalkView, f: spec_fn(RequestView) -> bool)
    requires
        has_questions(f),
        f(RequestView::Do(ActionView::RemoveFile(target))),
    ensures
        all_new(t, fs_ops::cleared(target, force, t).1, f),
{
    let t1 = dialog::exists_at(t, target).1;
    lemma_one(t, RequestView::Exists(target), f);
    let t2 = dialog::asked(t1, RequestView::Examine(target)).1;
    lemma_one(t1, RequestView::Examine(target), f);
    lemma_then(t, t1, t2, f);
    let t3 = dialog::acted(t2, ActionView::RemoveFile(target)).1;
    lemma_one(t2, RequestView::Do(ActionView::RemoveFile(target)), f);
    lemma_then(t, t2, t3, f);
}

proof fn lemma_parent_made(path: Seq<char>, t: TalkView, f: spec_fn(RequestView) -> bool)
    requires
        has_directories(f),
    ensures
        all_new(t, copy::parent_made(path, t).1, f),
{
    lemma_none(t, f);
    match paths::parent_of(path) {
        Some(p) => {
            assert(f(RequestView::Do(ActionView::CreateDirs(p))));
            lemma_one(t, RequestView::Do(ActionView::CreateDirs(p)), f);
        },
        None => {},
    }
}

proof fn lemma_relocated(
    source: Seq<char>,
    target: Seq<char>,
    is_file: bool,
    t: TalkView,
    f: spec_fn(RequestView) -> bool,
)
    requires
        has_move(f, source, target),
    ensures
        all_new(t, fs_ops::relocated(source, target, is_file, t).1, f),
{
    let t1 = dialog::acted(t, ActionView::Rename(source, target)).1;
    lemma_one(t, RequestView::Do(ActionView::Rename(source, target)), f);
    let t2 = dialog::acted(t1, ActionView::CopyFile(source, target)).1;
    lemma_one(t1, RequestView::Do(ActionView::CopyFile(source, target)), f);
    lemma_then(t, t1, t2, f);
    let t3 = dialog::acted(t2, ActionView::RemoveFile(source)).1;
    lemma_one(t2, RequestView::Do(ActionView::RemoveFile(source)), f);
    lemma_then(t, t2, t3, f);
    let t4 = dialog::acted(t3, ActionView::RemoveFile(target)).1;
    lemma_one(t3, RequestView::Do(ActionView::RemoveFile(target)), f);
    lemma_then(t, t3, t4, f);
}

proof fn lemma_moved_one(
    source: Seq<char>,
    target: Seq<char>,
    force: bool,
    t: TalkView,
    f: spec_fn(RequestView) -> bool,
)
    requires
        has_move(f, source, target),
    ensures
        all_new(t, fs_ops::moved_one(source, target, force, t).1, f),
{
    let (a, t1) = dialog::asked(t, RequestView::Examine(source));
    lemma_one(t, RequestView::Examine(source), f);
    let t2 = fs_ops::same_item(source, target, t1).1;
    lemma_same_item(source, target, t1, f);
    lemma_then(t, t1, t2, f);
    let t3 = fs_ops::cleared(target, force, t2).1;
    lemma_cleared(target, force, t2, f);
    lemma_then(t, t2, t3, f);
    let t4 = copy::parent_made(target, t3).1;
    lemma_parent_made(target, t3, f);
    lemma_then(t, t3, t4, f);
    match a {
        AnswerView::File(facts) => {
            let t5 = fs_ops::relocated(source, target, facts.is_file, t4).1;
            lemma_relocated(source, target, facts.is_file, t4, f);
            lemma_then(t, t4, t5, f);
        },
        _ => {},
    }
}

proof fn lemma_copied_one(
    src: Seq<char>,
    dest: Seq<char>,
    force: bool,
    t: TalkView,
    f: spec_fn(RequestView) -> bool,
)
    requires
        has_questions(f),
        has_directories(f),
        f(RequestView::Do(ActionView::CopyFile(src, dest))),
    ensures
        all_new(t, copy::copied_one(src, dest, force, t).1, f),
{
    let t1 = dialog::exists_at(t, dest).1;
    lemma_one(t, RequestView::Exists(dest), f);
    let t2 = copy::parent_made(dest, t1).1;
    lemma_parent_made(dest, t1, f);
    lemma_then(t, t1, t2, f);
    let t3 = dialog::acted(t2, ActionView::CopyFile(src, dest)).1;
    lemma_one(t2, RequestView::Do(ActionView::CopyFile(src, dest)), f);
    lemma_then(t, t2, t3, f);
}

// ---------------------------------------------------------------------------
// Checks
// ---------------------------------------------------------------------------

proof fn lemma_validated(
    expected: FileRecordView,
    label: Seq<char>,
    t: TalkView,
    f: spec_fn(RequestView) -> bool,
)
    requires
        has_questions(f),
    ensures
        all_new(t, operation::validated(expected, label, t).1, f),
{
    lemma_one(t, RequestView::Inspect(expected.path), f);
}

proof fn lemma_inspected(path: Seq<char>, t: TalkView, f: spec_fn(RequestView) -> bool)
    requires
        has_questions(f),
    ensures
        all_new(t, fileset::inspected(path, None, t).1, f),
{
    lemma_one(t, RequestView::Inspect(path), f);
}

proof fn lemma_transfer_checked(
    item: TransferItemView,
    force: bool,
    t: TalkView,
    f: spec_fn(RequestView) -> bool,
)
    requires
        has_questions(f),
    ensures
        all_new(t, operation::transfer_checked(item, force, t).1, f),
{
    let t1 = operation::validated(item.source, "apply: source drift"@, t).1;
    lemma_validated(item.source, "apply: source drift"@, t, f);
    let t2 = dialog::exists_at(t1, item.destination).1;
    lemma_one(t1, RequestView::Exists(item.destination), f);
    lemma_then(t, t1, t2, f);
    match item.before {
        Some(expected) => {
            let t3 = operation::validated(expected, "apply: destination drift"@, t2).1;
            lemma_validated(expected, "apply: destination drift"@, t2, f);
            lemma_then(t, t2, t3, f);
        },
        None => {},
    }
}

proof fn lemma_transfers_checked(
    items: Seq<TransferItemView>,
    i: int,
    force: bool,
    t: TalkView,
    f: spec_fn(RequestView) -> bool,
)
    requires
        has_questions(f),
    ensures
        all_new(t, operation::transfers_checked(items, i, force, t).1, f),
    decreases items.len() - i,
{
    lemma_none(t, f);
    if 0 <= i < items.len() {
        let t1 = operation::transfer_checked(items[i], force, t).1;
        lemma_transfer_checked(items[i], force, t, f);
        lemma_transfers_checked(items, i + 1, force, t1, f);
        lemma_then(t, t1, operation::transfers_checked(items, i + 1, force, t1).1, f);
    }
}

proof fn lemma_undoable(
    outputs: Seq<OutputView>,
    i: int,
    t: TalkView,
    f: spec_fn(RequestView) -> bool,
)
    requires
        has_questions(f),
    ensures
        all_new(t, operation::undoable(outputs, i, t).1, f),
    decreases outputs.len() - i,
{
    lemma_none(t, f);
    if 0 <= i < outputs.len() {
        let o = outputs[i];
        let t1 = fileset::inspected(o.record.path, None, t).1;
        lemma_inspected(o.record.path, t, f);
        match o.original {
            None => {
                lemma_undoable(outputs, i + 1, t1, f);
                lemma_then(t, t1, operation::undoable(outputs, i + 1, t1).1, f);
            },
            Some(p) => {
                let t2 = dialog::exists_at(t1, p).1;
                lemma_one(t1, RequestView::Exists(p), f);
                lemma_then(t, t1, t2, f);
                lemma_undoable(outputs, i + 1, t2, f);
                lemma_then(t, t2, operation::undoable(outputs, i + 1, t2).1, f);
            },
        }
    }
}

proof fn lemma_outputs_unchanged(
    outputs: Seq<OutputView>,
    i: int,
    command: Seq<char>,
    t: TalkView,
    f: spec_fn(RequestView) -> bool,
)
    requires
        has_questions(f),
    ensures
        all_new(t, operation::outputs_unchanged(outputs, i, command, t).1, f),
    decreases outputs.len() - i,
{
    lemma_none(t, f);
    if 0 <= i < outputs.len() {
        let label = command + ": output drift"@;
        let t1 = operation::validated(outputs[i].record, label, t).1;
        lemma_validated(outputs[i].record, label, t, f);
        match outputs[i].original {
            None => {
                lemma_outputs_unchanged(outputs, i + 1, command, t1, f);
                lemma_then(t, t1, operation::outputs_unchanged(outputs, i + 1, command, t1).1, f);
            },
            Some(p) => {
                let t2 = dialog::exists_at(t1, p).1;
                lemma_one(t1, RequestView::Exists(p), f);
                lemma_then(t, t1, t2, f);
                lemma_outputs_unchanged(outputs, i + 1, command, t2, f);
                lemma_then(t, t2, operation::outputs_unchanged(outputs, i + 1, command, t2).1, f);
            },
        }
    }
}

proof fn lemma_leads_to_dir(
    path: Seq<char>,
    facts: FileFacts,
    t: TalkView,
    f: spec_fn(RequestView) -> bool,
)
    requires
        has_questions(f),
    ensures
        all_new(t, delete::leads_to_dir(path, facts, t).1, f),
{
    lemma_none(t, f);
    lemma_one(t, RequestView::IsDirectory(path), f);
}

proof fn lemma_narrow(path: Seq<char>, t: TalkView, f: spec_fn(RequestView) -> bool)
    requires
        has_questions(f),
    ensures
        all_new(t, delete::narrow(path, t).1, f),
{
    let t1 = dialog::asked(t, RequestView::Canonical(path)).1;
    lemma_one(t, RequestView::Canonical(path), f);
    let (b, t2) = dialog::asked(t1, RequestView::WorkingDirectory);
    lemma_one(t1, RequestView::WorkingDirectory, f);
    lemma_then(t, t1, t2, f);
    match b {
        AnswerView::Text(cwd) => {
            let t3 = dialog::asked(t2, RequestView::Canonical(cwd)).1;
            lemma_one(t2, RequestView::Canonical(cwd), f);
            lemma_then(t, t2, t3, f);
        },
        _ => {},
    }
}

proof fn lemma_allowed(
    path: Seq<char>,
    facts: FileFacts,
    options: DeleteOptions,
    t: TalkView,
    f: spec_fn(RequestView) -> bool,
)
    requires
        has_questions(f),
    ensures
        all_new(t, delete::allowed(path, facts, options, t).1, f),
{
    let t1 = delete::leads_to_dir(path, facts, t).1;
    lemma_leads_to_dir(path, facts, t, f);
    let t2 = delete::narrow(path, t1).1;
    lemma_narrow(path, t1, f);
    lemma_then(t, t1, t2, f);
}

proof fn lemma_plan_checked(
    path: Seq<char>,
    options: DeleteOptions,
    t: TalkView,
    f: spec_fn(RequestView) -> bool,
)
    requires
        has_questions(f),
    ensures
        all_new(t, delete::plan_checked(path, options, t).1, f),
{
    let (a, t1) = dialog::asked(t, RequestView::Examine(path));
    lemma_one(t, RequestView::Examine(path), f);
    match a {
        AnswerView::File(facts) => {
            lemma_allowed(path, facts, options, t1, f);
            lemma_then(t, t1, delete::allowed(path, facts, options, t1).1, f);
        },
        _ => {},
    }
}

proof fn lemma_deletions_checked(
    items: Seq<FileRecordView>,
    i: int,
    options: DeleteOptions,
    t: TalkView,
    f: spec_fn(RequestView) -> bool,
)
    requires
        has_questions(f),
    ensures
        all_new(t, operation::deletions_checked(items, i, options, t).1, f),
    decreases items.len() - i,
{
    lemma_none(t, f);
    if 0 <= i < items.len() {
        let t1 = operation::validated(items[i], "apply: source drift"@, t).1;
        lemma_validated(items[i], "apply: source drift"@, t, f);
        let t2 = delete::plan_checked(items[i].path, options, t1).1;
        lemma_plan_checked(items[i].path, options, t1, f);
        lemma_then(t, t1, t2, f);
        lemma_deletions_checked(items, i + 1, options, t2, f);
        lemma_then(t, t2, operation::deletions_checked(items, i + 1, options, t2).1, f);
    }
}

proof fn lemma_all_free(
    items: Seq<ArchivePlanItemView>,
    i: int,
    force: bool,
    t: TalkView,
    f: spec_fn(RequestView) -> bool,
)
    requires
        has_questions(f),
    ensures
        all_new(t, operation::all_free(items, i, force, t).1, f),
    decreases items.len() - i,
{
    lemma_none(t, f);
    if 0 <= i < items.len() {
        let t1 = operation::free(items[i].archive, force, t).1;
        lemma_one(t, RequestView::Exists(items[i].archive), f);
        let t2 = match items[i].backup {
            Some(path) => operation::free(path, force, t1).1,
            None => t1,
        };
        match items[i].backup {
            Some(path) => {
                lemma_one(t1, RequestView::Exists(path), f);
            },
            None => {
                lemma_none(t1, f);
            },
        }
        lemma_then(t, t1, t2, f);
        lemma_all_free(items, i + 1, force, t2, f);
        lemma_then(t, t2, operation::all_free(items, i + 1, force, t2).1, f);
    }
}

// ---------------------------------------------------------------------------
// Taking back
// ---------------------------------------------------------------------------

/// Whether an output is at a path, or came from it.
pub open spec fn output_names(o: OutputView, p: Seq<char>) -> bool {
    o.record.path == p || o.original == Some(p)
}

/// Whether one of some outputs is at a path, or came from it.
pub open spec fn outputs_name(outputs: Seq<OutputView>, p: Seq<char>) -> bool {
    exists|i: int| 0 <= i < outputs.len() && output_names(#[trigger] outputs[i], p)
}

/// Whether a journal names a path: as a temporary file, or as that of an
/// output.
pub open spec fn names(j: JournalView, p: Seq<char>) -> bool {
    j.staging.contains(p) || outputs_name(j.outputs, p)
}

/// What a request takes away from a path.
pub open spec fn removed_by(r: RequestView) -> Option<Seq<char>> {
    match r {
        RequestView::Do(ActionView::RemoveFile(p)) => Some(p),
        RequestView::Do(ActionView::RemoveDir(p)) => Some(p),
        RequestView::Do(ActionView::RemoveTree(p)) => Some(p),
        RequestView::Do(ActionView::Recycle(p)) => Some(p),
        RequestView::Do(ActionView::Rename(p, _)) => Some(p),
        _ => None,
    }
}

/// The requests that take nothing away but what a journal names.
pub open spec fn removes_named(j: JournalView) -> spec_fn(RequestView) -> bool {
    |r: RequestView|
        match removed_by(r) {
            Some(p) => names(j, p),
            None => true,
        }
}

/// The questions.
pub open spec fn questions() -> spec_fn(RequestView) -> bool {
    |r: RequestView| is_question(r)
}

proof fn lemma_named_move(j: JournalView, k: int)
    requires
        0 <= k < j.outputs.len(),
        j.outputs[k].original is Some,
    ensures
        has_move(removes_named(j), j.outputs[k].record.path, j.outputs[k].original->0),
        removes_named(j)(RequestView::Do(ActionView::RemoveFile(j.outputs[k].record.path))),
{
    assert(output_names(j.outputs[k], j.outputs[k].record.path));
    assert(output_names(j.outputs[k], j.outputs[k].original->0));
    assert(names(j, j.outputs[k].record.path));
    assert(names(j, j.outputs[k].original->0));
}

proof fn lemma_named_removal(j: JournalView, k: int)
    requires
        0 <= k < j.outputs.len(),
    ensures
        removes_named(j)(RequestView::Do(ActionView::RemoveFile(j.outputs[k].record.path))),
{
    assert(output_names(j.outputs[k], j.outputs[k].record.path));
    assert(names(j, j.outputs[k].record.path));
}

/// Whether every output of one list is one of another.
pub open spec fn among(some: Seq<OutputView>, all: Seq<OutputView>) -> bool {
    forall|i: int| 0 <= i < some.len() ==> all.contains(#[trigger] some[i])
}

proof fn lemma_outputs_undone(outputs: Seq<OutputView>, n: int, j: JournalView, t: TalkView)
    requires
        n <= outputs.len(),
        among(outputs, j.outputs),
    ensures
        all_new(t, operation::outputs_undone(outputs, n, t).1, removes_named(j)),
    decreases n,
{
    let f = removes_named(j);
    lemma_none(t, f);
    if n > 0 {
        let o = outputs[n - 1];
        let k = choose|k: int| 0 <= k < j.outputs.len() && j.outputs[k] == o;
        assert(j.outputs.contains(outputs[n - 1]));
        let t1 = match o.original {
            Some(p) => fs_ops::moved_one(o.record.path, p, false, t).1,
            None => dialog::acted(t, ActionView::RemoveFile(o.record.path)).1,
        };
        match o.original {
            Some(p) => {
                lemma_named_move(j, k);
                lemma_moved_one(o.record.path, p, false, t, f);
            },
            None => {
                lemma_named_removal(j, k);
                lemma_one(t, RequestView::Do(ActionView::RemoveFile(o.record.path)), f);
            },
        }
        lemma_outputs_undone(outputs, n - 1, j, t1);
        lemma_then(t, t1, operation::outputs_undone(outputs, n - 1, t1).1, f);
    }
}

proof fn lemma_outputs_restored(j: JournalView, i: int, t: TalkView)
    ensures
        all_new(t, operation::outputs_restored(j.outputs, i, t).1, removes_named(j)),
    decreases j.outputs.len() - i,
{
    let f = removes_named(j);
    lemma_none(t, f);
    if 0 <= i < j.outputs.len() {
        let o = j.outputs[i];
        let t1 = match o.original {
            Some(p) => fs_ops::moved_one(o.record.path, p, false, t).1,
            None => dialog::acted(t, ActionView::RemoveFile(o.record.path)).1,
        };
        match o.original {
            Some(p) => {
                lemma_named_move(j, i);
                lemma_moved_one(o.record.path, p, false, t, f);
            },
            None => {
                lemma_named_removal(j, i);
                lemma_one(t, RequestView::Do(ActionView::RemoveFile(o.record.path)), f);
            },
        }
        lemma_outputs_restored(j, i + 1, t1);
        lemma_then(t, t1, operation::outputs_restored(j.outputs, i + 1, t1).1, f);
    }
}

proof fn lemma_rollback_done(some: JournalView, j: JournalView, t: TalkView)
    requires
        among(some.outputs, j.outputs),
    ensures
        all_new(t, operation::rollback_done(some, t).1, removes_named(j)),
{
    let f = removes_named(j);
    lemma_none(t, f);
    let t1 = operation::outputs_unchanged(some.outputs, 0, "rollback"@, t).1;
    lemma_outputs_unchanged(some.outputs, 0, "rollback"@, t, f);
    let t2 = operation::outputs_undone(some.outputs, some.outputs.len() as int, t1).1;
    lemma_outputs_undone(some.outputs, some.outputs.len() as int, j, t1);
    lemma_then(t, t1, t2, f);
    let t3 = operation::clock(t2).1;
    lemma_one(t2, RequestView::Seconds, f);
    lemma_then(t, t2, t3, f);
}

proof fn lemma_found_staged(
    staging: Seq<Seq<char>>,
    i: int,
    record: FileRecordView,
    label: Seq<char>,
    t: TalkView,
    f: spec_fn(RequestView) -> bool,
)
    requires
        has_questions(f),
    ensures
        all_new(t, operation::found_staged(staging, i, record, label, t).1, f),
    decreases staging.len() - i,
{
    lemma_none(t, f);
    if 0 <= i < staging.len() {
        let t1 = dialog::exists_at(t, staging[i]).1;
        lemma_one(t, RequestView::Exists(staging[i]), f);
        lemma_found_staged(staging, i + 1, record, label, t1, f);
        lemma_then(t, t1, operation::found_staged(staging, i + 1, record, label, t1).1, f);
        let expected = FileRecordView { path: staging[i], ..record };
        let t2 = operation::validated(expected, label, t1).1;
        lemma_validated(expected, label, t1, f);
        lemma_then(t, t1, t2, f);
        lemma_found_staged(staging, i + 1, record, label, t2, f);
        lemma_then(t, t2, operation::found_staged(staging, i + 1, record, label, t2).1, f);
    }
}

proof fn lemma_accounted(
    o: OutputView,
    staging: Seq<Seq<char>>,
    t: TalkView,
    f: spec_fn(RequestView) -> bool,
)
    requires
        has_questions(f),
    ensures
        all_new(t, operation::accounted(o, staging, t).1, f),
{
    lemma_none(t, f);
    lemma_one(t, RequestView::Exists(o.record.path), f);
    let asked = dialog::exists_at(t, o.record.path).1;
    let t1 = if crate::text::begins_with(o.role, "pending_"@) {
        asked
    } else {
        t
    };
    let found = operation::found_staged(staging, 0, o.record, "recover: staging drift"@, t1).1;
    lemma_found_staged(staging, 0, o.record, "recover: staging drift"@, t1, f);
    lemma_then(t, t1, found, f);
    let t2 = operation::validated(o.record, "recover: output drift"@, t1).1;
    lemma_validated(o.record, "recover: output drift"@, t1, f);
    lemma_then(t, t1, t2, f);
    match o.original {
        Some(p) => {
            let source = FileRecordView { path: p, ..o.record };
            lemma_validated(source, "recover: move source drift"@, t1, f);
            lemma_then(t, t1, operation::validated(source, "recover: move source drift"@, t1).1, f);
            lemma_one(t2, RequestView::Exists(p), f);
            lemma_then(t, t2, dialog::exists_at(t2, p).1, f);
        },
        None => {},
    }
}

proof fn lemma_all_accounted(
    outputs: Seq<OutputView>,
    n: int,
    staging: Seq<Seq<char>>,
    t: TalkView,
    f: spec_fn(RequestView) -> bool,
)
    requires
        has_questions(f),
        n <= outputs.len(),
    ensures
        all_new(t, operation::all_accounted(outputs, n, staging, t).1, f),
        operation::all_accounted(outputs, n, staging, t).0 matches Ok(kept) ==> among(
            kept,
            outputs,
        ),
    decreases n,
{
    lemma_none(t, f);
    if n > 0 {
        let (before, t1) = operation::all_accounted(outputs, n - 1, staging, t);
        lemma_all_accounted(outputs, n - 1, staging, t, f);
        let t2 = operation::accounted(outputs[n - 1], staging, t1).1;
        lemma_accounted(outputs[n - 1], staging, t1, f);
        lemma_then(t, t1, t2, f);
        assert(outputs.contains(outputs[n - 1]));
    }
}

proof fn lemma_staging_removed(j: JournalView, i: int, t: TalkView)
    ensures
        all_new(t, operation::staging_removed(j.staging, i, t).1, removes_named(j)),
    decreases j.staging.len() - i,
{
    let f = removes_named(j);
    lemma_none(t, f);
    if 0 <= i < j.staging.len() {
        let p = j.staging[i];
        assert(names(j, p));
        let t1 = dialog::exists_at(t, p).1;
        lemma_one(t, RequestView::Exists(p), f);
        lemma_staging_removed(j, i + 1, t1);
        lemma_then(t, t1, operation::staging_removed(j.staging, i + 1, t1).1, f);
        let t2 = dialog::acted(t1, ActionView::RemoveFile(p)).1;
        lemma_one(t1, RequestView::Do(ActionView::RemoveFile(p)), f);
        lemma_then(t, t1, t2, f);
        lemma_staging_removed(j, i + 1, t2);
        lemma_then(t, t2, operation::staging_removed(j.staging, i + 1, t2).1, f);
    }
}

// ---------------------------------------------------------------------------
// Laws of taking back
// ---------------------------------------------------------------------------

/// An undo that is refused has only asked questions: every output is checked
/// before the first one is taken back.
pub proof fn law_refused_undo_only_asks(j: JournalView, t: TalkView)
    requires
        operation::undoable(j.outputs, 0, t).0 is Err,
    ensures
        operation::undone(j, t).0 is Err,
        all_new(t, operation::undone(j, t).1, questions()),
{
    lemma_none(t, questions());
    lemma_undoable(j.outputs, 0, t, questions());
}

/// An undo takes nothing away but what its journal names.
pub proof fn law_undo_removes_only_outputs(j: JournalView, t: TalkView)
    ensures
        all_new(t, operation::undone(j, t).1, removes_named(j)),
{
    let f = removes_named(j);
    lemma_none(t, f);
    let t1 = operation::undoable(j.outputs, 0, t).1;
    lemma_undoable(j.outputs, 0, t, f);
    let t2 = operation::outputs_restored(j.outputs, 0, t1).1;
    lemma_outputs_restored(j, 0, t1);
    lemma_then(t, t1, t2, f);
    let t3 = operation::clock(t2).1;
    lemma_one(t2, RequestView::Seconds, f);
    lemma_then(t, t2, t3, f);
}

/// A rollback takes nothing away but what its journal names.
pub proof fn law_rollback_removes_only_outputs(j: JournalView, t: TalkView)
    ensures
        all_new(t, operation::rollback_done(j, t).1, removes_named(j)),
{
    assert forall|i: int| 0 <= i < j.outputs.len() implies j.outputs.contains(
        #[trigger] j.outputs[i],
    ) by {}
    lemma_rollback_done(j, j, t);
}

/// A recovery by rolling back never guesses: it takes nothing away but the
/// temporary files and the outputs that the journal names.
pub proof fn law_recovery_never_guesses(j: JournalView, t: TalkView)
    ensures
        all_new(t, operation::recovered_back(j, t).1, removes_named(j)),
{
    let f = removes_named(j);
    lemma_none(t, f);
    let n = j.outputs.len() as int;
    let (a, t1) = operation::all_accounted(j.outputs, n, j.staging, t);
    lemma_all_accounted(j.outputs, n, j.staging, t, f);
    let t2 = operation::staging_removed(j.staging, 0, t1).1;
    lemma_staging_removed(j, 0, t1);
    lemma_then(t, t1, t2, f);
    match a {
        Ok(kept) => {
            let left = JournalView { outputs: kept, staging: Seq::empty(), ..j };
            lemma_rollback_done(left, j, t2);
            lemma_then(t, t2, operation::rollback_done(left, t2).1, f);
        },
        Err(_) => {},
    }
}

/// A recovery that is refused because an output is not accounted for has only
/// asked questions.
pub proof fn law_refused_recovery_only_asks(j: JournalView, t: TalkView)
    requires
        operation::all_accounted(j.outputs, j.outputs.len() as int, j.staging, t).0 is Err,
    ensures
        operation::recovered_back(j, t).0 is Err,
        all_new(t, operation::recovered_back(j, t).1, questions()),
{
    lemma_none(t, questions());
    lemma_all_accounted(j.outputs, j.outputs.len() as int, j.staging, t, questions());
}

// ---------------------------------------------------------------------------
// Laws of checking
// ---------------------------------------------------------------------------

/// A transfer whose sources or destinations have drifted has only asked
/// questions: nothing is written before all of them are checked.
pub proof fn law_drifted_transfer_only_asks(
    items: Seq<TransferItemView>,
    force: bool,
    moving: bool,
    j: JournalView,
    t: TalkView,
)
    requires
        operation::transfers_checked(items, 0, force, t).0 is Err,
    ensures
        operation::transfer_applied(items, force, moving, j, t).0 is Err,
        operation::transfer_applied(items, force, moving, j, t).1 == j,
        all_new(t, operation::transfer_applied(items, force, moving, j, t).2, questions()),
{
    lemma_transfers_checked(items, 0, force, t, questions());
}

/// A deletion whose sources have drifted, or may not be deleted, has only
/// asked questions.
pub proof fn law_drifted_deletion_only_asks(
    items: Seq<FileRecordView>,
    options: DeleteOptions,
    j: JournalView,
    t: TalkView,
)
    requires
        operation::deletions_checked(items, 0, options, t).0 is Err,
    ensures
        operation::delete_applied(items, options, j, t).0 is Err,
        operation::delete_applied(items, options, j, t).1 == j,
        all_new(t, operation::delete_applied(items, options, j, t).2, questions()),
{
    lemma_deletions_checked(items, 0, options, t, questions());
}

/// Archives whose sources or destinations are not as planned are not begun:
/// there are only questions.
pub proof fn law_refused_archives_only_ask(
    plan: ArchivePlanView,
    force: bool,
    j: JournalView,
    t: TalkView,
)
    requires
        dialog::tried(t, RequestView::CheckArchive(plan)).0 is Err || operation::all_free(
            plan.items,
            0,
            force,
            dialog::tried(t, RequestView::CheckArchive(plan)).1,
        ).0 is Err,
    ensures
        operation::archive_applied(plan, force, j, t).0 is Err,
        operation::archive_applied(plan, force, j, t).1 == j,
        all_new(t, operation::archive_applied(plan, force, j, t).2, questions()),
{
    let t1 = dialog::tried(t, RequestView::CheckArchive(plan)).1;
    lemma_one(t, RequestView::CheckArchive(plan), questions());
    lemma_all_free(plan.items, 0, force, t1, questions());
    lemma_then(
        t,
        t1,
        operation::all_free(plan.items, 0, force, t1).1,
        questions(),
    );
}

// ---------------------------------------------------------------------------
// Intents
// ---------------------------------------------------------------------------

/// The file that a request writes.
pub open spec fn written_by(r: RequestView) -> Option<Seq<char>> {
    match r {
        RequestView::Do(ActionView::CopyFile(_, p)) => Some(p),
        RequestView::BuildArchive(_, p) => Some(p),
        _ => None,
    }
}

/// Whether request `m` made a journal last that names a path.
pub open spec fn lasts_at(t: TalkView, m: int, p: Seq<char>) -> bool {
    t.made[m] matches RequestView::SaveJournal(j) && names(j, p) && !(t.answers[m] is Failure)
}

/// Whether a journal that names a path was made to last before request `k`.
pub open spec fn intended(t: TalkView, p: Seq<char>, k: int) -> bool {
    exists|m: int| 0 <= m < k && #[trigger] lasts_at(t, m, p)
}

/// Whether, of what is new in an exchange, no file is written before a
/// journal that names it was made to last.
pub open spec fn explained(t: TalkView, t2: TalkView) -> bool {
    &&& dialog::follows(t, t2)
    &&& forall|k: int|
        t.made.len() <= k < t2.made.len() ==> (written_by(#[trigger] t2.made[k]) matches Some(p)
            ==> intended(t2, p, k))
}

/// Whether a path can be written to: a journal names it, or nothing is done
/// any more.
pub open spec fn known(t: TalkView, p: Seq<char>) -> bool {
    t.pending is Some || intended(t, p, t.made.len() as int)
}

/// The requests that write no file.
pub open spec fn writes_nothing() -> spec_fn(RequestView) -> bool {
    |r: RequestView| written_by(r) is None
}

/// The requests that write no file but one.
pub open spec fn writes_at(p: Seq<char>) -> spec_fn(RequestView) -> bool {
    |r: RequestView|
        match written_by(r) {
            Some(q) => q == p,
            None => true,
        }
}

proof fn lemma_intended_stays(t: TalkView, t2: TalkView, p: Seq<char>, k: int)
    requires
        dialog::follows(t, t2),
        k <= t.made.len(),
        intended(t, p, k),
    ensures
        intended(t2, p, k),
{
    let m = choose|m: int| 0 <= m < k && #[trigger] lasts_at(t, m, p);
    assert(t2.made[m] == t.made[m]);
    assert(lasts_at(t2, m, p));
}

proof fn lemma_known_stays(t: TalkView, t2: TalkView, p: Seq<char>)
    requires
        dialog::follows(t, t2),
        known(t, p),
    ensures
        known(t2, p),
{
    if t.pending is None {
        lemma_intended_stays(t, t2, p, t.made.len() as int);
        let m = choose|m: int| 0 <= m < t.made.len() && #[trigger] lasts_at(t2, m, p);
        assert(0 <= m < t2.made.len() && lasts_at(t2, m, p));
    }
}

proof fn lemma_on(t1: TalkView, t2: TalkView, t3: TalkView)
    requires
        explained(t1, t2),
        explained(t2, t3),
    ensures
        explained(t1, t3),
{
    assert forall|k: int| t1.made.len() <= k < t3.made.len() implies (written_by(
        #[trigger] t3.made[k],
    ) matches Some(p) ==> intended(t3, p, k)) by {
        if k < t2.made.len() {
            assert(t3.made[k] == t2.made[k]);
            if written_by(t2.made[k]) is Some {
                lemma_intended_stays(t2, t3, written_by(t2.made[k])->0, k);
            }
        }
    }
    assert forall|k: int| 0 <= k < t1.made.len() implies #[trigger] t3.made[k] == t1.made[k] by {
        assert(t3.made[k] == t2.made[k]);
    }
}

proof fn lemma_nothing_written(t: TalkView, t2: TalkView)
    requires
        all_new(t, t2, writes_nothing()),
    ensures
        explained(t, t2),
{
    assert forall|k: int| t.made.len() <= k < t2.made.len() implies written_by(
        #[trigger] t2.made[k],
    ) is None by {
        assert(writes_nothing()(t2.made[k]));
    }
}

proof fn lemma_known_written(t: TalkView, t2: TalkView, p: Seq<char>)
    requires
        all_new(t, t2, writes_at(p)),
        known(t, p),
    ensures
        explained(t, t2),
{
    assert forall|k: int| t.made.len() <= k < t2.made.len() implies (written_by(
        #[trigger] t2.made[k],
    ) matches Some(q) ==> intended(t2, q, k)) by {
        assert(writes_at(p)(t2.made[k]));
        assert(t.pending is None);
        lemma_intended_stays(t, t2, p, t.made.len() as int);
        let m = choose|m: int| 0 <= m < t.made.len() && #[trigger] lasts_at(t2, m, p);
        assert(0 <= m < k && lasts_at(t2, m, p));
    }
}

/// A request that writes no file.
proof fn lemma_plain(t: TalkView, r: RequestView)
    requires
        written_by(r) is None,
    ensures
        explained(t, dialog::asked(t, r).1),
{
    lemma_one(t, r, writes_nothing());
    lemma_nothing_written(t, dialog::asked(t, r).1);
}

/// What a journal names is known once it was made to last.
proof fn lemma_saved(j: JournalView, p: Seq<char>, t: TalkView)
    requires
        t.in_step(),
        names(j, p),
    ensures
        explained(t, operation::saved(j, t).1),
        operation::saved(j, t).0 is Ok ==> known(operation::saved(j, t).1, p),
{
    let t2 = operation::saved(j, t).1;
    lemma_plain(t, RequestView::SaveJournal(j));
    if operation::saved(j, t).0 is Ok && t2.pending is None {
        assert(lasts_at(t2, t.made.len() as int, p));
    }
}

/// Whether it is known where the outputs of a journal came from.
pub open spec fn rooted(j: JournalView, t: TalkView) -> bool {
    forall|i: int|
        0 <= i < j.outputs.len() ==> ((#[trigger] j.outputs[i]).original matches Some(p) ==> known(
            t,
            p,
        ))
}

proof fn lemma_rooted_stays(j: JournalView, t: TalkView, t2: TalkView)
    requires
        dialog::follows(t, t2),
        rooted(j, t),
    ensures
        rooted(j, t2),
{
    assert forall|i: int| 0 <= i < j.outputs.len() implies ((#[trigger] j.outputs[i]).original
        matches Some(p) ==> known(t2, p)) by {
        if j.outputs[i].original is Some {
            lemma_known_stays(t, t2, j.outputs[i].original->0);
        }
    }
}

proof fn lemma_without_role(list: Seq<OutputView>, role: Seq<char>)
    ensures
        forall|i: int|
            0 <= i < operation::without_role(list, role).len() ==> {
                &&& list.contains(#[trigger] operation::without_role(list, role)[i])
                &&& operation::without_role(list, role)[i].role != role
            },
    decreases list.len(),
{
    if list.len() > 0 {
        let rest = operation::without_role(list.drop_last(), role);
        lemma_without_role(list.drop_last(), role);
        assert forall|i: int| 0 <= i < operation::without_role(list, role).len() implies {
            &&& list.contains(#[trigger] operation::without_role(list, role)[i])
            &&& operation::without_role(list, role)[i].role != role
        } by {
            if i < rest.len() {
                let k = choose|k: int|
                    0 <= k < list.drop_last().len() && list.drop_last()[k] == rest[i];
                assert(list.drop_last().contains(rest[i]));
                assert(list[k] == rest[i]);
            } else {
                assert(list[list.len() - 1] == list.last());
            }
        }
    }
}

proof fn lemma_rooted_without_role(j: JournalView, role: Seq<char>, staging: Seq<Seq<char>>, t: TalkView)
    requires
        rooted(j, t),
    ensures
        rooted(
            JournalView { outputs: operation::without_role(j.outputs, role), staging, ..j },
            t,
        ),
{
    lemma_without_role(j.outputs, role);
    let fewer = operation::without_role(j.outputs, role);
    assert forall|i: int| 0 <= i < fewer.len() implies ((#[trigger] fewer[i]).original matches Some(
        p,
    ) ==> known(t, p)) by {
        assert(j.outputs.contains(fewer[i]));
    }
}

// ---------------------------------------------------------------------------
// Steps
// ---------------------------------------------------------------------------

/// What a step keeps: the exchange is explained, and the journal rooted.
pub open spec fn sound_step(s: operation::Step, t: TalkView) -> bool {
    explained(t, s.2) && rooted(s.1, s.2)
}

proof fn lemma_undone_explained(outputs: Seq<OutputView>, n: int, t: TalkView)
    requires
        n <= outputs.len(),
        forall|i: int|
            0 <= i < n ==> ((#[trigger] outputs[i]).original matches Some(p) ==> known(t, p)),
    ensures
        explained(t, operation::outputs_undone(outputs, n, t).1),
    decreases n,
{
    lemma_none(t, writes_nothing());
    lemma_nothing_written(t, t);
    if n > 0 {
        let o = outputs[n - 1];
        let t1 = match o.original {
            Some(p) => fs_ops::moved_one(o.record.path, p, false, t).1,
            None => dialog::acted(t, ActionView::RemoveFile(o.record.path)).1,
        };
        match o.original {
            Some(p) => {
                lemma_moved_one(o.record.path, p, false, t, writes_at(p));
                lemma_known_written(t, t1, p);
            },
            None => {
                lemma_plain(t, RequestView::Do(ActionView::RemoveFile(o.record.path)));
            },
        }
        assert forall|i: int| 0 <= i < n - 1 implies ((#[trigger] outputs[i]).original matches Some(
            p,
        ) ==> known(t1, p)) by {
            if outputs[i].original is Some {
                lemma_known_stays(t, t1, outputs[i].original->0);
            }
        }
        lemma_undone_explained(outputs, n - 1, t1);
        lemma_on(t, t1, operation::outputs_undone(outputs, n - 1, t1).1);
    }
}

proof fn lemma_backed_out(e: Seq<char>, j: JournalView, t: TalkView)
    requires
        rooted(j, t),
    ensures
        sound_step(operation::backed_out(e, j, t), t),
{
    lemma_none(t, writes_nothing());
    lemma_nothing_written(t, t);
    let (j1, t1) = operation::rolled_back(j, t);
    lemma_undone_explained(j.outputs, j.outputs.len() as int, t);
    let t2 = operation::saved(j1, t1).1;
    lemma_plain(t1, RequestView::SaveJournal(j1));
    lemma_on(t, t1, t2);
    lemma_rooted_stays(j, t, t2);
    assert(j1.outputs == j.outputs);
}

proof fn lemma_staged_at(path: Seq<char>, id: Seq<char>, role: Seq<char>, t: TalkView)
    ensures
        explained(t, operation::staged_at(path, id, role, t).1),
{
    lemma_plain(t, RequestView::Do(ActionView::CreateDirs(operation::directory_of(path))));
}

proof fn lemma_staging_noted(path: Seq<char>, j: JournalView, t: TalkView)
    requires
        t.in_step(),
        rooted(j, t),
    ensures
        sound_step(operation::staging_noted(path, j, t), t),
        operation::staging_noted(path, j, t).0 is Ok ==> known(
            operation::staging_noted(path, j, t).2,
            path,
        ),
{
    let j1 = JournalView { staging: j.staging.push(path), ..j };
    assert(j1.staging[j.staging.len() as int] == path);
    assert(names(j1, path));
    lemma_saved(j1, path, t);
    lemma_rooted_stays(j, t, operation::saved(j1, t).1);
}

proof fn lemma_output_noted(role: Seq<char>, path: Seq<char>, j: JournalView, t: TalkView)
    requires
        rooted(j, t),
    ensures
        sound_step(operation::output_noted(role, path, j, t), t),
{
    let (r, t1) = fileset::inspected(path, None, t);
    lemma_plain(t, RequestView::Inspect(path));
    lemma_rooted_stays(j, t, t1);
    match r {
        Ok(record) => {
            let o = OutputView { role, record, original: None };
            let j1 = JournalView { outputs: j.outputs.push(o), ..j };
            let t2 = operation::saved(j1, t1).1;
            lemma_plain(t1, RequestView::SaveJournal(j1));
            lemma_on(t, t1, t2);
            lemma_rooted_stays(j, t1, t2);
        },
        Err(_) => {},
    }
}

proof fn lemma_put_in_place(staging: Seq<char>, dest: Seq<char>, force: bool, t: TalkView)
    ensures
        explained(t, operation::put_in_place(staging, dest, force, t).1),
{
    let (there, t1) = dialog::exists_at(t, dest);
    lemma_plain(t, RequestView::Exists(dest));
    let t2 = dialog::acted(t1, ActionView::RemoveFile(dest)).1;
    lemma_plain(t1, RequestView::Do(ActionView::RemoveFile(dest)));
    lemma_on(t, t1, t2);
    let from = if there {
        t2
    } else {
        t1
    };
    lemma_plain(from, RequestView::Do(ActionView::Rename(staging, dest)));
    lemma_on(t, from, dialog::acted(from, ActionView::Rename(staging, dest)).1);
}

proof fn lemma_published(
    staging: Seq<char>,
    dest: Seq<char>,
    force: bool,
    role: Seq<char>,
    unidentified: Seq<char>,
    unsaved: Seq<char>,
    forget: bool,
    j: JournalView,
    t: TalkView,
)
    requires
        rooted(j, t),
    ensures
        sound_step(
            operation::published(staging, dest, force, role, unidentified, unsaved, forget, j, t),
            t,
        ),
{
    let (r, t1) = fileset::inspected(staging, None, t);
    lemma_plain(t, RequestView::Inspect(staging));
    lemma_rooted_stays(j, t, t1);
    match r {
        Ok(found) => {
            let record = FileRecordView { path: dest, ..found };
            let o = OutputView { role, record, original: None };
            let j1 = JournalView { outputs: j.outputs.push(o), ..j };
            assert(rooted(j1, t1));
            let t2 = operation::saved(j1, t1).1;
            lemma_plain(t1, RequestView::SaveJournal(j1));
            lemma_on(t, t1, t2);
            let gone = RequestView::Do(ActionView::RemoveFile(staging));
            let kept = operation::without_path(j1.staging, staging);
            let left = dialog::asked(t2, gone).1;
            lemma_plain(t2, gone);
            lemma_on(t, t2, left);
            lemma_rooted_stays(j1, t1, t2);
            lemma_rooted_stays(j1, t2, left);
            lemma_rooted_without_role(j1, role, kept, left);
            lemma_rooted_without_role(j1, role, j1.staging, left);
            let unnoted = if forget {
                operation::unpublished(j1, role, staging)
            } else {
                JournalView { outputs: operation::without_role(j1.outputs, role), ..j1 }
            };
            assert(rooted(unnoted, left));
            let e = operation::saved(j1, t1).0;
            if e is Err {
                lemma_backed_out(unsaved + e->Err_0, unnoted, left);
                lemma_on(t, left, operation::backed_out(unsaved + e->Err_0, unnoted, left).2);
            }
            let (p, t3) = operation::put_in_place(staging, dest, force, t2);
            lemma_put_in_place(staging, dest, force, t2);
            lemma_on(t, t2, t3);
            lemma_rooted_stays(j1, t2, t3);
            lemma_rooted_without_role(j1, role, kept, t3);
            let forgotten = operation::unpublished(j1, role, staging);
            assert(rooted(forgotten, t3));
            if p is Err {
                let swept = dialog::asked(t3, gone).1;
                lemma_plain(t3, gone);
                lemma_on(t, t3, swept);
                lemma_rooted_stays(forgotten, t3, swept);
                lemma_backed_out(p->Err_0, forgotten, swept);
                lemma_on(t, swept, operation::backed_out(p->Err_0, forgotten, swept).2);
            }
        },
        Err(_) => {},
    }
}

proof fn lemma_file_copied(item: TransferItemView, force: bool, j: JournalView, t: TalkView)
    requires
        t.in_step(),
        rooted(j, t),
    ensures
        sound_step(operation::file_copied(item, force, j, t), t),
{
    let (staging, t1) = operation::staged_at(item.destination, j.id, "copy"@, t);
    lemma_staged_at(item.destination, j.id, "copy"@, t);
    lemma_rooted_stays(j, t, t1);
    match staging {
        Err(e) => {
            lemma_backed_out(e, j, t1);
            lemma_on(t, t1, operation::backed_out(e, j, t1).2);
        },
        Ok(s) => {
            let (noted, j1, t2) = operation::staging_noted(s, j, t1);
            lemma_staging_noted(s, j, t1);
            lemma_on(t, t1, t2);
            match noted {
                Err(e) => {
                    lemma_backed_out(e, j1, t2);
                    lemma_on(t, t2, operation::backed_out(e, j1, t2).2);
                },
                Ok(_) => {
                    let (c, t3) = copy::copied_one(item.source.path, s, false, t2);
                    lemma_copied_one(item.source.path, s, false, t2, writes_at(s));
                    lemma_known_written(t2, t3, s);
                    lemma_on(t, t2, t3);
                    lemma_rooted_stays(j1, t2, t3);
                    match c {
                        Err(e) => {
                            let gone = RequestView::Do(ActionView::RemoveFile(s));
                            let t4 = dialog::asked(t3, gone).1;
                            lemma_plain(t3, gone);
                            lemma_on(t, t3, t4);
                            let j2 = JournalView {
                                staging: operation::without_path(j1.staging, s),
                                ..j1
                            };
                            lemma_rooted_stays(j1, t3, t4);
                            assert(rooted(j2, t4));
                            lemma_backed_out("apply: "@ + e, j2, t4);
                            lemma_on(t, t4, operation::backed_out("apply: "@ + e, j2, t4).2);
                        },
                        Ok(_) => {
                            let unidentified = "apply: could not identify staged copy: "@;
                            let unsaved = "apply: could not persist copy publication intent: "@;
                            lemma_published(
                                s,
                                item.destination,
                                force,
                                "pending_copy"@,
                                unidentified,
                                unsaved,
                                true,
                                j1,
                                t3,
                            );
                            lemma_on(
                                t,
                                t3,
                                operation::published(
                                    s,
                                    item.destination,
                                    force,
                                    "pending_copy"@,
                                    unidentified,
                                    unsaved,
                                    true,
                                    j1,
                                    t3,
                                ).2,
                            );
                        },
                    }
                },
            }
        },
    }
}

proof fn lemma_file_moved(item: TransferItemView, force: bool, j: JournalView, t: TalkView)
    requires
        t.in_step(),
        rooted(j, t),
    ensures
        sound_step(operation::file_moved(item, force, j, t), t),
        operation::file_moved(item, force, j, t).0 is Ok ==> known(
            operation::file_moved(item, force, j, t).2,
            item.source.path,
        ),
{
    let note = OutputView {
        role: "pending_move"@,
        record: FileRecordView { path: item.destination, ..item.source },
        original: Some(item.source.path),
    };
    let j1 = JournalView { outputs: j.outputs.push(note), ..j };
    let j2 = JournalView {
        outputs: operation::without_role(j1.outputs, "pending_move"@),
        ..j1
    };
    let last = j.outputs.len() as int;
    assert(j1.outputs[last] == note);
    assert(output_names(j1.outputs[last], item.destination));
    assert(output_names(j1.outputs[last], item.source.path));
    assert(names(j1, item.destination) && names(j1, item.source.path));
    lemma_saved(j1, item.destination, t);
    lemma_saved(j1, item.source.path, t);
    let (s, t1) = operation::saved(j1, t);
    lemma_rooted_stays(j, t, t1);
    lemma_without_role(j1.outputs, "pending_move"@);
    assert forall|i: int| 0 <= i < j2.outputs.len() implies ((#[trigger] j2.outputs[i]).original
        matches Some(p) ==> known(t1, p)) by {
        let o = j2.outputs[i];
        let k = choose|k: int| 0 <= k < j1.outputs.len() && j1.outputs[k] == o;
        assert(j1.outputs.contains(o));
        assert(o.role != "pending_move"@);
        assert(j.outputs[k] == o);
    }
    match s {
        Err(e) => {
            let message = "apply: could not persist move intent: "@ + e;
            lemma_backed_out(message, j2, t1);
            lemma_on(t, t1, operation::backed_out(message, j2, t1).2);
        },
        Ok(_) => {
            let (m, t2) = fs_ops::moved_one(item.source.path, item.destination, force, t1);
            lemma_moved_one(
                item.source.path,
                item.destination,
                force,
                t1,
                writes_at(item.destination),
            );
            lemma_known_written(t1, t2, item.destination);
            lemma_on(t, t1, t2);
            lemma_rooted_stays(j2, t1, t2);
            lemma_known_stays(t1, t2, item.source.path);
            match m {
                Err(e) => {
                    lemma_backed_out("apply: "@ + e, j2, t2);
                    lemma_on(t, t2, operation::backed_out("apply: "@ + e, j2, t2).2);
                },
                Ok(_) => {},
            }
        },
    }
}

proof fn lemma_transferred(
    item: TransferItemView,
    force: bool,
    moving: bool,
    j: JournalView,
    t: TalkView,
)
    requires
        t.in_step(),
        rooted(j, t),
    ensures
        sound_step(operation::transferred(item, force, moving, j, t), t),
{
    let (r, j1, t1) = if moving {
        operation::file_moved(item, force, j, t)
    } else {
        operation::file_copied(item, force, j, t)
    };
    if moving {
        lemma_file_moved(item, force, j, t);
    } else {
        lemma_file_copied(item, force, j, t);
    }
    if r is Ok {
        let (f, t2) = fileset::inspected(item.destination, None, t1);
        lemma_plain(t1, RequestView::Inspect(item.destination));
        lemma_on(t, t1, t2);
        lemma_rooted_stays(j1, t1, t2);
        match f {
            Ok(record) => {
                let o = OutputView {
                    role: if moving {
                        "moved"@
                    } else {
                        "copy"@
                    },
                    record,
                    original: if moving {
                        Some(item.source.path)
                    } else {
                        None
                    },
                };
                let j2 = JournalView {
                    outputs: j1.outputs.push(o),
                    steps: operation::without_destination(j1.steps, item.destination),
                    ..j1
                };
                if moving {
                    lemma_known_stays(t1, t2, item.source.path);
                }
                assert(rooted(j2, t2));
                let t3 = operation::saved(j2, t2).1;
                lemma_plain(t2, RequestView::SaveJournal(j2));
                lemma_on(t, t2, t3);
                lemma_rooted_stays(j2, t2, t3);
            },
            Err(_) => {},
        }
    }
}

proof fn lemma_all_transferred(
    items: Seq<TransferItemView>,
    i: int,
    force: bool,
    moving: bool,
    j: JournalView,
    t: TalkView,
)
    requires
        t.in_step(),
        rooted(j, t),
    ensures
        sound_step(operation::all_transferred(items, i, force, moving, j, t), t),
    decreases items.len() - i,
{
    lemma_none(t, writes_nothing());
    lemma_nothing_written(t, t);
    if 0 <= i < items.len() {
        let (r, j1, t1) = operation::transferred(items[i], force, moving, j, t);
        lemma_transferred(items[i], force, moving, j, t);
        if r is Ok {
            lemma_all_transferred(items, i + 1, force, moving, j1, t1);
            lemma_on(t, t1, operation::all_transferred(items, i + 1, force, moving, j1, t1).2);
        }
    }
}

proof fn lemma_backed_up(
    archive: Seq<char>,
    backup: Seq<char>,
    force: bool,
    j: JournalView,
    t: TalkView,
)
    requires
        t.in_step(),
        rooted(j, t),
    ensures
        sound_step(operation::backed_up(archive, backup, force, j, t), t),
{
    let (staging, t1) = operation::staged_at(backup, j.id, "backup"@, t);
    lemma_staged_at(backup, j.id, "backup"@, t);
    lemma_rooted_stays(j, t, t1);
    match staging {
        Err(e) => {
            lemma_backed_out(e, j, t1);
            lemma_on(t, t1, operation::backed_out(e, j, t1).2);
        },
        Ok(s) => {
            let (noted, j1, t2) = operation::staging_noted(s, j, t1);
            lemma_staging_noted(s, j, t1);
            lemma_on(t, t1, t2);
            match noted {
                Err(e) => {
                    lemma_backed_out(e, j1, t2);
                    lemma_on(t, t2, operation::backed_out(e, j1, t2).2);
                },
                Ok(_) => {
                    lemma_backup_made(archive, backup, force, s, j1, t2);
                    lemma_on(t, t2, operation::backed_up(archive, backup, force, j, t).2);
                },
            }
        },
    }
}

proof fn lemma_backup_made(
    archive: Seq<char>,
    backup: Seq<char>,
    force: bool,
    s: Seq<char>,
    j: JournalView,
    t: TalkView,
)
    requires
        t.in_step(),
        rooted(j, t),
        known(t, s),
    ensures
        ({
            let (made, t3) = match paths::parent_of(s) {
                Some(p) => dialog::acted(t, ActionView::CreateDirs(p)),
                None => (Ok(()), t),
            };
            let words = "compress: could not create "@ + (match paths::parent_of(s) {
                Some(p) => p,
                None => Seq::empty(),
            }) + ": "@;
            match made {
                Err(e) => sound_step(operation::backed_out(words + e, j, t3), t),
                Ok(_) => {
                    let (done, t4) = dialog::acted(t3, ActionView::CopyFile(archive, s));
                    match done {
                        Err(e) => sound_step(
                            operation::backed_out(
                                "compress: could not stage backup "@ + backup + ": "@ + e,
                                j,
                                dialog::acted(t4, ActionView::RemoveFile(s)).1,
                            ),
                            t,
                        ),
                        Ok(_) => {
                            let (p, j2, t5) = operation::published(
                                s,
                                backup,
                                force,
                                "pending_backup"@,
                                "compress: could not identify staged backup: "@,
                                "apply: could not persist publication intent: "@,
                                false,
                                j,
                                t4,
                            );
                            match p {
                                Err(e) => sound_step((Err(e), j2, t5), t),
                                Ok(_) => {
                                    let (c, j3, t6) = operation::output_noted(
                                        "backup"@,
                                        backup,
                                        j2,
                                        t5,
                                    );
                                    match c {
                                        Err(e) => sound_step(operation::backed_out(e, j3, t6), t),
                                        Ok(_) => sound_step((Ok(()), j3, t6), t),
                                    }
                                },
                            }
                        },
                    }
                },
            }
        }),
{
    lemma_none(t, writes_nothing());
    lemma_nothing_written(t, t);
    let (made, t3) = match paths::parent_of(s) {
        Some(p) => dialog::acted(t, ActionView::CreateDirs(p)),
        None => (Ok(()), t),
    };
    match paths::parent_of(s) {
        Some(p) => {
            lemma_plain(t, RequestView::Do(ActionView::CreateDirs(p)));
        },
        None => {},
    }
    lemma_rooted_stays(j, t, t3);
    lemma_known_stays(t, t3, s);
    let words = "compress: could not create "@ + (match paths::parent_of(s) {
        Some(p) => p,
        None => Seq::empty(),
    }) + ": "@;
    match made {
        Err(e) => {
            lemma_backed_out(words + e, j, t3);
            lemma_on(t, t3, operation::backed_out(words + e, j, t3).2);
        },
        Ok(_) => {
            let copying = RequestView::Do(ActionView::CopyFile(archive, s));
            let (done, t4) = dialog::acted(t3, ActionView::CopyFile(archive, s));
            lemma_one(t3, copying, writes_at(s));
            lemma_known_written(t3, t4, s);
            lemma_on(t, t3, t4);
            lemma_rooted_stays(j, t3, t4);
            match done {
                Err(e) => {
                    let gone = RequestView::Do(ActionView::RemoveFile(s));
                    let left = dialog::asked(t4, gone).1;
                    lemma_plain(t4, gone);
                    lemma_on(t, t4, left);
                    lemma_rooted_stays(j, t4, left);
                    let message = "compress: could not stage backup "@ + backup + ": "@ + e;
                    lemma_backed_out(message, j, left);
                    lemma_on(t, left, operation::backed_out(message, j, left).2);
                },
                Ok(_) => {
                    let unidentified = "compress: could not identify staged backup: "@;
                    let unsaved = "apply: could not persist publication intent: "@;
                    lemma_published(
                        s,
                        backup,
                        force,
                        "pending_backup"@,
                        unidentified,
                        unsaved,
                        false,
                        j,
                        t4,
                    );
                    let (p, j2, t5) = operation::published(
                        s,
                        backup,
                        force,
                        "pending_backup"@,
                        unidentified,
                        unsaved,
                        false,
                        j,
                        t4,
                    );
                    lemma_on(t, t4, t5);
                    if p is Ok {
                        let (c, j3, t6) = operation::output_noted("backup"@, backup, j2, t5);
                        lemma_output_noted("backup"@, backup, j2, t5);
                        lemma_on(t, t5, t6);
                        match c {
                            Err(e) => {
                                lemma_backed_out(e, j3, t6);
                                lemma_on(t, t6, operation::backed_out(e, j3, t6).2);
                            },
                            Ok(_) => {},
                        }
                    }
                },
            }
        },
    }
}

proof fn lemma_archive_finished(
    item: ArchivePlanItemView,
    force: bool,
    j: JournalView,
    t: TalkView,
)
    requires
        t.in_step(),
        rooted(j, t),
    ensures
        sound_step(operation::archive_finished(item, force, j, t), t),
{
    lemma_none(t, writes_nothing());
    lemma_nothing_written(t, t);
    let (b, j1, t1) = match item.backup {
        Some(backup) => operation::backed_up(item.archive, backup, force, j, t),
        None => (Ok(()), j, t),
    };
    match item.backup {
        Some(backup) => {
            lemma_backed_up(item.archive, backup, force, j, t);
        },
        None => {},
    }
    if b is Ok {
        let j2 = JournalView {
            archives: operation::without_archive(j1.archives, item.archive),
            ..j1
        };
        let t2 = operation::saved(j2, t1).1;
        lemma_plain(t1, RequestView::SaveJournal(j2));
        lemma_on(t, t1, t2);
        lemma_rooted_stays(j1, t1, t2);
        assert(rooted(j2, t2));
    }
}

proof fn lemma_archived(item: ArchivePlanItemView, force: bool, j: JournalView, t: TalkView)
    requires
        t.in_step(),
        rooted(j, t),
    ensures
        sound_step(operation::archived(item, force, j, t), t),
{
    let (staging, t1) = operation::staged_at(item.archive, j.id, "archive"@, t);
    lemma_staged_at(item.archive, j.id, "archive"@, t);
    lemma_rooted_stays(j, t, t1);
    match staging {
        Err(e) => {
            lemma_backed_out(e, j, t1);
            lemma_on(t, t1, operation::backed_out(e, j, t1).2);
        },
        Ok(s) => {
            let (noted, j1, t2) = operation::staging_noted(s, j, t1);
            lemma_staging_noted(s, j, t1);
            lemma_on(t, t1, t2);
            match noted {
                Err(e) => {
                    lemma_backed_out(e, j1, t2);
                    lemma_on(t, t2, operation::backed_out(e, j1, t2).2);
                },
                Ok(_) => {
                    let building = RequestView::BuildArchive(item, s);
                    let (built, t3) = dialog::tried(t2, building);
                    lemma_one(t2, building, writes_at(s));
                    lemma_known_written(t2, t3, s);
                    lemma_on(t, t2, t3);
                    lemma_rooted_stays(j1, t2, t3);
                    match built {
                        Err(e) => {
                            let gone = RequestView::Do(ActionView::RemoveFile(s));
                            let left = dialog::asked(t3, gone).1;
                            lemma_plain(t3, gone);
                            lemma_on(t, t3, left);
                            lemma_rooted_stays(j1, t3, left);
                            lemma_backed_out(e, j1, left);
                            lemma_on(t, left, operation::backed_out(e, j1, left).2);
                        },
                        Ok(_) => {
                            let unidentified = "compress: could not identify staged archive: "@;
                            let unsaved = "apply: could not persist publication intent: "@;
                            lemma_published(
                                s,
                                item.archive,
                                force,
                                "pending_archive"@,
                                unidentified,
                                unsaved,
                                false,
                                j1,
                                t3,
                            );
                            let (p, j2, t4) = operation::published(
                                s,
                                item.archive,
                                force,
                                "pending_archive"@,
                                unidentified,
                                unsaved,
                                false,
                                j1,
                                t3,
                            );
                            lemma_on(t, t3, t4);
                            if p is Ok {
                                let (c, j3, t5) = operation::output_noted(
                                    "archive"@,
                                    item.archive,
                                    j2,
                                    t4,
                                );
                                lemma_output_noted("archive"@, item.archive, j2, t4);
                                lemma_on(t, t4, t5);
                                match c {
                                    Err(e) => {
                                        lemma_backed_out(e, j3, t5);
                                        lemma_on(t, t5, operation::backed_out(e, j3, t5).2);
                                    },
                                    Ok(_) => {
                                        lemma_archive_finished(item, force, j3, t5);
                                        lemma_on(
                                            t,
                                            t5,
                                            operation::archive_finished(item, force, j3, t5).2,
                                        );
                                    },
                                }
                            }
                        },
                    }
                },
            }
        },
    }
}

proof fn lemma_all_archived(
    items: Seq<ArchivePlanItemView>,
    i: int,
    force: bool,
    j: JournalView,
    t: TalkView,
)
    requires
        t.in_step(),
        rooted(j, t),
    ensures
        sound_step(operation::all_archived(items, i, force, j, t), t),
    decreases items.len() - i,
{
    lemma_none(t, writes_nothing());
    lemma_nothing_written(t, t);
    if 0 <= i < items.len() {
        let (r, j1, t1) = operation::archived(items[i], force, j, t);
        lemma_archived(items[i], force, j, t);
        if r is Ok {
            lemma_all_archived(items, i + 1, force, j1, t1);
            lemma_on(t, t1, operation::all_archived(items, i + 1, force, j1, t1).2);
        }
    }
}

// ---------------------------------------------------------------------------
// Deletions
// ---------------------------------------------------------------------------

/// Whether removals are among some requests.
pub open spec fn has_removals(f: spec_fn(RequestView) -> bool) -> bool {
    &&& forall|p: Seq<char>| #[trigger] f(RequestView::Do(ActionView::RemoveFile(p)))
    &&& forall|p: Seq<char>| #[trigger] f(RequestView::Do(ActionView::RemoveDir(p)))
    &&& forall|p: Seq<char>| #[trigger] f(RequestView::Do(ActionView::Recycle(p)))
}

proof fn lemma_erased(
    path: Seq<char>,
    facts: FileFacts,
    fuel: nat,
    t: TalkView,
    f: spec_fn(RequestView) -> bool,
)
    requires
        has_questions(f),
        has_removals(f),
    ensures
        all_new(t, delete::erased(path, facts, fuel, t).1, f),
    decreases fuel, 0int,
{
    let file = RequestView::Do(ActionView::RemoveFile(path));
    let dir = RequestView::Do(ActionView::RemoveDir(path));
    assert(f(file) && f(dir));
    lemma_one(t, file, f);
    if facts.is_symlink {
        let t1 = dialog::asked(t, RequestView::IsDirectory(path)).1;
        lemma_one(t, RequestView::IsDirectory(path), f);
        lemma_one(t1, dir, f);
        lemma_one(t1, file, f);
        lemma_then(t, t1, dialog::asked(t1, dir).1, f);
        lemma_then(t, t1, dialog::asked(t1, file).1, f);
    } else if facts.is_dir {
        let listing = RequestView::ListWhole(path);
        let (a, t1) = dialog::asked(t, listing);
        lemma_one(t, listing, f);
        match a {
            AnswerView::Entries(entries) => if fuel > 0 {
                let t2 = delete::erased_entries(entries, 0, path, (fuel - 1) as nat, t1).1;
                lemma_erased_entries(entries, 0, path, (fuel - 1) as nat, t1, f);
                lemma_then(t, t1, t2, f);
                lemma_one(t2, dir, f);
                lemma_then(t, t2, dialog::asked(t2, dir).1, f);
            },
            _ => {},
        }
    }
}

proof fn lemma_erased_entries(
    entries: Seq<EntryView>,
    k: int,
    dir: Seq<char>,
    fuel: nat,
    t: TalkView,
    f: spec_fn(RequestView) -> bool,
)
    requires
        has_questions(f),
        has_removals(f),
    ensures
        all_new(t, delete::erased_entries(entries, k, dir, fuel, t).1, f),
    decreases
            fuel,
            if k < entries.len() {
                1 + entries.len() - k
            } else {
                1
            },
{
    lemma_none(t, f);
    if 0 <= k < entries.len() {
        let child = crate::fs_builtins::path_below(dir, entries[k].name);
        let (a, t1) = dialog::asked(t, RequestView::Examine(child));
        lemma_one(t, RequestView::Examine(child), f);
        match a {
            AnswerView::File(facts) => {
                let t2 = delete::erased(child, facts, fuel, t1).1;
                lemma_erased(child, facts, fuel, t1, f);
                lemma_then(t, t1, t2, f);
                lemma_erased_entries(entries, k + 1, dir, fuel, t2, f);
                lemma_then(t, t2, delete::erased_entries(entries, k + 1, dir, fuel, t2).1, f);
            },
            _ => {},
        }
    }
}

proof fn lemma_deleted_one(
    path: Seq<char>,
    options: DeleteOptions,
    t: TalkView,
    f: spec_fn(RequestView) -> bool,
)
    requires
        has_questions(f),
        has_removals(f),
    ensures
        all_new(t, delete::deleted_one(path, options, t).1, f),
{
    let (a, t1) = dialog::asked(t, RequestView::Facts(path));
    lemma_one(t, RequestView::Facts(path), f);
    match a {
        AnswerView::File(facts) => {
            let t2 = delete::allowed(path, facts, options, t1).1;
            lemma_allowed(path, facts, options, t1, f);
            lemma_then(t, t1, t2, f);
            let recycling = RequestView::Do(ActionView::Recycle(path));
            assert(f(recycling));
            lemma_one(t2, recycling, f);
            lemma_then(t, t2, dialog::asked(t2, recycling).1, f);
            lemma_erased(path, facts, t2.answers.len(), t2, f);
            lemma_then(t, t2, delete::erased(path, facts, t2.answers.len(), t2).1, f);
        },
        _ => {},
    }
}

/// The requests that remove a link and nothing behind it.
pub open spec fn unlinks(path: Seq<char>) -> spec_fn(RequestView) -> bool {
    |r: RequestView|
        r == RequestView::IsDirectory(path) || r == RequestView::Do(ActionView::RemoveDir(path))
            || r == RequestView::Do(ActionView::RemoveFile(path))
}

/// A link is removed itself: what it leads to is neither listed nor removed.
pub proof fn law_links_are_not_entered(path: Seq<char>, facts: FileFacts, fuel: nat, t: TalkView)
    requires
        facts.is_symlink,
    ensures
        all_new(t, delete::erased(path, facts, fuel, t).1, unlinks(path)),
{
    let f = unlinks(path);
    let t1 = dialog::asked(t, RequestView::IsDirectory(path)).1;
    lemma_one(t, RequestView::IsDirectory(path), f);
    let dir = RequestView::Do(ActionView::RemoveDir(path));
    let file = RequestView::Do(ActionView::RemoveFile(path));
    lemma_one(t1, dir, f);
    lemma_one(t1, file, f);
    lemma_then(t, t1, dialog::asked(t1, dir).1, f);
    lemma_then(t, t1, dialog::asked(t1, file).1, f);
}

/// Whether the world answers that a path leads to the root of a file system.
pub open spec fn leads_to_root(path: Seq<char>, t: TalkView) -> bool {
    match dialog::asked(t, RequestView::Canonical(path)).0 {
        AnswerView::Text(canonical) => crate::paths::is_volume_root(canonical),
        _ => false,
    }
}

/// Whether the world answers that the working directory is a path's or lies
/// below it.
pub open spec fn holds_working_directory(path: Seq<char>, t: TalkView) -> bool {
    let (a, t1) = dialog::asked(t, RequestView::Canonical(path));
    let (b, t2) = dialog::asked(t1, RequestView::WorkingDirectory);
    match (a, b) {
        (AnswerView::Text(canonical), AnswerView::Text(cwd)) => match dialog::asked(
            t2,
            RequestView::Canonical(cwd),
        ).0 {
            AnswerView::Text(current) => crate::paths::at_or_below(current, canonical),
            _ => false,
        },
        _ => false,
    }
}

/// The root of a drive, a share or a device, the working directory and the
/// directories above it are too broad to delete.
pub proof fn law_broad_targets_are_refused(path: Seq<char>, t: TalkView)
    requires
        leads_to_root(path, t) || holds_working_directory(path, t),
    ensures
        delete::narrow(path, t).0 is Err,
{
    match dialog::asked(t, RequestView::Canonical(path)).0 {
        AnswerView::Text(canonical) => if crate::paths::is_volume_root(canonical) {
            crate::paths::law_volume_root_has_no_parent(canonical);
        },
        _ => {},
    }
}

/// A file-system root, the working directory and the directories above it are
/// never deleted, whatever the options: there are only questions.
pub proof fn law_broad_targets_stay(
    path: Seq<char>,
    facts: FileFacts,
    options: DeleteOptions,
    t: TalkView,
)
    requires
        dialog::asked(t, RequestView::Facts(path)).0 == AnswerView::File(facts),
        !facts.is_symlink,
        ({
            let t1 = dialog::asked(t, RequestView::Facts(path)).1;
            let t2 = delete::leads_to_dir(path, facts, t1).1;
            leads_to_root(path, t2) || holds_working_directory(path, t2)
        }),
    ensures
        delete::deleted_one(path, options, t).0 is Failed,
        all_new(t, delete::deleted_one(path, options, t).1, questions()),
{
    let f = questions();
    let t1 = dialog::asked(t, RequestView::Facts(path)).1;
    law_broad_targets_are_refused(path, delete::leads_to_dir(path, facts, t1).1);
    lemma_one(t, RequestView::Facts(path), f);
    lemma_allowed(path, facts, options, t1, f);
    lemma_then(t, t1, delete::allowed(path, facts, options, t1).1, f);
}

/// The questions, and handing one path to the recycle bin.
pub open spec fn recycles(path: Seq<char>) -> spec_fn(RequestView) -> bool {
    |r: RequestView| is_question(r) || r == RequestView::Do(ActionView::Recycle(path))
}

/// What is not deleted for good goes to the recycle bin: nothing else is
/// changed.
pub proof fn law_recycling_removes_nothing(path: Seq<char>, options: DeleteOptions, t: TalkView)
    requires
        !options.permanent,
    ensures
        all_new(t, delete::deleted_one(path, options, t).1, recycles(path)),
{
    let f = recycles(path);
    let (a, t1) = dialog::asked(t, RequestView::Facts(path));
    lemma_one(t, RequestView::Facts(path), f);
    match a {
        AnswerView::File(facts) => {
            let t2 = delete::allowed(path, facts, options, t1).1;
            lemma_allowed(path, facts, options, t1, f);
            lemma_then(t, t1, t2, f);
            let recycling = RequestView::Do(ActionView::Recycle(path));
            lemma_one(t2, recycling, f);
            lemma_then(t, t2, dialog::asked(t2, recycling).1, f);
        },
        _ => {},
    }
}

proof fn lemma_all_deleted(
    items: Seq<FileRecordView>,
    i: int,
    options: DeleteOptions,
    j: JournalView,
    t: TalkView,
)
    ensures
        explained(t, operation::all_deleted(items, i, options, j, t).2),
    decreases items.len() - i,
{
    lemma_none(t, writes_nothing());
    lemma_nothing_written(t, t);
    if 0 <= i < items.len() {
        let (r, t1) = delete::plan_deleted(items[i].path, options, t);
        lemma_deleted_one(items[i].path, options, t, writes_nothing());
        lemma_nothing_written(t, t1);
        match r {
            Err(e) => {
                let j1 = JournalView {
                    status: if j.outputs.len() == 0 {
                        "failed"@
                    } else {
                        "partially_applied"@
                    },
                    ..j
                };
                lemma_plain(t1, RequestView::SaveJournal(j1));
                lemma_on(t, t1, operation::saved(j1, t1).1);
            },
            Ok(_) => {
                let o = OutputView {
                    role: "recycled"@,
                    record: items[i],
                    original: Some(items[i].path),
                };
                let j1 = JournalView { outputs: j.outputs.push(o), ..j };
                let t2 = operation::saved(j1, t1).1;
                lemma_plain(t1, RequestView::SaveJournal(j1));
                lemma_on(t, t1, t2);
                lemma_all_deleted(items, i + 1, options, j1, t2);
                lemma_on(t, t2, operation::all_deleted(items, i + 1, options, j1, t2).2);
            },
        }
    }
}

// ---------------------------------------------------------------------------
// Whole operations
// ---------------------------------------------------------------------------

proof fn lemma_carried_out(plan: PlanView, j: JournalView, t: TalkView)
    requires
        t.in_step(),
        j.outputs.len() == 0,
    ensures
        explained(t, operation::carried_out(plan, j, t).2),
{
    let f = writes_nothing();
    match plan.operation {
        PlannedView::Archive(p) => {
            let t1 = dialog::tried(t, RequestView::CheckArchive(p)).1;
            lemma_plain(t, RequestView::CheckArchive(p));
            let t2 = operation::all_free(p.items, 0, plan.force, t1).1;
            lemma_all_free(p.items, 0, plan.force, t1, f);
            lemma_nothing_written(t1, t2);
            lemma_on(t, t1, t2);
            lemma_all_archived(p.items, 0, plan.force, j, t2);
            lemma_on(t, t2, operation::all_archived(p.items, 0, plan.force, j, t2).2);
        },
        PlannedView::Copy(items) => {
            let t1 = operation::transfers_checked(items, 0, plan.force, t).1;
            lemma_transfers_checked(items, 0, plan.force, t, f);
            lemma_nothing_written(t, t1);
            lemma_all_transferred(items, 0, plan.force, false, j, t1);
            lemma_on(t, t1, operation::all_transferred(items, 0, plan.force, false, j, t1).2);
        },
        PlannedView::Move(items) => {
            let t1 = operation::transfers_checked(items, 0, plan.force, t).1;
            lemma_transfers_checked(items, 0, plan.force, t, f);
            lemma_nothing_written(t, t1);
            lemma_all_transferred(items, 0, plan.force, true, j, t1);
            lemma_on(t, t1, operation::all_transferred(items, 0, plan.force, true, j, t1).2);
        },
        PlannedView::Delete(items, options) => {
            let t1 = operation::deletions_checked(items, 0, options, t).1;
            lemma_deletions_checked(items, 0, options, t, f);
            lemma_nothing_written(t, t1);
            lemma_all_deleted(items, 0, options, j, t1);
            lemma_on(t, t1, operation::all_deleted(items, 0, options, j, t1).2);
        },
    }
}

proof fn lemma_nothing_there(
    items: Seq<ArchivePlanItemView>,
    i: int,
    t: TalkView,
    f: spec_fn(RequestView) -> bool,
)
    requires
        has_questions(f),
    ensures
        all_new(t, operation::nothing_there(items, i, t).1, f),
    decreases items.len() - i,
{
    lemma_none(t, f);
    if 0 <= i < items.len() {
        let t1 = dialog::exists_at(t, items[i].archive).1;
        lemma_one(t, RequestView::Exists(items[i].archive), f);
        lemma_nothing_there(items, i + 1, t1, f);
        lemma_then(t, t1, operation::nothing_there(items, i + 1, t1).1, f);
        match items[i].backup {
            Some(b) => {
                let t2 = dialog::exists_at(t1, b).1;
                lemma_one(t1, RequestView::Exists(b), f);
                lemma_then(t, t1, t2, f);
                lemma_nothing_there(items, i + 1, t2, f);
                lemma_then(t, t2, operation::nothing_there(items, i + 1, t2).1, f);
            },
            None => {},
        }
    }
}

proof fn lemma_first_journal(plan: PlanView, t: TalkView)
    ensures
        explained(t, operation::first_journal(plan, t).1),
        operation::first_journal(plan, t).0.outputs.len() == 0,
{
    let f = writes_nothing();
    let t1 = operation::clock(t).1;
    lemma_one(t, RequestView::Seconds, f);
    let t2 = operation::replaces_nothing(plan.operation, t1).1;
    lemma_none(t1, f);
    match plan.operation {
        PlannedView::Archive(p) => {
            lemma_nothing_there(p.items, 0, t1, f);
        },
        _ => {},
    }
    lemma_then(t, t1, t2, f);
    let t3 = dialog::asked(t2, RequestView::Nanoseconds).1;
    lemma_one(t2, RequestView::Nanoseconds, f);
    lemma_then(t, t2, t3, f);
    let t4 = dialog::asked(t3, RequestView::Sequence).1;
    lemma_one(t3, RequestView::Sequence, f);
    lemma_then(t, t3, t4, f);
    lemma_nothing_written(t, t4);
}

/// Intents come first: whatever the outside answers, applying a plan writes
/// no file that is not named by a journal that was made to last before.
pub proof fn law_intents_come_first(plan: PlanView, t: TalkView)
    requires
        t.in_step(),
    ensures
        explained(t, operation::applied(plan, t).1),
{
    let (j0, t1) = operation::first_journal(plan, t);
    lemma_first_journal(plan, t);
    let (s, t2) = operation::saved(j0, t1);
    lemma_plain(t1, RequestView::SaveJournal(j0));
    lemma_on(t, t1, t2);
    if s is Ok {
        let (r, j1, t3) = operation::carried_out(plan, j0, t2);
        lemma_carried_out(plan, j0, t2);
        lemma_on(t, t2, t3);
        let (finished_at, t4) = operation::clock(t3);
        lemma_plain(t3, RequestView::Seconds);
        lemma_on(t, t3, t4);
        let j2 = match r {
            Ok(_) => JournalView { status: "applied"@, finished_at, ..j1 },
            Err(e) => JournalView {
                status: if j1.status == "in_progress"@ {
                    "failed"@
                } else {
                    j1.status
                },
                error: Some(e),
                finished_at,
                ..j1
            },
        };
        lemma_plain(t4, RequestView::SaveJournal(j2));
        lemma_on(t, t4, operation::saved(j2, t4).1);
    }
}

// ---------------------------------------------------------------------------
// Going on after a crash
// ---------------------------------------------------------------------------

proof fn lemma_any_there(list: Seq<Seq<char>>, i: int, t: TalkView, f: spec_fn(RequestView) -> bool)
    requires
        has_questions(f),
    ensures
        all_new(t, operation::any_there(list, i, t).1, f),
    decreases list.len() - i,
{
    lemma_none(t, f);
    if 0 <= i < list.len() {
        let t1 = dialog::exists_at(t, list[i]).1;
        lemma_one(t, RequestView::Exists(list[i]), f);
        lemma_any_there(list, i + 1, t1, f);
        lemma_then(t, t1, operation::any_there(list, i + 1, t1).1, f);
    }
}

proof fn lemma_those_there(
    list: Seq<Seq<char>>,
    n: int,
    t: TalkView,
    f: spec_fn(RequestView) -> bool,
)
    requires
        has_questions(f),
    ensures
        all_new(t, operation::those_there(list, n, t).1, f),
    decreases n,
{
    lemma_none(t, f);
    if n > 0 {
        let t1 = operation::those_there(list, n - 1, t).1;
        lemma_those_there(list, n - 1, t, f);
        lemma_one(t1, RequestView::Exists(list[n - 1]), f);
        lemma_then(t, t1, dialog::exists_at(t1, list[n - 1]).1, f);
    }
}

proof fn lemma_publication_resumed(
    role: Seq<char>,
    dest: Seq<char>,
    w: operation::PublicationWords,
    j: JournalView,
    t: TalkView,
)
    ensures
        explained(t, operation::publication_resumed(role, dest, w, j, t).2),
{
    let f = writes_nothing();
    lemma_none(t, f);
    lemma_nothing_written(t, t);
    match operation::output_place(j.outputs, 0, role, dest) {
        Some(k) => {
            let record = j.outputs[k].record;
            let (staged, t1) = operation::found_staged(j.staging, 0, record, w.staged_drift, t);
            lemma_found_staged(j.staging, 0, record, w.staged_drift, t, f);
            let t2 = if staged is None {
                operation::any_there(j.staging, 0, t1).1
            } else {
                t1
            };
            lemma_none(t1, f);
            lemma_any_there(j.staging, 0, t1, f);
            lemma_then(t, t1, t2, f);
            let t3 = dialog::exists_at(t2, dest).1;
            lemma_one(t2, RequestView::Exists(dest), f);
            lemma_then(t, t2, t3, f);
            let t4 = operation::validated(record, w.published_drift, t3).1;
            lemma_validated(record, w.published_drift, t3, f);
            lemma_then(t, t3, t4, f);
            let n = j.staging.len() as int;
            let t5 = operation::those_there(j.staging, n, t4).1;
            lemma_those_there(j.staging, n, t4, f);
            lemma_then(t, t4, t5, f);
            lemma_nothing_written(t, t2);
            lemma_nothing_written(t, t3);
            lemma_nothing_written(t, t4);
            lemma_nothing_written(t, t5);
            match staged {
                Some(s) => {
                    lemma_put_in_place(s, dest, false, t3);
                    lemma_on(t, t3, operation::put_in_place(s, dest, false, t3).1);
                },
                None => {},
            }
        },
        None => {},
    }
}

proof fn lemma_with_staging(j: JournalView, p: Seq<char>)
    ensures
        names(JournalView { staging: operation::with_staging(j.staging, p), ..j }, p),
{
    let list = operation::with_staging(j.staging, p);
    if !j.staging.contains(p) {
        assert(list[j.staging.len() as int] == p);
    }
    assert(list.contains(p));
}

proof fn lemma_republished(
    staging: Seq<char>,
    dest: Seq<char>,
    role: Seq<char>,
    unidentified: Seq<char>,
    j: JournalView,
    t: TalkView,
)
    ensures
        explained(t, operation::republished(staging, dest, role, unidentified, j, t).2),
{
    let (r, t1) = fileset::inspected(staging, None, t);
    lemma_plain(t, RequestView::Inspect(staging));
    match r {
        Ok(found) => {
            let record = FileRecordView { path: dest, ..found };
            let o = OutputView { role, record, original: None };
            let j1 = JournalView { outputs: j.outputs.push(o), ..j };
            let t2 = operation::saved(j1, t1).1;
            lemma_plain(t1, RequestView::SaveJournal(j1));
            lemma_on(t, t1, t2);
            lemma_put_in_place(staging, dest, false, t2);
            lemma_on(t, t2, operation::put_in_place(staging, dest, false, t2).1);
        },
        Err(_) => {},
    }
}

proof fn lemma_copy_rebuilt(step: operation::StepView, j: JournalView, t: TalkView)
    requires
        t.in_step(),
    ensures
        explained(t, operation::copy_rebuilt(step, j, t).2),
{
    let t1 = dialog::exists_at(t, step.destination).1;
    lemma_plain(t, RequestView::Exists(step.destination));
    let t2 = operation::validated(step.source, "recover: copy source drift"@, t1).1;
    lemma_plain(t1, RequestView::Inspect(step.source.path));
    lemma_on(t, t1, t2);
    let (staging, t3) = operation::staged_at(step.destination, j.id, "copy"@, t2);
    lemma_staged_at(step.destination, j.id, "copy"@, t2);
    lemma_on(t, t2, t3);
    match staging {
        Ok(s) => {
            let j1 = JournalView { staging: operation::with_staging(j.staging, s), ..j };
            lemma_with_staging(j, s);
            let (w, t4) = operation::saved(j1, t3);
            lemma_saved(j1, s, t3);
            lemma_on(t, t3, t4);
            if w is Ok {
                let t5 = copy::copied_one(step.source.path, s, false, t4).1;
                lemma_copied_one(step.source.path, s, false, t4, writes_at(s));
                lemma_known_written(t4, t5, s);
                lemma_on(t, t4, t5);
                let unidentified = "recover: could not identify staged copy: "@;
                lemma_republished(s, step.destination, "pending_copy"@, unidentified, j1, t5);
                lemma_on(
                    t,
                    t5,
                    operation::republished(
                        s,
                        step.destination,
                        "pending_copy"@,
                        unidentified,
                        j1,
                        t5,
                    ).2,
                );
            }
        },
        Err(_) => {},
    }
}

proof fn lemma_copy_resumed(step: operation::StepView, j: JournalView, t: TalkView)
    requires
        t.in_step(),
    ensures
        explained(t, operation::copy_resumed(step, j, t).2),
{
    lemma_none(t, writes_nothing());
    lemma_nothing_written(t, t);
    let words = operation::copy_words();
    let (p, j1, t1) = operation::publication_resumed(
        "pending_copy"@,
        step.destination,
        words,
        j,
        t,
    );
    lemma_publication_resumed("pending_copy"@, step.destination, words, j, t);
    match p {
        Ok(noted) => {
            let (b, j2, t2) = if noted {
                (Ok(()), j1, t1)
            } else {
                operation::copy_rebuilt(step, j1, t1)
            };
            lemma_copy_rebuilt(step, j1, t1);
            if !noted {
                lemma_on(t, t1, t2);
            }
            let unreadable = "recover: could not checkpoint resumed copy: "@;
            let (o, j3, t3) = operation::resumed_output(
                "copy"@,
                step.destination,
                unreadable,
                j2,
                t2,
            );
            lemma_plain(t2, RequestView::Inspect(step.destination));
            lemma_on(t, t2, t3);
            let j4 = JournalView {
                steps: operation::without_destination(j3.steps, step.destination),
                ..j3
            };
            lemma_plain(t3, RequestView::SaveJournal(j4));
            lemma_on(t, t3, operation::saved(j4, t3).1);
        },
        Err(_) => {},
    }
}

proof fn lemma_copies_resumed(
    steps: Seq<operation::StepView>,
    i: int,
    j: JournalView,
    t: TalkView,
)
    requires
        t.in_step(),
    ensures
        explained(t, operation::copies_resumed(steps, i, j, t).2),
    decreases steps.len() - i,
{
    lemma_none(t, writes_nothing());
    lemma_nothing_written(t, t);
    if 0 <= i < steps.len() {
        let (r, j1, t1) = operation::copy_resumed(steps[i], j, t);
        lemma_copy_resumed(steps[i], j, t);
        if r is Ok {
            lemma_copies_resumed(steps, i + 1, j1, t1);
            lemma_on(t, t1, operation::copies_resumed(steps, i + 1, j1, t1).2);
        }
    }
}

proof fn lemma_roles_unchanged(
    outputs: Seq<OutputView>,
    i: int,
    a: Seq<char>,
    b: Seq<char>,
    label: Seq<char>,
    t: TalkView,
    f: spec_fn(RequestView) -> bool,
)
    requires
        has_questions(f),
    ensures
        all_new(t, operation::roles_unchanged(outputs, i, a, b, label, t).1, f),
    decreases outputs.len() - i,
{
    lemma_none(t, f);
    if 0 <= i < outputs.len() {
        let t1 = operation::validated(outputs[i].record, label, t).1;
        lemma_validated(outputs[i].record, label, t, f);
        lemma_roles_unchanged(outputs, i + 1, a, b, label, t1, f);
        lemma_then(t, t1, operation::roles_unchanged(outputs, i + 1, a, b, label, t1).1, f);
        lemma_roles_unchanged(outputs, i + 1, a, b, label, t, f);
    }
}

proof fn lemma_resume_finished(j: JournalView, left: bool, what: Seq<char>, t: TalkView)
    ensures
        explained(t, operation::resume_finished(j, left, what, t).1),
{
    let f = writes_nothing();
    lemma_none(t, f);
    lemma_nothing_written(t, t);
    let t1 = operation::any_there(j.staging, 0, t).1;
    lemma_any_there(j.staging, 0, t, f);
    lemma_nothing_written(t, t1);
    let (now, t2) = operation::clock(t1);
    lemma_plain(t1, RequestView::Seconds);
    lemma_on(t, t1, t2);
    let j1 = JournalView {
        staging: Seq::empty(),
        status: "applied"@,
        error: None,
        finished_at: now,
        ..j
    };
    lemma_plain(t2, RequestView::SaveJournal(j1));
    lemma_on(t, t2, operation::saved(j1, t2).1);
}

proof fn lemma_entries_unchanged(
    entries: Seq<operation::ArchivePlanEntryView>,
    i: int,
    t: TalkView,
    f: spec_fn(RequestView) -> bool,
)
    requires
        has_questions(f),
    ensures
        all_new(t, operation::entries_unchanged(entries, i, t).1, f),
    decreases entries.len() - i,
{
    lemma_none(t, f);
    if 0 <= i < entries.len() {
        let label = "recover: archive source drift"@;
        let t1 = operation::validated(entries[i].source, label, t).1;
        lemma_validated(entries[i].source, label, t, f);
        lemma_entries_unchanged(entries, i + 1, t1, f);
        lemma_then(t, t1, operation::entries_unchanged(entries, i + 1, t1).1, f);
    }
}

proof fn lemma_archive_rebuilt(step: ArchivePlanItemView, j: JournalView, t: TalkView)
    requires
        t.in_step(),
    ensures
        explained(t, operation::archive_rebuilt(step, j, t).2),
{
    let t1 = operation::entries_unchanged(step.entries, 0, t).1;
    lemma_entries_unchanged(step.entries, 0, t, writes_nothing());
    lemma_nothing_written(t, t1);
    let (staging, t2) = operation::staged_at(step.archive, j.id, "archive"@, t1);
    lemma_staged_at(step.archive, j.id, "archive"@, t1);
    lemma_on(t, t1, t2);
    match staging {
        Ok(s) => {
            let j1 = JournalView { staging: operation::with_staging(j.staging, s), ..j };
            lemma_with_staging(j, s);
            let (w, t3) = operation::saved(j1, t2);
            lemma_saved(j1, s, t2);
            lemma_on(t, t2, t3);
            if w is Ok {
                let building = RequestView::BuildArchive(step, s);
                let t4 = dialog::tried(t3, building).1;
                lemma_one(t3, building, writes_at(s));
                lemma_known_written(t3, t4, s);
                lemma_on(t, t3, t4);
                let unidentified = "recover: could not identify staged archive: "@;
                lemma_republished(s, step.archive, "pending_archive"@, unidentified, j1, t4);
                lemma_on(
                    t,
                    t4,
                    operation::republished(
                        s,
                        step.archive,
                        "pending_archive"@,
                        unidentified,
                        j1,
                        t4,
                    ).2,
                );
            }
        },
        Err(_) => {},
    }
}

proof fn lemma_backup_rebuilt(archive: Seq<char>, backup: Seq<char>, j: JournalView, t: TalkView)
    requires
        t.in_step(),
    ensures
        explained(t, operation::backup_rebuilt(archive, backup, j, t).2),
{
    let (staging, t1) = operation::staged_at(backup, j.id, "backup"@, t);
    lemma_staged_at(backup, j.id, "backup"@, t);
    match staging {
        Ok(s) => {
            let j1 = JournalView { staging: operation::with_staging(j.staging, s), ..j };
            lemma_with_staging(j, s);
            let (w, t2) = operation::saved(j1, t1);
            lemma_saved(j1, s, t1);
            lemma_on(t, t1, t2);
            if w is Ok {
                let copying = RequestView::Do(ActionView::CopyFile(archive, s));
                let t3 = dialog::asked(t2, copying).1;
                lemma_one(t2, copying, writes_at(s));
                lemma_known_written(t2, t3, s);
                lemma_on(t, t2, t3);
                let unidentified = "recover: could not identify staged backup: "@;
                lemma_republished(s, backup, "pending_backup"@, unidentified, j1, t3);
                lemma_on(
                    t,
                    t3,
                    operation::republished(
                        s,
                        backup,
                        "pending_backup"@,
                        unidentified,
                        j1,
                        t3,
                    ).2,
                );
            }
        },
        Err(_) => {},
    }
}

proof fn lemma_archive_output_resumed(
    step: ArchivePlanItemView,
    backup: Option<Seq<char>>,
    j: JournalView,
    t: TalkView,
)
    requires
        t.in_step(),
    ensures
        explained(t, operation::archive_output_resumed(step, backup, j, t).2),
{
    lemma_none(t, writes_nothing());
    lemma_nothing_written(t, t);
    let (path, role, pending, unreadable) = match backup {
        None => (
            step.archive,
            "archive"@,
            "pending_archive"@,
            "recover: could not checkpoint archive: "@,
        ),
        Some(b) => (
            b,
            "backup"@,
            "pending_backup"@,
            "recover: could not checkpoint archive backup: "@,
        ),
    };
    let words = operation::archive_words();
    let (p, j1, t1) = operation::publication_resumed(pending, path, words, j, t);
    lemma_publication_resumed(pending, path, words, j, t);
    match p {
        Ok(noted) => {
            let (b, j2, t2) = if noted {
                (Ok(()), j1, t1)
            } else {
                match backup {
                    None => operation::archive_rebuilt(step, j1, t1),
                    Some(b) => operation::backup_rebuilt(step.archive, b, j1, t1),
                }
            };
            match backup {
                None => {
                    lemma_archive_rebuilt(step, j1, t1);
                },
                Some(b) => {
                    lemma_backup_rebuilt(step.archive, b, j1, t1);
                },
            }
            if !noted {
                lemma_on(t, t1, t2);
            }
            let (o, j3, t3) = operation::resumed_output(role, path, unreadable, j2, t2);
            lemma_plain(t2, RequestView::Inspect(path));
            lemma_on(t, t2, t3);
            lemma_plain(t3, RequestView::SaveJournal(j3));
            lemma_on(t, t3, operation::saved(j3, t3).1);
        },
        Err(_) => {},
    }
}

proof fn lemma_archives_resumed(
    steps: Seq<ArchivePlanItemView>,
    i: int,
    j: JournalView,
    t: TalkView,
)
    requires
        t.in_step(),
    ensures
        explained(t, operation::archives_resumed(steps, i, j, t).2),
    decreases steps.len() - i,
{
    lemma_none(t, writes_nothing());
    lemma_nothing_written(t, t);
    if 0 <= i < steps.len() {
        let step = steps[i];
        let (a, j1, t1) = operation::archive_output_resumed(step, None, j, t);
        lemma_archive_output_resumed(step, None, j, t);
        if a is Ok {
            let (b, j2, t2) = match step.backup {
                Some(p) => operation::archive_output_resumed(step, Some(p), j1, t1),
                None => (Ok(()), j1, t1),
            };
            match step.backup {
                Some(p) => {
                    lemma_archive_output_resumed(step, Some(p), j1, t1);
                    lemma_on(t, t1, t2);
                },
                None => {},
            }
            if b is Ok {
                let j3 = JournalView {
                    archives: operation::without_archive(j2.archives, step.archive),
                    ..j2
                };
                let (s, t3) = operation::saved(j3, t2);
                lemma_plain(t2, RequestView::SaveJournal(j3));
                lemma_on(t, t2, t3);
                assert(operation::archive_resumed(step, j, t) == (s, j3, t3));
                lemma_archives_resumed(steps, i + 1, j3, t3);
                lemma_on(t, t3, operation::archives_resumed(steps, i + 1, j3, t3).2);
            }
        }
    }
}

/// Going on after a crash holds to the same: no file is written that is not
/// named by a journal that was made to last before.
pub proof fn law_resumed_intents_come_first(j: JournalView, t: TalkView)
    requires
        t.in_step(),
    ensures
        explained(t, operation::recovered_forward(j, t).1),
{
    let f = writes_nothing();
    lemma_none(t, f);
    lemma_nothing_written(t, t);
    let copy_label = "recover: completed copy drift"@;
    let t1 = operation::roles_unchanged(j.outputs, 0, "copy"@, "copy"@, copy_label, t).1;
    lemma_roles_unchanged(j.outputs, 0, "copy"@, "copy"@, copy_label, t, f);
    lemma_nothing_written(t, t1);
    let (_, j1, t2) = operation::copies_resumed(j.steps, 0, j, t1);
    lemma_copies_resumed(j.steps, 0, j, t1);
    lemma_on(t, t1, t2);
    let left = j1.steps.len() > 0;
    lemma_resume_finished(j1, left, "remaining steps"@, t2);
    lemma_on(t, t2, operation::resume_finished(j1, left, "remaining steps"@, t2).1);
    let label = "recover: completed archive output drift"@;
    let t3 = operation::roles_unchanged(j.outputs, 0, "archive"@, "backup"@, label, t).1;
    lemma_roles_unchanged(j.outputs, 0, "archive"@, "backup"@, label, t, f);
    lemma_nothing_written(t, t3);
    let (_, j2, t4) = operation::archives_resumed(j.archives, 0, j, t3);
    lemma_archives_resumed(j.archives, 0, j, t3);
    lemma_on(t, t3, t4);
    let unbuilt = j2.archives.len() > 0;
    lemma_resume_finished(j2, unbuilt, "archive steps"@, t4);
    lemma_on(t, t4, operation::resume_finished(j2, unbuilt, "archive steps"@, t4).1);
}

// ---------------------------------------------------------------------------
// Packing
// ---------------------------------------------------------------------------

/// Whether a path is that of a small archive in a directory.
pub open spec fn is_small_archive(path: Seq<char>, dir: Seq<char>) -> bool {
    exists|n: nat|
        path == crate::fs_builtins::path_below(dir, #[trigger] crate::text::nat_text(n) + ".zip"@)
}

/// The requests of packing into `dest` by way of the directory `dir`: what is
/// removed is `dest`, a small archive in `dir`, or `dir`.
pub open spec fn packs(dest: Seq<char>, dir: Seq<char>) -> spec_fn(RequestView) -> bool {
    |r: RequestView|
        match r {
            RequestView::Do(a) => match a {
                ActionView::CreateDirs(p) => p == dir || paths::parent_of(dest) == Some(p),
                ActionView::OpenArchive(p) => p == dest,
                ActionView::DropArchive => true,
                ActionView::FinishArchive => true,
                ActionView::AddEntry(p) => is_small_archive(p, dir),
                ActionView::RemoveFile(p) => p == dest || is_small_archive(p, dir),
                ActionView::RemoveTree(p) => p == dir,
                _ => false,
            },
            RequestView::Pack(_, _, small) => is_small_archive(small, dir),
            RequestView::AwaitPack(small) => is_small_archive(small, dir),
            RequestView::Exists(p) => p == dest,
            RequestView::Sequence => true,
            RequestView::ProcessId => true,
            RequestView::TempDirectory => true,
            RequestView::Workers => true,
            RequestView::Interrupted => true,
            RequestView::TakeInterrupt => true,
            _ => false,
        }
}

proof fn lemma_started(
    entries: Seq<(Seq<char>, Seq<char>)>,
    i: int,
    n: int,
    dest: Seq<char>,
    dir: Seq<char>,
    t: TalkView,
)
    ensures
        all_new(t, compress::started(entries, i, n, dir, t).1, packs(dest, dir)),
        forall|k: int|
            0 <= k < compress::started(entries, i, n, dir, t).0.len() ==> is_small_archive(
                #[trigger] compress::started(entries, i, n, dir, t).0[k],
                dir,
            ),
        compress::started(entries, i, n, dir, t).0.len() == if n <= 0 {
            0
        } else {
            n
        },
    decreases n,
{
    let f = packs(dest, dir);
    if n <= 0 {
        lemma_none(t, f);
    } else {
        lemma_started(entries, i, n - 1, dest, dir, t);
        let (before, t1) = compress::started(entries, i, n - 1, dir, t);
        let (a, t2) = dialog::asked(t1, RequestView::Sequence);
        lemma_one(t1, RequestView::Sequence, f);
        lemma_then(t, t1, t2, f);
        let small = crate::fs_builtins::path_below(
            dir,
            crate::text::nat_text(a.as_number() as nat) + ".zip"@,
        );
        assert(is_small_archive(small, dir));
        let (name, src) = entries[i + n - 1];
        let r = RequestView::Pack(src, name, small);
        lemma_one(t2, r, f);
        lemma_then(t, t2, dialog::asked(t2, r).1, f);
    }
}

proof fn lemma_collected(
    small: Seq<char>,
    n: compress::TallyView,
    dest: Seq<char>,
    dir: Seq<char>,
    t: TalkView,
)
    requires
        is_small_archive(small, dir),
    ensures
        all_new(t, compress::collected(small, n, t).1, packs(dest, dir)),
{
    let f = packs(dest, dir);
    let wait = RequestView::AwaitPack(small);
    let (a, t1) = dialog::asked(t, wait);
    lemma_one(t, wait, f);
    let remove = RequestView::Do(ActionView::RemoveFile(small));
    match a {
        AnswerView::Text(e) => {
            let t2 = dialog::noted(t1, "ion-win: compress: task failed: "@ + e);
            assert(all_new(t1, t2, f));
            lemma_then(t, t1, t2, f);
        },
        AnswerView::Failure(e) => {
            let t2 = if e == "interrupted"@ {
                t1
            } else {
                dialog::noted(t1, "ion-win: compress: "@ + e)
            };
            assert(all_new(t1, t2, f));
            lemma_then(t, t1, t2, f);
            lemma_one(t2, remove, f);
            lemma_then(t, t2, dialog::asked(t2, remove).1, f);
        },
        _ => {
            let (b, t2) = dialog::asked(t1, RequestView::Interrupted);
            lemma_one(t1, RequestView::Interrupted, f);
            lemma_then(t, t1, t2, f);
            lemma_one(t2, remove, f);
            lemma_then(t, t2, dialog::asked(t2, remove).1, f);
            let add_it = RequestView::Do(ActionView::AddEntry(small));
            let (r, t3) = dialog::acted(t2, ActionView::AddEntry(small));
            lemma_one(t2, add_it, f);
            lemma_then(t, t2, t3, f);
            let t4 = match r {
                Ok(_) => t3,
                Err(e) => dialog::noted(t3, "ion-win: compress: "@ + e),
            };
            assert(all_new(t3, t4, f));
            lemma_then(t, t3, t4, f);
            lemma_one(t4, remove, f);
            lemma_then(t, t4, dialog::asked(t4, remove).1, f);
        },
    }
}

proof fn lemma_all_collected(
    smalls: Seq<Seq<char>>,
    k: int,
    n: compress::TallyView,
    dest: Seq<char>,
    dir: Seq<char>,
    t: TalkView,
)
    requires
        k <= smalls.len(),
        forall|j: int| 0 <= j < smalls.len() ==> is_small_archive(#[trigger] smalls[j], dir),
    ensures
        all_new(t, compress::all_collected(smalls, k, n, t).1, packs(dest, dir)),
    decreases k,
{
    let f = packs(dest, dir);
    if k <= 0 {
        lemma_none(t, f);
    } else {
        lemma_all_collected(smalls, k - 1, n, dest, dir, t);
        let (n1, t1) = compress::all_collected(smalls, k - 1, n, t);
        lemma_collected(smalls[k - 1], n1, dest, dir, t1);
        lemma_then(t, t1, compress::collected(smalls[k - 1], n1, t1).1, f);
    }
}

proof fn lemma_rounds(
    entries: Seq<(Seq<char>, Seq<char>)>,
    i: int,
    workers: nat,
    n: compress::TallyView,
    dest: Seq<char>,
    dir: Seq<char>,
    t: TalkView,
)
    ensures
        all_new(t, compress::rounds(entries, i, workers, dir, n, t).1, packs(dest, dir)),
    decreases entries.len() - i,
{
    let f = packs(dest, dir);
    let (a, t1) = dialog::asked(t, RequestView::Interrupted);
    lemma_one(t, RequestView::Interrupted, f);
    if !a.as_truth() && 0 <= i < entries.len() && workers > 0 {
        let count = if entries.len() - i < workers {
            entries.len() - i
        } else {
            workers as int
        };
        let (smalls, t2) = compress::started(entries, i, count, dir, t1);
        lemma_started(entries, i, count, dest, dir, t1);
        lemma_then(t, t1, t2, f);
        let (n1, t3) = compress::all_collected(smalls, count, n, t2);
        lemma_all_collected(smalls, count, n, dest, dir, t2);
        lemma_then(t, t2, t3, f);
        if !n1.interrupted {
            lemma_rounds(entries, i + count, workers, n1, dest, dir, t3);
            lemma_then(
                t,
                t3,
                compress::rounds(entries, i + count, workers, dir, n1, t3).1,
                f,
            );
        }
    }
}

proof fn lemma_work_dir_found(
    dest: Seq<char>,
    dir: Seq<char>,
    t: TalkView,
)
    ensures
        all_new(t, compress::work_dir_found(t).1, packs(dest, dir)),
{
    let f = packs(dest, dir);
    let t1 = dialog::asked(t, RequestView::TempDirectory).1;
    lemma_one(t, RequestView::TempDirectory, f);
    let t2 = dialog::asked(t1, RequestView::ProcessId).1;
    lemma_one(t1, RequestView::ProcessId, f);
    lemma_then(t, t1, t2, f);
    let t3 = dialog::asked(t2, RequestView::Sequence).1;
    lemma_one(t2, RequestView::Sequence, f);
    lemma_then(t, t2, t3, f);
}

proof fn lemma_packed_into(
    entries: Seq<(Seq<char>, Seq<char>)>,
    dest: Seq<char>,
    skipped: nat,
    t: TalkView,
)
    ensures
        ({
            let t1 = dialog::asked(t, RequestView::Workers).1;
            let dir = compress::work_dir_found(t1).0;
            all_new(t, compress::packed_into(entries, dest, skipped, t).1, packs(dest, dir))
        }),
{
    let (w, t1) = dialog::asked(t, RequestView::Workers);
    let workers = if w.as_number() == 0 {
        1
    } else {
        w.as_number() as nat
    };
    let (dir, t2) = compress::work_dir_found(t1);
    let f = packs(dest, dir);
    lemma_one(t, RequestView::Workers, f);
    lemma_work_dir_found(dest, dir, t1);
    lemma_then(t, t1, t2, f);
    let make = ActionView::CreateDirs(dir);
    let drop_it = ActionView::DropArchive;
    let remove = ActionView::RemoveFile(dest);
    let clean = ActionView::RemoveTree(dir);
    let (made, t3) = dialog::acted(t2, make);
    lemma_one(t2, RequestView::Do(make), f);
    lemma_then(t, t2, t3, f);
    match made {
        Err(_) => {
            let t4 = dialog::acted(t3, drop_it).1;
            lemma_one(t3, RequestView::Do(drop_it), f);
            lemma_then(t, t3, t4, f);
            lemma_one(t4, RequestView::Do(remove), f);
            lemma_then(t, t4, dialog::acted(t4, remove).1, f);
        },
        Ok(_) => {
            let none = compress::TallyView { compressed: 0, skipped, interrupted: false };
            let (n, t4) = compress::rounds(entries, 0, workers, dir, none, t3);
            lemma_rounds(entries, 0, workers, none, dest, dir, t3);
            lemma_then(t, t3, t4, f);
            if n.interrupted {
                let t5 = dialog::acted(t4, drop_it).1;
                lemma_one(t4, RequestView::Do(drop_it), f);
                lemma_then(t, t4, t5, f);
                let t6 = dialog::acted(t5, remove).1;
                lemma_one(t5, RequestView::Do(remove), f);
                lemma_then(t, t5, t6, f);
                let t7 = dialog::acted(t6, clean).1;
                lemma_one(t6, RequestView::Do(clean), f);
                lemma_then(t, t6, t7, f);
                lemma_one(t7, RequestView::TakeInterrupt, f);
                lemma_then(t, t7, dialog::asked(t7, RequestView::TakeInterrupt).1, f);
            } else {
                let finish = ActionView::FinishArchive;
                let t5 = dialog::acted(t4, finish).1;
                lemma_one(t4, RequestView::Do(finish), f);
                lemma_then(t, t4, t5, f);
                lemma_one(t5, RequestView::Do(clean), f);
                lemma_then(t, t5, dialog::acted(t5, clean).1, f);
            }
        },
    }
}

/// The directory that packing into `dest` works in.
pub open spec fn packing_dir(dest: Seq<char>, t: TalkView) -> Seq<char> {
    let t1 = dialog::exists_at(t, dest).1;
    let t2 = copy::parent_made(dest, t1).1;
    let t3 = dialog::acted(t2, ActionView::OpenArchive(dest)).1;
    let t4 = dialog::asked(t3, RequestView::Workers).1;
    compress::work_dir_found(t4).0
}

/// Packing removes nothing but its destination, its small archives and the
/// directory of its own that they lie in, and it makes no other directory but
/// the destination's.
pub proof fn law_packing_removes_only_its_own(
    entries: Seq<(Seq<char>, Seq<char>)>,
    dest: Seq<char>,
    force: bool,
    skipped: nat,
    t: TalkView,
)
    ensures
        all_new(
            t,
            compress::packed(entries, dest, force, skipped, t).1,
            packs(dest, packing_dir(dest, t)),
        ),
{
    let f = packs(dest, packing_dir(dest, t));
    let (there, t1) = dialog::exists_at(t, dest);
    lemma_one(t, RequestView::Exists(dest), f);
    let (made, t2) = copy::parent_made(dest, t1);
    lemma_none(t1, f);
    match paths::parent_of(dest) {
        Some(p) => {
            lemma_one(t1, RequestView::Do(ActionView::CreateDirs(p)), f);
        },
        None => {},
    }
    lemma_then(t, t1, t2, f);
    let open = ActionView::OpenArchive(dest);
    let t3 = dialog::acted(t2, open).1;
    lemma_one(t2, RequestView::Do(open), f);
    lemma_then(t, t2, t3, f);
    lemma_packed_into(entries, dest, skipped, t3);
    lemma_then(t, t3, compress::packed_into(entries, dest, skipped, t3).1, f);
}

/// The directory that packing works in is named for it: it lies below the
/// directory for temporary files and is not that directory.
pub proof fn law_packing_dir_is_its_own(dir: Seq<char>, process: nat, number: nat)
    ensures
        crate::text::begins_with(compress::work_dir(dir, process, number), dir),
        compress::work_dir(dir, process, number).len() > dir.len(),
        compress::work_dir(dir, process, number) != dir,
{
    reveal_strlit("ion-win-compress-");
    let name = "ion-win-compress-"@ + crate::text::nat_text(process) + "-"@
        + crate::text::nat_text(number);
    assert(name.len() > 0);
    let whole = crate::fs_builtins::path_below(dir, name);
    assert(whole.take(dir.len() as int) =~= dir);
}

/// Whether a request was made in an exchange after another one, and was not
/// answered by a failure.
pub open spec fn succeeded(t: TalkView, t2: TalkView, r: RequestView) -> bool {
    exists|k: int|
        t.made.len() <= k < t2.made.len() && #[trigger] t2.made[k] == r && !(t2.answers[k] is Failure)
}

/// Whether the deletion of a path was requested and succeeded.
pub open spec fn deletion_done(t: TalkView, t2: TalkView, path: Seq<char>, permanent: bool) -> bool {
    if permanent {
        ||| succeeded(t, t2, RequestView::Do(ActionView::RemoveFile(path)))
        ||| succeeded(t, t2, RequestView::Do(ActionView::RemoveDir(path)))
    } else {
        succeeded(t, t2, RequestView::Do(ActionView::Recycle(path)))
    }
}

proof fn lemma_succeeded_on(t: TalkView, t1: TalkView, t2: TalkView, t3: TalkView, r: RequestView)
    requires
        succeeded(t1, t2, r),
        dialog::follows(t, t1),
        dialog::follows(t2, t3),
    ensures
        succeeded(t, t3, r),
{
    let k = choose|k: int|
        t1.made.len() <= k < t2.made.len() && #[trigger] t2.made[k] == r && !(t2.answers[k] is Failure);
    assert(t3.made[k] == r);
}

proof fn lemma_deletion_on(
    t: TalkView,
    t1: TalkView,
    t2: TalkView,
    t3: TalkView,
    path: Seq<char>,
    permanent: bool,
)
    requires
        deletion_done(t1, t2, path, permanent),
        dialog::follows(t, t1),
        dialog::follows(t2, t3),
    ensures
        deletion_done(t, t3, path, permanent),
{
    let file = RequestView::Do(ActionView::RemoveFile(path));
    let dir = RequestView::Do(ActionView::RemoveDir(path));
    if permanent {
        if succeeded(t1, t2, file) {
            lemma_succeeded_on(t, t1, t2, t3, file);
        } else {
            lemma_succeeded_on(t, t1, t2, t3, dir);
        }
    } else {
        lemma_succeeded_on(t, t1, t2, t3, RequestView::Do(ActionView::Recycle(path)));
    }
}

proof fn lemma_tried(t: TalkView, r: RequestView)
    requires
        t.in_step(),
    ensures
        ({
            let (o, t2) = dialog::tried(t, r);
            &&& dialog::follows(t, t2)
            &&& t2.in_step()
            &&& t2.pending is None ==> t.pending is None
            &&& t2.pending is None && o is Ok ==> succeeded(t, t2, r)
        }),
{
    let (o, t2) = dialog::tried(t, r);
    if t2.pending is None {
        assert(t2.made[t.made.len() as int] == r);
    }
}

/// Any request.
pub open spec fn anything() -> spec_fn(RequestView) -> bool {
    |r: RequestView| true
}

proof fn lemma_follows_then(t1: TalkView, t2: TalkView, t3: TalkView)
    requires
        dialog::follows(t1, t2),
        dialog::follows(t2, t3),
    ensures
        dialog::follows(t1, t3),
{
    assert forall|k: int| 0 <= k < t1.made.len() implies #[trigger] t3.made[k] == t1.made[k] by {
        assert(t3.made[k] == t2.made[k]);
    }
}

/// What is removed for good without an error is removed itself: the removal of
/// its path is requested and succeeds.
pub proof fn law_erasing_removes_the_path(path: Seq<char>, facts: FileFacts, fuel: nat, t: TalkView)
    requires
        t.in_step(),
        fuel >= t.answers.len() - t.next,
        delete::erased(path, facts, fuel, t).0 is Ok,
        delete::erased(path, facts, fuel, t).1.pending is None,
    ensures
        deletion_done(t, delete::erased(path, facts, fuel, t).1, path, true),
{
    let f = anything();
    let file = RequestView::Do(ActionView::RemoveFile(path));
    let dir = RequestView::Do(ActionView::RemoveDir(path));
    if facts.is_symlink {
        let asking = RequestView::IsDirectory(path);
        let (a, t1) = dialog::asked(t, asking);
        lemma_one(t, asking, f);
        let last = if a.as_truth() {
            dir
        } else {
            file
        };
        lemma_tried(t1, last);
        let t2 = dialog::tried(t1, last).1;
        lemma_succeeded_on(t, t1, t2, t2, last);
    } else if facts.is_dir {
        let (a, t1) = dialog::asked(t, RequestView::ListWhole(path));
        lemma_one(t, RequestView::ListWhole(path), f);
        match a {
            AnswerView::Entries(entries) => {
                assert(fuel > 0);
                let t2 = delete::erased_entries(entries, 0, path, (fuel - 1) as nat, t1).1;
                lemma_erased_entries(entries, 0, path, (fuel - 1) as nat, t1, f);
                lemma_then(t, t1, t2, f);
                lemma_tried(t2, dir);
                let t3 = dialog::tried(t2, dir).1;
                lemma_succeeded_on(t, t2, t3, t3, dir);
            },
            _ => {},
        }
    } else {
        lemma_tried(t, file);
    }
}

/// What is reported as deleted was deleted: the removal of its path, or its
/// recycling where it is not to be deleted for good, is requested and
/// succeeds.
pub proof fn law_deleted_means_removed(path: Seq<char>, options: DeleteOptions, t: TalkView)
    requires
        t.in_step(),
        t.next >= 0,
        delete::deleted_one(path, options, t).0 is Deleted,
        delete::deleted_one(path, options, t).1.pending is None,
    ensures
        deletion_done(t, delete::deleted_one(path, options, t).1, path, options.permanent),
{
    let f = anything();
    let (a, t1) = dialog::asked(t, RequestView::Facts(path));
    lemma_one(t, RequestView::Facts(path), f);
    match a {
        AnswerView::File(facts) => {
            let t2 = delete::allowed(path, facts, options, t1).1;
            lemma_allowed(path, facts, options, t1, f);
            lemma_then(t, t1, t2, f);
            let t3 = delete::deleted_one(path, options, t).1;
            if options.permanent {
                law_erasing_removes_the_path(path, facts, t2.answers.len(), t2);
            } else {
                lemma_tried(t2, RequestView::Do(ActionView::Recycle(path)));
            }
            lemma_deletion_on(t, t2, t3, t3, path, options.permanent);
        },
        _ => {},
    }
}

/// The outputs that a deletion leaves in its journal: one for each item, in
/// order, under the path that the item had.
pub open spec fn outputs_of(items: Seq<FileRecordView>, outputs: Seq<OutputView>) -> bool {
    &&& outputs.len() == items.len()
    &&& forall|k: int|
        0 <= k < items.len() ==> (#[trigger] outputs[k]).role == "recycled"@ && outputs[k].record
            == items[k] && outputs[k].original == Some(items[k].path)
}

#[verifier::spinoff_prover]
#[verifier::rlimit(30)]
proof fn lemma_each_deleted(
    items: Seq<FileRecordView>,
    i: int,
    options: DeleteOptions,
    j: JournalView,
    t: TalkView,
)
    requires
        t.in_step(),
        0 <= i <= items.len(),
        operation::all_deleted(items, i, options, j, t).0 is Ok,
        operation::all_deleted(items, i, options, j, t).2.pending is None,
    ensures
        ({
            let (r, j2, t2) = operation::all_deleted(items, i, options, j, t);
            &&& dialog::follows(t, t2)
            &&& j2.outputs.len() == j.outputs.len() + (items.len() - i)
            &&& j.outputs == j2.outputs.take(j.outputs.len() as int)
            &&& outputs_of(items.skip(i), j2.outputs.skip(j.outputs.len() as int))
            &&& forall|k: int|
                i <= k < items.len() ==> deletion_done(
                    t,
                    t2,
                    (#[trigger] items[k]).path,
                    options.permanent,
                )
        }),
    decreases items.len() - i,
{
    let (r2, j2, t9) = operation::all_deleted(items, i, options, j, t);
    if i < items.len() {
        let f = anything();
        let (r, t1) = delete::plan_deleted(items[i].path, options, t);
        lemma_deleted_one(items[i].path, options, t, f);
        let o = OutputView { role: "recycled"@, record: items[i], original: Some(items[i].path) };
        let j1 = JournalView { outputs: j.outputs.push(o), ..j };
        lemma_tried(t1, RequestView::SaveJournal(j1));
        let t2 = operation::saved(j1, t1).1;
        lemma_each_deleted(items, i + 1, options, j1, t2);
        lemma_follows_then(t1, t2, t9);
        lemma_follows_then(t, t1, t9);
        lemma_follows_then(t, t1, t2);
        assert(t2.pending is None);
        law_deleted_means_removed(items[i].path, options, t);
        assert forall|k: int| i <= k < items.len() implies deletion_done(
            t,
            t9,
            (#[trigger] items[k]).path,
            options.permanent,
        ) by {
            if k == i {
                lemma_deletion_on(t, t, t1, t9, items[k].path, options.permanent);
            } else {
                lemma_deletion_on(t, t2, t9, t9, items[k].path, options.permanent);
            }
        }
        let n = j.outputs.len() as int;
        assert(j1.outputs.len() == n + 1);
        assert(j1.outputs[n] == o);
        assert forall|k: int| 0 <= k < n implies j.outputs[k] == #[trigger] j2.outputs[k] by {
            assert(j1.outputs[k] == j2.outputs.take(n + 1)[k]);
        }
        assert(j.outputs =~= j2.outputs.take(n));
        assert(j2.outputs[n] == o) by {
            assert(j2.outputs.take(n + 1)[n] == j1.outputs[n]);
        }
        let (rest, left) = (j2.outputs.skip(n + 1), items.skip(i + 1));
        let (whole, all) = (j2.outputs.skip(n), items.skip(i));
        assert forall|k: int| 0 <= k < all.len() implies (#[trigger] whole[k]).role == "recycled"@
            && whole[k].record == all[k] && whole[k].original == Some(all[k].path) by {
            if k > 0 {
                assert(whole[k] == rest[k - 1]);
                assert(all[k] == left[k - 1]);
            }
        }
    }
}

/// Where a planned deletion succeeds, the deletion of every item's path was
/// requested and succeeded, and the journal's new outputs are the plan's items
/// in order, one each.
pub proof fn law_planned_deletion_deletes_every_item(
    items: Seq<FileRecordView>,
    options: DeleteOptions,
    j: JournalView,
    t: TalkView,
)
    requires
        t.in_step(),
        operation::delete_applied(items, options, j, t).0 is Ok,
        operation::delete_applied(items, options, j, t).2.pending is None,
    ensures
        ({
            let (r, j2, t2) = operation::delete_applied(items, options, j, t);
            &&& j2.outputs.len() == j.outputs.len() + items.len()
            &&& j.outputs == j2.outputs.take(j.outputs.len() as int)
            &&& outputs_of(items, j2.outputs.skip(j.outputs.len() as int))
            &&& forall|k: int|
                0 <= k < items.len() ==> deletion_done(
                    t,
                    t2,
                    (#[trigger] items[k]).path,
                    options.permanent,
                )
        }),
{
    let f = anything();
    let (c, t1) = operation::deletions_checked(items, 0, options, t);
    lemma_deletions_checked(items, 0, options, t, f);
    lemma_each_deleted(items, 0, options, j, t1);
    assert(items.skip(0) =~= items);
    let t2 = operation::delete_applied(items, options, j, t).2;
    assert forall|k: int| 0 <= k < items.len() implies deletion_done(
        t,
        t2,
        (#[trigger] items[k]).path,
        options.permanent,
    ) by {
        lemma_deletion_on(t, t1, t2, t2, items[k].path, options.permanent);
    }
}

// ---------------------------------------------------------------------------
// What success means
// ---------------------------------------------------------------------------

/// Whether one of two requests was made after an exchange, or both of two
/// others, and succeeded: the move of an item by name, or its copy and the
/// removal of what was copied.
pub open spec fn relocation_done(
    t: TalkView,
    t2: TalkView,
    source: Seq<char>,
    target: Seq<char>,
) -> bool {
    ||| succeeded(t, t2, RequestView::Do(ActionView::Rename(source, target)))
    ||| succeeded(t, t2, RequestView::Do(ActionView::CopyFile(source, target))) && succeeded(
        t,
        t2,
        RequestView::Do(ActionView::RemoveFile(source)),
    )
}

/// Whether a file was copied by way of a temporary one, which then took its
/// place.
pub open spec fn copy_done(t: TalkView, t2: TalkView, source: Seq<char>, target: Seq<char>) -> bool {
    exists|s: Seq<char>| #[trigger]
        succeeded(t, t2, RequestView::Do(ActionView::CopyFile(source, s))) && succeeded(
            t,
            t2,
            RequestView::Do(ActionView::Rename(s, target)),
        )
}

/// Whether an archive was built by way of a temporary file, which then took
/// its place.
pub open spec fn build_done(t: TalkView, t2: TalkView, item: ArchivePlanItemView) -> bool {
    exists|s: Seq<char>| #[trigger]
        succeeded(t, t2, RequestView::BuildArchive(item, s)) && succeeded(
            t,
            t2,
            RequestView::Do(ActionView::Rename(s, item.archive)),
        )
}

/// Whether an output was taken back: it returned to where it came from, or was
/// removed where it came from nowhere.
pub open spec fn taking_back_done(t: TalkView, t2: TalkView, o: OutputView) -> bool {
    match o.original {
        Some(p) => relocation_done(t, t2, o.record.path, p),
        None => succeeded(t, t2, RequestView::Do(ActionView::RemoveFile(o.record.path))),
    }
}

proof fn lemma_relocation_on(
    t: TalkView,
    t1: TalkView,
    t2: TalkView,
    t3: TalkView,
    source: Seq<char>,
    target: Seq<char>,
)
    requires
        relocation_done(t1, t2, source, target),
        dialog::follows(t, t1),
        dialog::follows(t2, t3),
    ensures
        relocation_done(t, t3, source, target),
{
    let name = RequestView::Do(ActionView::Rename(source, target));
    if succeeded(t1, t2, name) {
        lemma_succeeded_on(t, t1, t2, t3, name);
    } else {
        lemma_succeeded_on(t, t1, t2, t3, RequestView::Do(ActionView::CopyFile(source, target)));
        lemma_succeeded_on(t, t1, t2, t3, RequestView::Do(ActionView::RemoveFile(source)));
    }
}

proof fn lemma_copy_on(
    t: TalkView,
    t1: TalkView,
    t2: TalkView,
    t3: TalkView,
    source: Seq<char>,
    target: Seq<char>,
)
    requires
        copy_done(t1, t2, source, target),
        dialog::follows(t, t1),
        dialog::follows(t2, t3),
    ensures
        copy_done(t, t3, source, target),
{
    let s = choose|s: Seq<char>| #[trigger]
        succeeded(t1, t2, RequestView::Do(ActionView::CopyFile(source, s))) && succeeded(
            t1,
            t2,
            RequestView::Do(ActionView::Rename(s, target)),
        );
    lemma_succeeded_on(t, t1, t2, t3, RequestView::Do(ActionView::CopyFile(source, s)));
    lemma_succeeded_on(t, t1, t2, t3, RequestView::Do(ActionView::Rename(s, target)));
}

proof fn lemma_build_on(
    t: TalkView,
    t1: TalkView,
    t2: TalkView,
    t3: TalkView,
    item: ArchivePlanItemView,
)
    requires
        build_done(t1, t2, item),
        dialog::follows(t, t1),
        dialog::follows(t2, t3),
    ensures
        build_done(t, t3, item),
{
    let s = choose|s: Seq<char>| #[trigger]
        succeeded(t1, t2, RequestView::BuildArchive(item, s)) && succeeded(
            t1,
            t2,
            RequestView::Do(ActionView::Rename(s, item.archive)),
        );
    lemma_succeeded_on(t, t1, t2, t3, RequestView::BuildArchive(item, s));
    lemma_succeeded_on(t, t1, t2, t3, RequestView::Do(ActionView::Rename(s, item.archive)));
}

proof fn lemma_taking_back_on(t: TalkView, t1: TalkView, t2: TalkView, t3: TalkView, o: OutputView)
    requires
        taking_back_done(t1, t2, o),
        dialog::follows(t, t1),
        dialog::follows(t2, t3),
    ensures
        taking_back_done(t, t3, o),
{
    match o.original {
        Some(p) => lemma_relocation_on(t, t1, t2, t3, o.record.path, p),
        None => lemma_succeeded_on(
            t,
            t1,
            t2,
            t3,
            RequestView::Do(ActionView::RemoveFile(o.record.path)),
        ),
    }
}

/// What was moved without an error got its new name, or was copied there and
/// removed; a destination that exists is not replaced unless that is forced.
pub proof fn law_moved_means_relocated(source: Seq<char>, target: Seq<char>, force: bool, t: TalkView)
    requires
        t.in_step(),
    ensures
        ({
            let (r, t2) = fs_ops::moved_one(source, target, force, t);
            &&& r is Ok && t2.pending is None ==> relocation_done(t, t2, source, target)
            &&& dialog::follows(t, t2)
        }),
{
    let f = anything();
    let (a, t1) = dialog::asked(t, RequestView::Examine(source));
    let t2 = fs_ops::same_item(source, target, t1).1;
    let t3 = fs_ops::cleared(target, force, t2).1;
    let t4 = copy::parent_made(target, t3).1;
    lemma_moved_one(source, target, force, t, f);
    lemma_one(t, RequestView::Examine(source), f);
    lemma_same_item(source, target, t1, f);
    lemma_cleared(target, force, t2, f);
    lemma_parent_made(target, t3, f);
    lemma_follows_then(t, t1, t2);
    lemma_follows_then(t, t2, t3);
    lemma_follows_then(t, t3, t4);
    let (r, t9) = fs_ops::moved_one(source, target, force, t);
    if r is Ok && t9.pending is None {
        let name = RequestView::Do(ActionView::Rename(source, target));
        let whole = RequestView::Do(ActionView::CopyFile(source, target));
        let away = RequestView::Do(ActionView::RemoveFile(source));
        let (renamed, t5) = dialog::tried(t4, name);
        lemma_tried(t4, name);
        if renamed is Ok {
            lemma_succeeded_on(t, t4, t5, t9, name);
        } else {
            let t6 = dialog::tried(t5, whole).1;
            let t7 = dialog::tried(t6, away).1;
            lemma_tried(t5, whole);
            lemma_tried(t6, away);
            lemma_follows_then(t, t4, t5);
            lemma_follows_then(t, t5, t6);
            lemma_succeeded_on(t, t5, t6, t7, whole);
            lemma_succeeded_on(t, t6, t7, t7, away);
        }
    }
}

/// What was copied without an error was copied from the source to the
/// destination.
pub proof fn law_copied_means_copied(src: Seq<char>, dest: Seq<char>, force: bool, t: TalkView)
    requires
        t.in_step(),
    ensures
        ({
            let (r, t2) = copy::copied_one(src, dest, force, t);
            &&& r is Ok && t2.pending is None ==> succeeded(
                t,
                t2,
                RequestView::Do(ActionView::CopyFile(src, dest)),
            )
            &&& dialog::follows(t, t2)
        }),
{
    let f = anything();
    lemma_copied_one(src, dest, force, t, f);
    let t1 = dialog::exists_at(t, dest).1;
    let t2 = copy::parent_made(dest, t1).1;
    lemma_one(t, RequestView::Exists(dest), f);
    lemma_parent_made(dest, t1, f);
    lemma_follows_then(t, t1, t2);
    let last = RequestView::Do(ActionView::CopyFile(src, dest));
    lemma_tried(t2, last);
    let t3 = dialog::tried(t2, last).1;
    if dialog::tried(t2, last).0 is Ok && t3.pending is None {
        lemma_succeeded_on(t, t2, t3, t3, last);
    }
}

/// Where a destination exists and nothing is forced, it is neither copied nor
/// moved onto: there are only questions, and an error.
pub proof fn law_what_exists_is_not_overwritten(src: Seq<char>, dest: Seq<char>, t: TalkView)
    ensures
        dialog::exists_at(t, dest).0 ==> copy::copied_one(src, dest, false, t).0 is Err && all_new(
            t,
            copy::copied_one(src, dest, false, t).1,
            questions(),
        ),
        dialog::exists_at(t, dest).0 ==> fs_ops::cleared(dest, false, t).0 is Err && all_new(
            t,
            fs_ops::cleared(dest, false, t).1,
            questions(),
        ),
        !dialog::exists_at(t, dest).0 ==> fs_ops::cleared(dest, false, t).0 is Ok,
{
    lemma_one(t, RequestView::Exists(dest), questions());
}

#[verifier::spinoff_prover]
#[verifier::rlimit(30)]
proof fn lemma_restored(outputs: Seq<OutputView>, i: int, t: TalkView)
    requires
        t.in_step(),
        0 <= i <= outputs.len(),
        operation::outputs_restored(outputs, i, t).0 is Ok,
        operation::outputs_restored(outputs, i, t).1.pending is None,
    ensures
        dialog::follows(t, operation::outputs_restored(outputs, i, t).1),
        forall|k: int|
            i <= k < outputs.len() ==> taking_back_done(
                t,
                operation::outputs_restored(outputs, i, t).1,
                #[trigger] outputs[k],
            ),
    decreases outputs.len() - i,
{
    if i < outputs.len() {
        let o = outputs[i];
        let t9 = operation::outputs_restored(outputs, i, t).1;
        let t1 = match o.original {
            Some(p) => fs_ops::moved_one(o.record.path, p, false, t).1,
            None => dialog::acted(t, ActionView::RemoveFile(o.record.path)).1,
        };
        match o.original {
            Some(p) => law_moved_means_relocated(o.record.path, p, false, t),
            None => lemma_tried(t, RequestView::Do(ActionView::RemoveFile(o.record.path))),
        }
        lemma_restored(outputs, i + 1, t1);
        lemma_follows_then(t, t1, t9);
        assert forall|k: int| i <= k < outputs.len() implies taking_back_done(
            t,
            t9,
            #[trigger] outputs[k],
        ) by {
            if k == i {
                lemma_taking_back_on(t, t, t1, t9, o);
            } else {
                lemma_taking_back_on(t, t1, t9, t9, outputs[k]);
            }
        }
    }
}

/// Where an undo succeeds, every output of the operation was taken back: what
/// was moved returned to where it came from, and what was made was removed.
/// The journal then says that the operation is undone, and else stays as it
/// was.
pub proof fn law_undo_takes_every_output_back(j: JournalView, t: TalkView)
    requires
        t.in_step(),
        operation::undone(j, t).0 is Ok,
        operation::undone(j, t).1.pending is None,
    ensures
        ({
            let (r, t2) = operation::undone(j, t);
            &&& forall|k: int|
                0 <= k < j.outputs.len() ==> taking_back_done(t, t2, #[trigger] j.outputs[k])
            &&& r->Ok_0.status == "undone"@
            &&& r->Ok_0.undone_at is Some
            &&& r->Ok_0.outputs == j.outputs
            &&& r->Ok_0.id == j.id
            &&& j.status == "applied"@
            &&& j.undone_at is None
            &&& j.undo_safe
        }),
{
    let f = anything();
    let t1 = operation::undoable(j.outputs, 0, t).1;
    lemma_undoable(j.outputs, 0, t, f);
    let t2 = operation::outputs_restored(j.outputs, 0, t1).1;
    let t3 = operation::clock(t2).1;
    lemma_one(t2, RequestView::Seconds, f);
    lemma_restored(j.outputs, 0, t1);
    assert forall|k: int| 0 <= k < j.outputs.len() implies taking_back_done(
        t,
        t3,
        #[trigger] j.outputs[k],
    ) by {
        lemma_taking_back_on(t, t1, t2, t3, j.outputs[k]);
    }
}

#[verifier::spinoff_prover]
#[verifier::rlimit(30)]
proof fn lemma_each_undone(outputs: Seq<OutputView>, n: int, t: TalkView)
    requires
        t.in_step(),
        0 <= n <= outputs.len(),
    ensures
        dialog::follows(t, operation::outputs_undone(outputs, n, t).1),
        operation::outputs_undone(outputs, n, t).0 && operation::outputs_undone(
            outputs,
            n,
            t,
        ).1.pending is None ==> forall|k: int|
            0 <= k < n ==> taking_back_done(
                t,
                operation::outputs_undone(outputs, n, t).1,
                #[trigger] outputs[k],
            ),
    decreases n,
{
    if n > 0 {
        let o = outputs[n - 1];
        let (all, t9) = operation::outputs_undone(outputs, n, t);
        let t1 = match o.original {
            Some(p) => fs_ops::moved_one(o.record.path, p, false, t).1,
            None => dialog::acted(t, ActionView::RemoveFile(o.record.path)).1,
        };
        match o.original {
            Some(p) => law_moved_means_relocated(o.record.path, p, false, t),
            None => lemma_tried(t, RequestView::Do(ActionView::RemoveFile(o.record.path))),
        }
        lemma_each_undone(outputs, n - 1, t1);
        lemma_follows_then(t, t1, t9);
        if all && t9.pending is None {
            assert forall|k: int| 0 <= k < n implies taking_back_done(
                t,
                t9,
                #[trigger] outputs[k],
            ) by {
                if k == n - 1 {
                    lemma_taking_back_on(t, t, t1, t9, o);
                } else {
                    lemma_taking_back_on(t, t1, t9, t9, outputs[k]);
                }
            }
        }
    }
}

/// A journal says that its operation is rolled back only where every output
/// was taken back, and an operation that cannot be taken back is left as it
/// is.
pub proof fn law_rolled_back_means_taken_back(j: JournalView, t: TalkView)
    requires
        t.in_step(),
        j.status != "rolled_back"@,
        operation::rolled_back(j, t).1.pending is None,
    ensures
        ({
            let (j2, t2) = operation::rolled_back(j, t);
            &&& j2.status == "rolled_back"@ ==> j.undo_safe && forall|k: int|
                0 <= k < j.outputs.len() ==> taking_back_done(t, t2, #[trigger] j.outputs[k])
            &&& !j.undo_safe ==> t2 == t
            &&& j2.outputs == j.outputs
        }),
{
    reveal_strlit("partially_applied");
    reveal_strlit("rolled_back");
    assert("partially_applied"@.len() == 17 && "rolled_back"@.len() == 11);
    lemma_each_undone(j.outputs, j.outputs.len() as int, t);
}

/// Whether a plan has been carried out: every item was moved, copied, built
/// with its backup, or deleted.
pub open spec fn plan_done(t: TalkView, t2: TalkView, plan: PlannedView) -> bool {
    match plan {
        PlannedView::Move(items) => forall|k: int|
            0 <= k < items.len() ==> relocation_done(
                t,
                t2,
                (#[trigger] items[k]).source.path,
                items[k].destination,
            ),
        PlannedView::Copy(items) => forall|k: int|
            0 <= k < items.len() ==> copy_done(
                t,
                t2,
                (#[trigger] items[k]).source.path,
                items[k].destination,
            ),
        PlannedView::Archive(p) => forall|k: int|
            0 <= k < p.items.len() ==> build_done(t, t2, #[trigger] p.items[k]) && (
            p.items[k].backup matches Some(b) ==> copy_done(t, t2, p.items[k].archive, b)),
        PlannedView::Delete(items, options) => forall|k: int|
            0 <= k < items.len() ==> deletion_done(
                t,
                t2,
                (#[trigger] items[k]).path,
                options.permanent,
            ),
    }
}

/// Whether no output is only an intent.
pub open spec fn nothing_pending(outputs: Seq<OutputView>) -> bool {
    forall|k: int|
        0 <= k < outputs.len() ==> (#[trigger] outputs[k]).role != "pending_move"@
            && outputs[k].role != "pending_copy"@ && outputs[k].role != "pending_archive"@
            && outputs[k].role != "pending_backup"@
}

proof fn lemma_role_absent(list: Seq<OutputView>, role: Seq<char>)
    requires
        forall|k: int| 0 <= k < list.len() ==> (#[trigger] list[k]).role != role,
    ensures
        operation::without_role(list, role) == list,
    decreases list.len(),
{
    if list.len() > 0 {
        let rest = list.drop_last();
        assert forall|k: int| 0 <= k < rest.len() implies (#[trigger] rest[k]).role != role by {
            assert(rest[k] == list[k]);
        }
        lemma_role_absent(rest, role);
        assert(rest.push(list.last()) =~= list);
    }
}

proof fn lemma_role_pushed(list: Seq<OutputView>, o: OutputView)
    requires
        forall|k: int| 0 <= k < list.len() ==> (#[trigger] list[k]).role != o.role,
    ensures
        operation::without_role(list.push(o), o.role) == list,
{
    assert(list.push(o).drop_last() =~= list);
    lemma_role_absent(list, o.role);
}

proof fn lemma_file_moved_done(item: TransferItemView, force: bool, j: JournalView, t: TalkView)
    requires
        t.in_step(),
        nothing_pending(j.outputs),
        operation::file_moved(item, force, j, t).0 is Ok,
    ensures
        ({
            let (r, j2, t2) = operation::file_moved(item, force, j, t);
            &&& dialog::follows(t, t2)
            &&& t2.pending is None ==> relocation_done(
                t,
                t2,
                item.source.path,
                item.destination,
            )
            &&& j2.outputs == j.outputs
        }),
{
    let note = OutputView {
        role: "pending_move"@,
        record: FileRecordView { path: item.destination, ..item.source },
        original: Some(item.source.path),
    };
    lemma_role_pushed(j.outputs, note);
    let j1 = JournalView { outputs: j.outputs.push(note), ..j };
    let t1 = operation::saved(j1, t).1;
    lemma_tried(t, RequestView::SaveJournal(j1));
    let t2 = fs_ops::moved_one(item.source.path, item.destination, force, t1).1;
    law_moved_means_relocated(item.source.path, item.destination, force, t1);
    lemma_follows_then(t, t1, t2);
    if t2.pending is None {
        lemma_relocation_on(t, t1, t2, t2, item.source.path, item.destination);
    }
}

proof fn lemma_published_done(
    staging: Seq<char>,
    dest: Seq<char>,
    force: bool,
    role: Seq<char>,
    unidentified: Seq<char>,
    unsaved: Seq<char>,
    forget: bool,
    j: JournalView,
    t: TalkView,
)
    requires
        t.in_step(),
        forall|k: int| 0 <= k < j.outputs.len() ==> (#[trigger] j.outputs[k]).role != role,
        operation::published(
            staging,
            dest,
            force,
            role,
            unidentified,
            unsaved,
            forget,
            j,
            t,
        ).0 is Ok,
    ensures
        ({
            let (r, j2, t2) = operation::published(
                staging,
                dest,
                force,
                role,
                unidentified,
                unsaved,
                forget,
                j,
                t,
            );
            &&& dialog::follows(t, t2)
            &&& t2.pending is None ==> succeeded(
                t,
                t2,
                RequestView::Do(ActionView::Rename(staging, dest)),
            )
            &&& j2.outputs == j.outputs
            &&& j2.id == j.id
        }),
{
    let f = anything();
    let (found, t1) = fileset::inspected(staging, None, t);
    lemma_inspected(staging, t, f);
    let record = FileRecordView { path: dest, ..found->Ok_0 };
    let note = OutputView { role, record, original: None };
    let j1 = JournalView { outputs: j.outputs.push(note), ..j };
    lemma_role_pushed(j.outputs, note);
    let t2 = operation::saved(j1, t1).1;
    lemma_tried(t1, RequestView::SaveJournal(j1));
    let (there, t3) = dialog::exists_at(t2, dest);
    lemma_one(t2, RequestView::Exists(dest), f);
    let away = RequestView::Do(ActionView::RemoveFile(dest));
    let t4 = if there {
        dialog::tried(t3, away).1
    } else {
        t3
    };
    lemma_tried(t3, away);
    lemma_none(t3, f);
    let name = RequestView::Do(ActionView::Rename(staging, dest));
    lemma_tried(t4, name);
    let t5 = dialog::tried(t4, name).1;
    lemma_follows_then(t, t1, t2);
    lemma_follows_then(t, t2, t3);
    lemma_follows_then(t, t3, t4);
    lemma_follows_then(t, t4, t5);
    if t5.pending is None {
        lemma_succeeded_on(t, t4, t5, t5, name);
    }
}

#[verifier::spinoff_prover]
#[verifier::rlimit(30)]
proof fn lemma_file_copied_done(item: TransferItemView, force: bool, j: JournalView, t: TalkView)
    requires
        t.in_step(),
        nothing_pending(j.outputs),
        operation::file_copied(item, force, j, t).0 is Ok,
    ensures
        ({
            let (r, j2, t2) = operation::file_copied(item, force, j, t);
            &&& dialog::follows(t, t2)
            &&& t2.pending is None ==> copy_done(t, t2, item.source.path, item.destination)
            &&& j2.outputs == j.outputs
        }),
{
    let (staging, t1) = operation::staged_at(item.destination, j.id, "copy"@, t);
    lemma_tried(
        t,
        RequestView::Do(ActionView::CreateDirs(operation::directory_of(item.destination))),
    );
    let s = staging->Ok_0;
    let (noted, j1, t2) = operation::staging_noted(s, j, t1);
    lemma_tried(t1, RequestView::SaveJournal(JournalView { staging: j.staging.push(s), ..j }));
    let t3 = copy::copied_one(item.source.path, s, false, t2).1;
    law_copied_means_copied(item.source.path, s, false, t2);
    lemma_published_done(
        s,
        item.destination,
        force,
        "pending_copy"@,
        "apply: could not identify staged copy: "@,
        "apply: could not persist copy publication intent: "@,
        true,
        j1,
        t3,
    );
    let t4 = operation::file_copied(item, force, j, t).2;
    lemma_follows_then(t, t1, t2);
    lemma_follows_then(t, t2, t3);
    lemma_follows_then(t, t3, t4);
    let copying = RequestView::Do(ActionView::CopyFile(item.source.path, s));
    if t4.pending is None {
        lemma_succeeded_on(t, t2, t3, t4, copying);
        lemma_succeeded_on(t, t3, t4, t4, RequestView::Do(ActionView::Rename(s, item.destination)));
    }
}

/// Whether outputs are those of transfers: one for each, in order, at its
/// destination, with the source where that was moved.
pub open spec fn transfer_outputs(
    items: Seq<TransferItemView>,
    moving: bool,
    outputs: Seq<OutputView>,
) -> bool {
    &&& outputs.len() == items.len()
    &&& forall|k: int|
        0 <= k < items.len() ==> (#[trigger] outputs[k]).record.path == items[k].destination
            && outputs[k].role == (if moving {
            "moved"@
        } else {
            "copy"@
        }) && outputs[k].original == (if moving {
            Some(items[k].source.path)
        } else {
            None::<Seq<char>>
        })
}

/// Whether a transfer was carried out.
pub open spec fn transfer_done(t: TalkView, t2: TalkView, item: TransferItemView, moving: bool) -> bool {
    if moving {
        relocation_done(t, t2, item.source.path, item.destination)
    } else {
        copy_done(t, t2, item.source.path, item.destination)
    }
}

/// Whether an output is that of a transfer.
pub open spec fn transfer_output(item: TransferItemView, moving: bool, o: OutputView) -> bool {
    &&& o.record.path == item.destination
    &&& o.role == (if moving {
        "moved"@
    } else {
        "copy"@
    })
    &&& o.original == (if moving {
        Some(item.source.path)
    } else {
        None::<Seq<char>>
    })
}

proof fn lemma_transfer_on(
    t: TalkView,
    t1: TalkView,
    t2: TalkView,
    t3: TalkView,
    item: TransferItemView,
    moving: bool,
)
    requires
        transfer_done(t1, t2, item, moving),
        dialog::follows(t, t1),
        dialog::follows(t2, t3),
    ensures
        transfer_done(t, t3, item, moving),
{
    if moving {
        lemma_relocation_on(t, t1, t2, t3, item.source.path, item.destination);
    } else {
        lemma_copy_on(t, t1, t2, t3, item.source.path, item.destination);
    }
}

proof fn lemma_pending_pushed(outputs: Seq<OutputView>, o: OutputView)
    requires
        nothing_pending(outputs),
        o.role.len() < 12,
    ensures
        nothing_pending(outputs.push(o)),
{
    reveal_strlit("pending_move");
    reveal_strlit("pending_copy");
    reveal_strlit("pending_archive");
    reveal_strlit("pending_backup");
    assert("pending_move"@.len() == 12 && "pending_copy"@.len() == 12 && "pending_archive"@.len()
        == 15 && "pending_backup"@.len() == 14);
    let all = outputs.push(o);
    assert forall|k: int| 0 <= k < all.len() implies (#[trigger] all[k]).role != "pending_move"@
        && all[k].role != "pending_copy"@ && all[k].role != "pending_archive"@ && all[k].role
        != "pending_backup"@ by {
        if k < outputs.len() {
            assert(all[k] == outputs[k]);
        }
    }
}

#[verifier::spinoff_prover]
#[verifier::rlimit(40)]
proof fn lemma_transferred_done(
    item: TransferItemView,
    force: bool,
    moving: bool,
    j: JournalView,
    t: TalkView,
)
    requires
        t.in_step(),
        nothing_pending(j.outputs),
        operation::transferred(item, force, moving, j, t).0 is Ok,
    ensures
        ({
            let (r, j2, t2) = operation::transferred(item, force, moving, j, t);
            &&& dialog::follows(t, t2)
            &&& t2.pending is None ==> transfer_done(t, t2, item, moving)
            &&& j2.outputs.len() == j.outputs.len() + 1
            &&& j2.outputs == j.outputs.push(j2.outputs.last())
            &&& transfer_output(item, moving, j2.outputs.last())
            &&& nothing_pending(j2.outputs)
        }),
{
    let (r1, j1, t1) = if moving {
        operation::file_moved(item, force, j, t)
    } else {
        operation::file_copied(item, force, j, t)
    };
    if moving {
        lemma_file_moved_done(item, force, j, t);
    } else {
        lemma_file_copied_done(item, force, j, t);
    }
    let (found, t2) = fileset::inspected(item.destination, None, t1);
    lemma_inspected(item.destination, t1, anything());
    let (r3, j3, t3) = operation::transferred(item, force, moving, j, t);
    lemma_tried(t2, RequestView::SaveJournal(j3));
    lemma_follows_then(t1, t2, t3);
    lemma_follows_then(t, t1, t3);
    let o = OutputView {
        role: if moving {
            "moved"@
        } else {
            "copy"@
        },
        record: found->Ok_0,
        original: if moving {
            Some(item.source.path)
        } else {
            None
        },
    };
    assert(j3.outputs == j.outputs.push(o));
    reveal_strlit("moved");
    reveal_strlit("copy");
    assert("moved"@.len() == 5 && "copy"@.len() == 4);
    lemma_pending_pushed(j.outputs, o);
    if t3.pending is None {
        lemma_transfer_on(t, t, t1, t3, item, moving);
    }
}

#[verifier::spinoff_prover]
#[verifier::rlimit(40)]
proof fn lemma_each_transferred(
    items: Seq<TransferItemView>,
    i: int,
    force: bool,
    moving: bool,
    j: JournalView,
    t: TalkView,
)
    requires
        t.in_step(),
        0 <= i <= items.len(),
        nothing_pending(j.outputs),
        operation::all_transferred(items, i, force, moving, j, t).0 is Ok,
        operation::all_transferred(items, i, force, moving, j, t).2.pending is None,
    ensures
        ({
            let (r, j2, t2) = operation::all_transferred(items, i, force, moving, j, t);
            let n = j.outputs.len() as int;
            &&& dialog::follows(t, t2)
            &&& j2.outputs.len() == n + (items.len() - i)
            &&& outputs_kept(j.outputs, j2.outputs)
            &&& forall|k: int|
                i <= k < items.len() ==> transfer_output(
                    #[trigger] items[k],
                    moving,
                    j2.outputs[n + k - i],
                )
            &&& forall|k: int|
                i <= k < items.len() ==> transfer_done(t, t2, #[trigger] items[k], moving)
        }),
    decreases items.len() - i,
{
    if i < items.len() {
        let (r9, j9, t9) = operation::all_transferred(items, i, force, moving, j, t);
        let (r3, j3, t3) = operation::transferred(items[i], force, moving, j, t);
        lemma_transferred_done(items[i], force, moving, j, t);
        lemma_each_transferred(items, i + 1, force, moving, j3, t3);
        lemma_follows_then(t, t3, t9);
        assert forall|k: int| i <= k < items.len() implies transfer_done(
            t,
            t9,
            #[trigger] items[k],
            moving,
        ) by {
            if k == i {
                lemma_transfer_on(t, t, t3, t9, items[k], moving);
            } else {
                lemma_transfer_on(t, t3, t9, t9, items[k], moving);
            }
        }
        let n = j.outputs.len() as int;
        assert forall|k: int| 0 <= k < n implies #[trigger] j9.outputs[k] == j.outputs[k] by {
            assert(j3.outputs[k] == j.outputs[k]);
        }
        assert(j9.outputs[n] == j3.outputs[n]);
    }
}

/// Whether an output of a role stands at a path.
pub open spec fn output_at(outputs: Seq<OutputView>, role: Seq<char>, path: Seq<char>) -> bool {
    exists|k: int|
        0 <= k < outputs.len() && (#[trigger] outputs[k]).role == role && outputs[k].record.path
            == path && outputs[k].original is None
}

/// Whether outputs go on from others.
pub open spec fn outputs_kept(before: Seq<OutputView>, after: Seq<OutputView>) -> bool {
    &&& before.len() <= after.len()
    &&& forall|k: int| 0 <= k < before.len() ==> #[trigger] after[k] == before[k]
}

proof fn lemma_output_stays(
    before: Seq<OutputView>,
    after: Seq<OutputView>,
    role: Seq<char>,
    path: Seq<char>,
)
    requires
        output_at(before, role, path),
        outputs_kept(before, after),
    ensures
        output_at(after, role, path),
{
    let k = choose|k: int|
        0 <= k < before.len() && (#[trigger] before[k]).role == role && before[k].record.path
            == path && before[k].original is None;
    assert(after[k] == before[k]);
}

proof fn lemma_output_noted_done(role: Seq<char>, path: Seq<char>, j: JournalView, t: TalkView)
    requires
        t.in_step(),
        nothing_pending(j.outputs),
        role.len() < 12,
        operation::output_noted(role, path, j, t).0 is Ok,
    ensures
        ({
            let (r, j2, t2) = operation::output_noted(role, path, j, t);
            &&& dialog::follows(t, t2)
            &&& outputs_kept(j.outputs, j2.outputs)
            &&& output_at(j2.outputs, role, path)
            &&& nothing_pending(j2.outputs)
            &&& j2.id == j.id
        }),
{
    let (found, t1) = fileset::inspected(path, None, t);
    lemma_inspected(path, t, anything());
    let (r, j2, t2) = operation::output_noted(role, path, j, t);
    lemma_tried(t1, RequestView::SaveJournal(j2));
    lemma_follows_then(t, t1, t2);
    let n = j.outputs.len() as int;
    assert(j2.outputs[n].role == role && j2.outputs[n].record.path == path);
    reveal_strlit("pending_move");
    reveal_strlit("pending_copy");
    reveal_strlit("pending_archive");
    reveal_strlit("pending_backup");
    assert("pending_move"@.len() == 12 && "pending_copy"@.len() == 12 && "pending_archive"@.len()
        == 15 && "pending_backup"@.len() == 14);
    assert forall|k: int| 0 <= k < j2.outputs.len() implies (#[trigger] j2.outputs[k]).role
        != "pending_move"@ && j2.outputs[k].role != "pending_copy"@ && j2.outputs[k].role
        != "pending_archive"@ && j2.outputs[k].role != "pending_backup"@ by {
        if k < n {
            assert(j2.outputs[k] == j.outputs[k]);
        }
    }
}

#[verifier::spinoff_prover]
#[verifier::rlimit(60)]
proof fn lemma_backed_up_done(
    archive: Seq<char>,
    backup: Seq<char>,
    force: bool,
    j: JournalView,
    t: TalkView,
)
    requires
        t.in_step(),
        nothing_pending(j.outputs),
        operation::backed_up(archive, backup, force, j, t).0 is Ok,
    ensures
        ({
            let (r, j2, t2) = operation::backed_up(archive, backup, force, j, t);
            &&& dialog::follows(t, t2)
            &&& t2.pending is None ==> copy_done(t, t2, archive, backup)
            &&& outputs_kept(j.outputs, j2.outputs)
            &&& output_at(j2.outputs, "backup"@, backup)
            &&& nothing_pending(j2.outputs)
        }),
{
    let f = anything();
    let (staging, t1) = operation::staged_at(backup, j.id, "backup"@, t);
    lemma_tried(t, RequestView::Do(ActionView::CreateDirs(operation::directory_of(backup))));
    let s = staging->Ok_0;
    let (noted, j1, t2) = operation::staging_noted(s, j, t1);
    lemma_tried(t1, RequestView::SaveJournal(JournalView { staging: j.staging.push(s), ..j }));
    let t3 = match paths::parent_of(s) {
        Some(p) => dialog::acted(t2, ActionView::CreateDirs(p)).1,
        None => t2,
    };
    lemma_none(t2, f);
    match paths::parent_of(s) {
        Some(p) => lemma_tried(t2, RequestView::Do(ActionView::CreateDirs(p))),
        None => {},
    }
    let copying = RequestView::Do(ActionView::CopyFile(archive, s));
    let t4 = dialog::tried(t3, copying).1;
    lemma_follows_then(t, t1, t2);
    lemma_follows_then(t, t2, t3);
    lemma_tried(t3, copying);
    lemma_follows_then(t, t3, t4);
    let (p, j2, t5) = operation::published(
        s,
        backup,
        force,
        "pending_backup"@,
        "compress: could not identify staged backup: "@,
        "apply: could not persist publication intent: "@,
        false,
        j1,
        t4,
    );
    lemma_published_done(
        s,
        backup,
        force,
        "pending_backup"@,
        "compress: could not identify staged backup: "@,
        "apply: could not persist publication intent: "@,
        false,
        j1,
        t4,
    );
    lemma_follows_then(t, t4, t5);
    let t6 = operation::output_noted("backup"@, backup, j2, t5).2;
    reveal_strlit("backup");
    assert("backup"@.len() == 6);
    lemma_output_noted_done("backup"@, backup, j2, t5);
    lemma_follows_then(t4, t5, t6);
    lemma_follows_then(t, t5, t6);
    if t6.pending is None {
        lemma_succeeded_on(t, t3, t4, t6, copying);
        lemma_succeeded_on(t, t4, t5, t6, RequestView::Do(ActionView::Rename(s, backup)));
    }
}

#[verifier::spinoff_prover]
#[verifier::rlimit(60)]
proof fn lemma_archived_done(item: ArchivePlanItemView, force: bool, j: JournalView, t: TalkView)
    requires
        t.in_step(),
        nothing_pending(j.outputs),
        operation::archived(item, force, j, t).0 is Ok,
    ensures
        ({
            let (r, j2, t2) = operation::archived(item, force, j, t);
            &&& dialog::follows(t, t2)
            &&& t2.pending is None ==> build_done(t, t2, item) && (item.backup matches Some(b)
                ==> copy_done(t, t2, item.archive, b))
            &&& outputs_kept(j.outputs, j2.outputs)
            &&& output_at(j2.outputs, "archive"@, item.archive)
            &&& item.backup matches Some(b) ==> output_at(j2.outputs, "backup"@, b)
            &&& nothing_pending(j2.outputs)
        }),
{
    let (staging, t1) = operation::staged_at(item.archive, j.id, "archive"@, t);
    lemma_tried(t, RequestView::Do(ActionView::CreateDirs(operation::directory_of(item.archive))));
    let s = staging->Ok_0;
    let (noted, j1, t2) = operation::staging_noted(s, j, t1);
    lemma_tried(t1, RequestView::SaveJournal(JournalView { staging: j.staging.push(s), ..j }));
    let building = RequestView::BuildArchive(item, s);
    let t3 = dialog::tried(t2, building).1;
    lemma_tried(t2, building);
    let (p, j2, t4) = operation::published(
        s,
        item.archive,
        force,
        "pending_archive"@,
        "compress: could not identify staged archive: "@,
        "apply: could not persist publication intent: "@,
        false,
        j1,
        t3,
    );
    lemma_published_done(
        s,
        item.archive,
        force,
        "pending_archive"@,
        "compress: could not identify staged archive: "@,
        "apply: could not persist publication intent: "@,
        false,
        j1,
        t3,
    );
    let (c, j3, t5) = operation::output_noted("archive"@, item.archive, j2, t4);
    reveal_strlit("archive");
    assert("archive"@.len() == 7);
    lemma_output_noted_done("archive"@, item.archive, j2, t4);
    let (b, j4, t6) = match item.backup {
        Some(backup) => operation::backed_up(item.archive, backup, force, j3, t5),
        None => (Ok(()), j3, t5),
    };
    lemma_none(t5, anything());
    match item.backup {
        Some(backup) => {
            lemma_backed_up_done(item.archive, backup, force, j3, t5);
            lemma_output_stays(j3.outputs, j4.outputs, "archive"@, item.archive);
        },
        None => {},
    }
    let (r, j7, t7) = operation::archived(item, force, j, t);
    lemma_tried(t6, RequestView::SaveJournal(j7));
    assert(j7.outputs == j4.outputs);
    lemma_follows_then(t, t1, t2);
    lemma_follows_then(t, t2, t3);
    lemma_follows_then(t, t3, t4);
    lemma_follows_then(t, t4, t5);
    lemma_follows_then(t, t5, t6);
    lemma_follows_then(t, t6, t7);
    lemma_follows_then(t5, t6, t7);
    lemma_follows_then(t4, t5, t7);
    lemma_follows_then(t3, t4, t7);
    if t7.pending is None {
        lemma_succeeded_on(t, t2, t3, t7, building);
        lemma_succeeded_on(t, t3, t4, t7, RequestView::Do(ActionView::Rename(s, item.archive)));
        match item.backup {
            Some(backup) => lemma_copy_on(t, t5, t6, t7, item.archive, backup),
            None => {},
        }
    }
}

#[verifier::spinoff_prover]
#[verifier::rlimit(60)]
proof fn lemma_each_archived(
    items: Seq<ArchivePlanItemView>,
    i: int,
    force: bool,
    j: JournalView,
    t: TalkView,
)
    requires
        t.in_step(),
        0 <= i <= items.len(),
        nothing_pending(j.outputs),
        operation::all_archived(items, i, force, j, t).0 is Ok,
        operation::all_archived(items, i, force, j, t).2.pending is None,
    ensures
        ({
            let (r, j2, t2) = operation::all_archived(items, i, force, j, t);
            &&& dialog::follows(t, t2)
            &&& outputs_kept(j.outputs, j2.outputs)
            &&& forall|k: int|
                i <= k < items.len() ==> build_done(t, t2, #[trigger] items[k]) && output_at(
                    j2.outputs,
                    "archive"@,
                    items[k].archive,
                ) && (items[k].backup matches Some(b) ==> copy_done(t, t2, items[k].archive, b)
                    && output_at(j2.outputs, "backup"@, b))
        }),
    decreases items.len() - i,
{
    if i < items.len() {
        let (r9, j9, t9) = operation::all_archived(items, i, force, j, t);
        let (r1, j1, t1) = operation::archived(items[i], force, j, t);
        lemma_archived_done(items[i], force, j, t);
        lemma_each_archived(items, i + 1, force, j1, t1);
        lemma_follows_then(t, t1, t9);
        assert forall|k: int| 0 <= k < j.outputs.len() implies #[trigger] j9.outputs[k]
            == j.outputs[k] by {
            assert(j1.outputs[k] == j.outputs[k]);
        }
        assert forall|k: int| i <= k < items.len() implies build_done(t, t9, #[trigger] items[k])
            && output_at(j9.outputs, "archive"@, items[k].archive) && (
        items[k].backup matches Some(b) ==> copy_done(t, t9, items[k].archive, b) && output_at(
            j9.outputs,
            "backup"@,
            b,
        )) by {
            let item = items[k];
            if k == i {
                lemma_build_on(t, t, t1, t9, item);
                lemma_output_stays(j1.outputs, j9.outputs, "archive"@, item.archive);
                match item.backup {
                    Some(b) => {
                        lemma_copy_on(t, t, t1, t9, item.archive, b);
                        lemma_output_stays(j1.outputs, j9.outputs, "backup"@, b);
                    },
                    None => {},
                }
            } else {
                lemma_build_on(t, t1, t9, t9, item);
                match item.backup {
                    Some(b) => lemma_copy_on(t, t1, t9, t9, item.archive, b),
                    None => {},
                }
            }
        }
    }
}

/// Whether a journal tells what a plan made: each item in order where it is
/// transferred or deleted, and each archive and backup.
pub open spec fn plan_told(outputs: Seq<OutputView>, plan: PlannedView) -> bool {
    match plan {
        PlannedView::Move(items) => transfer_outputs(items, true, outputs),
        PlannedView::Copy(items) => transfer_outputs(items, false, outputs),
        PlannedView::Delete(items, _) => outputs_of(items, outputs),
        PlannedView::Archive(p) => forall|k: int|
            0 <= k < p.items.len() ==> output_at(
                outputs,
                "archive"@,
                (#[trigger] p.items[k]).archive,
            ) && (p.items[k].backup matches Some(b) ==> output_at(outputs, "backup"@, b)),
    }
}

#[verifier::spinoff_prover]
#[verifier::rlimit(60)]
proof fn lemma_carried_out_done(plan: PlanView, j: JournalView, t: TalkView)
    requires
        t.in_step(),
        j.outputs.len() == 0,
        operation::carried_out(plan, j, t).0 is Ok,
        operation::carried_out(plan, j, t).2.pending is None,
    ensures
        plan_done(t, operation::carried_out(plan, j, t).2, plan.operation),
        plan_told(operation::carried_out(plan, j, t).1.outputs, plan.operation),
{
    let f = anything();
    let (r9, j9, t9) = operation::carried_out(plan, j, t);
    assert(j9.outputs.skip(0) =~= j9.outputs);
    match plan.operation {
        PlannedView::Archive(p) => {
            let t1 = dialog::tried(t, RequestView::CheckArchive(p)).1;
            lemma_tried(t, RequestView::CheckArchive(p));
            let t2 = operation::all_free(p.items, 0, plan.force, t1).1;
            lemma_all_free(p.items, 0, plan.force, t1, f);
            lemma_follows_then(t, t1, t2);
            lemma_each_archived(p.items, 0, plan.force, j, t2);
            assert forall|k: int| 0 <= k < p.items.len() implies build_done(
                t,
                t9,
                #[trigger] p.items[k],
            ) && (p.items[k].backup matches Some(b) ==> copy_done(
                t,
                t9,
                p.items[k].archive,
                b,
            )) by {
                lemma_build_on(t, t2, t9, t9, p.items[k]);
                match p.items[k].backup {
                    Some(b) => lemma_copy_on(t, t2, t9, t9, p.items[k].archive, b),
                    None => {},
                }
            }
        },
        PlannedView::Copy(items) => {
            let t1 = operation::transfers_checked(items, 0, plan.force, t).1;
            lemma_transfers_checked(items, 0, plan.force, t, f);
            lemma_each_transferred(items, 0, plan.force, false, j, t1);
            assert forall|k: int| 0 <= k < items.len() implies (#[trigger] j9.outputs[k]).record.path
                == items[k].destination && transfer_output(items[k], false, j9.outputs[k]) by {
            }
            assert forall|k: int| 0 <= k < items.len() implies copy_done(
                t,
                t9,
                (#[trigger] items[k]).source.path,
                items[k].destination,
            ) by {
                assert(transfer_done(t1, t9, items[k], false));
                lemma_copy_on(t, t1, t9, t9, items[k].source.path, items[k].destination);
            }
        },
        PlannedView::Move(items) => {
            let t1 = operation::transfers_checked(items, 0, plan.force, t).1;
            lemma_transfers_checked(items, 0, plan.force, t, f);
            lemma_each_transferred(items, 0, plan.force, true, j, t1);
            assert forall|k: int| 0 <= k < items.len() implies (#[trigger] j9.outputs[k]).record.path
                == items[k].destination && transfer_output(items[k], true, j9.outputs[k]) by {
            }
            assert forall|k: int| 0 <= k < items.len() implies relocation_done(
                t,
                t9,
                (#[trigger] items[k]).source.path,
                items[k].destination,
            ) by {
                assert(transfer_done(t1, t9, items[k], true));
                lemma_relocation_on(t, t1, t9, t9, items[k].source.path, items[k].destination);
            }
        },
        PlannedView::Delete(items, options) => {
            law_planned_deletion_deletes_every_item(items, options, j, t);
        },
    }
}

/// A plan that is applied has been carried out: every item was moved, copied,
/// built with its backup, or deleted, and the journal that is given, which
/// says that the operation is applied, tells each of them.
pub proof fn law_applied_means_done(plan: PlanView, t: TalkView)
    requires
        t.in_step(),
        operation::applied(plan, t).0 is Ok,
        operation::applied(plan, t).1.pending is None,
    ensures
        ({
            let (r, t2) = operation::applied(plan, t);
            let j = r->Ok_0;
            &&& plan_done(t, t2, plan.operation)
            &&& plan_told(j.outputs, plan.operation)
            &&& j.status == "applied"@
            &&& succeeded(t, t2, RequestView::SaveJournal(j))
        }),
{
    let f = anything();
    let (j0, t1) = operation::first_journal(plan, t);
    lemma_first_journal(plan, t);
    let t2 = operation::saved(j0, t1).1;
    lemma_tried(t1, RequestView::SaveJournal(j0));
    lemma_follows_then(t, t1, t2);
    let (r, j1, t3) = operation::carried_out(plan, j0, t2);
    lemma_carried_out(plan, j0, t2);
    lemma_follows_then(t, t2, t3);
    let t4 = operation::clock(t3).1;
    lemma_one(t3, RequestView::Seconds, f);
    lemma_follows_then(t, t3, t4);
    let (r5, t5) = operation::applied(plan, t);
    let j2 = r5->Ok_0;
    lemma_tried(t4, RequestView::SaveJournal(j2));
    lemma_follows_then(t3, t4, t5);
    lemma_carried_out_done(plan, j0, t2);
    lemma_succeeded_on(t, t4, t5, t5, RequestView::SaveJournal(j2));
    match plan.operation {
        PlannedView::Archive(p) => {
            assert forall|k: int| 0 <= k < p.items.len() implies build_done(
                t,
                t5,
                #[trigger] p.items[k],
            ) && (p.items[k].backup matches Some(b) ==> copy_done(
                t,
                t5,
                p.items[k].archive,
                b,
            )) by {
                lemma_build_on(t, t2, t3, t5, p.items[k]);
                match p.items[k].backup {
                    Some(b) => lemma_copy_on(t, t2, t3, t5, p.items[k].archive, b),
                    None => {},
                }
            }
        },
        PlannedView::Copy(items) => {
            assert forall|k: int| 0 <= k < items.len() implies copy_done(
                t,
                t5,
                (#[trigger] items[k]).source.path,
                items[k].destination,
            ) by {
                lemma_copy_on(t, t2, t3, t5, items[k].source.path, items[k].destination);
            }
        },
        PlannedView::Move(items) => {
            assert forall|k: int| 0 <= k < items.len() implies relocation_done(
                t,
                t5,
                (#[trigger] items[k]).source.path,
                items[k].destination,
            ) by {
                lemma_relocation_on(t, t2, t3, t5, items[k].source.path, items[k].destination);
            }
        },
        PlannedView::Delete(items, options) => {
            assert forall|k: int| 0 <= k < items.len() implies deletion_done(
                t,
                t5,
                (#[trigger] items[k]).path,
                options.permanent,
            ) by {
                lemma_deletion_on(t, t2, t3, t5, items[k].path, options.permanent);
            }
        },
    }
}

// ---------------------------------------------------------------------------
// Many items
// ---------------------------------------------------------------------------

/// Copying many files by name copies each to its own target: where none is
/// skipped, every one was copied. Their number is what is counted.
#[verifier::spinoff_prover]
#[verifier::rlimit(30)]
pub proof fn law_every_source_is_copied(
    sources: Seq<Seq<char>>,
    n: int,
    dest: Seq<char>,
    into: bool,
    force: bool,
    t: TalkView,
)
    requires
        t.in_step(),
        0 <= n <= sources.len(),
    ensures
        ({
            let (copied, skipped, t2) = copy::copied_names(sources, n, dest, into, force, t);
            &&& dialog::follows(t, t2)
            &&& copied + skipped == n
            &&& skipped == 0 && t2.pending is None ==> forall|k: int|
                0 <= k < n ==> succeeded(
                    t,
                    t2,
                    RequestView::Do(
                        ActionView::CopyFile(
                            #[trigger] sources[k],
                            copy::named_target(sources[k], dest, into),
                        ),
                    ),
                )
        }),
    decreases n,
{
    if n > 0 {
        law_every_source_is_copied(sources, n - 1, dest, into, force, t);
        let (c1, s1, t1) = copy::copied_names(sources, n - 1, dest, into, force, t);
        let (c2, s2, t2) = copy::copied_names(sources, n, dest, into, force, t);
        let src = sources[n - 1];
        let target = copy::named_target(src, dest, into);
        law_copied_means_copied(src, target, force, t1);
        lemma_follows_then(t, t1, t2);
        if s2 == 0 && t2.pending is None {
            assert forall|k: int| 0 <= k < n implies succeeded(
                t,
                t2,
                RequestView::Do(
                    ActionView::CopyFile(
                        #[trigger] sources[k],
                        copy::named_target(sources[k], dest, into),
                    ),
                ),
            ) by {
                let r = RequestView::Do(
                    ActionView::CopyFile(sources[k], copy::named_target(sources[k], dest, into)),
                );
                if k == n - 1 {
                    lemma_succeeded_on(t, t1, t2, t2, r);
                } else {
                    lemma_succeeded_on(t, t, t1, t2, r);
                }
            }
        }
    }
}

/// Moving many items by name moves each to its own target: where none is
/// skipped, every one was moved. Their number is what is counted.
#[verifier::spinoff_prover]
#[verifier::rlimit(30)]
pub proof fn law_every_source_is_moved(
    sources: Seq<Seq<char>>,
    n: int,
    dest: Seq<char>,
    into: bool,
    force: bool,
    t: TalkView,
)
    requires
        t.in_step(),
        0 <= n <= sources.len(),
    ensures
        ({
            let (moved, skipped, t2) = fs_ops::moved_names(sources, n, dest, into, force, t);
            &&& dialog::follows(t, t2)
            &&& moved + skipped == n
            &&& skipped == 0 && t2.pending is None ==> forall|k: int|
                0 <= k < n ==> relocation_done(
                    t,
                    t2,
                    #[trigger] sources[k],
                    copy::named_target(sources[k], dest, into),
                )
        }),
    decreases n,
{
    if n > 0 {
        law_every_source_is_moved(sources, n - 1, dest, into, force, t);
        let (c1, s1, t1) = fs_ops::moved_names(sources, n - 1, dest, into, force, t);
        let (c2, s2, t2) = fs_ops::moved_names(sources, n, dest, into, force, t);
        let src = sources[n - 1];
        let target = copy::named_target(src, dest, into);
        law_moved_means_relocated(src, target, force, t1);
        lemma_follows_then(t, t1, t2);
        if s2 == 0 && t2.pending is None {
            assert forall|k: int| 0 <= k < n implies relocation_done(
                t,
                t2,
                #[trigger] sources[k],
                copy::named_target(sources[k], dest, into),
            ) by {
                let (a, b) = (sources[k], copy::named_target(sources[k], dest, into));
                if k == n - 1 {
                    lemma_relocation_on(t, t1, t2, t2, a, b);
                } else {
                    lemma_relocation_on(t, t, t1, t2, a, b);
                }
            }
        }
    }
}

/// The same of the rows of a table, by the path that each names: every row is
/// copied or skipped, and where none is skipped every one names a path and
/// was copied below the destination.
#[verifier::spinoff_prover]
#[verifier::rlimit(30)]
pub proof fn law_every_row_is_copied(
    rows: Seq<crate::table::RowView>,
    n: int,
    dest: Seq<char>,
    force: bool,
    t: TalkView,
)
    requires
        t.in_step(),
        0 <= n <= rows.len(),
    ensures
        ({
            let (copied, skipped, t2) = copy::copied_rows(rows, n, dest, force, t);
            &&& dialog::follows(t, t2)
            &&& copied + skipped == n
            &&& skipped == 0 && t2.pending is None ==> forall|k: int|
                0 <= k < n ==> (crate::table::cell_from(#[trigger] rows[k], "path"@, 0) matches Some(
                    path,
                ) && succeeded(
                    t,
                    t2,
                    RequestView::Do(
                        ActionView::CopyFile(path, paths::target_below(dest, path)),
                    ),
                ))
        }),
    decreases n,
{
    if n > 0 {
        law_every_row_is_copied(rows, n - 1, dest, force, t);
        let (c1, s1, t1) = copy::copied_rows(rows, n - 1, dest, force, t);
        let (c2, s2, t2) = copy::copied_rows(rows, n, dest, force, t);
        match crate::table::cell_from(rows[n - 1], "path"@, 0) {
            Some(path) => law_copied_means_copied(path, paths::target_below(dest, path), force, t1),
            None => {},
        }
        lemma_none(t1, anything());
        lemma_follows_then(t, t1, t2);
        if s2 == 0 && t2.pending is None {
            assert forall|k: int| 0 <= k < n implies (crate::table::cell_from(
                #[trigger] rows[k],
                "path"@,
                0,
            ) matches Some(path) && succeeded(
                t,
                t2,
                RequestView::Do(ActionView::CopyFile(path, paths::target_below(dest, path))),
            )) by {
                let path = crate::table::cell_from(rows[k], "path"@, 0)->0;
                let r = RequestView::Do(
                    ActionView::CopyFile(path, paths::target_below(dest, path)),
                );
                if k == n - 1 {
                    lemma_succeeded_on(t, t1, t2, t2, r);
                } else {
                    lemma_succeeded_on(t, t, t1, t2, r);
                }
            }
        }
    }
}

/// The same of moving the rows of a table.
#[verifier::spinoff_prover]
#[verifier::rlimit(30)]
pub proof fn law_every_row_is_moved(
    rows: Seq<crate::table::RowView>,
    n: int,
    dest: Seq<char>,
    force: bool,
    t: TalkView,
)
    requires
        t.in_step(),
        0 <= n <= rows.len(),
    ensures
        ({
            let (moved, skipped, t2) = fs_ops::moved_rows(rows, n, dest, force, t);
            &&& dialog::follows(t, t2)
            &&& moved + skipped == n
            &&& skipped == 0 && t2.pending is None ==> forall|k: int|
                0 <= k < n ==> (crate::table::cell_from(#[trigger] rows[k], "path"@, 0) matches Some(
                    path,
                ) && relocation_done(t, t2, path, paths::target_below(dest, path)))
        }),
    decreases n,
{
    if n > 0 {
        law_every_row_is_moved(rows, n - 1, dest, force, t);
        let (c1, s1, t1) = fs_ops::moved_rows(rows, n - 1, dest, force, t);
        let (c2, s2, t2) = fs_ops::moved_rows(rows, n, dest, force, t);
        match crate::table::cell_from(rows[n - 1], "path"@, 0) {
            Some(path) => law_moved_means_relocated(path, paths::target_below(dest, path), force, t1),
            None => {},
        }
        lemma_none(t1, anything());
        lemma_follows_then(t, t1, t2);
        if s2 == 0 && t2.pending is None {
            assert forall|k: int| 0 <= k < n implies (crate::table::cell_from(
                #[trigger] rows[k],
                "path"@,
                0,
            ) matches Some(path) && relocation_done(
                t,
                t2,
                path,
                paths::target_below(dest, path),
            )) by {
                let path = crate::table::cell_from(rows[k], "path"@, 0)->0;
                let target = paths::target_below(dest, path);
                if k == n - 1 {
                    lemma_relocation_on(t, t1, t2, t2, path, target);
                } else {
                    lemma_relocation_on(t, t, t1, t2, path, target);
                }
            }
        }
    }
}

/// Where `mkdir` succeeds, every directory was there already or was made, and
/// the two numbers add up.
#[verifier::spinoff_prover]
#[verifier::rlimit(30)]
pub proof fn law_every_directory_is_made(args: Seq<Seq<char>>, n: int, t: TalkView)
    requires
        t.in_step(),
        0 <= n <= args.len(),
        fs_ops::made_dirs(args, n, t).0 is Ok,
        fs_ops::made_dirs(args, n, t).1.pending is None,
    ensures
        ({
            let (r, t2) = fs_ops::made_dirs(args, n, t);
            let (created, skipped) = r->Ok_0;
            &&& dialog::follows(t, t2)
            &&& created + skipped == n
            &&& skipped == 0 ==> forall|k: int|
                0 <= k < n ==> succeeded(
                    t,
                    t2,
                    RequestView::Do(ActionView::CreateDirs(#[trigger] args[k])),
                )
            &&& forall|k: int|
                0 <= k < n ==> succeeded(t, t2, RequestView::IsDirectory(#[trigger] args[k]))
                    || succeeded(t, t2, RequestView::Do(ActionView::CreateDirs(args[k])))
        }),
    decreases n,
{
    if n > 0 {
        let dir = args[n - 1];
        let asking = RequestView::IsDirectory(dir);
        let making = RequestView::Do(ActionView::CreateDirs(dir));
        let (r1, t1) = fs_ops::made_dirs(args, n - 1, t);
        let (a, t2) = dialog::asked(t1, asking);
        let t3 = if a.as_truth() {
            t2
        } else {
            dialog::tried(t2, making).1
        };
        lemma_made_dirs(args, n - 1, t);
        lemma_one(t1, asking, anything());
        lemma_tried(t1, asking);
        lemma_tried(t2, making);
        lemma_none(t2, anything());
        law_every_directory_is_made(args, n - 1, t);
        lemma_follows_then(t, t1, t2);
        lemma_follows_then(t1, t2, t3);
        lemma_follows_then(t, t1, t3);
        if a.as_truth() {
            lemma_succeeded_on(t, t1, t2, t3, asking);
        } else {
            lemma_succeeded_on(t, t2, t3, t3, making);
        }
        assert forall|k: int| 0 <= k < n implies succeeded(
            t,
            t3,
            RequestView::IsDirectory(#[trigger] args[k]),
        ) || succeeded(t, t3, RequestView::Do(ActionView::CreateDirs(args[k]))) by {
            if k < n - 1 {
                if succeeded(t, t1, RequestView::IsDirectory(args[k])) {
                    lemma_succeeded_on(t, t, t1, t3, RequestView::IsDirectory(args[k]));
                } else {
                    lemma_succeeded_on(
                        t,
                        t,
                        t1,
                        t3,
                        RequestView::Do(ActionView::CreateDirs(args[k])),
                    );
                }
            }
        }
        if (r1->Ok_0).1 == 0 && !a.as_truth() {
            assert forall|k: int| 0 <= k < n implies succeeded(
                t,
                t3,
                RequestView::Do(ActionView::CreateDirs(#[trigger] args[k])),
            ) by {
                if k < n - 1 {
                    lemma_succeeded_on(
                        t,
                        t,
                        t1,
                        t3,
                        RequestView::Do(ActionView::CreateDirs(args[k])),
                    );
                }
            }
        }
    }
}

proof fn lemma_made_dirs(args: Seq<Seq<char>>, n: int, t: TalkView)
    ensures
        dialog::follows(t, fs_ops::made_dirs(args, n, t).1),
    decreases n,
{
    lemma_none(t, anything());
    if n > 0 {
        lemma_made_dirs(args, n - 1, t);
        let dir = args[n - 1];
        let t1 = fs_ops::made_dirs(args, n - 1, t).1;
        let t2 = dialog::asked(t1, RequestView::IsDirectory(dir)).1;
        let making = RequestView::Do(ActionView::CreateDirs(dir));
        lemma_one(t1, RequestView::IsDirectory(dir), anything());
        lemma_one(t2, making, anything());
        lemma_follows_then(t, t1, t2);
        lemma_follows_then(t, t2, dialog::asked(t2, making).1);
    }
}

/// Deleting many paths deletes each: every one is counted once, and where none
/// was skipped or failed, every one was deleted.
#[verifier::spinoff_prover]
#[verifier::rlimit(30)]
pub proof fn law_every_path_is_deleted(
    list: Seq<Seq<char>>,
    n: int,
    options: DeleteOptions,
    skipped: nat,
    t: TalkView,
)
    requires
        t.in_step(),
        0 <= n <= list.len(),
    ensures
        ({
            let (d, s, f, t2) = delete::deleted_paths(list, n, options, skipped, t);
            &&& dialog::follows(t, t2)
            &&& d + s + f == n + skipped
            &&& d == n && t2.pending is None ==> forall|k: int|
                0 <= k < n ==> deletion_done(t, t2, #[trigger] list[k], options.permanent)
            &&& d <= n
        }),
    decreases n,
{
    if n > 0 {
        law_every_path_is_deleted(list, n - 1, options, skipped, t);
        let (d1, s1, f1, t1) = delete::deleted_paths(list, n - 1, options, skipped, t);
        let (d2, s2, f2, t2) = delete::deleted_paths(list, n, options, skipped, t);
        lemma_deleted_one(list[n - 1], options, t1, anything());
        lemma_follows_then(t, t1, t2);
        if d2 == n && t2.pending is None {
            law_deleted_means_removed(list[n - 1], options, t1);
            assert forall|k: int| 0 <= k < n implies deletion_done(
                t,
                t2,
                #[trigger] list[k],
                options.permanent,
            ) by {
                if k == n - 1 {
                    lemma_deletion_on(t, t1, t2, t2, list[k], options.permanent);
                } else {
                    lemma_deletion_on(t, t, t1, t2, list[k], options.permanent);
                }
            }
        }
    }
}

/// Whether a request was made after an exchange.
pub open spec fn requested(t: TalkView, t2: TalkView, r: RequestView) -> bool {
    exists|k: int| t.made.len() <= k < t2.made.len() && #[trigger] t2.made[k] == r
}

proof fn lemma_requested_on(t: TalkView, t1: TalkView, t2: TalkView, t3: TalkView, r: RequestView)
    requires
        requested(t1, t2, r),
        dialog::follows(t, t1),
        dialog::follows(t2, t3),
    ensures
        requested(t, t3, r),
{
    let k = choose|k: int| t1.made.len() <= k < t2.made.len() && #[trigger] t2.made[k] == r;
    assert(t3.made[k] == r);
}

#[verifier::spinoff_prover]
#[verifier::rlimit(30)]
proof fn lemma_each_started(
    entries: Seq<(Seq<char>, Seq<char>)>,
    i: int,
    n: int,
    temp: Seq<char>,
    t: TalkView,
)
    requires
        t.in_step(),
        0 <= n,
    ensures
        ({
            let (smalls, t2) = compress::started(entries, i, n, temp, t);
            &&& dialog::follows(t, t2)
            &&& smalls.len() == n
            &&& t2.pending is None ==> forall|k: int|
                0 <= k < n ==> requested(
                    t,
                    t2,
                    RequestView::Pack(entries[i + k].1, entries[i + k].0, #[trigger] smalls[k]),
                )
        }),
    decreases n,
{
    if n > 0 {
        lemma_each_started(entries, i, n - 1, temp, t);
        let (before, t1) = compress::started(entries, i, n - 1, temp, t);
        let t2 = dialog::asked(t1, RequestView::Sequence).1;
        let (smalls, t3) = compress::started(entries, i, n, temp, t);
        let small = smalls[n - 1];
        let (name, src) = entries[i + n - 1];
        let packing = RequestView::Pack(src, name, small);
        lemma_one(t1, RequestView::Sequence, anything());
        lemma_one(t2, packing, anything());
        lemma_follows_then(t, t1, t2);
        lemma_follows_then(t, t2, t3);
        lemma_follows_then(t1, t2, t3);
        if t3.pending is None {
            assert(t3.made[t2.made.len() as int] == packing);
            assert(requested(t2, t3, packing));
            assert forall|k: int| 0 <= k < n implies requested(
                t,
                t3,
                RequestView::Pack(entries[i + k].1, entries[i + k].0, #[trigger] smalls[k]),
            ) by {
                if k == n - 1 {
                    lemma_requested_on(t, t2, t3, t3, packing);
                } else {
                    assert(smalls[k] == before[k]);
                    lemma_requested_on(
                        t,
                        t,
                        t1,
                        t3,
                        RequestView::Pack(entries[i + k].1, entries[i + k].0, before[k]),
                    );
                }
            }
        }
    } else {
        lemma_none(t, anything());
    }
}

/// One small archive is counted as packed only where it was added, and else
/// as skipped, or the work is interrupted.
pub proof fn law_packed_means_added(small: Seq<char>, n: compress::TallyView, t: TalkView)
    requires
        t.in_step(),
    ensures
        ({
            let (n2, t2) = compress::collected(small, n, t);
            &&& dialog::follows(t, t2)
            &&& n2.interrupted || (n2.compressed == n.compressed + 1 && n2.skipped == n.skipped) || (
            n2.compressed == n.compressed && n2.skipped == n.skipped + 1)
            &&& n2.compressed == n.compressed + 1 && t2.pending is None ==> succeeded(
                t,
                t2,
                RequestView::Do(ActionView::AddEntry(small)),
            )
            &&& n2.compressed >= n.compressed
            &&& n2.skipped >= n.skipped
            &&& n.interrupted ==> n2.interrupted
        }),
{
    let f = anything();
    let waiting = RequestView::AwaitPack(small);
    let removing = RequestView::Do(ActionView::RemoveFile(small));
    let adding = RequestView::Do(ActionView::AddEntry(small));
    let (a, t1) = dialog::asked(t, waiting);
    lemma_one(t, waiting, f);
    match a {
        AnswerView::Text(e) => {},
        AnswerView::Failure(e) => {
            let noted = dialog::noted(t1, "ion-win: compress: "@ + e);
            lemma_one(t1, removing, f);
            lemma_one(noted, removing, f);
            lemma_follows_then(t, t1, dialog::asked(t1, removing).1);
            lemma_follows_then(t, noted, dialog::asked(noted, removing).1);
        },
        _ => {
            let (b, t2) = dialog::asked(t1, RequestView::Interrupted);
            lemma_one(t1, RequestView::Interrupted, f);
            lemma_follows_then(t, t1, t2);
            lemma_one(t2, removing, f);
            lemma_follows_then(t, t2, dialog::asked(t2, removing).1);
            let (r, t3) = dialog::tried(t2, adding);
            lemma_tried(t2, adding);
            lemma_follows_then(t, t2, t3);
            let t4 = match r {
                Ok(_) => t3,
                Err(e) => dialog::noted(t3, "ion-win: compress: "@ + e),
            };
            let t5 = dialog::asked(t4, removing).1;
            lemma_one(t4, removing, f);
            lemma_follows_then(t3, t4, t5);
            lemma_follows_then(t, t3, t5);
            if r is Ok && t5.pending is None && !b.as_truth() {
                lemma_succeeded_on(t, t2, t3, t5, adding);
            }
        },
    }
}

#[verifier::spinoff_prover]
#[verifier::rlimit(30)]
proof fn lemma_each_collected(
    smalls: Seq<Seq<char>>,
    k: int,
    n: compress::TallyView,
    t: TalkView,
)
    requires
        t.in_step(),
        0 <= k <= smalls.len(),
    ensures
        ({
            let (n2, t2) = compress::all_collected(smalls, k, n, t);
            &&& dialog::follows(t, t2)
            &&& n2.compressed >= n.compressed
            &&& n2.skipped >= n.skipped
            &&& n.interrupted ==> n2.interrupted
            &&& !n2.interrupted ==> n2.compressed + n2.skipped == n.compressed + n.skipped + k
            &&& !n2.interrupted && n2.skipped == n.skipped && t2.pending is None ==> forall|m: int|
                0 <= m < k ==> succeeded(
                    t,
                    t2,
                    RequestView::Do(ActionView::AddEntry(#[trigger] smalls[m])),
                )
        }),
    decreases k,
{
    if k > 0 {
        lemma_each_collected(smalls, k - 1, n, t);
        let (n1, t1) = compress::all_collected(smalls, k - 1, n, t);
        let (n2, t2) = compress::all_collected(smalls, k, n, t);
        law_packed_means_added(smalls[k - 1], n1, t1);
        lemma_follows_then(t, t1, t2);
        if !n2.interrupted && n2.skipped == n.skipped && t2.pending is None {
            assert forall|m: int| 0 <= m < k implies succeeded(
                t,
                t2,
                RequestView::Do(ActionView::AddEntry(#[trigger] smalls[m])),
            ) by {
                let r = RequestView::Do(ActionView::AddEntry(smalls[m]));
                if m == k - 1 {
                    lemma_succeeded_on(t, t1, t2, t2, r);
                } else {
                    lemma_succeeded_on(t, t, t1, t2, r);
                }
            }
        }
    } else {
        lemma_none(t, anything());
    }
}

/// Whether an entry was packed: its file was sent to be packed under its name
/// into a small archive, and that was added.
pub open spec fn packing_done(t: TalkView, t2: TalkView, name: Seq<char>, src: Seq<char>) -> bool {
    exists|small: Seq<char>| #[trigger]
        requested(t, t2, RequestView::Pack(src, name, small)) && succeeded(
            t,
            t2,
            RequestView::Do(ActionView::AddEntry(small)),
        )
}

proof fn lemma_packing_on(
    t: TalkView,
    t1: TalkView,
    t2: TalkView,
    t3: TalkView,
    name: Seq<char>,
    src: Seq<char>,
)
    requires
        packing_done(t1, t2, name, src),
        dialog::follows(t, t1),
        dialog::follows(t2, t3),
    ensures
        packing_done(t, t3, name, src),
{
    let small = choose|small: Seq<char>| #[trigger]
        requested(t1, t2, RequestView::Pack(src, name, small)) && succeeded(
            t1,
            t2,
            RequestView::Do(ActionView::AddEntry(small)),
        );
    lemma_requested_on(t, t1, t2, t3, RequestView::Pack(src, name, small));
    lemma_succeeded_on(t, t1, t2, t3, RequestView::Do(ActionView::AddEntry(small)));
}

/// Packing that is not interrupted counts every entry once, and where none is
/// skipped, every one was packed under its name and added.
#[verifier::spinoff_prover]
#[verifier::rlimit(60)]
pub proof fn law_every_entry_is_packed(
    entries: Seq<(Seq<char>, Seq<char>)>,
    i: int,
    workers: nat,
    temp: Seq<char>,
    n: compress::TallyView,
    t: TalkView,
)
    requires
        t.in_step(),
        0 <= i <= entries.len(),
        workers > 0,
        !n.interrupted,
        !compress::rounds(entries, i, workers, temp, n, t).0.interrupted,
    ensures
        ({
            let (n2, t2) = compress::rounds(entries, i, workers, temp, n, t);
            &&& dialog::follows(t, t2)
            &&& n2.compressed + n2.skipped == n.compressed + n.skipped + (entries.len() - i)
            &&& n2.skipped >= n.skipped
            &&& n2.skipped == n.skipped && t2.pending is None ==> forall|k: int|
                i <= k < entries.len() ==> packing_done(
                    t,
                    t2,
                    (#[trigger] entries[k]).0,
                    entries[k].1,
                )
        }),
    decreases entries.len() - i,
{
    let (a, t1) = dialog::asked(t, RequestView::Interrupted);
    lemma_one(t, RequestView::Interrupted, anything());
    if i < entries.len() {
        let count = if entries.len() - i < workers {
            entries.len() - i
        } else {
            workers as int
        };
        let (smalls, t2) = compress::started(entries, i, count, temp, t1);
        lemma_each_started(entries, i, count, temp, t1);
        let (n1, t3) = compress::all_collected(smalls, count, n, t2);
        lemma_each_collected(smalls, count, n, t2);
        let (n9, t9) = compress::rounds(entries, i, workers, temp, n, t);
        law_every_entry_is_packed(entries, i + count, workers, temp, n1, t3);
        lemma_follows_then(t, t1, t2);
        lemma_follows_then(t1, t2, t3);
        lemma_follows_then(t, t2, t3);
        lemma_follows_then(t2, t3, t9);
        lemma_follows_then(t, t3, t9);
        if n9.skipped == n.skipped && t9.pending is None {
            assert forall|k: int| i <= k < entries.len() implies packing_done(
                t,
                t9,
                (#[trigger] entries[k]).0,
                entries[k].1,
            ) by {
                if k < i + count {
                    let small = smalls[k - i];
                    let packing = RequestView::Pack(entries[k].1, entries[k].0, small);
                    assert(entries[i + (k - i)] == entries[k]);
                    lemma_requested_on(t, t1, t2, t9, packing);
                    lemma_succeeded_on(
                        t,
                        t2,
                        t3,
                        t9,
                        RequestView::Do(ActionView::AddEntry(small)),
                    );
                } else {
                    lemma_packing_on(t, t3, t9, t9, entries[k].0, entries[k].1);
                }
            }
        }
    }
}

// ---------------------------------------------------------------------------
// What recovery means
// ---------------------------------------------------------------------------

#[verifier::spinoff_prover]
#[verifier::rlimit(30)]
proof fn lemma_each_accounted(
    outputs: Seq<OutputView>,
    n: int,
    staging: Seq<Seq<char>>,
    k: int,
    t: TalkView,
)
    requires
        0 <= k < n <= outputs.len(),
        !crate::text::begins_with(outputs[k].role, "pending_"@),
        operation::all_accounted(outputs, n, staging, t).0 is Ok,
    ensures
        operation::all_accounted(outputs, n, staging, t).0->Ok_0.contains(outputs[k]),
    decreases n,
{
    let (before, t1) = operation::all_accounted(outputs, n - 1, staging, t);
    let kept = before->Ok_0;
    let all = operation::all_accounted(outputs, n, staging, t).0->Ok_0;
    if k == n - 1 {
        assert(all == kept.push(outputs[k]));
        assert(all[kept.len() as int] == outputs[k]);
    } else {
        lemma_each_accounted(outputs, n - 1, staging, k, t);
        let m = choose|m: int| 0 <= m < kept.len() && kept[m] == outputs[k];
        assert(all[m] == outputs[k]);
    }
}

#[verifier::spinoff_prover]
#[verifier::rlimit(30)]
proof fn lemma_each_staging_gone(staging: Seq<Seq<char>>, i: int, t: TalkView)
    requires
        t.in_step(),
        0 <= i <= staging.len(),
        operation::staging_removed(staging, i, t).0 is Ok,
    ensures
        ({
            let t2 = operation::staging_removed(staging, i, t).1;
            &&& dialog::follows(t, t2)
            &&& t2.pending is None ==> forall|k: int|
                i <= k < staging.len() ==> staging_gone(t, t2, #[trigger] staging[k])
        }),
    decreases staging.len() - i,
{
    lemma_none(t, anything());
    if i < staging.len() {
        let p = staging[i];
        let asking = RequestView::Exists(p);
        let removing = RequestView::Do(ActionView::RemoveFile(p));
        let (there, t1) = dialog::exists_at(t, p);
        let t2 = if there {
            dialog::tried(t1, removing).1
        } else {
            t1
        };
        lemma_one(t, asking, anything());
        lemma_tried(t1, removing);
        lemma_none(t1, anything());
        lemma_follows_then(t, t1, t2);
        let t9 = operation::staging_removed(staging, i, t).1;
        lemma_each_staging_gone(staging, i + 1, t2);
        lemma_follows_then(t1, t2, t9);
        lemma_follows_then(t, t2, t9);
        if t9.pending is None {
            assert forall|k: int| i <= k < staging.len() implies staging_gone(
                t,
                t9,
                #[trigger] staging[k],
            ) by {
                if k == i {
                    if there {
                        lemma_succeeded_on(t, t1, t2, t9, removing);
                    } else {
                        let at = t.made.len() as int;
                        assert(t1.made[at] == asking);
                        assert(t9.made[at] == asking);
                        assert(t9.answers[at] == t.answers[t.next]);
                        assert(found_missing(t, t9, p));
                    }
                } else if found_missing(t2, t9, staging[k]) {
                    let at = choose|at: int|
                        t2.made.len() <= at < t9.made.len() && #[trigger] t9.made[at]
                            == RequestView::Exists(staging[k]) && !t9.answers[at].as_truth();
                    assert(t9.made[at] == RequestView::Exists(staging[k]));
                } else {
                    lemma_succeeded_on(
                        t,
                        t2,
                        t9,
                        t9,
                        RequestView::Do(ActionView::RemoveFile(staging[k])),
                    );
                }
            }
        }
    }
}

/// Whether a path was asked about and answered not to be there.
pub open spec fn found_missing(t: TalkView, t2: TalkView, path: Seq<char>) -> bool {
    exists|k: int|
        t.made.len() <= k < t2.made.len() && #[trigger] t2.made[k] == RequestView::Exists(path)
            && !t2.answers[k].as_truth()
}

/// Whether a temporary file is gone: it was not there, or was removed.
pub open spec fn staging_gone(t: TalkView, t2: TalkView, path: Seq<char>) -> bool {
    ||| found_missing(t, t2, path)
    ||| succeeded(t, t2, RequestView::Do(ActionView::RemoveFile(path)))
}

/// Where a recovery takes an operation back, no temporary file of it is left
/// and every output that it had published was taken back; the journal says
/// that it is rolled back.
#[verifier::spinoff_prover]
#[verifier::rlimit(60)]
pub proof fn law_recovery_takes_everything_back(j: JournalView, t: TalkView)
    requires
        t.in_step(),
        operation::recovered_back(j, t).0 is Ok,
        operation::recovered_back(j, t).1.pending is None,
    ensures
        ({
            let (r, t2) = operation::recovered_back(j, t);
            &&& forall|k: int|
                0 <= k < j.staging.len() ==> staging_gone(t, t2, #[trigger] j.staging[k])
            &&& forall|k: int|
                0 <= k < j.outputs.len() && !crate::text::begins_with(
                    (#[trigger] j.outputs[k]).role,
                    "pending_"@,
                ) ==> taking_back_done(t, t2, j.outputs[k])
            &&& r->Ok_0.status == "rolled_back"@
            &&& r->Ok_0.staging.len() == 0
        }),
{
    let f = anything();
    let (a, t1) = operation::all_accounted(j.outputs, j.outputs.len() as int, j.staging, t);
    lemma_all_accounted(j.outputs, j.outputs.len() as int, j.staging, t, f);
    let kept = a->Ok_0;
    let t2 = operation::staging_removed(j.staging, 0, t1).1;
    lemma_each_staging_gone(j.staging, 0, t1);
    lemma_follows_then(t, t1, t2);
    let j1 = JournalView { outputs: kept, staging: Seq::empty(), ..j };
    let t3 = operation::outputs_unchanged(kept, 0, "rollback"@, t2).1;
    lemma_outputs_unchanged(kept, 0, "rollback"@, t2, f);
    lemma_follows_then(t, t2, t3);
    let (j2, t4) = operation::rolled_back(j1, t3);
    lemma_each_undone(kept, kept.len() as int, t3);
    lemma_none(t3, f);
    lemma_follows_then(t, t3, t4);
    let t5 = operation::clock(t4).1;
    lemma_one(t4, RequestView::Seconds, f);
    lemma_follows_then(t3, t4, t5);
    lemma_follows_then(t2, t3, t5);
    assert(t4.pending is None && t3.pending is None && t2.pending is None);
    reveal_strlit("partially_applied");
    reveal_strlit("rolled_back");
    assert("partially_applied"@.len() == 17 && "rolled_back"@.len() == 11);
    assert forall|k: int| 0 <= k < j.staging.len() implies staging_gone(
        t,
        t5,
        #[trigger] j.staging[k],
    ) by {
        let p = j.staging[k];
        assert(staging_gone(t1, t2, p));
        if found_missing(t1, t2, p) {
            let at = choose|at: int|
                t1.made.len() <= at < t2.made.len() && #[trigger] t2.made[at]
                    == RequestView::Exists(p) && !t2.answers[at].as_truth();
            assert(t5.made[at] == RequestView::Exists(p));
        } else {
            lemma_succeeded_on(t, t1, t2, t5, RequestView::Do(ActionView::RemoveFile(p)));
        }
    }
    assert forall|k: int|
        0 <= k < j.outputs.len() && !crate::text::begins_with(
            (#[trigger] j.outputs[k]).role,
            "pending_"@,
        ) implies taking_back_done(t, t5, j.outputs[k]) by {
        lemma_each_accounted(j.outputs, j.outputs.len() as int, j.staging, k, t);
        let m = choose|m: int| 0 <= m < kept.len() && kept[m] == j.outputs[k];
        assert(taking_back_done(t3, t4, kept[m]));
        lemma_taking_back_on(t, t3, t4, t5, kept[m]);
    }
}

proof fn lemma_republished_done(
    staging: Seq<char>,
    dest: Seq<char>,
    role: Seq<char>,
    unidentified: Seq<char>,
    j: JournalView,
    t: TalkView,
)
    requires
        t.in_step(),
        operation::republished(staging, dest, role, unidentified, j, t).0 is Ok,
    ensures
        ({
            let t2 = operation::republished(staging, dest, role, unidentified, j, t).2;
            &&& dialog::follows(t, t2)
            &&& t2.pending is None ==> succeeded(
                t,
                t2,
                RequestView::Do(ActionView::Rename(staging, dest)),
            )
        }),
{
    let f = anything();
    let (found, t1) = fileset::inspected(staging, None, t);
    lemma_inspected(staging, t, f);
    let record = FileRecordView { path: dest, ..found->Ok_0 };
    let note = OutputView { role, record, original: None };
    let j1 = JournalView { outputs: j.outputs.push(note), ..j };
    let t2 = operation::saved(j1, t1).1;
    lemma_tried(t1, RequestView::SaveJournal(j1));
    let (there, t3) = dialog::exists_at(t2, dest);
    lemma_one(t2, RequestView::Exists(dest), f);
    let name = RequestView::Do(ActionView::Rename(staging, dest));
    lemma_tried(t3, name);
    let t4 = dialog::tried(t3, name).1;
    lemma_follows_then(t, t1, t2);
    lemma_follows_then(t, t2, t3);
    lemma_follows_then(t, t3, t4);
    if t4.pending is None {
        lemma_succeeded_on(t, t3, t4, t4, name);
    }
}

/// A copy that is resumed and of which nothing was noted is made anew: its
/// source is copied and put into its place, and the journal notes it.
#[verifier::spinoff_prover]
#[verifier::rlimit(60)]
pub proof fn law_resumed_copies_are_made(step: operation::StepView, j: JournalView, t: TalkView)
    requires
        t.in_step(),
        operation::output_place(j.outputs, 0, "pending_copy"@, step.destination) is None,
        operation::copy_resumed(step, j, t).0 is Ok,
        operation::copy_resumed(step, j, t).2.pending is None,
    ensures
        ({
            let (r, j2, t2) = operation::copy_resumed(step, j, t);
            &&& copy_done(t, t2, step.source.path, step.destination)
            &&& output_at(j2.outputs, "copy"@, step.destination)
            &&& succeeded(t, t2, RequestView::SaveJournal(j2))
            &&& j2.steps == operation::without_destination(j.steps, step.destination)
        }),
{
    let f = anything();
    let dest = step.destination;
    let (there, t1) = dialog::exists_at(t, dest);
    lemma_one(t, RequestView::Exists(dest), f);
    let t2 = operation::validated(step.source, "recover: copy source drift"@, t1).1;
    lemma_validated(step.source, "recover: copy source drift"@, t1, f);
    let (staging, t3) = operation::staged_at(dest, j.id, "copy"@, t2);
    lemma_tried(t2, RequestView::Do(ActionView::CreateDirs(operation::directory_of(dest))));
    let s = staging->Ok_0;
    let j1 = JournalView { staging: operation::with_staging(j.staging, s), ..j };
    let t4 = operation::saved(j1, t3).1;
    lemma_tried(t3, RequestView::SaveJournal(j1));
    let t5 = copy::copied_one(step.source.path, s, false, t4).1;
    law_copied_means_copied(step.source.path, s, false, t4);
    let (b, j6, t6) = operation::republished(
        s,
        dest,
        "pending_copy"@,
        "recover: could not identify staged copy: "@,
        j1,
        t5,
    );
    assert(operation::copy_rebuilt(step, j, t) == (b, j6, t6));
    lemma_republished_done(
        s,
        dest,
        "pending_copy"@,
        "recover: could not identify staged copy: "@,
        j1,
        t5,
    );
    let (found, t7) = fileset::inspected(dest, None, t6);
    lemma_inspected(dest, t6, f);
    let (r, j9, t9) = operation::copy_resumed(step, j, t);
    lemma_tried(t7, RequestView::SaveJournal(j9));
    let n = j6.outputs.len() as int;
    assert(j9.outputs[n].role == "copy"@ && j9.outputs[n].record.path == dest);
    lemma_follows_then(t, t1, t2);
    lemma_follows_then(t, t2, t3);
    lemma_follows_then(t, t3, t4);
    lemma_follows_then(t, t4, t5);
    lemma_follows_then(t, t5, t6);
    lemma_follows_then(t, t6, t7);
    lemma_follows_then(t, t7, t9);
    lemma_follows_then(t6, t7, t9);
    lemma_follows_then(t5, t6, t9);
    let copying = RequestView::Do(ActionView::CopyFile(step.source.path, s));
    lemma_succeeded_on(t, t4, t5, t9, copying);
    lemma_succeeded_on(t, t5, t6, t9, RequestView::Do(ActionView::Rename(s, dest)));
    lemma_succeeded_on(t, t7, t9, t9, RequestView::SaveJournal(j9));
}

} // verus!
