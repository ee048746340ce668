//! File operations that are planned, applied under a journal, undone and
//! recovered.
//!
//! Every step is written to the journal before and after it is taken, so that
//! an operation that stops in the middle leaves behind what is needed to
//! finish it or to take it back.

use crate::copy;
use crate::copy::copy_one;
use crate::delete;
use crate::delete::DeleteOptions;
use crate::dialog;
use crate::dialog::{Action, ActionView, Request, RequestView, Talk, TalkView};
use crate::fileset;
use crate::fileset::{
    copy_opt, copy_records, FileKind, FileRecord, FileRecordView, FileSet, FileSetView,
};
use crate::fs_builtins;
use crate::fs_ops;
use crate::fs_ops::move_one;
use crate::methods;
use crate::methods::lower_text;
use crate::paths;
use crate::paths::{below, equal_paths, file_name, parent, table_row_target};
use crate::table;
use crate::table::{Row, Table};
use crate::text;
use crate::text::{
    cat2, cat3, cat4, cat5, copy_texts, has_prefix, holds_text, same, u64_text,
};
use vstd::prelude::*;

verus! {

// ---------------------------------------------------------------------------
// Plans and journals
// ---------------------------------------------------------------------------

/// A file that goes into an archive, and the name it goes by there.
#[derive(Debug, Clone, PartialEq, Eq)]
pub struct ArchivePlanEntry {
    pub archive_name: String,
    pub source: FileRecord,
}

/// What an entry of an archive plan is.
#[verifier::ext_equal]
pub struct ArchivePlanEntryView {
    pub archive_name: Seq<char>,
    pub source: FileRecordView,
}

impl View for ArchivePlanEntry {
    type V = ArchivePlanEntryView;

    open spec fn view(&self) -> ArchivePlanEntryView {
        ArchivePlanEntryView { archive_name: self.archive_name@, source: self.source@ }
    }
}

/// What the entries of a list are.
pub open spec fn entry_views(list: Seq<ArchivePlanEntry>) -> Seq<ArchivePlanEntryView> {
    Seq::new(list.len(), |i: int| list[i]@)
}

/// An archive to build, and the copy of it to keep.
#[derive(Debug, Clone, PartialEq, Eq)]
pub struct ArchivePlanItem {
    pub root: String,
    pub archive: String,
    pub backup: Option<String>,
    pub entries: Vec<ArchivePlanEntry>,
}

/// What an archive to build is.
#[verifier::ext_equal]
pub struct ArchivePlanItemView {
    pub root: Seq<char>,
    pub archive: Seq<char>,
    pub backup: Option<Seq<char>>,
    pub entries: Seq<ArchivePlanEntryView>,
}

impl View for ArchivePlanItem {
    type V = ArchivePlanItemView;

    open spec fn view(&self) -> ArchivePlanItemView {
        ArchivePlanItemView {
            root: self.root@,
            archive: self.archive@,
            backup: fileset::opt_text(self.backup),
            entries: entry_views(self.entries@),
        }
    }
}

/// What the archives of a list are.
pub open spec fn item_views(list: Seq<ArchivePlanItem>) -> Seq<ArchivePlanItemView> {
    Seq::new(list.len(), |i: int| list[i]@)
}

/// Archives to build, with the rows that show them.
#[derive(Debug, Clone, PartialEq, Eq)]
pub struct ArchivePlan {
    pub items: Vec<ArchivePlanItem>,
    pub preview: Table,
}

/// What an archive plan is.
#[verifier::ext_equal]
pub struct ArchivePlanView {
    pub items: Seq<ArchivePlanItemView>,
    pub preview: Seq<table::RowView>,
}

impl View for ArchivePlan {
    type V = ArchivePlanView;

    open spec fn view(&self) -> ArchivePlanView {
        ArchivePlanView { items: item_views(self.items@), preview: self.preview@ }
    }
}

/// A file to copy or move, and what is at its destination when that is
/// planned.
#[derive(Debug, Clone, PartialEq, Eq)]
pub struct FileTransferPlanItem {
    pub source: FileRecord,
    pub destination: String,
    pub destination_before: Option<FileRecord>,
}

/// What a file to transfer is.
#[verifier::ext_equal]
pub struct TransferItemView {
    pub source: FileRecordView,
    pub destination: Seq<char>,
    pub before: Option<FileRecordView>,
}

/// The record that may be absent.
pub open spec fn opt_record(r: Option<FileRecord>) -> Option<FileRecordView> {
    match r {
        Some(f) => Some(f@),
        None => None,
    }
}

impl View for FileTransferPlanItem {
    type V = TransferItemView;

    open spec fn view(&self) -> TransferItemView {
        TransferItemView {
            source: self.source@,
            destination: self.destination@,
            before: opt_record(self.destination_before),
        }
    }
}

/// What the files of a transfer are.
pub open spec fn transfer_views(list: Seq<FileTransferPlanItem>) -> Seq<TransferItemView> {
    Seq::new(list.len(), |i: int| list[i]@)
}

/// Files to copy or move.
#[derive(Debug, Clone, PartialEq, Eq)]
pub struct FileTransferPlan {
    pub items: Vec<FileTransferPlanItem>,
}

impl View for FileTransferPlan {
    type V = Seq<TransferItemView>;

    open spec fn view(&self) -> Seq<TransferItemView> {
        transfer_views(self.items@)
    }
}

/// Files to hand to the recycle bin.
#[derive(Debug, Clone, PartialEq, Eq)]
pub struct DeletePlan {
    pub items: Vec<FileRecord>,
    pub options: DeleteOptions,
}

/// What is planned.
#[derive(Debug, Clone, PartialEq, Eq)]
pub enum PlannedOperation {
    Archive(ArchivePlan),
    Copy(FileTransferPlan),
    Move(FileTransferPlan),
    Delete(DeletePlan),
}

/// What is planned.
pub enum PlannedView {
    Archive(ArchivePlanView),
    Copy(Seq<TransferItemView>),
    Move(Seq<TransferItemView>),
    Delete(Seq<FileRecordView>, DeleteOptions),
}

impl View for PlannedOperation {
    type V = PlannedView;

    open spec fn view(&self) -> PlannedView {
        match self {
            PlannedOperation::Archive(p) => PlannedView::Archive(p@),
            PlannedOperation::Copy(p) => PlannedView::Copy(p@),
            PlannedOperation::Move(p) => PlannedView::Move(p@),
            PlannedOperation::Delete(p) => PlannedView::Delete(
                fileset::record_views(p.items@),
                p.options,
            ),
        }
    }
}

/// A plan, which is applied as it stands or not at all.
#[derive(Debug, Clone, PartialEq, Eq)]
pub struct OperationPlan {
    pub id: String,
    pub operation: PlannedOperation,
    pub force: bool,
}

/// What a plan is.
pub struct PlanView {
    pub id: Seq<char>,
    pub operation: PlannedView,
    pub force: bool,
}

impl View for OperationPlan {
    type V = PlanView;

    open spec fn view(&self) -> PlanView {
        PlanView { id: self.id@, operation: self.operation@, force: self.force }
    }
}

/// Something that an operation made or is about to make.
#[derive(Debug, Clone, PartialEq, Eq)]
pub struct JournalOutput {
    pub role: String,
    pub record: FileRecord,
    pub original_path: Option<String>,
}

/// What a journaled output is.
#[verifier::ext_equal]
pub struct OutputView {
    pub role: Seq<char>,
    pub record: FileRecordView,
    pub original: Option<Seq<char>>,
}

impl View for JournalOutput {
    type V = OutputView;

    open spec fn view(&self) -> OutputView {
        OutputView {
            role: self.role@,
            record: self.record@,
            original: fileset::opt_text(self.original_path),
        }
    }
}

/// What the outputs of a list are.
pub open spec fn output_views(list: Seq<JournalOutput>) -> Seq<OutputView> {
    Seq::new(list.len(), |i: int| list[i]@)
}

/// A transfer that is still to be made.
#[derive(Debug, Clone, PartialEq, Eq)]
pub struct RecoveryStep {
    pub operation: String,
    pub source: FileRecord,
    pub destination: String,
}

/// What a transfer that is still to be made is.
#[verifier::ext_equal]
pub struct StepView {
    pub operation: Seq<char>,
    pub source: FileRecordView,
    pub destination: Seq<char>,
}

impl View for RecoveryStep {
    type V = StepView;

    open spec fn view(&self) -> StepView {
        StepView {
            operation: self.operation@,
            source: self.source@,
            destination: self.destination@,
        }
    }
}

/// What the steps of a list are.
pub open spec fn step_views(list: Seq<RecoveryStep>) -> Seq<StepView> {
    Seq::new(list.len(), |i: int| list[i]@)
}

/// An entry of an archive that is still to be built.
pub type ArchiveRecoveryEntry = ArchivePlanEntry;

/// An archive that is still to be built.
pub type ArchiveRecoveryStep = ArchivePlanItem;

/// What is known for certain of an operation: what it was to do, what it made
/// and what is left of it. Undoing trusts the identities that were taken
/// after writing, never the plan's paths alone.
#[derive(Debug, Clone, PartialEq, Eq)]
pub struct OperationJournal {
    pub id: String,
    pub plan_id: String,
    pub operation: String,
    pub started_at: u64,
    pub finished_at: u64,
    pub outputs: Vec<JournalOutput>,
    /// The temporary files of the operation, noted before they are made.
    pub staging_paths: Vec<String>,
    pub remaining_steps: Vec<RecoveryStep>,
    pub remaining_archives: Vec<ArchiveRecoveryStep>,
    pub resume_supported: bool,
    pub undo_safe: bool,
    pub status: String,
    pub error: Option<String>,
    pub undone_at: Option<u64>,
}

/// What a journal says.
#[verifier::ext_equal]
pub struct JournalView {
    pub id: Seq<char>,
    pub plan_id: Seq<char>,
    pub operation: Seq<char>,
    pub started_at: u64,
    pub finished_at: u64,
    pub outputs: Seq<OutputView>,
    pub staging: Seq<Seq<char>>,
    pub steps: Seq<StepView>,
    pub archives: Seq<ArchivePlanItemView>,
    pub resume_supported: bool,
    pub undo_safe: bool,
    pub status: Seq<char>,
    pub error: Option<Seq<char>>,
    pub undone_at: Option<u64>,
}

impl View for OperationJournal {
    type V = JournalView;

    open spec fn view(&self) -> JournalView {
        JournalView {
            id: self.id@,
            plan_id: self.plan_id@,
            operation: self.operation@,
            started_at: self.started_at,
            finished_at: self.finished_at,
            outputs: output_views(self.outputs@),
            staging: text::texts(self.staging_paths@),
            steps: step_views(self.remaining_steps@),
            archives: item_views(self.remaining_archives@),
            resume_supported: self.resume_supported,
            undo_safe: self.undo_safe,
            status: self.status@,
            error: fileset::opt_text(self.error),
            undone_at: self.undone_at,
        }
    }
}

fn copy_entries(list: &[ArchivePlanEntry]) -> (r: Vec<ArchivePlanEntry>)
    ensures
        entry_views(r@) == entry_views(list@),
{
    let mut out: Vec<ArchivePlanEntry> = Vec::new();
    let mut i: usize = 0;
    while i < list.len()
        invariant
            i <= list@.len(),
            entry_views(out@) == entry_views(list@).take(i as int),
        decreases list@.len() - i,
    {
        let ghost before = out@;
        let e = ArchivePlanEntry {
            archive_name: list[i].archive_name.clone(),
            source: list[i].source.copy(),
        };
        out.push(e);
        proof {
            assert(entry_views(out@) =~= entry_views(before).push(e@));
            assert(entry_views(list@).take(i + 1) =~= entry_views(list@).take(i as int).push(e@));
        }
        i = i + 1;
    }
    assert(entry_views(list@).take(list@.len() as int) =~= entry_views(list@));
    out
}

impl ArchivePlanItem {
    /// A copy of the item.
    pub fn copy(&self) -> (r: ArchivePlanItem)
        ensures
            r@ == self@,
    {
        ArchivePlanItem {
            root: self.root.clone(),
            archive: self.archive.clone(),
            backup: copy_opt(&self.backup),
            entries: copy_entries(&self.entries),
        }
    }
}

fn copy_items(list: &[ArchivePlanItem]) -> (r: Vec<ArchivePlanItem>)
    ensures
        item_views(r@) == item_views(list@),
{
    let mut out: Vec<ArchivePlanItem> = Vec::new();
    let mut i: usize = 0;
    while i < list.len()
        invariant
            i <= list@.len(),
            item_views(out@) == item_views(list@).take(i as int),
        decreases list@.len() - i,
    {
        let ghost before = out@;
        let e = list[i].copy();
        out.push(e);
        proof {
            assert(item_views(out@) =~= item_views(before).push(e@));
            assert(item_views(list@).take(i + 1) =~= item_views(list@).take(i as int).push(e@));
        }
        i = i + 1;
    }
    assert(item_views(list@).take(list@.len() as int) =~= item_views(list@));
    out
}

impl JournalOutput {
    /// A copy of the output.
    pub fn copy(&self) -> (r: JournalOutput)
        ensures
            r@ == self@,
    {
        JournalOutput {
            role: self.role.clone(),
            record: self.record.copy(),
            original_path: copy_opt(&self.original_path),
        }
    }
}

fn copy_outputs(list: &[JournalOutput]) -> (r: Vec<JournalOutput>)
    ensures
        output_views(r@) == output_views(list@),
{
    let mut out: Vec<JournalOutput> = Vec::new();
    let mut i: usize = 0;
    while i < list.len()
        invariant
            i <= list@.len(),
            output_views(out@) == output_views(list@).take(i as int),
        decreases list@.len() - i,
    {
        let ghost before = out@;
        let e = list[i].copy();
        out.push(e);
        proof {
            assert(output_views(out@) =~= output_views(before).push(e@));
            assert(output_views(list@).take(i + 1) =~= output_views(list@).take(i as int).push(e@));
        }
        i = i + 1;
    }
    assert(output_views(list@).take(list@.len() as int) =~= output_views(list@));
    out
}

impl RecoveryStep {
    /// A copy of the step.
    pub fn copy(&self) -> (r: RecoveryStep)
        ensures
            r@ == self@,
    {
        RecoveryStep {
            operation: self.operation.clone(),
            source: self.source.copy(),
            destination: self.destination.clone(),
        }
    }
}

fn copy_steps(list: &[RecoveryStep]) -> (r: Vec<RecoveryStep>)
    ensures
        step_views(r@) == step_views(list@),
{
    let mut out: Vec<RecoveryStep> = Vec::new();
    let mut i: usize = 0;
    while i < list.len()
        invariant
            i <= list@.len(),
            step_views(out@) == step_views(list@).take(i as int),
        decreases list@.len() - i,
    {
        let ghost before = out@;
        let e = list[i].copy();
        out.push(e);
        proof {
            assert(step_views(out@) =~= step_views(before).push(e@));
            assert(step_views(list@).take(i + 1) =~= step_views(list@).take(i as int).push(e@));
        }
        i = i + 1;
    }
    assert(step_views(list@).take(list@.len() as int) =~= step_views(list@));
    out
}

impl OperationJournal {
    /// A copy of the journal.
    pub fn copy(&self) -> (r: OperationJournal)
        ensures
            r@ == self@,
    {
        OperationJournal {
            id: self.id.clone(),
            plan_id: self.plan_id.clone(),
            operation: self.operation.clone(),
            started_at: self.started_at,
            finished_at: self.finished_at,
            outputs: copy_outputs(&self.outputs),
            staging_paths: copy_texts(&self.staging_paths),
            remaining_steps: copy_steps(&self.remaining_steps),
            remaining_archives: copy_items(&self.remaining_archives),
            resume_supported: self.resume_supported,
            undo_safe: self.undo_safe,
            status: self.status.clone(),
            error: copy_opt(&self.error),
            undone_at: self.undone_at,
        }
    }
}

// ---------------------------------------------------------------------------
// What is left of lists
// ---------------------------------------------------------------------------

/// The outputs that do not have a role.
pub open spec fn without_role(list: Seq<OutputView>, role: Seq<char>) -> Seq<OutputView>
    decreases list.len(),
{
    if list.len() == 0 {
        Seq::empty()
    } else {
        let rest = without_role(list.drop_last(), role);
        if list.last().role == role {
            rest
        } else {
            rest.push(list.last())
        }
    }
}

/// The paths that are not a given path.
pub open spec fn without_path(list: Seq<Seq<char>>, path: Seq<char>) -> Seq<Seq<char>>
    decreases list.len(),
{
    if list.len() == 0 {
        Seq::empty()
    } else {
        let rest = without_path(list.drop_last(), path);
        if paths::same_path(list.last(), path) {
            rest
        } else {
            rest.push(list.last())
        }
    }
}

/// The steps that do not lead to a given path.
pub open spec fn without_destination(list: Seq<StepView>, path: Seq<char>) -> Seq<StepView>
    decreases list.len(),
{
    if list.len() == 0 {
        Seq::empty()
    } else {
        let rest = without_destination(list.drop_last(), path);
        if paths::same_path(list.last().destination, path) {
            rest
        } else {
            rest.push(list.last())
        }
    }
}

/// The archives that are not at a given path.
pub open spec fn without_archive(list: Seq<ArchivePlanItemView>, path: Seq<char>) -> Seq<
    ArchivePlanItemView,
>
    decreases list.len(),
{
    if list.len() == 0 {
        Seq::empty()
    } else {
        let rest = without_archive(list.drop_last(), path);
        if paths::same_path(list.last().archive, path) {
            rest
        } else {
            rest.push(list.last())
        }
    }
}

fn drop_role(list: &[JournalOutput], role: &str) -> (r: Vec<JournalOutput>)
    ensures
        output_views(r@) == without_role(output_views(list@), role@),
{
    let ghost all = output_views(list@);
    let mut out: Vec<JournalOutput> = Vec::new();
    let mut i: usize = 0;
    assert(all.take(0) =~= Seq::<OutputView>::empty());
    assert(output_views(out@) =~= Seq::<OutputView>::empty());
    while i < list.len()
        invariant
            i <= list@.len(),
            all == output_views(list@),
            output_views(out@) == without_role(all.take(i as int), role@),
        decreases list@.len() - i,
    {
        assert(all.take(i + 1).drop_last() =~= all.take(i as int));
        assert(all.take(i + 1).last() == list@[i as int]@);
        if !same(list[i].role.as_str(), role) {
            let ghost before = out@;
            let e = list[i].copy();
            out.push(e);
            assert(output_views(out@) =~= output_views(before).push(e@));
        }
        i = i + 1;
    }
    assert(all.take(list@.len() as int) =~= all);
    out
}

fn drop_path(list: &[String], path: &str) -> (r: Vec<String>)
    ensures
        text::texts(r@) == without_path(text::texts(list@), path@),
{
    let ghost all = text::texts(list@);
    let mut out: Vec<String> = Vec::new();
    let mut i: usize = 0;
    assert(all.take(0) =~= Seq::<Seq<char>>::empty());
    assert(text::texts(out@) =~= Seq::<Seq<char>>::empty());
    while i < list.len()
        invariant
            i <= list@.len(),
            all == text::texts(list@),
            text::texts(out@) == without_path(all.take(i as int), path@),
        decreases list@.len() - i,
    {
        assert(all.take(i + 1).drop_last() =~= all.take(i as int));
        assert(all.take(i + 1).last() == list@[i as int]@);
        if !equal_paths(list[i].as_str(), path) {
            let e = list[i].clone();
            proof {
                text::lemma_texts_push(out@, e);
            }
            out.push(e);
        }
        i = i + 1;
    }
    assert(all.take(list@.len() as int) =~= all);
    out
}

fn drop_destination(list: &[RecoveryStep], path: &str) -> (r: Vec<RecoveryStep>)
    ensures
        step_views(r@) == without_destination(step_views(list@), path@),
{
    let ghost all = step_views(list@);
    let mut out: Vec<RecoveryStep> = Vec::new();
    let mut i: usize = 0;
    assert(all.take(0) =~= Seq::<StepView>::empty());
    assert(step_views(out@) =~= Seq::<StepView>::empty());
    while i < list.len()
        invariant
            i <= list@.len(),
            all == step_views(list@),
            step_views(out@) == without_destination(all.take(i as int), path@),
        decreases list@.len() - i,
    {
        assert(all.take(i + 1).drop_last() =~= all.take(i as int));
        assert(all.take(i + 1).last() == list@[i as int]@);
        if !equal_paths(list[i].destination.as_str(), path) {
            let ghost before = out@;
            let e = list[i].copy();
            out.push(e);
            assert(step_views(out@) =~= step_views(before).push(e@));
        }
        i = i + 1;
    }
    assert(all.take(list@.len() as int) =~= all);
    out
}

fn drop_archive(list: &[ArchivePlanItem], path: &str) -> (r: Vec<ArchivePlanItem>)
    ensures
        item_views(r@) == without_archive(item_views(list@), path@),
{
    let ghost all = item_views(list@);
    let mut out: Vec<ArchivePlanItem> = Vec::new();
    let mut i: usize = 0;
    assert(all.take(0) =~= Seq::<ArchivePlanItemView>::empty());
    assert(item_views(out@) =~= Seq::<ArchivePlanItemView>::empty());
    while i < list.len()
        invariant
            i <= list@.len(),
            all == item_views(list@),
            item_views(out@) == without_archive(all.take(i as int), path@),
        decreases list@.len() - i,
    {
        assert(all.take(i + 1).drop_last() =~= all.take(i as int));
        assert(all.take(i + 1).last() == list@[i as int]@);
        if !equal_paths(list[i].archive.as_str(), path) {
            let ghost before = out@;
            let e = list[i].copy();
            out.push(e);
            assert(item_views(out@) =~= item_views(before).push(e@));
        }
        i = i + 1;
    }
    assert(all.take(list@.len() as int) =~= all);
    out
}

// ---------------------------------------------------------------------------
// Steps
// ---------------------------------------------------------------------------

/// What a step gives: whether it succeeded, the journal and the exchange.
pub type Step = (Result<(), Seq<char>>, JournalView, TalkView);

/// What making a journal last gives.
pub open spec fn saved(j: JournalView, t: TalkView) -> (Result<(), Seq<char>>, TalkView) {
    dialog::tried(t, RequestView::SaveJournal(j))
}

fn save(journal: &OperationJournal, talk: &mut Talk) -> (r: Result<(), String>)
    ensures
        (dialog::outcome(r), final(talk)@) == saved(journal@, old(talk)@),
{
    talk.attempt(Request::SaveJournal(journal.copy()))
}

/// Whether a file is not what was recorded of it.
pub open spec fn drifted(current: FileRecordView, expected: FileRecordView) -> bool {
    current.identity != expected.identity || current.kind != expected.kind || current.size
        != expected.size || current.modified != expected.modified
}

/// What holding a record against the file gives.
pub open spec fn validated(expected: FileRecordView, label: Seq<char>, t: TalkView) -> (
    Result<(), Seq<char>>,
    TalkView,
) {
    let (r, t1) = fileset::inspected(expected.path, None, t);
    (
        match r {
            Err(e) => Err(label + ": "@ + expected.path + " is unavailable: "@ + e),
            Ok(current) => if drifted(current, expected) {
                Err(label + ": "@ + expected.path + " changed"@)
            } else {
                Ok(())
            },
        },
        t1,
    )
}

fn has_drifted(current: &FileRecord, expected: &FileRecord) -> (r: bool)
    ensures
        r == drifted(current@, expected@),
{
    !current.identity.same(&expected.identity) || current.kind != expected.kind || current.size
        != expected.size || current.modified != expected.modified
}

/// Holds a record against the file that it is of.
pub fn validate_record(expected: &FileRecord, label: &str, talk: &mut Talk) -> (r: Result<
    (),
    String,
>)
    ensures
        (dialog::outcome(r), final(talk)@) == validated(expected@, label@, old(talk)@),
{
    match FileRecord::from_path(expected.path.clone(), None, talk) {
        Err(e) => {
            let head = cat4(label, ": ", expected.path.as_str(), " is unavailable: ");
            Err(cat2(head.as_str(), e.as_str()))
        },
        Ok(current) => if has_drifted(&current, expected) {
            Err(cat4(label, ": ", expected.path.as_str(), " changed"))
        } else {
            Ok(())
        },
    }
}

/// What taking back the first `n` outputs gives, the last one first: moved
/// ones return, made ones are removed. One that cannot be taken back does not
/// stop the rest.
pub open spec fn outputs_undone(outputs: Seq<OutputView>, n: int, t: TalkView) -> (bool, TalkView)
    decreases n,
{
    if n <= 0 {
        (true, t)
    } else {
        let o = outputs[n - 1];
        let (r, t1) = match o.original {
            Some(p) => fs_ops::moved_one(o.record.path, p, false, t),
            None => dialog::acted(t, ActionView::RemoveFile(o.record.path)),
        };
        let (rest, t2) = outputs_undone(outputs, n - 1, t1);
        (r is Ok && rest, t2)
    }
}

/// What taking an operation back gives.
pub open spec fn rolled_back(j: JournalView, t: TalkView) -> (JournalView, TalkView) {
    if !j.undo_safe {
        (JournalView { status: "partially_applied"@, ..j }, t)
    } else {
        let (complete, t1) = outputs_undone(j.outputs, j.outputs.len() as int, t);
        (
            JournalView {
                status: if complete {
                    "rolled_back"@
                } else {
                    "partially_applied"@
                },
                ..j
            },
            t1,
        )
    }
}

/// Takes the outputs of an operation back, the last one first.
pub fn transactional_rollback(journal: &mut OperationJournal, talk: &mut Talk)
    ensures
        (final(journal)@, final(talk)@) == rolled_back(old(journal)@, old(talk)@),
{
    let ghost j0 = journal@;
    let ghost t0 = talk@;
    if !journal.undo_safe {
        journal.status = "partially_applied".to_owned();
        assert(journal@ =~= rolled_back(j0, t0).0);
        return;
    }
    let mut complete = true;
    let mut n: usize = journal.outputs.len();
    assert(outputs_undone(j0.outputs, j0.outputs.len() as int, t0) == (
        complete && outputs_undone(j0.outputs, n as int, talk@).0,
        outputs_undone(j0.outputs, n as int, talk@).1,
    ));
    while n > 0
        invariant
            n <= journal.outputs@.len(),
            journal@ == j0,
            j0.outputs == output_views(journal.outputs@),
            outputs_undone(j0.outputs, j0.outputs.len() as int, t0) == (
                complete && outputs_undone(j0.outputs, n as int, talk@).0,
                outputs_undone(j0.outputs, n as int, talk@).1,
            ),
        decreases n,
    {
        let o = &journal.outputs[n - 1];
        assert(j0.outputs[n - 1] == o@);
        let r = match &o.original_path {
            Some(p) => move_one(o.record.path.as_str(), p.as_str(), false, talk),
            None => talk.act(Action::RemoveFile(o.record.path.clone())),
        };
        if r.is_err() {
            complete = false;
        }
        n = n - 1;
    }
    journal.status = if complete {
        "rolled_back".to_owned()
    } else {
        "partially_applied".to_owned()
    };
    assert(journal@ =~= rolled_back(j0, t0).0);
}

/// What giving a step up gives: the operation is taken back and the journal
/// saved, and the message stands.
pub open spec fn backed_out(e: Seq<char>, j: JournalView, t: TalkView) -> Step {
    let (j1, t1) = rolled_back(j, t);
    (Err(e), j1, saved(j1, t1).1)
}

fn back_out(e: String, journal: &mut OperationJournal, talk: &mut Talk) -> (r: Result<(), String>)
    ensures
        (dialog::outcome(r), final(journal)@, final(talk)@) == backed_out(
            e@,
            old(journal)@,
            old(talk)@,
        ),
{
    transactional_rollback(journal, talk);
    let _ignored = save(journal, talk);
    Err(e)
}

/// The directory that a path is in, `.` where it names none.
pub open spec fn directory_of(path: Seq<char>) -> Seq<char> {
    match paths::parent_of(path) {
        Some(p) => if p.len() > 0 {
            p
        } else {
            "."@
        },
        None => "."@,
    }
}

/// The name of a temporary file beside `path`, and what making its directory
/// gives.
pub open spec fn staged_at(path: Seq<char>, id: Seq<char>, role: Seq<char>, t: TalkView) -> (
    Result<Seq<char>, Seq<char>>,
    TalkView,
) {
    let dir = directory_of(path);
    let (made, t1) = dialog::acted(t, ActionView::CreateDirs(dir));
    (
        match made {
            Err(e) => Err("compress: could not create "@ + dir + ": "@ + e),
            Ok(_) => match paths::file_name_of(path) {
                None => Err("compress: invalid destination: "@ + path),
                Some(name) => Ok(
                    fs_builtins::path_below(
                        dir,
                        "."@ + name + "."@ + id + "."@ + (role + ".tmp"@),
                    ),
                ),
            },
        },
        t1,
    )
}

fn staging_path(path: &str, id: &str, role: &str, talk: &mut Talk) -> (r: Result<String, String>)
    ensures
        (methods::text_outcome(r), final(talk)@) == staged_at(path@, id@, role@, old(talk)@),
{
    let dir = match parent(path) {
        Some(p) => if p.as_str().is_empty() {
            ".".to_owned()
        } else {
            p
        },
        None => ".".to_owned(),
    };
    match talk.act(Action::CreateDirs(dir.clone())) {
        Err(e) => Err(cat4("compress: could not create ", dir.as_str(), ": ", e.as_str())),
        Ok(_) => match file_name(path) {
            None => Err(cat2("compress: invalid destination: ", path)),
            Some(name) => {
                let head = cat5(".", name.as_str(), ".", id, ".");
                let tail = cat2(role, ".tmp");
                let full = cat2(head.as_str(), tail.as_str());
                Ok(below(dir.as_str(), full.as_str()))
            },
        },
    }
}

/// What noting a temporary file before it is made gives.
pub open spec fn staging_noted(path: Seq<char>, j: JournalView, t: TalkView) -> Step {
    let j1 = JournalView { staging: j.staging.push(path), ..j };
    let (s, t1) = saved(j1, t);
    match s {
        Err(e) => (
            Err("apply: could not persist staging intent: "@ + e),
            JournalView { staging: without_path(j1.staging, path), ..j },
            t1,
        ),
        Ok(_) => (Ok(()), j1, t1),
    }
}

fn checkpoint_staging(path: &str, journal: &mut OperationJournal, talk: &mut Talk) -> (r: Result<
    (),
    String,
>)
    ensures
        (dialog::outcome(r), final(journal)@, final(talk)@) == staging_noted(
            path@,
            old(journal)@,
            old(talk)@,
        ),
{
    let ghost j0 = journal@;
    let p = path.to_owned();
    proof {
        text::lemma_texts_push(journal.staging_paths@, p);
    }
    journal.staging_paths.push(p);
    assert(journal@ =~= (JournalView { staging: j0.staging.push(path@), ..j0 }));
    match save(journal, talk) {
        Err(e) => {
            journal.staging_paths = drop_path(&journal.staging_paths, path);
            assert(journal@ =~= (JournalView {
                staging: without_path(j0.staging.push(path@), path@),
                ..j0
            }));
            Err(cat2("apply: could not persist staging intent: ", e.as_str()))
        },
        Ok(_) => Ok(()),
    }
}

/// What noting a finished output gives.
pub open spec fn output_noted(role: Seq<char>, path: Seq<char>, j: JournalView, t: TalkView) -> Step {
    let (r, t1) = fileset::inspected(path, None, t);
    match r {
        Err(e) => (Err("apply: could not journal "@ + path + ": "@ + e), j, t1),
        Ok(record) => {
            let j1 = JournalView {
                outputs: j.outputs.push(OutputView { role, record, original: None }),
                ..j
            };
            let (s, t2) = saved(j1, t1);
            (s, j1, t2)
        },
    }
}

fn push_output(journal: &mut OperationJournal, output: JournalOutput)
    ensures
        final(journal)@ == (JournalView {
            outputs: old(journal)@.outputs.push(output@),
            ..old(journal)@
        }),
{
    let ghost j0 = journal@;
    let ghost before = journal.outputs@;
    journal.outputs.push(output);
    assert(output_views(journal.outputs@) =~= output_views(before).push(output@));
    assert(journal@ =~= (JournalView { outputs: j0.outputs.push(output@), ..j0 }));
}

fn checkpoint_output(role: &str, path: &str, journal: &mut OperationJournal, talk: &mut Talk) -> (r:
    Result<(), String>)
    ensures
        (dialog::outcome(r), final(journal)@, final(talk)@) == output_noted(
            role@,
            path@,
            old(journal)@,
            old(talk)@,
        ),
{
    match FileRecord::from_path(path.to_owned(), None, talk) {
        Err(e) => Err(cat4("apply: could not journal ", path, ": ", e.as_str())),
        Ok(record) => {
            push_output(
                journal,
                JournalOutput { role: role.to_owned(), record, original_path: None },
            );
            save(journal, talk)
        },
    }
}

/// What putting a temporary file into its place gives.
pub open spec fn put_in_place(staging: Seq<char>, dest: Seq<char>, force: bool, t: TalkView) -> (
    Result<(), Seq<char>>,
    TalkView,
) {
    let (there, t1) = dialog::exists_at(t, dest);
    if there && !force {
        (Err("compress: destination appeared during apply: "@ + dest), t1)
    } else {
        let (way, t2) = if there {
            dialog::acted(t1, ActionView::RemoveFile(dest))
        } else {
            (Ok(()), t1)
        };
        match way {
            Err(e) => (Err("compress: could not replace "@ + dest + ": "@ + e), t2),
            Ok(_) => {
                let (r, t3) = dialog::acted(t2, ActionView::Rename(staging, dest));
                match r {
                    Err(e) => (Err("compress: could not publish "@ + dest + ": "@ + e), t3),
                    Ok(_) => (Ok(()), t3),
                }
            },
        }
    }
}

fn publish_staged(staging: &str, dest: &str, force: bool, talk: &mut Talk) -> (r: Result<(), String>)
    ensures
        (dialog::outcome(r), final(talk)@) == put_in_place(staging@, dest@, force, old(talk)@),
{
    if talk.is_there(dest) {
        if !force {
            return Err(cat2("compress: destination appeared during apply: ", dest));
        }
        match talk.act(Action::RemoveFile(dest.to_owned())) {
            Err(e) => return Err(cat4("compress: could not replace ", dest, ": ", e.as_str())),
            Ok(_) => {},
        }
    }
    match talk.act(Action::Rename(staging.to_owned(), dest.to_owned())) {
        Err(e) => Err(cat4("compress: could not publish ", dest, ": ", e.as_str())),
        Ok(_) => Ok(()),
    }
}

/// The journal without what a publication noted: no output of the role, and
/// not the temporary file.
pub open spec fn unpublished(j: JournalView, role: Seq<char>, staging: Seq<char>) -> JournalView {
    JournalView {
        outputs: without_role(j.outputs, role),
        staging: without_path(j.staging, staging),
        ..j
    }
}

/// What publishing a temporary file gives: its identity is noted under the
/// role, the file is put into its place, and the note is taken off again.
pub open spec fn published(
    staging: Seq<char>,
    dest: Seq<char>,
    force: bool,
    role: Seq<char>,
    unidentified: Seq<char>,
    unsaved: Seq<char>,
    forget: bool,
    j: JournalView,
    t: TalkView,
) -> Step {
    let (f, t1) = fileset::inspected(staging, None, t);
    match f {
        Err(e) => (Err(unidentified + e), j, t1),
        Ok(found) => {
            let record = FileRecordView { path: dest, ..found };
            let j1 = JournalView {
                outputs: j.outputs.push(OutputView { role, record, original: None }),
                ..j
            };
            let (s, t2) = saved(j1, t1);
            match s {
                Err(e) => backed_out(
                    unsaved + e,
                    if forget {
                        unpublished(j1, role, staging)
                    } else {
                        JournalView { outputs: without_role(j1.outputs, role), ..j1 }
                    },
                    dialog::acted(t2, ActionView::RemoveFile(staging)).1,
                ),
                Ok(_) => {
                    let (p, t3) = put_in_place(staging, dest, force, t2);
                    match p {
                        Err(e) => backed_out(
                            e,
                            unpublished(j1, role, staging),
                            dialog::acted(t3, ActionView::RemoveFile(staging)).1,
                        ),
                        Ok(_) => (Ok(()), unpublished(j1, role, staging), t3),
                    }
                },
            }
        },
    }
}

fn forget_role(journal: &mut OperationJournal, role: &str)
    ensures
        final(journal)@ == (JournalView {
            outputs: without_role(old(journal)@.outputs, role@),
            ..old(journal)@
        }),
{
    let ghost j0 = journal@;
    journal.outputs = drop_role(&journal.outputs, role);
    assert(journal@ =~= (JournalView { outputs: without_role(j0.outputs, role@), ..j0 }));
}

fn forget_staging(journal: &mut OperationJournal, path: &str)
    ensures
        final(journal)@ == (JournalView {
            staging: without_path(old(journal)@.staging, path@),
            ..old(journal)@
        }),
{
    let ghost j0 = journal@;
    journal.staging_paths = drop_path(&journal.staging_paths, path);
    assert(journal@ =~= (JournalView { staging: without_path(j0.staging, path@), ..j0 }));
}

fn publish(
    staging: &str,
    dest: &str,
    force: bool,
    role: &str,
    unidentified: &str,
    unsaved: &str,
    forget: bool,
    journal: &mut OperationJournal,
    talk: &mut Talk,
) -> (r: Result<(), String>)
    ensures
        (dialog::outcome(r), final(journal)@, final(talk)@) == published(
            staging@,
            dest@,
            force,
            role@,
            unidentified@,
            unsaved@,
            forget,
            old(journal)@,
            old(talk)@,
        ),
{
    let found = match FileRecord::from_path(staging.to_owned(), None, talk) {
        Err(e) => return Err(cat2(unidentified, e.as_str())),
        Ok(f) => f,
    };
    let record = found.at(dest);
    push_output(journal, JournalOutput { role: role.to_owned(), record, original_path: None });
    match save(journal, talk) {
        Err(e) => {
            forget_role(journal, role);
            if forget {
                forget_staging(journal, staging);
            }
            let _ignored = talk.act(Action::RemoveFile(staging.to_owned()));
            return back_out(cat2(unsaved, e.as_str()), journal, talk);
        },
        Ok(_) => {},
    }
    match publish_staged(staging, dest, force, talk) {
        Err(e) => {
            forget_role(journal, role);
            forget_staging(journal, staging);
            let _ignored = talk.act(Action::RemoveFile(staging.to_owned()));
            back_out(e, journal, talk)
        },
        Ok(_) => {
            forget_role(journal, role);
            forget_staging(journal, staging);
            Ok(())
        },
    }
}

// ---------------------------------------------------------------------------
// Archives
// ---------------------------------------------------------------------------

/// What keeping a copy of a built archive gives.
pub open spec fn backed_up(
    archive: Seq<char>,
    backup: Seq<char>,
    force: bool,
    j: JournalView,
    t: TalkView,
) -> Step {
    let (staging, t1) = staged_at(backup, j.id, "backup"@, t);
    match staging {
        Err(e) => backed_out(e, j, t1),
        Ok(s) => {
            let (noted, j1, t2) = staging_noted(s, j, t1);
            match noted {
                Err(e) => backed_out(e, j1, t2),
                Ok(_) => {
                    let (made, t3) = match paths::parent_of(s) {
                        Some(p) => dialog::acted(t2, ActionView::CreateDirs(p)),
                        None => (Ok(()), t2),
                    };
                    match made {
                        Err(e) => backed_out(
                            "compress: could not create "@ + (match paths::parent_of(s) {
                                Some(p) => p,
                                None => Seq::empty(),
                            }) + ": "@ + e,
                            j1,
                            t3,
                        ),
                        Ok(_) => {
                            let (done, t4) = dialog::acted(t3, ActionView::CopyFile(archive, s));
                            match done {
                                Err(e) => backed_out(
                                    "compress: could not stage backup "@ + backup + ": "@ + e,
                                    j1,
                                    dialog::acted(t4, ActionView::RemoveFile(s)).1,
                                ),
                                Ok(_) => {
                                    let (p, j2, t5) = published(
                                        s,
                                        backup,
                                        force,
                                        "pending_backup"@,
                                        "compress: could not identify staged backup: "@,
                                        "apply: could not persist publication intent: "@,
                                        false,
                                        j1,
                                        t4,
                                    );
                                    match p {
                                        Err(e) => (Err(e), j2, t5),
                                        Ok(_) => {
                                            let (c, j3, t6) = output_noted(
                                                "backup"@,
                                                backup,
                                                j2,
                                                t5,
                                            );
                                            match c {
                                                Err(e) => backed_out(e, j3, t6),
                                                Ok(_) => (Ok(()), j3, t6),
                                            }
                                        },
                                    }
                                },
                            }
                        },
                    }
                },
            }
        },
    }
}

fn make_backup(
    archive: &str,
    backup: &str,
    force: bool,
    journal: &mut OperationJournal,
    talk: &mut Talk,
) -> (r: Result<(), String>)
    ensures
        (dialog::outcome(r), final(journal)@, final(talk)@) == backed_up(
            archive@,
            backup@,
            force,
            old(journal)@,
            old(talk)@,
        ),
{
    let s = match staging_path(backup, journal.id.as_str(), "backup", talk) {
        Err(e) => return back_out(e, journal, talk),
        Ok(s) => s,
    };
    match checkpoint_staging(s.as_str(), journal, talk) {
        Err(e) => return back_out(e, journal, talk),
        Ok(_) => {},
    }
    match parent(s.as_str()) {
        Some(p) => match talk.act(Action::CreateDirs(p.clone())) {
            Err(e) => {
                let message = cat4("compress: could not create ", p.as_str(), ": ", e.as_str());
                return back_out(message, journal, talk);
            },
            Ok(_) => {},
        },
        None => {},
    }
    match talk.act(Action::CopyFile(archive.to_owned(), s.clone())) {
        Err(e) => {
            let _ignored = talk.act(Action::RemoveFile(s.clone()));
            let message = cat4("compress: could not stage backup ", backup, ": ", e.as_str());
            return back_out(message, journal, talk);
        },
        Ok(_) => {},
    }
    match publish(
        s.as_str(),
        backup,
        force,
        "pending_backup",
        "compress: could not identify staged backup: ",
        "apply: could not persist publication intent: ",
        false,
        journal,
        talk,
    ) {
        Err(e) => return Err(e),
        Ok(_) => {},
    }
    match checkpoint_output("backup", backup, journal, talk) {
        Err(e) => back_out(e, journal, talk),
        Ok(_) => Ok(()),
    }
}

/// What building one archive of a plan gives.
pub open spec fn archived(item: ArchivePlanItemView, force: bool, j: JournalView, t: TalkView) -> Step {
    let (staging, t1) = staged_at(item.archive, j.id, "archive"@, t);
    match staging {
        Err(e) => backed_out(e, j, t1),
        Ok(s) => {
            let (noted, j1, t2) = staging_noted(s, j, t1);
            match noted {
                Err(e) => backed_out(e, j1, t2),
                Ok(_) => {
                    let (built, t3) = dialog::tried(t2, RequestView::BuildArchive(item, s));
                    match built {
                        Err(e) => backed_out(
                            e,
                            j1,
                            dialog::acted(t3, ActionView::RemoveFile(s)).1,
                        ),
                        Ok(_) => {
                            let (p, j2, t4) = published(
                                s,
                                item.archive,
                                force,
                                "pending_archive"@,
                                "compress: could not identify staged archive: "@,
                                "apply: could not persist publication intent: "@,
                                false,
                                j1,
                                t3,
                            );
                            match p {
                                Err(e) => (Err(e), j2, t4),
                                Ok(_) => {
                                    let (c, j3, t5) = output_noted("archive"@, item.archive, j2, t4);
                                    match c {
                                        Err(e) => backed_out(e, j3, t5),
                                        Ok(_) => archive_finished(item, force, j3, t5),
                                    }
                                },
                            }
                        },
                    }
                },
            }
        },
    }
}

/// What the end of building one archive gives: its copy is kept, and the
/// archive is no longer one that is left to build.
pub open spec fn archive_finished(
    item: ArchivePlanItemView,
    force: bool,
    j: JournalView,
    t: TalkView,
) -> Step {
    let (b, j1, t1) = match item.backup {
        Some(backup) => backed_up(item.archive, backup, force, j, t),
        None => (Ok(()), j, t),
    };
    match b {
        Err(e) => (Err(e), j1, t1),
        Ok(_) => {
            let j2 = JournalView { archives: without_archive(j1.archives, item.archive), ..j1 };
            let (s, t2) = saved(j2, t1);
            (s, j2, t2)
        },
    }
}

fn finish_archive(
    item: &ArchivePlanItem,
    force: bool,
    journal: &mut OperationJournal,
    talk: &mut Talk,
) -> (r: Result<(), String>)
    ensures
        (dialog::outcome(r), final(journal)@, final(talk)@) == archive_finished(
            item@,
            force,
            old(journal)@,
            old(talk)@,
        ),
{
    match &item.backup {
        Some(backup) => match make_backup(
            item.archive.as_str(),
            backup.as_str(),
            force,
            journal,
            talk,
        ) {
            Err(e) => return Err(e),
            Ok(_) => {},
        },
        None => {},
    }
    let ghost j1 = journal@;
    journal.remaining_archives = drop_archive(&journal.remaining_archives, item.archive.as_str());
    assert(journal@ =~= (JournalView {
        archives: without_archive(j1.archives, item.archive@),
        ..j1
    }));
    save(journal, talk)
}

fn build_archive(
    item: &ArchivePlanItem,
    force: bool,
    journal: &mut OperationJournal,
    talk: &mut Talk,
) -> (r: Result<(), String>)
    ensures
        (dialog::outcome(r), final(journal)@, final(talk)@) == archived(
            item@,
            force,
            old(journal)@,
            old(talk)@,
        ),
{
    let s = match staging_path(item.archive.as_str(), journal.id.as_str(), "archive", talk) {
        Err(e) => return back_out(e, journal, talk),
        Ok(s) => s,
    };
    match checkpoint_staging(s.as_str(), journal, talk) {
        Err(e) => return back_out(e, journal, talk),
        Ok(_) => {},
    }
    match talk.attempt(Request::BuildArchive(item.copy(), s.clone())) {
        Err(e) => {
            let _ignored = talk.act(Action::RemoveFile(s.clone()));
            return back_out(e, journal, talk);
        },
        Ok(_) => {},
    }
    match publish(
        s.as_str(),
        item.archive.as_str(),
        force,
        "pending_archive",
        "compress: could not identify staged archive: ",
        "apply: could not persist publication intent: ",
        false,
        journal,
        talk,
    ) {
        Err(e) => return Err(e),
        Ok(_) => {},
    }
    match checkpoint_output("archive", item.archive.as_str(), journal, talk) {
        Err(e) => return back_out(e, journal, talk),
        Ok(_) => {},
    }
    finish_archive(item, force, journal, talk)
}

/// What asking whether a destination is free gives.
pub open spec fn free(path: Seq<char>, force: bool, t: TalkView) -> (Result<(), Seq<char>>, TalkView) {
    let (there, t1) = dialog::exists_at(t, path);
    (
        if there && !force {
            Err(
                "compress: "@ + path
                    + ": destination already exists (use --force to overwrite)"@,
            )
        } else {
            Ok(())
        },
        t1,
    )
}

fn validate_archive_destination(path: &str, force: bool, talk: &mut Talk) -> (r: Result<(), String>)
    ensures
        (dialog::outcome(r), final(talk)@) == free(path@, force, old(talk)@),
{
    if talk.is_there(path) && !force {
        Err(
            cat3(
                "compress: ",
                path,
                ": destination already exists (use --force to overwrite)",
            ),
        )
    } else {
        Ok(())
    }
}

/// What asking whether the destinations of the archives from `i` on are free
/// gives.
pub open spec fn all_free(items: Seq<ArchivePlanItemView>, i: int, force: bool, t: TalkView) -> (
    Result<(), Seq<char>>,
    TalkView,
)
    decreases items.len() - i,
{
    if i < 0 || i >= items.len() {
        (Ok(()), t)
    } else {
        let (a, t1) = free(items[i].archive, force, t);
        match a {
            Err(e) => (Err(e), t1),
            Ok(_) => {
                let (b, t2) = match items[i].backup {
                    Some(path) => free(path, force, t1),
                    None => (Ok(()), t1),
                };
                match b {
                    Err(e) => (Err(e), t2),
                    Ok(_) => all_free(items, i + 1, force, t2),
                }
            },
        }
    }
}

fn check_destinations(items: &[ArchivePlanItem], force: bool, talk: &mut Talk) -> (r: Result<
    (),
    String,
>)
    ensures
        (dialog::outcome(r), final(talk)@) == all_free(item_views(items@), 0, force, old(talk)@),
{
    let ghost all = item_views(items@);
    let ghost start = talk@;
    let mut i: usize = 0;
    while i < items.len()
        invariant
            i <= items@.len(),
            all == item_views(items@),
            all_free(all, 0, force, start) == all_free(all, i as int, force, talk@),
            start == old(talk)@,
        decreases items@.len() - i,
    {
        assert(all[i as int] == items@[i as int]@);
        match validate_archive_destination(items[i].archive.as_str(), force, talk) {
            Err(e) => return Err(e),
            Ok(_) => {},
        }
        match &items[i].backup {
            Some(path) => match validate_archive_destination(path.as_str(), force, talk) {
                Err(e) => return Err(e),
                Ok(_) => {},
            },
            None => {},
        }
        i = i + 1;
    }
    Ok(())
}

/// What building the archives from `i` on gives; the first that fails is the
/// last that is tried.
pub open spec fn all_archived(
    items: Seq<ArchivePlanItemView>,
    i: int,
    force: bool,
    j: JournalView,
    t: TalkView,
) -> Step
    decreases items.len() - i,
{
    if i < 0 || i >= items.len() {
        (Ok(()), j, t)
    } else {
        let (r, j1, t1) = archived(items[i], force, j, t);
        match r {
            Err(e) => (Err(e), j1, t1),
            Ok(_) => all_archived(items, i + 1, force, j1, t1),
        }
    }
}

/// What applying an archive plan gives: nothing is written before the sources
/// and the destinations have been checked.
pub open spec fn archive_applied(plan: ArchivePlanView, force: bool, j: JournalView, t: TalkView) -> Step {
    let (v, t1) = dialog::tried(t, RequestView::CheckArchive(plan));
    match v {
        Err(e) => (Err(e), j, t1),
        Ok(_) => {
            let (f, t2) = all_free(plan.items, 0, force, t1);
            match f {
                Err(e) => (Err(e), j, t2),
                Ok(_) => all_archived(plan.items, 0, force, j, t2),
            }
        },
    }
}

fn apply_archive_transaction(
    plan: &ArchivePlan,
    force: bool,
    journal: &mut OperationJournal,
    talk: &mut Talk,
) -> (r: Result<(), String>)
    ensures
        (dialog::outcome(r), final(journal)@, final(talk)@) == archive_applied(
            plan@,
            force,
            old(journal)@,
            old(talk)@,
        ),
{
    let sent = ArchivePlan { items: copy_items(&plan.items), preview: plan.preview.copy() };
    match talk.attempt(Request::CheckArchive(sent)) {
        Err(e) => return Err(e),
        Ok(_) => {},
    }
    match check_destinations(&plan.items, force, talk) {
        Err(e) => return Err(e),
        Ok(_) => {},
    }
    let ghost all = plan@.items;
    let ghost (j0, t0) = (journal@, talk@);
    let mut i: usize = 0;
    while i < plan.items.len()
        invariant
            i <= plan.items@.len(),
            all == item_views(plan.items@),
            all_archived(all, 0, force, j0, t0) == all_archived(
                all,
                i as int,
                force,
                journal@,
                talk@,
            ),
            archive_applied(plan@, force, old(journal)@, old(talk)@) == all_archived(
                all,
                0,
                force,
                j0,
                t0,
            ),
        decreases plan.items@.len() - i,
    {
        assert(all[i as int] == plan.items@[i as int]@);
        match build_archive(&plan.items[i], force, journal, talk) {
            Err(e) => return Err(e),
            Ok(_) => {},
        }
        i = i + 1;
    }
    Ok(())
}

// ---------------------------------------------------------------------------
// Transfers
// ---------------------------------------------------------------------------

/// What holding one planned transfer against the file system gives.
pub open spec fn transfer_checked(item: TransferItemView, force: bool, t: TalkView) -> (
    Result<(), Seq<char>>,
    TalkView,
) {
    let (s, t1) = validated(item.source, "apply: source drift"@, t);
    match s {
        Err(e) => (Err(e), t1),
        Ok(_) => {
            let (there, t2) = dialog::exists_at(t1, item.destination);
            match item.before {
                None => (
                    if there {
                        Err(
                            "apply: destination drift: "@ + item.destination
                                + " appeared after planning"@,
                        )
                    } else {
                        Ok(())
                    },
                    t2,
                ),
                Some(expected) => if !there {
                    (
                        Err(
                            "apply: destination drift: "@ + item.destination
                                + " disappeared after planning"@,
                        ),
                        t2,
                    )
                } else {
                    let (d, t3) = validated(expected, "apply: destination drift"@, t2);
                    match d {
                        Err(e) => (Err(e), t3),
                        Ok(_) => (
                            if force {
                                Ok(())
                            } else {
                                Err(
                                    "apply: "@ + item.destination
                                        + " exists (use --force when planning to replace it)"@,
                                )
                            },
                            t3,
                        ),
                    }
                },
            }
        },
    }
}

fn check_transfer(item: &FileTransferPlanItem, force: bool, talk: &mut Talk) -> (r: Result<
    (),
    String,
>)
    ensures
        (dialog::outcome(r), final(talk)@) == transfer_checked(item@, force, old(talk)@),
{
    match validate_record(&item.source, "apply: source drift", talk) {
        Err(e) => return Err(e),
        Ok(_) => {},
    }
    let there = talk.is_there(item.destination.as_str());
    match &item.destination_before {
        None => if there {
            Err(
                cat3(
                    "apply: destination drift: ",
                    item.destination.as_str(),
                    " appeared after planning",
                ),
            )
        } else {
            Ok(())
        },
        Some(expected) => {
            if !there {
                return Err(
                    cat3(
                        "apply: destination drift: ",
                        item.destination.as_str(),
                        " disappeared after planning",
                    ),
                );
            }
            match validate_record(expected, "apply: destination drift", talk) {
                Err(e) => return Err(e),
                Ok(_) => {},
            }
            if force {
                Ok(())
            } else {
                Err(
                    cat3(
                        "apply: ",
                        item.destination.as_str(),
                        " exists (use --force when planning to replace it)",
                    ),
                )
            }
        },
    }
}

/// What holding the planned transfers from `i` on against the file system
/// gives.
pub open spec fn transfers_checked(items: Seq<TransferItemView>, i: int, force: bool, t: TalkView) -> (
    Result<(), Seq<char>>,
    TalkView,
)
    decreases items.len() - i,
{
    if i < 0 || i >= items.len() {
        (Ok(()), t)
    } else {
        let (r, t1) = transfer_checked(items[i], force, t);
        match r {
            Err(e) => (Err(e), t1),
            Ok(_) => transfers_checked(items, i + 1, force, t1),
        }
    }
}

/// What moving the file of one transfer gives. The move is noted before it is
/// made.
pub open spec fn file_moved(item: TransferItemView, force: bool, j: JournalView, t: TalkView) -> Step {
    let note = OutputView {
        role: "pending_move"@,
        record: FileRecordView { path: item.destination, ..item.source },
        original: Some(item.source.path),
    };
    let j1 = JournalView { outputs: j.outputs.push(note), ..j };
    let j2 = JournalView { outputs: without_role(j1.outputs, "pending_move"@), ..j1 };
    let (s, t1) = saved(j1, t);
    match s {
        Err(e) => backed_out("apply: could not persist move intent: "@ + e, j2, t1),
        Ok(_) => {
            let (m, t2) = fs_ops::moved_one(item.source.path, item.destination, force, t1);
            match m {
                Err(e) => backed_out("apply: "@ + e, j2, t2),
                Ok(_) => (Ok(()), j2, t2),
            }
        },
    }
}

fn move_file(
    item: &FileTransferPlanItem,
    force: bool,
    journal: &mut OperationJournal,
    talk: &mut Talk,
) -> (r: Result<(), String>)
    ensures
        (dialog::outcome(r), final(journal)@, final(talk)@) == file_moved(
            item@,
            force,
            old(journal)@,
            old(talk)@,
        ),
{
    push_output(
        journal,
        JournalOutput {
            role: "pending_move".to_owned(),
            record: item.source.at(item.destination.as_str()),
            original_path: Some(item.source.path.clone()),
        },
    );
    match save(journal, talk) {
        Err(e) => {
            forget_role(journal, "pending_move");
            let message = cat2("apply: could not persist move intent: ", e.as_str());
            return back_out(message, journal, talk);
        },
        Ok(_) => {},
    }
    let m = move_one(item.source.path.as_str(), item.destination.as_str(), force, talk);
    forget_role(journal, "pending_move");
    match m {
        Err(e) => back_out(cat2("apply: ", e.as_str()), journal, talk),
        Ok(_) => Ok(()),
    }
}

/// What copying the file of one transfer gives: it is copied beside its
/// destination, then put into its place.
pub open spec fn file_copied(item: TransferItemView, force: bool, j: JournalView, t: TalkView) -> Step {
    let (staging, t1) = staged_at(item.destination, j.id, "copy"@, t);
    match staging {
        Err(e) => backed_out(e, j, t1),
        Ok(s) => {
            let (noted, j1, t2) = staging_noted(s, j, t1);
            match noted {
                Err(e) => backed_out(e, j1, t2),
                Ok(_) => {
                    let (c, t3) = copy::copied_one(item.source.path, s, false, t2);
                    match c {
                        Err(e) => backed_out(
                            "apply: "@ + e,
                            JournalView { staging: without_path(j1.staging, s), ..j1 },
                            dialog::acted(t3, ActionView::RemoveFile(s)).1,
                        ),
                        Ok(_) => published(
                            s,
                            item.destination,
                            force,
                            "pending_copy"@,
                            "apply: could not identify staged copy: "@,
                            "apply: could not persist copy publication intent: "@,
                            true,
                            j1,
                            t3,
                        ),
                    }
                },
            }
        },
    }
}

fn copy_file(
    item: &FileTransferPlanItem,
    force: bool,
    journal: &mut OperationJournal,
    talk: &mut Talk,
) -> (r: Result<(), String>)
    ensures
        (dialog::outcome(r), final(journal)@, final(talk)@) == file_copied(
            item@,
            force,
            old(journal)@,
            old(talk)@,
        ),
{
    let s = match staging_path(item.destination.as_str(), journal.id.as_str(), "copy", talk) {
        Err(e) => return back_out(e, journal, talk),
        Ok(s) => s,
    };
    match checkpoint_staging(s.as_str(), journal, talk) {
        Err(e) => return back_out(e, journal, talk),
        Ok(_) => {},
    }
    match copy_one(item.source.path.as_str(), s.as_str(), false, talk) {
        Err(e) => {
            let _ignored = talk.act(Action::RemoveFile(s.clone()));
            forget_staging(journal, s.as_str());
            return back_out(cat2("apply: ", e.as_str()), journal, talk);
        },
        Ok(_) => {},
    }
    publish(
        s.as_str(),
        item.destination.as_str(),
        force,
        "pending_copy",
        "apply: could not identify staged copy: ",
        "apply: could not persist copy publication intent: ",
        true,
        journal,
        talk,
    )
}

/// What one transfer gives: the file is moved or copied, what is now there is
/// noted, and the transfer is no longer one that is left to make.
pub open spec fn transferred(
    item: TransferItemView,
    force: bool,
    moving: bool,
    j: JournalView,
    t: TalkView,
) -> Step {
    let (r, j1, t1) = if moving {
        file_moved(item, force, j, t)
    } else {
        file_copied(item, force, j, t)
    };
    match r {
        Err(e) => (Err(e), j1, t1),
        Ok(_) => {
            let (f, t2) = fileset::inspected(item.destination, None, t1);
            match f {
                Err(e) => (
                    Err("apply: could not journal "@ + item.destination + ": "@ + e),
                    j1,
                    t2,
                ),
                Ok(record) => {
                    let o = OutputView {
                        role: if moving {
                            "moved"@
                        } else {
                            "copy"@
                        },
                        record,
                        original: if moving {
                            Some(item.source.path)
                        } else {
                            None
                        },
                    };
                    let j2 = JournalView {
                        outputs: j1.outputs.push(o),
                        steps: without_destination(j1.steps, item.destination),
                        ..j1
                    };
                    let (s, t3) = saved(j2, t2);
                    (s, j2, t3)
                },
            }
        },
    }
}

fn transfer(
    item: &FileTransferPlanItem,
    force: bool,
    moving: bool,
    journal: &mut OperationJournal,
    talk: &mut Talk,
) -> (r: Result<(), String>)
    ensures
        (dialog::outcome(r), final(journal)@, final(talk)@) == transferred(
            item@,
            force,
            moving,
            old(journal)@,
            old(talk)@,
        ),
{
    let r = if moving {
        move_file(item, force, journal, talk)
    } else {
        copy_file(item, force, journal, talk)
    };
    match r {
        Err(e) => return Err(e),
        Ok(_) => {},
    }
    let record = match FileRecord::from_path(item.destination.clone(), None, talk) {
        Err(e) => return Err(
            cat4("apply: could not journal ", item.destination.as_str(), ": ", e.as_str()),
        ),
        Ok(f) => f,
    };
    let role = if moving {
        "moved".to_owned()
    } else {
        "copy".to_owned()
    };
    let original_path = if moving {
        Some(item.source.path.clone())
    } else {
        None
    };
    push_output(journal, JournalOutput { role, record, original_path });
    let ghost j1 = journal@;
    journal.remaining_steps = drop_destination(
        &journal.remaining_steps,
        item.destination.as_str(),
    );
    assert(journal@ =~= (JournalView {
        steps: without_destination(j1.steps, item.destination@),
        ..j1
    }));
    save(journal, talk)
}

/// What the transfers from `i` on give; the first that fails is the last that
/// is tried.
pub open spec fn all_transferred(
    items: Seq<TransferItemView>,
    i: int,
    force: bool,
    moving: bool,
    j: JournalView,
    t: TalkView,
) -> Step
    decreases items.len() - i,
{
    if i < 0 || i >= items.len() {
        (Ok(()), j, t)
    } else {
        let (r, j1, t1) = transferred(items[i], force, moving, j, t);
        match r {
            Err(e) => (Err(e), j1, t1),
            Ok(_) => all_transferred(items, i + 1, force, moving, j1, t1),
        }
    }
}

/// What applying a transfer plan gives: nothing is written before every
/// source and destination has been checked.
pub open spec fn transfer_applied(
    items: Seq<TransferItemView>,
    force: bool,
    moving: bool,
    j: JournalView,
    t: TalkView,
) -> Step {
    let (c, t1) = transfers_checked(items, 0, force, t);
    match c {
        Err(e) => (Err(e), j, t1),
        Ok(_) => all_transferred(items, 0, force, moving, j, t1),
    }
}

fn check_transfers(items: &[FileTransferPlanItem], force: bool, talk: &mut Talk) -> (r: Result<
    (),
    String,
>)
    ensures
        (dialog::outcome(r), final(talk)@) == transfers_checked(
            transfer_views(items@),
            0,
            force,
            old(talk)@,
        ),
{
    let ghost all = transfer_views(items@);
    let ghost start = talk@;
    let mut i: usize = 0;
    while i < items.len()
        invariant
            i <= items@.len(),
            all == transfer_views(items@),
            start == old(talk)@,
            transfers_checked(all, 0, force, start) == transfers_checked(
                all,
                i as int,
                force,
                talk@,
            ),
        decreases items@.len() - i,
    {
        assert(all[i as int] == items@[i as int]@);
        match check_transfer(&items[i], force, talk) {
            Err(e) => return Err(e),
            Ok(_) => {},
        }
        i = i + 1;
    }
    Ok(())
}

fn apply_transfer(
    plan: &FileTransferPlan,
    force: bool,
    moving: bool,
    journal: &mut OperationJournal,
    talk: &mut Talk,
) -> (r: Result<(), String>)
    ensures
        (dialog::outcome(r), final(journal)@, final(talk)@) == transfer_applied(
            plan@,
            force,
            moving,
            old(journal)@,
            old(talk)@,
        ),
{
    match check_transfers(&plan.items, force, talk) {
        Err(e) => return Err(e),
        Ok(_) => {},
    }
    let ghost all = plan@;
    let ghost (j0, t0) = (journal@, talk@);
    let mut i: usize = 0;
    while i < plan.items.len()
        invariant
            i <= plan.items@.len(),
            all == transfer_views(plan.items@),
            all_transferred(all, 0, force, moving, j0, t0) == all_transferred(
                all,
                i as int,
                force,
                moving,
                journal@,
                talk@,
            ),
            transfer_applied(plan@, force, moving, old(journal)@, old(talk)@) == all_transferred(
                all,
                0,
                force,
                moving,
                j0,
                t0,
            ),
        decreases plan.items@.len() - i,
    {
        assert(all[i as int] == plan.items@[i as int]@);
        match transfer(&plan.items[i], force, moving, journal, talk) {
            Err(e) => return Err(e),
            Ok(_) => {},
        }
        i = i + 1;
    }
    Ok(())
}

// ---------------------------------------------------------------------------
// Deletions
// ---------------------------------------------------------------------------

/// What holding the planned deletions from `i` on against the file system
/// gives.
pub open spec fn deletions_checked(
    items: Seq<FileRecordView>,
    i: int,
    options: DeleteOptions,
    t: TalkView,
) -> (Result<(), Seq<char>>, TalkView)
    decreases items.len() - i,
{
    if i < 0 || i >= items.len() {
        (Ok(()), t)
    } else {
        let (v, t1) = validated(items[i], "apply: source drift"@, t);
        match v {
            Err(e) => (Err(e), t1),
            Ok(_) => {
                let (p, t2) = delete::plan_checked(items[i].path, options, t1);
                match p {
                    Err(e) => (Err(e), t2),
                    Ok(_) => deletions_checked(items, i + 1, options, t2),
                }
            },
        }
    }
}

/// What the planned deletions from `i` on give.
pub open spec fn all_deleted(
    items: Seq<FileRecordView>,
    i: int,
    options: DeleteOptions,
    j: JournalView,
    t: TalkView,
) -> Step
    decreases items.len() - i,
{
    if i < 0 || i >= items.len() {
        (Ok(()), j, t)
    } else {
        let (r, t1) = delete::plan_deleted(items[i].path, options, t);
        match r {
            Err(e) => {
                let j1 = JournalView {
                    status: if j.outputs.len() == 0 {
                        "failed"@
                    } else {
                        "partially_applied"@
                    },
                    ..j
                };
                (Err("apply: delete: "@ + e), j1, saved(j1, t1).1)
            },
            Ok(_) => {
                let o = OutputView {
                    role: "recycled"@,
                    record: items[i],
                    original: Some(items[i].path),
                };
                let j1 = JournalView { outputs: j.outputs.push(o), ..j };
                let (s, t2) = saved(j1, t1);
                match s {
                    Err(e) => (Err(e), j1, t2),
                    Ok(_) => all_deleted(items, i + 1, options, j1, t2),
                }
            },
        }
    }
}

/// What applying a deletion plan gives.
pub open spec fn delete_applied(
    items: Seq<FileRecordView>,
    options: DeleteOptions,
    j: JournalView,
    t: TalkView,
) -> Step {
    let (c, t1) = deletions_checked(items, 0, options, t);
    match c {
        Err(e) => (Err(e), j, t1),
        Ok(_) => all_deleted(items, 0, options, j, t1),
    }
}

fn check_deletions(items: &[FileRecord], options: DeleteOptions, talk: &mut Talk) -> (r: Result<
    (),
    String,
>)
    ensures
        (dialog::outcome(r), final(talk)@) == deletions_checked(
            fileset::record_views(items@),
            0,
            options,
            old(talk)@,
        ),
{
    let ghost all = fileset::record_views(items@);
    let ghost start = talk@;
    let mut i: usize = 0;
    while i < items.len()
        invariant
            i <= items@.len(),
            all == fileset::record_views(items@),
            start == old(talk)@,
            deletions_checked(all, 0, options, start) == deletions_checked(
                all,
                i as int,
                options,
                talk@,
            ),
        decreases items@.len() - i,
    {
        assert(all[i as int] == items@[i as int]@);
        match validate_record(&items[i], "apply: source drift", talk) {
            Err(e) => return Err(e),
            Ok(_) => {},
        }
        match delete::validate_planned(items[i].path.as_str(), options, talk) {
            Err(e) => return Err(e),
            Ok(_) => {},
        }
        i = i + 1;
    }
    Ok(())
}

fn set_status(journal: &mut OperationJournal, status: &str)
    ensures
        final(journal)@ == (JournalView { status: status@, ..old(journal)@ }),
{
    let ghost j0 = journal@;
    journal.status = status.to_owned();
    assert(journal@ =~= (JournalView { status: status@, ..j0 }));
}

fn apply_delete(plan: &DeletePlan, journal: &mut OperationJournal, talk: &mut Talk) -> (r: Result<
    (),
    String,
>)
    ensures
        (dialog::outcome(r), final(journal)@, final(talk)@) == delete_applied(
            fileset::record_views(plan.items@),
            plan.options,
            old(journal)@,
            old(talk)@,
        ),
{
    match check_deletions(&plan.items, plan.options, talk) {
        Err(e) => return Err(e),
        Ok(_) => {},
    }
    let ghost all = fileset::record_views(plan.items@);
    let ghost (j0, t0) = (journal@, talk@);
    let mut i: usize = 0;
    while i < plan.items.len()
        invariant
            i <= plan.items@.len(),
            all == fileset::record_views(plan.items@),
            all_deleted(all, 0, plan.options, j0, t0) == all_deleted(
                all,
                i as int,
                plan.options,
                journal@,
                talk@,
            ),
            delete_applied(all, plan.options, old(journal)@, old(talk)@) == all_deleted(
                all,
                0,
                plan.options,
                j0,
                t0,
            ),
        decreases plan.items@.len() - i,
    {
        assert(all[i as int] == plan.items@[i as int]@);
        match delete::delete_planned(plan.items[i].path.as_str(), plan.options, talk) {
            Err(e) => {
                assert(journal@.outputs.len() == journal.outputs@.len());
                if journal.outputs.len() == 0 {
                    set_status(journal, "failed");
                } else {
                    set_status(journal, "partially_applied");
                }
                let _ignored = save(journal, talk);
                return Err(cat2("apply: delete: ", e.as_str()));
            },
            Ok(_) => {},
        }
        push_output(
            journal,
            JournalOutput {
                role: "recycled".to_owned(),
                record: plan.items[i].copy(),
                original_path: Some(plan.items[i].path.clone()),
            },
        );
        match save(journal, talk) {
            Err(e) => return Err(e),
            Ok(_) => {},
        }
        i = i + 1;
    }
    Ok(())
}

// ---------------------------------------------------------------------------
// Making and applying plans
// ---------------------------------------------------------------------------

/// The character of a hexadecimal digit.
pub open spec fn hex_digit(d: int) -> char {
    if d < 10 {
        (48 + d) as char
    } else {
        (87 + d) as char
    }
}

/// The hexadecimal notation of a number.
pub open spec fn hex_text(n: nat) -> Seq<char>
    decreases n,
{
    if n < 16 {
        seq![hex_digit(n as int)]
    } else {
        hex_text(n / 16).push(hex_digit((n % 16) as int))
    }
}

/// Writes a hexadecimal digit.
pub fn hex_char(d: u8) -> (r: char)
    requires
        d < 16,
    ensures
        r == hex_digit(d as int),
{
    if d < 10 {
        (48 + d) as char
    } else {
        (87 + d) as char
    }
}

/// The hexadecimal notation of a number.
pub fn write_hex(n: u64) -> (r: String)
    ensures
        r@ == hex_text(n as nat),
    decreases n,
{
    let mut out = if n < 16 {
        String::new()
    } else {
        write_hex(n / 16)
    };
    let c = hex_char((n % 16) as u8);
    let ghost before = out@;
    out.push(c);
    proof {
        if n < 16 {
            assert(out@ =~= hex_text(n as nat));
        }
    }
    out
}

/// A name that was not given before: the prefix, the time and a number.
pub open spec fn fresh_id(prefix: Seq<char>, t: TalkView) -> (Seq<char>, TalkView) {
    let (nanos, t1) = dialog::asked(t, RequestView::Nanoseconds);
    let (number, t2) = dialog::asked(t1, RequestView::Sequence);
    (
        prefix + "-"@ + hex_text(nanos.as_number() as nat) + "-"@ + hex_text(
            number.as_number() as nat,
        ),
        t2,
    )
}

fn unique_id(prefix: &str, talk: &mut Talk) -> (r: String)
    ensures
        (r@, final(talk)@) == fresh_id(prefix@, old(talk)@),
{
    let nanos = talk.ask(Request::Nanoseconds).number();
    let number = talk.ask(Request::Sequence).number();
    let a = write_hex(nanos);
    let b = write_hex(number);
    cat5(prefix, "-", a.as_str(), "-", b.as_str())
}

/// The seconds that the clock shows.
pub open spec fn clock(t: TalkView) -> (u64, TalkView) {
    let (a, t1) = dialog::asked(t, RequestView::Seconds);
    (a.as_number(), t1)
}

fn now_seconds(talk: &mut Talk) -> (r: u64)
    ensures
        (r, final(talk)@) == clock(old(talk)@),
{
    talk.ask(Request::Seconds).number()
}

/// The plan to transfer the first `n` files of a set: each is a file, none
/// goes where it is, and no two go to the same place.
pub open spec fn transfer_planned(
    files: Seq<FileRecordView>,
    n: int,
    destination: Seq<char>,
    operation: Seq<char>,
    t: TalkView,
) -> (Result<(Seq<TransferItemView>, Seq<Seq<char>>), Seq<char>>, TalkView)
    decreases n,
{
    if n <= 0 {
        (Ok((Seq::empty(), Seq::empty())), t)
    } else {
        let (before, t1) = transfer_planned(files, n - 1, destination, operation, t);
        match before {
            Err(e) => (Err(e), t1),
            Ok((items, seen)) => {
                let source = files[n - 1];
                let output = paths::target_below(destination, source.path);
                if source.kind != FileKind::File {
                    (
                        Err(
                            operation + ": --plan currently accepts file records only: "@
                                + source.path,
                        ),
                        t1,
                    )
                } else if paths::same_path(source.path, output) {
                    (
                        Err(operation + ": source and destination are the same: "@ + source.path),
                        t1,
                    )
                } else if seen.contains(methods::lower(output)) {
                    (
                        Err(
                            operation + ": multiple sources target the same destination: "@
                                + output,
                        ),
                        t1,
                    )
                } else {
                    let (there, t2) = dialog::exists_at(t1, output);
                    let (found, t3) = if there {
                        let (r, t4) = fileset::inspected(output, None, t2);
                        (
                            match r {
                                Ok(f) => Ok(Some(f)),
                                Err(e) => Err(
                                    operation + ": cannot inspect "@ + output + ": "@ + e,
                                ),
                            },
                            t4,
                        )
                    } else {
                        (Ok(None), t2)
                    };
                    match found {
                        Err(e) => (Err(e), t3),
                        Ok(b) => (
                            Ok(
                                (
                                    items.push(
                                        TransferItemView {
                                            source,
                                            destination: output,
                                            before: b,
                                        },
                                    ),
                                    seen.push(methods::lower(output)),
                                ),
                            ),
                            t3,
                        ),
                    }
                }
            },
        }
    }
}

proof fn lemma_plan_stays(
    files: Seq<FileRecordView>,
    n: int,
    m: int,
    destination: Seq<char>,
    operation: Seq<char>,
    t: TalkView,
)
    requires
        0 <= n <= m,
        transfer_planned(files, n, destination, operation, t).0 is Err,
    ensures
        transfer_planned(files, m, destination, operation, t) == transfer_planned(
            files,
            n,
            destination,
            operation,
            t,
        ),
    decreases m - n,
{
    if n < m {
        lemma_plan_stays(files, n, m - 1, destination, operation, t);
    }
}

/// The plan to transfer the files of a set, or the message.
pub open spec fn transfer_plan(
    set: FileSetView,
    destination: Seq<char>,
    operation: Seq<char>,
    t: TalkView,
) -> (Result<Seq<TransferItemView>, Seq<char>>, TalkView) {
    let (r, t1) = transfer_planned(
        set.files,
        set.files.len() as int,
        destination,
        operation,
        t,
    );
    (
        match r {
            Err(e) => Err(e),
            Ok((items, seen)) => Ok(items),
        },
        t1,
    )
}

fn plan_transfer(set: &FileSet, destination: &str, operation: &str, talk: &mut Talk) -> (r: Result<
    FileTransferPlan,
    String,
>)
    ensures
        (match r {
            Ok(p) => Ok(p@),
            Err(e) => Err(e@),
        }, final(talk)@) == transfer_plan(set@, destination@, operation@, old(talk)@),
{
    let ghost files = set@.files;
    let ghost start = talk@;
    let mut seen: Vec<String> = Vec::new();
    let mut items: Vec<FileTransferPlanItem> = Vec::new();
    assert(transfer_views(items@) =~= Seq::<TransferItemView>::empty());
    assert(text::texts(seen@) =~= Seq::<Seq<char>>::empty());
    let mut i: usize = 0;
    while i < set.files.len()
        invariant
            i <= set.files@.len(),
            files == fileset::record_views(set.files@),
            files == set@.files,
            start == old(talk)@,
            (
                Ok::<(Seq<TransferItemView>, Seq<Seq<char>>), Seq<char>>(
                    (transfer_views(items@), text::texts(seen@)),
                ),
                talk@,
            ) == transfer_planned(files, i as int, destination@, operation@, start),
        decreases set.files@.len() - i,
    {
        let source = &set.files[i];
        assert(files[i as int] == source@);
        proof {
            if transfer_planned(files, i + 1, destination@, operation@, start).0 is Err {
                lemma_plan_stays(
                    files,
                    i + 1,
                    files.len() as int,
                    destination@,
                    operation@,
                    start,
                );
            }
        }
        let path = source.path.as_str();
        if source.kind != FileKind::File {
            return Err(
                cat3(operation, ": --plan currently accepts file records only: ", path),
            );
        }
        let output = table_row_target(destination, path);
        if equal_paths(path, output.as_str()) {
            return Err(cat3(operation, ": source and destination are the same: ", path));
        }
        let key = lower_text(output.as_str());
        if holds_text(&seen, key.as_str()) {
            return Err(
                cat3(
                    operation,
                    ": multiple sources target the same destination: ",
                    output.as_str(),
                ),
            );
        }
        let there = talk.is_there(output.as_str());
        let destination_before = if there {
            match FileRecord::from_path(output.clone(), None, talk) {
                Ok(f) => Some(f),
                Err(e) => return Err(
                    cat5(operation, ": cannot inspect ", output.as_str(), ": ", e.as_str()),
                ),
            }
        } else {
            None
        };
        let item = FileTransferPlanItem {
            source: source.copy(),
            destination: output,
            destination_before,
        };
        proof {
            text::lemma_texts_push(seen@, key);
        }
        let ghost before = items@;
        seen.push(key);
        items.push(item);
        assert(transfer_views(items@) =~= transfer_views(before).push(item@));
        i = i + 1;
    }
    Ok(FileTransferPlan { items })
}

/// The name of an operation.
pub open spec fn operation_name(p: PlannedView) -> Seq<char> {
    match p {
        PlannedView::Archive(_) => "compress"@,
        PlannedView::Copy(_) => "copy"@,
        PlannedView::Move(_) => "move"@,
        PlannedView::Delete(_, _) => "delete"@,
    }
}

/// Whether the destinations of the archives from `i` on are all free.
pub open spec fn nothing_there(items: Seq<ArchivePlanItemView>, i: int, t: TalkView) -> (
    bool,
    TalkView,
)
    decreases items.len() - i,
{
    if i < 0 || i >= items.len() {
        (true, t)
    } else {
        let (there, t1) = dialog::exists_at(t, items[i].archive);
        if there {
            (false, t1)
        } else {
            match items[i].backup {
                None => nothing_there(items, i + 1, t1),
                Some(b) => {
                    let (kept, t2) = dialog::exists_at(t1, b);
                    if kept {
                        (false, t2)
                    } else {
                        nothing_there(items, i + 1, t2)
                    }
                },
            }
        }
    }
}

fn all_new(items: &[ArchivePlanItem], talk: &mut Talk) -> (r: bool)
    ensures
        (r, final(talk)@) == nothing_there(item_views(items@), 0, old(talk)@),
{
    let ghost all = item_views(items@);
    let ghost start = talk@;
    let mut i: usize = 0;
    while i < items.len()
        invariant
            i <= items@.len(),
            all == item_views(items@),
            start == old(talk)@,
            nothing_there(all, 0, start) == nothing_there(all, i as int, talk@),
        decreases items@.len() - i,
    {
        assert(all[i as int] == items@[i as int]@);
        if talk.is_there(items[i].archive.as_str()) {
            return false;
        }
        match &items[i].backup {
            None => {},
            Some(b) => if talk.is_there(b.as_str()) {
                return false;
            },
        }
        i = i + 1;
    }
    true
}

/// Whether taking the operation back can lose nothing: it replaces nothing.
pub open spec fn replaces_nothing(p: PlannedView, t: TalkView) -> (bool, TalkView) {
    match p {
        PlannedView::Archive(plan) => nothing_there(plan.items, 0, t),
        PlannedView::Copy(items) => (all_fresh(items), t),
        PlannedView::Move(items) => (all_fresh(items), t),
        PlannedView::Delete(_, _) => (false, t),
    }
}

/// Whether nothing was at any destination.
pub open spec fn all_fresh(items: Seq<TransferItemView>) -> bool {
    forall|i: int| 0 <= i < items.len() ==> (#[trigger] items[i]).before is None
}

fn fresh_targets(items: &[FileTransferPlanItem]) -> (r: bool)
    ensures
        r == all_fresh(transfer_views(items@)),
{
    let ghost all = transfer_views(items@);
    let mut i: usize = 0;
    while i < items.len()
        invariant
            i <= items@.len(),
            all == transfer_views(items@),
            forall|k: int| 0 <= k < i ==> (#[trigger] all[k]).before is None,
        decreases items@.len() - i,
    {
        assert(all[i as int] == items@[i as int]@);
        if items[i].destination_before.is_some() {
            assert(all[i as int].before is Some);
            return false;
        }
        i = i + 1;
    }
    true
}

/// The transfers that are left to make when none was made.
pub open spec fn steps_of(items: Seq<TransferItemView>, operation: Seq<char>) -> Seq<StepView> {
    Seq::new(
        items.len(),
        |i: int|
            StepView {
                operation,
                source: items[i].source,
                destination: items[i].destination,
            },
    )
}

fn list_steps(items: &[FileTransferPlanItem], operation: &str) -> (r: Vec<RecoveryStep>)
    ensures
        step_views(r@) == steps_of(transfer_views(items@), operation@),
{
    let ghost all = transfer_views(items@);
    let mut out: Vec<RecoveryStep> = Vec::new();
    let mut i: usize = 0;
    while i < items.len()
        invariant
            i <= items@.len(),
            all == transfer_views(items@),
            step_views(out@) == steps_of(all, operation@).take(i as int),
        decreases items@.len() - i,
    {
        assert(all[i as int] == items@[i as int]@);
        let ghost before = out@;
        let step = RecoveryStep {
            operation: operation.to_owned(),
            source: items[i].source.copy(),
            destination: items[i].destination.clone(),
        };
        out.push(step);
        proof {
            assert(step_views(out@) =~= step_views(before).push(step@));
            assert(steps_of(all, operation@).take(i + 1) =~= steps_of(all, operation@).take(
                i as int,
            ).push(step@));
        }
        i = i + 1;
    }
    assert(steps_of(all, operation@).take(items@.len() as int) =~= steps_of(all, operation@));
    out
}

/// The journal of a plan before anything was done, and the exchange after it
/// was made.
pub open spec fn first_journal(plan: PlanView, t: TalkView) -> (JournalView, TalkView) {
    let (started_at, t1) = clock(t);
    let (undo_safe, t2) = replaces_nothing(plan.operation, t1);
    let (id, t3) = fresh_id("operation"@, t2);
    (
        JournalView {
            id,
            plan_id: plan.id,
            operation: operation_name(plan.operation),
            started_at,
            finished_at: 0,
            outputs: Seq::empty(),
            staging: Seq::empty(),
            steps: match plan.operation {
                PlannedView::Copy(items) => steps_of(items, "copy"@),
                PlannedView::Move(items) => steps_of(items, "move"@),
                _ => Seq::empty(),
            },
            archives: match plan.operation {
                PlannedView::Archive(p) => p.items,
                _ => Seq::empty(),
            },
            resume_supported: !(plan.operation is Delete),
            undo_safe,
            status: "in_progress"@,
            error: None,
            undone_at: None,
        },
        t3,
    )
}

/// What carrying a plan out under its journal gives.
pub open spec fn carried_out(plan: PlanView, j: JournalView, t: TalkView) -> Step {
    match plan.operation {
        PlannedView::Archive(p) => archive_applied(p, plan.force, j, t),
        PlannedView::Copy(items) => transfer_applied(items, plan.force, false, j, t),
        PlannedView::Move(items) => transfer_applied(items, plan.force, true, j, t),
        PlannedView::Delete(items, options) => delete_applied(items, options, j, t),
    }
}

/// What applying a plan gives: the journal of the applied operation, or the
/// message. The journal lasts before the first step is taken, and says at the
/// end how the operation went.
pub open spec fn applied(plan: PlanView, t: TalkView) -> (
    Result<JournalView, Seq<char>>,
    TalkView,
) {
    let (j0, t1) = first_journal(plan, t);
    let (s, t2) = saved(j0, t1);
    match s {
        Err(e) => (Err(e), t2),
        Ok(_) => {
            let (r, j1, t3) = carried_out(plan, j0, t2);
            let (finished_at, t4) = clock(t3);
            match r {
                Ok(_) => {
                    let j2 = JournalView { status: "applied"@, finished_at, ..j1 };
                    let (s2, t5) = saved(j2, t4);
                    (
                        match s2 {
                            Err(e) => Err(e),
                            Ok(_) => Ok(j2),
                        },
                        t5,
                    )
                },
                Err(e) => {
                    let j2 = JournalView {
                        status: if j1.status == "in_progress"@ {
                            "failed"@
                        } else {
                            j1.status
                        },
                        error: Some(e),
                        finished_at,
                        ..j1
                    };
                    (Err(e + " (journal "@ + j2.id + ")"@), saved(j2, t4).1)
                },
            }
        },
    }
}

/// What making a plan gives.
pub open spec fn plan_outcome(r: Result<OperationPlan, String>) -> Result<PlanView, Seq<char>> {
    match r {
        Ok(p) => Ok(p@),
        Err(e) => Err(e@),
    }
}

/// What an operation gives: its journal or a message.
pub open spec fn journal_outcome(r: Result<OperationJournal, String>) -> Result<
    JournalView,
    Seq<char>,
> {
    match r {
        Ok(j) => Ok(j@),
        Err(e) => Err(e@),
    }
}

/// What checking the files of a deletion from `i` on gives.
pub open spec fn deletable(files: Seq<FileRecordView>, i: int, options: DeleteOptions, t: TalkView) -> (
    Result<(), Seq<char>>,
    TalkView,
)
    decreases files.len() - i,
{
    if i < 0 || i >= files.len() {
        (Ok(()), t)
    } else {
        let (r, t1) = delete::plan_checked(files[i].path, options, t);
        match r {
            Err(e) => (Err(e), t1),
            Ok(_) => deletable(files, i + 1, options, t1),
        }
    }
}

/// A cell of a table.
pub open spec fn truth_text(b: bool) -> Seq<char> {
    if b {
        "true"@
    } else {
        "false"@
    }
}

fn show_truth(b: bool) -> (r: String)
    ensures
        r@ == truth_text(b),
{
    if b {
        "true".to_owned()
    } else {
        "false".to_owned()
    }
}

/// The name of a kind of file.
pub open spec fn kind_text(kind: FileKind) -> Seq<char> {
    match kind {
        FileKind::File => "file"@,
        FileKind::Directory => "directory"@,
        FileKind::Symlink => "symlink"@,
        FileKind::Other => "other"@,
    }
}

/// The name of a kind of file.
pub fn kind_name(kind: FileKind) -> (r: String)
    ensures
        r@ == kind_text(kind),
{
    match kind {
        FileKind::File => "file".to_owned(),
        FileKind::Directory => "directory".to_owned(),
        FileKind::Symlink => "symlink".to_owned(),
        FileKind::Other => "other".to_owned(),
    }
}

/// The kind of file that goes by a name.
pub open spec fn kind_named(name: Seq<char>) -> FileKind {
    if name == "file"@ {
        FileKind::File
    } else if name == "directory"@ {
        FileKind::Directory
    } else if name == "symlink"@ {
        FileKind::Symlink
    } else {
        FileKind::Other
    }
}

/// Finds the kind of file that goes by a name.
pub fn parse_kind(name: &str) -> (r: FileKind)
    ensures
        r == kind_named(name@),
{
    if same(name, "file") {
        FileKind::File
    } else if same(name, "directory") {
        FileKind::Directory
    } else if same(name, "symlink") {
        FileKind::Symlink
    } else {
        FileKind::Other
    }
}

/// A row that shows a plan, behind the plan's name.
pub open spec fn behind_plan(id: Seq<char>, row: table::RowView) -> table::RowView {
    seq![("plan_id"@, id)] + row
}

/// The rows that show a plan.
pub open spec fn plan_rows(plan: PlanView) -> Seq<table::RowView> {
    match plan.operation {
        PlannedView::Archive(p) => Seq::new(
            p.preview.len(),
            |i: int| behind_plan(plan.id, p.preview[i]),
        ),
        PlannedView::Copy(items) => Seq::new(
            items.len(),
            |i: int| behind_plan(plan.id, transfer_row(items[i], "copy"@)),
        ),
        PlannedView::Move(items) => Seq::new(
            items.len(),
            |i: int| behind_plan(plan.id, transfer_row(items[i], "move"@)),
        ),
        PlannedView::Delete(items, options) => Seq::new(
            items.len(),
            |i: int| behind_plan(plan.id, delete_row(items[i], options)),
        ),
    }
}

/// The row that shows a planned transfer.
pub open spec fn transfer_row(item: TransferItemView, operation: Seq<char>) -> table::RowView {
    seq![
        ("operation"@, operation),
        ("source"@, item.source.path),
        ("destination"@, item.destination),
        ("destination_exists"@, truth_text(item.before is Some)),
    ]
}

/// The row that shows a planned deletion.
pub open spec fn delete_row(item: FileRecordView, options: DeleteOptions) -> table::RowView {
    seq![
        ("operation"@, "delete"@),
        ("path"@, item.path),
        ("kind"@, kind_text(item.kind)),
        ("recurse"@, truth_text(options.recurse)),
        ("mode"@, "recycle"@),
        ("undo_safe"@, "false"@),
    ]
}

impl OperationPlan {
    /// A plan to build archives.
    pub fn archive(plan: ArchivePlan, force: bool, talk: &mut Talk) -> (r: OperationPlan)
        ensures
            ({
                let (id, t1) = fresh_id("plan"@, old(talk)@);
                &&& r@ == (PlanView { id, operation: PlannedView::Archive(plan@), force })
                &&& final(talk)@ == t1
            }),
    {
        let id = unique_id("plan", talk);
        OperationPlan { id, operation: PlannedOperation::Archive(plan), force }
    }

    /// A plan to copy the files of a set below a destination.
    pub fn copy(set: &FileSet, destination: &str, force: bool, talk: &mut Talk) -> (r: Result<
        OperationPlan,
        String,
    >)
        ensures
            ({
                let (id, t1) = fresh_id("plan"@, old(talk)@);
                let (p, t2) = transfer_plan(set@, destination@, "copy"@, t1);
                &&& final(talk)@ == t2
                &&& plan_outcome(r) == match p {
                    Ok(items) => Ok::<PlanView, Seq<char>>(
                        PlanView { id, operation: PlannedView::Copy(items), force },
                    ),
                    Err(e) => Err(e),
                }
            }),
    {
        let id = unique_id("plan", talk);
        match plan_transfer(set, destination, "copy", talk) {
            Err(e) => Err(e),
            Ok(p) => Ok(OperationPlan { id, operation: PlannedOperation::Copy(p), force }),
        }
    }

    /// A plan to move the files of a set below a destination.
    pub fn move_files(set: &FileSet, destination: &str, force: bool, talk: &mut Talk) -> (r: Result<
        OperationPlan,
        String,
    >)
        ensures
            ({
                let (id, t1) = fresh_id("plan"@, old(talk)@);
                let (p, t2) = transfer_plan(set@, destination@, "move"@, t1);
                &&& final(talk)@ == t2
                &&& plan_outcome(r) == match p {
                    Ok(items) => Ok::<PlanView, Seq<char>>(
                        PlanView { id, operation: PlannedView::Move(items), force },
                    ),
                    Err(e) => Err(e),
                }
            }),
    {
        let id = unique_id("plan", talk);
        match plan_transfer(set, destination, "move", talk) {
            Err(e) => Err(e),
            Ok(p) => Ok(OperationPlan { id, operation: PlannedOperation::Move(p), force }),
        }
    }

    /// A plan to hand the files of a set to the recycle bin.
    pub fn delete(set: &FileSet, options: DeleteOptions, talk: &mut Talk) -> (r: Result<
        OperationPlan,
        String,
    >)
        ensures
            options.permanent ==> plan_outcome(r) == Err::<PlanView, Seq<char>>(
                "delete: --plan does not support permanent deletion"@,
            ) && final(talk)@ == old(talk)@,
            !options.permanent ==> ({
                let (c, t1) = deletable(set@.files, 0, options, old(talk)@);
                let (id, t2) = fresh_id("plan"@, t1);
                match c {
                    Err(e) => plan_outcome(r) == Err::<PlanView, Seq<char>>(e) && final(talk)@ == t1,
                    Ok(_) => plan_outcome(r) == Ok::<PlanView, Seq<char>>(
                        PlanView {
                            id,
                            operation: PlannedView::Delete(set@.files, options),
                            force: false,
                        },
                    ) && final(talk)@ == t2,
                }
            }),
    {
        if options.permanent {
            return Err("delete: --plan does not support permanent deletion".to_owned());
        }
        let ghost all = set@.files;
        let ghost start = talk@;
        let mut i: usize = 0;
        while i < set.files.len()
            invariant
                i <= set.files@.len(),
                all == set@.files,
                all == fileset::record_views(set.files@),
                start == old(talk)@,
                !options.permanent,
                deletable(all, 0, options, start) == deletable(all, i as int, options, talk@),
            decreases set.files@.len() - i,
        {
            assert(all[i as int] == set.files@[i as int]@);
            match delete::validate_planned(set.files[i].path.as_str(), options, talk) {
                Err(e) => return Err(e),
                Ok(_) => {},
            }
            i = i + 1;
        }
        let items = copy_records(&set.files);
        let id = unique_id("plan", talk);
        Ok(
            OperationPlan {
                id,
                operation: PlannedOperation::Delete(DeletePlan { items, options }),
                force: false,
            },
        )
    }

    fn first_cell(&self) -> (r: (String, String))
        ensures
            (r.0@, r.1@) == ("plan_id"@, self@.id),
    {
        ("plan_id".to_owned(), self.id.clone())
    }

    /// The rows that show the plan.
    pub fn to_table(&self) -> (r: Table)
        ensures
            r@ == plan_rows(self@),
    {
        let ghost whole = plan_rows(self@);
        let mut rows: Vec<Row> = Vec::new();
        assert(whole.take(0) =~= Seq::<table::RowView>::empty());
        assert(table::row_views(rows@) =~= Seq::<table::RowView>::empty());
        match &self.operation {
            PlannedOperation::Archive(p) => {
                let preview = p.preview.copy();
                let mut i: usize = 0;
                while i < preview.rows.len()
                    invariant
                        i <= preview.rows@.len(),
                        preview@ == p.preview@,
                        self.operation@ == PlannedView::Archive(p@),
                        whole == plan_rows(self@),
                        table::row_views(rows@) == whole.take(i as int),
                    decreases preview.rows@.len() - i,
                {
                    let mut row: Row = vec![self.first_cell()];
                    let ghost first = row@;
                    append_cells(&mut row, &preview.rows[i]);
                    assert(table::row_view(row@) =~= behind_plan(self@.id, p.preview@[i as int]));
                    push_row(&mut rows, row, Ghost(whole), Ghost(i as int));
                    i = i + 1;
                }
                assert(whole.take(preview.rows@.len() as int) =~= whole);
            },
            PlannedOperation::Copy(p) => {
                let mut i: usize = 0;
                while i < p.items.len()
                    invariant
                        i <= p.items@.len(),
                        self.operation@ == PlannedView::Copy(p@),
                        whole == plan_rows(self@),
                        table::row_views(rows@) == whole.take(i as int),
                    decreases p.items@.len() - i,
                {
                    let row = self.row_of_transfer(&p.items[i], "copy");
                    push_row(&mut rows, row, Ghost(whole), Ghost(i as int));
                    i = i + 1;
                }
                assert(whole.take(p.items@.len() as int) =~= whole);
            },
            PlannedOperation::Move(p) => {
                let mut i: usize = 0;
                while i < p.items.len()
                    invariant
                        i <= p.items@.len(),
                        self.operation@ == PlannedView::Move(p@),
                        whole == plan_rows(self@),
                        table::row_views(rows@) == whole.take(i as int),
                    decreases p.items@.len() - i,
                {
                    let row = self.row_of_transfer(&p.items[i], "move");
                    push_row(&mut rows, row, Ghost(whole), Ghost(i as int));
                    i = i + 1;
                }
                assert(whole.take(p.items@.len() as int) =~= whole);
            },
            PlannedOperation::Delete(p) => {
                let mut i: usize = 0;
                while i < p.items.len()
                    invariant
                        i <= p.items@.len(),
                        self.operation@ == PlannedView::Delete(
                            fileset::record_views(p.items@),
                            p.options,
                        ),
                        whole == plan_rows(self@),
                        table::row_views(rows@) == whole.take(i as int),
                    decreases p.items@.len() - i,
                {
                    let row: Row = vec![
                        self.first_cell(),
                        ("operation".to_owned(), "delete".to_owned()),
                        ("path".to_owned(), p.items[i].path.clone()),
                        ("kind".to_owned(), kind_name(p.items[i].kind)),
                        ("recurse".to_owned(), show_truth(p.options.recurse)),
                        ("mode".to_owned(), "recycle".to_owned()),
                        ("undo_safe".to_owned(), "false".to_owned()),
                    ];
                    assert(table::row_view(row@) =~= behind_plan(
                        self@.id,
                        delete_row(p.items@[i as int]@, p.options),
                    ));
                    push_row(&mut rows, row, Ghost(whole), Ghost(i as int));
                    i = i + 1;
                }
                assert(whole.take(p.items@.len() as int) =~= whole);
            },
        }
        Table { rows }
    }

    fn row_of_transfer(&self, item: &FileTransferPlanItem, operation: &str) -> (r: Row)
        ensures
            table::row_view(r@) == behind_plan(self@.id, transfer_row(item@, operation@)),
    {
        let row: Row = vec![
            self.first_cell(),
            ("operation".to_owned(), operation.to_owned()),
            ("source".to_owned(), item.source.path.clone()),
            ("destination".to_owned(), item.destination.clone()),
            ("destination_exists".to_owned(), show_truth(item.destination_before.is_some())),
        ];
        assert(table::row_view(row@) =~= behind_plan(self@.id, transfer_row(item@, operation@)));
        row
    }

    /// Applies the plan under a journal.
    pub fn apply(&self, talk: &mut Talk) -> (r: Result<OperationJournal, String>)
        ensures
            (journal_outcome(r), final(talk)@) == applied(self@, old(talk)@),
    {
        let started_at = now_seconds(talk);
        let undo_safe = match &self.operation {
            PlannedOperation::Archive(p) => all_new(&p.items, talk),
            PlannedOperation::Copy(p) => fresh_targets(&p.items),
            PlannedOperation::Move(p) => fresh_targets(&p.items),
            PlannedOperation::Delete(_) => false,
        };
        let id = unique_id("operation", talk);
        let none: Vec<RecoveryStep> = Vec::new();
        assert(step_views(none@) =~= Seq::<StepView>::empty());
        let no_item: Vec<ArchiveRecoveryStep> = Vec::new();
        assert(item_views(no_item@) =~= Seq::<ArchivePlanItemView>::empty());
        let (operation, remaining_steps, remaining_archives, resume_supported) =
            match &self.operation {
            PlannedOperation::Archive(p) => (
                "compress".to_owned(),
                none,
                copy_items(&p.items),
                true,
            ),
            PlannedOperation::Copy(p) => (
                "copy".to_owned(),
                list_steps(&p.items, "copy"),
                no_item,
                true,
            ),
            PlannedOperation::Move(p) => (
                "move".to_owned(),
                list_steps(&p.items, "move"),
                no_item,
                true,
            ),
            PlannedOperation::Delete(_) => ("delete".to_owned(), none, no_item, false),
        };
        let mut journal = OperationJournal {
            id,
            plan_id: self.id.clone(),
            operation,
            started_at,
            finished_at: 0,
            outputs: Vec::new(),
            staging_paths: Vec::new(),
            remaining_steps,
            remaining_archives,
            resume_supported,
            undo_safe,
            status: "in_progress".to_owned(),
            error: None,
            undone_at: None,
        };
        assert(output_views(journal.outputs@) =~= Seq::<OutputView>::empty());
        assert(text::texts(journal.staging_paths@) =~= Seq::<Seq<char>>::empty());
        assert(journal@ =~= first_journal(self@, old(talk)@).0);
        match save(&journal, talk) {
            Err(e) => return Err(e),
            Ok(_) => {},
        }
        let r = match &self.operation {
            PlannedOperation::Archive(p) => apply_archive_transaction(
                p,
                self.force,
                &mut journal,
                talk,
            ),
            PlannedOperation::Copy(p) => apply_transfer(p, self.force, false, &mut journal, talk),
            PlannedOperation::Move(p) => apply_transfer(p, self.force, true, &mut journal, talk),
            PlannedOperation::Delete(p) => apply_delete(p, &mut journal, talk),
        };
        let ghost j1 = journal@;
        let finished_at = now_seconds(talk);
        match r {
            Ok(_) => {
                journal.status = "applied".to_owned();
                journal.finished_at = finished_at;
                assert(journal@ =~= (JournalView { status: "applied"@, finished_at, ..j1 }));
                match save(&journal, talk) {
                    Err(e) => Err(e),
                    Ok(_) => Ok(journal),
                }
            },
            Err(e) => {
                if same(journal.status.as_str(), "in_progress") {
                    journal.status = "failed".to_owned();
                }
                journal.error = Some(e.clone());
                journal.finished_at = finished_at;
                assert(journal@ =~= (JournalView {
                    status: if j1.status == "in_progress"@ {
                        "failed"@
                    } else {
                        j1.status
                    },
                    error: Some(e@),
                    finished_at,
                    ..j1
                }));
                let _ignored = save(&journal, talk);
                Err(cat4(e.as_str(), " (journal ", journal.id.as_str(), ")"))
            },
        }
    }
}

fn append_cells(row: &mut Row, more: &Row)
    ensures
        table::row_view(final(row)@) == table::row_view(old(row)@) + table::row_view(more@),
{
    let ghost first = table::row_view(row@);
    let ghost rest = table::row_view(more@);
    let mut i: usize = 0;
    assert(first + rest.take(0) =~= first);
    while i < more.len()
        invariant
            i <= more@.len(),
            rest == table::row_view(more@),
            table::row_view(row@) == first + rest.take(i as int),
        decreases more@.len() - i,
    {
        let ghost before = row@;
        let cell = (more[i].0.clone(), more[i].1.clone());
        row.push(cell);
        proof {
            assert(table::row_view(row@) =~= table::row_view(before).push((cell.0@, cell.1@)));
            assert(first + rest.take(i + 1) =~= (first + rest.take(i as int)).push(
                (cell.0@, cell.1@),
            ));
        }
        i = i + 1;
    }
    assert(rest.take(more@.len() as int) =~= rest);
}

fn push_row(rows: &mut Vec<Row>, row: Row, whole: Ghost<Seq<table::RowView>>, i: Ghost<int>)
    requires
        0 <= i@ < whole@.len(),
        table::row_views(old(rows)@) == whole@.take(i@),
        table::row_view(row@) == whole@[i@],
    ensures
        table::row_views(final(rows)@) == whole@.take(i@ + 1),
{
    let ghost before = rows@;
    rows.push(row);
    assert(table::row_views(rows@) =~= table::row_views(before).push(table::row_view(row@)));
    assert(whole@.take(i@ + 1) =~= whole@.take(i@).push(whole@[i@]));
}

// ---------------------------------------------------------------------------
// Undoing
// ---------------------------------------------------------------------------

/// Whether an operation stopped before it was done or taken back.
pub open spec fn unfinished(status: Seq<char>) -> bool {
    status == "in_progress"@ || status == "partially_applied"@ || status == "failed"@
}

/// What holding the outputs from `i` on against the file system gives: each
/// is as it was left, and the place that it came from is free.
pub open spec fn outputs_unchanged(
    outputs: Seq<OutputView>,
    i: int,
    command: Seq<char>,
    t: TalkView,
) -> (Result<(), Seq<char>>, TalkView)
    decreases outputs.len() - i,
{
    if i < 0 || i >= outputs.len() {
        (Ok(()), t)
    } else {
        let (v, t1) = validated(outputs[i].record, command + ": output drift"@, t);
        match v {
            Err(e) => (Err(e), t1),
            Ok(_) => match outputs[i].original {
                None => outputs_unchanged(outputs, i + 1, command, t1),
                Some(p) => {
                    let (there, t2) = dialog::exists_at(t1, p);
                    if there {
                        (Err(command + ": original path is no longer free: "@ + p), t2)
                    } else {
                        outputs_unchanged(outputs, i + 1, command, t2)
                    }
                },
            },
        }
    }
}

fn check_outputs(outputs: &[JournalOutput], command: &str, talk: &mut Talk) -> (r: Result<
    (),
    String,
>)
    ensures
        (dialog::outcome(r), final(talk)@) == outputs_unchanged(
            output_views(outputs@),
            0,
            command@,
            old(talk)@,
        ),
{
    let ghost all = output_views(outputs@);
    let ghost start = talk@;
    let label = cat2(command, ": output drift");
    let mut i: usize = 0;
    while i < outputs.len()
        invariant
            i <= outputs@.len(),
            all == output_views(outputs@),
            start == old(talk)@,
            label@ == command@ + ": output drift"@,
            outputs_unchanged(all, 0, command@, start) == outputs_unchanged(
                all,
                i as int,
                command@,
                talk@,
            ),
        decreases outputs@.len() - i,
    {
        assert(all[i as int] == outputs@[i as int]@);
        match validate_record(&outputs[i].record, label.as_str(), talk) {
            Err(e) => return Err(e),
            Ok(_) => {},
        }
        match &outputs[i].original_path {
            None => {},
            Some(p) => if talk.is_there(p.as_str()) {
                return Err(cat3(command, ": original path is no longer free: ", p.as_str()));
            },
        }
        i = i + 1;
    }
    Ok(())
}

/// What taking the outputs from `i` on back gives; the first that cannot be
/// taken back is the last that is tried.
pub open spec fn outputs_restored(outputs: Seq<OutputView>, i: int, t: TalkView) -> (
    Result<(), Seq<char>>,
    TalkView,
)
    decreases outputs.len() - i,
{
    if i < 0 || i >= outputs.len() {
        (Ok(()), t)
    } else {
        let o = outputs[i];
        let (r, t1) = match o.original {
            Some(p) => {
                let (m, t2) = fs_ops::moved_one(o.record.path, p, false, t);
                (
                    match m {
                        Err(e) => Err("undo: could not restore "@ + p + ": "@ + e),
                        Ok(_) => Ok(()),
                    },
                    t2,
                )
            },
            None => {
                let (m, t2) = dialog::acted(t, ActionView::RemoveFile(o.record.path));
                (
                    match m {
                        Err(e) => Err("undo: could not remove "@ + o.record.path + ": "@ + e),
                        Ok(_) => Ok(()),
                    },
                    t2,
                )
            },
        };
        match r {
            Err(e) => (Err(e), t1),
            Ok(_) => outputs_restored(outputs, i + 1, t1),
        }
    }
}

fn restore_outputs(outputs: &[JournalOutput], talk: &mut Talk) -> (r: Result<(), String>)
    ensures
        (dialog::outcome(r), final(talk)@) == outputs_restored(
            output_views(outputs@),
            0,
            old(talk)@,
        ),
{
    let ghost all = output_views(outputs@);
    let ghost start = talk@;
    let mut i: usize = 0;
    while i < outputs.len()
        invariant
            i <= outputs@.len(),
            all == output_views(outputs@),
            start == old(talk)@,
            outputs_restored(all, 0, start) == outputs_restored(all, i as int, talk@),
        decreases outputs@.len() - i,
    {
        let o = &outputs[i];
        assert(all[i as int] == o@);
        match &o.original_path {
            Some(p) => match move_one(o.record.path.as_str(), p.as_str(), false, talk) {
                Err(e) => return Err(
                    cat4("undo: could not restore ", p.as_str(), ": ", e.as_str()),
                ),
                Ok(_) => {},
            },
            None => match talk.act(Action::RemoveFile(o.record.path.clone())) {
                Err(e) => return Err(
                    cat4("undo: could not remove ", o.record.path.as_str(), ": ", e.as_str()),
                ),
                Ok(_) => {},
            },
        }
        i = i + 1;
    }
    Ok(())
}

/// What holding the outputs from `i` on against the file system gives before
/// an undo: a message of its own says that one changed.
pub open spec fn undoable(outputs: Seq<OutputView>, i: int, t: TalkView) -> (
    Result<(), Seq<char>>,
    TalkView,
)
    decreases outputs.len() - i,
{
    if i < 0 || i >= outputs.len() {
        (Ok(()), t)
    } else {
        let o = outputs[i];
        let (r, t1) = fileset::inspected(o.record.path, None, t);
        match r {
            Err(e) => (
                Err("undo: output drift: "@ + o.record.path + " is unavailable: "@ + e),
                t1,
            ),
            Ok(current) => if drifted(current, o.record) {
                (Err("undo: output drift: "@ + o.record.path + " changed after apply"@), t1)
            } else {
                match o.original {
                    None => undoable(outputs, i + 1, t1),
                    Some(p) => {
                        let (there, t2) = dialog::exists_at(t1, p);
                        if there {
                            (Err("undo: original path is no longer free: "@ + p), t2)
                        } else {
                            undoable(outputs, i + 1, t2)
                        }
                    },
                }
            },
        }
    }
}

fn check_undo(outputs: &[JournalOutput], talk: &mut Talk) -> (r: Result<(), String>)
    ensures
        (dialog::outcome(r), final(talk)@) == undoable(output_views(outputs@), 0, old(talk)@),
{
    let ghost all = output_views(outputs@);
    let ghost start = talk@;
    let mut i: usize = 0;
    while i < outputs.len()
        invariant
            i <= outputs@.len(),
            all == output_views(outputs@),
            start == old(talk)@,
            undoable(all, 0, start) == undoable(all, i as int, talk@),
        decreases outputs@.len() - i,
    {
        let o = &outputs[i];
        assert(all[i as int] == o@);
        match FileRecord::from_path(o.record.path.clone(), None, talk) {
            Err(e) => return Err(
                cat4(
                    "undo: output drift: ",
                    o.record.path.as_str(),
                    " is unavailable: ",
                    e.as_str(),
                ),
            ),
            Ok(current) => if has_drifted(&current, &o.record) {
                return Err(
                    cat3("undo: output drift: ", o.record.path.as_str(), " changed after apply"),
                );
            },
        }
        match &o.original_path {
            None => {},
            Some(p) => if talk.is_there(p.as_str()) {
                return Err(cat2("undo: original path is no longer free: ", p.as_str()));
            },
        }
        i = i + 1;
    }
    Ok(())
}

/// What undoing an applied operation gives: nothing is taken back before
/// every output has been checked.
pub open spec fn undone(j: JournalView, t: TalkView) -> (Result<JournalView, Seq<char>>, TalkView) {
    if j.status != "applied"@ {
        (Err("undo: operation "@ + j.id + " has status '"@ + j.status + "'"@), t)
    } else if j.undone_at is Some {
        (Err("undo: operation "@ + j.id + " was already undone"@), t)
    } else if !j.undo_safe {
        (
            Err(
                "undo: operation "@ + j.id
                    + " replaced existing output and cannot be safely undone"@,
            ),
            t,
        )
    } else {
        let (c, t1) = undoable(j.outputs, 0, t);
        match c {
            Err(e) => (Err(e), t1),
            Ok(_) => {
                let (r, t2) = outputs_restored(j.outputs, 0, t1);
                match r {
                    Err(e) => (Err(e), t2),
                    Ok(_) => {
                        let (now, t3) = clock(t2);
                        (
                            Ok(JournalView { undone_at: Some(now), status: "undone"@, ..j }),
                            t3,
                        )
                    },
                }
            },
        }
    }
}

/// What rolling an unfinished operation back gives.
pub open spec fn rollback_done(j: JournalView, t: TalkView) -> (
    Result<JournalView, Seq<char>>,
    TalkView,
) {
    if !unfinished(j.status) {
        (Err("rollback: operation "@ + j.id + " has status '"@ + j.status + "'"@), t)
    } else if !j.undo_safe {
        (Err("rollback: operation "@ + j.id + " is not safely reversible"@), t)
    } else {
        let (c, t1) = outputs_unchanged(j.outputs, 0, "rollback"@, t);
        match c {
            Err(e) => (Err(e), t1),
            Ok(_) => {
                let (j1, t2) = rolled_back(j, t1);
                if j1.status != "rolled_back"@ {
                    (
                        Err(
                            "rollback: operation "@ + j.id + " could not be fully rolled back"@,
                        ),
                        t2,
                    )
                } else {
                    let (now, t3) = clock(t2);
                    (Ok(JournalView { finished_at: now, ..j1 }), t3)
                }
            },
        }
    }
}

// ---------------------------------------------------------------------------
// Recovering
// ---------------------------------------------------------------------------

/// Whether one of the temporary files from `i` on is there and is what was
/// recorded.
pub open spec fn found_staged(
    staging: Seq<Seq<char>>,
    i: int,
    record: FileRecordView,
    label: Seq<char>,
    t: TalkView,
) -> (Option<Seq<char>>, TalkView)
    decreases staging.len() - i,
{
    if i < 0 || i >= staging.len() {
        (None, t)
    } else {
        let (there, t1) = dialog::exists_at(t, staging[i]);
        if !there {
            found_staged(staging, i + 1, record, label, t1)
        } else {
            let (v, t2) = validated(FileRecordView { path: staging[i], ..record }, label, t1);
            match v {
                Ok(_) => (Some(staging[i]), t2),
                Err(e) => found_staged(staging, i + 1, record, label, t2),
            }
        }
    }
}

fn find_staged(staging: &[String], record: &FileRecord, label: &str, talk: &mut Talk) -> (r: Option<
    String,
>)
    ensures
        (fileset::opt_text(r), final(talk)@) == found_staged(
            text::texts(staging@),
            0,
            record@,
            label@,
            old(talk)@,
        ),
{
    let ghost all = text::texts(staging@);
    let ghost start = talk@;
    let mut i: usize = 0;
    while i < staging.len()
        invariant
            i <= staging@.len(),
            all == text::texts(staging@),
            start == old(talk)@,
            found_staged(all, 0, record@, label@, start) == found_staged(
                all,
                i as int,
                record@,
                label@,
                talk@,
            ),
        decreases staging@.len() - i,
    {
        assert(all[i as int] == staging@[i as int]@);
        if talk.is_there(staging[i].as_str()) {
            let expected = record.at(staging[i].as_str());
            match validate_record(&expected, label, talk) {
                Ok(_) => return Some(staging[i].clone()),
                Err(_) => {},
            }
        }
        i = i + 1;
    }
    None
}

/// What accounting for one output before a recovery gives: whether it was
/// never published.
pub open spec fn accounted(o: OutputView, staging: Seq<Seq<char>>, t: TalkView) -> (
    Result<bool, Seq<char>>,
    TalkView,
) {
    let (there, t1) = if text::begins_with(o.role, "pending_"@) {
        dialog::exists_at(t, o.record.path)
    } else {
        (true, t)
    };
    if !there {
        if o.role == "pending_move"@ && o.original is Some {
            let (v, t2) = validated(
                FileRecordView { path: o.original->0, ..o.record },
                "recover: move source drift"@,
                t1,
            );
            (
                match v {
                    Err(e) => Err(e),
                    Ok(_) => Ok(true),
                },
                t2,
            )
        } else {
            let (s, t2) = found_staged(staging, 0, o.record, "recover: staging drift"@, t1);
            (
                match s {
                    Some(_) => Ok(true),
                    None => Err(
                        "recover: pending output is unaccounted for: "@ + o.record.path,
                    ),
                },
                t2,
            )
        }
    } else {
        let (v, t2) = validated(o.record, "recover: output drift"@, t1);
        match v {
            Err(e) => (Err(e), t2),
            Ok(_) => match o.original {
                None => (Ok(false), t2),
                Some(p) => {
                    let (taken, t3) = dialog::exists_at(t2, p);
                    (
                        if taken {
                            Err("recover: original path is no longer free: "@ + p)
                        } else {
                            Ok(false)
                        },
                        t3,
                    )
                },
            },
        }
    }
}

fn account_for(o: &JournalOutput, staging: &[String], talk: &mut Talk) -> (r: Result<bool, String>)
    ensures
        (match r {
            Ok(b) => Ok(b),
            Err(e) => Err(e@),
        }, final(talk)@) == accounted(o@, text::texts(staging@), old(talk)@),
{
    let there = if has_prefix(o.role.as_str(), "pending_") {
        talk.is_there(o.record.path.as_str())
    } else {
        true
    };
    if !there {
        if same(o.role.as_str(), "pending_move") {
            match &o.original_path {
                Some(original) => {
                    let expected = o.record.at(original.as_str());
                    return match validate_record(&expected, "recover: move source drift", talk) {
                        Err(e) => Err(e),
                        Ok(_) => Ok(true),
                    };
                },
                None => {},
            }
        }
        return match find_staged(staging, &o.record, "recover: staging drift", talk) {
            Some(_) => Ok(true),
            None => Err(
                cat2(
                    "recover: pending output is unaccounted for: ",
                    o.record.path.as_str(),
                ),
            ),
        };
    }
    match validate_record(&o.record, "recover: output drift", talk) {
        Err(e) => return Err(e),
        Ok(_) => {},
    }
    match &o.original_path {
        None => Ok(false),
        Some(p) => if talk.is_there(p.as_str()) {
            Err(cat2("recover: original path is no longer free: ", p.as_str()))
        } else {
            Ok(false)
        },
    }
}

/// The first `n` outputs that were published, once each is accounted for.
pub open spec fn all_accounted(
    outputs: Seq<OutputView>,
    n: int,
    staging: Seq<Seq<char>>,
    t: TalkView,
) -> (Result<Seq<OutputView>, Seq<char>>, TalkView)
    decreases n,
{
    if n <= 0 {
        (Ok(Seq::empty()), t)
    } else {
        let (before, t1) = all_accounted(outputs, n - 1, staging, t);
        match before {
            Err(e) => (Err(e), t1),
            Ok(kept) => {
                let (a, t2) = accounted(outputs[n - 1], staging, t1);
                (
                    match a {
                        Err(e) => Err(e),
                        Ok(missing) => Ok(
                            if missing {
                                kept
                            } else {
                                kept.push(outputs[n - 1])
                            },
                        ),
                    },
                    t2,
                )
            },
        }
    }
}

proof fn lemma_accounted_stays(
    outputs: Seq<OutputView>,
    n: int,
    m: int,
    staging: Seq<Seq<char>>,
    t: TalkView,
)
    requires
        0 <= n <= m,
        all_accounted(outputs, n, staging, t).0 is Err,
    ensures
        all_accounted(outputs, m, staging, t) == all_accounted(outputs, n, staging, t),
    decreases m - n,
{
    if n < m {
        lemma_accounted_stays(outputs, n, m - 1, staging, t);
    }
}

fn account_for_all(outputs: &[JournalOutput], staging: &[String], talk: &mut Talk) -> (r: Result<
    Vec<JournalOutput>,
    String,
>)
    ensures
        (match r {
            Ok(kept) => Ok(output_views(kept@)),
            Err(e) => Err(e@),
        }, final(talk)@) == all_accounted(
            output_views(outputs@),
            outputs@.len() as int,
            text::texts(staging@),
            old(talk)@,
        ),
{
    let ghost all = output_views(outputs@);
    let ghost places = text::texts(staging@);
    let ghost start = talk@;
    let mut kept: Vec<JournalOutput> = Vec::new();
    assert(output_views(kept@) =~= Seq::<OutputView>::empty());
    let mut i: usize = 0;
    while i < outputs.len()
        invariant
            i <= outputs@.len(),
            all == output_views(outputs@),
            places == text::texts(staging@),
            start == old(talk)@,
            (Ok::<Seq<OutputView>, Seq<char>>(output_views(kept@)), talk@) == all_accounted(
                all,
                i as int,
                places,
                start,
            ),
        decreases outputs@.len() - i,
    {
        assert(all[i as int] == outputs@[i as int]@);
        proof {
            if all_accounted(all, i + 1, places, start).0 is Err {
                lemma_accounted_stays(all, i + 1, outputs@.len() as int, places, start);
            }
        }
        match account_for(&outputs[i], staging, talk) {
            Err(e) => return Err(e),
            Ok(missing) => if !missing {
                let ghost before = kept@;
                let o = outputs[i].copy();
                kept.push(o);
                assert(output_views(kept@) =~= output_views(before).push(o@));
            },
        }
        i = i + 1;
    }
    Ok(kept)
}

/// What removing the temporary files from `i` on gives.
pub open spec fn staging_removed(staging: Seq<Seq<char>>, i: int, t: TalkView) -> (
    Result<(), Seq<char>>,
    TalkView,
)
    decreases staging.len() - i,
{
    if i < 0 || i >= staging.len() {
        (Ok(()), t)
    } else {
        let (there, t1) = dialog::exists_at(t, staging[i]);
        if !there {
            staging_removed(staging, i + 1, t1)
        } else {
            let (r, t2) = dialog::acted(t1, ActionView::RemoveFile(staging[i]));
            match r {
                Err(e) => (
                    Err("recover: could not remove staged file "@ + staging[i] + ": "@ + e),
                    t2,
                ),
                Ok(_) => staging_removed(staging, i + 1, t2),
            }
        }
    }
}

fn remove_staging(staging: &[String], talk: &mut Talk) -> (r: Result<(), String>)
    ensures
        (dialog::outcome(r), final(talk)@) == staging_removed(
            text::texts(staging@),
            0,
            old(talk)@,
        ),
{
    let ghost all = text::texts(staging@);
    let ghost start = talk@;
    let mut i: usize = 0;
    while i < staging.len()
        invariant
            i <= staging@.len(),
            all == text::texts(staging@),
            start == old(talk)@,
            staging_removed(all, 0, start) == staging_removed(all, i as int, talk@),
        decreases staging@.len() - i,
    {
        assert(all[i as int] == staging@[i as int]@);
        if talk.is_there(staging[i].as_str()) {
            match talk.act(Action::RemoveFile(staging[i].clone())) {
                Err(e) => return Err(
                    cat4(
                        "recover: could not remove staged file ",
                        staging[i].as_str(),
                        ": ",
                        e.as_str(),
                    ),
                ),
                Ok(_) => {},
            }
        }
        i = i + 1;
    }
    Ok(())
}

/// The message of a rollback as one of a recovery.
pub open spec fn as_recovery(e: Seq<char>) -> Seq<char> {
    match text::found_from(e, "rollback:"@, 0) {
        Some(i) => e.take(i) + "recover:"@ + e.skip(i + "rollback:"@.len()),
        None => e,
    }
}

fn rename_message(e: &str) -> (r: String)
    ensures
        r@ == as_recovery(e@),
{
    let v = text::chars_of(e);
    let needle = text::chars_of("rollback:");
    match text::find_from(&v, &needle, 0) {
        Some(i) => {
            proof {
                text::lemma_found_is_first(v@, needle@, 0);
                assert(text::occurs_at(v@, needle@, i as int));
                assert(i + needle.len() <= v.len());
            }
            let head = text::sub_chars(&v, 0, i);
            let tail = text::sub_chars(&v, i + needle.len(), v.len());
            let a = text::text_of(&head);
            let b = text::text_of(&tail);
            assert(head@ =~= e@.take(i as int));
            assert(tail@ =~= e@.skip(i + needle@.len()));
            cat3(a.as_str(), "recover:", b.as_str())
        },
        None => e.to_owned(),
    }
}

/// What recovering by rolling back gives: every output is accounted for, the
/// temporary files go, and what was published is taken back.
pub open spec fn recovered_back(j: JournalView, t: TalkView) -> (
    Result<JournalView, Seq<char>>,
    TalkView,
) {
    if !unfinished(j.status) {
        (
            Err(
                "recover: operation "@ + j.id + " has status '"@ + j.status
                    + "' and does not need recovery"@,
            ),
            t,
        )
    } else if !j.undo_safe {
        (Err("recover: operation "@ + j.id + " is not safely reversible"@), t)
    } else {
        let (a, t1) = all_accounted(j.outputs, j.outputs.len() as int, j.staging, t);
        match a {
            Err(e) => (Err(e), t1),
            Ok(kept) => {
                let (s, t2) = staging_removed(j.staging, 0, t1);
                match s {
                    Err(e) => (Err(e), t2),
                    Ok(_) => {
                        let (r, t3) = rollback_done(
                            JournalView { outputs: kept, staging: Seq::empty(), ..j },
                            t2,
                        );
                        (
                            match r {
                                Err(e) => Err(as_recovery(e)),
                                Ok(j1) => Ok(j1),
                            },
                            t3,
                        )
                    },
                }
            },
        }
    }
}

impl OperationJournal {
    /// Whether the operation stopped before it was done or taken back.
    pub fn needs_recovery(&self) -> (r: bool)
        ensures
            r == unfinished(self@.status),
    {
        let s = self.status.as_str();
        same(s, "in_progress") || same(s, "partially_applied") || same(s, "failed")
    }

    /// Undoes an applied operation.
    pub fn undo(&self, talk: &mut Talk) -> (r: Result<OperationJournal, String>)
        ensures
            (journal_outcome(r), final(talk)@) == undone(self@, old(talk)@),
    {
        let id = self.id.as_str();
        if !same(self.status.as_str(), "applied") {
            return Err(
                cat5("undo: operation ", id, " has status '", self.status.as_str(), "'"),
            );
        }
        if self.undone_at.is_some() {
            return Err(cat3("undo: operation ", id, " was already undone"));
        }
        if !self.undo_safe {
            return Err(
                cat3(
                    "undo: operation ",
                    id,
                    " replaced existing output and cannot be safely undone",
                ),
            );
        }
        match check_undo(&self.outputs, talk) {
            Err(e) => return Err(e),
            Ok(_) => {},
        }
        match restore_outputs(&self.outputs, talk) {
            Err(e) => return Err(e),
            Ok(_) => {},
        }
        let mut after = self.copy();
        let now = now_seconds(talk);
        after.undone_at = Some(now);
        after.status = "undone".to_owned();
        assert(after@ =~= (JournalView {
            undone_at: Some(now),
            status: "undone"@,
            ..self@
        }));
        Ok(after)
    }

    /// Takes an unfinished operation back.
    pub fn rollback(&self, talk: &mut Talk) -> (r: Result<OperationJournal, String>)
        ensures
            (journal_outcome(r), final(talk)@) == rollback_done(self@, old(talk)@),
    {
        let id = self.id.as_str();
        if !self.needs_recovery() {
            return Err(
                cat5("rollback: operation ", id, " has status '", self.status.as_str(), "'"),
            );
        }
        if !self.undo_safe {
            return Err(cat3("rollback: operation ", id, " is not safely reversible"));
        }
        match check_outputs(&self.outputs, "rollback", talk) {
            Err(e) => return Err(e),
            Ok(_) => {},
        }
        let mut after = self.copy();
        transactional_rollback(&mut after, talk);
        if !same(after.status.as_str(), "rolled_back") {
            return Err(cat3("rollback: operation ", id, " could not be fully rolled back"));
        }
        let ghost j1 = after@;
        let now = now_seconds(talk);
        after.finished_at = now;
        assert(after@ =~= (JournalView { finished_at: now, ..j1 }));
        Ok(after)
    }

    /// Recovers an operation by taking it back.
    pub fn recover_rollback(&self, talk: &mut Talk) -> (r: Result<OperationJournal, String>)
        ensures
            (journal_outcome(r), final(talk)@) == recovered_back(self@, old(talk)@),
    {
        let id = self.id.as_str();
        if !self.needs_recovery() {
            return Err(
                cat5(
                    "recover: operation ",
                    id,
                    " has status '",
                    self.status.as_str(),
                    "' and does not need recovery",
                ),
            );
        }
        if !self.undo_safe {
            return Err(cat3("recover: operation ", id, " is not safely reversible"));
        }
        let kept = match account_for_all(&self.outputs, &self.staging_paths, talk) {
            Err(e) => return Err(e),
            Ok(kept) => kept,
        };
        match remove_staging(&self.staging_paths, talk) {
            Err(e) => return Err(e),
            Ok(_) => {},
        }
        let mut recovery = self.copy();
        recovery.outputs = kept;
        recovery.staging_paths = Vec::new();
        assert(text::texts(recovery.staging_paths@) =~= Seq::<Seq<char>>::empty());
        assert(recovery@ =~= (JournalView {
            outputs: output_views(kept@),
            staging: Seq::empty(),
            ..self@
        }));
        match recovery.rollback(talk) {
            Err(e) => Err(rename_message(e.as_str())),
            Ok(j) => Ok(j),
        }
    }

    /// The rows that show what the operation made.
    pub fn to_table(&self) -> (r: Table)
        ensures
            r@ == journal_rows(self@),
    {
        let ghost whole = journal_rows(self@);
        let mut rows: Vec<Row> = Vec::new();
        assert(whole.take(0) =~= Seq::<table::RowView>::empty());
        assert(table::row_views(rows@) =~= Seq::<table::RowView>::empty());
        let mut i: usize = 0;
        while i < self.outputs.len()
            invariant
                i <= self.outputs@.len(),
                whole == journal_rows(self@),
                table::row_views(rows@) == whole.take(i as int),
            decreases self.outputs@.len() - i,
        {
            let o = &self.outputs[i];
            assert(self@.outputs[i as int] == o@);
            let original = match &o.original_path {
                Some(p) => p.clone(),
                None => String::new(),
            };
            let row: Row = vec![
                ("operation_id".to_owned(), self.id.clone()),
                ("plan_id".to_owned(), self.plan_id.clone()),
                ("operation".to_owned(), self.operation.clone()),
                ("status".to_owned(), self.status.clone()),
                ("role".to_owned(), o.role.clone()),
                ("path".to_owned(), o.record.path.clone()),
                ("original_path".to_owned(), original),
                ("size".to_owned(), u64_text(o.record.size)),
                ("undo_safe".to_owned(), show_truth(self.undo_safe)),
                ("started_at".to_owned(), u64_text(self.started_at)),
                ("finished_at".to_owned(), u64_text(self.finished_at)),
            ];
            assert(table::row_view(row@) =~= journal_row(self@, o@));
            push_row(&mut rows, row, Ghost(whole), Ghost(i as int));
            i = i + 1;
        }
        assert(whole.take(self.outputs@.len() as int) =~= whole);
        Table { rows }
    }
}

/// The row that shows an output of an operation.
pub open spec fn journal_row(j: JournalView, o: OutputView) -> table::RowView {
    seq![
        ("operation_id"@, j.id),
        ("plan_id"@, j.plan_id),
        ("operation"@, j.operation),
        ("status"@, j.status),
        ("role"@, o.role),
        ("path"@, o.record.path),
        (
            "original_path"@,
            match o.original {
                Some(p) => p,
                None => Seq::empty(),
            },
        ),
        ("size"@, text::nat_text(o.record.size as nat)),
        ("undo_safe"@, truth_text(j.undo_safe)),
        ("started_at"@, text::nat_text(j.started_at as nat)),
        ("finished_at"@, text::nat_text(j.finished_at as nat)),
    ]
}

/// The rows that show what an operation made.
pub open spec fn journal_rows(j: JournalView) -> Seq<table::RowView> {
    Seq::new(j.outputs.len(), |i: int| journal_row(j, j.outputs[i]))
}

// ---------------------------------------------------------------------------
// Resuming
// ---------------------------------------------------------------------------

/// What resuming a step gives.
pub type Resumed = (Result<(), Seq<char>>, JournalView, TalkView);

/// Where the first output from `i` on is that has a role and a path.
pub open spec fn output_place(outputs: Seq<OutputView>, i: int, role: Seq<char>, path: Seq<char>) -> Option<
    int,
>
    decreases outputs.len() - i,
{
    if i < 0 || i >= outputs.len() {
        None
    } else if outputs[i].role == role && paths::same_path(outputs[i].record.path, path) {
        Some(i)
    } else {
        output_place(outputs, i + 1, role, path)
    }
}

fn find_output(outputs: &[JournalOutput], role: &str, path: &str) -> (r: Option<usize>)
    ensures
        match r {
            Some(i) => output_place(output_views(outputs@), 0, role@, path@) == Some(i as int) && i
                < outputs@.len(),
            None => output_place(output_views(outputs@), 0, role@, path@) is None,
        },
{
    let ghost all = output_views(outputs@);
    let mut i: usize = 0;
    while i < outputs.len()
        invariant
            i <= outputs@.len(),
            all == output_views(outputs@),
            output_place(all, 0, role@, path@) == output_place(all, i as int, role@, path@),
        decreases outputs@.len() - i,
    {
        assert(all[i as int] == outputs@[i as int]@);
        if same(outputs[i].role.as_str(), role) && equal_paths(
            outputs[i].record.path.as_str(),
            path,
        ) {
            return Some(i);
        }
        i = i + 1;
    }
    None
}

/// Whether one of the paths from `i` on exists.
pub open spec fn any_there(list: Seq<Seq<char>>, i: int, t: TalkView) -> (bool, TalkView)
    decreases list.len() - i,
{
    if i < 0 || i >= list.len() {
        (false, t)
    } else {
        let (there, t1) = dialog::exists_at(t, list[i]);
        if there {
            (true, t1)
        } else {
            any_there(list, i + 1, t1)
        }
    }
}

fn some_there(list: &[String], talk: &mut Talk) -> (r: bool)
    ensures
        (r, final(talk)@) == any_there(text::texts(list@), 0, old(talk)@),
{
    let ghost all = text::texts(list@);
    let ghost start = talk@;
    let mut i: usize = 0;
    while i < list.len()
        invariant
            i <= list@.len(),
            all == text::texts(list@),
            start == old(talk)@,
            any_there(all, 0, start) == any_there(all, i as int, talk@),
        decreases list@.len() - i,
    {
        assert(all[i as int] == list@[i as int]@);
        if talk.is_there(list[i].as_str()) {
            return true;
        }
        i = i + 1;
    }
    false
}

/// The first `n` paths that exist.
pub open spec fn those_there(list: Seq<Seq<char>>, n: int, t: TalkView) -> (Seq<Seq<char>>, TalkView)
    decreases n,
{
    if n <= 0 {
        (Seq::empty(), t)
    } else {
        let (kept, t1) = those_there(list, n - 1, t);
        let (there, t2) = dialog::exists_at(t1, list[n - 1]);
        (
            if there {
                kept.push(list[n - 1])
            } else {
                kept
            },
            t2,
        )
    }
}

fn keep_there(list: &[String], talk: &mut Talk) -> (r: Vec<String>)
    ensures
        (text::texts(r@), final(talk)@) == those_there(
            text::texts(list@),
            list@.len() as int,
            old(talk)@,
        ),
{
    let ghost all = text::texts(list@);
    let ghost start = talk@;
    let mut out: Vec<String> = Vec::new();
    assert(text::texts(out@) =~= Seq::<Seq<char>>::empty());
    let mut i: usize = 0;
    while i < list.len()
        invariant
            i <= list@.len(),
            all == text::texts(list@),
            (text::texts(out@), talk@) == those_there(all, i as int, start),
        decreases list@.len() - i,
    {
        assert(all[i as int] == list@[i as int]@);
        if talk.is_there(list[i].as_str()) {
            let p = list[i].clone();
            proof {
                text::lemma_texts_push(out@, p);
            }
            out.push(p);
        }
        i = i + 1;
    }
    out
}

/// The words in which a resumed publication reports.
pub struct PublicationWords {
    pub staged_drift: Seq<char>,
    pub identity_changed: Seq<char>,
    pub both: Seq<char>,
    pub published_drift: Seq<char>,
    pub neither: Seq<char>,
}

/// The words for copies.
pub open spec fn copy_words() -> PublicationWords {
    PublicationWords {
        staged_drift: "recover: staged copy drift"@,
        identity_changed: "recover: staged copy identity changed for "@,
        both: "recover: both staged and published copies exist for "@,
        published_drift: "recover: published copy drift"@,
        neither: "recover: neither staged nor published copy exists for "@,
    }
}

/// The words for archives.
pub open spec fn archive_words() -> PublicationWords {
    PublicationWords {
        staged_drift: "recover: staged archive drift"@,
        identity_changed: "recover: staged output identity changed for "@,
        both: "recover: both staged and published outputs exist for "@,
        published_drift: "recover: published archive drift"@,
        neither: "recover: neither staged nor published output exists for "@,
    }
}

/// What resuming a publication that was noted gives: it is finished from its
/// temporary file, or found finished. The value tells whether one was noted.
pub open spec fn publication_resumed(
    role: Seq<char>,
    dest: Seq<char>,
    w: PublicationWords,
    j: JournalView,
    t: TalkView,
) -> (Result<bool, Seq<char>>, JournalView, TalkView) {
    match output_place(j.outputs, 0, role, dest) {
        None => (Ok(false), j, t),
        Some(k) => {
            let record = j.outputs[k].record;
            let (staged, t1) = found_staged(j.staging, 0, record, w.staged_drift, t);
            let (left, t2) = if staged is None {
                any_there(j.staging, 0, t1)
            } else {
                (false, t1)
            };
            if staged is None && left {
                (Err(w.identity_changed + dest), j, t2)
            } else {
                let (there, t3) = dialog::exists_at(t2, dest);
                if there && staged is Some {
                    (Err(w.both + dest), j, t3)
                } else if there {
                    let (v, t4) = validated(record, w.published_drift, t3);
                    match v {
                        Err(e) => (Err(e), j, t4),
                        Ok(_) => {
                            let (kept, t5) = those_there(j.staging, j.staging.len() as int, t4);
                            (
                                Ok(true),
                                JournalView {
                                    staging: kept,
                                    outputs: j.outputs.remove(k),
                                    ..j
                                },
                                t5,
                            )
                        },
                    }
                } else {
                    match staged {
                        None => (Err(w.neither + dest), j, t3),
                        Some(s) => {
                            let (p, t4) = put_in_place(s, dest, false, t3);
                            match p {
                                Err(e) => (Err(e), j, t4),
                                Ok(_) => (
                                    Ok(true),
                                    JournalView {
                                        staging: without_path(j.staging, s),
                                        outputs: j.outputs.remove(k),
                                        ..j
                                    },
                                    t4,
                                ),
                            }
                        },
                    }
                }
            }
        },
    }
}

fn resume_pending_publication(
    role: &str,
    dest: &str,
    copies: bool,
    journal: &mut OperationJournal,
    talk: &mut Talk,
) -> (r: Result<bool, String>)
    ensures
        (match r {
            Ok(b) => Ok(b),
            Err(e) => Err(e@),
        }, final(journal)@, final(talk)@) == publication_resumed(
            role@,
            dest@,
            if copies {
                copy_words()
            } else {
                archive_words()
            },
            old(journal)@,
            old(talk)@,
        ),
{
    let ghost j0 = journal@;
    let k = match find_output(&journal.outputs, role, dest) {
        None => return Ok(false),
        Some(k) => k,
    };
    let record = journal.outputs[k].record.copy();
    assert(j0.outputs[k as int].record == record@);
    let staged_drift = if copies {
        "recover: staged copy drift"
    } else {
        "recover: staged archive drift"
    };
    let staged = find_staged(&journal.staging_paths, &record, staged_drift, talk);
    if staged.is_none() {
        if some_there(&journal.staging_paths, talk) {
            return Err(
                cat2(
                    if copies {
                        "recover: staged copy identity changed for "
                    } else {
                        "recover: staged output identity changed for "
                    },
                    dest,
                ),
            );
        }
    }
    let there = talk.is_there(dest);
    if there && staged.is_some() {
        return Err(
            cat2(
                if copies {
                    "recover: both staged and published copies exist for "
                } else {
                    "recover: both staged and published outputs exist for "
                },
                dest,
            ),
        );
    }
    if there {
        match validate_record(
            &record,
            if copies {
                "recover: published copy drift"
            } else {
                "recover: published archive drift"
            },
            talk,
        ) {
            Err(e) => return Err(e),
            Ok(_) => {},
        }
        journal.staging_paths = keep_there(&journal.staging_paths, talk);
    } else {
        match staged {
            None => return Err(
                cat2(
                    if copies {
                        "recover: neither staged nor published copy exists for "
                    } else {
                        "recover: neither staged nor published output exists for "
                    },
                    dest,
                ),
            ),
            Some(s) => {
                match publish_staged(s.as_str(), dest, false, talk) {
                    Err(e) => return Err(e),
                    Ok(_) => {},
                }
                journal.staging_paths = drop_path(&journal.staging_paths, s.as_str());
            },
        }
    }
    let ghost before = journal.outputs@;
    let ghost places = text::texts(journal.staging_paths@);
    let _removed = journal.outputs.remove(k);
    assert(output_views(journal.outputs@) =~= output_views(before).remove(k as int));
    assert(journal@ =~= (JournalView {
        staging: places,
        outputs: j0.outputs.remove(k as int),
        ..j0
    }));
    Ok(true)
}

/// The temporary files with one more, unless it is among them.
pub open spec fn with_staging(list: Seq<Seq<char>>, path: Seq<char>) -> Seq<Seq<char>> {
    if list.contains(path) {
        list
    } else {
        list.push(path)
    }
}

fn note_staging(journal: &mut OperationJournal, path: &str)
    ensures
        final(journal)@ == (JournalView {
            staging: with_staging(old(journal)@.staging, path@),
            ..old(journal)@
        }),
{
    let ghost j0 = journal@;
    if !holds_text(&journal.staging_paths, path) {
        let p = path.to_owned();
        proof {
            text::lemma_texts_push(journal.staging_paths@, p);
        }
        journal.staging_paths.push(p);
    }
    assert(journal@ =~= (JournalView { staging: with_staging(j0.staging, path@), ..j0 }));
}

/// The outputs that do not have both a role and a path.
pub open spec fn without_output(list: Seq<OutputView>, role: Seq<char>, path: Seq<char>) -> Seq<
    OutputView,
>
    decreases list.len(),
{
    if list.len() == 0 {
        Seq::empty()
    } else {
        let rest = without_output(list.drop_last(), role, path);
        if list.last().role == role && paths::same_path(list.last().record.path, path) {
            rest
        } else {
            rest.push(list.last())
        }
    }
}

fn drop_output(list: &[JournalOutput], role: &str, path: &str) -> (r: Vec<JournalOutput>)
    ensures
        output_views(r@) == without_output(output_views(list@), role@, path@),
{
    let ghost all = output_views(list@);
    let mut out: Vec<JournalOutput> = Vec::new();
    let mut i: usize = 0;
    assert(all.take(0) =~= Seq::<OutputView>::empty());
    assert(output_views(out@) =~= Seq::<OutputView>::empty());
    while i < list.len()
        invariant
            i <= list@.len(),
            all == output_views(list@),
            output_views(out@) == without_output(all.take(i as int), role@, path@),
        decreases list@.len() - i,
    {
        assert(all.take(i + 1).drop_last() =~= all.take(i as int));
        assert(all.take(i + 1).last() == list@[i as int]@);
        if !(same(list[i].role.as_str(), role) && equal_paths(
            list[i].record.path.as_str(),
            path,
        )) {
            let ghost before = out@;
            let e = list[i].copy();
            out.push(e);
            assert(output_views(out@) =~= output_views(before).push(e@));
        }
        i = i + 1;
    }
    assert(all.take(list@.len() as int) =~= all);
    out
}

/// What finishing a rebuilt temporary file gives: its identity is noted, it
/// is put into its place, and the note is taken off again.
pub open spec fn republished(
    staging: Seq<char>,
    dest: Seq<char>,
    role: Seq<char>,
    unidentified: Seq<char>,
    j: JournalView,
    t: TalkView,
) -> Resumed {
    let (f, t1) = fileset::inspected(staging, None, t);
    match f {
        Err(e) => (Err(unidentified + e), j, t1),
        Ok(found) => {
            let record = FileRecordView { path: dest, ..found };
            let j1 = JournalView {
                outputs: j.outputs.push(OutputView { role, record, original: None }),
                ..j
            };
            let (s, t2) = saved(j1, t1);
            match s {
                Err(e) => (Err(e), j1, t2),
                Ok(_) => {
                    let (p, t3) = put_in_place(staging, dest, false, t2);
                    match p {
                        Err(e) => (Err(e), j1, t3),
                        Ok(_) => (
                            Ok(()),
                            JournalView {
                                outputs: without_output(j1.outputs, role, dest),
                                staging: without_path(j1.staging, staging),
                                ..j1
                            },
                            t3,
                        ),
                    }
                },
            }
        },
    }
}

fn republish(
    staging: &str,
    dest: &str,
    role: &str,
    unidentified: &str,
    journal: &mut OperationJournal,
    talk: &mut Talk,
) -> (r: Result<(), String>)
    ensures
        (dialog::outcome(r), final(journal)@, final(talk)@) == republished(
            staging@,
            dest@,
            role@,
            unidentified@,
            old(journal)@,
            old(talk)@,
        ),
{
    let found = match FileRecord::from_path(staging.to_owned(), None, talk) {
        Err(e) => return Err(cat2(unidentified, e.as_str())),
        Ok(f) => f,
    };
    let record = found.at(dest);
    push_output(journal, JournalOutput { role: role.to_owned(), record, original_path: None });
    match save(journal, talk) {
        Err(e) => return Err(e),
        Ok(_) => {},
    }
    match publish_staged(staging, dest, false, talk) {
        Err(e) => return Err(e),
        Ok(_) => {},
    }
    let ghost j1 = journal@;
    journal.outputs = drop_output(&journal.outputs, role, dest);
    journal.staging_paths = drop_path(&journal.staging_paths, staging);
    assert(journal@ =~= (JournalView {
        outputs: without_output(j1.outputs, role@, dest@),
        staging: without_path(j1.staging, staging@),
        ..j1
    }));
    Ok(())
}

/// What copying a file anew gives.
pub open spec fn copy_rebuilt(step: StepView, j: JournalView, t: TalkView) -> Resumed {
    let (there, t1) = dialog::exists_at(t, step.destination);
    if there {
        (Err("recover: unaccounted destination exists: "@ + step.destination), j, t1)
    } else {
        let (v, t2) = validated(step.source, "recover: copy source drift"@, t1);
        match v {
            Err(e) => (Err(e), j, t2),
            Ok(_) => {
                let (staging, t3) = staged_at(step.destination, j.id, "copy"@, t2);
                match staging {
                    Err(e) => (Err(e), j, t3),
                    Ok(s) => {
                        let j1 = JournalView { staging: with_staging(j.staging, s), ..j };
                        let (w, t4) = saved(j1, t3);
                        match w {
                            Err(e) => (Err(e), j1, t4),
                            Ok(_) => {
                                let (c, t5) = copy::copied_one(step.source.path, s, false, t4);
                                match c {
                                    Err(e) => (Err("recover: "@ + e), j1, t5),
                                    Ok(_) => republished(
                                        s,
                                        step.destination,
                                        "pending_copy"@,
                                        "recover: could not identify staged copy: "@,
                                        j1,
                                        t5,
                                    ),
                                }
                            },
                        }
                    },
                }
            },
        }
    }
}

fn rebuild_copy(step: &RecoveryStep, journal: &mut OperationJournal, talk: &mut Talk) -> (r: Result<
    (),
    String,
>)
    ensures
        (dialog::outcome(r), final(journal)@, final(talk)@) == copy_rebuilt(
            step@,
            old(journal)@,
            old(talk)@,
        ),
{
    let dest = step.destination.as_str();
    if talk.is_there(dest) {
        return Err(cat2("recover: unaccounted destination exists: ", dest));
    }
    match validate_record(&step.source, "recover: copy source drift", talk) {
        Err(e) => return Err(e),
        Ok(_) => {},
    }
    let s = match staging_path(dest, journal.id.as_str(), "copy", talk) {
        Err(e) => return Err(e),
        Ok(s) => s,
    };
    note_staging(journal, s.as_str());
    match save(journal, talk) {
        Err(e) => return Err(e),
        Ok(_) => {},
    }
    match copy_one(step.source.path.as_str(), s.as_str(), false, talk) {
        Err(e) => return Err(cat2("recover: ", e.as_str())),
        Ok(_) => {},
    }
    republish(
        s.as_str(),
        dest,
        "pending_copy",
        "recover: could not identify staged copy: ",
        journal,
        talk,
    )
}

/// What noting a resumed output gives.
pub open spec fn resumed_output(
    role: Seq<char>,
    path: Seq<char>,
    unreadable: Seq<char>,
    j: JournalView,
    t: TalkView,
) -> Resumed {
    let (f, t1) = fileset::inspected(path, None, t);
    match f {
        Err(e) => (Err(unreadable + e), j, t1),
        Ok(record) => (
            Ok(()),
            JournalView {
                outputs: j.outputs.push(OutputView { role, record, original: None }),
                ..j
            },
            t1,
        ),
    }
}

fn note_resumed(
    role: &str,
    path: &str,
    unreadable: &str,
    journal: &mut OperationJournal,
    talk: &mut Talk,
) -> (r: Result<(), String>)
    ensures
        (dialog::outcome(r), final(journal)@, final(talk)@) == resumed_output(
            role@,
            path@,
            unreadable@,
            old(journal)@,
            old(talk)@,
        ),
{
    match FileRecord::from_path(path.to_owned(), None, talk) {
        Err(e) => Err(cat2(unreadable, e.as_str())),
        Ok(record) => {
            push_output(
                journal,
                JournalOutput { role: role.to_owned(), record, original_path: None },
            );
            Ok(())
        },
    }
}

/// What resuming one copy gives.
pub open spec fn copy_resumed(step: StepView, j: JournalView, t: TalkView) -> Resumed {
    if step.operation != "copy"@ {
        (Err("recover: journal "@ + j.id + " contains a non-copy remaining step"@), j, t)
    } else {
        let (p, j1, t1) = publication_resumed(
            "pending_copy"@,
            step.destination,
            copy_words(),
            j,
            t,
        );
        match p {
            Err(e) => (Err(e), j1, t1),
            Ok(noted) => {
                let (b, j2, t2) = if noted {
                    (Ok(()), j1, t1)
                } else {
                    copy_rebuilt(step, j1, t1)
                };
                match b {
                    Err(e) => (Err(e), j2, t2),
                    Ok(_) => {
                        let (o, j3, t3) = resumed_output(
                            "copy"@,
                            step.destination,
                            "recover: could not checkpoint resumed copy: "@,
                            j2,
                            t2,
                        );
                        match o {
                            Err(e) => (Err(e), j3, t3),
                            Ok(_) => {
                                let j4 = JournalView {
                                    steps: without_destination(j3.steps, step.destination),
                                    ..j3
                                };
                                let (s, t4) = saved(j4, t3);
                                (s, j4, t4)
                            },
                        }
                    },
                }
            },
        }
    }
}

fn resume_copy(step: &RecoveryStep, journal: &mut OperationJournal, talk: &mut Talk) -> (r: Result<
    (),
    String,
>)
    ensures
        (dialog::outcome(r), final(journal)@, final(talk)@) == copy_resumed(
            step@,
            old(journal)@,
            old(talk)@,
        ),
{
    let dest = step.destination.as_str();
    if !same(step.operation.as_str(), "copy") {
        return Err(
            cat3("recover: journal ", journal.id.as_str(), " contains a non-copy remaining step"),
        );
    }
    match resume_pending_publication("pending_copy", dest, true, journal, talk) {
        Err(e) => return Err(e),
        Ok(noted) => if !noted {
            match rebuild_copy(step, journal, talk) {
                Err(e) => return Err(e),
                Ok(_) => {},
            }
        },
    }
    match note_resumed(
        "copy",
        dest,
        "recover: could not checkpoint resumed copy: ",
        journal,
        talk,
    ) {
        Err(e) => return Err(e),
        Ok(_) => {},
    }
    let ghost j3 = journal@;
    journal.remaining_steps = drop_destination(&journal.remaining_steps, dest);
    assert(journal@ =~= (JournalView {
        steps: without_destination(j3.steps, dest@),
        ..j3
    }));
    save(journal, talk)
}

/// What resuming the steps from `i` on gives.
pub open spec fn copies_resumed(steps: Seq<StepView>, i: int, j: JournalView, t: TalkView) -> Resumed
    decreases steps.len() - i,
{
    if i < 0 || i >= steps.len() {
        (Ok(()), j, t)
    } else {
        let (r, j1, t1) = copy_resumed(steps[i], j, t);
        match r {
            Err(e) => (Err(e), j1, t1),
            Ok(_) => copies_resumed(steps, i + 1, j1, t1),
        }
    }
}

/// What holding the outputs from `i` on that have one of two roles against
/// the file system gives.
pub open spec fn roles_unchanged(
    outputs: Seq<OutputView>,
    i: int,
    a: Seq<char>,
    b: Seq<char>,
    label: Seq<char>,
    t: TalkView,
) -> (Result<(), Seq<char>>, TalkView)
    decreases outputs.len() - i,
{
    if i < 0 || i >= outputs.len() {
        (Ok(()), t)
    } else if outputs[i].role == a || outputs[i].role == b {
        let (v, t1) = validated(outputs[i].record, label, t);
        match v {
            Err(e) => (Err(e), t1),
            Ok(_) => roles_unchanged(outputs, i + 1, a, b, label, t1),
        }
    } else {
        roles_unchanged(outputs, i + 1, a, b, label, t)
    }
}

fn check_roles(outputs: &[JournalOutput], a: &str, b: &str, label: &str, talk: &mut Talk) -> (r:
    Result<(), String>)
    ensures
        (dialog::outcome(r), final(talk)@) == roles_unchanged(
            output_views(outputs@),
            0,
            a@,
            b@,
            label@,
            old(talk)@,
        ),
{
    let ghost all = output_views(outputs@);
    let ghost start = talk@;
    let mut i: usize = 0;
    while i < outputs.len()
        invariant
            i <= outputs@.len(),
            all == output_views(outputs@),
            start == old(talk)@,
            roles_unchanged(all, 0, a@, b@, label@, start) == roles_unchanged(
                all,
                i as int,
                a@,
                b@,
                label@,
                talk@,
            ),
        decreases outputs@.len() - i,
    {
        assert(all[i as int] == outputs@[i as int]@);
        if same(outputs[i].role.as_str(), a) || same(outputs[i].role.as_str(), b) {
            match validate_record(&outputs[i].record, label, talk) {
                Err(e) => return Err(e),
                Ok(_) => {},
            }
        }
        i = i + 1;
    }
    Ok(())
}

/// What the end of a resumed operation gives: nothing is left to do, no
/// temporary file is there, and the journal says that it was applied.
pub open spec fn resume_finished(j: JournalView, left: bool, what: Seq<char>, t: TalkView) -> (
    Result<JournalView, Seq<char>>,
    TalkView,
) {
    if left {
        (Err("recover: operation "@ + j.id + " still has unsupported "@ + what), t)
    } else {
        let (there, t1) = any_there(j.staging, 0, t);
        if there {
            (Err("recover: operation "@ + j.id + " still has staged files"@), t1)
        } else {
            let (now, t2) = clock(t1);
            let j1 = JournalView {
                staging: Seq::empty(),
                status: "applied"@,
                error: None,
                finished_at: now,
                ..j
            };
            let (s, t3) = saved(j1, t2);
            (
                match s {
                    Err(e) => Err(e),
                    Ok(_) => Ok(j1),
                },
                t3,
            )
        }
    }
}

fn finish_resume(journal: OperationJournal, left: bool, what: &str, talk: &mut Talk) -> (r: Result<
    OperationJournal,
    String,
>)
    ensures
        (journal_outcome(r), final(talk)@) == resume_finished(
            journal@,
            left,
            what@,
            old(talk)@,
        ),
{
    let mut journal = journal;
    let ghost j0 = journal@;
    if left {
        return Err(
            cat4("recover: operation ", journal.id.as_str(), " still has unsupported ", what),
        );
    }
    if some_there(&journal.staging_paths, talk) {
        return Err(
            cat3("recover: operation ", journal.id.as_str(), " still has staged files"),
        );
    }
    let now = now_seconds(talk);
    journal.staging_paths = Vec::new();
    journal.status = "applied".to_owned();
    journal.error = None;
    journal.finished_at = now;
    assert(text::texts(journal.staging_paths@) =~= Seq::<Seq<char>>::empty());
    assert(journal@ =~= (JournalView {
        staging: Seq::empty(),
        status: "applied"@,
        error: None,
        finished_at: now,
        ..j0
    }));
    match save(&journal, talk) {
        Err(e) => Err(e),
        Ok(_) => Ok(journal),
    }
}

/// What resuming a copy operation gives.
pub open spec fn copy_operation_resumed(j: JournalView, t: TalkView) -> (
    Result<JournalView, Seq<char>>,
    TalkView,
) {
    if !j.resume_supported {
        (
            Err(
                "recover: operation "@ + j.id
                    + " predates persisted resume intent; use --rollback"@,
            ),
            t,
        )
    } else if !j.undo_safe {
        (
            Err(
                "recover: operation "@ + j.id
                    + " replaced existing destinations and cannot be safely resumed"@,
            ),
            t,
        )
    } else {
        let (c, t1) = roles_unchanged(
            j.outputs,
            0,
            "copy"@,
            "copy"@,
            "recover: completed copy drift"@,
            t,
        );
        match c {
            Err(e) => (Err(e), t1),
            Ok(_) => {
                let (r, j1, t2) = copies_resumed(j.steps, 0, j, t1);
                match r {
                    Err(e) => (Err(e), t2),
                    Ok(_) => resume_finished(
                        j1,
                        j1.steps.len() > 0,
                        "remaining steps"@,
                        t2,
                    ),
                }
            },
        }
    }
}

/// What checking the sources of the entries from `i` on gives.
pub open spec fn entries_unchanged(entries: Seq<ArchivePlanEntryView>, i: int, t: TalkView) -> (
    Result<(), Seq<char>>,
    TalkView,
)
    decreases entries.len() - i,
{
    if i < 0 || i >= entries.len() {
        (Ok(()), t)
    } else {
        let (v, t1) = validated(entries[i].source, "recover: archive source drift"@, t);
        match v {
            Err(e) => (Err(e), t1),
            Ok(_) => entries_unchanged(entries, i + 1, t1),
        }
    }
}

fn check_entries(entries: &[ArchivePlanEntry], talk: &mut Talk) -> (r: Result<(), String>)
    ensures
        (dialog::outcome(r), final(talk)@) == entries_unchanged(
            entry_views(entries@),
            0,
            old(talk)@,
        ),
{
    let ghost all = entry_views(entries@);
    let ghost start = talk@;
    let mut i: usize = 0;
    while i < entries.len()
        invariant
            i <= entries@.len(),
            all == entry_views(entries@),
            start == old(talk)@,
            entries_unchanged(all, 0, start) == entries_unchanged(all, i as int, talk@),
        decreases entries@.len() - i,
    {
        assert(all[i as int] == entries@[i as int]@);
        match validate_record(&entries[i].source, "recover: archive source drift", talk) {
            Err(e) => return Err(e),
            Ok(_) => {},
        }
        i = i + 1;
    }
    Ok(())
}

/// What building an archive anew gives.
pub open spec fn archive_rebuilt(step: ArchivePlanItemView, j: JournalView, t: TalkView) -> Resumed {
    let (v, t1) = entries_unchanged(step.entries, 0, t);
    match v {
        Err(e) => (Err(e), j, t1),
        Ok(_) => {
            let (staging, t2) = staged_at(step.archive, j.id, "archive"@, t1);
            match staging {
                Err(e) => (Err(e), j, t2),
                Ok(s) => {
                    let j1 = JournalView { staging: with_staging(j.staging, s), ..j };
                    let (w, t3) = saved(j1, t2);
                    match w {
                        Err(e) => (Err(e), j1, t3),
                        Ok(_) => {
                            let (b, t4) = dialog::tried(t3, RequestView::BuildArchive(step, s));
                            match b {
                                Err(e) => (Err(e), j1, t4),
                                Ok(_) => republished(
                                    s,
                                    step.archive,
                                    "pending_archive"@,
                                    "recover: could not identify staged archive: "@,
                                    j1,
                                    t4,
                                ),
                            }
                        },
                    }
                },
            }
        },
    }
}

fn rebuild_archive(
    step: &ArchiveRecoveryStep,
    journal: &mut OperationJournal,
    talk: &mut Talk,
) -> (r: Result<(), String>)
    ensures
        (dialog::outcome(r), final(journal)@, final(talk)@) == archive_rebuilt(
            step@,
            old(journal)@,
            old(talk)@,
        ),
{
    match check_entries(&step.entries, talk) {
        Err(e) => return Err(e),
        Ok(_) => {},
    }
    let s = match staging_path(step.archive.as_str(), journal.id.as_str(), "archive", talk) {
        Err(e) => return Err(e),
        Ok(s) => s,
    };
    note_staging(journal, s.as_str());
    match save(journal, talk) {
        Err(e) => return Err(e),
        Ok(_) => {},
    }
    match talk.attempt(Request::BuildArchive(step.copy(), s.clone())) {
        Err(e) => return Err(e),
        Ok(_) => {},
    }
    republish(
        s.as_str(),
        step.archive.as_str(),
        "pending_archive",
        "recover: could not identify staged archive: ",
        journal,
        talk,
    )
}

/// What copying an archive anew gives.
pub open spec fn backup_rebuilt(
    archive: Seq<char>,
    backup: Seq<char>,
    j: JournalView,
    t: TalkView,
) -> Resumed {
    let (staging, t1) = staged_at(backup, j.id, "backup"@, t);
    match staging {
        Err(e) => (Err(e), j, t1),
        Ok(s) => {
            let j1 = JournalView { staging: with_staging(j.staging, s), ..j };
            let (w, t2) = saved(j1, t1);
            match w {
                Err(e) => (Err(e), j1, t2),
                Ok(_) => {
                    let (c, t3) = dialog::acted(t2, ActionView::CopyFile(archive, s));
                    match c {
                        Err(e) => (
                            Err("recover: could not stage archive backup: "@ + e),
                            j1,
                            t3,
                        ),
                        Ok(_) => republished(
                            s,
                            backup,
                            "pending_backup"@,
                            "recover: could not identify staged backup: "@,
                            j1,
                            t3,
                        ),
                    }
                },
            }
        },
    }
}

fn rebuild_backup(
    archive: &str,
    backup: &str,
    journal: &mut OperationJournal,
    talk: &mut Talk,
) -> (r: Result<(), String>)
    ensures
        (dialog::outcome(r), final(journal)@, final(talk)@) == backup_rebuilt(
            archive@,
            backup@,
            old(journal)@,
            old(talk)@,
        ),
{
    let s = match staging_path(backup, journal.id.as_str(), "backup", talk) {
        Err(e) => return Err(e),
        Ok(s) => s,
    };
    note_staging(journal, s.as_str());
    match save(journal, talk) {
        Err(e) => return Err(e),
        Ok(_) => {},
    }
    match talk.act(Action::CopyFile(archive.to_owned(), s.clone())) {
        Err(e) => return Err(cat2("recover: could not stage archive backup: ", e.as_str())),
        Ok(_) => {},
    }
    republish(
        s.as_str(),
        backup,
        "pending_backup",
        "recover: could not identify staged backup: ",
        journal,
        talk,
    )
}

/// What resuming one output of an archive gives, unless it is there already.
pub open spec fn archive_output_resumed(
    step: ArchivePlanItemView,
    backup: Option<Seq<char>>,
    j: JournalView,
    t: TalkView,
) -> Resumed {
    let (path, role, pending, unreadable) = match backup {
        None => (
            step.archive,
            "archive"@,
            "pending_archive"@,
            "recover: could not checkpoint archive: "@,
        ),
        Some(b) => (
            b,
            "backup"@,
            "pending_backup"@,
            "recover: could not checkpoint archive backup: "@,
        ),
    };
    if output_place(j.outputs, 0, role, path) is Some {
        (Ok(()), j, t)
    } else {
        let (p, j1, t1) = publication_resumed(pending, path, archive_words(), j, t);
        match p {
            Err(e) => (Err(e), j1, t1),
            Ok(noted) => {
                let (b, j2, t2) = if noted {
                    (Ok(()), j1, t1)
                } else {
                    match backup {
                        None => archive_rebuilt(step, j1, t1),
                        Some(b) => backup_rebuilt(step.archive, b, j1, t1),
                    }
                };
                match b {
                    Err(e) => (Err(e), j2, t2),
                    Ok(_) => {
                        let (o, j3, t3) = resumed_output(role, path, unreadable, j2, t2);
                        match o {
                            Err(e) => (Err(e), j3, t3),
                            Ok(_) => {
                                let (s, t4) = saved(j3, t3);
                                (s, j3, t4)
                            },
                        }
                    },
                }
            },
        }
    }
}

fn resume_archive_output(
    step: &ArchiveRecoveryStep,
    backup: Option<&String>,
    journal: &mut OperationJournal,
    talk: &mut Talk,
) -> (r: Result<(), String>)
    ensures
        (dialog::outcome(r), final(journal)@, final(talk)@) == archive_output_resumed(
            step@,
            match backup {
                Some(b) => Some(b@),
                None => None,
            },
            old(journal)@,
            old(talk)@,
        ),
{
    match backup {
        None => {
            let path = step.archive.as_str();
            if find_output(&journal.outputs, "archive", path).is_some() {
                return Ok(());
            }
            match resume_pending_publication("pending_archive", path, false, journal, talk) {
                Err(e) => return Err(e),
                Ok(noted) => if !noted {
                    match rebuild_archive(step, journal, talk) {
                        Err(e) => return Err(e),
                        Ok(_) => {},
                    }
                },
            }
            match note_resumed(
                "archive",
                path,
                "recover: could not checkpoint archive: ",
                journal,
                talk,
            ) {
                Err(e) => return Err(e),
                Ok(_) => {},
            }
            save(journal, talk)
        },
        Some(b) => {
            let path = b.as_str();
            if find_output(&journal.outputs, "backup", path).is_some() {
                return Ok(());
            }
            match resume_pending_publication("pending_backup", path, false, journal, talk) {
                Err(e) => return Err(e),
                Ok(noted) => if !noted {
                    match rebuild_backup(step.archive.as_str(), path, journal, talk) {
                        Err(e) => return Err(e),
                        Ok(_) => {},
                    }
                },
            }
            match note_resumed(
                "backup",
                path,
                "recover: could not checkpoint archive backup: ",
                journal,
                talk,
            ) {
                Err(e) => return Err(e),
                Ok(_) => {},
            }
            save(journal, talk)
        },
    }
}

/// What resuming one archive gives.
pub open spec fn archive_resumed(step: ArchivePlanItemView, j: JournalView, t: TalkView) -> Resumed {
    let (a, j1, t1) = archive_output_resumed(step, None, j, t);
    match a {
        Err(e) => (Err(e), j1, t1),
        Ok(_) => {
            let (b, j2, t2) = match step.backup {
                Some(p) => archive_output_resumed(step, Some(p), j1, t1),
                None => (Ok(()), j1, t1),
            };
            match b {
                Err(e) => (Err(e), j2, t2),
                Ok(_) => {
                    let j3 = JournalView {
                        archives: without_archive(j2.archives, step.archive),
                        ..j2
                    };
                    let (s, t3) = saved(j3, t2);
                    (s, j3, t3)
                },
            }
        },
    }
}

fn resume_archive(
    step: &ArchiveRecoveryStep,
    journal: &mut OperationJournal,
    talk: &mut Talk,
) -> (r: Result<(), String>)
    ensures
        (dialog::outcome(r), final(journal)@, final(talk)@) == archive_resumed(
            step@,
            old(journal)@,
            old(talk)@,
        ),
{
    match resume_archive_output(step, None, journal, talk) {
        Err(e) => return Err(e),
        Ok(_) => {},
    }
    match &step.backup {
        Some(p) => match resume_archive_output(step, Some(p), journal, talk) {
            Err(e) => return Err(e),
            Ok(_) => {},
        },
        None => {},
    }
    let ghost j2 = journal@;
    journal.remaining_archives = drop_archive(&journal.remaining_archives, step.archive.as_str());
    assert(journal@ =~= (JournalView {
        archives: without_archive(j2.archives, step.archive@),
        ..j2
    }));
    save(journal, talk)
}

/// What resuming the archives from `i` on gives.
pub open spec fn archives_resumed(
    steps: Seq<ArchivePlanItemView>,
    i: int,
    j: JournalView,
    t: TalkView,
) -> Resumed
    decreases steps.len() - i,
{
    if i < 0 || i >= steps.len() {
        (Ok(()), j, t)
    } else {
        let (r, j1, t1) = archive_resumed(steps[i], j, t);
        match r {
            Err(e) => (Err(e), j1, t1),
            Ok(_) => archives_resumed(steps, i + 1, j1, t1),
        }
    }
}

/// What resuming an archive operation gives.
pub open spec fn archive_operation_resumed(j: JournalView, t: TalkView) -> (
    Result<JournalView, Seq<char>>,
    TalkView,
) {
    if !j.resume_supported {
        (
            Err(
                "recover: operation "@ + j.id
                    + " predates persisted archive intent; use --rollback"@,
            ),
            t,
        )
    } else if !j.undo_safe {
        (
            Err(
                "recover: operation "@ + j.id
                    + " replaced existing destinations and cannot be safely resumed"@,
            ),
            t,
        )
    } else {
        let (c, t1) = roles_unchanged(
            j.outputs,
            0,
            "archive"@,
            "backup"@,
            "recover: completed archive output drift"@,
            t,
        );
        match c {
            Err(e) => (Err(e), t1),
            Ok(_) => {
                let (r, j1, t2) = archives_resumed(j.archives, 0, j, t1);
                match r {
                    Err(e) => (Err(e), t2),
                    Ok(_) => resume_finished(
                        j1,
                        j1.archives.len() > 0,
                        "archive steps"@,
                        t2,
                    ),
                }
            },
        }
    }
}

/// What recovering by going on gives.
pub open spec fn recovered_forward(j: JournalView, t: TalkView) -> (
    Result<JournalView, Seq<char>>,
    TalkView,
) {
    if !unfinished(j.status) {
        (
            Err(
                "recover: operation "@ + j.id + " has status '"@ + j.status
                    + "' and does not need recovery"@,
            ),
            t,
        )
    } else if j.operation == "compress"@ {
        archive_operation_resumed(j, t)
    } else if j.operation != "copy"@ {
        (
            Err(
                "recover: --resume currently supports copy and compress operations only, not "@
                    + j.operation,
            ),
            t,
        )
    } else {
        copy_operation_resumed(j, t)
    }
}

impl OperationJournal {
    /// Recovers an operation by going on with it.
    pub fn recover_resume(&self, talk: &mut Talk) -> (r: Result<OperationJournal, String>)
        ensures
            (journal_outcome(r), final(talk)@) == recovered_forward(self@, old(talk)@),
    {
        if !self.needs_recovery() {
            return Err(
                cat5(
                    "recover: operation ",
                    self.id.as_str(),
                    " has status '",
                    self.status.as_str(),
                    "' and does not need recovery",
                ),
            );
        }
        if same(self.operation.as_str(), "compress") {
            return self.resume_archives(talk);
        }
        if !same(self.operation.as_str(), "copy") {
            return Err(
                cat2(
                    "recover: --resume currently supports copy and compress operations only, not ",
                    self.operation.as_str(),
                ),
            );
        }
        self.resume_copies(talk)
    }

    fn resume_copies(&self, talk: &mut Talk) -> (r: Result<OperationJournal, String>)
        ensures
            (journal_outcome(r), final(talk)@) == copy_operation_resumed(self@, old(talk)@),
    {
        if !self.resume_supported {
            return Err(
                cat3(
                    "recover: operation ",
                    self.id.as_str(),
                    " predates persisted resume intent; use --rollback",
                ),
            );
        }
        if !self.undo_safe {
            return Err(
                cat3(
                    "recover: operation ",
                    self.id.as_str(),
                    " replaced existing destinations and cannot be safely resumed",
                ),
            );
        }
        match check_roles(
            &self.outputs,
            "copy",
            "copy",
            "recover: completed copy drift",
            talk,
        ) {
            Err(e) => return Err(e),
            Ok(_) => {},
        }
        let mut resumed = self.copy();
        let ghost all = self@.steps;
        let ghost (j0, t0) = (resumed@, talk@);
        let mut i: usize = 0;
        while i < self.remaining_steps.len()
            invariant
                i <= self.remaining_steps@.len(),
                all == step_views(self.remaining_steps@),
                copies_resumed(all, 0, j0, t0) == copies_resumed(all, i as int, resumed@, talk@),
                copy_operation_resumed(self@, old(talk)@) == ({
                    let (r, j1, t2) = copies_resumed(all, 0, j0, t0);
                    match r {
                        Err(e) => (Err::<JournalView, Seq<char>>(e), t2),
                        Ok(_) => resume_finished(j1, j1.steps.len() > 0, "remaining steps"@, t2),
                    }
                }),
            decreases self.remaining_steps@.len() - i,
        {
            assert(all[i as int] == self.remaining_steps@[i as int]@);
            match resume_copy(&self.remaining_steps[i], &mut resumed, talk) {
                Err(e) => return Err(e),
                Ok(_) => {},
            }
            i = i + 1;
        }
        assert(resumed@.steps.len() == resumed.remaining_steps@.len());
        let left = resumed.remaining_steps.len() > 0;
        finish_resume(resumed, left, "remaining steps", talk)
    }

    fn resume_archives(&self, talk: &mut Talk) -> (r: Result<OperationJournal, String>)
        ensures
            (journal_outcome(r), final(talk)@) == archive_operation_resumed(self@, old(talk)@),
    {
        if !self.resume_supported {
            return Err(
                cat3(
                    "recover: operation ",
                    self.id.as_str(),
                    " predates persisted archive intent; use --rollback",
                ),
            );
        }
        if !self.undo_safe {
            return Err(
                cat3(
                    "recover: operation ",
                    self.id.as_str(),
                    " replaced existing destinations and cannot be safely resumed",
                ),
            );
        }
        match check_roles(
            &self.outputs,
            "archive",
            "backup",
            "recover: completed archive output drift",
            talk,
        ) {
            Err(e) => return Err(e),
            Ok(_) => {},
        }
        let mut resumed = self.copy();
        let ghost all = self@.archives;
        let ghost (j0, t0) = (resumed@, talk@);
        let mut i: usize = 0;
        while i < self.remaining_archives.len()
            invariant
                i <= self.remaining_archives@.len(),
                all == item_views(self.remaining_archives@),
                archives_resumed(all, 0, j0, t0) == archives_resumed(
                    all,
                    i as int,
                    resumed@,
                    talk@,
                ),
                archive_operation_resumed(self@, old(talk)@) == ({
                    let (r, j1, t2) = archives_resumed(all, 0, j0, t0);
                    match r {
                        Err(e) => (Err::<JournalView, Seq<char>>(e), t2),
                        Ok(_) => resume_finished(
                            j1,
                            j1.archives.len() > 0,
                            "archive steps"@,
                            t2,
                        ),
                    }
                }),
            decreases self.remaining_archives@.len() - i,
        {
            assert(all[i as int] == self.remaining_archives@[i as int]@);
            match resume_archive(&self.remaining_archives[i], &mut resumed, talk) {
                Err(e) => return Err(e),
                Ok(_) => {},
            }
            i = i + 1;
        }
        assert(resumed@.archives.len() == resumed.remaining_archives@.len());
        let left = resumed.remaining_archives.len() > 0;
        finish_resume(resumed, left, "archive steps", talk)
    }
}

// ---------------------------------------------------------------------------
// Laws
// ---------------------------------------------------------------------------

/// An operation that replaces something is never marked as safe to undo, and
/// a deletion never is.
pub proof fn law_replacing_is_not_undoable(plan: PlanView, t: TalkView)
    ensures
        plan.operation matches PlannedView::Copy(items) && !all_fresh(items)
            ==> !first_journal(plan, t).0.undo_safe,
        plan.operation matches PlannedView::Move(items) && !all_fresh(items)
            ==> !first_journal(plan, t).0.undo_safe,
        plan.operation is Delete ==> !first_journal(plan, t).0.undo_safe,
{
}

/// What is undone can not be undone again, and needs no recovery.
pub proof fn law_undone_once(j: JournalView, t: TalkView, later: TalkView)
    requires
        undone(j, t).0 is Ok,
    ensures
        undone(undone(j, t).0->Ok_0, later).0 is Err,
        undone(undone(j, t).0->Ok_0, later).1 == later,
        !unfinished(undone(j, t).0->Ok_0.status),
{
    reveal_strlit("undone");
    reveal_strlit("applied");
    reveal_strlit("in_progress");
    reveal_strlit("partially_applied");
    reveal_strlit("failed");
    assert("undone"@.len() == 6);
    assert("applied"@.len() == 7);
    assert("in_progress"@.len() == 11);
    assert("partially_applied"@.len() == 17);
    assert("undone"@[0] == 'u');
    assert("failed"@[0] == 'f');
}

proof fn lemma_final_states()
    ensures
        !unfinished("rolled_back"@),
        !unfinished("applied"@),
{
    reveal_strlit("rolled_back");
    reveal_strlit("applied");
    reveal_strlit("in_progress");
    reveal_strlit("partially_applied");
    reveal_strlit("failed");
    assert("rolled_back"@.len() == 11);
    assert("applied"@.len() == 7);
    assert("in_progress"@.len() == 11);
    assert("partially_applied"@.len() == 17);
    assert("failed"@.len() == 6);
    assert("rolled_back"@[0] == 'r');
    assert("in_progress"@[0] == 'i');
}

proof fn lemma_rollback_end(j: JournalView, t: TalkView)
    ensures
        rollback_done(j, t).0 matches Ok(after) ==> after.status == "rolled_back"@ && after.staging
            == j.staging,
{
}

proof fn lemma_resume_end(j: JournalView, left: bool, what: Seq<char>, t: TalkView)
    ensures
        resume_finished(j, left, what, t).0 matches Ok(after) ==> after.status == "applied"@
            && after.staging.len() == 0,
{
}

/// A recovery by rolling back that succeeds leaves nothing to recover.
pub proof fn law_recovery_back_is_final(j: JournalView, t: TalkView)
    ensures
        recovered_back(j, t).0 matches Ok(after) ==> after.status == "rolled_back"@ && !unfinished(
            after.status,
        ) && after.staging.len() == 0,
{
    lemma_final_states();
    let (a, t1) = all_accounted(j.outputs, j.outputs.len() as int, j.staging, t);
    if a is Ok {
        let (s, t2) = staging_removed(j.staging, 0, t1);
        lemma_rollback_end(JournalView { outputs: a->Ok_0, staging: Seq::empty(), ..j }, t2);
    }
}

/// A recovery by going on that succeeds leaves nothing to recover.
pub proof fn law_recovery_forward_is_final(j: JournalView, t: TalkView)
    ensures
        recovered_forward(j, t).0 matches Ok(after) ==> after.status == "applied"@ && !unfinished(
            after.status,
        ) && after.staging.len() == 0,
{
    lemma_final_states();
    lemma_copies_end(j, t);
    lemma_archives_end(j, t);
}

proof fn lemma_copies_end(j: JournalView, t: TalkView)
    ensures
        copy_operation_resumed(j, t).0 matches Ok(after) ==> after.status == "applied"@
            && after.staging.len() == 0,
{
    let (c, t1) = roles_unchanged(
        j.outputs,
        0,
        "copy"@,
        "copy"@,
        "recover: completed copy drift"@,
        t,
    );
    let (r, j1, t2) = copies_resumed(j.steps, 0, j, t1);
    lemma_resume_end(j1, j1.steps.len() > 0, "remaining steps"@, t2);
}

proof fn lemma_archives_end(j: JournalView, t: TalkView)
    ensures
        archive_operation_resumed(j, t).0 matches Ok(after) ==> after.status == "applied"@
            && after.staging.len() == 0,
{
    let (c, t1) = roles_unchanged(
        j.outputs,
        0,
        "archive"@,
        "backup"@,
        "recover: completed archive output drift"@,
        t,
    );
    let (r, j1, t2) = archives_resumed(j.archives, 0, j, t1);
    lemma_resume_end(j1, j1.archives.len() > 0, "archive steps"@, t2);
}

/// The name of a kind of file leads back to the kind.
pub proof fn law_kind_reads_back(kind: FileKind)
    ensures
        kind_named(kind_text(kind)) == kind,
{
    reveal_strlit("file");
    reveal_strlit("directory");
    reveal_strlit("symlink");
    reveal_strlit("other");
    assert("file"@.len() == 4);
    assert("directory"@.len() == 9);
    assert("symlink"@.len() == 7);
    assert("other"@.len() == 5);
}

/// A plan to transfer files names each of them in order, by what was known of
/// it, with the place that it goes to below the destination. It is made only
/// of files, none of which stays where it is, and no two go to the same place.
#[verifier::spinoff_prover]
#[verifier::rlimit(40)]
pub proof fn law_plans_name_every_file(
    files: Seq<FileRecordView>,
    n: int,
    destination: Seq<char>,
    operation: Seq<char>,
    t: TalkView,
)
    requires
        0 <= n <= files.len(),
        transfer_planned(files, n, destination, operation, t).0 is Ok,
    ensures
        ({
            let (items, seen) = transfer_planned(files, n, destination, operation, t).0->Ok_0;
            &&& items.len() == n
            &&& seen.len() == n
            &&& forall|k: int|
                0 <= k < n ==> (#[trigger] items[k]).source == files[k] && items[k].destination
                    == paths::target_below(destination, files[k].path) && files[k].kind
                    == FileKind::File && !paths::same_path(files[k].path, items[k].destination)
            &&& forall|k: int|
                0 <= k < n ==> #[trigger] seen[k] == methods::lower(items[k].destination)
            &&& forall|a: int, b: int|
                0 <= a < b < n ==> #[trigger] seen[a] != #[trigger] seen[b]
        }),
    decreases n,
{
    if n > 0 {
        law_plans_name_every_file(files, n - 1, destination, operation, t);
        let (before, held) = transfer_planned(
            files,
            n - 1,
            destination,
            operation,
            t,
        ).0->Ok_0;
        let (items, seen) = transfer_planned(files, n, destination, operation, t).0->Ok_0;
        assert(items =~= before.push(items[n - 1]));
        assert(seen =~= held.push(seen[n - 1]));
        assert forall|k: int| 0 <= k < n implies (#[trigger] items[k]).source == files[k]
            && items[k].destination == paths::target_below(destination, files[k].path)
            && files[k].kind == FileKind::File && !paths::same_path(
            files[k].path,
            items[k].destination,
        ) by {
            if k < n - 1 {
                assert(items[k] == before[k]);
            }
        }
        assert forall|k: int| 0 <= k < n implies #[trigger] seen[k] == methods::lower(
            items[k].destination,
        ) by {
            if k < n - 1 {
                assert(seen[k] == held[k] && items[k] == before[k]);
            }
        }
        assert forall|a: int, b: int| 0 <= a < b < n implies #[trigger] seen[a]
            != #[trigger] seen[b] by {
            assert(seen[a] == held[a]);
            if b < n - 1 {
                assert(seen[b] == held[b]);
            } else {
                assert(held.contains(held[a]));
            }
        }
    }
}

/// A record holds of its file exactly where the file can be read and is still
/// the same, of the same kind and size, and was not modified since.
pub proof fn law_records_are_held_against_files(
    expected: FileRecordView,
    label: Seq<char>,
    t: TalkView,
)
    ensures
        validated(expected, label, t).0 is Ok <==> (fileset::inspected(
            expected.path,
            None,
            t,
        ).0 matches Ok(f) && f.identity == expected.identity && f.kind == expected.kind && f.size
            == expected.size && f.modified == expected.modified),
        validated(expected, label, t).1 == dialog::asked(
            t,
            RequestView::Inspect(expected.path),
        ).1,
{
}

/// An operation can be undone only where it replaces nothing: a transfer where
/// nothing is at any destination, an archive where neither it nor its backup
/// is there, and a deletion never.
pub proof fn law_what_replaces_nothing_can_be_undone(
    plan: PlanView,
    items: Seq<TransferItemView>,
    k: int,
    t: TalkView,
)
    ensures
        plan.operation is Delete ==> !first_journal(plan, t).0.undo_safe,
        (plan.operation == PlannedView::Copy(items) || plan.operation == PlannedView::Move(items))
            && 0 <= k < items.len() && items[k].before is Some ==> !first_journal(
            plan,
            t,
        ).0.undo_safe,
        (plan.operation == PlannedView::Copy(items) || plan.operation == PlannedView::Move(items))
            && (forall|m: int| 0 <= m < items.len() ==> (#[trigger] items[m]).before is None)
            ==> first_journal(plan, t).0.undo_safe,
        first_journal(plan, t).0.outputs.len() == 0,
        first_journal(plan, t).0.status == "in_progress"@,
        first_journal(plan, t).0.plan_id == plan.id,
{
    assert(0 <= k < items.len() && items[k].before is Some ==> !all_fresh(items));
}

/// A journal begins with every transfer and every archive left to make, and
/// tells what operation it is of.
pub proof fn law_journals_begin_with_everything_left(plan: PlanView, t: TalkView)
    ensures
        ({
            let j = first_journal(plan, t).0;
            match plan.operation {
                PlannedView::Copy(items) => j.operation == "copy"@ && j.steps.len() == items.len()
                    && forall|k: int|
                    0 <= k < items.len() ==> (#[trigger] j.steps[k]).source == items[k].source
                        && j.steps[k].destination == items[k].destination && j.steps[k].operation
                        == "copy"@,
                PlannedView::Move(items) => j.operation == "move"@ && j.steps.len() == items.len()
                    && forall|k: int|
                    0 <= k < items.len() ==> (#[trigger] j.steps[k]).source == items[k].source
                        && j.steps[k].destination == items[k].destination && j.steps[k].operation
                        == "move"@,
                PlannedView::Archive(p) => j.operation == "compress"@ && j.archives == p.items,
                PlannedView::Delete(_, _) => j.operation == "delete"@ && !j.resume_supported,
            }
        }),
{
}

/// A plan is shown with one row for each item, which names the plan, the
/// operation and the paths, and says whether something is at the destination.
pub proof fn law_plans_are_shown_by_item(plan: PlanView, k: int)
    ensures
        ({
            let rows = plan_rows(plan);
            let transfer = |items: Seq<TransferItemView>, name: Seq<char>|
                rows.len() == items.len() && (0 <= k < items.len() ==> rows[k] == seq![
                    ("plan_id"@, plan.id),
                    ("operation"@, name),
                    ("source"@, items[k].source.path),
                    ("destination"@, items[k].destination),
                    (
                        "destination_exists"@,
                        if items[k].before is Some {
                            "true"@
                        } else {
                            "false"@
                        },
                    ),
                ]);
            match plan.operation {
                PlannedView::Copy(items) => transfer(items, "copy"@),
                PlannedView::Move(items) => transfer(items, "move"@),
                PlannedView::Archive(p) => rows.len() == p.preview.len(),
                PlannedView::Delete(items, options) => rows.len() == items.len() && (0 <= k
                    < items.len() ==> rows[k][0] == ("plan_id"@, plan.id) && rows[k][1] == (
                    "operation"@,
                    "delete"@,
                ) && rows[k][2] == ("path"@, items[k].path)),
            }
        }),
{
    match plan.operation {
        PlannedView::Copy(items) => if 0 <= k < items.len() {
            let row = transfer_row(items[k], "copy"@);
            assert(behind_plan(plan.id, row) =~= seq![
                ("plan_id"@, plan.id),
                row[0],
                row[1],
                row[2],
                row[3],
            ]);
        },
        PlannedView::Move(items) => if 0 <= k < items.len() {
            let row = transfer_row(items[k], "move"@);
            assert(behind_plan(plan.id, row) =~= seq![
                ("plan_id"@, plan.id),
                row[0],
                row[1],
                row[2],
                row[3],
            ]);
        },
        _ => {},
    }
}

/// An operation that fails leaves a journal that says so, with the message,
/// and the message names the journal.
pub proof fn law_failures_are_recorded(plan: PlanView, t: TalkView)
    requires
        ({
            let (j0, t1) = first_journal(plan, t);
            let (s, t2) = saved(j0, t1);
            s is Ok && carried_out(plan, j0, t2).0 is Err
        }),
    ensures
        ({
            let (j0, t1) = first_journal(plan, t);
            let (s, t2) = saved(j0, t1);
            let (r, j1, t3) = carried_out(plan, j0, t2);
            let (now, t4) = clock(t3);
            let e = r->Err_0;
            &&& applied(plan, t).0 == Err::<JournalView, Seq<char>>(
                e + " (journal "@ + j1.id + ")"@,
            )
            &&& exists|j: JournalView|
                j.error == Some(e) && j.finished_at == now && j.outputs == j1.outputs && (
                j1.status != "in_progress"@ ==> j.status == j1.status) && (j1.status
                    == "in_progress"@ ==> j.status == "failed"@) && applied(plan, t).1
                    == #[trigger] dialog::asked(t4, RequestView::SaveJournal(j)).1
        }),
{
    let (j0, t1) = first_journal(plan, t);
    let (s, t2) = saved(j0, t1);
    let (r, j1, t3) = carried_out(plan, j0, t2);
    let (now, t4) = clock(t3);
    let j2 = JournalView {
        status: if j1.status == "in_progress"@ {
            "failed"@
        } else {
            j1.status
        },
        error: Some(r->Err_0),
        finished_at: now,
        ..j1
    };
    assert(applied(plan, t).1 == dialog::asked(t4, RequestView::SaveJournal(j2)).1);
}

proof fn lemma_deletable_behind(f: FileRecordView, files: Seq<FileRecordView>, i: int, options: DeleteOptions, t: TalkView)
    requires
        0 <= i,
    ensures
        deletable(seq![f] + files, i + 1, options, t) == deletable(files, i, options, t),
    decreases files.len() - i,
{
    if i < files.len() {
        assert((seq![f] + files)[i + 1] == files[i]);
        let t1 = delete::plan_checked(files[i].path, options, t).1;
        lemma_deletable_behind(f, files, i + 1, options, t1);
    }
}

/// Files can be deleted together exactly when the first can be and then the
/// others: one that cannot be refuses them all.
pub proof fn law_one_refusal_refuses_all(
    f: FileRecordView,
    files: Seq<FileRecordView>,
    options: DeleteOptions,
    t: TalkView,
)
    ensures
        ({
            let (first, t1) = delete::plan_checked(f.path, options, t);
            let (rest, t2) = deletable(files, 0, options, t1);
            let all = deletable(seq![f] + files, 0, options, t);
            &&& all.0 is Ok <==> first is Ok && rest is Ok
            &&& first is Err ==> all == (first, t1)
            &&& first is Ok ==> all == (rest, t2)
        }),
        deletable(Seq::empty(), 0, options, t).0 is Ok,
{
    assert((seq![f] + files)[0] == f);
    lemma_deletable_behind(f, files, 0, options, delete::plan_checked(f.path, options, t).1);
}

/// A journal is shown with one row for each output, which tells of the
/// operation and of that output.
pub proof fn law_journals_are_shown_by_output(j: JournalView, k: int)
    requires
        0 <= k < j.outputs.len(),
    ensures
        ({
            let rows = journal_rows(j);
            let o = j.outputs[k];
            &&& rows.len() == j.outputs.len()
            &&& rows[k].len() == 11
            &&& rows[k][0] == ("operation_id"@, j.id) && rows[k][1] == ("plan_id"@, j.plan_id)
            &&& rows[k][2] == ("operation"@, j.operation) && rows[k][3] == ("status"@, j.status)
            &&& rows[k][4] == ("role"@, o.role) && rows[k][5] == ("path"@, o.record.path)
            &&& o.original is Some ==> rows[k][6] == ("original_path"@, o.original->0)
            &&& o.original is None ==> rows[k][6].1.len() == 0
            &&& text::int_of_text(rows[k][7].1) == Some(o.record.size as int)
            &&& rows[k][8] == ("undo_safe"@, if j.undo_safe {
                "true"@
            } else {
                "false"@
            })
            &&& text::int_of_text(rows[k][9].1) == Some(j.started_at as int)
            &&& text::int_of_text(rows[k][10].1) == Some(j.finished_at as int)
        }),
{
    text::law_int_text_reads_back(j.outputs[k].record.size as int);
    text::law_int_text_reads_back(j.started_at as int);
    text::law_int_text_reads_back(j.finished_at as int);
}

} // verus!
