//! `compress`: packing files by name, or those that a table lists, into one
//! archive.
//!
//! Workers pack the files into small archives, a few at a time; their entries
//! are then taken over into the archive, one after the other. A file that
//! cannot be packed is reported and skipped; an interrupt removes the archive
//! again.

use crate::copy;
use crate::copy::make_parent;
use crate::dialog;
use crate::dialog::{
    Action, ActionView, Answer, AnswerView, Request, RequestView, Talk, TalkView,
};
use crate::fileset;
use crate::flags;
use crate::flags::parse_force_flags;
use crate::fs_builtins;
use crate::methods;
use crate::paths;
use crate::paths::{below, file_name, parts};
use crate::table;
use crate::table::{cell, Table};
use crate::text;
use crate::text::{cat2, cat3, cat4, has_prefix, join_texts, same, u64_text};
use vstd::prelude::*;

verus! {

/// The usage of `compress`.
pub open spec fn compress_usage() -> Seq<char> {
    "compress: usage: compress [--force] SRC... DEST.zip  |  TABLE | compress [--force] DEST.zip"@
}

/// What the arguments of `compress` say.
pub open spec fn compress_flags(args: Seq<Seq<char>>) -> Result<
    (bool, Seq<Seq<char>>),
    Seq<char>,
> {
    flags::force_flags(args, args.len() as int, "compress"@, compress_usage(), "--"@)
}

/// Splits the options from the other arguments of `compress`.
pub fn parse_flags(args: &[String]) -> (r: Result<(bool, Vec<String>), String>)
    ensures
        flags::flags_outcome(r) == compress_flags(text::texts(args@)),
{
    parse_force_flags(
        args,
        "compress",
        "compress: usage: compress [--force] SRC... DEST.zip  |  TABLE | compress [--force] DEST.zip",
        "--",
    )
}

/// What `compress` as a stage of a pipeline is to do.
#[derive(Debug, Clone, PartialEq, Eq)]
pub struct PackOptions {
    pub force: bool,
    /// One archive for each root of a set of files.
    pub per_root: bool,
    /// Only the plan is wanted.
    pub plan_only: bool,
    pub apply: bool,
    /// Where a copy of each archive is kept.
    pub backup: Option<String>,
    pub positional: Vec<String>,
}

/// What `compress` as a stage of a pipeline is to do.
#[verifier::ext_equal]
pub struct PackOptionsView {
    pub force: bool,
    pub per_root: bool,
    pub plan_only: bool,
    pub apply: bool,
    pub backup: Option<Seq<char>>,
    pub positional: Seq<Seq<char>>,
}

impl View for PackOptions {
    type V = PackOptionsView;

    open spec fn view(&self) -> PackOptionsView {
        PackOptionsView {
            force: self.force,
            per_root: self.per_root,
            plan_only: self.plan_only,
            apply: self.apply,
            backup: fileset::opt_text(self.backup),
            positional: text::texts(self.positional@),
        }
    }
}

/// What `compress` does unless it is told otherwise.
pub open spec fn plain_options() -> PackOptionsView {
    PackOptionsView {
        force: false,
        per_root: false,
        plan_only: false,
        apply: false,
        backup: None,
        positional: Seq::empty(),
    }
}

/// What the arguments of `compress` as a stage of a pipeline say from `i` on.
pub open spec fn pipeline_words(args: Seq<Seq<char>>, i: int, o: PackOptionsView) -> Result<
    PackOptionsView,
    Seq<char>,
>
    decreases args.len() - i,
{
    if i < 0 || i >= args.len() {
        Ok(o)
    } else {
        let arg = args[i];
        if arg == "--force"@ || arg == "-f"@ {
            pipeline_words(args, i + 1, PackOptionsView { force: true, ..o })
        } else if arg == "--per-root"@ {
            pipeline_words(args, i + 1, PackOptionsView { per_root: true, ..o })
        } else if arg == "--plan"@ {
            pipeline_words(args, i + 1, PackOptionsView { plan_only: true, ..o })
        } else if arg == "--apply"@ {
            pipeline_words(args, i + 1, PackOptionsView { apply: true, ..o })
        } else if arg == "--backup"@ {
            if i + 1 < args.len() {
                pipeline_words(args, i + 2, PackOptionsView { backup: Some(args[i + 1]), ..o })
            } else {
                Err("compress: --backup requires a directory"@)
            }
        } else if arg == "--help"@ || arg == "-h"@ {
            Err(compress_usage())
        } else if text::begins_with(arg, "--"@) {
            Err("compress: unknown option: "@ + arg)
        } else {
            pipeline_words(
                args,
                i + 1,
                PackOptionsView { positional: o.positional.push(arg), ..o },
            )
        }
    }
}

/// What reading the arguments of a stage gives.
pub open spec fn options_outcome(r: Result<PackOptions, String>) -> Result<
    PackOptionsView,
    Seq<char>,
> {
    match r {
        Ok(o) => Ok(o@),
        Err(e) => Err(e@),
    }
}

/// Reads the arguments of `compress` as a stage of a pipeline.
pub fn parse_pipeline_flags(args: &[String]) -> (r: Result<PackOptions, String>)
    ensures
        options_outcome(r) == pipeline_words(text::texts(args@), 0, plain_options()),
{
    let ghost all = text::texts(args@);
    let mut o = PackOptions {
        force: false,
        per_root: false,
        plan_only: false,
        apply: false,
        backup: None,
        positional: Vec::new(),
    };
    assert(text::texts(o.positional@) =~= Seq::<Seq<char>>::empty());
    assert(o@ =~= plain_options());
    let mut i: usize = 0;
    while i < args.len()
        invariant
            i <= args@.len(),
            all == text::texts(args@),
            pipeline_words(all, 0, plain_options()) == pipeline_words(all, i as int, o@),
        decreases args@.len() - i,
    {
        let arg = args[i].as_str();
        assert(all[i as int] == arg@);
        let ghost before = o@;
        if same(arg, "--force") || same(arg, "-f") {
            o.force = true;
            assert(o@ =~= (PackOptionsView { force: true, ..before }));
        } else if same(arg, "--per-root") {
            o.per_root = true;
            assert(o@ =~= (PackOptionsView { per_root: true, ..before }));
        } else if same(arg, "--plan") {
            o.plan_only = true;
            assert(o@ =~= (PackOptionsView { plan_only: true, ..before }));
        } else if same(arg, "--apply") {
            o.apply = true;
            assert(o@ =~= (PackOptionsView { apply: true, ..before }));
        } else if same(arg, "--backup") {
            if i + 1 < args.len() {
                assert(all[i + 1] == args@[i + 1]@);
                o.backup = Some(args[i + 1].clone());
                assert(o@ =~= (PackOptionsView { backup: Some(all[i + 1]), ..before }));
                i = i + 1;
            } else {
                return Err("compress: --backup requires a directory".to_owned());
            }
        } else if same(arg, "--help") || same(arg, "-h") {
            return Err(
                "compress: usage: compress [--force] SRC... DEST.zip  |  TABLE | compress [--force] DEST.zip".to_owned(),
            );
        } else if has_prefix(arg, "--") {
            return Err(cat2("compress: unknown option: ", arg));
        } else {
            let word = args[i].clone();
            proof {
                text::lemma_texts_push(o.positional@, word);
            }
            o.positional.push(word);
            assert(o@ =~= (PackOptionsView {
                positional: before.positional.push(arg@),
                ..before
            }));
        }
        i = i + 1;
    }
    Ok(o)
}

// ---------------------------------------------------------------------------
// Entry names
// ---------------------------------------------------------------------------

/// The parts of a list that are not `..`.
pub open spec fn plain_parts(list: Seq<Seq<char>>) -> Seq<Seq<char>>
    decreases list.len(),
{
    if list.len() == 0 {
        Seq::empty()
    } else {
        let rest = plain_parts(list.drop_last());
        if list.last() == ".."@ {
            rest
        } else {
            rest.push(list.last())
        }
    }
}

/// The name that a path goes by inside an archive: its plain parts with `/`
/// between them.
pub open spec fn entry_name(path: Seq<char>) -> Seq<char> {
    text::joined(plain_parts(paths::parts_of(path)), "/"@)
}

/// The name that a path goes by inside an archive.
pub fn table_row_entry_name(path: &str) -> (r: String)
    ensures
        r@ == entry_name(path@),
{
    let list = parts(path);
    let ghost all = text::texts(list@);
    let mut kept: Vec<String> = Vec::new();
    let mut i: usize = 0;
    assert(all.take(0) =~= Seq::<Seq<char>>::empty());
    assert(text::texts(kept@) =~= Seq::<Seq<char>>::empty());
    while i < list.len()
        invariant
            i <= list@.len(),
            all == text::texts(list@),
            text::texts(kept@) == plain_parts(all.take(i as int)),
        decreases list@.len() - i,
    {
        assert(all.take(i + 1).drop_last() =~= all.take(i as int));
        assert(all.take(i + 1).last() == list@[i as int]@);
        if !same(list[i].as_str(), "..") {
            let p = list[i].clone();
            proof {
                text::lemma_texts_push(kept@, p);
            }
            kept.push(p);
        }
        i = i + 1;
    }
    assert(all.take(list@.len() as int) =~= all);
    join_texts(&kept, "/")
}

// ---------------------------------------------------------------------------
// Packing
// ---------------------------------------------------------------------------

/// What the names and paths of a list of entries are.
pub open spec fn pair_views(list: Seq<(String, String)>) -> Seq<(Seq<char>, Seq<char>)> {
    Seq::new(list.len(), |i: int| (list[i].0@, list[i].1@))
}

/// The line that sums packing up.
pub open spec fn compress_summary(compressed: nat, skipped: nat) -> Seq<char> {
    let head = "ion-win: compress: compressed "@ + text::nat_text(compressed) + " file(s)"@;
    if skipped > 0 {
        head + ", skipped "@ + text::nat_text(skipped)
    } else {
        head
    }
}

fn summary(compressed: usize, skipped: usize) -> (r: String)
    ensures
        r@ == compress_summary(compressed as nat, skipped as nat),
{
    let n = u64_text(compressed as u64);
    let head = cat3("ion-win: compress: compressed ", n.as_str(), " file(s)");
    if skipped > 0 {
        let m = u64_text(skipped as u64);
        cat3(head.as_str(), ", skipped ", m.as_str())
    } else {
        head
    }
}

/// The small archives of the `n` entries from `i` on, once a worker was put
/// to each.
pub open spec fn started(
    entries: Seq<(Seq<char>, Seq<char>)>,
    i: int,
    n: int,
    temp: Seq<char>,
    t: TalkView,
) -> (Seq<Seq<char>>, TalkView)
    decreases n,
{
    if n <= 0 {
        (Seq::empty(), t)
    } else {
        let (before, t1) = started(entries, i, n - 1, temp, t);
        let (a, t2) = dialog::asked(t1, RequestView::Sequence);
        let small = fs_builtins::path_below(
            temp,
            text::nat_text(a.as_number() as nat) + ".zip"@,
        );
        let (name, src) = entries[i + n - 1];
        (before.push(small), dialog::asked(t2, RequestView::Pack(src, name, small)).1)
    }
}

fn start_workers(
    entries: &[(String, String)],
    from: usize,
    to: usize,
    temp: &str,
    talk: &mut Talk,
) -> (r: Vec<String>)
    requires
        from <= to <= entries@.len(),
    ensures
        (text::texts(r@), final(talk)@) == started(
            pair_views(entries@),
            from as int,
            to - from,
            temp@,
            old(talk)@,
        ),
        r@.len() == to - from,
{
    let ghost all = pair_views(entries@);
    let ghost start = talk@;
    let mut out: Vec<String> = Vec::new();
    assert(text::texts(out@) =~= Seq::<Seq<char>>::empty());
    let mut k: usize = from;
    while k < to
        invariant
            from <= k <= to <= entries@.len(),
            all == pair_views(entries@),
            out@.len() == k - from,
            (text::texts(out@), talk@) == started(all, from as int, k - from, temp@, start),
        decreases to - k,
    {
        assert(all[k as int] == (entries@[k as int].0@, entries@[k as int].1@));
        let id = talk.ask(Request::Sequence).number();
        let number = u64_text(id);
        let name = cat2(number.as_str(), ".zip");
        let small = below(temp, name.as_str());
        let _started = talk.ask(
            Request::Pack(entries[k].1.clone(), entries[k].0.clone(), small.clone()),
        );
        proof {
            text::lemma_texts_push(out@, small);
        }
        out.push(small);
        k = k + 1;
    }
    out
}

/// How far packing has come: how many files were packed and skipped, and
/// whether it was interrupted.
#[derive(Debug, Clone, Copy)]
pub struct Tally {
    pub compressed: usize,
    pub skipped: usize,
    pub interrupted: bool,
}

/// How far packing has come.
pub struct TallyView {
    pub compressed: nat,
    pub skipped: nat,
    pub interrupted: bool,
}

impl View for Tally {
    type V = TallyView;

    open spec fn view(&self) -> TallyView {
        TallyView {
            compressed: self.compressed as nat,
            skipped: self.skipped as nat,
            interrupted: self.interrupted,
        }
    }
}

/// What collecting one small archive gives.
pub open spec fn collected(small: Seq<char>, n: TallyView, t: TalkView) -> (TallyView, TalkView) {
    let (a, t1) = dialog::asked(t, RequestView::AwaitPack(small));
    match a {
        AnswerView::Text(e) => (
            TallyView { skipped: n.skipped + 1, ..n },
            dialog::noted(t1, "ion-win: compress: task failed: "@ + e),
        ),
        AnswerView::Failure(e) => {
            let (n1, t2) = if e == "interrupted"@ {
                (TallyView { interrupted: true, ..n }, t1)
            } else {
                (
                    TallyView { skipped: n.skipped + 1, ..n },
                    dialog::noted(t1, "ion-win: compress: "@ + e),
                )
            };
            (n1, dialog::acted(t2, ActionView::RemoveFile(small)).1)
        },
        _ => {
            let (b, t2) = dialog::asked(t1, RequestView::Interrupted);
            if b.as_truth() {
                (
                    TallyView { interrupted: true, ..n },
                    dialog::acted(t2, ActionView::RemoveFile(small)).1,
                )
            } else {
                let (r, t3) = dialog::acted(t2, ActionView::AddEntry(small));
                let (n1, t4) = match r {
                    Ok(_) => (TallyView { compressed: n.compressed + 1, ..n }, t3),
                    Err(e) => (
                        TallyView { skipped: n.skipped + 1, ..n },
                        dialog::noted(t3, "ion-win: compress: "@ + e),
                    ),
                };
                (n1, dialog::acted(t4, ActionView::RemoveFile(small)).1)
            }
        },
    }
}

fn collect(small: &str, n: &mut Tally, talk: &mut Talk)
    requires
        old(n).compressed < usize::MAX,
        old(n).skipped < usize::MAX,
    ensures
        (final(n)@, final(talk)@) == collected(small@, old(n)@, old(talk)@),
        final(n).compressed + final(n).skipped <= old(n).compressed + old(n).skipped + 1,
{
    match talk.ask(Request::AwaitPack(small.to_owned())) {
        Answer::Text(e) => {
            talk.note(cat2("ion-win: compress: task failed: ", e.as_str()));
            n.skipped = n.skipped + 1;
            return;
        },
        Answer::Failure(e) => if same(e.as_str(), "interrupted") {
            n.interrupted = true;
        } else {
            talk.note(cat2("ion-win: compress: ", e.as_str()));
            n.skipped = n.skipped + 1;
        },
        _ => if talk.ask(Request::Interrupted).truth() {
            n.interrupted = true;
        } else {
            match talk.act(Action::AddEntry(small.to_owned())) {
                Ok(_) => {
                    n.compressed = n.compressed + 1;
                },
                Err(e) => {
                    talk.note(cat2("ion-win: compress: ", e.as_str()));
                    n.skipped = n.skipped + 1;
                },
            }
        },
    }
    let _ignored = talk.act(Action::RemoveFile(small.to_owned()));
}

/// What collecting the first `k` small archives gives.
pub open spec fn all_collected(smalls: Seq<Seq<char>>, k: int, n: TallyView, t: TalkView) -> (
    TallyView,
    TalkView,
)
    decreases k,
{
    if k <= 0 {
        (n, t)
    } else {
        let (n1, t1) = all_collected(smalls, k - 1, n, t);
        collected(smalls[k - 1], n1, t1)
    }
}

fn collect_all(smalls: &[String], n: &mut Tally, talk: &mut Talk)
    requires
        old(n).compressed + old(n).skipped + smalls@.len() <= usize::MAX,
    ensures
        (final(n)@, final(talk)@) == all_collected(
            text::texts(smalls@),
            smalls@.len() as int,
            old(n)@,
            old(talk)@,
        ),
        final(n).compressed + final(n).skipped <= old(n).compressed + old(n).skipped + smalls@.len(),
{
    let ghost all = text::texts(smalls@);
    let ghost (n0, t0) = (n@, talk@);
    let ghost so_far = n.compressed + n.skipped;
    let mut i: usize = 0;
    while i < smalls.len()
        invariant
            i <= smalls@.len(),
            all == text::texts(smalls@),
            n.compressed + n.skipped <= so_far + i,
            so_far + smalls@.len() <= usize::MAX,
            (n@, talk@) == all_collected(all, i as int, n0, t0),
        decreases smalls@.len() - i,
    {
        assert(all[i as int] == smalls@[i as int]@);
        collect(smalls[i].as_str(), n, talk);
        i = i + 1;
    }
}

/// What packing the entries from `i` on gives, so many at a time.
pub open spec fn rounds(
    entries: Seq<(Seq<char>, Seq<char>)>,
    i: int,
    workers: nat,
    temp: Seq<char>,
    n: TallyView,
    t: TalkView,
) -> (TallyView, TalkView)
    decreases entries.len() - i,
{
    let (a, t1) = dialog::asked(t, RequestView::Interrupted);
    if a.as_truth() {
        (TallyView { interrupted: true, ..n }, t1)
    } else if i < 0 || i >= entries.len() || workers == 0 {
        (n, t1)
    } else {
        let count = if entries.len() - i < workers {
            entries.len() - i
        } else {
            workers as int
        };
        let (smalls, t2) = started(entries, i, count, temp, t1);
        let (n1, t3) = all_collected(smalls, count, n, t2);
        if n1.interrupted {
            (n1, t3)
        } else {
            rounds(entries, i + count, workers, temp, n1, t3)
        }
    }
}

fn pack_all(
    entries: &[(String, String)],
    workers: usize,
    temp: &str,
    n: &mut Tally,
    talk: &mut Talk,
)
    requires
        !old(n).interrupted,
        workers > 0,
        old(n).compressed + old(n).skipped + entries@.len() <= usize::MAX,
    ensures
        (final(n)@, final(talk)@) == rounds(
            pair_views(entries@),
            0,
            workers as nat,
            temp@,
            old(n)@,
            old(talk)@,
        ),
{
    let ghost all = pair_views(entries@);
    let ghost (n0, t0) = (n@, talk@);
    let ghost so_far = n.compressed + n.skipped;
    let mut i: usize = 0;
    loop
        invariant
            i <= entries@.len(),
            all == pair_views(entries@),
            workers > 0,
            so_far + entries@.len() <= usize::MAX,
            n.compressed + n.skipped <= so_far + i,
            n0 == old(n)@,
            t0 == old(talk)@,
            rounds(all, 0, workers as nat, temp@, n0, t0) == rounds(
                all,
                i as int,
                workers as nat,
                temp@,
                n@,
                talk@,
            ),
        decreases entries@.len() - i,
    {
        if talk.ask(Request::Interrupted).truth() {
            n.interrupted = true;
            return;
        }
        if i >= entries.len() {
            return;
        }
        let left = entries.len() - i;
        let count = if left < workers {
            left
        } else {
            workers
        };
        let smalls = start_workers(entries, i, i + count, temp, talk);
        collect_all(&smalls, n, talk);
        if n.interrupted {
            return;
        }
        i = i + count;
    }
}

/// What packing the entries into the archive at `dest` gives, with so many
/// skipped before.
pub open spec fn packed(
    entries: Seq<(Seq<char>, Seq<char>)>,
    dest: Seq<char>,
    force: bool,
    skipped: nat,
    t: TalkView,
) -> (Seq<char>, TalkView) {
    let (there, t1) = dialog::exists_at(t, dest);
    if there && !force {
        (
            "ion-win: compress: "@ + dest
                + ": destination already exists (use --force to overwrite)"@,
            t1,
        )
    } else {
        let (made, t2) = copy::parent_made(dest, t1);
        match made {
            Err(e) => ("ion-win: compress: "@ + dest + ": "@ + e, t2),
            Ok(_) => {
                let (opened, t3) = dialog::acted(t2, ActionView::OpenArchive(dest));
                match opened {
                    Err(e) => ("ion-win: compress: "@ + dest + ": "@ + e, t3),
                    Ok(_) => packed_into(entries, dest, skipped, t3),
                }
            },
        }
    }
}

/// The directory of its own that packing works in, below the directory for
/// temporary files.
pub open spec fn work_dir(dir: Seq<char>, process: nat, number: nat) -> Seq<char> {
    fs_builtins::path_below(
        dir,
        "ion-win-compress-"@ + text::nat_text(process) + "-"@ + text::nat_text(number),
    )
}

/// What asking for such a directory gives.
pub open spec fn work_dir_found(t: TalkView) -> (Seq<char>, TalkView) {
    let (d, t1) = dialog::asked(t, RequestView::TempDirectory);
    let (process, t2) = dialog::asked(t1, RequestView::ProcessId);
    let (number, t3) = dialog::asked(t2, RequestView::Sequence);
    (
        work_dir(d.as_text(), process.as_number() as nat, number.as_number() as nat),
        t3,
    )
}

fn find_work_dir(talk: &mut Talk) -> (r: String)
    ensures
        (r@, final(talk)@) == work_dir_found(old(talk)@),
{
    let dir = talk.ask(Request::TempDirectory).into_text();
    let process = u64_text(talk.ask(Request::ProcessId).number());
    let number = u64_text(talk.ask(Request::Sequence).number());
    let name = cat4("ion-win-compress-", process.as_str(), "-", number.as_str());
    below(dir.as_str(), name.as_str())
}

/// What packing the entries into the open archive gives.
pub open spec fn packed_into(
    entries: Seq<(Seq<char>, Seq<char>)>,
    dest: Seq<char>,
    skipped: nat,
    t: TalkView,
) -> (Seq<char>, TalkView) {
    let (w, t1) = dialog::asked(t, RequestView::Workers);
    let workers = if w.as_number() == 0 {
        1
    } else {
        w.as_number() as nat
    };
    let (temp, t2) = work_dir_found(t1);
    let (made, t3) = dialog::acted(t2, ActionView::CreateDirs(temp));
    match made {
        Err(e) => {
            let t4 = dialog::acted(t3, ActionView::DropArchive).1;
            (
                "ion-win: compress: could not create temporary directory: "@ + e,
                dialog::acted(t4, ActionView::RemoveFile(dest)).1,
            )
        },
        Ok(_) => {
            let (n, t4) = rounds(
                entries,
                0,
                workers,
                temp,
                TallyView { compressed: 0, skipped, interrupted: false },
                t3,
            );
            if n.interrupted {
                let t5 = dialog::acted(t4, ActionView::DropArchive).1;
                let t6 = dialog::acted(t5, ActionView::RemoveFile(dest)).1;
                let t7 = dialog::acted(t6, ActionView::RemoveTree(temp)).1;
                (
                    "ion-win: compress: interrupted"@,
                    dialog::asked(t7, RequestView::TakeInterrupt).1,
                )
            } else {
                let (end, t5) = dialog::acted(t4, ActionView::FinishArchive);
                let t6 = dialog::acted(t5, ActionView::RemoveTree(temp)).1;
                match end {
                    Err(e) => ("ion-win: compress: "@ + dest + ": "@ + e, t6),
                    Ok(_) => (compress_summary(n.compressed, n.skipped), t6),
                }
            }
        },
    }
}

fn worker_count(talk: &mut Talk) -> (r: usize)
    ensures
        r > 0,
        ({
            let (w, t1) = dialog::asked(old(talk)@, RequestView::Workers);
            &&& final(talk)@ == t1
            &&& w.as_number() == 0 ==> r == 1
            &&& w.as_number() > 0 && w.as_number() <= usize::MAX ==> r == w.as_number()
            &&& w.as_number() > usize::MAX ==> r == usize::MAX
        }),
{
    let w = talk.ask(Request::Workers).number();
    if w == 0 {
        1
    } else if w > usize::MAX as u64 {
        usize::MAX
    } else {
        w as usize
    }
}

proof fn lemma_many_workers(
    entries: Seq<(Seq<char>, Seq<char>)>,
    i: int,
    a: nat,
    b: nat,
    temp: Seq<char>,
    n: TallyView,
    t: TalkView,
)
    requires
        0 <= i,
        entries.len() <= a,
        entries.len() <= b,
        a > 0,
        b > 0,
    ensures
        rounds(entries, i, a, temp, n, t) == rounds(entries, i, b, temp, n, t),
    decreases entries.len() - i,
{
    let (q, t1) = dialog::asked(t, RequestView::Interrupted);
    if !q.as_truth() && i < entries.len() {
        let count = entries.len() - i;
        let (smalls, t2) = started(entries, i, count, temp, t1);
        let (n1, t3) = all_collected(smalls, count, n, t2);
        if !n1.interrupted {
            lemma_many_workers(entries, i + count, a, b, temp, n1, t3);
        }
    }
}

fn fill_archive(entries: &[(String, String)], dest: &str, skipped: usize, talk: &mut Talk) -> (r:
    String)
    requires
        skipped + entries@.len() <= usize::MAX,
    ensures
        (r@, final(talk)@) == packed_into(
            pair_views(entries@),
            dest@,
            skipped as nat,
            old(talk)@,
        ),
{
    let ghost asked = dialog::asked(talk@, RequestView::Workers).0.as_number();
    let workers = worker_count(talk);
    let temp = find_work_dir(talk);
    match talk.act(Action::CreateDirs(temp.clone())) {
        Err(e) => {
            let _dropped = talk.act(Action::DropArchive);
            let _removed = talk.act(Action::RemoveFile(dest.to_owned()));
            return cat2(
                "ion-win: compress: could not create temporary directory: ",
                e.as_str(),
            );
        },
        Ok(_) => {},
    }
    let mut n = Tally { compressed: 0, skipped, interrupted: false };
    proof {
        if asked > usize::MAX {
            assert(entries.len() <= usize::MAX);
            lemma_many_workers(
                pair_views(entries@),
                0,
                usize::MAX as nat,
                asked as nat,
                temp@,
                n@,
                talk@,
            );
        }
    }
    pack_all(entries, workers, temp.as_str(), &mut n, talk);
    if n.interrupted {
        let _dropped = talk.act(Action::DropArchive);
        let _removed = talk.act(Action::RemoveFile(dest.to_owned()));
        let _cleaned = talk.act(Action::RemoveTree(temp));
        let _taken = talk.ask(Request::TakeInterrupt);
        return "ion-win: compress: interrupted".to_owned();
    }
    let end = talk.act(Action::FinishArchive);
    let _cleaned = talk.act(Action::RemoveTree(temp));
    match end {
        Err(e) => cat4("ion-win: compress: ", dest, ": ", e.as_str()),
        Ok(_) => summary(n.compressed, n.skipped),
    }
}

fn compress_entries(
    entries: &[(String, String)],
    dest: &str,
    force: bool,
    skipped: usize,
    talk: &mut Talk,
) -> (r: String)
    requires
        skipped + entries@.len() <= usize::MAX,
    ensures
        (r@, final(talk)@) == packed(
            pair_views(entries@),
            dest@,
            force,
            skipped as nat,
            old(talk)@,
        ),
{
    if talk.is_there(dest) && !force {
        return cat3(
            "ion-win: compress: ",
            dest,
            ": destination already exists (use --force to overwrite)",
        );
    }
    match make_parent(dest, talk) {
        Err(e) => return cat4("ion-win: compress: ", dest, ": ", e.as_str()),
        Ok(_) => {},
    }
    match talk.act(Action::OpenArchive(dest.to_owned())) {
        Err(e) => return cat4("ion-win: compress: ", dest, ": ", e.as_str()),
        Ok(_) => {},
    }
    fill_archive(entries, dest, skipped, talk)
}

/// The entries of files that are given by name: each goes by its last part.
pub open spec fn named_entries(sources: Seq<Seq<char>>) -> Seq<(Seq<char>, Seq<char>)> {
    Seq::new(
        sources.len(),
        |i: int|
            (
                match paths::file_name_of(sources[i]) {
                    Some(n) => n,
                    None => sources[i],
                },
                sources[i],
            ),
    )
}

/// Packs each source into a new archive, under its last part.
pub fn compress_files(sources: &[String], dest: &str, force: bool, talk: &mut Talk) -> (r: String)
    ensures
        (r@, final(talk)@) == packed(
            named_entries(text::texts(sources@)),
            dest@,
            force,
            0,
            old(talk)@,
        ),
{
    let ghost all = text::texts(sources@);
    let ghost whole = named_entries(all);
    let ghost start = talk@;
    let mut entries: Vec<(String, String)> = Vec::new();
    let mut i: usize = 0;
    while i < sources.len()
        invariant
            i <= sources@.len(),
            entries@.len() == i,
            all == text::texts(sources@),
            whole == named_entries(all),
            pair_views(entries@) == whole.take(i as int),
            talk@ == start,
        decreases sources@.len() - i,
    {
        assert(all[i as int] == sources@[i as int]@);
        let name = match file_name(sources[i].as_str()) {
            Some(n) => n,
            None => sources[i].clone(),
        };
        let ghost before = entries@;
        let pair = (name, sources[i].clone());
        entries.push(pair);
        proof {
            assert(pair_views(entries@) =~= pair_views(before).push((pair.0@, pair.1@)));
            assert(whole.take(i + 1) =~= whole.take(i as int).push(whole[i as int]));
        }
        i = i + 1;
    }
    assert(whole.take(sources@.len() as int) =~= whole);
    assert(entries.len() <= usize::MAX);
    compress_entries(&entries, dest, force, 0, talk)
}

/// The entries of the first `n` rows, and how many rows name no path.
pub open spec fn row_entries(rows: Seq<table::RowView>, n: int, t: TalkView) -> (
    Seq<(Seq<char>, Seq<char>)>,
    nat,
    TalkView,
)
    decreases n,
{
    if n <= 0 {
        (Seq::empty(), 0, t)
    } else {
        let (list, skipped, t1) = row_entries(rows, n - 1, t);
        match table::cell_from(rows[n - 1], "path"@, 0) {
            Some(p) => (list.push((entry_name(p), p)), skipped, t1),
            None => (
                list,
                skipped + 1,
                dialog::noted(t1, "ion-win: compress: row has no 'path' column"@),
            ),
        }
    }
}

/// What packing the rows of a table gives.
pub open spec fn compress_table_done(
    rows: Seq<table::RowView>,
    dest: Seq<char>,
    force: bool,
    t: TalkView,
) -> (Seq<char>, TalkView) {
    let (list, skipped, t1) = row_entries(rows, rows.len() as int, t);
    packed(list, dest, force, skipped, t1)
}

/// Packs the file of each row's `path` column into a new archive, keeping the
/// directories that lead to it.
pub fn compress_table(t: &Table, dest: &str, force: bool, talk: &mut Talk) -> (r: String)
    ensures
        (r@, final(talk)@) == compress_table_done(t@, dest@, force, old(talk)@),
{
    let ghost start = talk@;
    let mut list: Vec<(String, String)> = Vec::new();
    let mut skipped: usize = 0;
    let mut i: usize = 0;
    assert(pair_views(list@) =~= Seq::<(Seq<char>, Seq<char>)>::empty());
    while i < t.rows.len()
        invariant
            i <= t.rows@.len(),
            list@.len() + skipped == i,
            (pair_views(list@), skipped as nat, talk@) == row_entries(t@, i as int, start),
        decreases t.rows@.len() - i,
    {
        assert(t@[i as int] == table::row_view(t.rows@[i as int]@));
        match cell(&t.rows[i], "path") {
            Some(p) => {
                let ghost before = list@;
                let pair = (table_row_entry_name(p.as_str()), p.clone());
                list.push(pair);
                assert(pair_views(list@) =~= pair_views(before).push((pair.0@, pair.1@)));
            },
            None => {
                talk.note("ion-win: compress: row has no 'path' column".to_owned());
                skipped = skipped + 1;
            },
        }
        i = i + 1;
    }
    assert(skipped + list@.len() == t.rows.len());
    compress_entries(&list, dest, force, skipped, talk)
}

/// What `compress` with its arguments gives.
pub open spec fn compress_command(args: Seq<Seq<char>>, t: TalkView) -> (
    Result<Seq<char>, Seq<char>>,
    TalkView,
) {
    match compress_flags(args) {
        Err(e) => (Err(e), t),
        Ok((force, rest)) => if rest.len() < 2 {
            (Err(compress_usage()), t)
        } else {
            let (s, t1) = packed(named_entries(rest.drop_last()), rest.last(), force, 0, t);
            (Ok(s), t1)
        },
    }
}

/// Runs `compress` with its arguments: sources and an archive.
pub fn parse_and_compress_files(args: &[String], talk: &mut Talk) -> (r: Result<String, String>)
    ensures
        (methods::text_outcome(r), final(talk)@) == compress_command(
            text::texts(args@),
            old(talk)@,
        ),
{
    match parse_flags(args) {
        Err(e) => Err(e),
        Ok((force, mut rest)) => {
            let ghost all = text::texts(rest@);
            if rest.len() < 2 {
                return Err(
                    "compress: usage: compress [--force] SRC... DEST.zip  |  TABLE | compress [--force] DEST.zip".to_owned(),
                );
            }
            match rest.pop() {
                None => Err(String::new()),
                Some(dest) => {
                    assert(text::texts(rest@) =~= all.drop_last());
                    assert(dest@ == all.last());
                    Ok(compress_files(&rest, dest.as_str(), force, talk))
                },
            }
        },
    }
}

// ---------------------------------------------------------------------------
// Laws
// ---------------------------------------------------------------------------

/// The name inside an archive has no `..` part: an archive never leads out of
/// the directory that it is unpacked in.
pub proof fn law_entries_stay_inside(path: Seq<char>)
    ensures
        !plain_parts(paths::parts_of(path)).contains(".."@),
{
    lemma_plain(paths::parts_of(path));
}

proof fn lemma_plain(list: Seq<Seq<char>>)
    ensures
        !plain_parts(list).contains(".."@),
    decreases list.len(),
{
    if list.len() > 0 {
        lemma_plain(list.drop_last());
        let rest = plain_parts(list.drop_last());
        let whole = plain_parts(list);
        if whole.contains(".."@) {
            let i = choose|i: int| 0 <= i < whole.len() && whole[i] == ".."@;
            if i < rest.len() {
                assert(rest[i] == ".."@);
                assert(rest.contains(".."@));
            }
        }
    }
}

/// An existing archive is left alone unless forced: nothing but the question
/// whether it exists is asked.
pub proof fn law_archive_is_not_overwritten(
    entries: Seq<(Seq<char>, Seq<char>)>,
    dest: Seq<char>,
    skipped: nat,
    t: TalkView,
)
    requires
        dialog::exists_at(t, dest).0,
    ensures
        packed(entries, dest, false, skipped, t).1 == dialog::exists_at(t, dest).1,
{
}

/// What options give when some were read before: what was switched on stays
/// so, and the later backup counts.
spec fn after_options(o: PackOptionsView, p: PackOptionsView) -> PackOptionsView {
    PackOptionsView {
        force: o.force || p.force,
        per_root: o.per_root || p.per_root,
        plan_only: o.plan_only || p.plan_only,
        apply: o.apply || p.apply,
        backup: if p.backup is Some {
            p.backup
        } else {
            o.backup
        },
        positional: o.positional + p.positional,
    }
}

proof fn lemma_options_add_up(args: Seq<Seq<char>>, i: int, o: PackOptionsView)
    requires
        0 <= i,
    ensures
        match pipeline_words(args, i, plain_options()) {
            Ok(p) => pipeline_words(args, i, o) == Ok::<PackOptionsView, Seq<char>>(
                after_options(o, p),
            ),
            Err(e) => pipeline_words(args, i, o) == Err::<PackOptionsView, Seq<char>>(e),
        },
    decreases args.len() - i,
{
    let none = plain_options();
    if i >= args.len() {
        assert(after_options(o, none).positional =~= o.positional);
    } else {
        let arg = args[i];
        if arg == "--force"@ || arg == "-f"@ {
            lemma_options_add_up(args, i + 1, PackOptionsView { force: true, ..o });
            lemma_options_add_up(args, i + 1, PackOptionsView { force: true, ..none });
        } else if arg == "--per-root"@ {
            lemma_options_add_up(args, i + 1, PackOptionsView { per_root: true, ..o });
            lemma_options_add_up(args, i + 1, PackOptionsView { per_root: true, ..none });
        } else if arg == "--plan"@ {
            lemma_options_add_up(args, i + 1, PackOptionsView { plan_only: true, ..o });
            lemma_options_add_up(args, i + 1, PackOptionsView { plan_only: true, ..none });
        } else if arg == "--apply"@ {
            lemma_options_add_up(args, i + 1, PackOptionsView { apply: true, ..o });
            lemma_options_add_up(args, i + 1, PackOptionsView { apply: true, ..none });
        } else if arg == "--backup"@ {
            if i + 1 < args.len() {
                lemma_options_add_up(
                    args,
                    i + 2,
                    PackOptionsView { backup: Some(args[i + 1]), ..o },
                );
                lemma_options_add_up(
                    args,
                    i + 2,
                    PackOptionsView { backup: Some(args[i + 1]), ..none },
                );
            }
        } else if arg == "--help"@ || arg == "-h"@ {
        } else if text::begins_with(arg, "--"@) {
        } else {
            lemma_options_add_up(
                args,
                i + 1,
                PackOptionsView { positional: o.positional.push(arg), ..o },
            );
            lemma_options_add_up(
                args,
                i + 1,
                PackOptionsView { positional: none.positional.push(arg), ..none },
            );
        }
        match (pipeline_words(args, i, none), pipeline_words(args, i, o)) {
            (Ok(p), Ok(q)) => {
                assert(q.positional =~= o.positional + p.positional);
            },
            _ => {},
        }
    }
}

proof fn lemma_options_shift(front: Seq<Seq<char>>, args: Seq<Seq<char>>, i: int, o: PackOptionsView)
    requires
        0 <= i,
    ensures
        pipeline_words(front + args, front.len() + i, o) == pipeline_words(args, i, o),
    decreases args.len() - i,
{
    let n = front.len() as int;
    let all = front + args;
    if i < args.len() {
        assert(all[n + i] == args[i]);
        if i + 1 < args.len() {
            assert(all[n + (i + 1)] == args[i + 1]);
            lemma_options_shift(
                front,
                args,
                i + 2,
                PackOptionsView { backup: Some(args[i + 1]), ..o },
            );
        }
        lemma_options_shift(front, args, i + 1, PackOptionsView { force: true, ..o });
        lemma_options_shift(front, args, i + 1, PackOptionsView { per_root: true, ..o });
        lemma_options_shift(front, args, i + 1, PackOptionsView { plan_only: true, ..o });
        lemma_options_shift(front, args, i + 1, PackOptionsView { apply: true, ..o });
        lemma_options_shift(
            front,
            args,
            i + 1,
            PackOptionsView { positional: o.positional.push(args[i]), ..o },
        );
    }
}

/// Each option before some arguments switches on its own of what they say; a
/// name before them comes first among the names.
pub proof fn law_options_switch_on_their_own(
    word: Seq<char>,
    dir: Seq<char>,
    args: Seq<Seq<char>>,
    p: PackOptionsView,
)
    requires
        pipeline_words(args, 0, plain_options()) == Ok::<PackOptionsView, Seq<char>>(p),
    ensures
        ({
            let gives = |front: Seq<Seq<char>>, q: PackOptionsView|
                pipeline_words(front + args, 0, plain_options()) == Ok::<
                    PackOptionsView,
                    Seq<char>,
                >(q);
            &&& word == "--force"@ || word == "-f"@ ==> gives(
                seq![word],
                PackOptionsView { force: true, ..p },
            )
            &&& word == "--per-root"@ ==> gives(
                seq![word],
                PackOptionsView { per_root: true, ..p },
            )
            &&& word == "--plan"@ ==> gives(seq![word], PackOptionsView { plan_only: true, ..p })
            &&& word == "--apply"@ ==> gives(seq![word], PackOptionsView { apply: true, ..p })
            &&& word == "--backup"@ && p.backup is None ==> gives(
                seq![word, dir],
                PackOptionsView { backup: Some(dir), ..p },
            )
            &&& word.len() == 0 || word[0] != '-' ==> gives(
                seq![word],
                PackOptionsView { positional: seq![word] + p.positional, ..p },
            )
            &&& word == "--help"@ || word == "-h"@ ==> pipeline_words(
                seq![word] + args,
                0,
                plain_options(),
            ) is Err
            &&& pipeline_words(seq!["--backup"@], 0, plain_options()) is Err
        }),
{
    let one = seq![word];
    let two = seq![word, dir];
    let none = plain_options();
    assert((one + args)[0] == word);
    assert((two + args)[0] == word && (two + args)[1] == dir);
    reveal_strlit("--force");
    reveal_strlit("-f");
    reveal_strlit("--per-root");
    reveal_strlit("--plan");
    reveal_strlit("--apply");
    reveal_strlit("--backup");
    reveal_strlit("--help");
    reveal_strlit("-h");
    reveal_strlit("--");
    assert("--force"@.len() == 7 && "-f"@.len() == 2 && "--per-root"@.len() == 10 && "--plan"@.len()
        == 6 && "--apply"@.len() == 7 && "--backup"@.len() == 8 && "--help"@.len() == 6
        && "-h"@.len() == 2 && "--"@.len() == 2);
    assert("--force"@[2] == 'f' && "--apply"@[2] == 'a' && "--plan"@[2] == 'p' && "--help"@[2]
        == 'h' && "-f"@[1] == 'f' && "-h"@[1] == 'h');
    assert("--force"@[0] == '-' && "-f"@[0] == '-' && "--per-root"@[0] == '-' && "--plan"@[0] == '-'
        && "--apply"@[0] == '-' && "--backup"@[0] == '-' && "--help"@[0] == '-' && "-h"@[0] == '-'
        && "--"@[0] == '-');
    if text::begins_with(word, "--"@) {
        assert(word.take(2)[0] == word[0]);
    }
    let force = PackOptionsView { force: true, ..none };
    let per_root = PackOptionsView { per_root: true, ..none };
    let plan_only = PackOptionsView { plan_only: true, ..none };
    let apply = PackOptionsView { apply: true, ..none };
    let backup = PackOptionsView { backup: Some(dir), ..none };
    let named = PackOptionsView { positional: none.positional.push(word), ..none };
    lemma_options_shift(one, args, 0, force);
    lemma_options_shift(one, args, 0, per_root);
    lemma_options_shift(one, args, 0, plan_only);
    lemma_options_shift(one, args, 0, apply);
    lemma_options_shift(two, args, 0, backup);
    lemma_options_shift(one, args, 0, named);
    lemma_options_add_up(args, 0, force);
    lemma_options_add_up(args, 0, per_root);
    lemma_options_add_up(args, 0, plan_only);
    lemma_options_add_up(args, 0, apply);
    lemma_options_add_up(args, 0, backup);
    lemma_options_add_up(args, 0, named);
    assert(none.positional + p.positional =~= p.positional);
    assert(named.positional + p.positional =~= seq![word] + p.positional);
}

/// An entry goes by the names of its path with slashes between them, whatever
/// separates them in the path.
pub proof fn law_entries_are_named_with_slashes(a: Seq<char>, sep: char, b: Seq<char>)
    requires
        paths::is_part(a),
        paths::is_part(b),
        a != seq!['.', '.'],
        b != seq!['.', '.'],
        paths::is_separator(sep),
    ensures
        entry_name(a + seq![sep] + b) == a + seq!['/'] + b,
        entry_name(a) == a,
{
    paths::law_separators_part_names(a, sep, b);
    paths::law_name_is_its_only_part(a);
    reveal_strlit("..");
    reveal_strlit("/");
    assert(".."@ =~= seq!['.', '.']);
    assert("/"@ =~= seq!['/']);
    let none = Seq::<Seq<char>>::empty();
    assert(seq![a].drop_last() =~= none);
    assert(seq![a, b].drop_last() =~= seq![a]);
    assert(plain_parts(none) == none);
    assert(plain_parts(seq![a]) =~= seq![a]);
    assert(plain_parts(seq![a, b]) =~= seq![a, b]);
    assert(text::joined(seq![a], "/"@) == a);
    assert(text::joined(seq![a, b], "/"@) == a + "/"@ + b);
}

/// Every small archive that is collected counts once: as compressed, as
/// skipped or, when it ends the work, as interrupted.
pub proof fn law_every_archive_counts_once(small: Seq<char>, n: TallyView, t: TalkView)
    requires
        !n.interrupted,
    ensures
        ({
            let after = collected(small, n, t).0;
            let a = dialog::asked(t, RequestView::AwaitPack(small)).0;
            &&& after.interrupted ==> after.compressed == n.compressed && after.skipped
                == n.skipped
            &&& !after.interrupted ==> after.compressed + after.skipped == n.compressed + n.skipped
                + 1
            &&& after.compressed > n.compressed ==> !(a is Failure) && !(a is Text)
            &&& a is Failure ==> after.interrupted == (a->Failure_0 == "interrupted"@)
        }),
{
}

/// Packing takes the last name as the place and all before it as what to take; a
/// `--force` behind them only forces. A name alone is refused, and nothing is
/// touched.
pub proof fn law_compress_takes_names_and_a_place(
    sources: Seq<Seq<char>>,
    dest: Seq<char>,
    t: TalkView,
)
    requires
        sources.len() > 0,
        flags::all_plain(sources.push(dest)),
    ensures
        ({
            let args = sources.push(dest);
            let plain = compress_command(args, t);
            let forced = compress_command(args.push("--force"@), t);
            let (s, t1) = packed(named_entries(sources), dest, false, 0, t);
            let (f, t2) = packed(named_entries(sources), dest, true, 0, t);
            &&& plain == (Ok::<Seq<char>, Seq<char>>(s), t1)
            &&& forced == (Ok::<Seq<char>, Seq<char>>(f), t2)
            &&& compress_command(seq![dest], t).0 is Err && compress_command(seq![dest], t).1 == t
            &&& compress_command(Seq::empty(), t).0 is Err && compress_command(Seq::empty(), t).1 == t
        }),
{
    let args = sources.push(dest);
    let u = compress_usage();
    flags::law_plain_arguments_are_names(args, "--force"@, "compress"@, u, "--"@);
    assert(args.drop_last() =~= sources);
    let one = seq![dest];
    assert forall|i: int| 0 <= i < one.len() implies (#[trigger] one[i]).len() == 0 || one[i][0]
        != '-' by {
        assert(args[sources.len() as int] == dest);
    }
    flags::law_plain_arguments_are_names(one, "--force"@, "compress"@, u, "--"@);
    flags::law_plain_arguments_are_names(Seq::empty(), "--force"@, "compress"@, u, "--"@);
}

} // verus!
