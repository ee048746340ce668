//! `delete`: items go to the recycle bin; only `--permanent` with `--force`
//! removes them for good. A directory needs `--recurse`, and no link is ever
//! followed.

use crate::dialog;
use crate::dialog::{
    Action, ActionView, Answer, AnswerView, Entry, EntryView, FileFacts, Request, RequestView, Talk,
    TalkView,
};
use crate::flags;
use crate::fs_builtins;
use crate::fs_builtins::join_path;
use crate::methods;
use crate::paths;
use crate::paths::{lies_below, parent};
use crate::table;
use crate::table::{cell, Table};
use crate::text;
use crate::text::{cat2, cat3, cat4, cat5, has_prefix, same, u64_text};
use vstd::prelude::*;

verus! {

/// How to delete.
#[derive(Clone, Copy, Debug, PartialEq, Eq, Structural)]
pub struct DeleteOptions {
    pub permanent: bool,
    pub force: bool,
    pub recurse: bool,
}

impl Default for DeleteOptions {
    fn default() -> (r: DeleteOptions)
        ensures
            r == (DeleteOptions { permanent: false, force: false, recurse: false }),
    {
        DeleteOptions { permanent: false, force: false, recurse: false }
    }
}

/// The usage of `delete`.
pub open spec fn delete_usage() -> Seq<char> {
    "delete: usage: delete [--recurse] PATH...  |  TABLE | delete [--recurse]\n       permanent: add --permanent --force"@
}

/// What the first `n` arguments of `delete` say.
pub open spec fn delete_words(args: Seq<Seq<char>>, n: int) -> Result<
    (DeleteOptions, Seq<Seq<char>>),
    Seq<char>,
>
    decreases n,
{
    if n <= 0 {
        Ok((DeleteOptions { permanent: false, force: false, recurse: false }, Seq::empty()))
    } else {
        match delete_words(args, n - 1) {
            Err(e) => Err(e),
            Ok((o, rest)) => {
                let arg = args[n - 1];
                if arg == "--permanent"@ {
                    Ok((DeleteOptions { permanent: true, ..o }, rest))
                } else if arg == "--force"@ || arg == "-f"@ {
                    Ok((DeleteOptions { force: true, ..o }, rest))
                } else if arg == "--recurse"@ || arg == "-r"@ {
                    Ok((DeleteOptions { recurse: true, ..o }, rest))
                } else if arg == "--help"@ || arg == "-h"@ {
                    Err(delete_usage())
                } else if text::begins_with(arg, "-"@) {
                    Err("delete: unknown option: "@ + arg)
                } else {
                    Ok((o, rest.push(arg)))
                }
            },
        }
    }
}

/// What the arguments of `delete` say. Permanent deletion must be forced.
pub open spec fn delete_flags(args: Seq<Seq<char>>) -> Result<
    (DeleteOptions, Seq<Seq<char>>),
    Seq<char>,
> {
    match delete_words(args, args.len() as int) {
        Err(e) => Err(e),
        Ok((o, rest)) => if o.permanent && !o.force {
            Err("delete: permanent deletion requires both --permanent and --force"@)
        } else {
            Ok((o, rest))
        },
    }
}

proof fn lemma_words_stay(args: Seq<Seq<char>>, n: int, m: int)
    requires
        0 <= n <= m,
        delete_words(args, n) is Err,
    ensures
        delete_words(args, m) == delete_words(args, n),
    decreases m - n,
{
    if n < m {
        lemma_words_stay(args, n, m - 1);
    }
}

/// What reading the arguments of `delete` gives.
pub open spec fn flags_outcome(r: Result<(DeleteOptions, Vec<String>), String>) -> Result<
    (DeleteOptions, Seq<Seq<char>>),
    Seq<char>,
> {
    match r {
        Ok((o, rest)) => Ok((o, text::texts(rest@))),
        Err(e) => Err(e@),
    }
}

/// Splits the options from the other arguments of `delete`.
pub fn parse_flags(args: &[String]) -> (r: Result<(DeleteOptions, Vec<String>), String>)
    ensures
        flags_outcome(r) == delete_flags(text::texts(args@)),
{
    let ghost all = text::texts(args@);
    let mut options = DeleteOptions { permanent: false, force: false, recurse: false };
    let mut rest: Vec<String> = Vec::new();
    assert(text::texts(rest@) =~= Seq::<Seq<char>>::empty());
    let mut i: usize = 0;
    while i < args.len()
        invariant
            i <= args@.len(),
            all == text::texts(args@),
            delete_words(all, i as int) == Ok::<(DeleteOptions, Seq<Seq<char>>), Seq<char>>(
                (options, text::texts(rest@)),
            ),
        decreases args@.len() - i,
    {
        let arg = args[i].as_str();
        assert(all[i as int] == arg@);
        proof {
            if delete_words(all, i + 1) is Err {
                lemma_words_stay(all, i + 1, args@.len() as int);
            }
        }
        if same(arg, "--permanent") {
            options.permanent = true;
        } else if same(arg, "--force") || same(arg, "-f") {
            options.force = true;
        } else if same(arg, "--recurse") || same(arg, "-r") {
            options.recurse = true;
        } else if same(arg, "--help") || same(arg, "-h") {
            return Err(
                "delete: usage: delete [--recurse] PATH...  |  TABLE | delete [--recurse]\n       permanent: add --permanent --force".to_owned(),
            );
        } else if has_prefix(arg, "-") {
            return Err(cat2("delete: unknown option: ", arg));
        } else {
            let path = args[i].clone();
            proof {
                text::lemma_texts_push(rest@, path);
            }
            rest.push(path);
        }
        i = i + 1;
    }
    if options.permanent && !options.force {
        return Err(
            "delete: permanent deletion requires both --permanent and --force".to_owned(),
        );
    }
    Ok((options, rest))
}

/// The first `n` arguments without `--plan`.
pub open spec fn without_plan(args: Seq<Seq<char>>, n: int) -> Seq<Seq<char>>
    decreases n,
{
    if n <= 0 {
        Seq::empty()
    } else if args[n - 1] == "--plan"@ {
        without_plan(args, n - 1)
    } else {
        without_plan(args, n - 1).push(args[n - 1])
    }
}

/// What the arguments of `delete` as a stage of a pipeline say: how to
/// delete, whether to plan only, and the paths.
pub open spec fn pipeline_flags(args: Seq<Seq<char>>) -> Result<
    (DeleteOptions, bool, Seq<Seq<char>>),
    Seq<char>,
> {
    let plan = args.contains("--plan"@);
    match delete_flags(without_plan(args, args.len() as int)) {
        Err(e) => Err(e),
        Ok((o, rest)) => if plan && o.permanent {
            Err("delete: --plan does not support permanent deletion"@)
        } else {
            Ok((o, plan, rest))
        },
    }
}

/// Reads the arguments of `delete` as a stage of a pipeline.
pub fn parse_pipeline_flags(args: &[String]) -> (r: Result<
    (DeleteOptions, bool, Vec<String>),
    String,
>)
    ensures
        (match r {
            Ok((o, plan, rest)) => Ok((o, plan, text::texts(rest@))),
            Err(e) => Err(e@),
        }) == pipeline_flags(text::texts(args@)),
{
    let ghost all = text::texts(args@);
    let mut plan = false;
    let mut remaining: Vec<String> = Vec::new();
    assert(text::texts(remaining@) =~= Seq::<Seq<char>>::empty());
    let mut i: usize = 0;
    while i < args.len()
        invariant
            i <= args@.len(),
            all == text::texts(args@),
            plan == exists|k: int| 0 <= k < i && all[k] == "--plan"@,
            text::texts(remaining@) == without_plan(all, i as int),
        decreases args@.len() - i,
    {
        assert(all[i as int] == args@[i as int]@);
        if same(args[i].as_str(), "--plan") {
            plan = true;
        } else {
            let arg = args[i].clone();
            proof {
                text::lemma_texts_push(remaining@, arg);
            }
            remaining.push(arg);
        }
        i = i + 1;
    }
    match parse_flags(&remaining) {
        Err(e) => Err(e),
        Ok((options, rest)) => if plan && options.permanent {
            Err("delete: --plan does not support permanent deletion".to_owned())
        } else {
            Ok((options, plan, rest))
        },
    }
}

// ---------------------------------------------------------------------------
// One item
// ---------------------------------------------------------------------------

/// How deleting an item went.
#[derive(Debug, Clone, PartialEq, Eq)]
pub enum DeleteResult {
    Deleted,
    Skipped(String),
    Failed(String),
}

/// How deleting an item went.
pub enum DeleteResultView {
    Deleted,
    Skipped(Seq<char>),
    Failed(Seq<char>),
}

impl View for DeleteResult {
    type V = DeleteResultView;

    open spec fn view(&self) -> DeleteResultView {
        match self {
            DeleteResult::Deleted => DeleteResultView::Deleted,
            DeleteResult::Skipped(m) => DeleteResultView::Skipped(m@),
            DeleteResult::Failed(m) => DeleteResultView::Failed(m@),
        }
    }
}

/// Whether an item is a directory, or a link to one.
pub open spec fn leads_to_dir(path: Seq<char>, f: FileFacts, t: TalkView) -> (bool, TalkView) {
    if f.is_dir {
        (true, t)
    } else if f.is_symlink {
        let (a, t1) = dialog::asked(t, RequestView::IsDirectory(path));
        (a.as_truth(), t1)
    } else {
        (false, t)
    }
}

fn is_dir_target(path: &str, f: FileFacts, talk: &mut Talk) -> (r: bool)
    ensures
        (r, final(talk)@) == leads_to_dir(path@, f, old(talk)@),
{
    if f.is_dir {
        true
    } else if f.is_symlink {
        talk.ask(Request::IsDirectory(path.to_owned())).truth()
    } else {
        false
    }
}

/// What asking whether a target is too broad gives: a root, the working
/// directory and the directories above it are refused.
pub open spec fn narrow(path: Seq<char>, t: TalkView) -> (Result<(), Seq<char>>, TalkView) {
    let (a, t1) = dialog::asked(t, RequestView::Canonical(path));
    match a {
        AnswerView::Text(canonical) => if paths::parent_of(canonical) is None {
            (Err(path + ": refusing to delete a filesystem root"@), t1)
        } else {
            let (b, t2) = dialog::asked(t1, RequestView::WorkingDirectory);
            match b {
                AnswerView::Text(cwd) => {
                    let (c, t3) = dialog::asked(t2, RequestView::Canonical(cwd));
                    match c {
                        AnswerView::Text(current) => if paths::at_or_below(current, canonical) {
                            (
                                Err(
                                    path
                                        + ": refusing to delete the current directory or one of its ancestors"@,
                                ),
                                t3,
                            )
                        } else {
                            (Ok(()), t3)
                        },
                        _ => (Ok(()), t3),
                    }
                },
                _ => (Ok(()), t2),
            }
        },
        _ => (Err(path + ": "@ + a.as_failure()), t1),
    }
}

/// Refuses a target that is too broad.
pub fn reject_broad_target(path: &str, talk: &mut Talk) -> (r: Result<(), String>)
    ensures
        (dialog::outcome(r), final(talk)@) == narrow(path@, old(talk)@),
{
    let a = talk.ask(Request::Canonical(path.to_owned()));
    match a {
        Answer::Text(canonical) => {
            if parent(canonical.as_str()).is_none() {
                return Err(cat2(path, ": refusing to delete a filesystem root"));
            }
            match talk.ask(Request::WorkingDirectory) {
                Answer::Text(cwd) => match talk.ask(Request::Canonical(cwd)) {
                    Answer::Text(current) => if lies_below(current.as_str(), canonical.as_str()) {
                        Err(
                            cat2(
                                path,
                                ": refusing to delete the current directory or one of its ancestors",
                            ),
                        )
                    } else {
                        Ok(())
                    },
                    _ => Ok(()),
                },
                _ => Ok(()),
            }
        },
        _ => {
            let e = a.into_failure();
            Err(cat3(path, ": ", e.as_str()))
        },
    }
}

/// What removing an item for good gives. A link goes itself, never what it
/// leads to. No more than `fuel` directories are entered inside each other.
pub open spec fn erased(path: Seq<char>, f: FileFacts, fuel: nat, t: TalkView) -> (
    Result<(), Seq<char>>,
    TalkView,
)
    decreases fuel, 0int,
{
    if f.is_symlink {
        let (a, t1) = dialog::asked(t, RequestView::IsDirectory(path));
        if a.as_truth() {
            dialog::acted(t1, ActionView::RemoveDir(path))
        } else {
            dialog::acted(t1, ActionView::RemoveFile(path))
        }
    } else if f.is_dir {
        let (a, t1) = dialog::asked(t, RequestView::ListWhole(path));
        match a {
            AnswerView::Entries(entries) => if fuel > 0 {
                let (r, t2) = erased_entries(entries, 0, path, (fuel - 1) as nat, t1);
                match r {
                    Err(e) => (Err(e), t2),
                    Ok(_) => dialog::acted(t2, ActionView::RemoveDir(path)),
                }
            } else {
                (Ok(()), t1)
            },
            AnswerView::Text(e) => (Err(e), t1),
            _ => (Err(a.as_failure()), t1),
        }
    } else {
        dialog::acted(t, ActionView::RemoveFile(path))
    }
}

/// What removing the entries of a directory from `k` on gives.
pub open spec fn erased_entries(
    entries: Seq<EntryView>,
    k: int,
    dir: Seq<char>,
    fuel: nat,
    t: TalkView,
) -> (Result<(), Seq<char>>, TalkView)
    decreases
            fuel,
            if k < entries.len() {
                1 + entries.len() - k
            } else {
                1
            },
{
    if k < 0 || k >= entries.len() {
        (Ok(()), t)
    } else {
        let child = fs_builtins::path_below(dir, entries[k].name);
        let (a, t1) = dialog::asked(t, RequestView::Examine(child));
        match a {
            AnswerView::File(f) => {
                let (r, t2) = erased(child, f, fuel, t1);
                match r {
                    Err(e) => (Err(e), t2),
                    Ok(_) => erased_entries(entries, k + 1, dir, fuel, t2),
                }
            },
            _ => (Err(a.as_failure()), t1),
        }
    }
}

fn permanent_delete(path: &str, f: FileFacts, talk: &mut Talk, fuel: Ghost<nat>) -> (r: Result<
    (),
    String,
>)
    requires
        fuel@ >= old(talk)@.answers.len() - old(talk)@.next,
    ensures
        (dialog::outcome(r), final(talk)@) == erased(path@, f, fuel@, old(talk)@),
        final(talk)@.answers == old(talk)@.answers,
        old(talk)@.next <= final(talk)@.next,
    decreases fuel@, 0int,
{
    if f.is_symlink {
        let to_dir = talk.ask(Request::IsDirectory(path.to_owned())).truth();
        if to_dir {
            talk.act(Action::RemoveDir(path.to_owned()))
        } else {
            talk.act(Action::RemoveFile(path.to_owned()))
        }
    } else if f.is_dir {
        let a = talk.ask(Request::ListWhole(path.to_owned()));
        match a {
            Answer::Entries(entries) => {
                assert(fuel@ > 0);
                match delete_entries(&entries, path, talk, Ghost((fuel@ - 1) as nat)) {
                    Err(e) => Err(e),
                    Ok(_) => talk.act(Action::RemoveDir(path.to_owned())),
                }
            },
            Answer::Text(e) => Err(e),
            _ => Err(a.into_failure()),
        }
    } else {
        talk.act(Action::RemoveFile(path.to_owned()))
    }
}

fn delete_entries(entries: &Vec<Entry>, dir: &str, talk: &mut Talk, fuel: Ghost<nat>) -> (r: Result<
    (),
    String,
>)
    requires
        fuel@ >= old(talk)@.answers.len() - old(talk)@.next,
    ensures
        (dialog::outcome(r), final(talk)@) == erased_entries(
            dialog::entry_views(entries@),
            0,
            dir@,
            fuel@,
            old(talk)@,
        ),
        final(talk)@.answers == old(talk)@.answers,
        old(talk)@.next <= final(talk)@.next,
    decreases fuel@, 1int,
{
    let ghost all = dialog::entry_views(entries@);
    let ghost start = talk@;
    let mut k: usize = 0;
    while k < entries.len()
        invariant
            k <= entries@.len(),
            all == dialog::entry_views(entries@),
            start == old(talk)@,
            talk@.answers == start.answers,
            start.next <= talk@.next,
            fuel@ >= talk@.answers.len() - talk@.next,
            erased_entries(all, 0, dir@, fuel@, start) == erased_entries(
                all,
                k as int,
                dir@,
                fuel@,
                talk@,
            ),
        decreases entries@.len() - k,
    {
        assert(all[k as int] == entries@[k as int]@);
        let child = join_path(dir, entries[k].name.as_str());
        let a = talk.ask(Request::Examine(child.clone()));
        match a {
            Answer::File(f) => match permanent_delete(child.as_str(), f, talk, fuel) {
                Err(e) => return Err(e),
                Ok(_) => {},
            },
            _ => return Err(a.into_failure()),
        }
        k = k + 1;
    }
    Ok(())
}

/// Whether an item may be deleted at all, by what is known of it.
pub open spec fn allowed(path: Seq<char>, f: FileFacts, options: DeleteOptions, t: TalkView) -> (
    Result<(), Seq<char>>,
    TalkView,
) {
    let (to_dir, t1) = leads_to_dir(path, f, t);
    let (broad, t2) = if f.is_symlink {
        (Ok(()), t1)
    } else {
        narrow(path, t1)
    };
    (
        match broad {
            Err(e) => Err(e),
            Ok(_) => if to_dir && !options.recurse {
                Err(path + ": is a directory (use --recurse)"@)
            } else {
                Ok(())
            },
        },
        t2,
    )
}

fn check_allowed(path: &str, f: FileFacts, options: DeleteOptions, talk: &mut Talk) -> (r: Result<
    (),
    String,
>)
    ensures
        (dialog::outcome(r), final(talk)@) == allowed(path@, f, options, old(talk)@),
{
    let to_dir = is_dir_target(path, f, talk);
    if !f.is_symlink {
        match reject_broad_target(path, talk) {
            Err(e) => return Err(e),
            Ok(_) => {},
        }
    }
    if to_dir && !options.recurse {
        return Err(cat2(path, ": is a directory (use --recurse)"));
    }
    Ok(())
}

/// What deleting one item gives.
pub open spec fn deleted_one(path: Seq<char>, options: DeleteOptions, t: TalkView) -> (
    DeleteResultView,
    TalkView,
) {
    let (a, t1) = dialog::asked(t, RequestView::Facts(path));
    match a {
        AnswerView::File(f) => {
            let (ok, t2) = allowed(path, f, options, t1);
            match ok {
                Err(e) => (DeleteResultView::Failed(e), t2),
                Ok(_) => {
                    let (r, t3) = if options.permanent {
                        erased(path, f, t2.answers.len(), t2)
                    } else {
                        dialog::acted(t2, ActionView::Recycle(path))
                    };
                    (
                        match r {
                            Ok(_) => DeleteResultView::Deleted,
                            Err(e) => DeleteResultView::Failed(path + ": "@ + e),
                        },
                        t3,
                    )
                },
            }
        },
        AnswerView::Missing => (DeleteResultView::Skipped(path + ": not found"@), t1),
        _ => (DeleteResultView::Failed(path + ": "@ + a.as_failure()), t1),
    }
}

/// Deletes one item.
pub fn validate_then_delete(path: &str, options: DeleteOptions, talk: &mut Talk) -> (r: DeleteResult)
    ensures
        (r@, final(talk)@) == deleted_one(path@, options, old(talk)@),
{
    let a = talk.ask(Request::Facts(path.to_owned()));
    match a {
        Answer::File(f) => {
            match check_allowed(path, f, options, talk) {
                Err(e) => return DeleteResult::Failed(e),
                Ok(_) => {},
            }
            let r = if options.permanent {
                let fuel: Ghost<nat> = Ghost(talk@.answers.len());
                permanent_delete(path, f, talk, fuel)
            } else {
                talk.act(Action::Recycle(path.to_owned()))
            };
            match r {
                Ok(_) => DeleteResult::Deleted,
                Err(e) => DeleteResult::Failed(cat3(path, ": ", e.as_str())),
            }
        },
        Answer::Missing => DeleteResult::Skipped(cat2(path, ": not found")),
        _ => {
            let e = a.into_failure();
            DeleteResult::Failed(cat3(path, ": ", e.as_str()))
        },
    }
}

/// What checking a planned deletion gives.
pub open spec fn plan_checked(path: Seq<char>, options: DeleteOptions, t: TalkView) -> (
    Result<(), Seq<char>>,
    TalkView,
) {
    let (a, t1) = dialog::asked(t, RequestView::Examine(path));
    match a {
        AnswerView::File(f) => allowed(path, f, options, t1),
        _ => (Err(path + ": "@ + a.as_failure()), t1),
    }
}

/// Checks a planned deletion.
pub fn validate_planned(path: &str, options: DeleteOptions, talk: &mut Talk) -> (r: Result<
    (),
    String,
>)
    ensures
        (dialog::outcome(r), final(talk)@) == plan_checked(path@, options, old(talk)@),
{
    let a = talk.ask(Request::Examine(path.to_owned()));
    match a {
        Answer::File(f) => check_allowed(path, f, options, talk),
        _ => {
            let e = a.into_failure();
            Err(cat3(path, ": ", e.as_str()))
        },
    }
}

/// What a planned deletion gives.
pub open spec fn plan_deleted(path: Seq<char>, options: DeleteOptions, t: TalkView) -> (
    Result<(), Seq<char>>,
    TalkView,
) {
    let (r, t1) = deleted_one(path, options, t);
    (
        match r {
            DeleteResultView::Deleted => Ok(()),
            DeleteResultView::Skipped(e) => Err(e),
            DeleteResultView::Failed(e) => Err(e),
        },
        t1,
    )
}

/// Carries a planned deletion out.
pub fn delete_planned(path: &str, options: DeleteOptions, talk: &mut Talk) -> (r: Result<(), String>)
    ensures
        (dialog::outcome(r), final(talk)@) == plan_deleted(path@, options, old(talk)@),
{
    match validate_then_delete(path, options, talk) {
        DeleteResult::Deleted => Ok(()),
        DeleteResult::Skipped(e) => Err(e),
        DeleteResult::Failed(e) => Err(e),
    }
}

// ---------------------------------------------------------------------------
// Many items
// ---------------------------------------------------------------------------

/// The line that sums a deletion up.
pub open spec fn delete_summary(deleted: nat, skipped: nat, failed: nat, permanent: bool) -> Seq<char> {
    "ion-win: delete: "@ + (if permanent {
        "permanently deleted"@
    } else {
        "recycled"@
    }) + " "@ + text::nat_text(deleted) + " item(s), skipped "@ + (text::nat_text(skipped)
        + ", failed "@ + text::nat_text(failed))
}

fn summary(deleted: usize, skipped: usize, failed: usize, permanent: bool) -> (r: String)
    ensures
        r@ == delete_summary(deleted as nat, skipped as nat, failed as nat, permanent),
{
    let action = if permanent {
        "permanently deleted"
    } else {
        "recycled"
    };
    let n = u64_text(deleted as u64);
    let m = u64_text(skipped as u64);
    let k = u64_text(failed as u64);
    let head = cat5("ion-win: delete: ", action, " ", n.as_str(), " item(s), skipped ");
    let tail = cat3(m.as_str(), ", failed ", k.as_str());
    cat2(head.as_str(), tail.as_str())
}

/// What deleting the first `n` paths gives, with so many skipped before.
pub open spec fn deleted_paths(
    list: Seq<Seq<char>>,
    n: int,
    options: DeleteOptions,
    skipped: nat,
    t: TalkView,
) -> (nat, nat, nat, TalkView)
    decreases n,
{
    if n <= 0 {
        (0, skipped, 0, t)
    } else {
        let (d, s, f, t1) = deleted_paths(list, n - 1, options, skipped, t);
        let (r, t2) = deleted_one(list[n - 1], options, t1);
        match r {
            DeleteResultView::Deleted => (d + 1, s, f, t2),
            DeleteResultView::Skipped(m) => (
                d,
                s + 1,
                f,
                dialog::noted(t2, "ion-win: delete: "@ + m),
            ),
            DeleteResultView::Failed(m) => (
                d,
                s,
                f + 1,
                dialog::noted(t2, "ion-win: delete: "@ + m),
            ),
        }
    }
}

/// What deleting a list of paths gives.
pub open spec fn delete_done(
    list: Seq<Seq<char>>,
    options: DeleteOptions,
    skipped: nat,
    t: TalkView,
) -> (Seq<char>, TalkView) {
    let (d, s, f, t1) = deleted_paths(list, list.len() as int, options, skipped, t);
    (delete_summary(d, s, f, options.permanent), t1)
}

fn delete_all(list: &[String], options: DeleteOptions, before: usize, talk: &mut Talk) -> (r: String)
    requires
        before + list@.len() <= usize::MAX,
    ensures
        (r@, final(talk)@) == delete_done(
            text::texts(list@),
            options,
            before as nat,
            old(talk)@,
        ),
{
    let ghost all = text::texts(list@);
    let ghost start = talk@;
    let mut deleted: usize = 0;
    let mut skipped: usize = before;
    let mut failed: usize = 0;
    let mut i: usize = 0;
    while i < list.len()
        invariant
            i <= list@.len(),
            all == text::texts(list@),
            before + list@.len() <= usize::MAX,
            before <= skipped,
            deleted + (skipped - before) + failed == i,
            (deleted as nat, skipped as nat, failed as nat, talk@) == deleted_paths(
                all,
                i as int,
                options,
                before as nat,
                start,
            ),
        decreases list@.len() - i,
    {
        assert(all[i as int] == list@[i as int]@);
        match validate_then_delete(list[i].as_str(), options, talk) {
            DeleteResult::Deleted => {
                deleted = deleted + 1;
            },
            DeleteResult::Skipped(m) => {
                talk.note(cat2("ion-win: delete: ", m.as_str()));
                skipped = skipped + 1;
            },
            DeleteResult::Failed(m) => {
                talk.note(cat2("ion-win: delete: ", m.as_str()));
                failed = failed + 1;
            },
        }
        i = i + 1;
    }
    summary(deleted, skipped, failed, options.permanent)
}

/// Deletes each of the paths.
pub fn delete_paths(list: &[String], options: DeleteOptions, talk: &mut Talk) -> (r: String)
    ensures
        (r@, final(talk)@) == delete_done(text::texts(list@), options, 0, old(talk)@),
{
    assert(list.len() <= usize::MAX);
    delete_all(list, options, 0, talk)
}

/// The paths of the first `n` rows, and how many rows have none.
pub open spec fn row_paths(rows: Seq<table::RowView>, n: int, t: TalkView) -> (
    Seq<Seq<char>>,
    nat,
    TalkView,
)
    decreases n,
{
    if n <= 0 {
        (Seq::empty(), 0, t)
    } else {
        let (list, skipped, t1) = row_paths(rows, n - 1, t);
        match table::cell_from(rows[n - 1], "path"@, 0) {
            Some(p) => (list.push(p), skipped, t1),
            None => (
                list,
                skipped + 1,
                dialog::noted(t1, "ion-win: delete: row has no 'path' column"@),
            ),
        }
    }
}

/// What deleting the rows of a table gives.
pub open spec fn delete_table_done(
    rows: Seq<table::RowView>,
    options: DeleteOptions,
    t: TalkView,
) -> (Seq<char>, TalkView) {
    let (list, skipped, t1) = row_paths(rows, rows.len() as int, t);
    delete_done(list, options, skipped, t1)
}

/// Deletes the item of each row's `path` column.
pub fn delete_table(t: &Table, options: DeleteOptions, talk: &mut Talk) -> (r: String)
    ensures
        (r@, final(talk)@) == delete_table_done(t@, options, old(talk)@),
{
    let ghost start = talk@;
    let mut list: Vec<String> = Vec::new();
    let mut skipped: usize = 0;
    let mut i: usize = 0;
    assert(text::texts(list@) =~= Seq::<Seq<char>>::empty());
    while i < t.rows.len()
        invariant
            i <= t.rows@.len(),
            list@.len() + skipped == i,
            (text::texts(list@), skipped as nat, talk@) == row_paths(t@, i as int, start),
        decreases t.rows@.len() - i,
    {
        assert(t@[i as int] == table::row_view(t.rows@[i as int]@));
        match cell(&t.rows[i], "path") {
            Some(p) => {
                let path = p.clone();
                proof {
                    text::lemma_texts_push(list@, path);
                }
                list.push(path);
            },
            None => {
                talk.note("ion-win: delete: row has no 'path' column".to_owned());
                skipped = skipped + 1;
            },
        }
        i = i + 1;
    }
    assert(skipped + list@.len() == t.rows.len());
    delete_all(&list, options, skipped, talk)
}

/// What `delete` with its arguments gives.
pub open spec fn delete_command(args: Seq<Seq<char>>, t: TalkView) -> (
    Result<Seq<char>, Seq<char>>,
    TalkView,
) {
    match delete_flags(args) {
        Err(e) => (Err(e), t),
        Ok((options, list)) => if list.len() == 0 {
            (Err(delete_usage()), t)
        } else {
            let (s, t1) = delete_done(list, options, 0, t);
            (Ok(s), t1)
        },
    }
}

/// Runs `delete` with its arguments.
pub fn parse_and_delete_files(args: &[String], talk: &mut Talk) -> (r: Result<String, String>)
    ensures
        (methods::text_outcome(r), final(talk)@) == delete_command(text::texts(args@), old(talk)@),
{
    match parse_flags(args) {
        Err(e) => Err(e),
        Ok((options, list)) => {
            assert(text::texts(list@).len() == list@.len());
            if list.len() == 0 {
                return Err(
                    "delete: usage: delete [--recurse] PATH...  |  TABLE | delete [--recurse]\n       permanent: add --permanent --force".to_owned(),
                );
            }
            Ok(delete_paths(&list, options, talk))
        },
    }
}

// ---------------------------------------------------------------------------
// Laws
// ---------------------------------------------------------------------------

/// Whatever the arguments are, deletion is permanent only when it is also
/// forced.
pub proof fn law_permanent_is_forced(args: Seq<Seq<char>>)
    ensures
        delete_flags(args) matches Ok((o, list)) ==> (o.permanent ==> o.force),
        pipeline_flags(args) matches Ok((o, plan, list)) ==> (o.permanent ==> o.force && !plan),
{
}

/// A directory is never deleted without `--recurse`: the item fails and the
/// only things asked for are facts.
pub proof fn law_directory_needs_recurse(
    path: Seq<char>,
    f: FileFacts,
    options: DeleteOptions,
    t: TalkView,
)
    requires
        f.is_dir,
        !options.recurse,
    ensures
        allowed(path, f, options, t).0 is Err,
{
}

proof fn lemma_words_before(args: Seq<Seq<char>>, more: Seq<char>, n: int)
    requires
        n <= args.len(),
    ensures
        delete_words(args.push(more), n) == delete_words(args, n),
    decreases n,
{
    if n > 0 {
        lemma_words_before(args, more, n - 1);
        assert(args.push(more)[n - 1] == args[n - 1]);
    }
}

/// One more argument of `delete`: each option sets what it names and leaves
/// the rest, and what does not begin like an option is one more path.
pub proof fn law_one_more_argument(args: Seq<Seq<char>>, more: Seq<char>)
    ensures
        ({
            let before = delete_words(args, args.len() as int);
            let after = delete_words(args.push(more), args.len() as int + 1);
            let gives = |o: DeleteOptions, rest: Seq<Seq<char>>|
                after == Ok::<(DeleteOptions, Seq<Seq<char>>), Seq<char>>((o, rest));
            &&& before matches Ok((o, rest)) ==> {
                &&& more == "--permanent"@ ==> gives(
                    DeleteOptions { permanent: true, force: o.force, recurse: o.recurse },
                    rest,
                )
                &&& more == "--force"@ || more == "-f"@ ==> gives(
                    DeleteOptions { permanent: o.permanent, force: true, recurse: o.recurse },
                    rest,
                )
                &&& more == "--recurse"@ || more == "-r"@ ==> gives(
                    DeleteOptions { permanent: o.permanent, force: o.force, recurse: true },
                    rest,
                )
                &&& more == "--help"@ || more == "-h"@ ==> after is Err
                &&& more.len() == 0 || more[0] != '-' ==> gives(o, rest.push(more))
            }
            &&& before is Err ==> after is Err
            &&& delete_words(Seq::empty(), 0) == Ok::<
                (DeleteOptions, Seq<Seq<char>>),
                Seq<char>,
            >((DeleteOptions { permanent: false, force: false, recurse: false }, Seq::empty()))
        }),
{
    lemma_words_before(args, more, args.len() as int);
    assert(args.push(more)[args.len() as int] == more);
    reveal_strlit("-");
    reveal_strlit("--permanent");
    reveal_strlit("--force");
    reveal_strlit("-f");
    reveal_strlit("--recurse");
    reveal_strlit("-r");
    reveal_strlit("--help");
    reveal_strlit("-h");
    assert("--permanent"@.len() == 11 && "--force"@.len() == 7 && "-f"@.len() == 2
        && "--recurse"@.len() == 9 && "-r"@.len() == 2 && "--help"@.len() == 6 && "-h"@.len() == 2);
    assert("--permanent"@[0] == '-' && "--force"@[0] == '-' && "-f"@[0] == '-' && "--recurse"@[0]
        == '-' && "-r"@[0] == '-' && "--help"@[0] == '-' && "-h"@[0] == '-');
    assert("-f"@[1] == 'f' && "-h"@[1] == 'h' && "-r"@[1] == 'r');
    assert("-"@.len() == 1 && "-"@[0] == '-');
    if text::begins_with(more, "-"@) {
        assert(more.take(1)[0] == more[0]);
    }
}

proof fn lemma_plain_words(args: Seq<Seq<char>>)
    requires
        flags::all_plain(args),
    ensures
        delete_words(args, args.len() as int) == Ok::<(DeleteOptions, Seq<Seq<char>>), Seq<char>>(
            (DeleteOptions { permanent: false, force: false, recurse: false }, args),
        ),
    decreases args.len(),
{
    if args.len() > 0 {
        let front = args.drop_last();
        assert forall|i: int| 0 <= i < front.len() implies (#[trigger] front[i]).len() == 0
            || front[i][0] != '-' by {
            assert(front[i] == args[i]);
        }
        lemma_plain_words(front);
        assert(args[args.len() - 1] == args.last());
        law_one_more_argument(front, args.last());
        assert(front.push(args.last()) =~= args);
    } else {
        assert(args =~= Seq::<Seq<char>>::empty());
    }
}

/// Deleting takes all the names and recycles unless told otherwise. To delete
/// for good takes `--permanent` and `--force`; one without the other is refused
/// and nothing is touched.
pub proof fn law_deleting_for_good_is_asked_for_twice(args: Seq<Seq<char>>, t: TalkView)
    requires
        args.len() > 0,
        flags::all_plain(args),
    ensures
        ({
            let plain = delete_command(args, t);
            let once = delete_command(args.push("--permanent"@), t);
            let twice = delete_command(args.push("--permanent"@).push("--force"@), t);
            let recycled = DeleteOptions { permanent: false, force: false, recurse: false };
            let erased = DeleteOptions { permanent: true, force: true, recurse: false };
            &&& plain.0 is Ok && plain.1 == delete_done(args, recycled, 0, t).1
            &&& once.0 is Err && once.1 == t
            &&& twice.0 is Ok && twice.1 == delete_done(args, erased, 0, t).1
            &&& delete_command(Seq::empty(), t).0 is Err && delete_command(Seq::empty(), t).1 == t
        }),
{
    lemma_plain_words(args);
    law_one_more_argument(args, "--permanent"@);
    law_one_more_argument(args.push("--permanent"@), "--force"@);
}

} // verus!
