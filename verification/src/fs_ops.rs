//! `mkdir`, `move` and `rename`.

use crate::copy;
use crate::copy::{goes_into_directory, make_parent, target_of};
use crate::dialog;
use crate::dialog::{Action, ActionView, Answer, AnswerView, Request, RequestView, Talk, TalkView};
use crate::flags;
use crate::flags::parse_force_flags;
use crate::fs_builtins;
use crate::methods;
use crate::paths;
use crate::paths::{below, equal_paths, parent, single_name, table_row_target};
use crate::table;
use crate::table::{cell, Table};
use crate::text;
use crate::text::{cat2, cat3, cat4, cat5, has_prefix, same, u64_text};
use vstd::prelude::*;

verus! {

// ---------------------------------------------------------------------------
// mkdir
// ---------------------------------------------------------------------------

/// Whether an argument asks for help.
pub open spec fn asks_for_help(arg: Seq<char>) -> bool {
    arg == "-h"@ || arg == "--help"@
}

/// The first of the arguments from `i` on that begins with a dash.
pub open spec fn first_option(args: Seq<Seq<char>>, i: int) -> Option<Seq<char>>
    decreases args.len() - i,
{
    if i < 0 || i >= args.len() {
        None
    } else if text::begins_with(args[i], "-"@) {
        Some(args[i])
    } else {
        first_option(args, i + 1)
    }
}

/// What making the first `n` directories gives: how many were made and how
/// many were there, or the message of the first that could not be made.
pub open spec fn made_dirs(args: Seq<Seq<char>>, n: int, t: TalkView) -> (
    Result<(nat, nat), Seq<char>>,
    TalkView,
)
    decreases n,
{
    if n <= 0 {
        (Ok((0, 0)), t)
    } else {
        let (before, t1) = made_dirs(args, n - 1, t);
        match before {
            Err(e) => (Err(e), t1),
            Ok((created, skipped)) => {
                let (a, t2) = dialog::asked(t1, RequestView::IsDirectory(args[n - 1]));
                if a.as_truth() {
                    (Ok((created, skipped + 1)), t2)
                } else {
                    let (r, t3) = dialog::acted(t2, ActionView::CreateDirs(args[n - 1]));
                    match r {
                        Err(e) => (Err("mkdir: "@ + args[n - 1] + ": "@ + e), t3),
                        Ok(_) => (Ok((created + 1, skipped)), t3),
                    }
                }
            },
        }
    }
}

/// The line that sums `mkdir` up.
pub open spec fn mkdir_summary(created: nat, skipped: nat) -> Seq<char> {
    let head = "ion-win: mkdir: created "@ + text::nat_text(created) + " folder(s)"@;
    if skipped > 0 {
        head + ", already existed "@ + text::nat_text(skipped)
    } else {
        head
    }
}

/// What `mkdir` with its arguments gives.
pub open spec fn mkdir_command(args: Seq<Seq<char>>, t: TalkView) -> (
    Result<Seq<char>, Seq<char>>,
    TalkView,
) {
    if args.len() == 0 || (exists|i: int| 0 <= i < args.len() && #[trigger] asks_for_help(args[i])) {
        (Err("mkdir: usage: mkdir DIR..."@), t)
    } else {
        match first_option(args, 0) {
            Some(o) => (Err("mkdir: unknown option: "@ + o), t),
            None => {
                let (r, t1) = made_dirs(args, args.len() as int, t);
                (
                    match r {
                        Err(e) => Err(e),
                        Ok((created, skipped)) => Ok(mkdir_summary(created, skipped)),
                    },
                    t1,
                )
            },
        }
    }
}

proof fn lemma_made_stays(args: Seq<Seq<char>>, n: int, m: int, t: TalkView)
    requires
        0 <= n <= m,
        made_dirs(args, n, t).0 is Err,
    ensures
        made_dirs(args, m, t) == made_dirs(args, n, t),
    decreases m - n,
{
    if n < m {
        lemma_made_stays(args, n, m - 1, t);
    }
}

fn help_wanted(args: &[String]) -> (r: bool)
    ensures
        r == exists|i: int|
            0 <= i < args@.len() && #[trigger] asks_for_help(text::texts(args@)[i]),
{
    let ghost all = text::texts(args@);
    let mut i: usize = 0;
    while i < args.len()
        invariant
            i <= args@.len(),
            all == text::texts(args@),
            forall|k: int| 0 <= k < i ==> !#[trigger] asks_for_help(all[k]),
        decreases args@.len() - i,
    {
        assert(all[i as int] == args@[i as int]@);
        if same(args[i].as_str(), "-h") || same(args[i].as_str(), "--help") {
            assert(asks_for_help(all[i as int]));
            return true;
        }
        i = i + 1;
    }
    false
}

fn find_option(args: &[String]) -> (r: Option<String>)
    ensures
        match r {
            Some(o) => first_option(text::texts(args@), 0) == Some(o@),
            None => first_option(text::texts(args@), 0) is None,
        },
{
    let ghost all = text::texts(args@);
    let mut i: usize = 0;
    while i < args.len()
        invariant
            i <= args@.len(),
            all == text::texts(args@),
            first_option(all, 0) == first_option(all, i as int),
        decreases args@.len() - i,
    {
        assert(all[i as int] == args@[i as int]@);
        if has_prefix(args[i].as_str(), "-") {
            return Some(args[i].clone());
        }
        i = i + 1;
    }
    None
}

/// Runs `mkdir`: makes each directory, with those above it.
pub fn mkdir(args: &[String], talk: &mut Talk) -> (r: Result<String, String>)
    ensures
        (methods::text_outcome(r), final(talk)@) == mkdir_command(text::texts(args@), old(talk)@),
{
    let ghost all = text::texts(args@);
    let ghost start = talk@;
    if args.len() == 0 || help_wanted(args) {
        return Err("mkdir: usage: mkdir DIR...".to_owned());
    }
    match find_option(args) {
        Some(o) => return Err(cat2("mkdir: unknown option: ", o.as_str())),
        None => {},
    }
    let mut created: usize = 0;
    let mut skipped: usize = 0;
    let mut i: usize = 0;
    while i < args.len()
        invariant
            i <= args@.len(),
            all == text::texts(args@),
            created + skipped == i,
            mkdir_command(all, start) == ({
                let (r, t1) = made_dirs(all, all.len() as int, start);
                (
                    match r {
                        Err(e) => Err::<Seq<char>, Seq<char>>(e),
                        Ok((c, s)) => Ok(mkdir_summary(c, s)),
                    },
                    t1,
                )
            }),
            (Ok::<(nat, nat), Seq<char>>((created as nat, skipped as nat)), talk@) == made_dirs(
                all,
                i as int,
                start,
            ),
            start == old(talk)@,
        decreases args@.len() - i,
    {
        assert(all[i as int] == args@[i as int]@);
        proof {
            if made_dirs(all, i + 1, start).0 is Err {
                lemma_made_stays(all, i + 1, args@.len() as int, start);
            }
        }
        let dir = args[i].as_str();
        if talk.ask(Request::IsDirectory(args[i].clone())).truth() {
            skipped = skipped + 1;
        } else {
            match talk.act(Action::CreateDirs(args[i].clone())) {
                Err(e) => return Err(cat4("mkdir: ", dir, ": ", e.as_str())),
                Ok(_) => {},
            }
            created = created + 1;
        }
        i = i + 1;
    }
    let n = u64_text(created as u64);
    let head = cat3("ion-win: mkdir: created ", n.as_str(), " folder(s)");
    Ok(
        if skipped > 0 {
            let m = u64_text(skipped as u64);
            cat3(head.as_str(), ", already existed ", m.as_str())
        } else {
            head
        },
    )
}

// ---------------------------------------------------------------------------
// move
// ---------------------------------------------------------------------------

/// The usage of `move`.
pub open spec fn move_usage() -> Seq<char> {
    "move: usage: move [--force] SRC... DEST  |  TABLE | move [--force] DEST"@
}

/// What the arguments of `move` say.
pub open spec fn move_flags(args: Seq<Seq<char>>) -> Result<(bool, Seq<Seq<char>>), Seq<char>> {
    flags::force_flags(args, args.len() as int, "move"@, move_usage(), "-"@)
}

/// Splits the options from the other arguments of `move`.
pub fn parse_move_flags(args: &[String]) -> (r: Result<(bool, Vec<String>), String>)
    ensures
        flags::flags_outcome(r) == move_flags(text::texts(args@)),
{
    parse_force_flags(
        args,
        "move",
        "move: usage: move [--force] SRC... DEST  |  TABLE | move [--force] DEST",
        "-",
    )
}

/// Whether two paths name the same item: they are written alike, or both are
/// there and lead to the same place. The second value tells whether the
/// target is there; it is asked only where the first does not settle it.
pub open spec fn same_item(source: Seq<char>, target: Seq<char>, t: TalkView) -> (bool, TalkView) {
    if paths::same_path(source, target) {
        (true, t)
    } else {
        let (there, t1) = dialog::exists_at(t, target);
        if !there {
            (false, t1)
        } else {
            let (a, t2) = dialog::asked(t1, RequestView::Canonical(source));
            match a {
                AnswerView::Text(x) => {
                    let (b, t3) = dialog::asked(t2, RequestView::Canonical(target));
                    (
                        match b {
                            AnswerView::Text(y) => paths::same_path(x, y),
                            _ => false,
                        },
                        t3,
                    )
                },
                _ => (false, t2),
            }
        }
    }
}

fn names_same_item(source: &str, target: &str, talk: &mut Talk) -> (r: bool)
    ensures
        (r, final(talk)@) == same_item(source@, target@, old(talk)@),
{
    if equal_paths(source, target) {
        return true;
    }
    if !talk.is_there(target) {
        return false;
    }
    match talk.ask(Request::Canonical(source.to_owned())) {
        Answer::Text(x) => match talk.ask(Request::Canonical(target.to_owned())) {
            Answer::Text(y) => equal_paths(x.as_str(), y.as_str()),
            _ => false,
        },
        _ => false,
    }
}

/// What clearing the way for a move gives: nothing is there, or a file that
/// may be replaced is removed.
pub open spec fn cleared(target: Seq<char>, force: bool, t: TalkView) -> (
    Result<(), Seq<char>>,
    TalkView,
) {
    let (there, t1) = dialog::exists_at(t, target);
    if !there {
        (Ok(()), t1)
    } else if !force {
        (Err(target + ": destination already exists (use --force to replace a file)"@), t1)
    } else {
        let (a, t2) = dialog::asked(t1, RequestView::Examine(target));
        match a {
            AnswerView::File(f) => if f.is_dir {
                (Err(target + ": refusing to replace an existing directory"@), t2)
            } else {
                let (r, t3) = dialog::acted(t2, ActionView::RemoveFile(target));
                match r {
                    Err(e) => (Err(target + ": "@ + e), t3),
                    Ok(_) => (Ok(()), t3),
                }
            },
            _ => (Err(target + ": "@ + a.as_failure()), t2),
        }
    }
}

fn clear_target(target: &str, force: bool, talk: &mut Talk) -> (r: Result<(), String>)
    ensures
        (dialog::outcome(r), final(talk)@) == cleared(target@, force, old(talk)@),
{
    if !talk.is_there(target) {
        return Ok(());
    }
    if !force {
        return Err(cat2(target, ": destination already exists (use --force to replace a file)"));
    }
    let a = talk.ask(Request::Examine(target.to_owned()));
    match a {
        Answer::File(f) => if f.is_dir {
            Err(cat2(target, ": refusing to replace an existing directory"))
        } else {
            match talk.act(Action::RemoveFile(target.to_owned())) {
                Err(e) => Err(cat3(target, ": ", e.as_str())),
                Ok(_) => Ok(()),
            }
        },
        _ => {
            let e = a.into_failure();
            Err(cat3(target, ": ", e.as_str()))
        },
    }
}

/// What the last step of a move gives: the item is renamed, or, where that
/// fails, a file is copied and its source removed; when the source cannot be
/// removed the copy is taken back.
pub open spec fn relocated(source: Seq<char>, target: Seq<char>, is_file: bool, t: TalkView) -> (
    Result<(), Seq<char>>,
    TalkView,
) {
    let (renamed, t1) = dialog::acted(t, ActionView::Rename(source, target));
    match renamed {
        Ok(_) => (Ok(()), t1),
        Err(e) => if !is_file {
            (Err(source + ": "@ + e), t1)
        } else {
            let (done, t2) = dialog::acted(t1, ActionView::CopyFile(source, target));
            match done {
                Err(c) => (
                    Err(source + ": move failed ("@ + e + "); copy fallback failed ("@ + c + ")"@),
                    t2,
                ),
                Ok(_) => {
                    let (removed, t3) = dialog::acted(t2, ActionView::RemoveFile(source));
                    match removed {
                        Ok(_) => (Ok(()), t3),
                        Err(x) => (
                            Err(
                                source
                                    + ": copied but could not remove source; destination rolled back: "@
                                    + x,
                            ),
                            dialog::acted(t3, ActionView::RemoveFile(target)).1,
                        ),
                    }
                },
            }
        },
    }
}

fn relocate(source: &str, target: &str, is_file: bool, talk: &mut Talk) -> (r: Result<(), String>)
    ensures
        (dialog::outcome(r), final(talk)@) == relocated(source@, target@, is_file, old(talk)@),
{
    let e = match talk.act(Action::Rename(source.to_owned(), target.to_owned())) {
        Ok(_) => return Ok(()),
        Err(e) => e,
    };
    if !is_file {
        return Err(cat3(source, ": ", e.as_str()));
    }
    match talk.act(Action::CopyFile(source.to_owned(), target.to_owned())) {
        Err(c) => {
            let head = cat4(source, ": move failed (", e.as_str(), "); copy fallback failed (");
            Err(cat3(head.as_str(), c.as_str(), ")"))
        },
        Ok(_) => match talk.act(Action::RemoveFile(source.to_owned())) {
            Ok(_) => Ok(()),
            Err(x) => {
                let _ignored = talk.act(Action::RemoveFile(target.to_owned()));
                Err(
                    cat3(
                        source,
                        ": copied but could not remove source; destination rolled back: ",
                        x.as_str(),
                    ),
                )
            },
        },
    }
}

/// What moving one item gives.
pub open spec fn moved_one(source: Seq<char>, target: Seq<char>, force: bool, t: TalkView) -> (
    Result<(), Seq<char>>,
    TalkView,
) {
    let (a, t1) = dialog::asked(t, RequestView::Examine(source));
    match a {
        AnswerView::File(f) => {
            let (alike, t2) = same_item(source, target, t1);
            if alike {
                (Err(source + ": source and destination are the same item"@), t2)
            } else {
                let (way, t3) = cleared(target, force, t2);
                match way {
                    Err(e) => (Err(e), t3),
                    Ok(_) => {
                        let (made, t4) = copy::parent_made(target, t3);
                        match made {
                            Err(e) => (
                                Err(
                                    (match paths::parent_of(target) {
                                        Some(p) => p,
                                        None => Seq::empty(),
                                    }) + ": "@ + e,
                                ),
                                t4,
                            ),
                            Ok(_) => relocated(source, target, f.is_file, t4),
                        }
                    },
                }
            }
        },
        _ => (Err(source + ": "@ + a.as_failure()), t1),
    }
}

/// Moves one item.
pub fn move_one(source: &str, target: &str, force: bool, talk: &mut Talk) -> (r: Result<(), String>)
    ensures
        (dialog::outcome(r), final(talk)@) == moved_one(source@, target@, force, old(talk)@),
{
    let a = talk.ask(Request::Examine(source.to_owned()));
    match a {
        Answer::File(f) => {
            if names_same_item(source, target, talk) {
                return Err(cat2(source, ": source and destination are the same item"));
            }
            match clear_target(target, force, talk) {
                Err(e) => return Err(e),
                Ok(_) => {},
            }
            match make_parent(target, talk) {
                Err(e) => {
                    let p = match parent(target) {
                        Some(p) => p,
                        None => String::new(),
                    };
                    return Err(cat3(p.as_str(), ": ", e.as_str()));
                },
                Ok(_) => {},
            }
            relocate(source, target, f.is_file, talk)
        },
        _ => {
            let e = a.into_failure();
            Err(cat3(source, ": ", e.as_str()))
        },
    }
}

/// The line that sums a move up.
pub open spec fn move_summary(moved: nat, skipped: nat) -> Seq<char> {
    let head = "ion-win: move: moved "@ + text::nat_text(moved) + " item(s)"@;
    if skipped > 0 {
        head + ", skipped "@ + text::nat_text(skipped)
    } else {
        head
    }
}

fn summary(moved: usize, skipped: usize) -> (r: String)
    ensures
        r@ == move_summary(moved as nat, skipped as nat),
{
    let n = u64_text(moved as u64);
    let head = cat3("ion-win: move: moved ", n.as_str(), " item(s)");
    if skipped > 0 {
        let m = u64_text(skipped as u64);
        cat3(head.as_str(), ", skipped ", m.as_str())
    } else {
        head
    }
}

/// What moving the first `n` sources gives.
pub open spec fn moved_names(
    sources: Seq<Seq<char>>,
    n: int,
    dest: Seq<char>,
    into: bool,
    force: bool,
    t: TalkView,
) -> (nat, nat, TalkView)
    decreases n,
{
    if n <= 0 {
        (0, 0, t)
    } else {
        let (moved, skipped, t1) = moved_names(sources, n - 1, dest, into, force, t);
        let src = sources[n - 1];
        let (r, t2) = moved_one(src, copy::named_target(src, dest, into), force, t1);
        match r {
            Ok(_) => (moved + 1, skipped, t2),
            Err(e) => (moved, skipped + 1, dialog::noted(t2, "ion-win: move: "@ + e)),
        }
    }
}

/// What moving sources by name gives.
pub open spec fn move_done(sources: Seq<Seq<char>>, dest: Seq<char>, force: bool, t: TalkView) -> (
    Seq<char>,
    TalkView,
) {
    let (into, t1) = copy::into_directory(sources.len(), dest, t);
    let (moved, skipped, t2) = moved_names(sources, sources.len() as int, dest, into, force, t1);
    (move_summary(moved, skipped), t2)
}

/// Moves each source to the destination, or into it where it is a directory.
pub fn move_paths(sources: &[String], dest: &str, force: bool, talk: &mut Talk) -> (r: String)
    ensures
        (r@, final(talk)@) == move_done(text::texts(sources@), dest@, force, old(talk)@),
{
    let ghost all = text::texts(sources@);
    let into = goes_into_directory(sources.len(), dest, talk);
    let ghost t1 = talk@;
    let mut moved: usize = 0;
    let mut skipped: usize = 0;
    let mut i: usize = 0;
    while i < sources.len()
        invariant
            i <= sources@.len(),
            all == text::texts(sources@),
            moved + skipped == i,
            (moved as nat, skipped as nat, talk@) == moved_names(
                all,
                i as int,
                dest@,
                into,
                force,
                t1,
            ),
        decreases sources@.len() - i,
    {
        assert(all[i as int] == sources@[i as int]@);
        let target = target_of(sources[i].as_str(), dest, into);
        match move_one(sources[i].as_str(), target.as_str(), force, talk) {
            Ok(_) => {
                moved = moved + 1;
            },
            Err(e) => {
                talk.note(cat2("ion-win: move: ", e.as_str()));
                skipped = skipped + 1;
            },
        }
        i = i + 1;
    }
    summary(moved, skipped)
}

/// What moving the first `n` rows of a table gives.
pub open spec fn moved_rows(
    rows: Seq<table::RowView>,
    n: int,
    dest: Seq<char>,
    force: bool,
    t: TalkView,
) -> (nat, nat, TalkView)
    decreases n,
{
    if n <= 0 {
        (0, 0, t)
    } else {
        let (moved, skipped, t1) = moved_rows(rows, n - 1, dest, force, t);
        match table::cell_from(rows[n - 1], "path"@, 0) {
            None => (
                moved,
                skipped + 1,
                dialog::noted(t1, "ion-win: move: row has no 'path' column"@),
            ),
            Some(path) => {
                let (r, t2) = moved_one(path, paths::target_below(dest, path), force, t1);
                match r {
                    Ok(_) => (moved + 1, skipped, t2),
                    Err(e) => (moved, skipped + 1, dialog::noted(t2, "ion-win: move: "@ + e)),
                }
            },
        }
    }
}

/// What moving the rows of a table gives.
pub open spec fn move_table_done(
    rows: Seq<table::RowView>,
    dest: Seq<char>,
    force: bool,
    t: TalkView,
) -> (Seq<char>, TalkView) {
    let (moved, skipped, t1) = moved_rows(rows, rows.len() as int, dest, force, t);
    (move_summary(moved, skipped), t1)
}

/// Moves the item of each row's `path` column below the destination, keeping
/// the directories that lead to it.
pub fn move_table(t: &Table, dest: &str, force: bool, talk: &mut Talk) -> (r: String)
    ensures
        (r@, final(talk)@) == move_table_done(t@, dest@, force, old(talk)@),
{
    let ghost start = talk@;
    let mut moved: usize = 0;
    let mut skipped: usize = 0;
    let mut i: usize = 0;
    while i < t.rows.len()
        invariant
            i <= t.rows@.len(),
            moved + skipped == i,
            (moved as nat, skipped as nat, talk@) == moved_rows(t@, i as int, dest@, force, start),
        decreases t.rows@.len() - i,
    {
        assert(t@[i as int] == table::row_view(t.rows@[i as int]@));
        match cell(&t.rows[i], "path") {
            None => {
                talk.note("ion-win: move: row has no 'path' column".to_owned());
                skipped = skipped + 1;
            },
            Some(path) => {
                let target = table_row_target(dest, path.as_str());
                match move_one(path.as_str(), target.as_str(), force, talk) {
                    Ok(_) => {
                        moved = moved + 1;
                    },
                    Err(e) => {
                        talk.note(cat2("ion-win: move: ", e.as_str()));
                        skipped = skipped + 1;
                    },
                }
            },
        }
        i = i + 1;
    }
    summary(moved, skipped)
}

/// Where a row's `path` ends up below a destination.
pub fn table_target(dest: &str, source: &str) -> (r: String)
    ensures
        r@ == paths::target_below(dest@, source@),
{
    table_row_target(dest, source)
}

/// What `move` with its arguments gives.
pub open spec fn move_command(args: Seq<Seq<char>>, t: TalkView) -> (
    Result<Seq<char>, Seq<char>>,
    TalkView,
) {
    match move_flags(args) {
        Err(e) => (Err(e), t),
        Ok((force, rest)) => if rest.len() < 2 {
            (Err(move_usage()), t)
        } else {
            let (s, t1) = move_done(rest.drop_last(), rest.last(), force, t);
            (Ok(s), t1)
        },
    }
}

/// Runs `move` with its arguments: sources and a destination.
pub fn parse_and_move(args: &[String], talk: &mut Talk) -> (r: Result<String, String>)
    ensures
        (methods::text_outcome(r), final(talk)@) == move_command(text::texts(args@), old(talk)@),
{
    match parse_move_flags(args) {
        Err(e) => Err(e),
        Ok((force, mut rest)) => {
            let ghost all = text::texts(rest@);
            if rest.len() < 2 {
                return Err(
                    "move: usage: move [--force] SRC... DEST  |  TABLE | move [--force] DEST".to_owned(),
                );
            }
            match rest.pop() {
                None => Err(String::new()),
                Some(dest) => {
                    assert(text::texts(rest@) =~= all.drop_last());
                    assert(dest@ == all.last());
                    Ok(move_paths(&rest, dest.as_str(), force, talk))
                },
            }
        },
    }
}

// ---------------------------------------------------------------------------
// rename
// ---------------------------------------------------------------------------

/// The usage of `rename`.
pub open spec fn rename_usage() -> Seq<char> {
    "rename: usage: rename [--force] SOURCE NEW_NAME"@
}

/// What the arguments of `rename` say.
pub open spec fn rename_flags(args: Seq<Seq<char>>) -> Result<(bool, Seq<Seq<char>>), Seq<char>> {
    flags::force_flags(args, args.len() as int, "rename"@, rename_usage(), "-"@)
}

/// The path beside `source` that goes by `name`.
pub open spec fn sibling(source: Seq<char>, name: Seq<char>) -> Seq<char> {
    fs_builtins::path_below(
        match paths::parent_of(source) {
            Some(p) => p,
            None => Seq::empty(),
        },
        name,
    )
}

/// What `rename` with its arguments gives.
pub open spec fn rename_command(args: Seq<Seq<char>>, t: TalkView) -> (
    Result<Seq<char>, Seq<char>>,
    TalkView,
) {
    match rename_flags(args) {
        Err(e) => (Err(e), t),
        Ok((force, rest)) => if rest.len() != 2 {
            (Err(rename_usage()), t)
        } else if !paths::is_single_name(rest[1]) {
            (Err("rename: NEW_NAME must be a name, not a path (use move to relocate)"@), t)
        } else {
            let (r, t1) = moved_one(rest[0], sibling(rest[0], rest[1]), force, t);
            (
                match r {
                    Err(e) => Err("rename: "@ + e),
                    Ok(_) => Ok("ion-win: rename: "@ + rest[0] + " -> "@ + rest[1]),
                },
                t1,
            )
        },
    }
}

/// Runs `rename`: gives an item another name where it is.
pub fn rename(args: &[String], talk: &mut Talk) -> (r: Result<String, String>)
    ensures
        (methods::text_outcome(r), final(talk)@) == rename_command(text::texts(args@), old(talk)@),
{
    match parse_force_flags(args, "rename", "rename: usage: rename [--force] SOURCE NEW_NAME", "-") {
        Err(e) => Err(e),
        Ok((force, rest)) => {
            let ghost all = text::texts(rest@);
            if rest.len() != 2 {
                return Err("rename: usage: rename [--force] SOURCE NEW_NAME".to_owned());
            }
            assert(all[0] == rest@[0]@);
            assert(all[1] == rest@[1]@);
            if !single_name(rest[1].as_str()) {
                return Err(
                    "rename: NEW_NAME must be a name, not a path (use move to relocate)".to_owned(),
                );
            }
            let target = match parent(rest[0].as_str()) {
                Some(p) => below(p.as_str(), rest[1].as_str()),
                None => below("", rest[1].as_str()),
            };
            proof {
                reveal_strlit("");
                assert(""@ =~= Seq::<char>::empty());
            }
            match move_one(rest[0].as_str(), target.as_str(), force, talk) {
                Err(e) => Err(cat2("rename: ", e.as_str())),
                Ok(_) => Ok(
                    cat4("ion-win: rename: ", rest[0].as_str(), " -> ", rest[1].as_str()),
                ),
            }
        },
    }
}

// ---------------------------------------------------------------------------
// Laws
// ---------------------------------------------------------------------------

/// A move to the very same path is refused and changes nothing: beyond the
/// question about the source nothing is asked for, forced or not.
pub proof fn law_move_to_itself_is_refused(source: Seq<char>, force: bool, t: TalkView)
    ensures
        moved_one(source, source, force, t).0 is Err,
        moved_one(source, source, force, t).1 == dialog::asked(t, RequestView::Examine(source)).1,
{
}

/// Moving takes the last name as the place and all before it as what to take; a
/// `--force` behind them only forces. A name alone is refused, and nothing is
/// touched.
pub proof fn law_move_takes_names_and_a_place(
    sources: Seq<Seq<char>>,
    dest: Seq<char>,
    t: TalkView,
)
    requires
        sources.len() > 0,
        flags::all_plain(sources.push(dest)),
    ensures
        ({
            let args = sources.push(dest);
            let plain = move_command(args, t);
            let forced = move_command(args.push("--force"@), t);
            let (s, t1) = move_done(sources, dest, false, t);
            let (f, t2) = move_done(sources, dest, true, t);
            &&& plain == (Ok::<Seq<char>, Seq<char>>(s), t1)
            &&& forced == (Ok::<Seq<char>, Seq<char>>(f), t2)
            &&& move_command(seq![dest], t).0 is Err && move_command(seq![dest], t).1 == t
            &&& move_command(Seq::empty(), t).0 is Err && move_command(Seq::empty(), t).1 == t
        }),
{
    let args = sources.push(dest);
    let u = move_usage();
    flags::law_plain_arguments_are_names(args, "--force"@, "move"@, u, "-"@);
    assert(args.drop_last() =~= sources);
    let one = seq![dest];
    assert forall|i: int| 0 <= i < one.len() implies (#[trigger] one[i]).len() == 0 || one[i][0]
        != '-' by {
        assert(args[sources.len() as int] == dest);
    }
    flags::law_plain_arguments_are_names(one, "--force"@, "move"@, u, "-"@);
    flags::law_plain_arguments_are_names(Seq::empty(), "--force"@, "move"@, u, "-"@);
}

/// Renaming moves a file to a name beside it, whatever the directory, and
/// says so; a path in place of a name is refused and nothing is touched.
pub proof fn law_renaming_stays_in_the_directory(
    dir: Seq<char>,
    sep: char,
    file: Seq<char>,
    name: Seq<char>,
    t: TalkView,
)
    requires
        paths::is_part(dir),
        paths::is_part(file),
        paths::is_part(name),
        paths::is_separator(sep),
        dir[0] != '-',
        name[0] != '-',
    ensures
        ({
            let source = dir + seq![sep] + file;
            let (r, t1) = rename_command(seq![source, name], t);
            let (m, t2) = moved_one(source, fs_builtins::path_below(dir, name), false, t);
            &&& t1 == t2
            &&& r is Ok <==> m is Ok
            &&& rename_command(seq![name, source], t).0 is Err
            &&& rename_command(seq![name, source], t).1 == t
        }),
{
    let source = dir + seq![sep] + file;
    paths::law_separators_part_names(dir, sep, file);
    paths::law_name_is_its_only_part(name);
    assert(source[0] == dir[0]);
    let u = rename_usage();
    flags::law_plain_arguments_are_names(seq![source, name], "-f"@, "rename"@, u, "-"@);
    flags::law_plain_arguments_are_names(seq![name, source], "-f"@, "rename"@, u, "-"@);
}

proof fn lemma_no_option(args: Seq<Seq<char>>, i: int)
    requires
        flags::all_plain(args),
        0 <= i,
    ensures
        first_option(args, i) is None,
    decreases args.len() - i,
{
    if i < args.len() {
        reveal_strlit("-");
        assert("-"@.len() == 1 && "-"@[0] == '-');
        if text::begins_with(args[i], "-"@) {
            assert(args[i].take(1)[0] == args[i][0]);
        }
        lemma_no_option(args, i + 1);
    }
}

proof fn lemma_some_option(args: Seq<Seq<char>>, k: int, i: int)
    requires
        0 <= i <= k < args.len(),
        args[k].len() > 0,
        args[k][0] == '-',
    ensures
        first_option(args, i) is Some,
    decreases k - i,
{
    reveal_strlit("-");
    assert("-"@.len() == 1 && "-"@[0] == '-');
    if i < k {
        lemma_some_option(args, k, i + 1);
    } else {
        assert(args[k].take(1) =~= "-"@);
    }
}

/// Making directories takes every argument without a dash; one with a dash is
/// refused wherever it stands, and so is nothing at all: nothing is made then.
pub proof fn law_directories_are_all_names(args: Seq<Seq<char>>, k: int, t: TalkView)
    ensures
        args.len() > 0 && flags::all_plain(args) ==> {
            let (r, t1) = made_dirs(args, args.len() as int, t);
            &&& mkdir_command(args, t).1 == t1
            &&& mkdir_command(args, t).0 is Ok <==> r is Ok
        },
        0 <= k < args.len() && args[k].len() > 0 && args[k][0] == '-' ==> mkdir_command(args, t).0
            is Err && mkdir_command(args, t).1 == t,
        mkdir_command(Seq::empty(), t).0 is Err && mkdir_command(Seq::empty(), t).1 == t,
{
    reveal_strlit("-h");
    reveal_strlit("--help");
    assert("-h"@.len() == 2 && "--help"@.len() == 6 && "-h"@[0] == '-' && "--help"@[0] == '-');
    if args.len() > 0 && flags::all_plain(args) {
        lemma_no_option(args, 0);
        assert forall|i: int| 0 <= i < args.len() implies !(#[trigger] asks_for_help(args[i])) by {
            assert(args[i].len() == 0 || args[i][0] != '-');
        }
    }
    if 0 <= k < args.len() && args[k].len() > 0 && args[k][0] == '-' {
        lemma_some_option(args, k, 0);
    }
}

} // verus!
