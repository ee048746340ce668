//! `copy` and `cp`: copying files by name, or those that a table lists.
//!
//! An existing destination is refused unless forced, and a source that cannot
//! be copied is reported and skipped.

use crate::dialog;
use crate::dialog::{Action, ActionView, Request, RequestView, Talk, TalkView};
use crate::flags;
use crate::flags::parse_force_flags;
use crate::fs_builtins;
use crate::methods;
use crate::paths;
use crate::paths::{file_name, parent, table_row_target};
use crate::table;
use crate::table::{cell, Table};
use crate::text;
use crate::text::{cat2, cat3, cat4, chars_of, u64_text};
use vstd::prelude::*;

verus! {

/// The usage of `copy`.
pub open spec fn copy_usage() -> Seq<char> {
    "copy: usage: copy [--force] SRC... DEST  |  TABLE | copy [--force] DEST"@
}

/// What the arguments of `copy` say.
pub open spec fn copy_flags(args: Seq<Seq<char>>) -> Result<(bool, Seq<Seq<char>>), Seq<char>> {
    flags::force_flags(args, args.len() as int, "copy"@, copy_usage(), "--"@)
}

/// Splits the options from the other arguments of `copy`.
pub fn parse_flags(args: &[String]) -> (r: Result<(bool, Vec<String>), String>)
    ensures
        flags::flags_outcome(r) == copy_flags(text::texts(args@)),
{
    parse_force_flags(
        args,
        "copy",
        "copy: usage: copy [--force] SRC... DEST  |  TABLE | copy [--force] DEST",
        "--",
    )
}

/// What copying one file gives.
pub open spec fn copied_one(src: Seq<char>, dest: Seq<char>, force: bool, t: TalkView) -> (
    Result<(), Seq<char>>,
    TalkView,
) {
    let (there, t1) = dialog::exists_at(t, dest);
    if there && !force {
        (Err(dest + ": destination already exists (use --force to overwrite)"@), t1)
    } else {
        let (made, t2) = parent_made(dest, t1);
        match made {
            Err(e) => (Err(src + ": "@ + e), t2),
            Ok(_) => {
                let (done, t3) = dialog::acted(t2, ActionView::CopyFile(src, dest));
                match done {
                    Err(e) => (Err(src + ": "@ + e), t3),
                    Ok(_) => (Ok(()), t3),
                }
            },
        }
    }
}

/// What making the directory above a path gives, where it has one.
pub open spec fn parent_made(path: Seq<char>, t: TalkView) -> (Result<(), Seq<char>>, TalkView) {
    match paths::parent_of(path) {
        Some(p) => if p.len() > 0 {
            dialog::acted(t, ActionView::CreateDirs(p))
        } else {
            (Ok(()), t)
        },
        None => (Ok(()), t),
    }
}

/// Makes the directory above a path, where it has one.
pub fn make_parent(path: &str, talk: &mut Talk) -> (r: Result<(), String>)
    ensures
        (dialog::outcome(r), final(talk)@) == parent_made(path@, old(talk)@),
{
    match parent(path) {
        Some(p) => if p.as_str().is_empty() {
            Ok(())
        } else {
            talk.act(Action::CreateDirs(p))
        },
        None => Ok(()),
    }
}

/// Copies one file.
pub fn copy_one(src: &str, dest: &str, force: bool, talk: &mut Talk) -> (r: Result<(), String>)
    ensures
        (dialog::outcome(r), final(talk)@) == copied_one(src@, dest@, force, old(talk)@),
{
    if talk.is_there(dest) && !force {
        return Err(cat2(dest, ": destination already exists (use --force to overwrite)"));
    }
    match make_parent(dest, talk) {
        Err(e) => return Err(cat3(src, ": ", e.as_str())),
        Ok(_) => {},
    }
    match talk.act(Action::CopyFile(src.to_owned(), dest.to_owned())) {
        Err(e) => Err(cat3(src, ": ", e.as_str())),
        Ok(_) => Ok(()),
    }
}

/// The line that sums a copy up.
pub open spec fn copy_summary(copied: nat, skipped: nat) -> Seq<char> {
    let head = "ion-win: copy: copied "@ + text::nat_text(copied) + " file(s)"@;
    if skipped > 0 {
        head + ", skipped "@ + text::nat_text(skipped)
    } else {
        head
    }
}

/// The line that sums a copy up.
pub fn summary(copied: usize, skipped: usize) -> (r: String)
    ensures
        r@ == copy_summary(copied as nat, skipped as nat),
{
    let n = u64_text(copied as u64);
    let head = cat3("ion-win: copy: copied ", n.as_str(), " file(s)");
    if skipped > 0 {
        let m = u64_text(skipped as u64);
        cat3(head.as_str(), ", skipped ", m.as_str())
    } else {
        head
    }
}

/// Whether a destination is a directory that sources go into: it is one, or
/// there are several sources, or it is written like one.
pub open spec fn into_directory(sources: nat, dest: Seq<char>, t: TalkView) -> (bool, TalkView) {
    let (a, t1) = dialog::asked(t, RequestView::IsDirectory(dest));
    (
        a.as_truth() || sources > 1 || (dest.len() > 0 && paths::is_separator(dest.last())),
        t1,
    )
}

/// Tells whether a destination is a directory that sources go into.
pub fn goes_into_directory(sources: usize, dest: &str, talk: &mut Talk) -> (r: bool)
    ensures
        (r, final(talk)@) == into_directory(sources as nat, dest@, old(talk)@),
{
    let is_dir = talk.ask(Request::IsDirectory(dest.to_owned())).truth();
    let v = chars_of(dest);
    is_dir || sources > 1 || (v.len() > 0 && (v[v.len() - 1] == '/' || v[v.len() - 1] == '\\'))
}

/// Where a named source goes.
pub open spec fn named_target(src: Seq<char>, dest: Seq<char>, into: bool) -> Seq<char> {
    if into {
        fs_builtins::path_below(
            dest,
            match paths::file_name_of(src) {
                Some(n) => n,
                None => src,
            },
        )
    } else {
        dest
    }
}

/// Finds where a named source goes.
pub fn target_of(src: &str, dest: &str, into: bool) -> (r: String)
    ensures
        r@ == named_target(src@, dest@, into),
{
    if into {
        match file_name(src) {
            Some(n) => paths::below(dest, n.as_str()),
            None => paths::below(dest, src),
        }
    } else {
        dest.to_owned()
    }
}

/// What copying the first `n` sources gives: how many were copied and how
/// many skipped.
pub open spec fn copied_names(
    sources: Seq<Seq<char>>,
    n: int,
    dest: Seq<char>,
    into: bool,
    force: bool,
    t: TalkView,
) -> (nat, nat, TalkView)
    decreases n,
{
    if n <= 0 {
        (0, 0, t)
    } else {
        let (copied, skipped, t1) = copied_names(sources, n - 1, dest, into, force, t);
        let src = sources[n - 1];
        let (r, t2) = copied_one(src, named_target(src, dest, into), force, t1);
        match r {
            Ok(_) => (copied + 1, skipped, t2),
            Err(e) => (copied, skipped + 1, dialog::noted(t2, "ion-win: copy: "@ + e)),
        }
    }
}

/// What copying sources by name gives.
pub open spec fn copy_done(sources: Seq<Seq<char>>, dest: Seq<char>, force: bool, t: TalkView) -> (
    Seq<char>,
    TalkView,
) {
    let (into, t1) = into_directory(sources.len(), dest, t);
    let (copied, skipped, t2) = copied_names(
        sources,
        sources.len() as int,
        dest,
        into,
        force,
        t1,
    );
    (copy_summary(copied, skipped), t2)
}

/// Copies each source to the destination, or into it where it is a directory.
pub fn copy_files(sources: &[String], dest: &str, force: bool, talk: &mut Talk) -> (r: String)
    ensures
        (r@, final(talk)@) == copy_done(text::texts(sources@), dest@, force, old(talk)@),
{
    let ghost all = text::texts(sources@);
    let into = goes_into_directory(sources.len(), dest, talk);
    let ghost t1 = talk@;
    let mut copied: usize = 0;
    let mut skipped: usize = 0;
    let mut i: usize = 0;
    while i < sources.len()
        invariant
            i <= sources@.len(),
            all == text::texts(sources@),
            copied + skipped == i,
            (copied as nat, skipped as nat, talk@) == copied_names(
                all,
                i as int,
                dest@,
                into,
                force,
                t1,
            ),
        decreases sources@.len() - i,
    {
        assert(all[i as int] == sources@[i as int]@);
        let target = target_of(sources[i].as_str(), dest, into);
        match copy_one(sources[i].as_str(), target.as_str(), force, talk) {
            Ok(_) => {
                copied = copied + 1;
            },
            Err(e) => {
                talk.note(cat2("ion-win: copy: ", e.as_str()));
                skipped = skipped + 1;
            },
        }
        i = i + 1;
    }
    summary(copied, skipped)
}

/// What copying the first `n` rows of a table gives.
pub open spec fn copied_rows(
    rows: Seq<table::RowView>,
    n: int,
    dest: Seq<char>,
    force: bool,
    t: TalkView,
) -> (nat, nat, TalkView)
    decreases n,
{
    if n <= 0 {
        (0, 0, t)
    } else {
        let (copied, skipped, t1) = copied_rows(rows, n - 1, dest, force, t);
        match table::cell_from(rows[n - 1], "path"@, 0) {
            None => (
                copied,
                skipped + 1,
                dialog::noted(t1, "ion-win: copy: row has no 'path' column"@),
            ),
            Some(path) => {
                let (r, t2) = copied_one(path, paths::target_below(dest, path), force, t1);
                match r {
                    Ok(_) => (copied + 1, skipped, t2),
                    Err(e) => (copied, skipped + 1, dialog::noted(t2, "ion-win: copy: "@ + e)),
                }
            },
        }
    }
}

/// What copying the rows of a table gives.
pub open spec fn copy_table_done(
    rows: Seq<table::RowView>,
    dest: Seq<char>,
    force: bool,
    t: TalkView,
) -> (Seq<char>, TalkView) {
    let (copied, skipped, t1) = copied_rows(rows, rows.len() as int, dest, force, t);
    (copy_summary(copied, skipped), t1)
}

/// Copies the file of each row's `path` column below the destination, keeping
/// the directories that lead to it.
pub fn copy_table(t: &Table, dest: &str, force: bool, talk: &mut Talk) -> (r: String)
    ensures
        (r@, final(talk)@) == copy_table_done(t@, dest@, force, old(talk)@),
{
    let ghost start = talk@;
    let mut copied: usize = 0;
    let mut skipped: usize = 0;
    let mut i: usize = 0;
    while i < t.rows.len()
        invariant
            i <= t.rows@.len(),
            copied + skipped == i,
            (copied as nat, skipped as nat, talk@) == copied_rows(
                t@,
                i as int,
                dest@,
                force,
                start,
            ),
        decreases t.rows@.len() - i,
    {
        assert(t@[i as int] == table::row_view(t.rows@[i as int]@));
        match cell(&t.rows[i], "path") {
            None => {
                talk.note("ion-win: copy: row has no 'path' column".to_owned());
                skipped = skipped + 1;
            },
            Some(path) => {
                let target = table_row_target(dest, path.as_str());
                match copy_one(path.as_str(), target.as_str(), force, talk) {
                    Ok(_) => {
                        copied = copied + 1;
                    },
                    Err(e) => {
                        talk.note(cat2("ion-win: copy: ", e.as_str()));
                        skipped = skipped + 1;
                    },
                }
            },
        }
        i = i + 1;
    }
    summary(copied, skipped)
}

/// What `copy` with its arguments gives.
pub open spec fn copy_command(args: Seq<Seq<char>>, t: TalkView) -> (
    Result<Seq<char>, Seq<char>>,
    TalkView,
) {
    match copy_flags(args) {
        Err(e) => (Err(e), t),
        Ok((force, rest)) => if rest.len() < 2 {
            (Err(copy_usage()), t)
        } else {
            let (s, t1) = copy_done(rest.drop_last(), rest.last(), force, t);
            (Ok(s), t1)
        },
    }
}

/// Runs `copy` with its arguments: sources and a destination.
pub fn parse_and_copy_files(args: &[String], talk: &mut Talk) -> (r: Result<String, String>)
    ensures
        (methods::text_outcome(r), final(talk)@) == copy_command(
            text::texts(args@),
            old(talk)@,
        ),
{
    match parse_flags(args) {
        Err(e) => Err(e),
        Ok((force, mut rest)) => {
            let ghost all = text::texts(rest@);
            if rest.len() < 2 {
                return Err(
                    "copy: usage: copy [--force] SRC... DEST  |  TABLE | copy [--force] DEST".to_owned(),
                );
            }
            match rest.pop() {
                None => Err(String::new()),
                Some(dest) => {
                    assert(text::texts(rest@) =~= all.drop_last());
                    assert(dest@ == all.last());
                    Ok(copy_files(&rest, dest.as_str(), force, talk))
                },
            }
        },
    }
}

// ---------------------------------------------------------------------------
// Laws
// ---------------------------------------------------------------------------

/// Every source is accounted for: it is copied or skipped.
pub proof fn law_every_source_is_counted(
    sources: Seq<Seq<char>>,
    n: int,
    dest: Seq<char>,
    into: bool,
    force: bool,
    t: TalkView,
)
    requires
        0 <= n,
    ensures
        ({
            let (copied, skipped, t2) = copied_names(sources, n, dest, into, force, t);
            copied + skipped == n
        }),
    decreases n,
{
    if n > 0 {
        law_every_source_is_counted(sources, n - 1, dest, into, force, t);
    }
}

/// A destination that is there is never written to unless forced: nothing
/// but the question whether it exists is asked.
pub proof fn law_no_overwrite_unless_forced(src: Seq<char>, dest: Seq<char>, t: TalkView)
    requires
        dialog::exists_at(t, dest).0,
    ensures
        copied_one(src, dest, false, t).0 is Err,
        copied_one(src, dest, false, t).1 == dialog::exists_at(t, dest).1,
{
}

/// Copying takes the last name as the place and all before it as what to take; a
/// `--force` behind them only forces. A name alone is refused, and nothing is
/// touched.
pub proof fn law_copy_takes_names_and_a_place(
    sources: Seq<Seq<char>>,
    dest: Seq<char>,
    t: TalkView,
)
    requires
        sources.len() > 0,
        flags::all_plain(sources.push(dest)),
    ensures
        ({
            let args = sources.push(dest);
            let plain = copy_command(args, t);
            let forced = copy_command(args.push("--force"@), t);
            let (s, t1) = copy_done(sources, dest, false, t);
            let (f, t2) = copy_done(sources, dest, true, t);
            &&& plain == (Ok::<Seq<char>, Seq<char>>(s), t1)
            &&& forced == (Ok::<Seq<char>, Seq<char>>(f), t2)
            &&& copy_command(seq![dest], t).0 is Err && copy_command(seq![dest], t).1 == t
            &&& copy_command(Seq::empty(), t).0 is Err && copy_command(Seq::empty(), t).1 == t
        }),
{
    let args = sources.push(dest);
    let u = copy_usage();
    flags::law_plain_arguments_are_names(args, "--force"@, "copy"@, u, "--"@);
    assert(args.drop_last() =~= sources);
    let one = seq![dest];
    assert forall|i: int| 0 <= i < one.len() implies (#[trigger] one[i]).len() == 0 || one[i][0]
        != '-' by {
        assert(args[sources.len() as int] == dest);
    }
    flags::law_plain_arguments_are_names(one, "--force"@, "copy"@, u, "--"@);
    flags::law_plain_arguments_are_names(Seq::empty(), "--force"@, "copy"@, u, "--"@);
}

} // verus!
