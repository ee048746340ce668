//! Where the shell starts, and where it keeps its state.

use crate::dialog;
use crate::dialog::{Answer, AnswerView, Request, RequestView, Talk, TalkView};
use crate::fs_builtins;
use crate::paths;
use crate::paths::{below, equal_paths, parent};
use vstd::prelude::*;

verus! {

/// Whether a directory is one that Windows starts programs in by default.
pub open spec fn starts_by_default(current: Seq<char>, windir: Seq<char>) -> bool {
    ||| paths::same_path(current, windir)
    ||| paths::same_path(current, fs_builtins::path_below(windir, "System32"@))
    ||| paths::same_path(current, fs_builtins::path_below(windir, "SysWOW64"@))
}

/// Tells whether a directory is one that Windows starts programs in by
/// default.
pub fn is_windows_default(current: &str, windir: &str) -> (r: bool)
    ensures
        r == starts_by_default(current@, windir@),
{
    let system = below(windir, "System32");
    let other = below(windir, "SysWOW64");
    equal_paths(current, windir) || equal_paths(current, system.as_str()) || equal_paths(
        current,
        other.as_str(),
    )
}

/// Whether the working directory is such a one.
pub open spec fn default_here(t: TalkView) -> (bool, TalkView) {
    let (a, t1) = dialog::asked(t, RequestView::WorkingDirectory);
    match a {
        AnswerView::Text(cwd) => {
            let (b, t2) = dialog::asked(t1, RequestView::Canonical(cwd));
            match b {
                AnswerView::Text(current) => {
                    let (c, t3) = dialog::asked(t2, RequestView::Environment("WINDIR"@));
                    match c {
                        AnswerView::Text(dir) => {
                            let (d, t4) = dialog::asked(t3, RequestView::Canonical(dir));
                            match d {
                                AnswerView::Text(windir) => (
                                    starts_by_default(current, windir),
                                    t4,
                                ),
                                _ => (false, t4),
                            }
                        },
                        _ => (false, t3),
                    }
                },
                _ => (false, t2),
            }
        },
        _ => (false, t1),
    }
}

fn current_dir_is_windows_default(talk: &mut Talk) -> (r: bool)
    ensures
        (r, final(talk)@) == default_here(old(talk)@),
{
    let cwd = match talk.ask(Request::WorkingDirectory) {
        Answer::Text(s) => s,
        _ => {
            return false;
        },
    };
    let current = match talk.ask(Request::Canonical(cwd)) {
        Answer::Text(s) => s,
        _ => {
            return false;
        },
    };
    let dir = match talk.ask(Request::Environment("WINDIR".to_owned())) {
        Answer::Text(s) => s,
        _ => {
            return false;
        },
    };
    match talk.ask(Request::Canonical(dir)) {
        Answer::Text(windir) => is_windows_default(current.as_str(), windir.as_str()),
        _ => false,
    }
}

/// The exchange after the shell has left a directory that it was started in
/// by default for the one that it lies in. Only a shell that was started with
/// no arguments, and with a console of its own, leaves.
pub open spec fn settled(arguments: nat, t: TalkView) -> TalkView {
    if arguments > 1 {
        t
    } else {
        let (w, t1) = dialog::asked(t, RequestView::OnWindows);
        if !w.as_truth() {
            t1
        } else {
            let (own, t2) = dialog::asked(t1, RequestView::OwnConsole);
            if !own.as_truth() {
                t2
            } else {
                let (here, t3) = default_here(t2);
                if !here {
                    t3
                } else {
                    let (f, t4) = dialog::asked(t3, RequestView::ShellFile);
                    match f {
                        AnswerView::Text(file) => match paths::parent_of(file) {
                            Some(dir) => dialog::asked(t4, RequestView::EnterDirectory(dir)).1,
                            None => t4,
                        },
                        _ => t4,
                    }
                }
            }
        }
    }
}

/// Leaves a directory that the shell was started in by default.
pub fn adjust_interactive_startup_dir(cli_args: &[String], talk: &mut Talk)
    ensures
        final(talk)@ == settled(cli_args@.len(), old(talk)@),
{
    if cli_args.len() > 1 {
        return;
    }
    if !talk.ask(Request::OnWindows).truth() {
        return;
    }
    if !talk.ask(Request::OwnConsole).truth() {
        return;
    }
    if !current_dir_is_windows_default(talk) {
        return;
    }
    match talk.ask(Request::ShellFile) {
        Answer::Text(file) => match parent(file.as_str()) {
            Some(dir) => {
                let _entered = talk.ask(Request::EnterDirectory(dir));
            },
            None => {},
        },
        _ => {},
    }
}

/// The file of the shell's state.
pub open spec fn state_file(t: TalkView) -> (Seq<char>, TalkView) {
    let (a, t1) = dialog::asked(t, RequestView::Environment("APPDATA"@));
    (
        match a {
            AnswerView::Text(dir) => fs_builtins::path_below(
                fs_builtins::path_below(dir, "ion-win"@),
                "state.redb"@,
            ),
            _ => "ion-win-state.redb"@,
        },
        t1,
    )
}

/// Finds the file of the shell's state.
pub fn state_db_path(talk: &mut Talk) -> (r: String)
    ensures
        (r@, final(talk)@) == state_file(old(talk)@),
{
    match talk.ask(Request::Environment("APPDATA".to_owned())) {
        Answer::Text(dir) => {
            let own = below(dir.as_str(), "ion-win");
            below(own.as_str(), "state.redb")
        },
        _ => "ion-win-state.redb".to_owned(),
    }
}

/// A shell that runs a script stays where it is.
pub proof fn law_scripts_stay(arguments: nat, t: TalkView)
    requires
        arguments > 1,
    ensures
        settled(arguments, t) == t,
{
}

/// The shell leaves only where it was started without arguments, with a
/// console of its own, in a directory that Windows starts programs in: then it
/// goes to the directory that it lies in.
pub proof fn law_shell_goes_home(
    cwd: Seq<char>,
    current: Seq<char>,
    dir: Seq<char>,
    windir: Seq<char>,
    file: Seq<char>,
    home: Seq<char>,
    t: TalkView,
)
    requires
        t.pending is None,
        0 <= t.next,
        t.next + 8 <= t.answers.len(),
        t.answers[t.next].as_truth(),
        t.answers[t.next + 1].as_truth(),
        t.answers[t.next + 2] == AnswerView::Text(cwd),
        t.answers[t.next + 3] == AnswerView::Text(current),
        t.answers[t.next + 4] == AnswerView::Text(dir),
        t.answers[t.next + 5] == AnswerView::Text(windir),
        t.answers[t.next + 6] == AnswerView::Text(file),
        paths::parent_of(file) == Some(home),
    ensures
        ({
            let after = settled(1, t);
            let default = paths::same_path(current, windir) || paths::same_path(
                current,
                fs_builtins::path_below(windir, "System32"@),
            ) || paths::same_path(current, fs_builtins::path_below(windir, "SysWOW64"@));
            &&& default ==> after.made.last() == RequestView::EnterDirectory(home)
                && after.made.len() == t.made.len() + 8
            &&& !default ==> after.made.len() == t.made.len() + 6
        }),
{
}

/// The state is kept below the directory for applications where there is one,
/// and else beside the shell.
pub proof fn law_state_has_its_place(t: TalkView)
    ensures
        dialog::asked(t, RequestView::Environment("APPDATA"@)).0 matches AnswerView::Text(dir)
            ==> state_file(t).0 == fs_builtins::path_below(
            fs_builtins::path_below(dir, "ion-win"@),
            "state.redb"@,
        ),
        !(dialog::asked(t, RequestView::Environment("APPDATA"@)).0 is Text) ==> state_file(t).0
            == "ion-win-state.redb"@,
{
}

} // verus!
