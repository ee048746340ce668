//! Finding the program that a command names.
//!
//! The working directory comes first, then the directories that are searched
//! for programs; in each the known extensions are tried in order. A command
//! that is a path is looked for where it says.

use crate::dialog;
use crate::dialog::{Answer, AnswerView, Request, RequestView, Talk, TalkView};
use crate::fileset;
use crate::paths;
use crate::paths::{below, drive_end, file_name, leads_somewhere};
use crate::fs_builtins;
use crate::text;
use crate::text::{cat2, chars_of, find_last, has_prefix, split_texts, sub_chars, text_of};
use vstd::prelude::*;

verus! {

/// Whether the last part of a path has an extension.
pub open spec fn has_extension(path: Seq<char>) -> bool {
    match paths::file_name_of(path) {
        Some(n) => match text::last_place(n, '.', n.len() as int) {
            Some(k) => k > 0,
            None => false,
        },
        None => false,
    }
}

fn shows_extension(path: &str) -> (r: bool)
    ensures
        r == has_extension(path@),
{
    match file_name(path) {
        Some(n) => {
            let v = chars_of(n.as_str());
            match find_last(&v, '.') {
                Some(k) => k > 0,
                None => false,
            }
        },
        None => false,
    }
}

/// The first of the extensions from `i` on that makes a file of `base`.
pub open spec fn extended(base: Seq<char>, extensions: Seq<Seq<char>>, i: int, t: TalkView) -> (
    Option<Seq<char>>,
    TalkView,
)
    decreases extensions.len() - i,
{
    if i < 0 || i >= extensions.len() {
        (None, t)
    } else {
        let (a, t1) = dialog::asked(t, RequestView::IsFile(base + extensions[i]));
        if a.as_truth() {
            (Some(base + extensions[i]), t1)
        } else {
            extended(base, extensions, i + 1, t1)
        }
    }
}

/// The file that `base` stands for: itself where it has an extension, or what
/// an extension makes of it.
pub open spec fn candidate(base: Seq<char>, extensions: Seq<Seq<char>>, t: TalkView) -> (
    Option<Seq<char>>,
    TalkView,
) {
    if has_extension(base) {
        let (a, t1) = dialog::asked(t, RequestView::IsFile(base));
        (
            if a.as_truth() {
                Some(base)
            } else {
                None
            },
            t1,
        )
    } else {
        extended(base, extensions, 0, t)
    }
}

fn find_candidate(base: &str, extensions: &[String], talk: &mut Talk) -> (r: Option<String>)
    ensures
        (fileset::opt_text(r), final(talk)@) == candidate(
            base@,
            text::texts(extensions@),
            old(talk)@,
        ),
{
    if shows_extension(base) {
        return if talk.ask(Request::IsFile(base.to_owned())).truth() {
            Some(base.to_owned())
        } else {
            None
        };
    }
    let ghost all = text::texts(extensions@);
    let ghost start = talk@;
    let mut i: usize = 0;
    while i < extensions.len()
        invariant
            i <= extensions@.len(),
            all == text::texts(extensions@),
            start == old(talk)@,
            !has_extension(base@),
            extended(base@, all, 0, start) == extended(base@, all, i as int, talk@),
        decreases extensions@.len() - i,
    {
        assert(all[i as int] == extensions@[i as int]@);
        let full = cat2(base, extensions[i].as_str());
        if talk.ask(Request::IsFile(full.clone())).truth() {
            return Some(full);
        }
        i = i + 1;
    }
    None
}

/// Where a path stands, seen from `cwd`. A path that has a root but names no
/// drive stands on the drive of `cwd`.
pub open spec fn seen_from(cwd: Seq<char>, name: Seq<char>) -> Seq<char> {
    if paths::drive_len(name) > 0 {
        name
    } else if paths::has_root(name) {
        cwd.take(paths::drive_len(cwd)) + name
    } else {
        fs_builtins::path_below(cwd, name)
    }
}

/// What is found in the directories from `i` on. An empty one stands for the
/// working directory.
pub open spec fn searched(
    name: Seq<char>,
    cwd: Seq<char>,
    dirs: Seq<Seq<char>>,
    i: int,
    extensions: Seq<Seq<char>>,
    t: TalkView,
) -> (Option<Seq<char>>, TalkView)
    decreases dirs.len() - i,
{
    if i < 0 || i >= dirs.len() {
        (None, t)
    } else {
        let dir = if dirs[i].len() == 0 {
            cwd
        } else {
            dirs[i]
        };
        let (found, t1) = candidate(seen_from(dir, name), extensions, t);
        match found {
            Some(p) => (Some(p), t1),
            None => searched(name, cwd, dirs, i + 1, extensions, t1),
        }
    }
}

/// The file that a command names.
pub open spec fn resolved_from(
    name: Seq<char>,
    cwd: Seq<char>,
    dirs: Seq<Seq<char>>,
    extensions: Seq<Seq<char>>,
    t: TalkView,
) -> (Option<Seq<char>>, TalkView) {
    let explicit = paths::has_root(name) || paths::component_count(name) > 1;
    let (here, t1) = candidate(seen_from(cwd, name), extensions, t);
    if explicit || here is Some {
        (here, t1)
    } else {
        searched(name, cwd, dirs, 0, extensions, t1)
    }
}

fn place(cwd: &str, name: &str) -> (r: String)
    ensures
        r@ == seen_from(cwd@, name@),
{
    let v = chars_of(name);
    let drive = drive_end(&v);
    if drive > 0 {
        name.to_owned()
    } else if paths::is_rooted(name) {
        let w = chars_of(cwd);
        let end = drive_end(&w);
        let front = sub_chars(&w, 0, end);
        assert(front@ =~= cwd@.take(end as int));
        let front_text = text_of(&front);
        cat2(front_text.as_str(), name)
    } else {
        below(cwd, name)
    }
}

/// Finds the file that a command names, given the working directory, the
/// directories to search and the extensions to try.
pub fn resolve_from(
    name: &str,
    cwd: &str,
    dirs: &[String],
    extensions: &[String],
    talk: &mut Talk,
) -> (r: Option<String>)
    ensures
        (fileset::opt_text(r), final(talk)@) == resolved_from(
            name@,
            cwd@,
            text::texts(dirs@),
            text::texts(extensions@),
            old(talk)@,
        ),
{
    let explicit = leads_somewhere(name);
    let here = place(cwd, name);
    let found = find_candidate(here.as_str(), extensions, talk);
    if explicit || found.is_some() {
        return found;
    }
    let ghost all = text::texts(dirs@);
    let ghost exts = text::texts(extensions@);
    let ghost start = talk@;
    let mut i: usize = 0;
    while i < dirs.len()
        invariant
            i <= dirs@.len(),
            all == text::texts(dirs@),
            exts == text::texts(extensions@),
            searched(name@, cwd@, all, 0, exts, start) == searched(
                name@,
                cwd@,
                all,
                i as int,
                exts,
                talk@,
            ),
            resolved_from(name@, cwd@, all, exts, old(talk)@) == searched(
                name@,
                cwd@,
                all,
                0,
                exts,
                start,
            ),
        decreases dirs@.len() - i,
    {
        assert(all[i as int] == dirs@[i as int]@);
        let base = if dirs[i].as_str().is_empty() {
            place(cwd, name)
        } else {
            place(dirs[i].as_str(), name)
        };
        match find_candidate(base.as_str(), extensions, talk) {
            Some(p) => return Some(p),
            None => {},
        }
        i = i + 1;
    }
    None
}

/// The extensions of the first `n` entries: none is empty, and each begins
/// with a dot.
pub open spec fn dotted(entries: Seq<Seq<char>>, n: int) -> Seq<Seq<char>>
    decreases n,
{
    if n <= 0 {
        Seq::empty()
    } else {
        let before = dotted(entries, n - 1);
        let e = entries[n - 1];
        if e.len() == 0 {
            before
        } else if text::begins_with(e, "."@) {
            before.push(e)
        } else {
            before.push("."@ + e)
        }
    }
}

/// The extensions that a list with `;` between its entries names.
pub open spec fn extensions_of(list: Seq<char>) -> Seq<Seq<char>> {
    let entries = text::pieces(list, ";"@);
    dotted(entries, entries.len() as int)
}

/// Reads the extensions that a list names.
pub fn pathext(list: &str) -> (r: Vec<String>)
    ensures
        text::texts(r@) == extensions_of(list@),
{
    let entries = split_texts(list, ";");
    let ghost all = text::texts(entries@);
    let mut out: Vec<String> = Vec::new();
    let mut i: usize = 0;
    assert(text::texts(out@) =~= Seq::<Seq<char>>::empty());
    while i < entries.len()
        invariant
            i <= entries@.len(),
            all == text::texts(entries@),
            text::texts(out@) == dotted(all, i as int),
        decreases entries@.len() - i,
    {
        assert(all[i as int] == entries@[i as int]@);
        if !entries[i].as_str().is_empty() {
            let e = if has_prefix(entries[i].as_str(), ".") {
                entries[i].clone()
            } else {
                cat2(".", entries[i].as_str())
            };
            proof {
                text::lemma_texts_push(out@, e);
            }
            out.push(e);
        }
        i = i + 1;
    }
    assert(all.len() == entries@.len());
    out
}

/// The file that a command names, seen from a directory.
pub open spec fn resolved_in(name: Seq<char>, cwd: Seq<char>, t: TalkView) -> (
    Option<Seq<char>>,
    TalkView,
) {
    let (a, t1) = dialog::asked(t, RequestView::SearchPath);
    let dirs = match a {
        AnswerView::Words(list, w) => list,
        _ => Seq::empty(),
    };
    let (b, t2) = dialog::asked(t1, RequestView::Environment("PATHEXT"@));
    let list = match b {
        AnswerView::Text(s) => s,
        _ => ".COM;.EXE;.BAT;.CMD"@,
    };
    resolved_from(name, cwd, dirs, extensions_of(list), t2)
}

/// Finds the file that a command names, seen from a directory.
pub fn resolve_in(name: &str, cwd: &str, talk: &mut Talk) -> (r: Option<String>)
    ensures
        (fileset::opt_text(r), final(talk)@) == resolved_in(name@, cwd@, old(talk)@),
{
    let dirs = match talk.ask(Request::SearchPath) {
        Answer::Words(list, _) => list,
        _ => {
            let none: Vec<String> = Vec::new();
            assert(text::texts(none@) =~= Seq::<Seq<char>>::empty());
            none
        },
    };
    let extensions = match talk.ask(Request::Environment("PATHEXT".to_owned())) {
        Answer::Text(s) => pathext(s.as_str()),
        _ => pathext(".COM;.EXE;.BAT;.CMD"),
    };
    resolve_from(name, cwd, &dirs, &extensions, talk)
}

/// The file that a command names.
pub open spec fn resolved(name: Seq<char>, t: TalkView) -> (Option<Seq<char>>, TalkView) {
    let (a, t1) = dialog::asked(t, RequestView::WorkingDirectory);
    match a {
        AnswerView::Text(cwd) => resolved_in(name, cwd, t1),
        _ => (None, t1),
    }
}

/// Finds the file that a command names.
pub fn resolve(name: &str, talk: &mut Talk) -> (r: Option<String>)
    ensures
        (fileset::opt_text(r), final(talk)@) == resolved(name@, old(talk)@),
{
    match talk.ask(Request::WorkingDirectory) {
        Answer::Text(cwd) => resolve_in(name, cwd.as_str(), talk),
        _ => None,
    }
}

/// A command that is found in the working directory is found there, whatever
/// the directories to search hold.
pub proof fn law_working_directory_comes_first(
    name: Seq<char>,
    cwd: Seq<char>,
    dirs: Seq<Seq<char>>,
    extensions: Seq<Seq<char>>,
    t: TalkView,
)
    requires
        candidate(seen_from(cwd, name), extensions, t).0 is Some,
    ensures
        resolved_from(name, cwd, dirs, extensions, t) == candidate(
            seen_from(cwd, name),
            extensions,
            t,
        ),
{
}

/// A command with an extension stands for the file of that name and no other.
pub proof fn law_extensions_are_not_doubled(
    base: Seq<char>,
    extensions: Seq<Seq<char>>,
    t: TalkView,
)
    requires
        has_extension(base),
    ensures
        candidate(base, extensions, t).0 == (if dialog::asked(
            t,
            RequestView::IsFile(base),
        ).0.as_truth() {
            Some(base)
        } else {
            None
        }),
        candidate(base, extensions, t).1 == dialog::asked(t, RequestView::IsFile(base)).1,
{
}

/// A command without an extension stands for the first file that an extension
/// makes of it: it is one that is answered to be there, and each extension
/// before was answered not to make one.
pub proof fn law_first_extension_counts(
    base: Seq<char>,
    extensions: Seq<Seq<char>>,
    k: int,
    t: TalkView,
)
    requires
        t.pending is None,
        0 <= t.next,
        0 <= k < extensions.len(),
        t.next + k < t.answers.len(),
        !has_extension(base),
        t.answers[t.next + k].as_truth(),
        forall|m: int| t.next <= m < t.next + k ==> !(#[trigger] t.answers[m]).as_truth(),
    ensures
        candidate(base, extensions, t).0 == Some(base + extensions[k]),
        candidate(base, extensions, t).1.next == t.next + k + 1,
        candidate(base, extensions, t).1.made.last() == RequestView::IsFile(base + extensions[k]),
{
    lemma_extended(base, extensions, 0, k, t);
}

proof fn lemma_extended(
    base: Seq<char>,
    extensions: Seq<Seq<char>>,
    i: int,
    k: int,
    t: TalkView,
)
    requires
        t.pending is None,
        0 <= t.next,
        0 <= i <= k < extensions.len(),
        t.next + (k - i) < t.answers.len(),
        t.answers[t.next + (k - i)].as_truth(),
        forall|m: int| t.next <= m < t.next + (k - i) ==> !(#[trigger] t.answers[m]).as_truth(),
    ensures
        extended(base, extensions, i, t).0 == Some(base + extensions[k]),
        extended(base, extensions, i, t).1.next == t.next + (k - i) + 1,
        extended(base, extensions, i, t).1.made.last() == RequestView::IsFile(
            base + extensions[k],
        ),
    decreases k - i,
{
    if i < k {
        assert(!t.answers[t.next].as_truth());
        let t1 = dialog::asked(t, RequestView::IsFile(base + extensions[i])).1;
        lemma_extended(base, extensions, i + 1, k, t1);
    }
}

/// A command that names a directory is looked for there and nowhere else; one
/// that does not is looked for in the working directory and then in the
/// directories of the search path, in their order.
pub proof fn law_search_path_is_for_names(
    name: Seq<char>,
    cwd: Seq<char>,
    dirs: Seq<Seq<char>>,
    extensions: Seq<Seq<char>>,
    t: TalkView,
)
    ensures
        paths::has_root(name) || paths::component_count(name) > 1 ==> resolved_from(
            name,
            cwd,
            dirs,
            extensions,
            t,
        ) == candidate(seen_from(cwd, name), extensions, t),
        dirs.len() > 0 && dirs[0].len() > 0 ==> {
            let (found, t1) = candidate(seen_from(dirs[0], name), extensions, t);
            searched(name, cwd, dirs, 0, extensions, t) == if found is Some {
                (found, t1)
            } else {
                searched(name, cwd, dirs, 1, extensions, t1)
            }
        },
{
}

} // verus!
