//! The builtins that read the file system: `pwd`, `cat`, `find`, and `files`
//! and `folders`.
//!
//! A path below a directory is written with the separator that the directory
//! is written with.

use crate::dialog;
use crate::dialog::{Answer, Entry, EntryView, Request, Talk, TalkView};
use crate::fileset;
use crate::fileset::{FileKind, FileRecord, FileSet};
use crate::methods;
use crate::methods::lower_text;
use crate::paths;
use crate::paths::drive_end;
use crate::text;
use crate::text::{
    cat2, cat3, cat4, cat5, chars_of, copy_texts, has_prefix, in_order, join_texts, same, sort_names,
    sub_chars, text_of,
};
use vstd::prelude::*;

verus! {

/// What a builtin gives: a text, or a message.
pub type Captured = Result<Seq<char>, Seq<char>>;

/// Which entries a listing shows.
#[derive(Clone, Copy, PartialEq, Eq, Debug, Structural)]
pub enum EntryKind {
    Dir,
    File,
}

/// Whether hidden entries count, and whether subdirectories are entered.
#[derive(Clone, Copy, PartialEq, Eq, Debug, Structural)]
pub struct WalkMode {
    pub hidden: bool,
    pub recurse: bool,
}

/// Whether an argument is an option.
pub open spec fn is_option(arg: Seq<char>) -> bool {
    arg.len() > 0 && arg[0] == '-'
}

/// Whether an entry is hidden.
pub open spec fn is_hidden(name: Seq<char>) -> bool {
    name.len() > 0 && name[0] == '.'
}

fn starts_with_char(s: &str, c: char) -> (r: bool)
    ensures
        r == (s@.len() > 0 && s@[0] == c),
{
    if s.is_empty() {
        return false;
    }
    s.get_char(0) == c
}

/// Whether a path is written with `\`: it names a drive, a share or a device,
/// or holds a `\`.
pub open spec fn is_backslashed(path: Seq<char>) -> bool {
    paths::drive_len(path) > 0 || text::last_place(path, '\\', path.len() as int) is Some
}

/// The separator that a path is written with.
pub open spec fn separator_of(path: Seq<char>) -> Seq<char> {
    if is_backslashed(path) {
        "\\"@
    } else {
        "/"@
    }
}

fn separator(path: &str) -> (r: &'static str)
    ensures
        r@ == separator_of(path@),
{
    let v = chars_of(path);
    if drive_end(&v) > 0 || text::find_last(&v, '\\').is_some() {
        "\\"
    } else {
        "/"
    }
}

/// The path of `name` below `base`, with the separator that `base` is written
/// with. Behind a bare drive letter there is none.
pub open spec fn path_below(base: Seq<char>, name: Seq<char>) -> Seq<char> {
    if base.len() == 0 {
        name
    } else if base.last() == '/' || base.last() == '\\' || (base.len() == 2 && paths::drive_len(base)
        == 2) {
        base + name
    } else {
        base + separator_of(base) + name
    }
}

/// Writes the path of `name` below `base`.
pub fn join_path(base: &str, name: &str) -> (r: String)
    ensures
        r@ == path_below(base@, name@),
{
    let v = chars_of(base);
    if v.len() == 0 {
        return name.to_owned();
    }
    let last: char = v[v.len() - 1];
    let drive = drive_end(&v);
    if last == '/' || last == '\\' || (v.len() == 2 && drive == 2) {
        cat2(base, name)
    } else {
        cat3(base, separator(base), name)
    }
}

/// The path that is reached from `root` through `below`.
pub open spec fn path_through(root: Seq<char>, below: Seq<Seq<char>>) -> Seq<char>
    decreases below.len(),
{
    if below.len() == 0 {
        root
    } else {
        path_below(path_through(root, below.drop_last()), below.last())
    }
}

/// Writes the path that is reached from `root` through `below`.
pub fn join_through(root: &str, below: &[String]) -> (r: String)
    ensures
        r@ == path_through(root@, text::texts(below@)),
{
    let mut out: String = root.to_owned();
    let ghost parts = text::texts(below@);
    let mut i: usize = 0;
    assert(parts.take(0) =~= Seq::<Seq<char>>::empty());
    while i < below.len()
        invariant
            i <= below@.len(),
            parts == text::texts(below@),
            out@ == path_through(root@, parts.take(i as int)),
        decreases below@.len() - i,
    {
        out = join_path(out.as_str(), below[i].as_str());
        proof {
            assert(parts.take(i + 1).drop_last() =~= parts.take(i as int));
            assert(parts.take(i + 1).last() == below@[i as int]@);
        }
        i = i + 1;
    }
    assert(parts.take(below@.len() as int) =~= parts);
    out
}

// ---------------------------------------------------------------------------
// cat, pwd
// ---------------------------------------------------------------------------

/// The contents of the first `n` files, one after the other; the first file
/// that cannot be read ends the run.
pub open spec fn concatenated(paths: Seq<Seq<char>>, n: int, t: TalkView) -> (Captured, TalkView)
    decreases n,
{
    if n <= 0 {
        (Ok(Seq::empty()), t)
    } else {
        let (before, t1) = concatenated(paths, n - 1, t);
        match before {
            Err(e) => (Err(e), t1),
            Ok(out) => {
                let (a, t2) = dialog::asked(t1, dialog::RequestView::ReadText(paths[n - 1]));
                match a {
                    dialog::AnswerView::Text(more) => (Ok(out + more), t2),
                    _ => (Err("cat: "@ + paths[n - 1] + ": "@ + a.as_failure()), t2),
                }
            },
        }
    }
}

/// What `cat` gives.
pub open spec fn cat_output(args: Seq<Seq<char>>, t: TalkView) -> (Captured, TalkView) {
    if args.len() == 0 {
        (Err("cat: usage: cat FILE..."@), t)
    } else {
        concatenated(args, args.len() as int, t)
    }
}

/// A run that has failed stays failed and asks for nothing more.
proof fn lemma_failed_stays(paths: Seq<Seq<char>>, n: int, m: int, t: TalkView)
    requires
        0 <= n <= m,
        concatenated(paths, n, t).0 is Err,
    ensures
        concatenated(paths, m, t) == concatenated(paths, n, t),
    decreases m,
{
    if n < m {
        lemma_failed_stays(paths, n, m - 1, t);
    }
}

/// `cat FILE...`: the contents of the files, one after the other.
pub fn cat(args: &[String], talk: &mut Talk) -> (r: Result<String, String>)
    ensures
        (methods::text_outcome(r), final(talk)@) == cat_output(text::texts(args@), old(talk)@),
{
    if args.len() == 0 {
        return Err("cat: usage: cat FILE...".to_owned());
    }
    let ghost paths = text::texts(args@);
    let ghost start = talk@;
    let mut out = String::new();
    let mut i: usize = 0;
    while i < args.len()
        invariant
            i <= args@.len(),
            args@.len() > 0,
            paths == text::texts(args@),
            start == old(talk)@,
            concatenated(paths, i as int, start) == (Ok::<Seq<char>, Seq<char>>(out@), talk@),
        decreases args@.len() - i,
    {
        let a = talk.ask(Request::ReadText(args[i].clone()));
        match a {
            Answer::Text(more) => {
                out.append(more.as_str());
            },
            other => {
                let why = other.into_failure();
                proof {
                    assert(concatenated(paths, i + 1, start).0 is Err);
                    lemma_failed_stays(paths, i + 1, args@.len() as int, start);
                }
                return Err(cat4("cat: ", args[i].as_str(), ": ", why.as_str()));
            },
        }
        i = i + 1;
    }
    Ok(out)
}

/// What `pwd` gives.
pub open spec fn pwd_output(args: Seq<Seq<char>>, t: TalkView) -> (Captured, TalkView) {
    if args.len() > 0 {
        (Err("pwd: usage: pwd"@), t)
    } else {
        let (a, t2) = dialog::asked(t, dialog::RequestView::WorkingDirectory);
        match a {
            dialog::AnswerView::Text(path) => (Ok(path), t2),
            _ => (Err("pwd: "@ + a.as_failure()), t2),
        }
    }
}

/// `pwd`: the working directory.
pub fn pwd(args: &[String], talk: &mut Talk) -> (r: Result<String, String>)
    ensures
        (methods::text_outcome(r), final(talk)@) == pwd_output(text::texts(args@), old(talk)@),
{
    if args.len() > 0 {
        return Err("pwd: usage: pwd".to_owned());
    }
    match talk.ask(Request::WorkingDirectory) {
        Answer::Text(path) => Ok(path),
        other => {
            let why = other.into_failure();
            Err(cat2("pwd: ", why.as_str()))
        },
    }
}

// ---------------------------------------------------------------------------
// find
// ---------------------------------------------------------------------------

/// The usage of `find`.
pub open spec fn find_usage() -> Seq<char> {
    "find: usage: find [--all] [--recurse] [PATH...]"@
}

/// The mode and the paths that the first `n` arguments of `find` write.
pub open spec fn find_options(args: Seq<Seq<char>>, n: int) -> Result<
    (WalkMode, Seq<Seq<char>>),
    Seq<char>,
>
    decreases n,
{
    if n <= 0 {
        Ok((WalkMode { hidden: false, recurse: false }, Seq::empty()))
    } else {
        match find_options(args, n - 1) {
            Err(e) => Err(e),
            Ok((mode, paths)) => {
                let arg = args[n - 1];
                if arg == "--all"@ || arg == "-a"@ {
                    Ok((WalkMode { hidden: true, ..mode }, paths))
                } else if arg == "--recurse"@ || arg == "-r"@ {
                    Ok((WalkMode { recurse: true, ..mode }, paths))
                } else if arg == "--help"@ || arg == "-h"@ {
                    Err(find_usage())
                } else if is_option(arg) {
                    Err("find: unknown option: "@ + arg)
                } else {
                    Ok((mode, paths.push(arg)))
                }
            },
        }
    }
}

proof fn lemma_refused_stays(args: Seq<Seq<char>>, n: int, m: int)
    requires
        0 <= n <= m,
        find_options(args, n) is Err,
    ensures
        find_options(args, m) == find_options(args, n),
    decreases m,
{
    if n < m {
        lemma_refused_stays(args, n, m - 1);
    }
}

/// Reads the arguments of `find`.
pub fn parse_find(args: &[String]) -> (r: Result<(WalkMode, Vec<String>), String>)
    ensures
        (match r {
            Ok((mode, paths)) => Ok((mode, text::texts(paths@))),
            Err(e) => Err(e@),
        }) == find_options(text::texts(args@), args@.len() as int),
{
    let ghost all = text::texts(args@);
    let mut mode = WalkMode { hidden: false, recurse: false };
    let mut paths: Vec<String> = Vec::new();
    assert(text::texts(paths@) =~= Seq::<Seq<char>>::empty());
    let mut i: usize = 0;
    while i < args.len()
        invariant
            i <= args@.len(),
            all == text::texts(args@),
            find_options(all, i as int) == Ok::<(WalkMode, Seq<Seq<char>>), Seq<char>>(
                (mode, text::texts(paths@)),
            ),
        decreases args@.len() - i,
    {
        let arg = args[i].as_str();
        assert(all[i as int] == arg@);
        proof {
            if find_options(all, i + 1) is Err {
                lemma_refused_stays(all, i + 1, args@.len() as int);
            }
        }
        if same(arg, "--all") || same(arg, "-a") {
            mode.hidden = true;
        } else if same(arg, "--recurse") || same(arg, "-r") {
            mode.recurse = true;
        } else if same(arg, "--help") || same(arg, "-h") {
            return Err("find: usage: find [--all] [--recurse] [PATH...]".to_owned());
        } else if starts_with_char(arg, '-') {
            return Err(cat2("find: unknown option: ", arg));
        } else {
            let path = args[i].clone();
            proof {
                text::lemma_texts_push(paths@, path);
            }
            paths.push(path);
        }
        i = i + 1;
    }
    Ok((mode, paths))
}

/// `s` without the slashes and backslashes at its end.
pub open spec fn without_slashes(s: Seq<char>) -> Seq<char>
    decreases s.len(),
{
    if s.len() > 0 && (s.last() == '/' || s.last() == '\\') {
        without_slashes(s.drop_last())
    } else {
        s
    }
}

/// What stands before each name found below a starting path: nothing for `.`,
/// and else the path and a slash.
pub open spec fn find_prefix(path: Seq<char>) -> Seq<char> {
    if path == "."@ {
        Seq::empty()
    } else {
        without_slashes(path) + "/"@
    }
}

fn prefix_of(path: &str) -> (r: String)
    ensures
        r@ == find_prefix(path@),
{
    if same(path, ".") {
        return String::new();
    }
    let v = chars_of(path);
    let mut n: usize = v.len();
    assert(v@.take(n as int) =~= v@);
    while n > 0 && (v[n - 1] == '/' || v[n - 1] == '\\')
        invariant
            n <= v@.len(),
            without_slashes(v@) == without_slashes(v@.take(n as int)),
        decreases n,
    {
        assert(v@.take(n as int).drop_last() =~= v@.take(n - 1));
        n = n - 1;
    }
    assert(v@.subrange(0, n as int) =~= v@.take(n as int));
    let front = sub_chars(&v, 0, n);
    let t = text_of(&front);
    cat2(t.as_str(), "/")
}

/// The names found so far, with those of the entries from `k` on: a file's
/// name behind `prefix`, and, when subdirectories are entered, the names in
/// them, with `sep` between a directory and what is in it. A subdirectory that cannot be read gives a diagnostic. No more than
/// `fuel` directories are entered inside each other.
pub open spec fn walked(
    entries: Seq<EntryView>,
    k: int,
    prefix: Seq<char>,
    sep: Seq<char>,
    root: Seq<char>,
    below: Seq<Seq<char>>,
    mode: WalkMode,
    out: Seq<Seq<char>>,
    t: TalkView,
    fuel: nat,
) -> (Seq<Seq<char>>, TalkView)
    decreases fuel, entries.len() - k,
{
    if k < 0 || k >= entries.len() {
        (out, t)
    } else {
        let e = entries[k];
        if !mode.hidden && is_hidden(e.name) {
            walked(entries, k + 1, prefix, sep, root, below, mode, out, t, fuel)
        } else if !e.is_dir {
            walked(entries, k + 1, prefix, sep, root, below, mode, out.push(prefix + e.name), t, fuel)
        } else if !mode.recurse {
            walked(entries, k + 1, prefix, sep, root, below, mode, out, t, fuel)
        } else {
            let inside = below.push(e.name);
            let (a, t2) = dialog::asked(t, dialog::RequestView::List(root, inside));
            match a {
                dialog::AnswerView::Entries(sub) => if fuel > 0 {
                    let (more, t3) = walked(
                        sub,
                        0,
                        prefix + e.name + sep,
                        sep,
                        root,
                        inside,
                        mode,
                        out,
                        t2,
                        (fuel - 1) as nat,
                    );
                    walked(entries, k + 1, prefix, sep, root, below, mode, more, t3, fuel)
                } else {
                    (out, t2)
                },
                _ => {
                    let t3 = dialog::noted(
                        t2,
                        "ion-win: find: "@ + path_through(root, inside) + ": "@ + a.as_failure(),
                    );
                    walked(entries, k + 1, prefix, sep, root, below, mode, out, t3, fuel)
                },
            }
        }
    }
}

/// Collects the names below a directory.
fn walk_files(
    entries: &Vec<Entry>,
    prefix: &str,
    sep: &str,
    root: &str,
    below: &Vec<String>,
    mode: WalkMode,
    out: &mut Vec<String>,
    talk: &mut Talk,
    fuel: Ghost<nat>,
)
    requires
        fuel@ >= old(talk)@.answers.len() - old(talk)@.next,
    ensures
        (text::texts(final(out)@), final(talk)@) == walked(
            dialog::entry_views(entries@),
            0,
            prefix@,
            sep@,
            root@,
            text::texts(below@),
            mode,
            text::texts(old(out)@),
            old(talk)@,
            fuel@,
        ),
        final(talk)@.answers == old(talk)@.answers,
        old(talk)@.next <= final(talk)@.next,
    decreases fuel@,
{
    let ghost all = dialog::entry_views(entries@);
    let ghost whole = walked(
        all,
        0,
        prefix@,
        sep@,
        root@,
        text::texts(below@),
        mode,
        text::texts(out@),
        talk@,
        fuel@,
    );
    let mut k: usize = 0;
    while k < entries.len()
        invariant
            k <= entries@.len(),
            all == dialog::entry_views(entries@),
            talk@.answers == old(talk)@.answers,
            old(talk)@.next <= talk@.next,
            fuel@ >= talk@.answers.len() - talk@.next,
            whole == walked(
                all,
                k as int,
                prefix@,
                sep@,
                root@,
                text::texts(below@),
                mode,
                text::texts(out@),
                talk@,
                fuel@,
            ),
        decreases entries@.len() - k,
    {
        let e = &entries[k];
        assert(all[k as int] == e@);
        if !mode.hidden && starts_with_char(e.name.as_str(), '.') {
        } else if !e.is_dir {
            let name = cat2(prefix, e.name.as_str());
            proof {
                text::lemma_texts_push(out@, name);
            }
            out.push(name);
        } else if mode.recurse {
            let mut inside = copy_texts(below);
            let entered = e.name.clone();
            proof {
                text::lemma_texts_push(inside@, entered);
            }
            inside.push(entered);
            let a = talk.ask(Request::List(root.to_owned(), copy_texts(&inside)));
            match a {
                Answer::Entries(sub) => {
                    let deeper = cat3(prefix, e.name.as_str(), sep);
                    assert(fuel@ > 0);
                    walk_files(
                        &sub,
                        deeper.as_str(),
                        sep,
                        root,
                        &inside,
                        mode,
                        out,
                        talk,
                        Ghost((fuel@ - 1) as nat),
                    );
                },
                other => {
                    let at = join_through(root, &inside);
                    let why = other.into_failure();
                    talk.note(cat4("ion-win: find: ", at.as_str(), ": ", why.as_str()));
                },
            }
        }
        k = k + 1;
    }
}

/// The names, whether some starting path could be read, and the failures,
/// after the first `n` starting paths.
pub open spec fn found_roots(
    paths: Seq<Seq<char>>,
    n: int,
    mode: WalkMode,
    t: TalkView,
) -> (Seq<Seq<char>>, bool, Seq<Seq<char>>, TalkView)
    decreases n,
{
    if n <= 0 {
        (Seq::empty(), false, Seq::empty(), t)
    } else {
        let (names, valid, errors, t1) = found_roots(paths, n - 1, mode, t);
        let path = paths[n - 1];
        let (a, t2) = dialog::asked(t1, dialog::RequestView::List(path, Seq::empty()));
        match a {
            dialog::AnswerView::Entries(entries) => {
                let (more, t3) = walked(
                    entries,
                    0,
                    find_prefix(path),
                    "/"@,
                    path,
                    Seq::empty(),
                    mode,
                    names,
                    t2,
                    t.answers.len(),
                );
                (more, true, errors, t3)
            },
            _ => (names, valid, errors.push(path + ": "@ + a.as_failure()), t2),
        }
    }
}

/// The exchange after a diagnostic for each of the first `n` failures.
pub open spec fn find_warned(errors: Seq<Seq<char>>, n: int, t: TalkView) -> TalkView
    decreases n,
{
    if n <= 0 {
        t
    } else {
        dialog::noted(find_warned(errors, n - 1, t), "ion-win: find: "@ + errors[n - 1])
    }
}

/// What `find` gives: the names found below the starting paths, in order and
/// each once, one on a line. It fails only when no starting path can be read.
pub open spec fn find_output(args: Seq<Seq<char>>, t: TalkView) -> (Captured, TalkView) {
    match find_options(args, args.len() as int) {
        Err(e) => (Err(e), t),
        Ok((mode, given)) => {
            let paths = if given.len() == 0 {
                seq!["."@]
            } else {
                given
            };
            let (names, valid, errors, t2) = found_roots(paths, paths.len() as int, mode, t);
            if !valid {
                (Err("find: "@ + text::joined(errors, "; "@)), t2)
            } else {
                (
                    Ok(text::joined(text::sorted_set(names), "\n"@)),
                    find_warned(errors, errors.len() as int, t2),
                )
            }
        },
    }
}

/// `find [--all] [--recurse] [PATH...]`.
pub fn find(args: &[String], talk: &mut Talk) -> (r: Result<String, String>)
    ensures
        (methods::text_outcome(r), final(talk)@) == find_output(text::texts(args@), old(talk)@),
{
    let (mode, mut paths) = match parse_find(args) {
        Err(e) => return Err(e),
        Ok(v) => v,
    };
    if paths.len() == 0 {
        paths = vec![".".to_owned()];
        assert(text::texts(paths@) =~= seq!["."@]);
    }
    let ghost all = text::texts(paths@);
    let ghost start = talk@;
    let mut names: Vec<String> = Vec::new();
    let mut errors: Vec<String> = Vec::new();
    let mut valid = false;
    let none: Vec<String> = Vec::new();
    assert(text::texts(none@) =~= Seq::<Seq<char>>::empty());
    let mut i: usize = 0;
    while i < paths.len()
        invariant
            i <= paths@.len(),
            all == text::texts(paths@),
            text::texts(none@) == Seq::<Seq<char>>::empty(),
            talk@.answers == start.answers,
            0 <= talk@.next,
            (text::texts(names@), valid, text::texts(errors@), talk@) == found_roots(
                all,
                i as int,
                mode,
                start,
            ),
        decreases paths@.len() - i,
    {
        let path = paths[i].as_str();
        assert(all[i as int] == path@);
        let a = talk.ask(Request::List(paths[i].clone(), Vec::new()));
        assert(text::texts(Seq::<String>::empty()) =~= Seq::<Seq<char>>::empty());
        match a {
            Answer::Entries(entries) => {
                let prefix = prefix_of(path);
                walk_files(
                    &entries,
                    prefix.as_str(),
                    "/",
                    path,
                    &none,
                    mode,
                    &mut names,
                    talk,
                    Ghost(start.answers.len()),
                );
                valid = true;
            },
            other => {
                let why = other.into_failure();
                let message = cat3(path, ": ", why.as_str());
                proof {
                    text::lemma_texts_push(errors@, message);
                }
                errors.push(message);
            },
        }
        i = i + 1;
    }
    if !valid {
        let why = join_texts(&errors, "; ");
        return Err(cat2("find: ", why.as_str()));
    }
    let ghost t2 = talk@;
    let ghost failed = text::texts(errors@);
    let mut j: usize = 0;
    while j < errors.len()
        invariant
            j <= errors@.len(),
            failed == text::texts(errors@),
            talk@ == find_warned(failed, j as int, t2),
        decreases errors@.len() - j,
    {
        talk.note(cat2("ion-win: find: ", errors[j].as_str()));
        j = j + 1;
    }
    let sorted = sort_names(&names);
    Ok(join_texts(&sorted, "\n"))
}

// ---------------------------------------------------------------------------
// files and folders
// ---------------------------------------------------------------------------

/// The name of a listing builtin.
pub open spec fn list_name(kind: EntryKind) -> Seq<char> {
    match kind {
        EntryKind::Dir => "folders"@,
        EntryKind::File => "files"@,
    }
}

/// The usage of a listing builtin.
pub open spec fn list_usage(kind: EntryKind) -> Seq<char> {
    match kind {
        EntryKind::Dir => "folders: usage: folders [--all] [--full] [PATH]"@,
        EntryKind::File => "files: usage: files [--all] [--full] [PATH]"@,
    }
}

/// The name of a listing builtin.
pub fn command_name(kind: EntryKind) -> (r: String)
    ensures
        r@ == list_name(kind),
{
    match kind {
        EntryKind::Dir => "folders".to_owned(),
        EntryKind::File => "files".to_owned(),
    }
}

/// The usage of a listing builtin.
pub fn usage(kind: EntryKind) -> (r: String)
    ensures
        r@ == list_usage(kind),
{
    match kind {
        EntryKind::Dir => "folders: usage: folders [--all] [--full] [PATH]".to_owned(),
        EntryKind::File => "files: usage: files [--all] [--full] [PATH]".to_owned(),
    }
}

/// The options of a listing: hidden entries, full paths, and the directory.
pub struct ListOptions {
    pub hidden: bool,
    pub full: bool,
    pub path: Option<String>,
}

/// What the options of a listing are.
pub struct ListOptionsView {
    pub hidden: bool,
    pub full: bool,
    pub path: Option<Seq<char>>,
}

impl View for ListOptions {
    type V = ListOptionsView;

    open spec fn view(&self) -> ListOptionsView {
        ListOptionsView {
            hidden: self.hidden,
            full: self.full,
            path: fileset::opt_text(self.path),
        }
    }
}

/// The options that the first `n` arguments of a listing write.
pub open spec fn list_options(args: Seq<Seq<char>>, n: int, kind: EntryKind) -> Result<
    ListOptionsView,
    Seq<char>,
>
    decreases n,
{
    if n <= 0 {
        Ok(ListOptionsView { hidden: false, full: false, path: None })
    } else {
        match list_options(args, n - 1, kind) {
            Err(e) => Err(e),
            Ok(o) => {
                let arg = args[n - 1];
                if arg == "--all"@ || arg == "-a"@ {
                    Ok(ListOptionsView { hidden: true, ..o })
                } else if arg == "--full"@ || arg == "-f"@ {
                    Ok(ListOptionsView { full: true, ..o })
                } else if arg == "--help"@ || arg == "-h"@ {
                    Err(list_usage(kind))
                } else if is_option(arg) {
                    Err(list_name(kind) + ": unknown option: "@ + arg)
                } else if o.path is None {
                    Ok(ListOptionsView { path: Some(arg), ..o })
                } else {
                    Err(list_usage(kind))
                }
            },
        }
    }
}

proof fn lemma_list_refused_stays(args: Seq<Seq<char>>, n: int, m: int, kind: EntryKind)
    requires
        0 <= n <= m,
        list_options(args, n, kind) is Err,
    ensures
        list_options(args, m, kind) == list_options(args, n, kind),
    decreases m,
{
    if n < m {
        lemma_list_refused_stays(args, n, m - 1, kind);
    }
}

/// Reads the arguments of a listing.
pub fn parse_list(args: &[String], kind: EntryKind) -> (r: Result<ListOptions, String>)
    ensures
        (match r {
            Ok(o) => Ok(o@),
            Err(e) => Err(e@),
        }) == list_options(text::texts(args@), args@.len() as int, kind),
{
    let ghost all = text::texts(args@);
    let mut o = ListOptions { hidden: false, full: false, path: None };
    let mut i: usize = 0;
    while i < args.len()
        invariant
            i <= args@.len(),
            all == text::texts(args@),
            list_options(all, i as int, kind) == Ok::<ListOptionsView, Seq<char>>(o@),
        decreases args@.len() - i,
    {
        let arg = args[i].as_str();
        assert(all[i as int] == arg@);
        proof {
            if list_options(all, i + 1, kind) is Err {
                lemma_list_refused_stays(all, i + 1, args@.len() as int, kind);
            }
        }
        if same(arg, "--all") || same(arg, "-a") {
            o.hidden = true;
        } else if same(arg, "--full") || same(arg, "-f") {
            o.full = true;
        } else if same(arg, "--help") || same(arg, "-h") {
            return Err(usage(kind));
        } else if starts_with_char(arg, '-') {
            let name = command_name(kind);
            return Err(cat3(name.as_str(), ": unknown option: ", arg));
        } else if o.path.is_none() {
            o.path = Some(args[i].clone());
        } else {
            return Err(usage(kind));
        }
        i = i + 1;
    }
    Ok(o)
}

/// An entry of a listing: what is shown, and the path.
pub type ListedView = (Seq<char>, Seq<char>);

/// What the entries of a listing are.
pub open spec fn listed_views(list: Seq<(String, String)>) -> Seq<ListedView> {
    Seq::new(list.len(), |i: int| (list[i].0@, list[i].1@))
}

/// Whether an entry belongs into a listing.
pub open spec fn belongs(e: EntryView, kind: EntryKind, hidden: bool) -> bool {
    &&& match kind {
        EntryKind::Dir => e.is_dir,
        EntryKind::File => e.is_file,
    }
    &&& hidden || !is_hidden(e.name)
}

/// The entries of a listing among the first `n`: with full paths, the path is
/// what is shown; else the name.
pub open spec fn listed(
    entries: Seq<EntryView>,
    n: int,
    kind: EntryKind,
    o: ListOptionsView,
    base: Seq<char>,
    full_base: Seq<char>,
) -> Seq<ListedView>
    decreases n,
{
    if n <= 0 {
        Seq::empty()
    } else {
        let before = listed(entries, n - 1, kind, o, base, full_base);
        let e = entries[n - 1];
        if belongs(e, kind, o.hidden) {
            let path = path_below(
                if o.full {
                    full_base
                } else {
                    base
                },
                e.name,
            );
            before.push(
                (
                    if o.full {
                        path
                    } else {
                        e.name
                    },
                    path,
                ),
            )
        } else {
            before
        }
    }
}

/// `list` with `item` at its place: behind every entry that is shown before it
/// or alike, upper and lower case aside.
pub open spec fn placed(list: Seq<ListedView>, item: ListedView) -> Seq<ListedView>
    decreases list.len(),
{
    if list.len() == 0 || text::ordered(methods::lower(list.last().0), methods::lower(item.0)) {
        list.push(item)
    } else {
        placed(list.drop_last(), item).push(list.last())
    }
}

/// The entries in the order of what is shown, upper and lower case aside;
/// alike entries keep their order.
pub open spec fn arranged(list: Seq<ListedView>) -> Seq<ListedView>
    decreases list.len(),
{
    if list.len() == 0 {
        Seq::empty()
    } else {
        placed(arranged(list.drop_last()), list.last())
    }
}

/// What a listing finds, or a message.
pub open spec fn listing(args: Seq<Seq<char>>, kind: EntryKind, t: TalkView) -> (
    Result<Seq<ListedView>, Seq<char>>,
    TalkView,
) {
    match list_options(args, args.len() as int, kind) {
        Err(e) => (Err(e), t),
        Ok(o) => {
            let base = match o.path {
                Some(p) => p,
                None => "."@,
            };
            let (f, t1) = dialog::asked(
                t,
                match o.path {
                    Some(p) => dialog::RequestView::Absolute(p),
                    None => dialog::RequestView::WorkingDirectory,
                },
            );
            match f {
                dialog::AnswerView::Text(full_base) => {
                    let (a, t2) = dialog::asked(t1, dialog::RequestView::ListWhole(base));
                    match a {
                        dialog::AnswerView::Text(e) => (Err(list_name(kind) + ": "@ + e), t2),
                        dialog::AnswerView::Entries(entries) => (
                            Ok(
                                arranged(
                                    listed(
                                        entries,
                                        entries.len() as int,
                                        kind,
                                        o,
                                        base,
                                        full_base,
                                    ),
                                ),
                            ),
                            t2,
                        ),
                        _ => (
                            Err(list_name(kind) + ": "@ + base + ": "@ + a.as_failure()),
                            t2,
                        ),
                    }
                },
                _ => (Err(list_name(kind) + ": "@ + f.as_failure()), t1),
            }
        },
    }
}

fn place(list: &mut Vec<(String, String)>, item: (String, String))
    ensures
        listed_views(final(list)@) == placed(listed_views(old(list)@), (item.0@, item.1@)),
    decreases old(list)@.len(),
{
    let ghost before = listed_views(list@);
    let ghost it = (item.0@, item.1@);
    match list.pop() {
        None => {
            list.push(item);
            assert(listed_views(list@) =~= before.push(it));
        },
        Some(last) => {
            let ghost shorter = list@;
            assert(listed_views(shorter) =~= before.drop_last());
            assert(before.last() == (last.0@, last.1@));
            let a = lower_text(last.0.as_str());
            let b = lower_text(item.0.as_str());
            if in_order(a.as_str(), b.as_str()) {
                list.push(last);
                list.push(item);
                assert(listed_views(list@) =~= before.push(it));
            } else {
                place(list, item);
                let ghost inner = list@;
                list.push(last);
                assert(listed_views(list@) =~= listed_views(inner).push((last.0@, last.1@)));
            }
        },
    }
}

/// Arranges the entries of a listing.
pub fn arrange(found: Vec<(String, String)>) -> (r: Vec<(String, String)>)
    ensures
        listed_views(r@) == arranged(listed_views(found@)),
{
    let ghost all = listed_views(found@);
    let mut left = found;
    let mut out: Vec<(String, String)> = Vec::new();
    let ghost mut n: int = 0;
    assert(listed_views(out@) =~= arranged(all.take(0)));
    assert(listed_views(left@) =~= all.skip(0));
    while left.len() > 0
        invariant
            0 <= n <= all.len(),
            left@.len() == all.len() - n,
            listed_views(left@) == all.skip(n),
            listed_views(out@) == arranged(all.take(n)),
        decreases left@.len(),
    {
        let ghost before = left@;
        let item = left.remove(0);
        proof {
            assert(listed_views(before)[0] == (item.0@, item.1@));
            assert(all[n] == (item.0@, item.1@));
            assert(listed_views(left@) =~= listed_views(before).skip(1));
            assert(all.skip(n).skip(1) =~= all.skip(n + 1));
            assert(all.take(n + 1).drop_last() =~= all.take(n));
        }
        place(&mut out, item);
        proof {
            n = n + 1;
        }
    }
    assert(all.take(n) =~= all);
    out
}

/// Lists the directories or the files of a directory, each with its path.
pub fn list_entry_paths(args: &[String], kind: EntryKind, talk: &mut Talk) -> (r: Result<
    Vec<(String, String)>,
    String,
>)
    ensures
        (match r {
            Ok(v) => Ok(listed_views(v@)),
            Err(e) => Err(e@),
        }, final(talk)@) == listing(text::texts(args@), kind, old(talk)@),
{
    let o = match parse_list(args, kind) {
        Err(e) => return Err(e),
        Ok(o) => o,
    };
    let name = command_name(kind);
    let (base, question): (String, Request) = match &o.path {
        Some(p) => (p.clone(), Request::Absolute(p.clone())),
        None => (".".to_owned(), Request::WorkingDirectory),
    };
    let full_base: String = match talk.ask(question) {
        Answer::Text(p) => p,
        other => {
            let why = other.into_failure();
            return Err(cat3(name.as_str(), ": ", why.as_str()));
        },
    };
    let entries = match talk.ask(Request::ListWhole(base.clone())) {
        Answer::Entries(entries) => entries,
        Answer::Text(e) => {
            return Err(cat3(name.as_str(), ": ", e.as_str()));
        },
        other => {
            let why = other.into_failure();
            return Err(cat5(name.as_str(), ": ", base.as_str(), ": ", why.as_str()));
        },
    };
    let ghost all = dialog::entry_views(entries@);
    let mut found: Vec<(String, String)> = Vec::new();
    let mut i: usize = 0;
    assert(listed_views(found@) =~= Seq::<ListedView>::empty());
    while i < entries.len()
        invariant
            i <= entries@.len(),
            all == dialog::entry_views(entries@),
            listed_views(found@) == listed(all, i as int, kind, o@, base@, full_base@),
        decreases entries@.len() - i,
    {
        let e = &entries[i];
        assert(all[i as int] == e@);
        let fits = match kind {
            EntryKind::Dir => e.is_dir,
            EntryKind::File => e.is_file,
        };
        if fits && (o.hidden || !starts_with_char(e.name.as_str(), '.')) {
            let path = if o.full {
                join_path(full_base.as_str(), e.name.as_str())
            } else {
                join_path(base.as_str(), e.name.as_str())
            };
            let shown = if o.full {
                path.clone()
            } else {
                e.name.clone()
            };
            let ghost before = found@;
            let ghost item = (shown@, path@);
            found.push((shown, path));
            assert(listed_views(found@) =~= listed_views(before).push(item));
        }
        i = i + 1;
    }
    Ok(arrange(found))
}

/// What the entries of a listing show.
pub open spec fn shown_names(list: Seq<ListedView>) -> Seq<Seq<char>> {
    Seq::new(list.len(), |i: int| list[i].0)
}

/// What `files` and `folders` give: what is shown of each entry, one on a
/// line.
pub open spec fn list_output(args: Seq<Seq<char>>, kind: EntryKind, t: TalkView) -> (
    Captured,
    TalkView,
) {
    let (r, t2) = listing(args, kind, t);
    (
        match r {
            Ok(list) => Ok(text::joined(shown_names(list), "\n"@)),
            Err(e) => Err(e),
        },
        t2,
    )
}

/// `files [--all] [--full] [PATH]` and `folders [--all] [--full] [PATH]`.
pub fn list_entries(args: &[String], kind: EntryKind, talk: &mut Talk) -> (r: Result<String, String>)
    ensures
        (methods::text_outcome(r), final(talk)@) == list_output(
            text::texts(args@),
            kind,
            old(talk)@,
        ),
{
    let list = match list_entry_paths(args, kind, talk) {
        Err(e) => return Err(e),
        Ok(v) => v,
    };
    let ghost want = shown_names(listed_views(list@));
    let mut names: Vec<String> = Vec::new();
    let mut i: usize = 0;
    while i < list.len()
        invariant
            i <= list@.len(),
            want == shown_names(listed_views(list@)),
            text::texts(names@) == want.take(i as int),
        decreases list@.len() - i,
    {
        let name = list[i].0.clone();
        proof {
            text::lemma_texts_push(names@, name);
            assert(want.take(i + 1) =~= want.take(i as int).push(name@));
        }
        names.push(name);
        i = i + 1;
    }
    assert(want.take(list@.len() as int) =~= want);
    Ok(join_texts(&names, "\n"))
}

/// The listing builtin of that name.
pub open spec fn list_kind(name: Seq<char>) -> Option<EntryKind> {
    if name == "dirs"@ || name == "folders"@ {
        Some(EntryKind::Dir)
    } else if name == "files"@ {
        Some(EntryKind::File)
    } else {
        None
    }
}

/// Which listing builtin has that name.
pub fn entry_kind(name: &str) -> (r: Option<EntryKind>)
    ensures
        r == list_kind(name@),
{
    if same(name, "dirs") || same(name, "folders") {
        Some(EntryKind::Dir)
    } else if same(name, "files") {
        Some(EntryKind::File)
    } else {
        None
    }
}

/// What the builtin `name` gives; `None` when it is none of this module's.
pub open spec fn captured(name: Seq<char>, args: Seq<Seq<char>>, t: TalkView) -> (
    Option<Captured>,
    TalkView,
) {
    if name == "pwd"@ {
        let (r, t2) = pwd_output(args, t);
        (Some(r), t2)
    } else if list_kind(name) is Some {
        let (r, t2) = list_output(args, list_kind(name)->0, t);
        (Some(r), t2)
    } else if name == "cat"@ {
        let (r, t2) = cat_output(args, t);
        (Some(r), t2)
    } else if name == "find"@ {
        let (r, t2) = find_output(args, t);
        (Some(r), t2)
    } else {
        (None, t)
    }
}

/// Runs the builtin `name`; `None` when it is none of this module's.
pub fn capture(name: &str, args: &[String], talk: &mut Talk) -> (r: Option<Result<String, String>>)
    ensures
        (match r {
            Some(o) => Some(methods::text_outcome(o)),
            None => None,
        }, final(talk)@) == captured(name@, text::texts(args@), old(talk)@),
{
    if same(name, "pwd") {
        return Some(pwd(args, talk));
    }
    if let Some(kind) = entry_kind(name) {
        return Some(list_entries(args, kind, talk));
    }
    if same(name, "cat") {
        return Some(cat(args, talk));
    }
    if same(name, "find") {
        return Some(find(args, talk));
    }
    None
}

// ---------------------------------------------------------------------------
// Sets of files
// ---------------------------------------------------------------------------

/// The records of the first `n` entries; the first path that cannot be
/// inspected ends the run.
pub open spec fn listed_records(list: Seq<ListedView>, n: int, kind: EntryKind, t: TalkView) -> (
    Result<Seq<fileset::FileRecordView>, Seq<char>>,
    TalkView,
)
    decreases n,
{
    if n <= 0 {
        (Ok(Seq::empty()), t)
    } else {
        let (before, t1) = listed_records(list, n - 1, kind, t);
        match before {
            Err(e) => (Err(e), t1),
            Ok(records) => {
                let (r, t2) = fileset::inspected(list[n - 1].1, None, t1);
                match r {
                    Ok(f) => (Ok(records.push(f)), t2),
                    Err(e) => (Err(list_name(kind) + ": "@ + e), t2),
                }
            },
        }
    }
}

proof fn lemma_records_failed_stay(
    list: Seq<ListedView>,
    n: int,
    m: int,
    kind: EntryKind,
    t: TalkView,
)
    requires
        0 <= n <= m,
        listed_records(list, n, kind, t).0 is Err,
    ensures
        listed_records(list, m, kind, t) == listed_records(list, n, kind, t),
    decreases m,
{
    if n < m {
        lemma_records_failed_stay(list, n, m - 1, kind, t);
    }
}

/// The set that `files` or `folders` hands to a pipeline; `None` for any other
/// name.
pub open spec fn captured_set(name: Seq<char>, args: Seq<Seq<char>>, t: TalkView) -> (
    Option<Result<fileset::FileSetView, Seq<char>>>,
    TalkView,
) {
    match list_kind(name) {
        None => (None, t),
        Some(kind) => {
            let (r, t1) = listing(args, kind, t);
            match r {
                Err(e) => (Some(Err(e)), t1),
                Ok(list) => {
                    let (records, t2) = listed_records(list, list.len() as int, kind, t1);
                    match records {
                        Err(e) => (Some(Err(e)), t2),
                        Ok(files) => (
                            Some(
                                Ok(
                                    fileset::FileSetView {
                                        files,
                                        producer: list_name(kind),
                                        roots: Seq::empty(),
                                        columns: fileset::first_columns(files),
                                    },
                                ),
                            ),
                            t2,
                        ),
                    }
                },
            }
        },
    }
}

/// What a set result says.
pub open spec fn set_outcome(r: Result<FileSet, String>) -> Result<
    fileset::FileSetView,
    Seq<char>,
> {
    match r {
        Ok(s) => Ok(s@),
        Err(e) => Err(e@),
    }
}

/// `files` and `folders` as the source of a structured pipeline: the entries
/// with their paths and what is known of them.
pub fn capture_fileset(name: &str, args: &[String], talk: &mut Talk) -> (r: Option<
    Result<FileSet, String>,
>)
    ensures
        (match r {
            Some(o) => Some(set_outcome(o)),
            None => None,
        }, final(talk)@) == captured_set(name@, text::texts(args@), old(talk)@),
{
    let kind = match entry_kind(name) {
        Some(k) => k,
        None => return None,
    };
    let list = match list_entry_paths(args, kind, talk) {
        Err(e) => return Some(Err(e)),
        Ok(v) => v,
    };
    let command = command_name(kind);
    let ghost all = listed_views(list@);
    let ghost start = talk@;
    let mut records: Vec<FileRecord> = Vec::new();
    let mut i: usize = 0;
    assert(fileset::record_views(records@) =~= Seq::<fileset::FileRecordView>::empty());
    while i < list.len()
        invariant
            i <= list@.len(),
            command@ == list_name(kind),
            all == listed_views(list@),
            (Some(kind) == list_kind(name@)),
            listing(text::texts(args@), kind, old(talk)@) == (
                Ok::<Seq<ListedView>, Seq<char>>(all),
                start,
            ),
            listed_records(all, i as int, kind, start) == (
                Ok::<Seq<fileset::FileRecordView>, Seq<char>>(fileset::record_views(records@)),
                talk@,
            ),
        decreases list@.len() - i,
    {
        assert(all[i as int].1 == list@[i as int].1@);
        match FileRecord::from_path(list[i].1.clone(), None, talk) {
            Ok(f) => {
                let ghost before = records@;
                records.push(f);
                assert(fileset::record_views(records@) =~= fileset::record_views(before).push(f@));
            },
            Err(e) => {
                proof {
                    lemma_records_failed_stay(all, i + 1, list@.len() as int, kind, start);
                }
                return Some(Err(cat3(command.as_str(), ": ", e.as_str())));
            },
        }
        i = i + 1;
    }
    Some(Ok(FileSet::new(records, command.as_str())))
}

/// The mode that the first `n` arguments of a piped `find` write; a path is
/// refused there.
pub open spec fn piped_options(args: Seq<Seq<char>>, n: int) -> Result<WalkMode, Seq<char>>
    decreases n,
{
    if n <= 0 {
        Ok(WalkMode { hidden: false, recurse: false })
    } else {
        match piped_options(args, n - 1) {
            Err(e) => Err(e),
            Ok(mode) => {
                let arg = args[n - 1];
                if arg == "--all"@ || arg == "-a"@ {
                    Ok(WalkMode { hidden: true, ..mode })
                } else if arg == "--recurse"@ || arg == "-r"@ {
                    Ok(WalkMode { recurse: true, ..mode })
                } else if arg == "--help"@ || arg == "-h"@ {
                    Err(find_usage())
                } else if is_option(arg) {
                    Err("find: unknown option: "@ + arg)
                } else {
                    Err("find: explicit paths cannot be combined with a piped FileSet"@)
                }
            },
        }
    }
}

proof fn lemma_piped_refused_stays(args: Seq<Seq<char>>, n: int, m: int)
    requires
        0 <= n <= m,
        piped_options(args, n) is Err,
    ensures
        piped_options(args, m) == piped_options(args, n),
    decreases m,
{
    if n < m {
        lemma_piped_refused_stays(args, n, m - 1);
    }
}

fn parse_piped(args: &[String]) -> (r: Result<WalkMode, String>)
    ensures
        (match r {
            Ok(mode) => Ok(mode),
            Err(e) => Err(e@),
        }) == piped_options(text::texts(args@), args@.len() as int),
{
    let ghost all = text::texts(args@);
    let mut mode = WalkMode { hidden: false, recurse: false };
    let mut i: usize = 0;
    while i < args.len()
        invariant
            i <= args@.len(),
            all == text::texts(args@),
            piped_options(all, i as int) == Ok::<WalkMode, Seq<char>>(mode),
        decreases args@.len() - i,
    {
        let arg = args[i].as_str();
        assert(all[i as int] == arg@);
        proof {
            if piped_options(all, i + 1) is Err {
                lemma_piped_refused_stays(all, i + 1, args@.len() as int);
            }
        }
        if same(arg, "--all") || same(arg, "-a") {
            mode.hidden = true;
        } else if same(arg, "--recurse") || same(arg, "-r") {
            mode.recurse = true;
        } else if same(arg, "--help") || same(arg, "-h") {
            return Err("find: usage: find [--all] [--recurse] [PATH...]".to_owned());
        } else if starts_with_char(arg, '-') {
            return Err(cat2("find: unknown option: ", arg));
        } else {
            return Err("find: explicit paths cannot be combined with a piped FileSet".to_owned());
        }
        i = i + 1;
    }
    Ok(mode)
}

/// The paths found below the first `n` directories of a set; the first record
/// that is no directory ends the run, and a directory that cannot be read
/// gives a diagnostic.
pub open spec fn found_below(
    files: Seq<fileset::FileRecordView>,
    n: int,
    mode: WalkMode,
    t: TalkView,
) -> (Result<Seq<Seq<char>>, Seq<char>>, TalkView)
    decreases n,
{
    if n <= 0 {
        (Ok(Seq::empty()), t)
    } else {
        let (before, t1) = found_below(files, n - 1, mode, t);
        match before {
            Err(e) => (Err(e), t1),
            Ok(paths) => {
                let root = files[n - 1].path;
                if files[n - 1].kind != FileKind::Directory {
                    (Err("find: piped FileSet contains a non-directory: "@ + root), t1)
                } else {
                    let (a, t2) = dialog::asked(t1, dialog::RequestView::List(root, Seq::empty()));
                    match a {
                        dialog::AnswerView::Entries(entries) => {
                            let (more, t3) = walked(
                                entries,
                                0,
                                path_below(root, Seq::empty()),
                                separator_of(root),
                                root,
                                Seq::empty(),
                                mode,
                                paths,
                                t2,
                                t.answers.len(),
                            );
                            (Ok(more), t3)
                        },
                        _ => (
                            Ok(paths),
                            dialog::noted(
                                t2,
                                "ion-win: find: "@ + root + ": "@ + a.as_failure(),
                            ),
                        ),
                    }
                }
            },
        }
    }
}

proof fn lemma_below_failed_stays(
    files: Seq<fileset::FileRecordView>,
    n: int,
    m: int,
    mode: WalkMode,
    t: TalkView,
)
    requires
        0 <= n <= m,
        found_below(files, n, mode, t).0 is Err,
    ensures
        found_below(files, m, mode, t) == found_below(files, n, mode, t),
    decreases m,
{
    if n < m {
        lemma_below_failed_stays(files, n, m - 1, mode, t);
    }
}

/// Each path as what is shown and as the path.
pub open spec fn paired(paths: Seq<Seq<char>>) -> Seq<ListedView> {
    Seq::new(paths.len(), |i: int| (paths[i], paths[i]))
}

/// The paths of `list` without those that follow an equal one.
pub open spec fn without_repeats(list: Seq<ListedView>, n: int) -> Seq<Seq<char>>
    decreases n,
{
    if n <= 0 {
        Seq::empty()
    } else {
        let before = without_repeats(list, n - 1);
        if before.len() > 0 && before.last() == list[n - 1].1 {
            before
        } else {
            before.push(list[n - 1].1)
        }
    }
}

/// The records of the first `n` paths; a path that cannot be inspected gives a
/// diagnostic and is left out.
pub open spec fn found_records(paths: Seq<Seq<char>>, n: int, t: TalkView) -> (
    Seq<fileset::FileRecordView>,
    TalkView,
)
    decreases n,
{
    if n <= 0 {
        (Seq::empty(), t)
    } else {
        let (records, t1) = found_records(paths, n - 1, t);
        let (r, t2) = fileset::inspected(paths[n - 1], None, t1);
        match r {
            Ok(f) => (records.push(f), t2),
            Err(e) => (
                records,
                dialog::noted(t2, "ion-win: find: "@ + paths[n - 1] + ": "@ + e),
            ),
        }
    }
}

/// The paths of a list of records.
pub open spec fn record_paths(records: Seq<fileset::FileRecordView>) -> Seq<Seq<char>> {
    Seq::new(records.len(), |i: int| records[i].path)
}

fn paths_of_records(records: &[FileRecord]) -> (r: Vec<String>)
    ensures
        text::texts(r@) == record_paths(fileset::record_views(records@)),
{
    let ghost want = record_paths(fileset::record_views(records@));
    let mut out: Vec<String> = Vec::new();
    let mut i: usize = 0;
    assert(text::texts(out@) =~= want.take(0));
    while i < records.len()
        invariant
            i <= records@.len(),
            want == record_paths(fileset::record_views(records@)),
            text::texts(out@) == want.take(i as int),
        decreases records@.len() - i,
    {
        let path = records[i].path.clone();
        proof {
            text::lemma_texts_push(out@, path);
            assert(want.take(i + 1) =~= want.take(i as int).push(want[i as int]));
        }
        out.push(path);
        i = i + 1;
    }
    assert(want.take(records@.len() as int) =~= want);
    out
}

/// The set of the files below the directories of a set, with those
/// directories as its roots.
pub open spec fn found_set(
    args: Seq<Seq<char>>,
    roots: Seq<fileset::FileRecordView>,
    t: TalkView,
) -> (Result<fileset::FileSetView, Seq<char>>, TalkView) {
    match piped_options(args, args.len() as int) {
        Err(e) => (Err(e), t),
        Ok(mode) => {
            let (r, t1) = found_below(roots, roots.len() as int, mode, t);
            match r {
                Err(e) => (Err(e), t1),
                Ok(found) => {
                    let order = arranged(paired(found));
                    let paths = without_repeats(order, order.len() as int);
                    let (files, t2) = found_records(paths, paths.len() as int, t1);
                    (
                        Ok(
                            fileset::FileSetView {
                                files,
                                producer: "find"@,
                                roots: record_paths(roots),
                                columns: fileset::first_columns(files),
                            },
                        ),
                        t2,
                    )
                },
            }
        },
    }
}

fn pair_paths(paths: &[String]) -> (r: Vec<(String, String)>)
    ensures
        listed_views(r@) == paired(text::texts(paths@)),
{
    let ghost want = paired(text::texts(paths@));
    let mut out: Vec<(String, String)> = Vec::new();
    let mut i: usize = 0;
    assert(listed_views(out@) =~= want.take(0));
    while i < paths.len()
        invariant
            i <= paths@.len(),
            want == paired(text::texts(paths@)),
            listed_views(out@) == want.take(i as int),
        decreases paths@.len() - i,
    {
        let ghost before = out@;
        out.push((paths[i].clone(), paths[i].clone()));
        proof {
            assert(listed_views(out@) =~= listed_views(before).push(want[i as int]));
            assert(want.take(i + 1) =~= want.take(i as int).push(want[i as int]));
        }
        i = i + 1;
    }
    assert(want.take(paths@.len() as int) =~= want);
    out
}

fn drop_repeats(list: &[(String, String)]) -> (r: Vec<String>)
    ensures
        text::texts(r@) == without_repeats(listed_views(list@), list@.len() as int),
{
    let ghost all = listed_views(list@);
    let mut out: Vec<String> = Vec::new();
    let mut i: usize = 0;
    assert(text::texts(out@) =~= Seq::<Seq<char>>::empty());
    while i < list.len()
        invariant
            i <= list@.len(),
            all == listed_views(list@),
            text::texts(out@) == without_repeats(all, i as int),
        decreases list@.len() - i,
    {
        assert(all[i as int].1 == list@[i as int].1@);
        let repeat = if out.len() > 0 {
            assert(text::texts(out@).last() == out@[out@.len() - 1]@);
            same(out[out.len() - 1].as_str(), list[i].1.as_str())
        } else {
            false
        };
        if !repeat {
            let path = list[i].1.clone();
            proof {
                text::lemma_texts_push(out@, path);
            }
            out.push(path);
        }
        i = i + 1;
    }
    out
}

/// `find` on a piped set of directories: the set of the files below them.
pub fn find_in_fileset(args: &[String], roots: &FileSet, talk: &mut Talk) -> (r: Result<
    FileSet,
    String,
>)
    ensures
        (set_outcome(r), final(talk)@) == found_set(
            text::texts(args@),
            roots@.files,
            old(talk)@,
        ),
{
    let mode = match parse_piped(args) {
        Err(e) => return Err(e),
        Ok(m) => m,
    };
    let ghost files = roots@.files;
    let ghost start = talk@;
    let mut found: Vec<String> = Vec::new();
    let none: Vec<String> = Vec::new();
    assert(text::texts(none@) =~= Seq::<Seq<char>>::empty());
    let mut i: usize = 0;
    while i < roots.files.len()
        invariant
            i <= roots.files@.len(),
            files == roots@.files,
            start == old(talk)@,
            text::texts(none@) == Seq::<Seq<char>>::empty(),
            piped_options(text::texts(args@), args@.len() as int) == Ok::<WalkMode, Seq<char>>(mode),
            talk@.answers == start.answers,
            start.next <= talk@.next,
            0 <= talk@.next,
            found_below(files, i as int, mode, start) == (
                Ok::<Seq<Seq<char>>, Seq<char>>(text::texts(found@)),
                talk@,
            ),
        decreases roots.files@.len() - i,
    {
        let root = &roots.files[i];
        assert(files[i as int] == root@);
        if root.kind != FileKind::Directory {
            proof {
                lemma_below_failed_stays(files, i + 1, roots.files@.len() as int, mode, start);
            }
            return Err(cat2("find: piped FileSet contains a non-directory: ", root.path.as_str()));
        }
        let a = talk.ask(Request::List(root.path.clone(), Vec::new()));
        assert(text::texts(Seq::<String>::empty()) =~= Seq::<Seq<char>>::empty());
        match a {
            Answer::Entries(entries) => {
                let prefix = join_path(root.path.as_str(), "");
                proof {
                    reveal_strlit("");
                    assert(""@ =~= Seq::<char>::empty());
                }
                walk_files(
                    &entries,
                    prefix.as_str(),
                    separator(root.path.as_str()),
                    root.path.as_str(),
                    &none,
                    mode,
                    &mut found,
                    talk,
                    Ghost(start.answers.len()),
                );
            },
            other => {
                let why = other.into_failure();
                talk.note(cat4("ion-win: find: ", root.path.as_str(), ": ", why.as_str()));
            },
        }
        i = i + 1;
    }
    let pairs = pair_paths(&found);
    let order = arrange(pairs);
    let paths = drop_repeats(&order);
    let ghost wanted = text::texts(paths@);
    let ghost middle = talk@;
    let mut records: Vec<FileRecord> = Vec::new();
    let mut k: usize = 0;
    assert(fileset::record_views(records@) =~= Seq::<fileset::FileRecordView>::empty());
    while k < paths.len()
        invariant
            k <= paths@.len(),
            wanted == text::texts(paths@),
            (fileset::record_views(records@), talk@) == found_records(wanted, k as int, middle),
        decreases paths@.len() - k,
    {
        match FileRecord::from_path(paths[k].clone(), None, talk) {
            Ok(f) => {
                let ghost before = records@;
                records.push(f);
                assert(fileset::record_views(records@) =~= fileset::record_views(before).push(f@));
            },
            Err(e) => {
                talk.note(cat4("ion-win: find: ", paths[k].as_str(), ": ", e.as_str()));
            },
        }
        k = k + 1;
    }
    Ok(FileSet::new(records, "find").with_roots(paths_of_records(&roots.files)))
}

// ---------------------------------------------------------------------------
// Laws
// ---------------------------------------------------------------------------

/// Whether the entries are in the order of what is shown, upper and lower case
/// aside.
pub open spec fn in_list_order(list: Seq<ListedView>) -> bool {
    forall|i: int, j: int|
        0 <= i < j < list.len() ==> text::ordered(
            methods::lower(#[trigger] list[i].0),
            methods::lower(#[trigger] list[j].0),
        )
}

proof fn lemma_placed(list: Seq<ListedView>, item: ListedView)
    requires
        in_list_order(list),
    ensures
        in_list_order(placed(list, item)),
        placed(list, item).to_multiset() == list.to_multiset().insert(item),
    decreases list.len(),
{
    broadcast use vstd::seq_lib::group_to_multiset_ensures;

    let out = placed(list, item);
    if list.len() == 0 || text::ordered(methods::lower(list.last().0), methods::lower(item.0)) {
        assert forall|i: int, j: int| 0 <= i < j < out.len() implies text::ordered(
            methods::lower(#[trigger] out[i].0),
            methods::lower(#[trigger] out[j].0),
        ) by {
            if j == list.len() && i < list.len() - 1 {
                assert(text::ordered(
                    methods::lower(list[i].0),
                    methods::lower(list[list.len() - 1].0),
                ));
                text::lemma_ordered_transitive(
                    methods::lower(list[i].0),
                    methods::lower(list.last().0),
                    methods::lower(item.0),
                    0,
                );
            }
        }
    } else {
        let front = list.drop_last();
        lemma_placed(front, item);
        let inner = placed(front, item);
        text::lemma_ordered_total(methods::lower(list.last().0), methods::lower(item.0), 0);
        assert(front.push(list.last()) =~= list);
        assert(inner.to_multiset() == front.to_multiset().insert(item));
        assert(out.to_multiset() == inner.to_multiset().insert(list.last()));
        assert(list.to_multiset() == front.to_multiset().insert(list.last()));
        assert(out.to_multiset() =~= list.to_multiset().insert(item));
        assert forall|i: int, j: int| 0 <= i < j < out.len() implies text::ordered(
            methods::lower(#[trigger] out[i].0),
            methods::lower(#[trigger] out[j].0),
        ) by {
            assert(out[i] == inner[i]);
            if j < inner.len() {
                assert(out[j] == inner[j]);
            } else {
                assert(inner.to_multiset().contains(inner[i]));
                if inner[i] != item {
                    assert(front.to_multiset().contains(inner[i]));
                    assert(front.contains(inner[i]));
                    let k = choose|k: int| 0 <= k < front.len() && front[k] == inner[i];
                    assert(text::ordered(
                        methods::lower(list[k].0),
                        methods::lower(list[list.len() - 1].0),
                    ));
                }
            }
        }
    }
}

/// A listing is in order and holds exactly the entries that were found.
pub proof fn law_listing_is_in_order(list: Seq<ListedView>)
    ensures
        in_list_order(arranged(list)),
        arranged(list).to_multiset() == list.to_multiset(),
    decreases list.len(),
{
    broadcast use vstd::seq_lib::group_to_multiset_ensures;

    if list.len() > 0 {
        law_listing_is_in_order(list.drop_last());
        lemma_placed(arranged(list.drop_last()), list.last());
        assert(list.drop_last().push(list.last()) =~= list);
    } else {
        assert(arranged(list) =~= list);
    }
}

/// `cat` gives the contents of its files one after the other, each read once
/// and in order, and nothing between them; the first that cannot be read ends
/// it with an error that names the file.
pub proof fn law_files_are_read_in_order(paths: Seq<Seq<char>>, path: Seq<char>, t: TalkView)
    ensures
        ({
            let (before, t1) = concatenated(paths, paths.len() as int, t);
            let (after, t2) = concatenated(paths.push(path), paths.len() as int + 1, t);
            let (a, t3) = dialog::asked(t1, dialog::RequestView::ReadText(path));
            &&& before matches Ok(s) ==> t2 == t3 && (match a {
                dialog::AnswerView::Text(more) => after == Ok::<Seq<char>, Seq<char>>(s + more),
                _ => after == Err::<Seq<char>, Seq<char>>(
                    "cat: "@ + path + ": "@ + a.as_failure(),
                ),
            })
            &&& before is Err ==> after == before && t2 == t1
            &&& concatenated(Seq::empty(), 0, t) == (
                Ok::<Seq<char>, Seq<char>>(Seq::empty()),
                t,
            )
        }),
{
    lemma_concatenated(paths, path, paths.len() as int, t);
    assert(paths.push(path)[paths.len() as int] == path);
}

proof fn lemma_concatenated(paths: Seq<Seq<char>>, path: Seq<char>, n: int, t: TalkView)
    requires
        n <= paths.len(),
    ensures
        concatenated(paths.push(path), n, t) == concatenated(paths, n, t),
    decreases n,
{
    if n > 0 {
        lemma_concatenated(paths, path, n - 1, t);
        assert(paths.push(path)[n - 1] == paths[n - 1]);
    }
}

/// Whether an entry is of a kind and may be shown.
pub open spec fn is_wanted(e: EntryView, kind: EntryKind, hidden: bool) -> bool {
    &&& kind == EntryKind::Dir ==> e.is_dir
    &&& kind == EntryKind::File ==> e.is_file
    &&& hidden || e.name.len() == 0 || e.name[0] != '.'
}

/// How an entry is shown, and its path.
pub open spec fn line_of(
    e: EntryView,
    full: bool,
    base: Seq<char>,
    full_base: Seq<char>,
) -> ListedView {
    if full {
        (path_below(full_base, e.name), path_below(full_base, e.name))
    } else {
        (e.name, path_below(base, e.name))
    }
}

/// Whether a line shows one of the first `n` entries that are wanted.
pub open spec fn shows_one(
    entries: Seq<EntryView>,
    n: int,
    kind: EntryKind,
    o: ListOptionsView,
    base: Seq<char>,
    full_base: Seq<char>,
    line: ListedView,
) -> bool {
    exists|k: int|
        0 <= k < n && is_wanted(#[trigger] entries[k], kind, o.hidden) && line_of(
            entries[k],
            o.full,
            base,
            full_base,
        ) == line
}

/// Whether a name is that of a file among the entries from `k` on that may be
/// shown, behind a prefix.
pub open spec fn names_one(
    entries: Seq<EntryView>,
    k: int,
    hidden: bool,
    prefix: Seq<char>,
    name: Seq<char>,
) -> bool {
    exists|m: int|
        k <= m < entries.len() && is_shown_file(#[trigger] entries[m], hidden) && prefix
            + entries[m].name == name
}

/// Whether an entry is no directory and may be shown.
pub open spec fn is_shown_file(e: EntryView, hidden: bool) -> bool {
    !e.is_dir && (hidden || e.name.len() == 0 || e.name[0] != '.')
}

/// A listing holds exactly the entries of its kind, hidden ones only where
/// they are wanted: `folders` the directories, `files` the files. Each is
/// shown by its name, or by its full path where that is wanted.
pub proof fn law_listing_holds_its_kind(
    entries: Seq<EntryView>,
    n: int,
    kind: EntryKind,
    o: ListOptionsView,
    base: Seq<char>,
    full_base: Seq<char>,
)
    requires
        0 <= n <= entries.len(),
    ensures
        ({
            let list = listed(entries, n, kind, o, base, full_base);
            &&& forall|k: int|
                0 <= k < n && is_wanted(#[trigger] entries[k], kind, o.hidden) ==> list.contains(line_of(entries[k], o.full, base, full_base))
            &&& forall|m: int|
                0 <= m < list.len() ==> shows_one(
                    entries,
                    n,
                    kind,
                    o,
                    base,
                    full_base,
                    #[trigger] list[m],
                )
            &&& list.len() <= n
        }),
    decreases n,
{
    let list = listed(entries, n, kind, o, base, full_base);
    if n > 0 {
        law_listing_holds_its_kind(entries, n - 1, kind, o, base, full_base);
        let before = listed(entries, n - 1, kind, o, base, full_base);
        let e = entries[n - 1];
        assert(belongs(e, kind, o.hidden) == is_wanted(e, kind, o.hidden));
        assert forall|k: int| 0 <= k < n && is_wanted(#[trigger] entries[k], kind, o.hidden) implies list.contains(
            line_of(entries[k], o.full, base, full_base),
        ) by {
            if k == n - 1 {
                assert(list[before.len() as int] == line_of(e, o.full, base, full_base));
            } else {
                assert(before.contains(line_of(entries[k], o.full, base, full_base)));
                let m = choose|m: int| 0 <= m < before.len() && before[m] == line_of(entries[k], o.full, base, full_base);
                assert(list[m] == before[m]);
            }
        }
        assert forall|m: int| 0 <= m < list.len() implies shows_one(
            entries,
            n,
            kind,
            o,
            base,
            full_base,
            #[trigger] list[m],
        ) by {
            if m < before.len() {
                assert(list[m] == before[m]);
                assert(shows_one(entries, n - 1, kind, o, base, full_base, before[m]));
                let k = choose|k: int|
                    0 <= k < n - 1 && is_wanted(#[trigger] entries[k], kind, o.hidden) && line_of(entries[k], o.full, base, full_base)
                        == before[m];
                assert(is_wanted(entries[k], kind, o.hidden) && line_of(entries[k], o.full, base, full_base) == list[m]);
            } else {
                assert(is_wanted(entries[n - 1], kind, o.hidden) && line_of(entries[n - 1], o.full, base, full_base) == list[m]);
            }
        }
    }
}

/// Each builtin is known by its own name: `pwd`, `cat` and `find`, `files` for
/// files, `folders` and `dirs` for directories. No other name is one.
pub proof fn law_names_tell_builtins_apart(name: Seq<char>, args: Seq<Seq<char>>, t: TalkView)
    ensures
        ({
            let (r, t2) = captured(name, args, t);
            let gives = |x: (Captured, TalkView)| r == Some(x.0) && t2 == x.1;
            &&& name == "pwd"@ ==> gives(pwd_output(args, t))
            &&& name == "cat"@ ==> gives(cat_output(args, t))
            &&& name == "find"@ ==> gives(find_output(args, t))
            &&& name == "files"@ ==> gives(list_output(args, EntryKind::File, t))
            &&& name == "folders"@ || name == "dirs"@ ==> gives(
                list_output(args, EntryKind::Dir, t),
            )
            &&& name != "pwd"@ && name != "cat"@ && name != "find"@ && name != "files"@ && name
                != "folders"@ && name != "dirs"@ ==> r is None && t2 == t
        }),
{
    reveal_strlit("pwd");
    reveal_strlit("cat");
    reveal_strlit("find");
    reveal_strlit("files");
    reveal_strlit("folders");
    reveal_strlit("dirs");
    assert("pwd"@.len() == 3 && "cat"@.len() == 3 && "find"@.len() == 4 && "files"@.len() == 5
        && "folders"@.len() == 7 && "dirs"@.len() == 4);
    assert("pwd"@[0] == 'p' && "cat"@[0] == 'c' && "find"@[0] == 'f' && "dirs"@[0] == 'd');
}

/// `pwd` gives the working directory as it is answered.
pub proof fn law_working_directory_is_given(t: TalkView, here: Seq<char>)
    requires
        dialog::asked(t, dialog::RequestView::WorkingDirectory).0 == dialog::AnswerView::Text(here),
    ensures
        pwd_output(Seq::empty(), t).0 == Ok::<Seq<char>, Seq<char>>(here),
        pwd_output(Seq::empty(), t).1 == dialog::asked(
            t,
            dialog::RequestView::WorkingDirectory,
        ).1,
{
}

/// Without subdirectories `find` gives the files of a directory, each behind
/// the prefix and in the order of the entries, hidden ones only where they
/// are wanted; it asks nothing.
pub proof fn law_flat_find_gives_the_files(
    entries: Seq<EntryView>,
    k: int,
    prefix: Seq<char>,
    sep: Seq<char>,
    root: Seq<char>,
    below: Seq<Seq<char>>,
    hidden: bool,
    out: Seq<Seq<char>>,
    t: TalkView,
    fuel: nat,
)
    requires
        0 <= k <= entries.len(),
    ensures
        ({
            let mode = WalkMode { hidden, recurse: false };
            let (names, t2) = walked(
                entries,
                k,
                prefix,
                sep,
                root,
                below,
                mode,
                out,
                t,
                fuel,
            );
            &&& t2 == t
            &&& out.len() <= names.len()
            &&& forall|m: int| 0 <= m < out.len() ==> #[trigger] names[m] == out[m]
            &&& forall|m: int|
                k <= m < entries.len() && is_shown_file(#[trigger] entries[m], hidden) ==> names.contains(
                    prefix + entries[m].name,
                )
            &&& forall|q: int|
                out.len() <= q < names.len() ==> names_one(entries, k, hidden, prefix, #[trigger] names[q])
        }),
    decreases entries.len() - k,
{
    let mode = WalkMode { hidden, recurse: false };
    let (names, t2) = walked(entries, k, prefix, sep, root, below, mode, out, t, fuel);
    if k < entries.len() {
        let e = entries[k];
        let next = if is_shown_file(e, hidden) {
            out.push(prefix + e.name)
        } else {
            out
        };
        law_flat_find_gives_the_files(
            entries,
            k + 1,
            prefix,
            sep,
            root,
            below,
            hidden,
            next,
            t,
            fuel,
        );
        assert(walked(entries, k + 1, prefix, sep, root, below, mode, next, t, fuel) == (names, t2));
        assert forall|m: int| 0 <= m < out.len() implies #[trigger] names[m] == out[m] by {
            assert(names[m] == next[m]);
        }
        assert forall|m: int| k <= m < entries.len() && is_shown_file(#[trigger] entries[m], hidden) implies
            names.contains(prefix + entries[m].name) by {
            if m == k {
                assert(names[out.len() as int] == next[out.len() as int]);
            }
        }
        assert forall|q: int| out.len() <= q < names.len() implies names_one(
            entries,
            k,
            hidden,
            prefix,
            #[trigger] names[q],
        ) by {
            if q < next.len() {
                assert(names[q] == next[q]);
                assert(is_shown_file(entries[k], hidden) && prefix + entries[k].name == names[q]);
            } else {
                assert(names_one(entries, k + 1, hidden, prefix, names[q]));
                let m = choose|m: int|
                    k + 1 <= m < entries.len() && is_shown_file(#[trigger] entries[m], hidden) && prefix
                        + entries[m].name == names[q];
                assert(is_shown_file(entries[m], hidden) && prefix + entries[m].name == names[q]);
            }
        }
    }
}

/// A subdirectory is entered only where that is wanted and it is not hidden,
/// or hidden ones are wanted: then it is listed, and what is in it comes
/// behind its name.
pub proof fn law_find_enters_what_it_may(
    entries: Seq<EntryView>,
    k: int,
    prefix: Seq<char>,
    sep: Seq<char>,
    root: Seq<char>,
    below: Seq<Seq<char>>,
    mode: WalkMode,
    out: Seq<Seq<char>>,
    sub: Seq<EntryView>,
    t: TalkView,
    fuel: nat,
)
    requires
        0 <= k < entries.len(),
        entries[k].is_dir,
        fuel > 0,
        dialog::asked(t, dialog::RequestView::List(root, below.push(entries[k].name))).0
            == dialog::AnswerView::Entries(sub),
    ensures
        ({
            let name = entries[k].name;
            let here = walked(entries, k, prefix, sep, root, below, mode, out, t, fuel);
            let hidden = name.len() > 0 && name[0] == '.';
            if mode.recurse && (mode.hidden || !hidden) {
                let t1 = dialog::asked(
                    t,
                    dialog::RequestView::List(root, below.push(name)),
                ).1;
                let (more, t2) = walked(
                    sub,
                    0,
                    prefix + name + sep,
                    sep,
                    root,
                    below.push(name),
                    mode,
                    out,
                    t1,
                    (fuel - 1) as nat,
                );
                here == walked(entries, k + 1, prefix, sep, root, below, mode, more, t2, fuel)
            } else {
                here == walked(entries, k + 1, prefix, sep, root, below, mode, out, t, fuel)
            }
        }),
{
}

/// What a path below another one is: with one separator between, the kind of
/// separator that the upper path is written with, and none where it ends in
/// one or is empty.
pub proof fn law_paths_are_put_together(base: Seq<char>, name: Seq<char>)
    ensures
        base.len() == 0 ==> path_below(base, name) == name,
        base.len() > 0 && (base.last() == '/' || base.last() == '\\') ==> path_below(base, name)
            == base + name,
        base.len() > 2 && (forall|k: int| 0 <= k < base.len() ==> #[trigger] base[k] != '\\')
            && base[1] != ':' && base[1] != '/' && base.last() != '/' ==> path_below(base, name)
            == base + seq!['/'] + name,
        base.len() > 2 && base[0] == 'C' && base[1] == ':' && base.last() != '/' && base.last()
            != '\\' ==> path_below(base, name) == base + seq!['\\'] + name,
{
    reveal_strlit("/");
    reveal_strlit("\\");
    assert("/"@ =~= seq!['/']);
    assert("\\"@ =~= seq!['\\']);
    if forall|k: int| 0 <= k < base.len() ==> #[trigger] base[k] != '\\' {
        lemma_no_backslash(base, base.len() as int);
    }
    if base.len() > 2 && base[0] == 'C' && base[1] == ':' {
        assert(!paths::is_separator(base[0]));
        assert(text::is_ascii_letter('C'));
        assert(paths::drive_len(base) == 2);
    }
}

proof fn lemma_no_backslash(s: Seq<char>, n: int)
    requires
        0 <= n <= s.len(),
        forall|k: int| 0 <= k < s.len() ==> #[trigger] s[k] != '\\',
    ensures
        text::last_place(s, '\\', n) is None,
    decreases n,
{
    if n > 0 {
        assert(s[n - 1] != '\\');
        lemma_no_backslash(s, n - 1);
    }
}

proof fn lemma_find_options(args: Seq<Seq<char>>, more: Seq<char>, n: int)
    requires
        n <= args.len(),
    ensures
        find_options(args.push(more), n) == find_options(args, n),
        piped_options(args.push(more), n) == piped_options(args, n),
        forall|kind: EntryKind|
            #![trigger list_options(args, n, kind)]
            list_options(args.push(more), n, kind) == list_options(args, n, kind),
    decreases n,
{
    if n > 0 {
        lemma_find_options(args, more, n - 1);
        assert(args.push(more)[n - 1] == args[n - 1]);
        assert forall|kind: EntryKind|
            #![trigger list_options(args, n, kind)]
            list_options(args.push(more), n, kind) == list_options(args, n, kind) by {
            assert(list_options(args, n - 1, kind) == list_options(args.push(more), n - 1, kind));
        }
    }
}

/// One more argument: each option sets what it names and leaves the rest, and
/// what does not begin like an option is a path, of which a listing takes one.
pub proof fn law_one_more_argument(args: Seq<Seq<char>>, more: Seq<char>, kind: EntryKind)
    ensures
        ({
            let n = args.len() as int;
            let found = find_options(args.push(more), n + 1);
            let shown = list_options(args.push(more), n + 1, kind);
            let plain = more.len() == 0 || more[0] != '-';
            &&& find_options(args, n) matches Ok((mode, paths)) ==> {
                &&& more == "--all"@ || more == "-a"@ ==> found == Ok::<
                    (WalkMode, Seq<Seq<char>>),
                    Seq<char>,
                >((WalkMode { hidden: true, recurse: mode.recurse }, paths))
                &&& more == "--recurse"@ || more == "-r"@ ==> found == Ok::<
                    (WalkMode, Seq<Seq<char>>),
                    Seq<char>,
                >((WalkMode { hidden: mode.hidden, recurse: true }, paths))
                &&& plain ==> found == Ok::<(WalkMode, Seq<Seq<char>>), Seq<char>>(
                    (mode, paths.push(more)),
                )
            }
            &&& list_options(args, n, kind) matches Ok(o) ==> {
                &&& more == "--all"@ || more == "-a"@ ==> shown == Ok::<
                    ListOptionsView,
                    Seq<char>,
                >(ListOptionsView { hidden: true, full: o.full, path: o.path })
                &&& more == "--full"@ || more == "-f"@ ==> shown == Ok::<
                    ListOptionsView,
                    Seq<char>,
                >(ListOptionsView { hidden: o.hidden, full: true, path: o.path })
                &&& plain && o.path is None ==> shown == Ok::<ListOptionsView, Seq<char>>(
                    ListOptionsView { hidden: o.hidden, full: o.full, path: Some(more) },
                )
                &&& plain && o.path is Some ==> shown is Err
            }
        }),
{
    let n = args.len() as int;
    lemma_find_options(args, more, n);
    assert(list_options(args, n, kind) == list_options(args.push(more), n, kind));
    assert(args.push(more)[n] == more);
    reveal_strlit("--all");
    reveal_strlit("-a");
    reveal_strlit("--recurse");
    reveal_strlit("-r");
    reveal_strlit("--full");
    reveal_strlit("-f");
    reveal_strlit("--help");
    reveal_strlit("-h");
    assert("--all"@.len() == 5 && "-a"@.len() == 2 && "--recurse"@.len() == 9 && "-r"@.len() == 2
        && "--full"@.len() == 6 && "-f"@.len() == 2 && "--help"@.len() == 6 && "-h"@.len() == 2);
    assert("--all"@[0] == '-' && "-a"@[0] == '-' && "--recurse"@[0] == '-' && "-r"@[0] == '-'
        && "--full"@[0] == '-' && "-f"@[0] == '-' && "--help"@[0] == '-' && "-h"@[0] == '-');
    assert("-a"@[1] == 'a' && "-r"@[1] == 'r' && "-f"@[1] == 'f' && "-h"@[1] == 'h');
    assert("--full"@[2] == 'f' && "--help"@[2] == 'h');
}

} // verus!
