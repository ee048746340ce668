//! Paths as text.
//!
//! `/` and `\` both separate the parts of a path. A path may begin with what
//! names its volume: a drive letter with its colon, a network share
//! (`\\server\share`), or the longer forms that begin with `\\?\` and
//! `\\.\`. That and a separator after it, or a leading separator, root a
//! path; `.` between separators and repeated separators mean nothing. A path
//! that is put together here keeps the separator of the path that it begins
//! with.

use crate::fs_builtins;
use crate::fs_builtins::join_path;
use crate::text;
use crate::text::{chars_of, code_of, same_chars, sub_chars, text_of};
use vstd::prelude::*;

verus! {

/// Whether a character separates the parts of a path.
pub open spec fn is_separator(c: char) -> bool {
    c == '/' || c == '\\'
}

fn separates(c: char) -> (r: bool)
    ensures
        r == is_separator(c),
{
    c == '/' || c == '\\'
}

/// Where the part that starts at `i` ends.
pub open spec fn part_end(s: Seq<char>, i: int) -> int
    decreases s.len() - i,
{
    if i < 0 || i >= s.len() || is_separator(s[i]) {
        i
    } else {
        part_end(s, i + 1)
    }
}

proof fn lemma_part_end(s: Seq<char>, i: int)
    requires
        0 <= i <= s.len(),
    ensures
        i <= part_end(s, i) <= s.len(),
        part_end(s, i) < s.len() ==> is_separator(s[part_end(s, i)]),
    decreases s.len() - i,
{
    if i < s.len() && !is_separator(s[i]) {
        lemma_part_end(s, i + 1);
    }
}

/// Where the part behind the separator at `i` ends.
pub open spec fn next_end(s: Seq<char>, i: int) -> int {
    if i < s.len() {
        part_end(s, i + 1)
    } else {
        i
    }
}

/// Whether a path begins with two separators.
pub open spec fn begins_twice(s: Seq<char>) -> bool {
    s.len() >= 2 && is_separator(s[0]) && is_separator(s[1])
}

/// How many characters of a path that begins with `\\?\` or `\\.\` name its
/// volume: all up to the end of the next part, or of the share where that
/// part is `UNC`.
pub open spec fn device_len(s: Seq<char>) -> int {
    let e = next_end(s, 3);
    if s[2] == '?' && s.subrange(4, e) == seq!['U', 'N', 'C'] {
        next_end(s, next_end(s, e))
    } else {
        e
    }
}

/// How many characters of a path that begins with two separators name its
/// server and its share.
pub open spec fn share_len(s: Seq<char>) -> int {
    let server = part_end(s, 2);
    let share = next_end(s, server);
    if server > 2 && share > server + 1 {
        share
    } else {
        0
    }
}

/// How many characters of a path name its drive, its share or its device.
pub open spec fn drive_len(s: Seq<char>) -> int {
    if begins_twice(s) {
        if s.len() > 3 && (s[2] == '?' || s[2] == '.') && is_separator(s[3]) {
            device_len(s)
        } else {
            share_len(s)
        }
    } else if s.len() >= 2 && text::is_ascii_letter(s[0]) && s[1] == ':' {
        2
    } else {
        0
    }
}

/// How many characters of a path name its drive and its root directory.
pub open spec fn root_len(s: Seq<char>) -> int {
    let d = drive_len(s);
    if d < s.len() && is_separator(s[d]) {
        d + 1
    } else {
        d
    }
}

/// Whether a path starts at a root directory. A share and a device always
/// do; a drive letter may stand without.
pub open spec fn has_root(s: Seq<char>) -> bool {
    root_len(s) > drive_len(s) || drive_len(s) > 2
}

fn find_part_end(v: &[char], from: usize) -> (r: usize)
    requires
        from <= v@.len(),
    ensures
        r == part_end(v@, from as int),
        from <= r <= v@.len(),
{
    let mut i = from;
    while i < v.len() && !separates(v[i])
        invariant
            from <= i <= v@.len(),
            part_end(v@, from as int) == part_end(v@, i as int),
        decreases v@.len() - i,
    {
        i = i + 1;
    }
    i
}

fn find_next_end(v: &[char], i: usize) -> (r: usize)
    requires
        i <= v@.len(),
    ensures
        r == next_end(v@, i as int),
        i <= r <= v@.len(),
        i < v@.len() ==> i < r,
{
    if i < v.len() {
        find_part_end(v, i + 1)
    } else {
        i
    }
}

fn find_device(v: &[char]) -> (r: usize)
    requires
        v@.len() > 3,
    ensures
        r == device_len(v@),
        2 < r <= v@.len(),
{
    let e = find_next_end(v, 3);
    if v[2] == '?' {
        let name = sub_chars(v, 4, e);
        let unc: [char; 3] = ['U', 'N', 'C'];
        assert(unc@ =~= seq!['U', 'N', 'C']);
        if same_chars(&name, &unc) {
            let server = find_next_end(v, e);
            return find_next_end(v, server);
        }
    }
    e
}

fn find_share(v: &[char]) -> (r: usize)
    requires
        v@.len() >= 2,
    ensures
        r == share_len(v@),
        r <= v@.len(),
{
    let server = find_part_end(v, 2);
    let share = find_next_end(v, server);
    if server > 2 && share > server && share - server > 1 {
        share
    } else {
        0
    }
}

fn find_drive(v: &[char]) -> (r: usize)
    ensures
        r == drive_len(v@),
        r <= v@.len(),
{
    if v.len() < 2 {
        return 0;
    }
    if separates(v[0]) && separates(v[1]) {
        if v.len() > 3 && (v[2] == '?' || v[2] == '.') && separates(v[3]) {
            return find_device(v);
        }
        return find_share(v);
    }
    let c = code_of(v[0]);
    if ((0x61 <= c && c <= 0x7a) || (0x41 <= c && c <= 0x5a)) && v[1] == ':' {
        2
    } else {
        0
    }
}

fn find_root(v: &[char]) -> (r: usize)
    ensures
        r == root_len(v@),
        r <= v@.len(),
{
    let d = find_drive(v);
    if d < v.len() && separates(v[d]) {
        d + 1
    } else {
        d
    }
}

/// Finds the end of what names the drive of a path.
pub fn drive_end(v: &[char]) -> (r: usize)
    ensures
        r == drive_len(v@),
        r <= v@.len(),
{
    find_drive(v)
}

/// Whether a path names a drive or a root.
pub fn is_rooted(path: &str) -> (r: bool)
    ensures
        r == (root_len(path@) > 0),
{
    let v = chars_of(path);
    find_root(&v) > 0
}

/// The parts of a path from position `i` on, `.` left out.
pub open spec fn parts_from(s: Seq<char>, i: int) -> Seq<Seq<char>>
    decreases s.len() - i,
    via parts_go_forward
{
    if i < 0 || i >= s.len() {
        Seq::empty()
    } else if is_separator(s[i]) {
        parts_from(s, i + 1)
    } else {
        let e = part_end(s, i);
        let rest = parts_from(s, e);
        if s.subrange(i, e) == seq!['.'] {
            rest
        } else {
            seq![s.subrange(i, e)] + rest
        }
    }
}

#[via_fn]
proof fn parts_go_forward(s: Seq<char>, i: int) {
    if 0 <= i < s.len() && !is_separator(s[i]) {
        lemma_part_end(s, i + 1);
    }
}

/// The parts of a path, its drive and its root left out.
pub open spec fn parts_of(s: Seq<char>) -> Seq<Seq<char>> {
    parts_from(s, root_len(s))
}

/// Lists the parts of a path, its drive and its root left out.
pub fn parts(path: &str) -> (r: Vec<String>)
    ensures
        text::texts(r@) == parts_of(path@),
{
    let v = chars_of(path);
    let ghost s = path@;
    let mut i: usize = find_root(&v);
    let mut out: Vec<String> = Vec::new();
    let ghost start = i as int;
    while i < v.len()
        invariant
            v@ == s,
            i <= v@.len(),
            start == root_len(s),
            text::texts(out@) + parts_from(s, i as int) == parts_from(s, start),
        decreases v@.len() - i,
    {
        if separates(v[i]) {
            i = i + 1;
        } else {
            let from = i;
            proof {
                lemma_part_end(s, from as int);
                lemma_part_end(s, from + 1);
            }
            while i < v.len() && !separates(v[i])
                invariant
                    v@ == s,
                    from <= i <= v@.len(),
                    part_end(s, from as int) == part_end(s, i as int),
                decreases v@.len() - i,
            {
                i = i + 1;
            }
            let piece = sub_chars(&v, from, i);
            let dot: [char; 1] = ['.'];
            let ghost rest = parts_from(s, i as int);
            let ghost before = out@;
            assert(dot@ =~= seq!['.']);
            if !same_chars(&piece, &dot) {
                let t = text_of(&piece);
                proof {
                    text::lemma_texts_push(out@, t);
                }
                out.push(t);
                assert(text::texts(before) + (seq![t@] + rest) =~= text::texts(out@) + rest);
            }
        }
    }
    assert(parts_from(s, i as int) =~= Seq::<Seq<char>>::empty());
    assert(text::texts(out@) + Seq::<Seq<char>>::empty() =~= text::texts(out@));
    out
}

/// The last part of a path; nothing when the path has none or it is `..`.
pub open spec fn file_name_of(s: Seq<char>) -> Option<Seq<char>> {
    let p = parts_of(s);
    if p.len() > 0 && p.last() != seq!['.', '.'] {
        Some(p.last())
    } else {
        None
    }
}

fn is_up(s: &str) -> (r: bool)
    ensures
        r == (s@ == seq!['.', '.']),
{
    let v = chars_of(s);
    let up: [char; 2] = ['.', '.'];
    assert(up@ =~= seq!['.', '.']);
    same_chars(&v, &up)
}

/// Finds the last part of a path.
pub fn file_name(path: &str) -> (r: Option<String>)
    ensures
        match r {
            Some(n) => file_name_of(path@) == Some(n@),
            None => file_name_of(path@) is None,
        },
{
    let p = parts(path);
    if p.len() == 0 {
        return None;
    }
    let last = p[p.len() - 1].clone();
    assert(text::texts(p@).last() == last@);
    if is_up(last.as_str()) {
        None
    } else {
        Some(last)
    }
}

/// Where a path ends once separators and `.` parts are cut off its first `n`
/// characters, the root left alone.
pub open spec fn end_before(s: Seq<char>, root: int, n: int) -> int
    decreases n,
{
    if n <= root || n <= 0 || n > s.len() {
        n
    } else if is_separator(s[n - 1]) {
        end_before(s, root, n - 1)
    } else if s[n - 1] == '.' && n - 1 > root && is_separator(s[n - 2]) {
        end_before(s, root, n - 1)
    } else {
        n
    }
}

/// Where the part that ends at `n` begins.
pub open spec fn part_start(s: Seq<char>, root: int, n: int) -> int
    decreases n,
{
    if n <= root || n <= 0 || n > s.len() || is_separator(s[n - 1]) {
        n
    } else {
        part_start(s, root, n - 1)
    }
}

/// The path without its last part; nothing when it has no part.
pub open spec fn parent_of(s: Seq<char>) -> Option<Seq<char>> {
    let root = root_len(s);
    let end = end_before(s, root, s.len() as int);
    if end <= root {
        None
    } else {
        Some(s.take(end_before(s, root, part_start(s, root, end))))
    }
}

fn find_end(v: &[char], root: usize, from: usize) -> (r: usize)
    requires
        root <= v@.len(),
        from <= v@.len(),
    ensures
        r == end_before(v@, root as int, from as int),
        r <= from,
{
    let mut n = from;
    while n > root && (separates(v[n - 1]) || (v[n - 1] == '.' && n - 1 > root && separates(
        v[n - 2],
    )))
        invariant
            n <= from,
            from <= v@.len(),
            end_before(v@, root as int, from as int) == end_before(v@, root as int, n as int),
        decreases n,
    {
        n = n - 1;
    }
    n
}

/// Finds the path without its last part.
pub fn parent(path: &str) -> (r: Option<String>)
    ensures
        match r {
            Some(p) => parent_of(path@) == Some(p@),
            None => parent_of(path@) is None,
        },
{
    let v = chars_of(path);
    let root = find_root(&v);
    let end = find_end(&v, root, v.len());
    if end <= root {
        return None;
    }
    let mut n = end;
    while n > root && !separates(v[n - 1])
        invariant
            n <= end <= v@.len(),
            part_start(v@, root as int, end as int) == part_start(v@, root as int, n as int),
        decreases n,
    {
        n = n - 1;
    }
    let cut = find_end(&v, root, n);
    let kept = sub_chars(&v, 0, cut);
    assert(kept@ =~= path@.take(cut as int));
    Some(text_of(&kept))
}

/// Where a path ends up below `dest`: its parts, its drive and root left out,
/// below `dest`.
pub open spec fn target_below(dest: Seq<char>, path: Seq<char>) -> Seq<char> {
    fs_builtins::path_through(dest, parts_of(path))
}

/// Finds where a path ends up below `dest`. An absolute path lands below
/// `dest` like any other.
pub fn table_row_target(dest: &str, path: &str) -> (r: String)
    ensures
        r@ == target_below(dest@, path@),
{
    let p = parts(path);
    fs_builtins::join_through(dest, &p)
}

/// The path of `name` below `base`, where `base` may be the empty path.
pub fn below(base: &str, name: &str) -> (r: String)
    ensures
        r@ == fs_builtins::path_below(base@, name@),
{
    join_path(base, name)
}

/// How many components a path has: its drive, its root, a leading `.` and
/// each of its parts.
pub open spec fn component_count(s: Seq<char>) -> int {
    parts_of(s).len() + (if drive_len(s) > 0 {
        1int
    } else {
        0
    }) + (if has_root(s) {
        1int
    } else {
        0
    }) + (if root_len(s) == 0 && s.len() > 0 && s[0] == '.' && part_end(s, 0) == 1 {
        1int
    } else {
        0
    })
}

/// Whether a path is a single name: one component, and no root.
pub open spec fn is_single_name(s: Seq<char>) -> bool {
    !has_root(s) && component_count(s) == 1
}

/// Checks that a path is a single name.
pub fn single_name(path: &str) -> (r: bool)
    ensures
        r == is_single_name(path@),
{
    let v = chars_of(path);
    let d = find_drive(&v);
    let root = find_root(&v);
    if root > d || d > 2 {
        return false;
    }
    let p = parts(path);
    assert(text::texts(p@).len() == p@.len());
    proof {
        reveal_with_fuel(part_end, 3);
        if v@.len() > 0 {
            lemma_part_end(v@, 1);
        }
    }
    let dot = root == 0 && v.len() > 0 && v[0] == '.' && (v.len() == 1 || separates(v[1]));
    let with_drive = d > 0;
    if with_drive {
        p.len() == 0
    } else if dot {
        p.len() == 0
    } else {
        p.len() == 1
    }
}

/// Checks whether a path is rooted or has several components.
pub fn leads_somewhere(path: &str) -> (r: bool)
    ensures
        r == (has_root(path@) || component_count(path@) > 1),
{
    let v = chars_of(path);
    let d = find_drive(&v);
    let root = find_root(&v);
    if root > d || d > 2 {
        return true;
    }
    let p = parts(path);
    assert(text::texts(p@).len() == p@.len());
    if p.len() > 1 {
        return true;
    }
    let dot = begins_here(&v);
    p.len() == 1 && (d > 0 || dot)
}

/// Whether a path starts with a `.` part of its own.
pub open spec fn starts_here(s: Seq<char>) -> bool {
    root_len(s) == 0 && s.len() > 0 && s[0] == '.' && part_end(s, 0) == 1
}

/// Whether two texts write the same path: the same drive, root and parts.
pub open spec fn same_path(a: Seq<char>, b: Seq<char>) -> bool {
    &&& a.take(drive_len(a)) == b.take(drive_len(b))
    &&& has_root(a) == has_root(b)
    &&& starts_here(a) == starts_here(b)
    &&& parts_of(a) == parts_of(b)
}

fn begins_here(v: &[char]) -> (r: bool)
    ensures
        r == starts_here(v@),
{
    let root = find_root(v);
    proof {
        reveal_with_fuel(part_end, 3);
        if v@.len() > 0 {
            lemma_part_end(v@, 1);
        }
    }
    root == 0 && v.len() > 0 && v[0] == '.' && (v.len() == 1 || separates(v[1]))
}

/// Compares two lists of strings.
pub fn same_lists(a: &[String], b: &[String]) -> (r: bool)
    ensures
        r == (text::texts(a@) == text::texts(b@)),
{
    if a.len() != b.len() {
        assert(text::texts(a@).len() != text::texts(b@).len());
        return false;
    }
    let mut i: usize = 0;
    while i < a.len()
        invariant
            i <= a@.len(),
            a@.len() == b@.len(),
            forall|k: int| 0 <= k < i ==> (#[trigger] a@[k])@ == b@[k]@,
        decreases a@.len() - i,
    {
        if !text::same(a[i].as_str(), b[i].as_str()) {
            assert(text::texts(a@)[i as int] != text::texts(b@)[i as int]);
            return false;
        }
        i = i + 1;
    }
    assert(text::texts(a@) =~= text::texts(b@));
    true
}

/// Compares two paths, part by part.
pub fn equal_paths(a: &str, b: &str) -> (r: bool)
    ensures
        r == same_path(a@, b@),
{
    let va = chars_of(a);
    let vb = chars_of(b);
    let da = find_drive(&va);
    let db = find_drive(&vb);
    let drive_a = sub_chars(&va, 0, da);
    let drive_b = sub_chars(&vb, 0, db);
    assert(drive_a@ =~= a@.take(da as int));
    assert(drive_b@ =~= b@.take(db as int));
    if !same_chars(&drive_a, &drive_b) {
        return false;
    }
    if (find_root(&va) > da || da > 2) != (find_root(&vb) > db || db > 2) {
        return false;
    }
    if begins_here(&va) != begins_here(&vb) {
        return false;
    }
    let pa = parts(a);
    let pb = parts(b);
    same_lists(&pa, &pb)
}

/// Whether a path is another one or lies below it.
pub open spec fn at_or_below(path: Seq<char>, dir: Seq<char>) -> bool {
    let p = parts_of(path);
    let d = parts_of(dir);
    &&& path.take(drive_len(path)) == dir.take(drive_len(dir))
    &&& has_root(path) == has_root(dir)
    &&& starts_here(path) == starts_here(dir)
    &&& d.len() <= p.len()
    &&& p.take(d.len() as int) == d
}

/// Tells whether a path is another one or lies below it.
pub fn lies_below(path: &str, dir: &str) -> (r: bool)
    ensures
        r == at_or_below(path@, dir@),
{
    let va = chars_of(path);
    let vb = chars_of(dir);
    let da = find_drive(&va);
    let db = find_drive(&vb);
    let drive_a = sub_chars(&va, 0, da);
    let drive_b = sub_chars(&vb, 0, db);
    assert(drive_a@ =~= path@.take(da as int));
    assert(drive_b@ =~= dir@.take(db as int));
    if !same_chars(&drive_a, &drive_b) {
        return false;
    }
    if (find_root(&va) > da || da > 2) != (find_root(&vb) > db || db > 2) {
        return false;
    }
    if begins_here(&va) != begins_here(&vb) {
        return false;
    }
    let mut pa = parts(path);
    let pb = parts(dir);
    assert(text::texts(pa@).len() == pa@.len());
    assert(text::texts(pb@).len() == pb@.len());
    if pb.len() > pa.len() {
        return false;
    }
    let ghost all = text::texts(pa@);
    pa.truncate(pb.len());
    assert(text::texts(pa@) =~= all.take(pb@.len() as int));
    same_lists(&pa, &pb)
}

/// A name without its extension.
pub open spec fn stem_of(name: Seq<char>) -> Seq<char> {
    match text::last_place(name, '.', name.len() as int) {
        Some(k) => if k > 0 {
            name.take(k)
        } else {
            name
        },
        None => name,
    }
}

/// A path with another extension.
pub open spec fn extended(path: Seq<char>, extension: Seq<char>) -> Seq<char> {
    match file_name_of(path) {
        None => path,
        Some(name) => fs_builtins::path_below(
            match parent_of(path) {
                Some(p) => p,
                None => Seq::empty(),
            },
            stem_of(name) + "."@ + extension,
        ),
    }
}

/// Gives a path another extension.
pub fn with_extension(path: &str, extension: &str) -> (r: String)
    ensures
        r@ == extended(path@, extension@),
{
    match file_name(path) {
        None => path.to_owned(),
        Some(name) => {
            let v = chars_of(name.as_str());
            let stem = match text::find_last(&v, '.') {
                Some(k) => if k > 0 {
                    let front = sub_chars(&v, 0, k);
                    assert(front@ =~= name@.take(k as int));
                    text_of(&front)
                } else {
                    name.clone()
                },
                None => name.clone(),
            };
            let full = text::cat3(stem.as_str(), ".", extension);
            match parent(path) {
                Some(p) => join_path(p.as_str(), full.as_str()),
                None => full,
            }
        },
    }
}

// ---------------------------------------------------------------------------
// Laws
// ---------------------------------------------------------------------------

/// Whether a text can name a server or a share.
pub open spec fn is_plain_name(name: Seq<char>) -> bool {
    name.len() > 0 && forall|i: int| 0 <= i < name.len() ==> !is_separator(#[trigger] name[i])
}

/// The root of a network share.
pub open spec fn share_root(server: Seq<char>, share: Seq<char>) -> Seq<char> {
    seq!['\\', '\\'] + server + seq!['\\'] + share + seq!['\\']
}

/// The root of a network share, in the form that begins with `\\?\`.
pub open spec fn long_share_root(server: Seq<char>, share: Seq<char>) -> Seq<char> {
    seq!['\\', '\\', '?', '\\', 'U', 'N', 'C', '\\'] + server + seq!['\\'] + share + seq!['\\']
}

/// The root of a device.
pub open spec fn device_root(name: Seq<char>) -> Seq<char> {
    seq!['\\', '\\', '.', '\\'] + name + seq!['\\']
}

/// The root of a drive.
pub open spec fn drive_root(letter: char) -> Seq<char> {
    seq![letter, ':', '\\']
}

/// The root of a drive, in the form that begins with `\\?\`.
pub open spec fn long_drive_root(letter: char) -> Seq<char> {
    seq!['\\', '\\', '?', '\\', letter, ':', '\\']
}

proof fn lemma_part_ends_at(s: Seq<char>, i: int, e: int)
    requires
        0 <= i <= e <= s.len(),
        forall|k: int| i <= k < e ==> !is_separator(#[trigger] s[k]),
        e < s.len() ==> is_separator(s[e]),
    ensures
        part_end(s, i) == e,
    decreases e - i,
{
    if i < e {
        lemma_part_ends_at(s, i + 1, e);
    }
}

proof fn lemma_whole_root(s: Seq<char>)
    requires
        root_len(s) == s.len(),
    ensures
        parent_of(s) is None,
        parts_of(s) =~= Seq::<Seq<char>>::empty(),
{
}

/// The root of a drive has no parent and no parts, in its short and in its
/// long form.
pub proof fn law_drive_roots_are_roots(letter: char)
    requires
        text::is_ascii_letter(letter),
    ensures
        parent_of(drive_root(letter)) is None,
        parts_of(drive_root(letter)) == Seq::<Seq<char>>::empty(),
        parent_of(long_drive_root(letter)) is None,
        parts_of(long_drive_root(letter)) == Seq::<Seq<char>>::empty(),
{
    lemma_whole_root(drive_root(letter));
    let s = long_drive_root(letter);
    lemma_part_ends_at(s, 4, 6);
    assert(s.subrange(4, 6).len() == 2);
    lemma_whole_root(s);
}

/// The root of a share has no parent and no parts, in its short and in its
/// long form.
pub proof fn law_share_roots_are_roots(server: Seq<char>, share: Seq<char>)
    requires
        is_plain_name(server),
        is_plain_name(share),
        server != seq!['?'],
        server != seq!['.'],
    ensures
        parent_of(share_root(server, share)) is None,
        parts_of(share_root(server, share)) == Seq::<Seq<char>>::empty(),
        parent_of(long_share_root(server, share)) is None,
        parts_of(long_share_root(server, share)) == Seq::<Seq<char>>::empty(),
{
    let n = server.len() as int;
    let m = share.len() as int;
    let s = share_root(server, share);
    assert forall|k: int| 2 <= k < 2 + n implies !is_separator(#[trigger] s[k]) by {
        assert(s[k] == server[k - 2]);
    }
    assert forall|k: int| 3 + n <= k < 3 + n + m implies !is_separator(#[trigger] s[k]) by {
        assert(s[k] == share[k - 3 - n]);
    }
    lemma_part_ends_at(s, 2, 2 + n);
    lemma_part_ends_at(s, 3 + n, 3 + n + m);
    if is_separator(s[3]) && (s[2] == '?' || s[2] == '.') {
        assert(s[2] == server[0]);
        if n > 1 {
            assert(s[3] == server[1]);
        }
        assert(server =~= seq![s[2]]);
    }
    lemma_whole_root(s);
    let l = long_share_root(server, share);
    assert forall|k: int| 8 <= k < 8 + n implies !is_separator(#[trigger] l[k]) by {
        assert(l[k] == server[k - 8]);
    }
    assert forall|k: int| 9 + n <= k < 9 + n + m implies !is_separator(#[trigger] l[k]) by {
        assert(l[k] == share[k - 9 - n]);
    }
    lemma_part_ends_at(l, 4, 7);
    assert(l.subrange(4, 7) =~= seq!['U', 'N', 'C']);
    lemma_part_ends_at(l, 8, 8 + n);
    lemma_part_ends_at(l, 9 + n, 9 + n + m);
    lemma_whole_root(l);
}

/// The root of a device has no parent and no parts.
pub proof fn law_device_roots_are_roots(name: Seq<char>)
    requires
        is_plain_name(name),
    ensures
        parent_of(device_root(name)) is None,
        parts_of(device_root(name)) == Seq::<Seq<char>>::empty(),
{
    let n = name.len() as int;
    let s = device_root(name);
    assert forall|k: int| 4 <= k < 4 + n implies !is_separator(#[trigger] s[k]) by {
        assert(s[k] == name[k - 4]);
    }
    lemma_part_ends_at(s, 4, 4 + n);
    lemma_whole_root(s);
}

/// Whether a path is the root of a file system: of a drive, a share or a
/// device, or the one that is just a separator.
pub open spec fn is_volume_root(s: Seq<char>) -> bool {
    ||| s == seq!['/']
    ||| s == seq!['\\']
    ||| exists|letter: char| #[trigger]
        text::is_ascii_letter(letter) && (s == drive_root(letter) || s == long_drive_root(letter))
    ||| exists|server: Seq<char>, share: Seq<char>|
        #![trigger share_root(server, share)]
        is_plain_name(server) && is_plain_name(share) && server != seq!['?'] && server != seq!['.']
            && (s == share_root(server, share) || s == long_share_root(server, share))
    ||| exists|name: Seq<char>| #[trigger] is_plain_name(name) && s == device_root(name)
}

/// The root of a file system has no parent and no parts.
pub proof fn law_volume_root_has_no_parent(s: Seq<char>)
    requires
        is_volume_root(s),
    ensures
        parent_of(s) is None,
        parts_of(s) == Seq::<Seq<char>>::empty(),
{
    if s == seq!['/'] || s == seq!['\\'] {
        lemma_whole_root(s);
    } else if exists|letter: char| #[trigger]
        text::is_ascii_letter(letter) && (s == drive_root(letter) || s == long_drive_root(letter)) {
        let letter = choose|letter: char| #[trigger]
            text::is_ascii_letter(letter) && (s == drive_root(letter) || s == long_drive_root(
                letter,
            ));
        law_drive_roots_are_roots(letter);
    } else if exists|name: Seq<char>| #[trigger] is_plain_name(name) && s == device_root(name) {
        let name = choose|name: Seq<char>| #[trigger] is_plain_name(name) && s == device_root(name);
        law_device_roots_are_roots(name);
    } else {
        let (server, share) = choose|server: Seq<char>, share: Seq<char>|
            #![trigger share_root(server, share)]
            is_plain_name(server) && is_plain_name(share) && server != seq!['?'] && server != seq![
                '.',
            ] && (s == share_root(server, share) || s == long_share_root(server, share));
        law_share_roots_are_roots(server, share);
    }
}

/// Whatever a path is, drive and root among it, it lands below the
/// destination: the target begins with the destination.
pub proof fn law_target_stays_below(dest: Seq<char>, path: Seq<char>)
    ensures
        text::begins_with(target_below(dest, path), dest),
{
    lemma_through_begins(dest, parts_of(path));
}

proof fn lemma_through_begins(root: Seq<char>, below: Seq<Seq<char>>)
    ensures
        text::begins_with(fs_builtins::path_through(root, below), root),
    decreases below.len(),
{
    if below.len() > 0 {
        lemma_through_begins(root, below.drop_last());
        let before = fs_builtins::path_through(root, below.drop_last());
        let after = fs_builtins::path_through(root, below);
        if before.len() == 0 {
            assert(root.len() == 0);
            assert(after.take(0) =~= root);
        } else {
            assert(after.take(before.len() as int) =~= before);
            assert(after.take(root.len() as int) =~= before.take(root.len() as int));
        }
    } else {
        assert(root.take(root.len() as int) =~= root);
    }
}

/// Whether a text can stand as a part of a path: a name that is not `.` and
/// does not begin as a drive does.
pub open spec fn is_part(name: Seq<char>) -> bool {
    &&& is_plain_name(name)
    &&& name != seq!['.']
    &&& name.len() > 1 ==> name[1] != ':'
}

proof fn lemma_part_starts_at(s: Seq<char>, root: int, b: int, n: int)
    requires
        0 <= root <= b <= n <= s.len(),
        forall|k: int| b <= k < n ==> !is_separator(#[trigger] s[k]),
        b > root ==> is_separator(s[b - 1]),
    ensures
        part_start(s, root, n) == b,
    decreases n - b,
{
    if n > b {
        assert(!is_separator(s[n - 1]));
        lemma_part_starts_at(s, root, b, n - 1);
    }
}

/// A single name is its own only part; its parent is empty.
pub proof fn law_name_is_its_only_part(a: Seq<char>)
    requires
        is_part(a),
    ensures
        parts_of(a) == seq![a],
        parent_of(a) == Some(Seq::<char>::empty()),
        file_name_of(a) == (if a == seq!['.', '.'] {
            None
        } else {
            Some(a)
        }),
        is_single_name(a),
        at_or_below(a, a),
{
    let n = a.len() as int;
    assert(!is_separator(a[0]));
    assert(root_len(a) == 0);
    lemma_part_ends_at(a, 0, n);
    assert(a.subrange(0, n) =~= a);
    assert(parts_from(a, n) =~= Seq::<Seq<char>>::empty());
    assert(parts_of(a) =~= seq![a]);
    assert(!is_separator(a[n - 1]));
    assert(n > 1 ==> !is_separator(a[n - 2]));
    lemma_part_starts_at(a, 0, 0, n);
    assert(end_before(a, 0, n) == n);
    assert(a.take(0) =~= Seq::<char>::empty());
    if a[0] == '.' && n == 1 {
        assert(a =~= seq!['.']);
    }
    assert(parts_of(a).take(1) =~= parts_of(a));
}

/// A path of two names has the two as its parts: the first is its parent, the
/// second the name of its file. It lies below the first, not the first below
/// it.
pub proof fn law_separators_part_names(a: Seq<char>, sep: char, b: Seq<char>)
    requires
        is_part(a),
        is_part(b),
        is_separator(sep),
    ensures
        ({
            let s = a + seq![sep] + b;
            &&& parts_of(s) == seq![a, b]
            &&& parent_of(s) == Some(a)
            &&& file_name_of(s) == (if b == seq!['.', '.'] {
                None
            } else {
                Some(b)
            })
            &&& at_or_below(s, a)
            &&& !at_or_below(a, s)
            &&& !is_single_name(s)
        }),
{
    let s = a + seq![sep] + b;
    let n = a.len() as int;
    let e = s.len() as int;
    assert forall|k: int| 0 <= k < n implies !is_separator(#[trigger] s[k]) by {
        assert(s[k] == a[k]);
    }
    assert forall|k: int| n + 1 <= k < e implies !is_separator(#[trigger] s[k]) by {
        assert(s[k] == b[k - n - 1]);
    }
    assert(s[n] == sep);
    assert(s[0] == a[0]);
    assert(n > 1 ==> s[1] == a[1]);
    assert(n == 1 ==> s[1] == sep);
    assert(!is_separator(s[0]));
    assert(drive_len(s) == 0);
    assert(root_len(s) == 0);
    lemma_part_ends_at(s, 0, n);
    lemma_part_ends_at(s, n + 1, e);
    assert(s.subrange(0, n) =~= a);
    assert(s.subrange(n + 1, e) =~= b);
    assert(parts_from(s, e) =~= Seq::<Seq<char>>::empty());
    assert(parts_from(s, n + 1) =~= seq![b]);
    assert(parts_from(s, n) == parts_from(s, n + 1));
    assert(parts_of(s) =~= seq![a, b]);
    if s[e - 1] == '.' && is_separator(s[e - 2]) {
        assert(b.len() == 1);
        assert(b[0] == '.');
        assert(b =~= seq!['.']);
    }
    assert(end_before(s, 0, e) == e);
    lemma_part_starts_at(s, 0, n + 1, e);
    assert(!is_separator(s[n - 1]));
    assert(n > 1 ==> !is_separator(s[n - 2]));
    assert(end_before(s, 0, n) == n);
    assert(end_before(s, 0, n + 1) == n);
    assert(s.take(n) =~= a);
    law_name_is_its_only_part(a);
    assert(seq![a, b].take(1) =~= seq![a]);
    assert(s.take(0) =~= a.take(0));
    if a[0] == '.' && n == 1 {
        assert(a =~= seq!['.']);
    }
}

/// An extension is what stands behind the last dot of a name that does not
/// begin with it.
pub proof fn law_stem_ends_at_the_last_dot(a: Seq<char>, b: Seq<char>)
    requires
        a.len() > 0,
        !b.contains('.'),
    ensures
        stem_of(a + seq!['.'] + b) == a,
        stem_of(seq!['.'] + b) == seq!['.'] + b,
        stem_of(b) == b,
{
    text::law_last_place_is_last(a, '.', b);
    let none = Seq::<char>::empty();
    text::law_last_place_is_last(none, '.', b);
    assert(none + seq!['.'] + b =~= seq!['.'] + b);
    assert((a + seq!['.'] + b).take(a.len() as int) =~= a);
}

} // verus!
