//! String and array methods: `$method(args)` and `@method(args)`.
//!
//! Positions and lengths count Unicode scalar values; `graphemes` is another
//! name for `chars`.

use crate::text;
use crate::text::{
    cat3, cat5, chars_of, copy_texts, find_from, find_last, join_texts, parse_u64, repeat_text, same,
    single_char_texts, split_texts, split_words, sub_chars, text_of, u64_text,
};
use vstd::prelude::*;

verus! {

/// A method's argument: a string or an array.
#[derive(Debug, Clone, PartialEq, Eq)]
pub enum MethodArg {
    Str(String),
    Arr(Vec<String>),
}

/// What an argument holds.
pub enum ArgView {
    Str(Seq<char>),
    Arr(Seq<Seq<char>>),
}

impl View for MethodArg {
    type V = ArgView;

    open spec fn view(&self) -> ArgView {
        match self {
            MethodArg::Str(s) => ArgView::Str(s@),
            MethodArg::Arr(v) => ArgView::Arr(text::texts(v@)),
        }
    }
}

impl ArgView {
    /// The argument as a string: an array's elements are joined by spaces.
    pub open spec fn string(self) -> Seq<char> {
        match self {
            ArgView::Str(s) => s,
            ArgView::Arr(v) => text::joined(v, seq![' ']),
        }
    }

    /// The argument as an array: a string is its one element.
    pub open spec fn array(self) -> Seq<Seq<char>> {
        match self {
            ArgView::Str(s) => seq![s],
            ArgView::Arr(v) => v,
        }
    }
}

/// What a list of arguments holds.
pub open spec fn arg_views(args: Seq<MethodArg>) -> Seq<ArgView> {
    Seq::new(args.len(), |i: int| args[i]@)
}

/// The outcome of a method that gives a string.
pub type TextOutcome = Result<Seq<char>, Seq<char>>;

/// The outcome of a method that gives an array.
pub type ListOutcome = Result<Seq<Seq<char>>, Seq<char>>;

/// What a string result says.
pub open spec fn text_outcome(r: Result<String, String>) -> TextOutcome {
    match r {
        Ok(t) => Ok(t@),
        Err(e) => Err(e@),
    }
}

/// What an array result says.
pub open spec fn list_outcome(r: Result<Vec<String>, String>) -> ListOutcome {
    match r {
        Ok(v) => Ok(text::texts(v@)),
        Err(e) => Err(e@),
    }
}

impl MethodArg {
    /// The argument as a string: an array's elements are joined by spaces.
    pub fn as_str(&self) -> (r: String)
        ensures
            r@ == self@.string(),
    {
        match self {
            MethodArg::Str(s) => s.clone(),
            MethodArg::Arr(v) => {
                proof {
                    reveal_strlit(" ");
                    assert(" "@ =~= seq![' ']);
                }
                join_texts(v, " ")
            },
        }
    }

    /// The argument as an array: a string is its one element.
    pub fn as_array(&self) -> (r: Vec<String>)
        ensures
            text::texts(r@) == self@.array(),
    {
        match self {
            MethodArg::Str(s) => {
                let r: Vec<String> = vec![s.clone()];
                assert(text::texts(r@) =~= seq![s@]);
                r
            },
            MethodArg::Arr(v) => copy_texts(v),
        }
    }
}

/// The message for a missing argument.
pub open spec fn too_few(i: int) -> Seq<char> {
    "expected at least "@ + text::int_text(i + 1) + " argument(s)"@
}

/// The `i`th argument as a string.
pub open spec fn string_arg(args: Seq<ArgView>, i: int) -> TextOutcome {
    if 0 <= i < args.len() {
        Ok(args[i].string())
    } else {
        Err(too_few(i))
    }
}

/// The `i`th argument as an array.
pub open spec fn array_arg(args: Seq<ArgView>, i: int) -> ListOutcome {
    if 0 <= i < args.len() {
        Ok(args[i].array())
    } else {
        Err(too_few(i))
    }
}

/// The count that the `i`th argument writes; `method` is named when it writes
/// none.
pub open spec fn count_arg(args: Seq<ArgView>, i: int, method: Seq<char>) -> Result<
    int,
    Seq<char>,
> {
    match string_arg(args, i) {
        Err(e) => Err(e),
        Ok(s) => match text::u64_of_text(s) {
            Some(n) if n <= usize::MAX => Ok(n),
            _ => Err(method + ": requires a valid number as an argument"@),
        },
    }
}

fn missing_arg(i: usize) -> (r: String)
    requires
        i < 10,
    ensures
        r@ == too_few(i as int),
{
    let n = u64_text(i as u64 + 1);
    cat3("expected at least ", n.as_str(), " argument(s)")
}

fn arg_str(args: &[MethodArg], i: usize) -> (r: Result<String, String>)
    requires
        i < 10,
    ensures
        text_outcome(r) == string_arg(arg_views(args@), i as int),
{
    if i < args.len() {
        Ok(args[i].as_str())
    } else {
        Err(missing_arg(i))
    }
}

fn arg_arr(args: &[MethodArg], i: usize) -> (r: Result<Vec<String>, String>)
    requires
        i < 10,
    ensures
        list_outcome(r) == array_arg(arg_views(args@), i as int),
{
    if i < args.len() {
        Ok(args[i].as_array())
    } else {
        Err(missing_arg(i))
    }
}

fn arg_usize(args: &[MethodArg], i: usize, method: &str) -> (r: Result<usize, String>)
    requires
        i < 10,
    ensures
        match r {
            Ok(n) => count_arg(arg_views(args@), i as int, method@) == Ok::<int, Seq<char>>(n as int),
            Err(e) => count_arg(arg_views(args@), i as int, method@) == Err::<int, Seq<char>>(e@),
        },
{
    match arg_str(args, i) {
        Err(e) => Err(e),
        Ok(s) => {
            if let Some(n) = parse_u64(s.as_str()) {
                if n <= usize::MAX as u64 {
                    return Ok(n as usize);
                }
            }
            Err(crate::text::cat2(method, ": requires a valid number as an argument"))
        },
    }
}

// ---------------------------------------------------------------------------
// String methods
// ---------------------------------------------------------------------------

/// What stands after the last `/`; all of `s` when there is none.
pub open spec fn base_of(s: Seq<char>) -> Seq<char> {
    match text::last_place(s, '/', s.len() as int) {
        Some(i) => s.skip(i + 1),
        None => s,
    }
}

/// What stands after the last `.` of the base name; nothing when there is
/// none.
pub open spec fn extension_of(s: Seq<char>) -> Seq<char> {
    let base = base_of(s);
    match text::last_place(base, '.', base.len() as int) {
        Some(i) => base.skip(i + 1),
        None => Seq::empty(),
    }
}

/// What stands before the last `.` of the base name; all of it when there is
/// none.
pub open spec fn stem_of(s: Seq<char>) -> Seq<char> {
    let base = base_of(s);
    match text::last_place(base, '.', base.len() as int) {
        Some(i) => base.take(i),
        None => base,
    }
}

/// What stands before the last `/`; nothing when there is none.
pub open spec fn parent_of(s: Seq<char>) -> Seq<char> {
    match text::last_place(s, '/', s.len() as int) {
        Some(i) => s.take(i),
        None => Seq::empty(),
    }
}

fn base_chars(s: &str) -> (r: Vec<char>)
    ensures
        r@ == base_of(s@),
{
    let v = chars_of(s);
    match find_last(&v, '/') {
        Some(i) => {
            assert(v@.subrange(i + 1, v@.len() as int) == v@.skip(i + 1));
            sub_chars(&v, i + 1, v.len())
        },
        None => v,
    }
}

/// `f` on the first argument as a string.
pub open spec fn on_first(args: Seq<ArgView>, f: spec_fn(Seq<char>) -> Seq<char>) -> TextOutcome {
    match string_arg(args, 0) {
        Ok(s) => Ok(f(s)),
        Err(e) => Err(e),
    }
}

/// `$basename(path)`: what stands after the last `/`.
pub fn basename(args: &[MethodArg]) -> (r: Result<String, String>)
    ensures
        text_outcome(r) == on_first(arg_views(args@), |s: Seq<char>| base_of(s)),
{
    match arg_str(args, 0) {
        Err(e) => Err(e),
        Ok(s) => {
            let b = base_chars(s.as_str());
            Ok(text_of(&b))
        },
    }
}

/// `$extension(path)`: what stands after the base name's last `.`.
pub fn extension(args: &[MethodArg]) -> (r: Result<String, String>)
    ensures
        text_outcome(r) == on_first(arg_views(args@), |s: Seq<char>| extension_of(s)),
{
    match arg_str(args, 0) {
        Err(e) => Err(e),
        Ok(s) => {
            let b = base_chars(s.as_str());
            match find_last(&b, '.') {
                Some(i) => {
                    assert(b@.subrange(i + 1, b@.len() as int) == b@.skip(i + 1));
                    assert(i < b.len());
                    let x = sub_chars(&b, i + 1, b.len());
                    Ok(text_of(&x))
                },
                None => Ok(String::new()),
            }
        },
    }
}

/// `$filename(path)`: what stands before the base name's last `.`.
pub fn filename(args: &[MethodArg]) -> (r: Result<String, String>)
    ensures
        text_outcome(r) == on_first(arg_views(args@), |s: Seq<char>| stem_of(s)),
{
    match arg_str(args, 0) {
        Err(e) => Err(e),
        Ok(s) => {
            let b = base_chars(s.as_str());
            match find_last(&b, '.') {
                Some(i) => {
                    assert(b@.subrange(0, i as int) == b@.take(i as int));
                    let x = sub_chars(&b, 0, i);
                    Ok(text_of(&x))
                },
                None => Ok(text_of(&b)),
            }
        },
    }
}

/// `$parent(path)`: what stands before the last `/`.
pub fn parent(args: &[MethodArg]) -> (r: Result<String, String>)
    ensures
        text_outcome(r) == on_first(arg_views(args@), |s: Seq<char>| parent_of(s)),
{
    match arg_str(args, 0) {
        Err(e) => Err(e),
        Ok(s) => {
            let v = chars_of(s.as_str());
            match find_last(&v, '/') {
                Some(i) => {
                    assert(v@.subrange(0, i as int) == v@.take(i as int));
                    let x = sub_chars(&v, 0, i);
                    Ok(text_of(&x))
                },
                None => Ok(String::new()),
            }
        },
    }
}

/// The elements of the first argument, joined by the second or by a space.
pub open spec fn join_of(args: Seq<ArgView>) -> TextOutcome {
    match array_arg(args, 0) {
        Err(e) => Err(e),
        Ok(v) => Ok(
            text::joined(
                v,
                if args.len() > 1 {
                    args[1].string()
                } else {
                    " "@
                },
            ),
        ),
    }
}

/// `$join(array [separator])`.
pub fn join(args: &[MethodArg]) -> (r: Result<String, String>)
    ensures
        text_outcome(r) == join_of(arg_views(args@)),
{
    match arg_arr(args, 0) {
        Err(e) => Err(e),
        Ok(v) => {
            let sep: String = if args.len() > 1 {
                args[1].as_str()
            } else {
                " ".to_owned()
            };
            Ok(join_texts(&v, sep.as_str()))
        },
    }
}

/// The position of the second argument in the first, or `-1`.
pub open spec fn find_of(args: Seq<ArgView>) -> TextOutcome {
    match (string_arg(args, 0), string_arg(args, 1)) {
        (Err(e), _) => Err(e),
        (_, Err(e)) => Err(e),
        (Ok(s), Ok(needle)) => Ok(
            match text::found_from(s, needle, 0) {
                Some(i) => text::int_text(i),
                None => "-1"@,
            },
        ),
    }
}

/// `$find(string needle)`.
pub fn find(args: &[MethodArg]) -> (r: Result<String, String>)
    ensures
        text_outcome(r) == find_of(arg_views(args@)),
{
    match arg_str(args, 0) {
        Err(e) => Err(e),
        Ok(s) => match arg_str(args, 1) {
            Err(e) => Err(e),
            Ok(n) => {
                let v = chars_of(s.as_str());
                let p = chars_of(n.as_str());
                match find_from(&v, &p, 0) {
                    Some(i) => Ok(u64_text(i as u64)),
                    None => Ok("-1".to_owned()),
                }
            },
        },
    }
}

/// The number of elements of an array, or of characters of a string.
pub open spec fn len_of(args: Seq<ArgView>) -> TextOutcome {
    if args.len() == 0 {
        Err("len: requires an argument"@)
    } else {
        Ok(
            text::int_text(
                match args[0] {
                    ArgView::Arr(v) => v.len() as int,
                    ArgView::Str(s) => s.len() as int,
                },
            ),
        )
    }
}

/// `$len(string or array)`.
pub fn len(args: &[MethodArg]) -> (r: Result<String, String>)
    ensures
        text_outcome(r) == len_of(arg_views(args@)),
{
    if args.len() == 0 {
        return Err("len: requires an argument".to_owned());
    }
    assert(arg_views(args@)[0] == args@[0]@);
    match &args[0] {
        MethodArg::Arr(v) => Ok(u64_text(v.len() as u64)),
        MethodArg::Str(s) => {
            let n: usize = s.as_str().unicode_len();
            Ok(u64_text(n as u64))
        },
    }
}

/// `$len_bytes(string)`: the length of the UTF-8 form.
pub fn len_bytes(args: &[MethodArg]) -> (r: Result<String, String>)
    ensures
        text_outcome(r) == on_first(
            arg_views(args@),
            |s: Seq<char>| text::nat_text(vstd::utf8::encode_utf8(s).len()),
        ),
{
    match arg_str(args, 0) {
        Err(e) => Err(e),
        Ok(s) => {
            let b: &[u8] = s.as_str().as_bytes();
            Ok(u64_text(b.len() as u64))
        },
    }
}

/// The first argument, as often as the second says.
pub open spec fn repeat_of(args: Seq<ArgView>) -> TextOutcome {
    match (string_arg(args, 0), count_arg(args, 1, "repeat"@)) {
        (Err(e), _) => Err(e),
        (_, Err(e)) => Err(e),
        (Ok(s), Ok(n)) => Ok(text::repeated(s, n as nat)),
    }
}

/// `$repeat(string count)`.
pub fn repeat(args: &[MethodArg]) -> (r: Result<String, String>)
    ensures
        text_outcome(r) == repeat_of(arg_views(args@)),
{
    match arg_str(args, 0) {
        Err(e) => Err(e),
        Ok(s) => match arg_usize(args, 1, "repeat") {
            Err(e) => Err(e),
            Ok(n) => Ok(repeat_text(s.as_str(), n)),
        },
    }
}

/// `s` from `i` on, with the first `n` places where `pattern` stands replaced
/// (every place when `n` is negative). An empty pattern stands before every
/// character and at the end.
pub open spec fn replaced_from(
    s: Seq<char>,
    i: int,
    pattern: Seq<char>,
    by: Seq<char>,
    n: int,
) -> Seq<char>
    decreases s.len() - i,
    when 0 <= i <= s.len()
    via replaced_from_decreases
{
    if n == 0 {
        s.skip(i)
    } else {
        match text::found_from(s, pattern, i) {
            None => s.skip(i),
            Some(j) => if pattern.len() == 0 {
                if i < s.len() {
                    by + seq![s[i]] + replaced_from(s, i + 1, pattern, by, n - 1)
                } else {
                    by
                }
            } else {
                s.subrange(i, j) + by + replaced_from(s, j + pattern.len(), pattern, by, n - 1)
            },
        }
    }
}

#[via_fn]
proof fn replaced_from_decreases(
    s: Seq<char>,
    i: int,
    pattern: Seq<char>,
    by: Seq<char>,
    n: int,
) {
    text::lemma_found_is_first(s, pattern, i);
}

/// Replaces the first `n` places where `pattern` stands, or all of them.
fn replace_text(s: &str, pattern: &str, by: &str, limit: Option<usize>) -> (r: String)
    ensures
        r@ == replaced_from(
            s@,
            0,
            pattern@,
            by@,
            match limit {
                Some(n) => n as int,
                None => -1,
            },
        ),
{
    let v = chars_of(s);
    let p = chars_of(pattern);
    let mut out = String::new();
    let mut i: usize = 0;
    let mut left: usize = match limit {
        Some(n) => n,
        None => 0,
    };
    let bounded = limit.is_some();
    let ghost mut n: int = if bounded {
        left as int
    } else {
        -1
    };
    let ghost whole = replaced_from(v@, 0, p@, by@, n);
    assert(out@ + whole =~= whole);
    loop
        invariant_except_break
            i <= v@.len(),
            p@ == pattern@,
            bounded ==> n == left,
            !bounded ==> n < 0,
            whole == out@ + replaced_from(v@, i as int, p@, by@, n),
        ensures
            out@ == whole,
        decreases v@.len() - i + (if p@.len() == 0 && i == v@.len() { 0int } else { 1int }),
    {
        if bounded && left == 0 {
            let rest = sub_chars(&v, i, v.len());
            assert(rest@ =~= v@.skip(i as int));
            let t = text_of(&rest);
            out.append(t.as_str());
            break;
        }
        match find_from(&v, &p, i) {
            None => {
                let rest = sub_chars(&v, i, v.len());
                assert(rest@ =~= v@.skip(i as int));
                let t = text_of(&rest);
                out.append(t.as_str());
                break;
            },
            Some(j) => {
                let ghost before = out@;
                if p.len() == 0 {
                    out.append(by);
                    if i == v.len() {
                        break;
                    }
                    out.push(v[i]);
                    proof {
                        let rest = replaced_from(v@, i + 1, p@, by@, n - 1);
                        assert(before + (by@ + seq![v@[i as int]] + rest) =~= out@ + rest);
                    }
                    i = i + 1;
                } else {
                    let part = sub_chars(&v, i, j);
                    let t = text_of(&part);
                    out.append(t.as_str());
                    out.append(by);
                    proof {
                        let rest = replaced_from(v@, j + p@.len(), p@, by@, n - 1);
                        assert(before + (part@ + by@ + rest) =~= out@ + rest);
                    }
                    assert(j + p@.len() <= v.len());
                    i = j + p.len();
                }
                proof {
                    n = n - 1;
                }
                if bounded {
                    left = left - 1;
                }
            },
        }
    }
    out
}

/// The first argument with every place of the second replaced by the third.
pub open spec fn replace_of(args: Seq<ArgView>) -> TextOutcome {
    match (string_arg(args, 0), string_arg(args, 1), string_arg(args, 2)) {
        (Err(e), _, _) => Err(e),
        (_, Err(e), _) => Err(e),
        (_, _, Err(e)) => Err(e),
        (Ok(s), Ok(p), Ok(by)) => Ok(replaced_from(s, 0, p, by, -1)),
    }
}

/// `$replace(string pattern replacement)`.
pub fn replace(args: &[MethodArg]) -> (r: Result<String, String>)
    ensures
        text_outcome(r) == replace_of(arg_views(args@)),
{
    match arg_str(args, 0) {
        Err(e) => Err(e),
        Ok(s) => match arg_str(args, 1) {
            Err(e) => Err(e),
            Ok(p) => match arg_str(args, 2) {
                Err(e) => Err(e),
                Ok(by) => Ok(replace_text(s.as_str(), p.as_str(), by.as_str(), None)),
            },
        },
    }
}

/// The first argument with the first places of the second replaced by the
/// third, as many as the fourth says.
pub open spec fn replacen_of(args: Seq<ArgView>) -> TextOutcome {
    match (
        string_arg(args, 0),
        string_arg(args, 1),
        string_arg(args, 2),
        count_arg(args, 3, "replacen"@),
    ) {
        (Err(e), _, _, _) => Err(e),
        (_, Err(e), _, _) => Err(e),
        (_, _, Err(e), _) => Err(e),
        (_, _, _, Err(e)) => Err(e),
        (Ok(s), Ok(p), Ok(by), Ok(n)) => Ok(replaced_from(s, 0, p, by, n)),
    }
}

/// `$replacen(string pattern replacement count)`.
pub fn replacen(args: &[MethodArg]) -> (r: Result<String, String>)
    ensures
        text_outcome(r) == replacen_of(arg_views(args@)),
{
    match arg_str(args, 0) {
        Err(e) => Err(e),
        Ok(s) => match arg_str(args, 1) {
            Err(e) => Err(e),
            Ok(p) => match arg_str(args, 2) {
                Err(e) => Err(e),
                Ok(by) => match arg_usize(args, 3, "replacen") {
                    Err(e) => Err(e),
                    Ok(n) => Ok(replace_text(s.as_str(), p.as_str(), by.as_str(), Some(n))),
                },
            },
        },
    }
}

/// What the regular expression `pattern` makes of `s` when every match is
/// replaced by `by`, or the message for a pattern that is no regular
/// expression.
pub uninterp spec fn regex_replaced(
    pattern: Seq<char>,
    s: Seq<char>,
    by: Seq<char>,
) -> Result<Seq<char>, Seq<char>>;

/// `regex::Regex::new` and `Regex::replace_all`: compiles the pattern and
/// replaces every match, or gives the compile error's text. The result depends
/// on the three strings alone.
#[verifier::external_body]
fn replace_matches(pattern: &str, s: &str, by: &str) -> (r: Result<String, String>)
    ensures
        text_outcome(r) == regex_replaced(pattern@, s@, by@),
{
    match regex::Regex::new(pattern) {
        Ok(re) => Ok(re.replace_all(s, by).into_owned()),
        Err(e) => Err(e.to_string()),
    }
}

/// The outcome of `regex_replace` for what the replacement gave.
pub open spec fn regex_outcome(pattern: Seq<char>, outcome: TextOutcome) -> TextOutcome {
    match outcome {
        Ok(t) => Ok(t),
        Err(e) => Err("regex_replace: invalid pattern '"@ + pattern + "': "@ + e),
    }
}

/// Reports what a replacement by regular expression gave.
pub fn report_regex(pattern: &str, outcome: Result<String, String>) -> (r: Result<String, String>)
    ensures
        text_outcome(r) == regex_outcome(pattern@, text_outcome(outcome)),
{
    match outcome {
        Ok(t) => Ok(t),
        Err(e) => Err(
            crate::text::cat4("regex_replace: invalid pattern '", pattern, "': ", e.as_str()),
        ),
    }
}

/// The first argument with every match of the second replaced by the third.
pub open spec fn regex_replace_of(args: Seq<ArgView>) -> TextOutcome {
    match (string_arg(args, 0), string_arg(args, 1), string_arg(args, 2)) {
        (Err(e), _, _) => Err(e),
        (_, Err(e), _) => Err(e),
        (_, _, Err(e)) => Err(e),
        (Ok(s), Ok(p), Ok(by)) => regex_outcome(p, regex_replaced(p, s, by)),
    }
}

/// `$regex_replace(string pattern replacement)`.
pub fn regex_replace(args: &[MethodArg]) -> (r: Result<String, String>)
    ensures
        text_outcome(r) == regex_replace_of(arg_views(args@)),
{
    match arg_str(args, 0) {
        Err(e) => Err(e),
        Ok(s) => match arg_str(args, 1) {
            Err(e) => Err(e),
            Ok(p) => match arg_str(args, 2) {
                Err(e) => Err(e),
                Ok(by) => {
                    let outcome = replace_matches(p.as_str(), s.as_str(), by.as_str());
                    report_regex(p.as_str(), outcome)
                },
            },
        },
    }
}

/// The characters of `s` in the opposite order.
pub open spec fn reversed(s: Seq<char>) -> Seq<char> {
    Seq::new(s.len(), |i: int| s[s.len() - 1 - i])
}

/// `$reverse(string)`.
pub fn reverse_str(args: &[MethodArg]) -> (r: Result<String, String>)
    ensures
        text_outcome(r) == on_first(arg_views(args@), |s: Seq<char>| reversed(s)),
{
    match arg_str(args, 0) {
        Err(e) => Err(e),
        Ok(s) => {
            let v = chars_of(s.as_str());
            let mut out = String::new();
            let mut n: usize = v.len();
            while n > 0
                invariant
                    n <= v@.len(),
                    out@ == reversed(v@).take(v@.len() - n),
                decreases n,
            {
                n = n - 1;
                out.push(v[n]);
                assert(reversed(v@).take(v@.len() - n) =~= reversed(v@).take(
                    v@.len() - (n + 1),
                ).push(v@[n as int]));
            }
            assert(reversed(v@).take(v@.len() as int) =~= reversed(v@));
            Ok(out)
        },
    }
}

/// The lower-case form of a string that is not all ASCII, as
/// `str::to_lowercase` gives it.
pub uninterp spec fn unicode_lowercase(s: Seq<char>) -> Seq<char>;

/// The upper-case form of a string that is not all ASCII, as
/// `str::to_uppercase` gives it.
pub uninterp spec fn unicode_uppercase(s: Seq<char>) -> Seq<char>;

/// `str::to_lowercase`: the lower-case form by Unicode's tables. The result
/// depends on the string alone.
#[verifier::external_body]
fn std_to_lowercase(s: &str) -> (r: String)
    ensures
        r@ == unicode_lowercase(s@),
{
    s.to_lowercase()
}

/// `str::to_uppercase`: the upper-case form by Unicode's tables. The result
/// depends on the string alone.
#[verifier::external_body]
fn std_to_uppercase(s: &str) -> (r: String)
    ensures
        r@ == unicode_uppercase(s@),
{
    s.to_uppercase()
}

/// Whether every character is ASCII.
pub open spec fn all_ascii(s: Seq<char>) -> bool {
    forall|i: int| 0 <= i < s.len() ==> (#[trigger] s[i] as u32) < 128
}

/// The lower-case form of an ASCII character.
pub open spec fn ascii_lower(c: char) -> char {
    if 65 <= c as u32 <= 90 {
        (c as u32 + 32) as char
    } else {
        c
    }
}

/// The upper-case form of an ASCII character.
pub open spec fn ascii_upper(c: char) -> char {
    if 97 <= c as u32 <= 122 {
        (c as u32 - 32) as char
    } else {
        c
    }
}

/// The lower-case form of a string.
pub open spec fn lower(s: Seq<char>) -> Seq<char> {
    if all_ascii(s) {
        Seq::new(s.len(), |i: int| ascii_lower(s[i]))
    } else {
        unicode_lowercase(s)
    }
}

/// The upper-case form of a string.
pub open spec fn upper(s: Seq<char>) -> Seq<char> {
    if all_ascii(s) {
        Seq::new(s.len(), |i: int| ascii_upper(s[i]))
    } else {
        unicode_uppercase(s)
    }
}

fn ascii_only(v: &[char]) -> (r: bool)
    ensures
        r == all_ascii(v@),
{
    let mut i: usize = 0;
    while i < v.len()
        invariant
            i <= v@.len(),
            forall|j: int| 0 <= j < i ==> (#[trigger] v@[j] as u32) < 128,
        decreases v@.len() - i,
    {
        if v[i] as u32 >= 128 {
            return false;
        }
        i = i + 1;
    }
    true
}

/// The lower-case form of a string.
pub fn lower_text(s: &str) -> (r: String)
    ensures
        r@ == lower(s@),
{
    let v = chars_of(s);
    if !ascii_only(&v) {
        return std_to_lowercase(s);
    }
    let mut out = String::new();
    let mut i: usize = 0;
    while i < v.len()
        invariant
            i <= v@.len(),
            v@ == s@,
            all_ascii(v@),
            out@ == lower(v@).take(i as int),
        decreases v@.len() - i,
    {
        let u: u32 = v[i] as u32;
        let c: char = if 65 <= u && u <= 90 {
            (u as u8 + 32) as char
        } else {
            v[i]
        };
        assert(c == ascii_lower(v@[i as int]));
        out.push(c);
        assert(lower(v@).take(i + 1) =~= lower(v@).take(i as int).push(c));
        i = i + 1;
    }
    assert(lower(v@).take(v@.len() as int) =~= lower(v@));
    out
}

/// The upper-case form of a string.
pub fn upper_text(s: &str) -> (r: String)
    ensures
        r@ == upper(s@),
{
    let v = chars_of(s);
    if !ascii_only(&v) {
        return std_to_uppercase(s);
    }
    let mut out = String::new();
    let mut i: usize = 0;
    while i < v.len()
        invariant
            i <= v@.len(),
            v@ == s@,
            all_ascii(v@),
            out@ == upper(v@).take(i as int),
        decreases v@.len() - i,
    {
        let u: u32 = v[i] as u32;
        let c: char = if 97 <= u && u <= 122 {
            (u as u8 - 32) as char
        } else {
            v[i]
        };
        assert(c == ascii_upper(v@[i as int]));
        out.push(c);
        assert(upper(v@).take(i + 1) =~= upper(v@).take(i as int).push(c));
        i = i + 1;
    }
    assert(upper(v@).take(v@.len() as int) =~= upper(v@));
    out
}

/// `$to_lowercase(string)`.
pub fn to_lowercase(args: &[MethodArg]) -> (r: Result<String, String>)
    ensures
        text_outcome(r) == on_first(arg_views(args@), |s: Seq<char>| lower(s)),
{
    match arg_str(args, 0) {
        Err(e) => Err(e),
        Ok(s) => Ok(lower_text(s.as_str())),
    }
}

/// `$to_uppercase(string)`.
pub fn to_uppercase(args: &[MethodArg]) -> (r: Result<String, String>)
    ensures
        text_outcome(r) == on_first(arg_views(args@), |s: Seq<char>| upper(s)),
{
    match arg_str(args, 0) {
        Err(e) => Err(e),
        Ok(s) => Ok(upper_text(s.as_str())),
    }
}

/// The escape sequence for `c`: a backslash and a letter for a backslash, a
/// newline, a tab or a carriage return, and else `c` itself.
pub open spec fn escaped_char(c: char) -> Seq<char> {
    if c == '\\' {
        seq!['\\', '\\']
    } else if c == '\n' {
        seq!['\\', 'n']
    } else if c == '\t' {
        seq!['\\', 't']
    } else if c == '\r' {
        seq!['\\', 'r']
    } else {
        seq![c]
    }
}

/// `s` with an escape sequence for each character that needs one.
pub open spec fn escaped(s: Seq<char>) -> Seq<char>
    decreases s.len(),
{
    if s.len() == 0 {
        Seq::empty()
    } else {
        escaped(s.drop_last()) + escaped_char(s.last())
    }
}

/// `s` from `i` on, with each escape sequence read. A backslash before any
/// other character, or at the end, stands for itself.
pub open spec fn unescaped_from(s: Seq<char>, i: int) -> Seq<char>
    decreases s.len() - i,
{
    if i < 0 || i >= s.len() {
        Seq::empty()
    } else if s[i] != '\\' {
        seq![s[i]] + unescaped_from(s, i + 1)
    } else if i + 1 >= s.len() {
        seq!['\\']
    } else {
        (if s[i + 1] == 'n' {
            seq!['\n']
        } else if s[i + 1] == 't' {
            seq!['\t']
        } else if s[i + 1] == 'r' {
            seq!['\r']
        } else if s[i + 1] == '\\' {
            seq!['\\']
        } else {
            seq!['\\', s[i + 1]]
        }) + unescaped_from(s, i + 2)
    }
}

/// `$escape(string)`.
pub fn escape(args: &[MethodArg]) -> (r: Result<String, String>)
    ensures
        text_outcome(r) == on_first(arg_views(args@), |s: Seq<char>| escaped(s)),
{
    match arg_str(args, 0) {
        Err(e) => Err(e),
        Ok(s) => {
            let v = chars_of(s.as_str());
            let mut out = String::new();
            let mut i: usize = 0;
            while i < v.len()
                invariant
                    i <= v@.len(),
                    out@ == escaped(v@.take(i as int)),
                decreases v@.len() - i,
            {
                let c: char = v[i];
                let ghost before = out@;
                if c == '\\' {
                    out.push('\\');
                    out.push('\\');
                } else if c == '\n' {
                    out.push('\\');
                    out.push('n');
                } else if c == '\t' {
                    out.push('\\');
                    out.push('t');
                } else if c == '\r' {
                    out.push('\\');
                    out.push('r');
                } else {
                    out.push(c);
                }
                proof {
                    assert(out@ =~= before + escaped_char(c));
                    assert(v@.take(i + 1).drop_last() =~= v@.take(i as int));
                }
                i = i + 1;
            }
            assert(v@.take(v@.len() as int) =~= v@);
            Ok(out)
        },
    }
}

/// `$unescape(string)`.
pub fn unescape(args: &[MethodArg]) -> (r: Result<String, String>)
    ensures
        text_outcome(r) == on_first(arg_views(args@), |s: Seq<char>| unescaped_from(s, 0)),
{
    match arg_str(args, 0) {
        Err(e) => Err(e),
        Ok(s) => {
            let v = chars_of(s.as_str());
            let mut out = String::new();
            let mut i: usize = 0;
            let ghost whole = unescaped_from(v@, 0);
            assert(out@ + whole =~= whole);
            while i < v.len()
                invariant
                    i <= v@.len(),
                    whole == out@ + unescaped_from(v@, i as int),
                decreases v@.len() - i,
            {
                let c: char = v[i];
                let ghost before = out@;
                let ghost start = i as int;
                if c != '\\' {
                    out.push(c);
                    i = i + 1;
                } else if i + 1 >= v.len() {
                    out.push('\\');
                    i = i + 1;
                } else {
                    let d: char = v[i + 1];
                    if d == 'n' {
                        out.push('\n');
                    } else if d == 't' {
                        out.push('\t');
                    } else if d == 'r' {
                        out.push('\r');
                    } else if d == '\\' {
                        out.push('\\');
                    } else {
                        out.push('\\');
                        out.push(d);
                    }
                    i = i + 2;
                }
                assert(before + unescaped_from(v@, start) =~= out@ + unescaped_from(v@, i as int));
            }
            assert(out@ + Seq::<char>::empty() =~= out@);
            Ok(out)
        },
    }
}

/// The first argument, or the second when the first is empty.
pub open spec fn or_of(args: Seq<ArgView>) -> TextOutcome {
    match (string_arg(args, 0), string_arg(args, 1)) {
        (Err(e), _) => Err(e),
        (_, Err(e)) => Err(e),
        (Ok(value), Ok(fallback)) => Ok(
            if value.len() == 0 {
                fallback
            } else {
                value
            },
        ),
    }
}

/// `$or(value fallback)`.
pub fn or(args: &[MethodArg]) -> (r: Result<String, String>)
    ensures
        text_outcome(r) == or_of(arg_views(args@)),
{
    match arg_str(args, 0) {
        Err(e) => Err(e),
        Ok(value) => match arg_str(args, 1) {
            Err(e) => Err(e),
            Ok(fallback) => if value.as_str().is_empty() {
                Ok(fallback)
            } else {
                Ok(value)
            },
        },
    }
}

// ---------------------------------------------------------------------------
// Array methods
// ---------------------------------------------------------------------------

/// `f` on the first argument as a string.
pub open spec fn list_on_first(
    args: Seq<ArgView>,
    f: spec_fn(Seq<char>) -> Seq<Seq<char>>,
) -> ListOutcome {
    match string_arg(args, 0) {
        Ok(s) => Ok(f(s)),
        Err(e) => Err(e),
    }
}

/// `@lines(string)`: the pieces between newlines.
pub fn lines(args: &[MethodArg]) -> (r: Result<Vec<String>, String>)
    ensures
        list_outcome(r) == list_on_first(
            arg_views(args@),
            |s: Seq<char>| text::pieces(s, seq!['\n']),
        ),
{
    match arg_str(args, 0) {
        Err(e) => Err(e),
        Ok(s) => {
            proof {
                reveal_strlit("\n");
                assert("\n"@ =~= seq!['\n']);
            }
            Ok(split_texts(s.as_str(), "\n"))
        },
    }
}

/// The pieces of the first argument, cut at the second, or its words when
/// there is no second.
pub open spec fn split_of(args: Seq<ArgView>) -> ListOutcome {
    match string_arg(args, 0) {
        Err(e) => Err(e),
        Ok(s) => Ok(
            if args.len() > 1 {
                text::pieces(s, args[1].string())
            } else {
                text::words_from(s, 0)
            },
        ),
    }
}

/// `@split(string [separator])`.
pub fn split(args: &[MethodArg]) -> (r: Result<Vec<String>, String>)
    ensures
        list_outcome(r) == split_of(arg_views(args@)),
{
    match arg_str(args, 0) {
        Err(e) => Err(e),
        Ok(s) => {
            if args.len() > 1 {
                let sep = args[1].as_str();
                Ok(split_texts(s.as_str(), sep.as_str()))
            } else {
                Ok(split_words(s.as_str()))
            }
        },
    }
}

/// The first argument cut in two at the position that the second gives.
pub open spec fn split_at_of(args: Seq<ArgView>) -> ListOutcome {
    match (string_arg(args, 0), count_arg(args, 1, "split_at"@)) {
        (Err(e), _) => Err(e),
        (_, Err(e)) => Err(e),
        (Ok(s), Ok(n)) => if n > s.len() {
            Err("split_at: value is out of bounds"@)
        } else {
            Ok(seq![s.take(n), s.skip(n)])
        },
    }
}

/// `@split_at(string position)`.
pub fn split_at(args: &[MethodArg]) -> (r: Result<Vec<String>, String>)
    ensures
        list_outcome(r) == split_at_of(arg_views(args@)),
{
    match arg_str(args, 0) {
        Err(e) => Err(e),
        Ok(s) => match arg_usize(args, 1, "split_at") {
            Err(e) => Err(e),
            Ok(n) => {
                let v = chars_of(s.as_str());
                if n > v.len() {
                    return Err("split_at: value is out of bounds".to_owned());
                }
                let a = sub_chars(&v, 0, n);
                let b = sub_chars(&v, n, v.len());
                assert(a@ =~= v@.take(n as int));
                assert(b@ =~= v@.skip(n as int));
                let out: Vec<String> = vec![text_of(&a), text_of(&b)];
                assert(text::texts(out@) =~= seq![a@, b@]);
                Ok(out)
            },
        },
    }
}

/// The values of the bytes of the UTF-8 form of `s`, in decimal.
pub open spec fn byte_texts(s: Seq<char>) -> Seq<Seq<char>> {
    let b = vstd::utf8::encode_utf8(s);
    Seq::new(b.len(), |i: int| text::nat_text(b[i] as nat))
}

/// `@bytes(string)`.
pub fn bytes(args: &[MethodArg]) -> (r: Result<Vec<String>, String>)
    ensures
        list_outcome(r) == list_on_first(arg_views(args@), |s: Seq<char>| byte_texts(s)),
{
    match arg_str(args, 0) {
        Err(e) => Err(e),
        Ok(s) => {
            let b: &[u8] = s.as_str().as_bytes();
            let mut out: Vec<String> = Vec::new();
            let mut i: usize = 0;
            while i < b.len()
                invariant
                    i <= b@.len(),
                    b@ == vstd::utf8::encode_utf8(s@),
                    text::texts(out@) == byte_texts(s@).take(i as int),
                decreases b@.len() - i,
            {
                let t = u64_text(b[i] as u64);
                proof {
                    text::lemma_texts_push(out@, t);
                    assert(byte_texts(s@).take(i + 1) =~= byte_texts(s@).take(i as int).push(t@));
                }
                out.push(t);
                i = i + 1;
            }
            assert(byte_texts(s@).take(b@.len() as int) =~= byte_texts(s@));
            Ok(out)
        },
    }
}

/// `@chars(string)`.
pub fn chars_method(args: &[MethodArg]) -> (r: Result<Vec<String>, String>)
    ensures
        list_outcome(r) == list_on_first(arg_views(args@), |s: Seq<char>| text::single_chars(s)),
{
    match arg_str(args, 0) {
        Err(e) => Err(e),
        Ok(s) => {
            let v = chars_of(s.as_str());
            Ok(single_char_texts(&v))
        },
    }
}

/// The elements in the opposite order.
pub open spec fn reversed_list(v: Seq<Seq<char>>) -> Seq<Seq<char>> {
    Seq::new(v.len(), |i: int| v[v.len() - 1 - i])
}

/// The elements of the first argument in the opposite order.
pub open spec fn reverse_of(args: Seq<ArgView>) -> ListOutcome {
    match array_arg(args, 0) {
        Err(e) => Err(e),
        Ok(v) => Ok(reversed_list(v)),
    }
}

/// `@reverse(array)`.
pub fn reverse_arr(args: &[MethodArg]) -> (r: Result<Vec<String>, String>)
    ensures
        list_outcome(r) == reverse_of(arg_views(args@)),
{
    match arg_arr(args, 0) {
        Err(e) => Err(e),
        Ok(v) => {
            let ghost want = reversed_list(text::texts(v@));
            let mut out: Vec<String> = Vec::new();
            let mut n: usize = v.len();
            while n > 0
                invariant
                    n <= v@.len(),
                    want == reversed_list(text::texts(v@)),
                    text::texts(out@) == want.take(v@.len() - n),
                decreases n,
            {
                n = n - 1;
                let t = v[n].clone();
                proof {
                    text::lemma_texts_push(out@, t);
                    assert(want.take(v@.len() - n) =~= want.take(v@.len() - (n + 1)).push(t@));
                }
                out.push(t);
            }
            assert(want.take(v@.len() as int) =~= want);
            Ok(out)
        },
    }
}

/// The first array, or the second when the first is empty.
pub open spec fn subst_of(args: Seq<ArgView>) -> ListOutcome {
    if args.len() != 2 {
        Err("subst: requires 2 arguments"@)
    } else if args[0].array().len() > 0 {
        Ok(args[0].array())
    } else {
        Ok(args[1].array())
    }
}

/// `@subst(array fallback)`.
pub fn subst(args: &[MethodArg]) -> (r: Result<Vec<String>, String>)
    ensures
        list_outcome(r) == subst_of(arg_views(args@)),
{
    if args.len() != 2 {
        return Err("subst: requires 2 arguments".to_owned());
    }
    let first = args[0].as_array();
    assert(text::texts(first@).len() == first@.len());
    if first.len() > 0 {
        return Ok(first);
    }
    Ok(args[1].as_array())
}

// ---------------------------------------------------------------------------
// Dispatch
// ---------------------------------------------------------------------------

/// The outcome of the string method `name`; `None` when there is no such
/// method.
pub open spec fn string_method(name: Seq<char>, args: Seq<ArgView>) -> Option<TextOutcome> {
    if name == "basename"@ {
        Some(on_first(args, |s: Seq<char>| base_of(s)))
    } else if name == "extension"@ {
        Some(on_first(args, |s: Seq<char>| extension_of(s)))
    } else if name == "filename"@ {
        Some(on_first(args, |s: Seq<char>| stem_of(s)))
    } else if name == "join"@ {
        Some(join_of(args))
    } else if name == "find"@ {
        Some(find_of(args))
    } else if name == "len"@ {
        Some(len_of(args))
    } else if name == "len_bytes"@ {
        Some(
            on_first(args, |s: Seq<char>| text::nat_text(vstd::utf8::encode_utf8(s).len())),
        )
    } else if name == "parent"@ {
        Some(on_first(args, |s: Seq<char>| parent_of(s)))
    } else if name == "repeat"@ {
        Some(repeat_of(args))
    } else if name == "replace"@ {
        Some(replace_of(args))
    } else if name == "replacen"@ {
        Some(replacen_of(args))
    } else if name == "regex_replace"@ {
        Some(regex_replace_of(args))
    } else if name == "reverse"@ {
        Some(on_first(args, |s: Seq<char>| reversed(s)))
    } else if name == "to_lowercase"@ {
        Some(on_first(args, |s: Seq<char>| lower(s)))
    } else if name == "to_uppercase"@ {
        Some(on_first(args, |s: Seq<char>| upper(s)))
    } else if name == "escape"@ {
        Some(on_first(args, |s: Seq<char>| escaped(s)))
    } else if name == "unescape"@ {
        Some(on_first(args, |s: Seq<char>| unescaped_from(s, 0)))
    } else if name == "or"@ {
        Some(or_of(args))
    } else {
        None
    }
}

/// The outcome of the array method `name`; `None` when there is no such
/// method.
pub open spec fn array_method(name: Seq<char>, args: Seq<ArgView>) -> Option<ListOutcome> {
    if name == "lines"@ {
        Some(list_on_first(args, |s: Seq<char>| text::pieces(s, seq!['\n'])))
    } else if name == "split"@ {
        Some(split_of(args))
    } else if name == "split_at"@ {
        Some(split_at_of(args))
    } else if name == "bytes"@ {
        Some(list_on_first(args, |s: Seq<char>| byte_texts(s)))
    } else if name == "chars"@ || name == "graphemes"@ {
        Some(list_on_first(args, |s: Seq<char>| text::single_chars(s)))
    } else if name == "reverse"@ {
        Some(reverse_of(args))
    } else if name == "subst"@ {
        Some(subst_of(args))
    } else {
        None
    }
}

/// Calls a string method by its name; `None` when there is no such method.
pub fn call_string_method(name: &str, args: &[MethodArg]) -> (r: Option<Result<String, String>>)
    ensures
        match r {
            Some(outcome) => string_method(name@, arg_views(args@)) == Some(text_outcome(outcome)),
            None => string_method(name@, arg_views(args@)) is None,
        },
{
    if same(name, "basename") {
        Some(basename(args))
    } else if same(name, "extension") {
        Some(extension(args))
    } else if same(name, "filename") {
        Some(filename(args))
    } else if same(name, "join") {
        Some(join(args))
    } else if same(name, "find") {
        Some(find(args))
    } else if same(name, "len") {
        Some(len(args))
    } else if same(name, "len_bytes") {
        Some(len_bytes(args))
    } else if same(name, "parent") {
        Some(parent(args))
    } else if same(name, "repeat") {
        Some(repeat(args))
    } else if same(name, "replace") {
        Some(replace(args))
    } else if same(name, "replacen") {
        Some(replacen(args))
    } else if same(name, "regex_replace") {
        Some(regex_replace(args))
    } else if same(name, "reverse") {
        Some(reverse_str(args))
    } else if same(name, "to_lowercase") {
        Some(to_lowercase(args))
    } else if same(name, "to_uppercase") {
        Some(to_uppercase(args))
    } else if same(name, "escape") {
        Some(escape(args))
    } else if same(name, "unescape") {
        Some(unescape(args))
    } else if same(name, "or") {
        Some(or(args))
    } else {
        None
    }
}

/// Calls an array method by its name; `None` when there is no such method.
pub fn call_array_method(name: &str, args: &[MethodArg]) -> (r: Option<
    Result<Vec<String>, String>,
>)
    ensures
        match r {
            Some(outcome) => array_method(name@, arg_views(args@)) == Some(list_outcome(outcome)),
            None => array_method(name@, arg_views(args@)) is None,
        },
{
    if same(name, "lines") {
        Some(lines(args))
    } else if same(name, "split") {
        Some(split(args))
    } else if same(name, "split_at") {
        Some(split_at(args))
    } else if same(name, "bytes") {
        Some(bytes(args))
    } else if same(name, "chars") || same(name, "graphemes") {
        Some(chars_method(args))
    } else if same(name, "reverse") {
        Some(reverse_arr(args))
    } else if same(name, "subst") {
        Some(subst(args))
    } else {
        None
    }
}

// ---------------------------------------------------------------------------
// Laws
// ---------------------------------------------------------------------------

/// Reading escape sequences undoes writing them.
pub proof fn law_unescape_undoes_escape(s: Seq<char>)
    ensures
        unescaped_from(escaped(s), 0) == s,
{
    lemma_unescape_prefix(s, 0);
    assert(escaped(s.take(0)) =~= Seq::<char>::empty());
    assert(s.skip(0) =~= s);
}

/// From where the escape sequences of the first `n` characters end, reading
/// gives the rest.
proof fn lemma_unescape_prefix(s: Seq<char>, n: int)
    requires
        0 <= n <= s.len(),
    ensures
        unescaped_from(escaped(s), escaped(s.take(n)).len() as int) == s.skip(n),
    decreases s.len() - n,
{
    let at = escaped(s.take(n)).len() as int;
    lemma_escaped_is_prefix(s, n);
    if n == s.len() {
        assert(s.take(n) =~= s);
        assert(s.skip(n) =~= Seq::<char>::empty());
    } else {
        lemma_unescape_prefix(s, n + 1);
        lemma_escaped_is_prefix(s, n + 1);
        assert(s.take(n + 1).drop_last() =~= s.take(n));
        let e = escaped_char(s[n]);
        assert(escaped(s.take(n + 1)) == escaped(s.take(n)) + e);
        assert(escaped(s)[at] == escaped(s.take(n + 1))[at]);
        assert(escaped(s)[at] == e[0]);
        if e.len() == 2 {
            assert(escaped(s)[at + 1] == escaped(s.take(n + 1))[at + 1]);
            assert(escaped(s)[at + 1] == e[1]);
        }
        assert(unescaped_from(escaped(s), at) =~= s.skip(n));
    }
}

/// What is written for a beginning of `s` is a beginning of what is written
/// for `s`.
proof fn lemma_escaped_is_prefix(s: Seq<char>, n: int)
    requires
        0 <= n <= s.len(),
    ensures
        escaped(s.take(n)).len() <= escaped(s).len(),
        forall|k: int|
            0 <= k < escaped(s.take(n)).len() ==> escaped(s)[k] == escaped(s.take(n))[k],
    decreases s.len(),
{
    if n == s.len() {
        assert(s.take(n) =~= s);
    } else {
        lemma_escaped_is_prefix(s.drop_last(), n);
        assert(s.drop_last().take(n) =~= s.take(n));
    }
}

/// Reversing a string twice gives it back.
pub proof fn law_reverse_twice(s: Seq<char>)
    ensures
        reversed(reversed(s)) == s,
{
    assert(reversed(reversed(s)) =~= s);
}

/// A path's parent, a `/` and its base name make up the path again, wherever
/// it holds a `/`.
pub proof fn law_parent_and_base_make_the_path(s: Seq<char>)
    requires
        s.contains('/'),
    ensures
        parent_of(s) + seq!['/'] + base_of(s) == s,
{
    let k = choose|k: int| 0 <= k < s.len() && s[k] == '/';
    lemma_last_place(s, '/', s.len() as int);
    assert(text::last_place(s, '/', s.len() as int) is Some);
    assert(parent_of(s) + seq!['/'] + base_of(s) =~= s);
}

proof fn lemma_last_place(s: Seq<char>, c: char, n: int)
    requires
        0 <= n <= s.len(),
    ensures
        match text::last_place(s, c, n) {
            Some(i) => 0 <= i < n && s[i] == c,
            None => forall|k: int| 0 <= k < n ==> s[k] != c,
        },
    decreases n,
{
    if n > 0 && s[n - 1] != c {
        lemma_last_place(s, c, n - 1);
    }
}

proof fn lemma_string_methods(args: Seq<ArgView>)
    ensures
        string_method("basename"@, args) == Some(on_first(args, |s: Seq<char>| base_of(s))),
        string_method("extension"@, args) == Some(on_first(args, |s: Seq<char>| extension_of(s))),
        string_method("filename"@, args) == Some(on_first(args, |s: Seq<char>| stem_of(s))),
        string_method("join"@, args) == Some(join_of(args)),
        string_method("find"@, args) == Some(find_of(args)),
        string_method("len"@, args) == Some(len_of(args)),
        string_method("len_bytes"@, args) == Some(
            on_first(args, |s: Seq<char>| text::nat_text(vstd::utf8::encode_utf8(s).len())),
        ),
        string_method("parent"@, args) == Some(on_first(args, |s: Seq<char>| parent_of(s))),
        string_method("repeat"@, args) == Some(repeat_of(args)),
        string_method("replace"@, args) == Some(replace_of(args)),
        string_method("replacen"@, args) == Some(replacen_of(args)),
        string_method("regex_replace"@, args) == Some(regex_replace_of(args)),
        string_method("reverse"@, args) == Some(on_first(args, |s: Seq<char>| reversed(s))),
        string_method("to_lowercase"@, args) == Some(on_first(args, |s: Seq<char>| lower(s))),
        string_method("to_uppercase"@, args) == Some(on_first(args, |s: Seq<char>| upper(s))),
        string_method("escape"@, args) == Some(on_first(args, |s: Seq<char>| escaped(s))),
        string_method("unescape"@, args) == Some(
            on_first(args, |s: Seq<char>| unescaped_from(s, 0)),
        ),
        string_method("or"@, args) == Some(or_of(args)),
{
    reveal_strlit("basename");
    reveal_strlit("extension");
    reveal_strlit("filename");
    reveal_strlit("join");
    reveal_strlit("find");
    reveal_strlit("len");
    reveal_strlit("len_bytes");
    reveal_strlit("parent");
    reveal_strlit("repeat");
    reveal_strlit("replace");
    reveal_strlit("replacen");
    reveal_strlit("regex_replace");
    reveal_strlit("reverse");
    reveal_strlit("to_lowercase");
    reveal_strlit("to_uppercase");
    reveal_strlit("escape");
    reveal_strlit("unescape");
    reveal_strlit("or");
    assert("basename"@.len() == 8 && "extension"@.len() == 9 && "filename"@.len() == 8);
    assert("join"@.len() == 4 && "find"@.len() == 4 && "len"@.len() == 3);
    assert("len_bytes"@.len() == 9 && "parent"@.len() == 6 && "repeat"@.len() == 6);
    assert("replace"@.len() == 7 && "replacen"@.len() == 8 && "regex_replace"@.len() == 13);
    assert("reverse"@.len() == 7 && "to_lowercase"@.len() == 12 && "to_uppercase"@.len() == 12);
    assert("escape"@.len() == 6 && "unescape"@.len() == 8 && "or"@.len() == 2);
    assert("basename"@[0] == 'b' && "filename"@[0] == 'f');
    assert("replacen"@[0] == 'r' && "unescape"@[0] == 'u');
    assert("extension"@[0] == 'e' && "len_bytes"@[0] == 'l');
    assert("join"@[0] == 'j' && "find"@[0] == 'f');
    assert("parent"@[0] == 'p' && "repeat"@[0] == 'r' && "escape"@[0] == 'e');
    assert("replace"@[2] == 'p' && "reverse"@[2] == 'v');
    assert("to_lowercase"@[3] == 'l' && "to_uppercase"@[3] == 'u');
}

proof fn lemma_array_methods(args: Seq<ArgView>)
    ensures
        array_method("lines"@, args) == Some(
            list_on_first(args, |s: Seq<char>| text::pieces(s, seq!['\n'])),
        ),
        array_method("split"@, args) == Some(split_of(args)),
        array_method("split_at"@, args) == Some(split_at_of(args)),
        array_method("bytes"@, args) == Some(list_on_first(args, |s: Seq<char>| byte_texts(s))),
        array_method("chars"@, args) == Some(
            list_on_first(args, |s: Seq<char>| text::single_chars(s)),
        ),
        array_method("graphemes"@, args) == Some(
            list_on_first(args, |s: Seq<char>| text::single_chars(s)),
        ),
        array_method("reverse"@, args) == Some(reverse_of(args)),
        array_method("subst"@, args) == Some(subst_of(args)),
{
    reveal_strlit("lines");
    reveal_strlit("split");
    reveal_strlit("split_at");
    reveal_strlit("bytes");
    reveal_strlit("chars");
    reveal_strlit("graphemes");
    reveal_strlit("reverse");
    reveal_strlit("subst");
    assert("lines"@.len() == 5 && "split"@.len() == 5 && "split_at"@.len() == 8);
    assert("bytes"@.len() == 5 && "chars"@.len() == 5 && "graphemes"@.len() == 9);
    assert("reverse"@.len() == 7 && "subst"@.len() == 5);
    assert("lines"@[0] == 'l' && "split"@[0] == 's' && "bytes"@[0] == 'b');
    assert("chars"@[0] == 'c' && "subst"@[0] == 's');
    assert("split"@[1] == 'p' && "subst"@[1] == 'u');
}

/// `to_uppercase` turns each lower-case letter of an ASCII text into the
/// capital at its place in the alphabet, and leaves everything else.
pub proof fn law_uppercase_raises_letters(args: Seq<ArgView>)
    requires
        args.len() >= 1,
        forall|i: int|
            0 <= i < args[0].string().len() ==> (#[trigger] args[0].string()[i] as u32) < 128,
    ensures
        ({
            let s = args[0].string();
            string_method("to_uppercase"@, args) matches Some(Ok(r)) && r.len() == s.len()
                && forall|i: int|
                0 <= i < s.len() ==> {
                    let c = s[i] as u32;
                    if 'a' as u32 <= c <= 'z' as u32 {
                        #[trigger] r[i] as u32 == c - 'a' as u32 + 'A' as u32
                    } else {
                        r[i] == s[i]
                    }
                }
        }),
{
    lemma_string_methods(args);
}

/// `to_lowercase` turns each capital of an ASCII text into the lower-case
/// letter at its place in the alphabet, and leaves everything else.
pub proof fn law_lowercase_lowers_letters(args: Seq<ArgView>)
    requires
        args.len() >= 1,
        forall|i: int|
            0 <= i < args[0].string().len() ==> (#[trigger] args[0].string()[i] as u32) < 128,
    ensures
        ({
            let s = args[0].string();
            string_method("to_lowercase"@, args) matches Some(Ok(r)) && r.len() == s.len()
                && forall|i: int|
                0 <= i < s.len() ==> {
                    let c = s[i] as u32;
                    if 'A' as u32 <= c <= 'Z' as u32 {
                        #[trigger] r[i] as u32 == c - 'A' as u32 + 'a' as u32
                    } else {
                        r[i] == s[i]
                    }
                }
        }),
{
    lemma_string_methods(args);
}

/// Of a text that is not all ASCII, `to_uppercase` and `to_lowercase` give the
/// upper-case and the lower-case form.
pub proof fn law_other_letters_change_case(args: Seq<ArgView>)
    requires
        args.len() >= 1,
        exists|i: int|
            0 <= i < args[0].string().len() && (#[trigger] args[0].string()[i] as u32) >= 128,
    ensures
        string_method("to_uppercase"@, args) == Some(
            Ok::<Seq<char>, Seq<char>>(unicode_uppercase(args[0].string())),
        ),
        string_method("to_lowercase"@, args) == Some(
            Ok::<Seq<char>, Seq<char>>(unicode_lowercase(args[0].string())),
        ),
{
    lemma_string_methods(args);
}

/// `basename` is the longest end of the text without a `/`, and `parent` is
/// what stands before the last `/`, or nothing.
pub proof fn law_paths_are_cut_at_the_last_slash(args: Seq<ArgView>)
    requires
        args.len() >= 1,
    ensures
        ({
            let s = args[0].string();
            &&& string_method("basename"@, args) matches Some(Ok(b)) && b.len() <= s.len()
                && s.skip(s.len() - b.len()) == b && !b.contains('/') && (b.len() < s.len()
                ==> s[s.len() - b.len() - 1] == '/')
            &&& string_method("parent"@, args) matches Some(Ok(p)) && (if s.contains('/') {
                p.len() < s.len() && s.take(p.len() as int) == p && s[p.len() as int] == '/'
                    && !s.skip(p.len() as int + 1).contains('/')
            } else {
                p.len() == 0
            })
        }),
{
    lemma_string_methods(args);
    let s = args[0].string();
    lemma_last_place(s, '/', s.len() as int);
    lemma_last_place_is_last(s, '/', s.len() as int);
    let b = base_of(s);
    assert(s.skip(s.len() - b.len()) =~= b);
    if let Some(i) = text::last_place(s, '/', s.len() as int) {
        assert(s.take(parent_of(s).len() as int) =~= parent_of(s));
        assert(s.skip(i + 1) == b);
        assert forall|k: int| 0 <= k < b.len() implies b[k] != '/' by {
            assert(b[k] == s[i + 1 + k]);
        }
    }
}

proof fn lemma_last_place_is_last(s: Seq<char>, c: char, n: int)
    requires
        0 <= n <= s.len(),
    ensures
        match text::last_place(s, c, n) {
            Some(i) => forall|k: int| i < k < n ==> s[k] != c,
            None => true,
        },
    decreases n,
{
    if n > 0 && s[n - 1] != c {
        lemma_last_place_is_last(s, c, n - 1);
    }
}

/// `filename`, a `.` and `extension` make up the base name where it holds a
/// `.`, and the extension holds none; else `filename` is the base name and
/// there is no extension.
pub proof fn law_names_are_cut_at_the_last_dot(args: Seq<ArgView>)
    requires
        args.len() >= 1,
    ensures
        ({
            string_method("basename"@, args) matches Some(Ok(b)) && string_method(
                "filename"@,
                args,
            ) matches Some(Ok(f)) && string_method("extension"@, args) matches Some(Ok(e)) && (
            if b.contains('.') {
                b == f + seq!['.'] + e && !e.contains('.')
            } else {
                f == b && e.len() == 0
            })
        }),
{
    lemma_string_methods(args);
    let b = base_of(args[0].string());
    lemma_last_place(b, '.', b.len() as int);
    lemma_last_place_is_last(b, '.', b.len() as int);
    if let Some(i) = text::last_place(b, '.', b.len() as int) {
        assert(b =~= b.take(i) + seq!['.'] + b.skip(i + 1));
        let e = b.skip(i + 1);
        assert forall|k: int| 0 <= k < e.len() implies #[trigger] e[k] != '.' by {
            assert(e[k] == b[i + 1 + k]);
        }
    }
}

/// `join` writes nothing for no element, an element by itself, and each
/// further one behind the separator: the second argument, or a space.
pub proof fn law_join_goes_on(v: Seq<Seq<char>>, x: Seq<char>, sep: Seq<char>)
    ensures
        string_method("join"@, seq![ArgView::Arr(Seq::empty()), ArgView::Str(sep)]) == Some(
            Ok::<Seq<char>, Seq<char>>(Seq::empty()),
        ),
        string_method("join"@, seq![ArgView::Arr(seq![x]), ArgView::Str(sep)]) == Some(
            Ok::<Seq<char>, Seq<char>>(x),
        ),
        v.len() > 0 ==> (string_method(
            "join"@,
            seq![ArgView::Arr(v), ArgView::Str(sep)],
        ) matches Some(Ok(before)) && string_method(
            "join"@,
            seq![ArgView::Arr(v.push(x)), ArgView::Str(sep)],
        ) == Some(Ok::<Seq<char>, Seq<char>>(before + sep + x))),
        string_method("join"@, seq![ArgView::Arr(v)]) == string_method(
            "join"@,
            seq![ArgView::Arr(v), ArgView::Str(seq![' '])],
        ),
        string_method("join"@, seq![ArgView::Str(x), ArgView::Str(sep)]) == Some(
            Ok::<Seq<char>, Seq<char>>(x),
        ),
{
    reveal_strlit(" ");
    assert(" "@ =~= seq![' ']);
    lemma_string_methods(seq![ArgView::Arr(Seq::empty()), ArgView::Str(sep)]);
    lemma_string_methods(seq![ArgView::Arr(seq![x]), ArgView::Str(sep)]);
    lemma_string_methods(seq![ArgView::Arr(v), ArgView::Str(sep)]);
    lemma_string_methods(seq![ArgView::Arr(v.push(x)), ArgView::Str(sep)]);
    lemma_string_methods(seq![ArgView::Arr(v)]);
    lemma_string_methods(seq![ArgView::Arr(v), ArgView::Str(seq![' '])]);
    lemma_string_methods(seq![ArgView::Str(x), ArgView::Str(sep)]);
    assert(v.push(x).drop_last() =~= v);
}

/// Where a method wants a string, an array stands for its elements with a
/// space between each two; where it wants an array, a string is its one
/// element.
pub proof fn law_arguments_are_taken_as_wanted(v: Seq<Seq<char>>, x: Seq<char>)
    ensures
        ArgView::Str(x).string() == x,
        ArgView::Arr(Seq::empty()).string() == Seq::<char>::empty(),
        ArgView::Arr(seq![x]).string() == x,
        v.len() > 0 ==> ArgView::Arr(v.push(x)).string() == ArgView::Arr(v).string() + seq![' '] + x,
        ArgView::Arr(v).array() == v,
        ArgView::Str(x).array() == seq![x],
{
    assert(v.push(x).drop_last() =~= v);
}

/// `find` gives the first place at which the second argument stands in the
/// first, or `-1` where it stands nowhere.
pub proof fn law_find_gives_the_first_place(args: Seq<ArgView>)
    requires
        args.len() >= 2,
    ensures
        ({
            let s = args[0].string();
            let n = args[1].string();
            let stands = |i: int| 0 <= i && i + n.len() <= s.len() && s.subrange(i, i + n.len()) == n;
            string_method("find"@, args) matches Some(Ok(r)) && ((r == "-1"@ && forall|i: int|
                !#[trigger] stands(i)) || exists|i: int| #[trigger]
                stands(i) && r == text::int_text(i) && forall|j: int| j < i ==> !#[trigger] stands(j))
        }),
{
    lemma_string_methods(args);
    let s = args[0].string();
    let n = args[1].string();
    let stands = |i: int| 0 <= i && i + n.len() <= s.len() && s.subrange(i, i + n.len()) == n;
    text::lemma_found_is_first(s, n, 0);
    assert forall|i: int| #[trigger] stands(i) implies text::occurs_at(s, n, i) by {}
    match text::found_from(s, n, 0) {
        Some(i) => {
            assert(stands(i));
            assert forall|j: int| j < i implies !#[trigger] stands(j) by {
                if 0 <= j {
                    assert(!text::occurs_at(s, n, j));
                }
            }
        },
        None => {
            assert forall|i: int| !#[trigger] stands(i) by {
                if 0 <= i {
                    assert(!text::occurs_at(s, n, i));
                }
            }
        },
    }
}

/// `len` counts the characters of a string and the elements of an array, and
/// `len_bytes` the bytes of the UTF-8 form.
pub proof fn law_lengths_are_counted(args: Seq<ArgView>)
    requires
        args.len() >= 1,
    ensures
        args[0] matches ArgView::Str(s) ==> string_method("len"@, args) == Some(
            Ok::<Seq<char>, Seq<char>>(text::int_text(s.len() as int)),
        ),
        args[0] matches ArgView::Arr(v) ==> string_method("len"@, args) == Some(
            Ok::<Seq<char>, Seq<char>>(text::int_text(v.len() as int)),
        ),
        string_method("len_bytes"@, args) == Some(
            Ok::<Seq<char>, Seq<char>>(
                text::int_text(vstd::utf8::encode_utf8(args[0].string()).len() as int),
            ),
        ),
{
    lemma_string_methods(args);
}

/// The stretch `k` of a text that is cut into stretches of length `m`.
pub open spec fn stretch(r: Seq<char>, k: int, m: int) -> Seq<char> {
    r.subrange(k * m, k * m + m)
}

proof fn lemma_repeated(s: Seq<char>, n: nat, m: int)
    requires
        m == s.len(),
    ensures
        text::repeated(s, n).len() == n * m,
        forall|k: int|
            0 <= k < n ==> #[trigger] stretch(text::repeated(s, n), k, m) == s && 0 <= k * m && k * m
                + m <= n * m,
    decreases n,
{
    let r = text::repeated(s, n);
    if n > 0 {
        let before = text::repeated(s, (n - 1) as nat);
        lemma_repeated(s, (n - 1) as nat, m);
        assert(n * m == (n - 1) * m + m) by (nonlinear_arith);
        assert forall|k: int| 0 <= k < n implies #[trigger] stretch(r, k, m) == s && 0 <= k * m && k
            * m + m <= n * m by {
            assert(0 <= k * m && k * m + m <= n * m) by (nonlinear_arith)
                requires
                    0 <= k < n,
                    0 <= m,
            ;
            if k < n - 1 {
                assert(stretch(before, k, m) == s);
                assert(r.subrange(k * m, k * m + m) =~= before.subrange(k * m, k * m + m));
            } else {
                assert(k * m == (n - 1) * m);
                assert(r.subrange(k * m, k * m + m) =~= s);
            }
        }
    } else {
        assert(n * m == 0) by (nonlinear_arith)
            requires
                n == 0,
        ;
    }
}

/// `repeat` gives as many copies as the second argument says, one behind the
/// other.
pub proof fn law_repeat_makes_copies(args: Seq<ArgView>, n: nat)
    requires
        args.len() >= 2,
        args[1].string() == text::int_text(n as int),
        n <= usize::MAX,
    ensures
        ({
            let s = args[0].string();
            string_method("repeat"@, args) matches Some(Ok(r)) && r.len() == n * s.len()
                && forall|k: int|
                0 <= k < n ==> #[trigger] stretch(r, k, s.len() as int) == s
        }),
{
    lemma_string_methods(args);
    lemma_count(n);
    let s = args[0].string();
    lemma_repeated(s, n, s.len() as int);
}

proof fn lemma_count(n: nat)
    requires
        n <= usize::MAX,
    ensures
        text::u64_of_text(text::int_text(n as int)) == Some(n as int),
{
    text::law_int_text_reads_back(n as int);
    text::lemma_nat_text_reads_back(n);
    assert(text::is_digit_char(text::nat_text(n)[0]));
}

proof fn lemma_found_behind(s: Seq<char>, p: Seq<char>, k: int, i: int)
    requires
        0 <= k <= s.len(),
        0 <= i,
    ensures
        text::found_from(s, p, k + i) == match text::found_from(s.skip(k), p, i) {
            Some(j) => Some(k + j),
            None => None,
        },
    decreases s.len() + 1 - i,
{
    if k + i <= s.len() {
        if k + i + p.len() <= s.len() {
            assert(s.skip(k).subrange(i, i + p.len()) =~= s.subrange(k + i, k + i + p.len()));
        }
        lemma_found_behind(s, p, k, i + 1);
    }
}

proof fn lemma_replaced_behind(
    s: Seq<char>,
    k: int,
    i: int,
    p: Seq<char>,
    by: Seq<char>,
    n: int,
)
    requires
        0 <= k <= s.len(),
        0 <= i <= s.len() - k,
    ensures
        replaced_from(s, k + i, p, by, n) == replaced_from(s.skip(k), i, p, by, n),
    decreases s.len() - k - i,
{
    let rest = s.skip(k);
    lemma_found_behind(s, p, k, i);
    text::lemma_found_is_first(rest, p, i);
    assert(s.skip(k + i) =~= rest.skip(i));
    if n != 0 {
        if let Some(j) = text::found_from(rest, p, i) {
            if p.len() == 0 {
                if i < rest.len() {
                    lemma_replaced_behind(s, k, i + 1, p, by, n - 1);
                }
            } else {
                assert(s.subrange(k + i, k + j) =~= rest.subrange(i, j));
                lemma_replaced_behind(s, k, j + p.len(), p, by, n - 1);
            }
        }
    }
}

/// What `replace` gives of three texts.
spec fn replacing(s: Seq<char>, p: Seq<char>, by: Seq<char>) -> Option<TextOutcome> {
    string_method("replace"@, seq![ArgView::Str(s), ArgView::Str(p), ArgView::Str(by)])
}

proof fn lemma_replacing(s: Seq<char>, p: Seq<char>, by: Seq<char>)
    ensures
        replacing(s, p, by) == Some(Ok::<Seq<char>, Seq<char>>(replaced_from(s, 0, p, by, -1))),
{
    lemma_string_methods(seq![ArgView::Str(s), ArgView::Str(p), ArgView::Str(by)]);
}

proof fn lemma_negative_counts(s: Seq<char>, i: int, p: Seq<char>, by: Seq<char>, m: int, n: int)
    requires
        0 <= i <= s.len(),
        m < 0,
        n < 0,
    ensures
        replaced_from(s, i, p, by, m) == replaced_from(s, i, p, by, n),
    decreases s.len() - i,
{
    text::lemma_found_is_first(s, p, i);
    if let Some(j) = text::found_from(s, p, i) {
        if p.len() == 0 {
            if i < s.len() {
                lemma_negative_counts(s, i + 1, p, by, m - 1, n - 1);
            }
        } else {
            lemma_negative_counts(s, j + p.len(), p, by, m - 1, n - 1);
        }
    }
}

/// `replace` leaves a text in which the pattern stands nowhere; where it first
/// stands at `k`, the text before stays, the replacement follows, and behind
/// the pattern it goes on.
pub proof fn law_replace_goes_from_place_to_place(
    s: Seq<char>,
    p: Seq<char>,
    by: Seq<char>,
    k: int,
)
    requires
        p.len() > 0,
    ensures
        (forall|j: int| 0 <= j && j + p.len() <= s.len() ==> #[trigger] s.subrange(j, j + p.len()) != p)
            ==> string_method(
            "replace"@,
            seq![ArgView::Str(s), ArgView::Str(p), ArgView::Str(by)],
        ) == Some(Ok::<Seq<char>, Seq<char>>(s)),
        (0 <= k && k + p.len() <= s.len() && s.subrange(k, k + p.len()) == p && forall|j: int|
            0 <= j < k ==> #[trigger] s.subrange(j, j + p.len()) != p) ==> (string_method(
            "replace"@,
            seq![ArgView::Str(s.skip(k + p.len())), ArgView::Str(p), ArgView::Str(by)],
        ) matches Some(Ok(rest)) && string_method(
            "replace"@,
            seq![ArgView::Str(s), ArgView::Str(p), ArgView::Str(by)],
        ) == Some(Ok::<Seq<char>, Seq<char>>(s.take(k) + by + rest))),
{
    lemma_replacing(s, p, by);
    lemma_replacing(s.skip(k + p.len()), p, by);
    text::lemma_found_is_first(s, p, 0);
    if forall|j: int| 0 <= j && j + p.len() <= s.len() ==> #[trigger] s.subrange(j, j + p.len()) != p {
        if let Some(j) = text::found_from(s, p, 0) {
            assert(s.subrange(j, j + p.len()) == p);
        }
        assert(s.skip(0) =~= s);
    }
    if 0 <= k && k + p.len() <= s.len() && s.subrange(k, k + p.len()) == p && forall|j: int|
        0 <= j < k ==> #[trigger] s.subrange(j, j + p.len()) != p {
        assert(text::occurs_at(s, p, k));
        match text::found_from(s, p, 0) {
            Some(j) => {
                if j < k {
                    assert(s.subrange(j, j + p.len()) == p);
                }
                assert(j == k);
            },
            None => {},
        }
        let at = k + p.len();
        lemma_replaced_behind(s, at, 0, p, by, -2);
        lemma_negative_counts(s.skip(at), 0, p, by, -2, -1);
        assert(s.subrange(0, k) =~= s.take(k));
    }
}

/// With an empty pattern, `replace` puts the replacement before every
/// character and at the end.
pub proof fn law_replace_of_nothing(s: Seq<char>, by: Seq<char>)
    ensures
        s.len() == 0 ==> string_method(
            "replace"@,
            seq![ArgView::Str(s), ArgView::Str(Seq::empty()), ArgView::Str(by)],
        ) == Some(Ok::<Seq<char>, Seq<char>>(by)),
        s.len() > 0 ==> (string_method(
            "replace"@,
            seq![ArgView::Str(s.skip(1)), ArgView::Str(Seq::empty()), ArgView::Str(by)],
        ) matches Some(Ok(rest)) && string_method(
            "replace"@,
            seq![ArgView::Str(s), ArgView::Str(Seq::empty()), ArgView::Str(by)],
        ) == Some(Ok::<Seq<char>, Seq<char>>(by + seq![s[0]] + rest))),
{
    let p = Seq::<char>::empty();
    lemma_replacing(s, p, by);
    lemma_replacing(s.skip(1), p, by);
    assert(s.subrange(0, 0) =~= p);
    assert(text::occurs_at(s, p, 0));
    if s.len() > 0 {
        lemma_replaced_behind(s, 1, 0, p, by, -2);
        lemma_negative_counts(s.skip(1), 0, p, by, -2, -1);
    }
}

/// `replacen` with no count left leaves the text; else it replaces the first
/// place and goes on behind it with one less.
pub proof fn law_replacen_counts_down(s: Seq<char>, p: Seq<char>, by: Seq<char>, n: nat, k: int)
    requires
        p.len() > 0,
        n < usize::MAX,
    ensures
        ({
            let call = |s: Seq<char>, n: int|
                string_method(
                    "replacen"@,
                    seq![
                        ArgView::Str(s),
                        ArgView::Str(p),
                        ArgView::Str(by),
                        ArgView::Str(text::int_text(n)),
                    ],
                );
            &&& call(s, 0) == Some(Ok::<Seq<char>, Seq<char>>(s))
            &&& (forall|j: int|
                0 <= j && j + p.len() <= s.len() ==> #[trigger] s.subrange(j, j + p.len()) != p)
                ==> call(s, n as int) == Some(Ok::<Seq<char>, Seq<char>>(s))
            &&& (0 <= k && k + p.len() <= s.len() && s.subrange(k, k + p.len()) == p && forall|
                j: int,
            |
                0 <= j < k ==> #[trigger] s.subrange(j, j + p.len()) != p) ==> (call(
                s.skip(k + p.len()),
                n as int,
            ) matches Some(Ok(rest)) && call(s, n as int + 1) == Some(
                Ok::<Seq<char>, Seq<char>>(s.take(k) + by + rest),
            ))
        }),
{
    lemma_replacen(s, p, by, 0);
    lemma_replacen(s, p, by, n);
    lemma_replacen(s, p, by, n + 1);
    lemma_replacen(s.skip(k + p.len()), p, by, n);
    text::lemma_found_is_first(s, p, 0);
    assert(s.skip(0) =~= s);
    if forall|j: int| 0 <= j && j + p.len() <= s.len() ==> #[trigger] s.subrange(j, j + p.len()) != p {
        if let Some(j) = text::found_from(s, p, 0) {
            assert(s.subrange(j, j + p.len()) == p);
        }
    }
    if 0 <= k && k + p.len() <= s.len() && s.subrange(k, k + p.len()) == p && forall|j: int|
        0 <= j < k ==> #[trigger] s.subrange(j, j + p.len()) != p {
        assert(text::occurs_at(s, p, k));
        match text::found_from(s, p, 0) {
            Some(j) => {
                if j < k {
                    assert(s.subrange(j, j + p.len()) == p);
                }
                assert(j == k);
            },
            None => {},
        }
        let at = k + p.len();
        lemma_replaced_behind(s, at, 0, p, by, n as int);
        assert(s.subrange(0, k) =~= s.take(k));
    }
}

proof fn lemma_replacen(s: Seq<char>, p: Seq<char>, by: Seq<char>, n: nat)
    requires
        n <= usize::MAX,
    ensures
        string_method(
            "replacen"@,
            seq![
                ArgView::Str(s),
                ArgView::Str(p),
                ArgView::Str(by),
                ArgView::Str(text::int_text(n as int)),
            ],
        ) == Some(Ok::<Seq<char>, Seq<char>>(replaced_from(s, 0, p, by, n as int))),
{
    lemma_count(n);
    lemma_string_methods(
        seq![
            ArgView::Str(s),
            ArgView::Str(p),
            ArgView::Str(by),
            ArgView::Str(text::int_text(n as int)),
        ],
    );
}

/// `regex_replace` hands the text, the pattern and the replacement on in that
/// order, and names the pattern where it is no regular expression.
pub proof fn law_regex_replacement_is_handed_on(args: Seq<ArgView>)
    requires
        args.len() >= 3,
    ensures
        match regex_replaced(args[1].string(), args[0].string(), args[2].string()) {
            Ok(t) => string_method("regex_replace"@, args) == Some(Ok::<Seq<char>, Seq<char>>(t)),
            Err(e) => string_method("regex_replace"@, args) == Some(
                Err::<Seq<char>, Seq<char>>(
                    "regex_replace: invalid pattern '"@ + args[1].string() + "': "@ + e,
                ),
            ),
        },
{
    lemma_string_methods(args);
}

/// `reverse` puts the last character first and the first last, and so on;
/// of an array, the elements.
pub proof fn law_reverse_turns_round(args: Seq<ArgView>)
    requires
        args.len() >= 1,
    ensures
        ({
            let s = args[0].string();
            let v = args[0].array();
            &&& string_method("reverse"@, args) matches Some(Ok(r)) && r.len() == s.len()
                && forall|i: int| 0 <= i < s.len() ==> #[trigger] r[i] == s[s.len() - 1 - i]
            &&& array_method("reverse"@, args) matches Some(Ok(w)) && w.len() == v.len()
                && forall|i: int| 0 <= i < v.len() ==> #[trigger] w[i] == v[v.len() - 1 - i]
        }),
{
    lemma_string_methods(args);
    lemma_array_methods(args);
}

/// `escape` writes a backslash and a letter for a newline, a tab and a carriage
/// return, two backslashes for one, and every other character as it is, one
/// behind the other.
pub proof fn law_escape_goes_on(s: Seq<char>, c: char)
    ensures
        string_method("escape"@, seq![ArgView::Str(Seq::empty())]) == Some(
            Ok::<Seq<char>, Seq<char>>(Seq::empty()),
        ),
        string_method("escape"@, seq![ArgView::Str(s)]) matches Some(Ok(before))
            && string_method("escape"@, seq![ArgView::Str(s.push(c))]) == Some(
            Ok::<Seq<char>, Seq<char>>(
                if c == '\n' {
                    before + seq!['\\', 'n']
                } else if c == '\t' {
                    before + seq!['\\', 't']
                } else if c == '\r' {
                    before + seq!['\\', 'r']
                } else if c == '\\' {
                    before + seq!['\\', '\\']
                } else {
                    before.push(c)
                },
            ),
        ),
{
    lemma_string_methods(seq![ArgView::Str(Seq::empty())]);
    lemma_string_methods(seq![ArgView::Str(s)]);
    lemma_string_methods(seq![ArgView::Str(s.push(c))]);
    assert(s.push(c).drop_last() =~= s);
    assert(escaped(s) + seq![c] =~= escaped(s).push(c));
}

proof fn lemma_unescaped_behind(s: Seq<char>, k: int, i: int)
    requires
        0 <= k <= s.len(),
        0 <= i,
    ensures
        unescaped_from(s, k + i) == unescaped_from(s.skip(k), i),
    decreases s.len() - k - i,
{
    if k + i < s.len() {
        assert(s.skip(k)[i] == s[k + i]);
        lemma_unescaped_behind(s, k, i + 1);
        if k + i + 1 < s.len() {
            assert(s.skip(k)[i + 1] == s[k + i + 1]);
            lemma_unescaped_behind(s, k, i + 2);
        }
    }
}

/// `unescape` reads a text from the front: a backslash with `n`, `t`, `r` or a
/// backslash behind it stands for that one character, any other backslash and
/// any other character for itself.
pub proof fn law_unescape_reads_from_the_front(s: Seq<char>)
    ensures
        ({
            let call = |s: Seq<char>| string_method("unescape"@, seq![ArgView::Str(s)]);
            &&& s.len() == 0 ==> call(s) == Some(Ok::<Seq<char>, Seq<char>>(Seq::empty()))
            &&& s.len() == 1 ==> call(s) == Some(Ok::<Seq<char>, Seq<char>>(s))
            &&& (s.len() > 1 && s[0] != '\\') ==> (call(s.skip(1)) matches Some(Ok(rest)) && call(s)
                == Some(Ok::<Seq<char>, Seq<char>>(seq![s[0]] + rest)))
            &&& (s.len() > 1 && s[0] == '\\') ==> (call(s.skip(2)) matches Some(Ok(rest)) && call(s)
                == Some(
                Ok::<Seq<char>, Seq<char>>(
                    (if s[1] == 'n' {
                        seq!['\n']
                    } else if s[1] == 't' {
                        seq!['\t']
                    } else if s[1] == 'r' {
                        seq!['\r']
                    } else if s[1] == '\\' {
                        seq!['\\']
                    } else {
                        seq!['\\', s[1]]
                    }) + rest,
                ),
            ))
        }),
{
    lemma_string_methods(seq![ArgView::Str(s)]);
    lemma_string_methods(seq![ArgView::Str(s.skip(1))]);
    lemma_string_methods(seq![ArgView::Str(s.skip(2))]);
    reveal_with_fuel(unescaped_from, 2);
    if s.len() == 1 {
        assert(unescaped_from(s, 0) =~= s);
    }
    if s.len() > 1 {
        lemma_unescaped_behind(s, 1, 0);
        lemma_unescaped_behind(s, 2, 0);
    }
}

/// `or` gives the value unless it is empty, and then the fallback; so does
/// `subst` of arrays.
pub proof fn law_fallbacks_stand_in_for_nothing(args: Seq<ArgView>)
    requires
        args.len() == 2,
    ensures
        args[0].string().len() > 0 ==> string_method("or"@, args) == Some(
            Ok::<Seq<char>, Seq<char>>(args[0].string()),
        ),
        args[0].string().len() == 0 ==> string_method("or"@, args) == Some(
            Ok::<Seq<char>, Seq<char>>(args[1].string()),
        ),
        args[0].array().len() > 0 ==> array_method("subst"@, args) == Some(
            Ok::<Seq<Seq<char>>, Seq<char>>(args[0].array()),
        ),
        args[0].array().len() == 0 ==> array_method("subst"@, args) == Some(
            Ok::<Seq<Seq<char>>, Seq<char>>(args[1].array()),
        ),
{
    lemma_string_methods(args);
    lemma_array_methods(args);
}

proof fn lemma_pieces_behind(s: Seq<char>, sep: Seq<char>, k: int, i: int)
    requires
        0 <= k <= s.len(),
        0 <= i <= s.len() - k,
        sep.len() > 0,
    ensures
        text::pieces_from(s, sep, k + i) == text::pieces_from(s.skip(k), sep, i),
    decreases s.len() - k - i,
{
    let rest = s.skip(k);
    lemma_found_behind(s, sep, k, i);
    text::lemma_found_is_first(rest, sep, i);
    match text::found_from(rest, sep, i) {
        Some(j) => {
            assert(s.subrange(k + i, k + j) =~= rest.subrange(i, j));
            lemma_pieces_behind(s, sep, k, j + sep.len());
        },
        None => {
            assert(s.skip(k + i) =~= rest.skip(i));
        },
    }
}

/// `split` at a separator gives a text in which the separator stands nowhere
/// whole; where it first stands at `k`, what stands before is the first piece,
/// and the others are those of what stands behind. `lines` splits at newlines.
pub proof fn law_split_goes_from_place_to_place(s: Seq<char>, sep: Seq<char>, k: int)
    requires
        sep.len() > 0,
    ensures
        ({
            let call = |s: Seq<char>|
                array_method("split"@, seq![ArgView::Str(s), ArgView::Str(sep)]);
            &&& (forall|j: int|
                0 <= j && j + sep.len() <= s.len() ==> #[trigger] s.subrange(j, j + sep.len()) != sep)
                ==> call(s) == Some(Ok::<Seq<Seq<char>>, Seq<char>>(seq![s]))
            &&& (0 <= k && k + sep.len() <= s.len() && s.subrange(k, k + sep.len()) == sep && forall|
                j: int,
            |
                0 <= j < k ==> #[trigger] s.subrange(j, j + sep.len()) != sep) ==> (call(
                s.skip(k + sep.len()),
            ) matches Some(Ok(rest)) && call(s) == Some(
                Ok::<Seq<Seq<char>>, Seq<char>>(seq![s.take(k)] + rest),
            ))
            &&& array_method("lines"@, seq![ArgView::Str(s)]) == array_method(
                "split"@,
                seq![ArgView::Str(s), ArgView::Str(seq!['\n'])],
            )
        }),
{
    let behind = s.skip(k + sep.len());
    lemma_array_methods(seq![ArgView::Str(s), ArgView::Str(sep)]);
    lemma_array_methods(seq![ArgView::Str(behind), ArgView::Str(sep)]);
    lemma_array_methods(seq![ArgView::Str(s)]);
    lemma_array_methods(seq![ArgView::Str(s), ArgView::Str(seq!['\n'])]);
    text::lemma_found_is_first(s, sep, 0);
    assert(s.skip(0) =~= s);
    if forall|j: int|
        0 <= j && j + sep.len() <= s.len() ==> #[trigger] s.subrange(j, j + sep.len()) != sep {
        if let Some(j) = text::found_from(s, sep, 0) {
            assert(s.subrange(j, j + sep.len()) == sep);
        }
    }
    if 0 <= k && k + sep.len() <= s.len() && s.subrange(k, k + sep.len()) == sep && forall|j: int|
        0 <= j < k ==> #[trigger] s.subrange(j, j + sep.len()) != sep {
        assert(text::occurs_at(s, sep, k));
        match text::found_from(s, sep, 0) {
            Some(j) => {
                if j < k {
                    assert(s.subrange(j, j + sep.len()) == sep);
                }
                assert(j == k);
            },
            None => {},
        }
        lemma_pieces_behind(s, sep, k + sep.len(), 0);
        assert(s.subrange(0, k) =~= s.take(k));
    }
}

/// With an empty separator, `split` gives an empty piece, every character by
/// itself and an empty piece.
pub proof fn law_split_at_nothing(s: Seq<char>)
    ensures
        array_method("split"@, seq![ArgView::Str(s), ArgView::Str(Seq::empty())]) matches Some(
            Ok(v),
        ) && v.len() == s.len() + 2 && v[0].len() == 0 && v.last().len() == 0 && forall|i: int|
            0 <= i < s.len() ==> #[trigger] v[i + 1] == seq![s[i]],
{
    lemma_array_methods(seq![ArgView::Str(s), ArgView::Str(Seq::empty())]);
    let v = text::pieces(s, Seq::empty());
    assert forall|i: int| 0 <= i < s.len() implies #[trigger] v[i + 1] == seq![s[i]] by {
        assert(v[i + 1] == text::single_chars(s)[i]);
    }
}

proof fn lemma_words_behind(s: Seq<char>, k: int, i: int)
    requires
        0 <= k <= s.len(),
        0 <= i <= s.len() - k,
    ensures
        text::words_from(s, k + i) == text::words_from(s.skip(k), i),
    decreases s.len() - k - i,
{
    let rest = s.skip(k);
    if k + i < s.len() {
        assert(rest[i] == s[k + i]);
        if text::is_space_char(s[k + i]) {
            lemma_words_behind(s, k, i + 1);
        } else {
            lemma_word_end_behind(s, k, i);
            text::lemma_word_end(rest, i);
            let e = text::word_end(rest, i);
            assert(s.subrange(k + i, k + e) =~= rest.subrange(i, e));
            lemma_words_behind(s, k, e);
        }
    }
}

proof fn lemma_word_end_behind(s: Seq<char>, k: int, i: int)
    requires
        0 <= k <= s.len(),
        0 <= i <= s.len() - k,
    ensures
        text::word_end(s, k + i) == k + text::word_end(s.skip(k), i),
    decreases s.len() - k - i,
{
    if k + i < s.len() {
        assert(s.skip(k)[i] == s[k + i]);
        if !text::is_space_char(s[k + i]) {
            lemma_word_end_behind(s, k, i + 1);
        }
    }
}

proof fn lemma_word_ends_at(s: Seq<char>, i: int, e: int)
    requires
        0 <= i <= e <= s.len(),
        forall|k: int| i <= k < e ==> !text::is_space_char(#[trigger] s[k]),
        e < s.len() ==> text::is_space_char(s[e]),
    ensures
        text::word_end(s, i) == e,
    decreases e - i,
{
    if i < e {
        lemma_word_ends_at(s, i + 1, e);
    }
}

/// `split` without a separator passes over white space, and gives each run of
/// other characters as a word.
pub proof fn law_split_gives_words(s: Seq<char>, e: int)
    ensures
        ({
            let call = |s: Seq<char>| array_method("split"@, seq![ArgView::Str(s)]);
            &&& s.len() == 0 ==> call(s) == Some(Ok::<Seq<Seq<char>>, Seq<char>>(Seq::empty()))
            &&& (s.len() > 0 && text::is_space_char(s[0])) ==> call(s) == call(s.skip(1))
            &&& (0 < e <= s.len() && (forall|k: int|
                0 <= k < e ==> !text::is_space_char(#[trigger] s[k])) && (e < s.len()
                ==> text::is_space_char(s[e]))) ==> (call(s.skip(e)) matches Some(Ok(rest)) && call(
                s,
            ) == Some(Ok::<Seq<Seq<char>>, Seq<char>>(seq![s.take(e)] + rest)))
        }),
{
    lemma_array_methods(seq![ArgView::Str(s)]);
    lemma_array_methods(seq![ArgView::Str(s.skip(1))]);
    lemma_array_methods(seq![ArgView::Str(s.skip(e))]);
    if s.len() > 0 {
        lemma_words_behind(s, 1, 0);
    }
    if 0 < e <= s.len() && (forall|k: int| 0 <= k < e ==> !text::is_space_char(#[trigger] s[k])) && (e
        < s.len() ==> text::is_space_char(s[e])) {
        lemma_word_ends_at(s, 0, e);
        lemma_words_behind(s, e, 0);
        assert(s.subrange(0, e) =~= s.take(e));
    }
}

/// `split_at` cuts a text in two: the first part has the length that is asked
/// for, and the two parts make up the text; a length beyond it is refused.
pub proof fn law_split_at_cuts_in_two(args: Seq<ArgView>, n: nat)
    requires
        args.len() >= 2,
        args[1].string() == text::int_text(n as int),
        n <= usize::MAX,
    ensures
        n <= args[0].string().len() ==> (array_method("split_at"@, args) matches Some(Ok(v))
            && v.len() == 2 && v[0].len() == n && v[0] + v[1] == args[0].string()),
        n > args[0].string().len() ==> array_method("split_at"@, args) matches Some(Err(_)),
{
    lemma_array_methods(args);
    lemma_count(n);
    let s = args[0].string();
    if n <= s.len() {
        assert(s.take(n as int) + s.skip(n as int) =~= s);
    }
}

/// `chars` and `graphemes` give each character by itself, and `bytes` the
/// decimal value of each byte of the UTF-8 form.
pub proof fn law_texts_are_taken_apart(args: Seq<ArgView>)
    requires
        args.len() >= 1,
    ensures
        ({
            let s = args[0].string();
            let b = vstd::utf8::encode_utf8(s);
            &&& array_method("chars"@, args) matches Some(Ok(v)) && v.len() == s.len() && forall|
                i: int,
            |
                0 <= i < s.len() ==> #[trigger] v[i] == seq![s[i]]
            &&& array_method("graphemes"@, args) == array_method("chars"@, args)
            &&& array_method("bytes"@, args) matches Some(Ok(w)) && w.len() == b.len() && forall|
                i: int,
            |
                0 <= i < b.len() ==> #[trigger] w[i] == text::int_text(b[i] as int)
        }),
{
    lemma_array_methods(args);
}

/// A method that misses an argument fails, and a name that is none of a
/// method's gives nothing.
pub proof fn law_methods_want_their_arguments(name: Seq<char>, args: Seq<ArgView>)
    ensures
        args.len() == 0 && string_method(name, args) is Some ==> string_method(name, args) matches Some(
            Err(_),
        ),
        args.len() == 0 && array_method(name, args) is Some ==> array_method(name, args) matches Some(
            Err(_),
        ),
        args.len() == 1 ==> string_method("find"@, args) matches Some(Err(_)),
        args.len() == 1 ==> string_method("or"@, args) matches Some(Err(_)),
        args.len() == 2 ==> string_method("replace"@, args) matches Some(Err(_)),
        args.len() != 2 ==> array_method("subst"@, args) matches Some(Err(_)),
{
    lemma_string_methods(args);
    lemma_array_methods(args);
}

} // verus!
