//! The core of the language: variables in nested scopes, the expansion of
//! `$` and `@` references, and the `let`, `export` and `drop` builtins.
//!
//! Index 0 of a stack of scopes is the permanent global frame. Assigning a
//! name that an outer frame holds changes it there; a new name belongs to the
//! innermost frame and is gone when that frame ends.

use crate::arith;
use crate::dialog;
use crate::dialog::{Talk, TalkView};
use crate::fs_builtins;
use crate::functions::FunctionDef;
use crate::methods;
use crate::methods::{call_array_method, call_string_method, MethodArg};
use crate::names;
use crate::names::{Names, Scopes};
use crate::pieces;
use crate::pieces::{read_pieces, Piece};
use crate::pipeline;
use crate::procexpand;
use crate::ranges;
use crate::ranges::{apply_array_slice, apply_string_slice, expand_braces};
use crate::text;
use crate::text::{
    cat2, cat3, chars_of, copy_texts, extend_texts, find_from, has_prefix, is_name, join_texts, same,
    split_words, sub_chars, tail_texts, text_of,
};
use crate::token;
use crate::token::tokenize;
pub use crate::token::{Quoting, Token};
use vstd::prelude::*;

verus! {

/// The variables that an expansion sees.
pub struct VarsView {
    pub scalars: Seq<Map<Seq<char>, Seq<char>>>,
    pub arrays: Seq<Map<Seq<char>, Seq<Seq<char>>>>,
}

/// The words that one token becomes: exactly one, or any number.
pub enum Expanded {
    One(String),
    Many(Vec<String>),
}

/// What one token becomes.
pub enum ExpandedView {
    One(Seq<char>),
    Many(Seq<Seq<char>>),
}

impl View for Expanded {
    type V = ExpandedView;

    open spec fn view(&self) -> ExpandedView {
        match self {
            Expanded::One(s) => ExpandedView::One(s@),
            Expanded::Many(v) => ExpandedView::Many(text::texts(v@)),
        }
    }
}

impl ExpandedView {
    /// The words.
    pub open spec fn words(self) -> Seq<Seq<char>> {
        match self {
            ExpandedView::One(s) => seq![s],
            ExpandedView::Many(v) => v,
        }
    }
}

// ---------------------------------------------------------------------------
// What an expansion is
// ---------------------------------------------------------------------------

/// `s` under an optional slice. A slice that cannot be applied gives a
/// diagnostic and nothing else.
pub open spec fn sliced_text(s: Seq<char>, slice: Option<Seq<char>>, t: TalkView) -> (
    Seq<char>,
    TalkView,
) {
    match slice {
        None => (s, t),
        Some(spec) => match ranges::selected(s, spec) {
            Ok(r) => (r, t),
            Err(e) => (Seq::empty(), dialog::warned(t, "ion: slice error: "@ + e)),
        },
    }
}

/// `v` under an optional slice.
pub open spec fn sliced_list(v: Seq<Seq<char>>, slice: Option<Seq<char>>, t: TalkView) -> (
    Seq<Seq<char>>,
    TalkView,
) {
    match slice {
        None => (v, t),
        Some(spec) => match ranges::selected(v, spec) {
            Ok(r) => (r, t),
            Err(e) => (Seq::empty(), dialog::warned(t, "ion: slice error: "@ + e)),
        },
    }
}

/// The diagnostic for a name that no variable has.
pub open spec fn no_variable(name: Seq<char>) -> Seq<char> {
    "ion: expansion error: "@ + name + ": variable does not exist"@
}

/// What a reference to a variable becomes inside a word: its value, or the
/// elements of an array joined by spaces.
pub open spec fn name_text(
    v: VarsView,
    array: bool,
    name: Seq<char>,
    slice: Option<Seq<char>>,
    t: TalkView,
) -> (Seq<char>, TalkView) {
    if !array {
        match names::visible(v.scalars, name) {
            Some(value) => sliced_text(value, slice, t),
            None => (Seq::empty(), dialog::warned(t, no_variable(name))),
        }
    } else {
        match names::visible(v.arrays, name) {
            Some(value) => {
                let (list, t2) = sliced_list(value, slice, t);
                (text::joined(list, " "@), t2)
            },
            None => (Seq::empty(), dialog::warned(t, no_variable(name))),
        }
    }
}

/// The sigil of a reference.
pub open spec fn sigil(array: bool) -> char {
    if array {
        '@'
    } else {
        '$'
    }
}

/// The prefix of the names of environment variables.
pub open spec fn env_prefix() -> Seq<char> {
    "env::"@
}

/// An array literal without its brackets.
pub open spec fn bracket_content(s: Seq<char>) -> Seq<char> {
    without_last(without_first(s, '['), ']')
}

/// `s` without every `c` at its start.
pub open spec fn without_first(s: Seq<char>, c: char) -> Seq<char>
    decreases s.len(),
{
    if s.len() > 0 && s[0] == c {
        without_first(s.drop_first(), c)
    } else {
        s
    }
}

/// `s` without every `c` at its end.
pub open spec fn without_last(s: Seq<char>, c: char) -> Seq<char>
    decreases s.len(),
{
    if s.len() > 0 && s.last() == c {
        without_last(s.drop_last(), c)
    } else {
        s
    }
}

/// The place of the `[` whose `]` ends `s`, below `n`, inside `depth` open
/// brackets.
pub open spec fn slice_open(s: Seq<char>, n: int, depth: int) -> Option<int>
    decreases n,
{
    if n <= 0 || n > s.len() {
        None
    } else if s[n - 1] == ']' {
        slice_open(s, n - 1, depth + 1)
    } else if s[n - 1] == '[' {
        if depth == 1 {
            Some(n - 1)
        } else {
            slice_open(s, n - 1, depth - 1)
        }
    } else {
        slice_open(s, n - 1, depth)
    }
}

/// `s` cut before the slice that ends it.
pub open spec fn name_and_slice(s: Seq<char>) -> (Seq<char>, Option<Seq<char>>) {
    if s.len() > 0 && s.last() == ']' {
        match slice_open(s, s.len() as int, 0) {
            Some(i) if 0 <= i < s.len() - 1 => (s.take(i), Some(s.subrange(i + 1, s.len() - 1))),
            _ => (s, None),
        }
    } else {
        (s, None)
    }
}

/// Whether `s` is a name and nothing else.
pub open spec fn is_plain_name(s: Seq<char>) -> bool {
    s.len() > 0 && forall|i: int| 0 <= i < s.len() ==> text::is_name_char(#[trigger] s[i])
}

/// What stands in parentheses, when `s` is nothing but a parenthesis.
pub open spec fn paren_body(s: Seq<char>) -> Option<Seq<char>> {
    if s.len() >= 2 && s[0] == '(' && s.last() == ')' {
        Some(s.subrange(1, s.len() - 1))
    } else {
        None
    }
}

/// The name and the arguments, when `s` is nothing but a method call.
pub open spec fn method_parts(s: Seq<char>) -> Option<(Seq<char>, Seq<char>)> {
    match text::found_from(s, seq!['('], 0) {
        Some(p) if is_plain_name(s.take(p)) && p + 2 <= s.len() && s.last() == ')' => Some(
            (s.take(p), s.subrange(p + 1, s.len() - 1)),
        ),
        _ => None,
    }
}

/// What a word becomes when every reference in it is replaced.
pub open spec fn interpolated(v: VarsView, s: Seq<char>, t: TalkView) -> (Seq<char>, TalkView)
    decreases s.len(), 9nat, 0nat,
{
    let ps = pieces::pieces_from(s, 0);
    pieces_text(v, ps, ps.len(), s.len(), t)
}

/// What the first `n` pieces become, one after the other. What a piece holds
/// is shorter than `limit`.
pub open spec fn pieces_text(
    v: VarsView,
    ps: Seq<pieces::PieceView>,
    n: nat,
    limit: nat,
    t: TalkView,
) -> (Seq<char>, TalkView)
    decreases limit, 8nat, n,
{
    if n == 0 {
        (Seq::empty(), t)
    } else {
        let (before, t1) = pieces_text(v, ps, (n - 1) as nat, limit, t);
        let (more, t2) = piece_text(v, ps[n - 1], limit, t1);
        (before + more, t2)
    }
}

/// What one piece becomes. A reference that cannot be resolved gives a
/// diagnostic and becomes nothing.
pub open spec fn piece_text(v: VarsView, p: pieces::PieceView, limit: nat, t: TalkView) -> (
    Seq<char>,
    TalkView,
)
    decreases limit, 7nat, 0nat,
{
    match p {
        pieces::PieceView::Literal(c) => (seq![c], t),
        pieces::PieceView::Arith(expr) => {
            let (r, t1) = arith::evaluated(expr, v.scalars, t);
            match r {
                Ok(n) => arith::shown(n, t1),
                Err(e) => (Seq::empty(), dialog::warned(t1, "ion: arithmetic error: "@ + e)),
            }
        },
        pieces::PieceView::Method(array, name, inner) => if inner.len() < limit {
            let (r, t1) = if array {
                let (r, t1) = array_call(v, name, inner, t);
                (
                    match r {
                        Ok(list) => Ok(text::joined(list, " "@)),
                        Err(e) => Err(e),
                    },
                    t1,
                )
            } else {
                string_call(v, name, inner, t)
            };
            match r {
                Ok(s) => (s, t1),
                Err(e) => (Seq::empty(), dialog::warned(t1, "ion: method error: "@ + e)),
            }
        } else {
            (Seq::empty(), t)
        },
        pieces::PieceView::Process(array, inner, slice) => if inner.len() < limit {
            let (r, t1) = process_output(v, inner, t);
            match r {
                Ok(s) => if array {
                    let (list, t2) = sliced_list(text::words_from(s, 0), slice, t1);
                    (text::joined(list, " "@), t2)
                } else {
                    sliced_text(s, slice, t1)
                },
                Err(e) => (Seq::empty(), dialog::warned(t1, "ion: process expansion error: "@ + e)),
            }
        } else {
            (Seq::empty(), t)
        },
        pieces::PieceView::Name(array, name, slice) => if text::begins_with(name, env_prefix()) {
            let (a, t1) = dialog::asked(
                t,
                dialog::RequestView::Environment(name.skip(env_prefix().len() as int)),
            );
            sliced_text(a.as_text(), slice, t1)
        } else if name.len() == 0 {
            (seq![sigil(array)], t)
        } else {
            name_text(v, array, name, slice, t)
        },
    }
}

/// What a string method gives for its raw arguments.
pub open spec fn string_call(v: VarsView, name: Seq<char>, inner: Seq<char>, t: TalkView) -> (
    methods::TextOutcome,
    TalkView,
)
    decreases inner.len(), 17nat, 0nat,
{
    let toks = token::tokens_from(inner, 0);
    let (args, t1) = argument_list(v, toks, toks.len(), inner.len(), t);
    (
        match methods::string_method(name, args) {
            Some(r) => r,
            None => Err("no such string method '"@ + name + "'"@),
        },
        t1,
    )
}

/// What an array method gives for its raw arguments.
pub open spec fn array_call(v: VarsView, name: Seq<char>, inner: Seq<char>, t: TalkView) -> (
    methods::ListOutcome,
    TalkView,
)
    decreases inner.len(), 17nat, 0nat,
{
    let toks = token::tokens_from(inner, 0);
    let (args, t1) = argument_list(v, toks, toks.len(), inner.len(), t);
    (
        match methods::array_method(name, args) {
            Some(r) => r,
            None => Err("no such array method '"@ + name + "'"@),
        },
        t1,
    )
}

/// The arguments that the first `n` tokens write.
pub open spec fn argument_list(
    v: VarsView,
    toks: Seq<token::TokenView>,
    n: nat,
    limit: nat,
    t: TalkView,
) -> (Seq<methods::ArgView>, TalkView)
    decreases limit, 16nat, n,
{
    if n == 0 {
        (Seq::empty(), t)
    } else {
        let (before, t1) = argument_list(v, toks, (n - 1) as nat, limit, t);
        let (arg, t2) = argument(v, toks[n - 1], limit, t1);
        (before.push(arg), t2)
    }
}

/// Whether a token is a bare word without a sigil or an opening brace.
pub open spec fn is_bare_word(tok: token::TokenView) -> bool {
    &&& tok.quoting == Quoting::Bare
    &&& !(tok.text.len() > 0 && (tok.text[0] == '$' || tok.text[0] == '@' || tok.text[0] == '{'))
}

/// The argument that a token writes: the elements of an array literal, the
/// variable that a bare word names or else the word itself, and what any other
/// token expands to.
pub open spec fn argument(v: VarsView, tok: token::TokenView, limit: nat, t: TalkView) -> (
    methods::ArgView,
    TalkView,
)
    decreases limit, 15nat, 0nat,
{
    let content = bracket_content(tok.text);
    if tok.quoting == Quoting::Bare && tok.text.len() > 0 && tok.text[0] == '[' {
        if content.len() <= limit {
            let toks = token::tokens_from(content, 0);
            let (list, t1) = expand_list(v, toks, toks.len(), content.len(), t);
            (methods::ArgView::Arr(list), t1)
        } else {
            (methods::ArgView::Arr(Seq::empty()), t)
        }
    } else if is_bare_word(tok) {
        match names::visible(v.scalars, tok.text) {
            Some(value) => (methods::ArgView::Str(value), t),
            None => match names::visible(v.arrays, tok.text) {
                Some(value) => (methods::ArgView::Arr(value), t),
                None => (methods::ArgView::Str(tok.text), t),
            },
        }
    } else if tok.text.len() <= limit {
        let (e, t1) = expanded(v, tok, t);
        (
            match e {
                ExpandedView::One(s) => methods::ArgView::Str(s),
                ExpandedView::Many(list) => methods::ArgView::Arr(list),
            },
            t1,
        )
    } else {
        (methods::ArgView::Str(Seq::empty()), t)
    }
}

/// What the command of a process expansion gives: `echo` and the file-system
/// builtins run in the shell, anything else is a program.
pub open spec fn process_output(v: VarsView, inner: Seq<char>, t: TalkView) -> (
    methods::TextOutcome,
    TalkView,
)
    decreases inner.len(), 14nat, 0nat,
{
    let toks = token::tokens_from(inner, 0);
    if !pipeline::parsed(toks).trivial() {
        (Err("pipelines/redirection are not supported inside process expansion yet"@), t)
    } else {
        let (args, t1) = expand_list(v, toks, toks.len(), inner.len(), t);
        command_output(args, t1)
    }
}

/// What a command that stands in a process expansion gives.
pub open spec fn command_output(args: Seq<Seq<char>>, t: TalkView) -> (
    methods::TextOutcome,
    TalkView,
) {
    if args.len() == 0 {
        (Err("empty command in process expansion"@), t)
    } else if args[0] == "echo"@ {
        (Ok(text::joined(args.skip(1), " "@)), t)
    } else {
        let (r, t1) = fs_builtins::captured(args[0], args.skip(1), t);
        match r {
            Some(outcome) => (outcome, t1),
            None => procexpand::program_output(args, t1),
        }
    }
}

/// The words that the first `n` tokens become; no token is longer than
/// `limit`.
pub open spec fn expand_list(
    v: VarsView,
    toks: Seq<token::TokenView>,
    n: nat,
    limit: nat,
    t: TalkView,
) -> (Seq<Seq<char>>, TalkView)
    decreases limit, 13nat, n,
{
    if n == 0 {
        (Seq::empty(), t)
    } else {
        let (before, t1) = expand_list(v, toks, (n - 1) as nat, limit, t);
        if toks[n - 1].text.len() <= limit {
            let (e, t2) = expanded(v, toks[n - 1], t1);
            (before + e.words(), t2)
        } else {
            (before, t1)
        }
    }
}

/// What each of the first `n` words becomes.
pub open spec fn words_text(
    v: VarsView,
    words: Seq<Seq<char>>,
    n: nat,
    limit: nat,
    t: TalkView,
) -> (Seq<Seq<char>>, TalkView)
    decreases limit, 11nat, n,
{
    if n == 0 {
        (Seq::empty(), t)
    } else {
        let (before, t1) = words_text(v, words, (n - 1) as nat, limit, t);
        if words[n - 1].len() <= limit {
            let (w, t2) = interpolated(v, words[n - 1], t1);
            (before.push(w), t2)
        } else {
            (before, t1)
        }
    }
}

/// The words that a bare token behind `@` becomes, when it is nothing but a
/// reference: an array, a process expansion or a method call.
pub open spec fn whole_reference(v: VarsView, rest: Seq<char>, limit: nat, t: TalkView) -> Option<
    (Seq<Seq<char>>, TalkView),
>
    decreases limit, 11nat, 0nat,
{
    let (name, slice) = name_and_slice(rest);
    if is_plain_name(name) {
        match names::visible(v.arrays, name) {
            Some(value) => Some(sliced_list(value, slice, t)),
            None => Some((Seq::empty(), dialog::warned(t, no_variable(name)))),
        }
    } else if paren_body(name) is Some {
        let inner = paren_body(name)->0;
        if inner.len() < limit {
            let (r, t1) = process_output(v, inner, t);
            match r {
                Ok(s) => Some(sliced_list(text::words_from(s, 0), slice, t1)),
                Err(e) => Some(
                    (Seq::empty(), dialog::warned(t1, "ion: process expansion error: "@ + e)),
                ),
            }
        } else {
            None
        }
    } else if method_parts(name) is Some {
        let (method, inner) = method_parts(name)->0;
        if inner.len() < limit {
            let (r, t1) = array_call(v, method, inner, t);
            match r {
                Ok(list) => Some(sliced_list(list, slice, t1)),
                Err(e) => Some((Seq::empty(), dialog::warned(t1, "ion: method error: "@ + e))),
            }
        } else {
            None
        }
    } else {
        None
    }
}

/// What one token becomes. Single quotes keep everything; double quotes expand
/// references into one word; a bare token is a whole reference, or makes a
/// word for each way through its brace groups, or is one word.
pub open spec fn expanded(v: VarsView, tok: token::TokenView, t: TalkView) -> (
    ExpandedView,
    TalkView,
)
    decreases tok.text.len(), 12nat, 0nat,
{
    match tok.quoting {
        Quoting::Single => (ExpandedView::One(tok.text), t),
        Quoting::Double => {
            let (s, t1) = interpolated(v, tok.text, t);
            (ExpandedView::One(s), t1)
        },
        Quoting::Bare => {
            let whole = if tok.text.len() > 0 && tok.text[0] == '@' {
                whole_reference(v, tok.text.skip(1), tok.text.len(), t)
            } else {
                None
            };
            match whole {
                Some((list, t1)) => (ExpandedView::Many(list), t1),
                None => match ranges::braces(tok.text) {
                    Some(words) => {
                        let (list, t1) = words_text(v, words, words.len(), tok.text.len(), t);
                        (ExpandedView::Many(list), t1)
                    },
                    None => {
                        let (s, t1) = interpolated(v, tok.text, t);
                        (ExpandedView::One(s), t1)
                    },
                },
            }
        },
    }
}

/// The words that a list of tokens becomes.
pub open spec fn all_expanded(v: VarsView, toks: Seq<token::TokenView>, n: nat, t: TalkView) -> (
    Seq<Seq<char>>,
    TalkView,
)
    decreases n,
{
    if n == 0 {
        (Seq::empty(), t)
    } else {
        let (before, t1) = all_expanded(v, toks, (n - 1) as nat, t);
        let (e, t2) = expanded(v, toks[n - 1], t1);
        (before + e.words(), t2)
    }
}

/// When every token fits, a list expands as its tokens do.
proof fn lemma_list_is_all(
    v: VarsView,
    toks: Seq<token::TokenView>,
    n: nat,
    limit: nat,
    t: TalkView,
)
    requires
        n <= toks.len(),
        forall|k: int| 0 <= k < toks.len() ==> (#[trigger] toks[k]).text.len() <= limit,
    ensures
        expand_list(v, toks, n, limit, t) == all_expanded(v, toks, n, t),
    decreases n,
{
    if n > 0 {
        lemma_list_is_all(v, toks, (n - 1) as nat, limit, t);
        assert(toks[n - 1].text.len() <= limit);
    }
}

// ---------------------------------------------------------------------------
// The interpreter
// ---------------------------------------------------------------------------

/// The state of the language: variables, functions, and whether the previous
/// statement succeeded.
pub struct Interpreter {
    scalars: Scopes<String>,
    arrays: Scopes<Vec<String>>,
    functions: Names<FunctionDef>,
    previous_status: bool,
    command_not_found: bool,
}

/// What an interpreter holds.
#[verifier::ext_equal]
pub struct InterpView {
    pub scalars: Seq<Map<Seq<char>, Seq<char>>>,
    pub arrays: Seq<Map<Seq<char>, Seq<Seq<char>>>>,
    pub functions: Map<Seq<char>, crate::functions::FunctionView>,
    pub status: bool,
    pub not_found: bool,
}

impl View for Interpreter {
    type V = InterpView;

    closed spec fn view(&self) -> InterpView {
        InterpView {
            scalars: self.scalars@,
            arrays: self.arrays@,
            functions: self.functions@,
            status: self.previous_status,
            not_found: self.command_not_found,
        }
    }
}

impl InterpView {
    /// Whether the global scope is there. This holds of every interpreter.
    pub open spec fn has_global(self) -> bool {
        self.scalars.len() >= 1 && self.arrays.len() >= 1
    }

    /// The variables.
    pub open spec fn vars(self) -> VarsView {
        VarsView { scalars: self.scalars, arrays: self.arrays }
    }
}

fn starts(s: &str, c: char) -> (r: bool)
    ensures
        r == (s@.len() > 0 && s@[0] == c),
{
    if s.is_empty() {
        return false;
    }
    s.get_char(0) == c
}

fn opt_str(s: &Option<String>) -> (r: Option<&str>)
    ensures
        match r {
            Some(t) => pieces::opt_view(*s) == Some(t@),
            None => pieces::opt_view(*s) is None,
        },
{
    match s {
        Some(t) => Some(t.as_str()),
        None => None,
    }
}

/// What an optional string slice holds.
pub open spec fn opt_slice(s: Option<&str>) -> Option<Seq<char>> {
    match s {
        Some(t) => Some(t@),
        None => None,
    }
}

/// Applies an optional slice to a string.
pub fn apply_optional_string_slice(s: String, slice: Option<&str>, talk: &mut Talk) -> (r: String)
    ensures
        (r@, final(talk)@) == sliced_text(s@, opt_slice(slice), old(talk)@),
{
    match slice {
        None => s,
        Some(spec) => match apply_string_slice(s.as_str(), spec) {
            Ok(r) => r,
            Err(e) => {
                talk.warn(cat2("ion: slice error: ", e.as_str()));
                String::new()
            },
        },
    }
}

/// Applies an optional slice to an array.
pub fn apply_optional_array_slice(items: Vec<String>, slice: Option<&str>, talk: &mut Talk) -> (r:
    Vec<String>)
    ensures
        (text::texts(r@), final(talk)@) == sliced_list(
            text::texts(items@),
            opt_slice(slice),
            old(talk)@,
        ),
{
    match slice {
        None => items,
        Some(spec) => match apply_array_slice(&items, spec) {
            Ok(r) => r,
            Err(e) => {
                talk.warn(cat2("ion: slice error: ", e.as_str()));
                let none: Vec<String> = Vec::new();
                assert(text::texts(none@) =~= Seq::<Seq<char>>::empty());
                none
            },
        },
    }
}

/// Cuts the slice off the end of a reference.
pub fn split_name_and_slice(s: &str) -> (r: (String, Option<String>))
    ensures
        (r.0@, pieces::opt_view(r.1)) == name_and_slice(s@),
{
    let v = chars_of(s);
    if v.len() == 0 || v[v.len() - 1] != ']' {
        return (s.to_owned(), None);
    }
    let mut n: usize = v.len();
    let mut depth: i128 = 0;
    while n > 0
        invariant
            n <= v@.len(),
            v@ == s@,
            v@.len() > 0,
            v@.last() == ']',
            -(v.len() - n) <= depth <= v.len() - n,
            n == v@.len() ==> depth == 0,
            slice_open(v@, v@.len() as int, 0) == slice_open(v@, n as int, depth as int),
        decreases n,
    {
        if v[n - 1] == ']' {
            depth = depth + 1;
        } else if v[n - 1] == '[' {
            if depth == 1 {
                let i: usize = n - 1;
                assert(i < v@.len() - 1);
                let front = sub_chars(&v, 0, i);
                let inner = sub_chars(&v, i + 1, v.len() - 1);
                assert(front@ =~= v@.take(i as int));
                return (text_of(&front), Some(text_of(&inner)));
            }
            depth = depth - 1;
        }
        n = n - 1;
    }
    (s.to_owned(), None)
}

fn plain_name(v: &[char]) -> (r: bool)
    ensures
        r == is_plain_name(v@),
{
    if v.len() == 0 {
        return false;
    }
    let mut i: usize = 0;
    while i < v.len()
        invariant
            i <= v@.len(),
            forall|k: int| 0 <= k < i ==> text::is_name_char(#[trigger] v@[k]),
        decreases v@.len() - i,
    {
        if !is_name(v[i]) {
            return false;
        }
        i = i + 1;
    }
    true
}

/// The content of a parenthesis that is all of `s`.
pub fn whole_paren_body(s: &str) -> (r: Option<String>)
    ensures
        pieces::opt_view(r) == paren_body(s@),
{
    let v = chars_of(s);
    if v.len() >= 2 && v[0] == '(' && v[v.len() - 1] == ')' {
        let inner = sub_chars(&v, 1, v.len() - 1);
        Some(text_of(&inner))
    } else {
        None
    }
}

/// The name and the arguments of a method call that is all of `s`.
pub fn split_method_call(s: &str) -> (r: Option<(String, String)>)
    ensures
        match r {
            Some((name, inner)) => method_parts(s@) == Some((name@, inner@)),
            None => method_parts(s@) is None,
        },
{
    let v = chars_of(s);
    let open: Vec<char> = vec!['('];
    assert(open@ =~= seq!['(']);
    match find_from(&v, &open, 0) {
        None => None,
        Some(p) => {
            let front = sub_chars(&v, 0, p);
            assert(front@ =~= v@.take(p as int));
            assert(p + 1 <= v.len());
            if plain_name(&front) && p + 1 < v.len() && v[v.len() - 1] == ')' {
                let inner = sub_chars(&v, p + 1, v.len() - 1);
                Some((text_of(&front), text_of(&inner)))
            } else {
                None
            }
        },
    }
}

/// An array literal without its brackets.
fn strip_brackets(s: &str) -> (r: String)
    ensures
        r@ == bracket_content(s@),
        r@.len() <= s@.len(),
{
    let v = chars_of(s);
    let mut i: usize = 0;
    assert(v@.skip(0) =~= v@);
    while i < v.len() && v[i] == '['
        invariant
            i <= v@.len(),
            without_first(v@, '[') == without_first(v@.skip(i as int), '['),
        decreases v@.len() - i,
    {
        assert(v@.skip(i as int).drop_first() =~= v@.skip(i + 1));
        i = i + 1;
    }
    let w = sub_chars(&v, i, v.len());
    assert(w@ =~= v@.skip(i as int));
    let mut n: usize = w.len();
    assert(w@.take(n as int) =~= w@);
    while n > 0 && w[n - 1] == ']'
        invariant
            n <= w@.len(),
            without_last(w@, ']') == without_last(w@.take(n as int), ']'),
        decreases n,
    {
        assert(w@.take(n as int).drop_last() =~= w@.take(n - 1));
        n = n - 1;
    }
    let x = sub_chars(&w, 0, n);
    assert(x@ =~= w@.take(n as int));
    text_of(&x)
}

fn empty_words() -> (r: Vec<String>)
    ensures
        text::texts(r@) == Seq::<Seq<char>>::empty(),
{
    let r: Vec<String> = Vec::new();
    assert(text::texts(r@) =~= Seq::<Seq<char>>::empty());
    r
}

fn joined_by_spaces(list: &Vec<String>) -> (r: String)
    ensures
        r@ == text::joined(text::texts(list@), " "@),
{
    join_texts(list, " ")
}

impl Interpreter {
    /// An interpreter without variables or functions, whose previous statement
    /// counts as a success.
    pub fn new() -> (r: Interpreter)
        ensures
            r@ == (InterpView {
                scalars: seq![Map::empty()],
                arrays: seq![Map::empty()],
                functions: Map::empty(),
                status: true,
                not_found: false,
            }),
            r@.has_global(),
    {
        Interpreter {
            scalars: Scopes::new(),
            arrays: Scopes::new(),
            functions: Names::new(),
            previous_status: true,
            command_not_found: false,
        }
    }

    /// Another interpreter that holds the same.
    pub fn copy(&self) -> (r: Interpreter)
        ensures
            r@ == self@,
            r@.has_global(),
    {
        proof {
            use_type_invariant(&self.scalars);
            use_type_invariant(&self.arrays);
        }
        Interpreter {
            scalars: self.scalars.copy(),
            arrays: self.arrays.copy(),
            functions: self.functions.copy(),
            previous_status: self.previous_status,
            command_not_found: self.command_not_found,
        }
    }

    /// Cuts a line into tokens.
    pub fn tokenize(line: &str) -> (r: Vec<Token>)
        ensures
            token::token_views(r@) == token::tokens_from(line@, 0),
            forall|k: int| 0 <= k < r@.len() ==> #[trigger] r@[k]@.text.len() <= line@.len(),
    {
        tokenize(line)
    }

    fn resolve_name(&self, array: bool, name: &str, slice: Option<&str>, talk: &mut Talk) -> (r:
        String)
        ensures
            (r@, final(talk)@) == name_text(
                self@.vars(),
                array,
                name@,
                opt_slice(slice),
                old(talk)@,
            ),
    {
        if !array {
            match self.scalars.get(name) {
                Some(value) => apply_optional_string_slice(value.clone(), slice, talk),
                None => {
                    talk.warn(
                        cat3("ion: expansion error: ", name, ": variable does not exist"),
                    );
                    String::new()
                },
            }
        } else {
            match self.arrays.get(name) {
                Some(value) => {
                    proof {
                        text::lemma_texts_deep(*value);
                    }
                    let list = apply_optional_array_slice(copy_texts(value), slice, talk);
                    joined_by_spaces(&list)
                },
                None => {
                    talk.warn(
                        cat3("ion: expansion error: ", name, ": variable does not exist"),
                    );
                    String::new()
                },
            }
        }
    }

    /// Replaces every reference in a word.
    #[verifier::rlimit(60)]
    #[verifier::spinoff_prover]
    fn interpolate(&self, word: &str, talk: &mut Talk) -> (r: String)
        ensures
            (r@, final(talk)@) == interpolated(self@.vars(), word@, old(talk)@),
        decreases word@.len(), 9nat, 0nat,
    {
        let ps = read_pieces(word);
        let ghost views = pieces::piece_views(ps@);
        let ghost start = talk@;
        let mut out = String::new();
        let mut k: usize = 0;
        while k < ps.len()
            invariant
                k <= ps@.len(),
                views == pieces::piece_views(ps@),
                forall|m: int|
                    0 <= m < ps@.len() ==> pieces::piece_shorter(
                        #[trigger] ps@[m]@,
                        word@.len() as int,
                    ),
                (out@, talk@) == pieces_text(
                    self@.vars(),
                    views,
                    k as nat,
                    word@.len(),
                    start,
                ),
            decreases ps@.len() - k,
        {
            assert(pieces::piece_shorter(ps@[k as int]@, word@.len() as int));
            assert(views[k as int] == ps@[k as int]@);
            let more = self.interpolate_piece(&ps[k], Ghost(word@.len()), talk);
            out.append(more.as_str());
            k = k + 1;
        }
        out
    }

    fn interpolate_piece(&self, p: &Piece, limit: Ghost<nat>, talk: &mut Talk) -> (r: String)
        requires
            pieces::piece_shorter(p@, limit@ as int),
        ensures
            (r@, final(talk)@) == piece_text(self@.vars(), p@, limit@, old(talk)@),
        decreases limit@, 7nat, 0nat,
    {
        match p {
            Piece::Literal(c) => {
                let mut s = String::new();
                s.push(*c);
                assert(s@ =~= seq![*c]);
                s
            },
            Piece::Arith(expr) => match arith::eval(expr.as_str(), &self.scalars, talk) {
                Ok(n) => n.to_display_string(talk),
                Err(e) => {
                    talk.warn(cat2("ion: arithmetic error: ", e.as_str()));
                    String::new()
                },
            },
            Piece::Method(array, name, inner) => {
                let outcome: Result<String, String> = if *array {
                    match self.call_array_method_here(name.as_str(), inner.as_str(), talk) {
                        Ok(list) => Ok(joined_by_spaces(&list)),
                        Err(e) => Err(e),
                    }
                } else {
                    self.call_string_method_here(name.as_str(), inner.as_str(), talk)
                };
                match outcome {
                    Ok(s) => s,
                    Err(e) => {
                        talk.warn(cat2("ion: method error: ", e.as_str()));
                        String::new()
                    },
                }
            },
            Piece::Process(array, inner, slice) => {
                match self.run_process_expansion_scalar(inner.as_str(), talk) {
                    Ok(s) => {
                        if *array {
                            let words = split_words(s.as_str());
                            let list = apply_optional_array_slice(words, opt_str(slice), talk);
                            joined_by_spaces(&list)
                        } else {
                            apply_optional_string_slice(s, opt_str(slice), talk)
                        }
                    },
                    Err(e) => {
                        talk.warn(cat2("ion: process expansion error: ", e.as_str()));
                        String::new()
                    },
                }
            },
            Piece::Name(array, name, slice) => {
                if has_prefix(name.as_str(), "env::") {
                    let v = chars_of(name.as_str());
                    proof {
                        reveal_strlit("env::");
                    }
                    assert("env::"@.len() == 5);
                    let rest = sub_chars(&v, 5, v.len());
                    assert(rest@ =~= name@.skip(5));
                    let var = text_of(&rest);
                    let a = talk.ask(dialog::Request::Environment(var));
                    apply_optional_string_slice(a.into_text(), opt_str(slice), talk)
                } else if name.as_str().is_empty() {
                    let mut s = String::new();
                    s.push(
                        if *array {
                            '@'
                        } else {
                            '$'
                        },
                    );
                    assert(s@ =~= seq![sigil(*array)]);
                    s
                } else {
                    self.resolve_name(*array, name.as_str(), opt_str(slice), talk)
                }
            },
        }
    }

    /// Runs the command of a process expansion.
    fn run_process_expansion_scalar(&self, inner: &str, talk: &mut Talk) -> (r: Result<
        String,
        String,
    >)
        ensures
            (methods::text_outcome(r), final(talk)@) == process_output(
                self@.vars(),
                inner@,
                old(talk)@,
            ),
        decreases inner@.len(), 14nat, 0nat,
    {
        let toks = tokenize(inner);
        if !pipeline::parse(&toks).is_trivial() {
            return Err(
                "pipelines/redirection are not supported inside process expansion yet".to_owned(),
            );
        }
        let args = self.expand_tokens(&toks, Ghost(inner@.len()), talk);
        run_command(&args, talk)
    }

    fn resolve_method_args(&self, inner: &str, talk: &mut Talk) -> (r: Vec<MethodArg>)
        ensures
            ({
                let toks = token::tokens_from(inner@, 0);
                (methods::arg_views(r@), final(talk)@) == argument_list(
                    self@.vars(),
                    toks,
                    toks.len(),
                    inner@.len(),
                    old(talk)@,
                )
            }),
        decreases inner@.len(), 16nat, 0nat,
    {
        let toks = tokenize(inner);
        let ghost views = token::token_views(toks@);
        let ghost start = talk@;
        let mut args: Vec<MethodArg> = Vec::new();
        let mut k: usize = 0;
        assert(methods::arg_views(args@) =~= Seq::<methods::ArgView>::empty());
        while k < toks.len()
            invariant
                k <= toks@.len(),
                views == token::token_views(toks@),
                forall|m: int|
                    0 <= m < toks@.len() ==> (#[trigger] toks@[m])@.text.len() <= inner@.len(),
                (methods::arg_views(args@), talk@) == argument_list(
                    self@.vars(),
                    views,
                    k as nat,
                    inner@.len(),
                    start,
                ),
            decreases toks@.len() - k,
        {
            assert(toks@[k as int]@.text.len() <= inner@.len());
            assert(views[k as int] == toks@[k as int]@);
            let arg = self.resolve_method_arg(&toks[k], Ghost(inner@.len()), talk);
            let ghost before = args@;
            args.push(arg);
            assert(methods::arg_views(args@) =~= methods::arg_views(before).push(arg@));
            k = k + 1;
        }
        args
    }

    fn resolve_method_arg(&self, tok: &Token, limit: Ghost<nat>, talk: &mut Talk) -> (r: MethodArg)
        requires
            tok@.text.len() <= limit@,
        ensures
            (r@, final(talk)@) == argument(self@.vars(), tok@, limit@, old(talk)@),
        decreases limit@, 15nat, 0nat,
    {
        let bare = tok.quoting == Quoting::Bare;
        let word = tok.text.as_str();
        if bare && starts(word, '[') {
            let content = strip_brackets(word);
            let toks = tokenize(content.as_str());
            let list = self.expand_tokens(&toks, Ghost(content@.len()), talk);
            return MethodArg::Arr(list);
        }
        if bare && !starts(word, '$') && !starts(word, '@') && !starts(word, '{') {
            if let Some(value) = self.scalars.get(word) {
                return MethodArg::Str(value.clone());
            }
            if let Some(value) = self.arrays.get(word) {
                proof {
                    text::lemma_texts_deep(*value);
                }
                return MethodArg::Arr(copy_texts(value));
            }
            return MethodArg::Str(tok.text.clone());
        }
        match self.expand_token(tok, talk) {
            Expanded::One(s) => MethodArg::Str(s),
            Expanded::Many(list) => MethodArg::Arr(list),
        }
    }

    fn call_string_method_here(&self, name: &str, inner: &str, talk: &mut Talk) -> (r: Result<
        String,
        String,
    >)
        ensures
            (methods::text_outcome(r), final(talk)@) == string_call(
                self@.vars(),
                name@,
                inner@,
                old(talk)@,
            ),
        decreases inner@.len(), 17nat, 0nat,
    {
        let args = self.resolve_method_args(inner, talk);
        match call_string_method(name, &args) {
            Some(r) => r,
            None => Err(cat3("no such string method '", name, "'")),
        }
    }

    fn call_array_method_here(&self, name: &str, inner: &str, talk: &mut Talk) -> (r: Result<
        Vec<String>,
        String,
    >)
        ensures
            (methods::list_outcome(r), final(talk)@) == array_call(
                self@.vars(),
                name@,
                inner@,
                old(talk)@,
            ),
        decreases inner@.len(), 17nat, 0nat,
    {
        let args = self.resolve_method_args(inner, talk);
        match call_array_method(name, &args) {
            Some(r) => r,
            None => Err(cat3("no such array method '", name, "'")),
        }
    }

    /// The words of a token behind `@` that is nothing but a reference.
    fn expand_reference(&self, rest: &str, limit: Ghost<nat>, talk: &mut Talk) -> (r: Option<
        Vec<String>,
    >)
        requires
            rest@.len() < limit@,
        ensures
            match r {
                Some(list) => whole_reference(self@.vars(), rest@, limit@, old(talk)@) == Some(
                    (text::texts(list@), final(talk)@),
                ),
                None => whole_reference(self@.vars(), rest@, limit@, old(talk)@) is None
                    && final(talk)@ == old(talk)@,
            },
        decreases limit@, 11nat, 0nat,
    {
        let (name, slice) = split_name_and_slice(rest);
        proof {
            text::lemma_found_is_first(name@, seq!['('], 0);
        }
        let v = chars_of(name.as_str());
        if plain_name(&v) {
            return match self.arrays.get(name.as_str()) {
                Some(value) => {
                    proof {
                        text::lemma_texts_deep(*value);
                    }
                    Some(apply_optional_array_slice(copy_texts(value), opt_str(&slice), talk))
                },
                None => {
                    talk.warn(
                        cat3("ion: expansion error: ", name.as_str(), ": variable does not exist"),
                    );
                    Some(empty_words())
                },
            };
        }
        if let Some(inner) = whole_paren_body(name.as_str()) {
            return match self.run_process_expansion_scalar(inner.as_str(), talk) {
                Ok(s) => {
                    let words = split_words(s.as_str());
                    Some(apply_optional_array_slice(words, opt_str(&slice), talk))
                },
                Err(e) => {
                    talk.warn(cat2("ion: process expansion error: ", e.as_str()));
                    Some(empty_words())
                },
            };
        }
        if let Some((method, inner)) = split_method_call(name.as_str()) {
            return match self.call_array_method_here(method.as_str(), inner.as_str(), talk) {
                Ok(list) => Some(apply_optional_array_slice(list, opt_str(&slice), talk)),
                Err(e) => {
                    talk.warn(cat2("ion: method error: ", e.as_str()));
                    Some(empty_words())
                },
            };
        }
        None
    }

    /// Expands one token.
    fn expand_token(&self, tok: &Token, talk: &mut Talk) -> (r: Expanded)
        ensures
            (r@, final(talk)@) == expanded(self@.vars(), tok@, old(talk)@),
        decreases tok@.text.len(), 12nat, 0nat,
    {
        match tok.quoting {
            Quoting::Single => Expanded::One(tok.text.clone()),
            Quoting::Double => Expanded::One(self.interpolate(tok.text.as_str(), talk)),
            Quoting::Bare => {
                let word = tok.text.as_str();
                let v = chars_of(word);
                if v.len() > 0 && v[0] == '@' {
                    let tail = sub_chars(&v, 1, v.len());
                    assert(tail@ =~= word@.skip(1));
                    let rest = text_of(&tail);
                    if let Some(list) = self.expand_reference(
                        rest.as_str(),
                        Ghost(word@.len()),
                        talk,
                    ) {
                        return Expanded::Many(list);
                    }
                }
                if let Some(words) = expand_braces(word) {
                    proof {
                        ranges::law_brace_words_fit(word@);
                    }
                    return Expanded::Many(self.expand_words(&words, Ghost(word@.len()), talk));
                }
                Expanded::One(self.interpolate(word, talk))
            },
        }
    }

    #[verifier::rlimit(60)]
    #[verifier::spinoff_prover]
    fn expand_words(&self, words: &Vec<String>, limit: Ghost<nat>, talk: &mut Talk) -> (r: Vec<
        String,
    >)
        requires
            ranges::no_longer(text::texts(words@), limit@ as int),
        ensures
            (text::texts(r@), final(talk)@) == words_text(
                self@.vars(),
                text::texts(words@),
                words@.len(),
                limit@,
                old(talk)@,
            ),
        decreases limit@, 11nat, 1nat,
    {
        let ghost all = text::texts(words@);
        let ghost start = talk@;
        let mut out: Vec<String> = Vec::new();
        let mut k: usize = 0;
        assert(text::texts(out@) =~= Seq::<Seq<char>>::empty());
        while k < words.len()
            invariant
                k <= words@.len(),
                all == text::texts(words@),
                ranges::no_longer(all, limit@ as int),
                (text::texts(out@), talk@) == words_text(
                    self@.vars(),
                    all,
                    k as nat,
                    limit@,
                    start,
                ),
            decreases words@.len() - k,
        {
            assert(all[k as int].len() <= limit@);
            let w = self.interpolate(words[k].as_str(), talk);
            proof {
                text::lemma_texts_push(out@, w);
            }
            out.push(w);
            k = k + 1;
        }
        out
    }

    fn expand_tokens(&self, toks: &[Token], limit: Ghost<nat>, talk: &mut Talk) -> (r: Vec<String>)
        requires
            forall|k: int| 0 <= k < toks@.len() ==> (#[trigger] toks@[k])@.text.len() <= limit@,
        ensures
            (text::texts(r@), final(talk)@) == expand_list(
                self@.vars(),
                token::token_views(toks@),
                toks@.len(),
                limit@,
                old(talk)@,
            ),
        decreases limit@, 13nat, 0nat,
    {
        let ghost views = token::token_views(toks@);
        let ghost start = talk@;
        let mut out: Vec<String> = Vec::new();
        let mut k: usize = 0;
        assert(text::texts(out@) =~= Seq::<Seq<char>>::empty());
        while k < toks.len()
            invariant
                k <= toks@.len(),
                views == token::token_views(toks@),
                forall|m: int| 0 <= m < toks@.len() ==> (#[trigger] toks@[m])@.text.len() <= limit@,
                (text::texts(out@), talk@) == expand_list(
                    self@.vars(),
                    views,
                    k as nat,
                    limit@,
                    start,
                ),
            decreases toks@.len() - k,
        {
            assert(toks@[k as int]@.text.len() <= limit@);
            assert(views[k as int] == toks@[k as int]@);
            match self.expand_token(&toks[k], talk) {
                Expanded::One(s) => {
                    let ghost before = text::texts(out@);
                    proof {
                        text::lemma_texts_push(out@, s);
                        assert(before + seq![s@] =~= before.push(s@));
                    }
                    out.push(s);
                },
                Expanded::Many(list) => {
                    extend_texts(&mut out, &list);
                },
            }
            k = k + 1;
        }
        out
    }

    /// Expands a list of tokens into words.
    pub fn expand_all(&self, tokens: &[Token], talk: &mut Talk) -> (r: Vec<String>)
        ensures
            (text::texts(r@), final(talk)@) == all_expanded(
                self@.vars(),
                token::token_views(tokens@),
                tokens@.len(),
                old(talk)@,
            ),
    {
        let ghost limit = longest(token::token_views(tokens@));
        proof {
            lemma_longest(token::token_views(tokens@));
            lemma_list_is_all(
                self@.vars(),
                token::token_views(tokens@),
                tokens@.len(),
                limit,
                talk@,
            );
            assert forall|k: int| 0 <= k < tokens@.len() implies (
            #[trigger] tokens@[k])@.text.len() <= limit by {
                assert(token::token_views(tokens@)[k] == tokens@[k]@);
            }
        }
        self.expand_tokens(tokens, Ghost(limit), talk)
    }
}

/// Runs a command that stands in a process expansion.
fn run_command(args: &Vec<String>, talk: &mut Talk) -> (r: Result<String, String>)
    ensures
        (methods::text_outcome(r), final(talk)@) == command_output(text::texts(args@), old(talk)@),
{
    if args.len() == 0 {
        return Err("empty command in process expansion".to_owned());
    }
    let rest = tail_texts(args, 1);
    if same(args[0].as_str(), "echo") {
        return Ok(join_texts(&rest, " "));
    }
    if let Some(outcome) = fs_builtins::capture(args[0].as_str(), &rest, talk) {
        return outcome;
    }
    procexpand::capture(args, talk)
}

/// The length of the longest token.
spec fn longest(toks: Seq<token::TokenView>) -> nat
    decreases toks.len(),
{
    if toks.len() == 0 {
        0
    } else {
        let before = longest(toks.drop_last());
        if toks.last().text.len() > before {
            toks.last().text.len()
        } else {
            before
        }
    }
}

proof fn lemma_longest(toks: Seq<token::TokenView>)
    ensures
        forall|k: int| 0 <= k < toks.len() ==> (#[trigger] toks[k]).text.len() <= longest(toks),
    decreases toks.len(),
{
    if toks.len() > 0 {
        lemma_longest(toks.drop_last());
        assert forall|k: int| 0 <= k < toks.len() implies (#[trigger] toks[k]).text.len()
            <= longest(toks) by {
            if k < toks.len() - 1 {
                assert(toks.drop_last()[k] == toks[k]);
            }
        }
    }
}

// ---------------------------------------------------------------------------
// Assignment
// ---------------------------------------------------------------------------

/// The floating-point operation of a compound assignment.
pub open spec fn float_op_of(op: Seq<char>) -> Option<dialog::FloatOp> {
    if op == "+="@ {
        Some(dialog::FloatOp::Add)
    } else if op == "-="@ {
        Some(dialog::FloatOp::Subtract)
    } else if op == "*="@ {
        Some(dialog::FloatOp::Multiply)
    } else if op == "//="@ {
        Some(dialog::FloatOp::FloorDivide)
    } else if op == "/="@ {
        Some(dialog::FloatOp::Divide)
    } else if op == "**="@ {
        Some(dialog::FloatOp::Power)
    } else {
        None
    }
}

/// Whether a compound assignment of two integers gives an integer.
pub open spec fn keeps_integers(op: dialog::FloatOp) -> bool {
    op == dialog::FloatOp::Add || op == dialog::FloatOp::Subtract || op
        == dialog::FloatOp::Multiply || op == dialog::FloatOp::FloorDivide
}

/// The integer that a compound assignment gives, or a message.
pub open spec fn int_compound(a: i64, op: dialog::FloatOp, b: i64) -> methods::TextOutcome {
    if op == dialog::FloatOp::FloorDivide && b == 0 {
        Err("division by zero"@)
    } else {
        let r = match op {
            dialog::FloatOp::Add => a.checked_add(b),
            dialog::FloatOp::Subtract => a.checked_sub(b),
            dialog::FloatOp::Multiply => a.checked_mul(b),
            _ => a.checked_div_euclid(b),
        };
        match r {
            Some(v) => Ok(text::int_text(v as int)),
            None => Err("integer overflow"@),
        }
    }
}

/// The floating-point number that a compound assignment gives, or a message.
pub open spec fn float_compound(
    a: Seq<char>,
    op: dialog::FloatOp,
    b: Seq<char>,
    t: TalkView,
) -> (methods::TextOutcome, TalkView) {
    let (x, t1) = dialog::asked(t, dialog::RequestView::Float(dialog::FloatCallView::Parse(a)));
    match x {
        dialog::AnswerView::Number(m) => {
            let (y, t2) = dialog::asked(
                t1,
                dialog::RequestView::Float(dialog::FloatCallView::Parse(b)),
            );
            match y {
                dialog::AnswerView::Number(n) => {
                    let (z, t3) = arith::float_of(t2, dialog::FloatCallView::Binary(op, m, n));
                    let (s, t4) = dialog::asked(
                        t3,
                        dialog::RequestView::Float(dialog::FloatCallView::Show(z)),
                    );
                    (Ok(s.as_text()), t4)
                },
                _ => (Err("'"@ + b + "' is not a number"@), t2),
            }
        },
        _ => (Err("'"@ + a + "' is not a number"@), t1),
    }
}

/// The value that a compound assignment gives: an integer where both operands
/// are and the operator keeps integers, and else a floating-point number.
pub open spec fn compound(current: Seq<char>, op: Seq<char>, rhs: Seq<char>, t: TalkView) -> (
    methods::TextOutcome,
    TalkView,
) {
    match float_op_of(op) {
        None => (Err("unsupported operator "@ + op), t),
        Some(f) => match (text::i64_of_text(current), text::i64_of_text(rhs)) {
            (Some(a), Some(b)) if keeps_integers(f) => (int_compound(a as i64, f, b as i64), t),
            _ => float_compound(current, f, rhs, t),
        },
    }
}

fn float_op(op: &str) -> (r: Option<dialog::FloatOp>)
    ensures
        r == float_op_of(op@),
{
    if same(op, "+=") {
        Some(dialog::FloatOp::Add)
    } else if same(op, "-=") {
        Some(dialog::FloatOp::Subtract)
    } else if same(op, "*=") {
        Some(dialog::FloatOp::Multiply)
    } else if same(op, "//=") {
        Some(dialog::FloatOp::FloorDivide)
    } else if same(op, "/=") {
        Some(dialog::FloatOp::Divide)
    } else if same(op, "**=") {
        Some(dialog::FloatOp::Power)
    } else {
        None
    }
}

/// Applies a compound-assignment operator to two texts.
pub fn apply_arith(current: &str, op: &str, rhs: &str, talk: &mut Talk) -> (r: Result<
    String,
    String,
>)
    ensures
        (methods::text_outcome(r), final(talk)@) == compound(current@, op@, rhs@, old(talk)@),
{
    let f = match float_op(op) {
        None => return Err(cat2("unsupported operator ", op)),
        Some(f) => f,
    };
    let keeps = f == dialog::FloatOp::Add || f == dialog::FloatOp::Subtract || f
        == dialog::FloatOp::Multiply || f == dialog::FloatOp::FloorDivide;
    if keeps {
        if let Some(a) = text::parse_i64(current) {
            if let Some(b) = text::parse_i64(rhs) {
                if f == dialog::FloatOp::FloorDivide && b == 0 {
                    return Err("division by zero".to_owned());
                }
                let v = match f {
                    dialog::FloatOp::Add => a.checked_add(b),
                    dialog::FloatOp::Subtract => a.checked_sub(b),
                    dialog::FloatOp::Multiply => a.checked_mul(b),
                    _ => a.checked_div_euclid(b),
                };
                return match v {
                    Some(n) => Ok(text::i64_text(n)),
                    None => Err("integer overflow".to_owned()),
                };
            }
        }
    }
    let m: u64 = match talk.ask(
        dialog::Request::Float(dialog::FloatCall::Parse(current.to_owned())),
    ) {
        dialog::Answer::Number(m) => m,
        _ => return Err(cat3("'", current, "' is not a number")),
    };
    let n: u64 = match talk.ask(
        dialog::Request::Float(dialog::FloatCall::Parse(rhs.to_owned())),
    ) {
        dialog::Answer::Number(n) => n,
        _ => return Err(cat3("'", rhs, "' is not a number")),
    };
    let z = talk.ask(dialog::Request::Float(dialog::FloatCall::Binary(f, m, n)));
    let s = talk.ask(dialog::Request::Float(dialog::FloatCall::Show(z.number())));
    Ok(s.into_text())
}

/// Whether a token is an assignment operator.
pub open spec fn is_assignment(op: Seq<char>) -> bool {
    op == "="@ || float_op_of(op) is Some
}

/// The place of the first assignment operator at or after `i`.
pub open spec fn assignment_place(args: Seq<token::TokenView>, i: int) -> Option<int>
    decreases args.len() - i,
{
    if i < 0 || i >= args.len() {
        None
    } else if is_assignment(args[i].text) {
        Some(i)
    } else {
        assignment_place(args, i + 1)
    }
}

fn find_assignment(args: &[Token]) -> (r: Option<usize>)
    ensures
        match r {
            Some(i) => assignment_place(token::token_views(args@), 0) == Some(i as int) && i
                < args@.len(),
            None => assignment_place(token::token_views(args@), 0) is None,
        },
{
    let mut i: usize = 0;
    while i < args.len()
        invariant
            i <= args@.len(),
            assignment_place(token::token_views(args@), 0) == assignment_place(
                token::token_views(args@),
                i as int,
            ),
        decreases args@.len() - i,
    {
        assert(token::token_views(args@)[i as int] == args@[i as int]@);
        let op = args[i].text.as_str();
        if same(op, "=") || float_op(op).is_some() {
            return Some(i);
        }
        i = i + 1;
    }
    None
}

/// Whether the right-hand side of an assignment is one array literal.
pub open spec fn is_array_value(rhs: Seq<token::TokenView>) -> bool {
    rhs.len() == 1 && rhs[0].text.len() > 0 && rhs[0].text[0] == '['
}

/// The words of an array literal.
pub open spec fn literal_words(v: VarsView, literal: Seq<char>, t: TalkView) -> (
    Seq<Seq<char>>,
    TalkView,
) {
    let toks = token::tokens_from(bracket_content(literal), 0);
    all_expanded(v, toks, toks.len(), t)
}

/// What `let` does: `let NAME = VALUE...` assigns the words joined by spaces,
/// `let NAME = [ELEMENTS]` assigns an array, and `let NAME OP VALUE` applies an
/// operator to the variable. Anything else gives a diagnostic and changes
/// nothing.
pub open spec fn let_done(st: InterpView, args: Seq<token::TokenView>, t: TalkView) -> (
    InterpView,
    TalkView,
) {
    match assignment_place(args, 0) {
        None => (
            st,
            dialog::noted(
                t,
                "ion: let: usage: let NAME = VALUE  |  let NAME = [ elements... ]  |  let NAME OP VALUE"@,
            ),
        ),
        Some(place) => if place != 1 {
            (
                st,
                dialog::noted(
                    t,
                    "ion: let: multiple-name assignment not yet supported in this scaffold"@,
                ),
            )
        } else {
            let name = args[0].text;
            let op = args[1].text;
            let rhs = args.skip(2);
            if op != "="@ {
                if rhs.len() != 1 {
                    (
                        st,
                        dialog::noted(
                            t,
                            "ion: let: arithmetic assignment usage: let NAME "@ + op + " VALUE"@,
                        ),
                    )
                } else {
                    let (words, t1) = all_expanded(st.vars(), rhs, rhs.len(), t);
                    let current = match names::visible(st.scalars, name) {
                        Some(value) => value,
                        None => Seq::empty(),
                    };
                    let (r, t2) = compound(current, op, text::joined(words, " "@), t1);
                    match r {
                        Ok(value) => (
                            InterpView { scalars: names::assigned(st.scalars, name, value), ..st },
                            t2,
                        ),
                        Err(e) => (st, dialog::noted(t2, "ion: let: "@ + e)),
                    }
                }
            } else if is_array_value(rhs) {
                let (words, t1) = literal_words(st.vars(), rhs[0].text, t);
                (InterpView { arrays: names::assigned(st.arrays, name, words), ..st }, t1)
            } else {
                let (words, t1) = all_expanded(st.vars(), rhs, rhs.len(), t);
                (
                    InterpView {
                        scalars: names::assigned(st.scalars, name, text::joined(words, " "@)),
                        ..st
                    },
                    t1,
                )
            }
        },
    }
}

/// What `export` does to the interpreter, and the name and value that go to
/// the environment, if any.
pub open spec fn export_done(st: InterpView, args: Seq<token::TokenView>, t: TalkView) -> (
    InterpView,
    Option<(Seq<char>, Seq<char>)>,
    TalkView,
) {
    match assignment_place(args, 0) {
        None => (st, None, dialog::noted(t, "ion: export: usage: export NAME = VALUE"@)),
        Some(place) => if place != 1 {
            (
                st,
                None,
                dialog::noted(
                    t,
                    "ion: export: multiple-name assignment not yet supported in this scaffold"@,
                ),
            )
        } else if is_array_value(args.skip(2)) {
            (st, None, dialog::noted(t, "ion: export: arrays are not supported"@))
        } else {
            let (after, t1) = let_done(st, args, t);
            (
                after,
                match names::visible(after.scalars, args[0].text) {
                    Some(value) => Some((args[0].text, value)),
                    None => None,
                },
                t1,
            )
        },
    }
}

impl Interpreter {
    /// The tokens of an array literal.
    pub fn parse_array_literal(literal: &str) -> (r: Vec<Token>)
        ensures
            token::token_views(r@) == token::tokens_from(bracket_content(literal@), 0),
    {
        let content = strip_brackets(literal);
        tokenize(content.as_str())
    }

    fn assign_by_let(&mut self, args: &[Token], talk: &mut Talk)
        ensures
            (final(self)@, final(talk)@) == let_done(
                old(self)@,
                token::token_views(args@),
                old(talk)@,
            ),
    {
        let ghost views = token::token_views(args@);
        let ghost before = self@;
        let place: usize = match find_assignment(args) {
            None => {
                talk.note(
                    "ion: let: usage: let NAME = VALUE  |  let NAME = [ elements... ]  |  let NAME OP VALUE".to_owned(),
                );
                return;
            },
            Some(p) => p,
        };
        if place != 1 {
            talk.note(
                "ion: let: multiple-name assignment not yet supported in this scaffold".to_owned(),
            );
            return;
        }
        assert(views[0] == args@[0]@);
        assert(views[1] == args@[1]@);
        let name = args[0].text.clone();
        let op = args[1].text.as_str();
        let rhs = token::tail_tokens(args, 2);
        let ghost rv = token::token_views(rhs@);
        assert(rv == views.skip(2));
        if !same(op, "=") {
            if rhs.len() != 1 {
                talk.note(
                    cat3("ion: let: arithmetic assignment usage: let NAME ", op, " VALUE"),
                );
                return;
            }
            let words = self.expand_all(&rhs, talk);
            let operand = join_texts(&words, " ");
            let current = match self.scalars.get(name.as_str()) {
                Some(value) => value.clone(),
                None => String::new(),
            };
            match apply_arith(current.as_str(), op, operand.as_str(), talk) {
                Ok(value) => {
                    let ghost v = value@;
                    let _old = self.scalars.set(name, value);
                    assert(self@ =~= InterpView {
                        scalars: names::assigned(before.scalars, views[0].text, v),
                        ..before
                    });
                },
                Err(e) => {
                    talk.note(cat2("ion: let: ", e.as_str()));
                },
            }
            return;
        }
        if rhs.len() == 1 {
            assert(rv[0] == rhs@[0]@);
        }
        if rhs.len() == 1 && starts(rhs[0].text.as_str(), '[') {
            let toks = Self::parse_array_literal(rhs[0].text.as_str());
            let words = self.expand_all(&toks, talk);
            proof {
                text::lemma_texts_deep(words);
            }
            let ghost w = text::texts(words@);
            let _old = self.arrays.set(name, words);
            assert(self@ =~= InterpView {
                arrays: names::assigned(before.arrays, views[0].text, w),
                ..before
            });
            return;
        }
        let words = self.expand_all(&rhs, talk);
        let value = join_texts(&words, " ");
        let ghost v = value@;
        let _old = self.scalars.set(name, value);
        assert(self@ =~= InterpView {
            scalars: names::assigned(before.scalars, views[0].text, v),
            ..before
        });
    }

    /// `let NAME = VALUE...`, `let NAME = [ELEMENTS]` and `let NAME OP VALUE`.
    pub fn builtin_let(&mut self, args: &[Token], talk: &mut Talk)
        ensures
            (final(self)@, final(talk)@) == let_done(
                old(self)@,
                token::token_views(args@),
                old(talk)@,
            ),
            final(self)@.has_global(),
    {
        self.assign_by_let(args, talk);
        proof {
            use_type_invariant(&self.scalars);
            use_type_invariant(&self.arrays);
        }
    }

    /// `export NAME = VALUE` and `export NAME OP VALUE`: assigns like `let`,
    /// and gives the name and value that go to the environment.
    pub fn builtin_export(&mut self, args: &[Token], talk: &mut Talk) -> (r: Option<
        (String, String),
    >)
        ensures
            (final(self)@, match r {
                Some((n, v)) => Some((n@, v@)),
                None => None,
            }, final(talk)@) == export_done(old(self)@, token::token_views(args@), old(talk)@),
            final(self)@.has_global(),
    {
        proof {
            use_type_invariant(&self.scalars);
            use_type_invariant(&self.arrays);
        }
        let ghost views = token::token_views(args@);
        let place: usize = match find_assignment(args) {
            None => {
                talk.note("ion: export: usage: export NAME = VALUE".to_owned());
                return None;
            },
            Some(p) => p,
        };
        if place != 1 {
            talk.note(
                "ion: export: multiple-name assignment not yet supported in this scaffold".to_owned(),
            );
            return None;
        }
        assert(views[0] == args@[0]@);
        assert(views.skip(2).len() == args@.len() - 2);
        if args.len() == 3 {
            assert(views.skip(2)[0] == args@[2]@);
        }
        if args.len() == 3 && starts(args[2].text.as_str(), '[') {
            talk.note("ion: export: arrays are not supported".to_owned());
            return None;
        }
        let name = args[0].text.clone();
        self.builtin_let(args, talk);
        match self.scalars.get(name.as_str()) {
            Some(value) => Some((name, value.clone())),
            None => None,
        }
    }

    /// The value of a scalar, searched from the innermost scope outwards.
    pub fn get_scalar(&self, name: &str) -> (r: Option<&String>)
        ensures
            names::visible(self@.scalars, name@) == match r {
                Some(v) => Some(v@),
                None => None,
            },
            self@.has_global(),
    {
        proof {
            use_type_invariant(&self.scalars);
            use_type_invariant(&self.arrays);
        }
        self.scalars.get(name)
    }

    /// The elements of an array, searched from the innermost scope outwards.
    pub fn get_array(&self, name: &str) -> (r: Option<&Vec<String>>)
        ensures
            names::visible(self@.arrays, name@) == match r {
                Some(v) => Some(text::texts(v@)),
                None => None,
            },
            self@.has_global(),
    {
        proof {
            use_type_invariant(&self.scalars);
            use_type_invariant(&self.arrays);
        }
        match self.arrays.get(name) {
            Some(v) => {
                proof {
                    text::lemma_texts_deep(*v);
                }
                Some(v)
            },
            None => None,
        }
    }

    /// Assigns a scalar in the scope that owns it, or else in the innermost
    /// one. Gives back the value it had.
    pub fn set_scalar(&mut self, name: String, value: String) -> (r: Option<String>)
        ensures
            final(self)@ == (InterpView {
                scalars: names::assigned(old(self)@.scalars, name@, value@),
                ..old(self)@
            }),
            names::visible(old(self)@.scalars, name@) == match r {
                Some(v) => Some(v@),
                None => None,
            },
            final(self)@.has_global(),
            names::visible(final(self)@.scalars, name@) == Some(value@),
    {
        proof {
            use_type_invariant(&self.scalars);
            use_type_invariant(&self.arrays);
        }
        self.scalars.set(name, value)
    }

    /// Assigns an array in the scope that owns it, or else in the innermost
    /// one. Gives back the elements it had.
    pub fn set_array(&mut self, name: String, value: Vec<String>) -> (r: Option<Vec<String>>)
        ensures
            final(self)@ == (InterpView {
                arrays: names::assigned(old(self)@.arrays, name@, text::texts(value@)),
                ..old(self)@
            }),
            names::visible(old(self)@.arrays, name@) == match r {
                Some(v) => Some(text::texts(v@)),
                None => None,
            },
            final(self)@.has_global(),
            names::visible(final(self)@.arrays, name@) == Some(text::texts(value@)),
    {
        proof {
            use_type_invariant(&self.scalars);
            use_type_invariant(&self.arrays);
        }
        proof {
            text::lemma_texts_deep(value);
        }
        let r = self.arrays.set(name, value);
        proof {
            if r is Some {
                text::lemma_texts_deep(r->0);
            }
        }
        r
    }

    /// Defines a scalar in the innermost scope, hiding an outer one.
    pub fn define_local_scalar(&mut self, name: String, value: String)
        ensures
            final(self)@ == (InterpView {
                scalars: names::shadowed(old(self)@.scalars, name@, value@),
                ..old(self)@
            }),
            final(self)@.has_global(),
            names::visible(final(self)@.scalars, name@) == Some(value@),
    {
        proof {
            use_type_invariant(&self.scalars);
            use_type_invariant(&self.arrays);
        }
        self.scalars.define_local(name, value);
    }

    /// Defines an array in the innermost scope, hiding an outer one.
    pub fn define_local_array(&mut self, name: String, value: Vec<String>)
        ensures
            final(self)@ == (InterpView {
                arrays: names::shadowed(old(self)@.arrays, name@, text::texts(value@)),
                ..old(self)@
            }),
            final(self)@.has_global(),
            names::visible(final(self)@.arrays, name@) == Some(text::texts(value@)),
    {
        proof {
            use_type_invariant(&self.scalars);
            use_type_invariant(&self.arrays);
        }
        proof {
            text::lemma_texts_deep(value);
        }
        self.arrays.define_local(name, value);
    }

    /// Whether the previous statement succeeded.
    pub fn previous_status(&self) -> (r: bool)
        ensures
            r == self@.status,
    {
        self.previous_status
    }

    /// Records whether a statement succeeded.
    pub fn set_previous_status(&mut self, ok: bool)
        ensures
            final(self)@ == (InterpView { status: ok, ..old(self)@ }),
            final(self)@.has_global(),
    {
        proof {
            use_type_invariant(&self.scalars);
            use_type_invariant(&self.arrays);
        }
        self.previous_status = ok;
    }

    /// Notes that a command was not found.
    pub fn mark_command_not_found(&mut self)
        ensures
            final(self)@ == (InterpView { not_found: true, ..old(self)@ }),
            final(self)@.has_global(),
    {
        proof {
            use_type_invariant(&self.scalars);
            use_type_invariant(&self.arrays);
        }
        self.command_not_found = true;
    }

    /// Tells whether a command was not found since this was last asked.
    pub fn take_command_not_found(&mut self) -> (r: bool)
        ensures
            r == old(self)@.not_found,
            final(self)@ == (InterpView { not_found: false, ..old(self)@ }),
            final(self)@.has_global(),
    {
        proof {
            use_type_invariant(&self.scalars);
            use_type_invariant(&self.arrays);
        }
        let found = self.command_not_found;
        self.command_not_found = false;
        found
    }

    /// Starts a scope.
    pub fn push_scope(&mut self)
        ensures
            final(self)@ == (InterpView {
                scalars: old(self)@.scalars.push(Map::empty()),
                arrays: old(self)@.arrays.push(Map::empty()),
                ..old(self)@
            }),
            final(self)@.has_global(),
    {
        proof {
            use_type_invariant(&self.scalars);
            use_type_invariant(&self.arrays);
        }
        self.scalars.push();
        self.arrays.push();
    }

    /// Ends the innermost scope, with what it newly defined; the global scope
    /// stays.
    pub fn pop_scope(&mut self)
        ensures
            final(self)@ == (InterpView {
                scalars: if old(self)@.scalars.len() > 1 {
                    old(self)@.scalars.drop_last()
                } else {
                    old(self)@.scalars
                },
                arrays: if old(self)@.arrays.len() > 1 {
                    old(self)@.arrays.drop_last()
                } else {
                    old(self)@.arrays
                },
                ..old(self)@
            }),
            final(self)@.has_global(),
    {
        proof {
            use_type_invariant(&self.scalars);
            use_type_invariant(&self.arrays);
        }
        self.scalars.pop();
        self.arrays.pop();
    }

    /// Hides every scope but the global one and gives them back.
    pub fn isolate_global_scope(&mut self) -> (r: (Vec<Names<String>>, Vec<Names<Vec<String>>>))
        ensures
            final(self)@ == (InterpView {
                scalars: old(self)@.scalars.take(1),
                arrays: old(self)@.arrays.take(1),
                ..old(self)@
            }),
            names::frame_views(r.0@) == old(self)@.scalars.skip(1),
            names::frame_views(r.1@) == old(self)@.arrays.skip(1),
            final(self)@.has_global(),
    {
        proof {
            use_type_invariant(&self.scalars);
            use_type_invariant(&self.arrays);
        }
        let a = self.scalars.isolate();
        let b = self.arrays.isolate();
        (a, b)
    }

    /// Puts hidden scopes back.
    pub fn restore_scope(&mut self, saved: (Vec<Names<String>>, Vec<Names<Vec<String>>>))
        ensures
            final(self)@ == (InterpView {
                scalars: old(self)@.scalars + names::frame_views(saved.0@),
                arrays: old(self)@.arrays + names::frame_views(saved.1@),
                ..old(self)@
            }),
            final(self)@.has_global(),
    {
        proof {
            use_type_invariant(&self.scalars);
            use_type_invariant(&self.arrays);
        }
        self.scalars.restore(saved.0);
        self.arrays.restore(saved.1);
    }

    /// Expands a token into one string: several words are joined by spaces.
    pub fn scalar_from_token(&self, token: &Token, talk: &mut Talk) -> (r: String)
        ensures
            ({
                let (e, t) = expanded(self@.vars(), token@, old(talk)@);
                r@ == text::joined(e.words(), " "@) && final(talk)@ == t
            }),
    {
        let words = match self.expand_token(token, talk) {
            Expanded::One(s) => {
                let v: Vec<String> = vec![s];
                assert(text::texts(v@) =~= seq![s@]);
                v
            },
            Expanded::Many(v) => v,
        };
        join_texts(&words, " ")
    }

    /// Expands a token into an array: the elements of an array literal, or
    /// else the words of the token.
    pub fn array_from_token(&self, token: &Token, talk: &mut Talk) -> (r: Vec<String>)
        ensures
            (text::texts(r@), final(talk)@) == if token@.text.len() > 0 && token@.text[0] == '[' {
                literal_words(self@.vars(), token@.text, old(talk)@)
            } else {
                let (e, t) = expanded(self@.vars(), token@, old(talk)@);
                (e.words(), t)
            },
    {
        if starts(token.text.as_str(), '[') {
            let toks = Self::parse_array_literal(token.text.as_str());
            return self.expand_all(&toks, talk);
        }
        match self.expand_token(token, talk) {
            Expanded::One(s) => {
                let v: Vec<String> = vec![s];
                assert(text::texts(v@) =~= seq![s@]);
                v
            },
            Expanded::Many(v) => v,
        }
    }

    /// Defines a function, in place of one of the same name.
    pub fn define_function(&mut self, name: String, def: FunctionDef)
        ensures
            final(self)@ == (InterpView {
                functions: old(self)@.functions.insert(name@, def@),
                ..old(self)@
            }),
            final(self)@.has_global(),
    {
        proof {
            use_type_invariant(&self.scalars);
            use_type_invariant(&self.arrays);
        }
        let _old = self.functions.insert(name, def);
    }

    /// A copy of a function's definition.
    pub fn get_function(&self, name: &str) -> (r: Option<FunctionDef>)
        ensures
            match r {
                Some(def) => self@.functions.contains_key(name@) && def@ == self@.functions[name@],
                None => !self@.functions.contains_key(name@),
            },
    {
        match self.functions.get(name) {
            Some(def) => Some(def.copy()),
            None => None,
        }
    }

    /// The functions with their docstrings, in the order of their names.
    pub fn list_functions(&self) -> (r: Vec<(String, Option<String>)>)
        ensures
            text::strictly_sorted(listed_names(r@)),
            forall|x: Seq<char>| #[trigger]
                listed_names(r@).contains(x) <==> self@.functions.contains_key(x),
            forall|i: int|
                0 <= i < r@.len() ==> pieces::opt_view((#[trigger] r@[i]).1)
                    == self@.functions[r@[i].0@].doc,
    {
        let all = self.functions.names();
        let sorted = sort_function_names(&all);
        let ghost order = text::texts(sorted@);
        let mut out: Vec<(String, Option<String>)> = Vec::new();
        let mut i: usize = 0;
        while i < sorted.len()
            invariant
                i <= sorted@.len(),
                out@.len() == i,
                order == text::texts(sorted@),
                forall|x: Seq<char>| #[trigger] order.contains(x) <==> self@.functions.contains_key(x),
                forall|k: int| 0 <= k < i ==> (#[trigger] out@[k]).0@ == order[k],
                forall|k: int|
                    0 <= k < i ==> pieces::opt_view((#[trigger] out@[k]).1)
                        == self@.functions[out@[k].0@].doc,
            decreases sorted@.len() - i,
        {
            assert(order.contains(order[i as int]));
            let doc = match self.functions.get(sorted[i].as_str()) {
                Some(def) => match &def.doc {
                    Some(d) => Some(d.clone()),
                    None => None,
                },
                None => None,
            };
            out.push((sorted[i].clone(), doc));
            i = i + 1;
        }
        assert(listed_names(out@) =~= order);
        out
    }

    /// `drop NAME...`: takes each name from the scope that owns it, as a scalar
    /// and as an array.
    pub fn builtin_drop(&mut self, args: &[Token])
        ensures
            final(self)@ == dropped_names(old(self)@, token::token_views(args@), args@.len()),
            final(self)@.has_global(),
    {
        let ghost views = token::token_views(args@);
        let ghost start = self@;
        let mut i: usize = 0;
        while i < args.len()
            invariant
                i <= args@.len(),
                views == token::token_views(args@),
                self@ == dropped_names(start, views, i as nat),
            decreases args@.len() - i,
        {
            assert(views[i as int] == args@[i as int]@);
            let ghost before = self@;
            self.scalars.discard(args[i].text.as_str());
            self.arrays.discard(args[i].text.as_str());
            assert(self@ =~= dropped_name(before, views[i as int].text));
            i = i + 1;
        }
        proof {
            use_type_invariant(&self.scalars);
            use_type_invariant(&self.arrays);
        }
    }
}

fn sort_function_names(list: &Vec<String>) -> (r: Vec<String>)
    ensures
        text::strictly_sorted(text::texts(r@)),
        forall|x: Seq<char>| #[trigger]
            text::texts(r@).contains(x) <==> text::texts(list@).contains(x),
{
    proof {
        text::law_sorted_set(text::texts(list@));
    }
    text::sort_names(list)
}

/// The names of a list of functions.
pub open spec fn listed_names(list: Seq<(String, Option<String>)>) -> Seq<Seq<char>> {
    Seq::new(list.len(), |i: int| list[i].0@)
}

/// The interpreter without the variables of one name.
pub open spec fn dropped_name(st: InterpView, name: Seq<char>) -> InterpView {
    InterpView {
        scalars: names::dropped(st.scalars, name),
        arrays: names::dropped(st.arrays, name),
        ..st
    }
}

/// The interpreter after the first `n` names were dropped.
pub open spec fn dropped_names(st: InterpView, args: Seq<token::TokenView>, n: nat) -> InterpView
    decreases n,
{
    if n == 0 {
        st
    } else {
        dropped_name(dropped_names(st, args, (n - 1) as nat), args[n - 1].text)
    }
}

impl Default for Interpreter {
    fn default() -> (r: Interpreter)
        ensures
            r@ == (InterpView {
                scalars: seq![Map::empty()],
                arrays: seq![Map::empty()],
                functions: Map::empty(),
                status: true,
                not_found: false,
            }),
    {
        Interpreter::new()
    }
}

// ---------------------------------------------------------------------------
// Laws
// ---------------------------------------------------------------------------

/// Single quotes suppress every expansion.
pub proof fn law_single_quotes_suppress(v: VarsView, s: Seq<char>, t: TalkView)
    ensures
        expanded(v, token::TokenView { text: s, quoting: Quoting::Single }, t) == (
            ExpandedView::One(s),
            t,
        ),
{
}

/// A word without a sigil stays as it is.
pub proof fn law_plain_word_is_itself(v: VarsView, s: Seq<char>, t: TalkView)
    requires
        forall|i: int| 0 <= i < s.len() ==> #[trigger] s[i] != '$' && s[i] != '@',
    ensures
        interpolated(v, s, t) == (s, t),
{
    pieces::law_no_sigil_is_literal(s, 0);
    lemma_literal_pieces(v, s, s.len(), t);
    assert(s.take(s.len() as int) =~= s);
}

proof fn lemma_literal_pieces(v: VarsView, s: Seq<char>, n: nat, t: TalkView)
    requires
        n <= s.len(),
        pieces::pieces_from(s, 0).len() == s.len(),
        forall|k: int|
            0 <= k < s.len() ==> #[trigger] pieces::pieces_from(s, 0)[k]
                == pieces::PieceView::Literal(s[k]),
    ensures
        pieces_text(v, pieces::pieces_from(s, 0), n, s.len(), t) == (s.take(n as int), t),
    decreases n,
{
    if n > 0 {
        lemma_literal_pieces(v, s, (n - 1) as nat, t);
        let p = pieces::pieces_from(s, 0)[n - 1];
        assert(p == pieces::PieceView::Literal(s[n - 1]));
        reveal_with_fuel(pieces_text, 2);
        assert(piece_text(v, p, s.len(), t) == (seq![s[n - 1]], t));
        assert(s.take(n as int) =~= s.take(n - 1) + seq![s[n - 1]]);
    } else {
        assert(s.take(0) =~= Seq::<char>::empty());
    }
}

/// `let NAME = VALUE` with a plain bare value is read back by `$NAME`.
pub proof fn law_let_is_read_back(st: InterpView, name: Seq<char>, value: Seq<char>, t: TalkView)
    requires
        st.has_global(),
        !is_assignment(name),
        forall|i: int|
            0 <= i < value.len() ==> #[trigger] value[i] != '$' && value[i] != '@' && value[i]
                != '{' && value[i] != '}',
        value.len() > 0 ==> value[0] != '[',
    ensures
        ({
            let word = |s: Seq<char>| token::TokenView { text: s, quoting: Quoting::Bare };
            let (after, t1) = let_done(st, seq![word(name), word("="@), word(value)], t);
            names::visible(after.scalars, name) == Some(value) && t1 == t
        }),
{
    let word = |s: Seq<char>| token::TokenView { text: s, quoting: Quoting::Bare };
    let args = seq![word(name), word("="@), word(value)];
    assert(args[0].text == name);
    assert(args[1].text == "="@);
    assert(assignment_place(args, 1) == Some(1int));
    assert(assignment_place(args, 0) == Some(1int));
    let rhs = args.skip(2);
    assert(rhs.len() == 1);
    assert(rhs[0] == word(value));
    ranges::law_no_brace_no_expansion(value);
    law_plain_word_is_itself(st.vars(), value, t);
    let (e, t1) = expanded(st.vars(), rhs[0], t);
    assert(e == ExpandedView::One(value));
    assert(all_expanded(st.vars(), rhs, 0, t) == (Seq::<Seq<char>>::empty(), t));
    let (words, t2) = all_expanded(st.vars(), rhs, 1, t);
    assert(words =~= seq![value]);
    assert(text::joined(words, " "@) == value);
    names::law_assignment_is_read_back(st.scalars, name, value, name.push('x'));
}

/// A compound assignment of two integers gives their sum, difference or
/// product, or their quotient without its fraction, where that fits, and says
/// that it does not where it does not; nothing is asked.
pub proof fn law_compound_integers(a: i64, b: i64, t: TalkView)
    ensures
        ({
            let (x, y) = (text::int_text(a as int), text::int_text(b as int));
            let fits = |n: int| i64::MIN <= n <= i64::MAX;
            let gives = |op: Seq<char>, n: int|
                compound(x, op, y, t) == (
                    if fits(n) {
                        Ok::<Seq<char>, Seq<char>>(text::int_text(n))
                    } else {
                        Err("integer overflow"@)
                    },
                    t,
                );
            &&& gives("+="@, a + b)
            &&& gives("-="@, a - b)
            &&& gives("*="@, a * b)
            &&& b != 0 ==> gives("//="@, a as int / b as int)
            &&& b == 0 ==> compound(x, "//="@, y, t) == (
                Err::<Seq<char>, Seq<char>>("division by zero"@),
                t,
            )
        }),
{
    lemma_operators_differ();
    text::law_int_text_reads_back(a as int);
    text::law_int_text_reads_back(b as int);
}

proof fn lemma_operators_differ()
    ensures
        float_op_of("+="@) == Some(dialog::FloatOp::Add),
        float_op_of("-="@) == Some(dialog::FloatOp::Subtract),
        float_op_of("*="@) == Some(dialog::FloatOp::Multiply),
        float_op_of("//="@) == Some(dialog::FloatOp::FloorDivide),
        float_op_of("/="@) == Some(dialog::FloatOp::Divide),
        float_op_of("**="@) == Some(dialog::FloatOp::Power),
{
    reveal_strlit("+=");
    reveal_strlit("-=");
    reveal_strlit("*=");
    reveal_strlit("//=");
    reveal_strlit("/=");
    reveal_strlit("**=");
    assert("+="@[0] == '+' && "-="@[0] == '-' && "*="@[0] == '*' && "/="@[0] == '/');
    assert("+="@.len() == 2 && "-="@.len() == 2 && "*="@.len() == 2 && "/="@.len() == 2);
    assert("//="@.len() == 3 && "**="@.len() == 3);
    assert("//="@[0] == '/' && "**="@[0] == '*');
}

/// The floating-point operation that a compound assignment stands for.
pub open spec fn compound_operation(op: Seq<char>, f: dialog::FloatOp) -> bool {
    ||| op == "+="@ && f == dialog::FloatOp::Add
    ||| op == "-="@ && f == dialog::FloatOp::Subtract
    ||| op == "*="@ && f == dialog::FloatOp::Multiply
    ||| op == "/="@ && f == dialog::FloatOp::Divide
    ||| op == "//="@ && f == dialog::FloatOp::FloorDivide
    ||| op == "**="@ && f == dialog::FloatOp::Power
}

/// A compound assignment of anything but two integers, and always `/=` and
/// `**=`, reads both operands as floating-point numbers, asks for its own
/// operation on them, the variable's value first, and gives the answer as it
/// is shown. An operand that is no number is named in the error.
pub proof fn law_compound_asks_for_its_own(
    current: Seq<char>,
    op: Seq<char>,
    rhs: Seq<char>,
    f: dialog::FloatOp,
    t: TalkView,
)
    requires
        compound_operation(op, f),
        text::i64_of_text(current) is None || text::i64_of_text(rhs) is None || op == "/="@ || op
            == "**="@,
        t.pending is None,
        0 <= t.next,
        t.next + 4 <= t.answers.len(),
    ensures
        ({
            let (r, t2) = compound(current, op, rhs, t);
            let given = |k: int| t.answers[t.next + k];
            let asking = |c: dialog::FloatCallView| dialog::RequestView::Float(c);
            let first = asking(dialog::FloatCallView::Parse(current));
            let second = asking(dialog::FloatCallView::Parse(rhs));
            &&& given(0) is Number && given(1) is Number ==> {
                &&& r == Ok::<Seq<char>, Seq<char>>(given(3).as_text())
                &&& t2.made == t.made.push(first).push(second).push(
                    asking(
                        dialog::FloatCallView::Binary(f, given(0).as_number(), given(1).as_number()),
                    ),
                ).push(asking(dialog::FloatCallView::Show(given(2).as_number())))
            }
            &&& !(given(0) is Number) ==> r == Err::<Seq<char>, Seq<char>>(
                "'"@ + current + "' is not a number"@,
            ) && t2.made == t.made.push(first)
            &&& given(0) is Number && !(given(1) is Number) ==> r == Err::<Seq<char>, Seq<char>>(
                "'"@ + rhs + "' is not a number"@,
            ) && t2.made == t.made.push(first).push(second)
        }),
{
    lemma_operators_differ();
}

proof fn lemma_one_piece(v: VarsView, p: pieces::PieceView, limit: nat, t: TalkView)
    ensures
        pieces_text(v, seq![p], 1, limit, t) == piece_text(v, p, limit, t),
{
    let ps = seq![p];
    reveal_with_fuel(pieces_text, 2);
    assert(pieces_text(v, ps, 0, limit, t) == (Seq::<char>::empty(), t));
    let (more, t2) = piece_text(v, ps[0], limit, t);
    assert(Seq::<char>::empty() + more =~= more);
}

proof fn lemma_env_is_no_name(name: Seq<char>)
    requires
        is_plain_name(name),
    ensures
        !text::begins_with(name, env_prefix()),
{
    reveal_strlit("env::");
    let p = env_prefix();
    assert(p.len() == 5 && p[3] == ':');
    if text::begins_with(name, p) {
        assert(name[3] == name.take(5)[3]);
        assert(name.take(5) == p);
        assert(text::is_name_char(name[3]));
    }
}

/// `$name` becomes the value of the scalar, and `@name` inside a word the
/// elements of the array with spaces between; a name that no variable has
/// becomes nothing, with a warning.
pub proof fn law_references_become_values(v: VarsView, name: Seq<char>, t: TalkView)
    requires
        is_plain_name(name),
    ensures
        names::visible(v.scalars, name) matches Some(value) ==> interpolated(
            v,
            seq!['$'] + name,
            t,
        ) == (value, t),
        names::visible(v.scalars, name) is None ==> interpolated(v, seq!['$'] + name, t) == (
            Seq::<char>::empty(),
            dialog::warned(t, no_variable(name)),
        ),
        names::visible(v.arrays, name) matches Some(list) ==> interpolated(
            v,
            seq!['@'] + name,
            t,
        ) == (text::joined(list, " "@), t),
        names::visible(v.arrays, name) is None ==> interpolated(v, seq!['@'] + name, t) == (
            Seq::<char>::empty(),
            dialog::warned(t, no_variable(name)),
        ),
{
    lemma_env_is_no_name(name);
    lemma_reference(v, '$', name, t);
    lemma_reference(v, '@', name, t);
}

proof fn lemma_reference(v: VarsView, c: char, name: Seq<char>, t: TalkView)
    requires
        is_plain_name(name),
        c == '$' || c == '@',
        !text::begins_with(name, env_prefix()),
    ensures
        interpolated(v, seq![c] + name, t) == name_text(v, c == '@', name, None, t),
{
    let s = seq![c] + name;
    let n = s.len() as int;
    assert forall|k: int| 0 < k < n implies text::is_name_char(#[trigger] s[k]) by {
        assert(s[k] == name[k - 1]);
    }
    pieces::law_references_are_read(s, 0, n);
    let p = pieces::PieceView::Name(c == '@', s.subrange(1, n), None);
    assert(s.subrange(1, n) =~= name);
    assert(pieces::pieces_from(s, n) =~= Seq::empty());
    assert(pieces::pieces_from(s, 0) =~= seq![p]);
    lemma_one_piece(v, p, s.len(), t);
}

/// A bare `@name` becomes the elements of the array, a word each.
pub proof fn law_arrays_become_words(v: VarsView, name: Seq<char>, t: TalkView)
    requires
        is_plain_name(name),
    ensures
        names::visible(v.arrays, name) matches Some(list) ==> expanded(
            v,
            token::TokenView { text: seq!['@'] + name, quoting: Quoting::Bare },
            t,
        ) == (ExpandedView::Many(list), t),
        names::visible(v.arrays, name) is None ==> expanded(
            v,
            token::TokenView { text: seq!['@'] + name, quoting: Quoting::Bare },
            t,
        ) == (
            ExpandedView::Many(Seq::empty()),
            dialog::warned(t, no_variable(name)),
        ),
{
    let s = seq!['@'] + name;
    assert(s.skip(1) =~= name);
    assert(text::is_name_char(name[name.len() - 1]));
    assert(name_and_slice(name) == (name, None::<Seq<char>>));
}

/// `$env::NAME` becomes what the environment is answered to hold.
pub proof fn law_environment_is_asked(v: VarsView, name: Seq<char>, limit: nat, t: TalkView)
    ensures
        ({
            let p = pieces::PieceView::Name(false, "env::"@ + name, None);
            let (a, t1) = dialog::asked(t, dialog::RequestView::Environment(name));
            piece_text(v, p, limit, t) == (a.as_text(), t1)
        }),
{
    let full = "env::"@ + name;
    assert(full.take("env::"@.len() as int) =~= "env::"@);
    assert(full.skip("env::"@.len() as int) =~= name);
    assert(text::begins_with(full, env_prefix()));
}

/// An expansion goes on piece by piece: what is behind a reference does not
/// change what it becomes, and comes behind it.
pub proof fn law_pieces_follow_each_other(
    v: VarsView,
    ps: Seq<pieces::PieceView>,
    p: pieces::PieceView,
    limit: nat,
    t: TalkView,
)
    ensures
        ({
            let (before, t1) = pieces_text(v, ps, ps.len(), limit, t);
            let (more, t2) = piece_text(v, p, limit, t1);
            pieces_text(v, ps.push(p), ps.len() + 1, limit, t) == (before + more, t2)
        }),
{
    lemma_same_pieces(v, ps, p, ps.len(), limit, t);
}

proof fn lemma_same_pieces(
    v: VarsView,
    ps: Seq<pieces::PieceView>,
    p: pieces::PieceView,
    n: nat,
    limit: nat,
    t: TalkView,
)
    requires
        n <= ps.len(),
    ensures
        pieces_text(v, ps.push(p), n, limit, t) == pieces_text(v, ps, n, limit, t),
    decreases n,
{
    if n > 0 {
        lemma_same_pieces(v, ps, p, (n - 1) as nat, limit, t);
        assert(ps.push(p)[n - 1] == ps[n - 1]);
    }
}

/// Arithmetic becomes the value as it is shown, and nothing, with a warning,
/// where it fails.
pub proof fn law_arithmetic_becomes_its_value(v: VarsView, n: i64, limit: nat, t: TalkView)
    requires
        0 <= n,
    ensures
        piece_text(v, pieces::PieceView::Arith(text::int_text(n as int)), limit, t) == (
            text::int_text(n as int),
            t,
        ),
        piece_text(v, pieces::PieceView::Arith(Seq::empty()), limit, t).0 == Seq::<char>::empty(),
{
    arith::law_numeral_is_its_value(v.scalars, n as int, t);
}

/// A command of a process expansion: `echo` gives its words with spaces
/// between and asks nothing; without a word there is an error.
pub proof fn law_echo_gives_its_words(words: Seq<Seq<char>>, t: TalkView)
    ensures
        command_output(seq!["echo"@] + words, t) == (
            Ok::<Seq<char>, Seq<char>>(text::joined(words, " "@)),
            t,
        ),
        command_output(Seq::empty(), t).0 is Err && command_output(Seq::empty(), t).1 == t,
{
    let all = seq!["echo"@] + words;
    assert(all[0] == "echo"@);
    assert(all.skip(1) =~= words);
}

/// `let NAME OP VALUE` leaves in the variable what the operator gives for its
/// value and the word, and changes no other variable; where that fails,
/// nothing changes.
pub proof fn law_let_applies_an_operator(
    st: InterpView,
    name: Seq<char>,
    op: Seq<char>,
    value: Seq<char>,
    other: Seq<char>,
    t: TalkView,
)
    requires
        st.has_global(),
        !is_assignment(name),
        other != name,
        op == "+="@ || op == "-="@ || op == "*="@ || op == "/="@ || op == "//="@ || op == "**="@,
    ensures
        ({
            let args = seq![
                token::TokenView { text: name, quoting: Quoting::Bare },
                token::TokenView { text: op, quoting: Quoting::Bare },
                token::TokenView { text: value, quoting: Quoting::Single },
            ];
            let (after, t2) = let_done(st, args, t);
            let current = match names::visible(st.scalars, name) {
                Some(s) => s,
                None => Seq::empty(),
            };
            let (r, t1) = compound(current, op, value, t);
            &&& r matches Ok(v) ==> names::visible(after.scalars, name) == Some(v) && t2 == t1
            &&& r is Err ==> after == st
            &&& names::visible(after.scalars, other) == names::visible(st.scalars, other)
            &&& after.arrays == st.arrays
        }),
{
    lemma_operators_differ();
    reveal_strlit("=");
    assert("="@.len() == 1);
    let args = seq![
        token::TokenView { text: name, quoting: Quoting::Bare },
        token::TokenView { text: op, quoting: Quoting::Bare },
        token::TokenView { text: value, quoting: Quoting::Single },
    ];
    assert(op.len() > 1) by {
        reveal_strlit("+=");
        reveal_strlit("-=");
        reveal_strlit("*=");
        reveal_strlit("/=");
        reveal_strlit("//=");
        reveal_strlit("**=");
    }
    assert(args[0].text == name && args[1].text == op);
    assert(assignment_place(args, 1) == Some(1int));
    assert(assignment_place(args, 0) == Some(1int));
    let rhs = args.skip(2);
    assert(rhs.len() == 1 && rhs[0].text == value && rhs[0].quoting == Quoting::Single);
    lemma_one_word(st.vars(), rhs, value, t);
    let current = match names::visible(st.scalars, name) {
        Some(s) => s,
        None => Seq::empty(),
    };
    match compound(current, op, value, t).0 {
        Ok(v) => names::law_assignment_is_read_back(st.scalars, name, v, other),
        Err(e) => {},
    }
}

proof fn lemma_one_word(v: VarsView, rhs: Seq<token::TokenView>, value: Seq<char>, t: TalkView)
    requires
        rhs.len() == 1,
        rhs[0].text == value,
        rhs[0].quoting == Quoting::Single,
    ensures
        all_expanded(v, rhs, 1, t) == (seq![value], t),
        text::joined(seq![value], " "@) == value,
{
    assert(all_expanded(v, rhs, 0, t) == (Seq::<Seq<char>>::empty(), t));
    assert(expanded(v, rhs[0], t) == (ExpandedView::One(value), t));
    assert(Seq::<Seq<char>>::empty() + seq![value] =~= seq![value]);
}

/// `export NAME = VALUE` assigns as `let` does and gives the name and the
/// value for the environment.
pub proof fn law_export_hands_the_value_on(
    st: InterpView,
    name: Seq<char>,
    value: Seq<char>,
    t: TalkView,
)
    requires
        st.has_global(),
        !is_assignment(name),
        value.len() > 0 ==> value[0] != '[',
    ensures
        ({
            let args = seq![
                token::TokenView { text: name, quoting: Quoting::Bare },
                token::TokenView { text: "="@, quoting: Quoting::Bare },
                token::TokenView { text: value, quoting: Quoting::Single },
            ];
            let (after, sent, t2) = export_done(st, args, t);
            sent == Some((name, value)) && names::visible(after.scalars, name) == Some(value) && t2
                == t
        }),
{
    let args = seq![
        token::TokenView { text: name, quoting: Quoting::Bare },
        token::TokenView { text: "="@, quoting: Quoting::Bare },
        token::TokenView { text: value, quoting: Quoting::Single },
    ];
    assert(args[0].text == name && args[1].text == "="@);
    assert(assignment_place(args, 1) == Some(1int));
    assert(assignment_place(args, 0) == Some(1int));
    let rhs = args.skip(2);
    assert(rhs.len() == 1 && rhs[0].text == value && rhs[0].quoting == Quoting::Single);
    lemma_one_word(st.vars(), rhs, value, t);
    names::law_assignment_is_read_back(st.scalars, name, value, name.push('x'));
}

/// `drop` takes a name as a scalar and as an array, and leaves every other
/// name.
pub proof fn law_dropped_names_are_gone(
    st: InterpView,
    tok: token::TokenView,
    other: Seq<char>,
)
    requires
        st.scalars.len() == 1,
        st.arrays.len() == 1,
        other != tok.text,
    ensures
        ({
            let after = dropped_names(st, seq![tok], 1);
            &&& names::visible(after.scalars, tok.text) is None
            &&& names::visible(after.arrays, tok.text) is None
            &&& names::visible(after.scalars, other) == names::visible(st.scalars, other)
            &&& names::visible(after.arrays, other) == names::visible(st.arrays, other)
            &&& after.functions == st.functions
            &&& after.status == st.status
        }),
{
    assert(dropped_names(st, seq![tok], 0) == st);
    let name = tok.text;
    assert(st.scalars.take(0) =~= Seq::empty());
    assert(st.arrays.take(0) =~= Seq::empty());
    if st.scalars[0].contains_key(name) {
        names::law_dropping_uncovers(st.scalars, name, 0, other);
    } else {
        names::law_innermost_frame_counts(st.scalars, name, 0);
    }
    if st.arrays[0].contains_key(name) {
        names::law_dropping_uncovers(st.arrays, name, 0, other);
    } else {
        names::law_innermost_frame_counts(st.arrays, name, 0);
    }
}

} // verus!
