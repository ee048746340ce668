//! Cutting a word into literal characters and references.

use crate::text;
use crate::text::{chars_of, sub_chars, text_of};
use crate::token;
use crate::token::{find_close, find_name_end, find_next, is_at, step_after};
use vstd::prelude::*;

verus! {

/// A part of a word: a character that stands for itself, or a reference. The
/// sigil of a reference is `$`, or `@` when `array` holds.
pub enum Piece {
    Literal(char),
    /// `$((expr))`
    Arith(String),
    /// `$name(args)` or `@name(args)`
    Method(bool, String, String),
    /// `$(command)` or `@(command)`, with the slice behind it
    Process(bool, String, Option<String>),
    /// `$name`, `${name}`, `@name` or `@{name}`, with the slice behind it
    Name(bool, String, Option<String>),
}

/// What a piece is.
pub enum PieceView {
    Literal(char),
    Arith(Seq<char>),
    Method(bool, Seq<char>, Seq<char>),
    Process(bool, Seq<char>, Option<Seq<char>>),
    Name(bool, Seq<char>, Option<Seq<char>>),
}

/// The contents of a string that may be absent.
pub open spec fn opt_view(s: Option<String>) -> Option<Seq<char>> {
    match s {
        Some(t) => Some(t@),
        None => None,
    }
}

impl View for Piece {
    type V = PieceView;

    open spec fn view(&self) -> PieceView {
        match self {
            Piece::Literal(c) => PieceView::Literal(*c),
            Piece::Arith(e) => PieceView::Arith(e@),
            Piece::Method(a, n, i) => PieceView::Method(*a, n@, i@),
            Piece::Process(a, i, s) => PieceView::Process(*a, i@, opt_view(*s)),
            Piece::Name(a, n, s) => PieceView::Name(*a, n@, opt_view(*s)),
        }
    }
}

/// What the pieces of a list are.
pub open spec fn piece_views(list: Seq<Piece>) -> Seq<PieceView> {
    Seq::new(list.len(), |i: int| list[i]@)
}

/// The place of the `)` that ends an arithmetic expression, from `i` on,
/// inside `depth` open parentheses; the end of the text when there is none.
pub open spec fn arith_close(s: Seq<char>, i: int, depth: int) -> int
    decreases s.len() - i,
{
    if i < 0 || i >= s.len() {
        s.len() as int
    } else if s[i] == '(' {
        arith_close(s, i + 1, depth + 1)
    } else if s[i] == ')' {
        if depth > 0 {
            arith_close(s, i + 1, depth - 1)
        } else {
            i
        }
    } else {
        arith_close(s, i + 1, depth)
    }
}

/// The slice that stands at `i`, and the place after it.
pub open spec fn slice_at(s: Seq<char>, i: int) -> (Option<Seq<char>>, int) {
    if token::stands(s, i, '[') {
        let e = token::close_at(s, i + 1, 1, '[', ']');
        (Some(s.subrange(i + 1, e)), token::after(s, e))
    } else {
        (None, i)
    }
}

/// The piece that starts at `i`, and the place after it.
pub open spec fn piece_at(s: Seq<char>, i: int) -> (PieceView, int) {
    let array = s[i] == '@';
    let n = token::name_end(s, i + 1);
    if s[i] != '$' && s[i] != '@' {
        (PieceView::Literal(s[i]), i + 1)
    } else if !array && token::stands(s, i + 1, '(') && token::stands(s, i + 2, '(') {
        let e = arith_close(s, i + 3, 0);
        let next = token::after(s, e);
        (
            PieceView::Arith(s.subrange(i + 3, e)),
            if token::stands(s, e, ')') && token::stands(s, e + 1, ')') {
                e + 2
            } else {
                next
            },
        )
    } else if n > i + 1 && token::stands(s, n, '(') {
        let e = token::close_at(s, n + 1, 1, '(', ')');
        (
            PieceView::Method(array, s.subrange(i + 1, n), s.subrange(n + 1, e)),
            token::after(s, e),
        )
    } else if token::stands(s, i + 1, '(') {
        let e = token::close_at(s, i + 2, 1, '(', ')');
        let (slice, next) = slice_at(s, token::after(s, e));
        (PieceView::Process(array, s.subrange(i + 2, e), slice), next)
    } else if token::stands(s, i + 1, '{') {
        let e = token::next_place(s, '}', i + 2);
        let (slice, next) = slice_at(s, token::after(s, e));
        (PieceView::Name(array, s.subrange(i + 2, e), slice), next)
    } else {
        let (slice, next) = slice_at(s, n);
        (PieceView::Name(array, s.subrange(i + 1, n), slice), next)
    }
}

/// The pieces of `s` from `i` on.
pub open spec fn pieces_from(s: Seq<char>, i: int) -> Seq<PieceView>
    decreases s.len() - i,
    when 0 <= i <= s.len()
    via pieces_from_decreases
{
    if i >= s.len() {
        Seq::empty()
    } else {
        let (p, next) = piece_at(s, i);
        seq![p] + pieces_from(s, next)
    }
}

#[via_fn]
proof fn pieces_from_decreases(s: Seq<char>, i: int) {
    if i < s.len() {
        lemma_piece_at(s, i);
    }
}

proof fn lemma_arith_close(s: Seq<char>, i: int, depth: int)
    requires
        0 <= i <= s.len(),
    ensures
        i <= arith_close(s, i, depth) <= s.len(),
    decreases s.len() - i,
{
    if i < s.len() {
        if s[i] == '(' {
            lemma_arith_close(s, i + 1, depth + 1);
        } else if s[i] == ')' {
            if depth > 0 {
                lemma_arith_close(s, i + 1, depth - 1);
            }
        } else {
            lemma_arith_close(s, i + 1, depth);
        }
    }
}

proof fn lemma_slice_at(s: Seq<char>, i: int)
    requires
        0 <= i <= s.len(),
    ensures
        i <= slice_at(s, i).1 <= s.len(),
{
    if token::stands(s, i, '[') {
        token::lemma_close_at(s, i + 1, 1, '[', ']');
    }
}

/// Whether what a piece holds is shorter than `n`.
pub open spec fn piece_shorter(p: PieceView, n: int) -> bool {
    match p {
        PieceView::Literal(_) => true,
        PieceView::Arith(e) => e.len() < n,
        PieceView::Method(_, name, inner) => inner.len() < n,
        PieceView::Process(_, inner, _) => inner.len() < n,
        PieceView::Name(_, name, _) => name.len() < n,
    }
}

/// A piece takes at least one character, and what it holds is shorter than the
/// text.
proof fn lemma_piece_at(s: Seq<char>, i: int)
    requires
        0 <= i < s.len(),
    ensures
        i < piece_at(s, i).1 <= s.len(),
        piece_shorter(piece_at(s, i).0, s.len() as int),
{
    let array = s[i] == '@';
    token::lemma_name_end(s, i + 1);
    let n = token::name_end(s, i + 1);
    if s[i] != '$' && s[i] != '@' {
    } else if !array && token::stands(s, i + 1, '(') && token::stands(s, i + 2, '(') {
        lemma_arith_close(s, i + 3, 0);
    } else if n > i + 1 && token::stands(s, n, '(') {
        token::lemma_close_at(s, n + 1, 1, '(', ')');
    } else if token::stands(s, i + 1, '(') {
        token::lemma_close_at(s, i + 2, 1, '(', ')');
        lemma_slice_at(s, token::after(s, token::close_at(s, i + 2, 1, '(', ')')));
    } else if token::stands(s, i + 1, '{') {
        token::lemma_next_place(s, '}', i + 2);
        lemma_slice_at(s, token::after(s, token::next_place(s, '}', i + 2)));
    } else {
        lemma_slice_at(s, n);
    }
}

fn find_arith_close(s: &[char], from: usize) -> (r: usize)
    requires
        from <= s@.len(),
    ensures
        r == arith_close(s@, from as int, 0),
        from <= r <= s@.len(),
{
    let mut i: usize = from;
    let mut depth: u128 = 0;
    while i < s.len()
        invariant
            from <= i <= s.len(),
            0 <= depth <= i - from,
            arith_close(s@, from as int, 0) == arith_close(s@, i as int, depth as int),
        decreases s@.len() - i,
    {
        if s[i] == '(' {
            depth = depth + 1;
        } else if s[i] == ')' {
            if depth == 0 {
                return i;
            }
            depth = depth - 1;
        }
        i = i + 1;
    }
    i
}

fn part(s: &[char], from: usize, to: usize) -> (r: String)
    requires
        from <= to <= s@.len(),
    ensures
        r@ == s@.subrange(from as int, to as int),
{
    let v = sub_chars(s, from, to);
    text_of(&v)
}

/// Reads the slice that stands at `i`.
fn read_slice(s: &[char], i: usize) -> (r: (Option<String>, usize))
    requires
        i <= s@.len(),
    ensures
        (opt_view(r.0), r.1 as int) == slice_at(s@, i as int),
        i <= r.1 <= s@.len(),
{
    if is_at(s, i, '[') {
        let e = find_close(s, i + 1, '[', ']');
        (Some(part(s, i + 1, e)), step_after(s, e))
    } else {
        (None, i)
    }
}

fn read_piece(s: &[char], i: usize) -> (r: (Piece, usize))
    requires
        i < s@.len(),
    ensures
        (r.0@, r.1 as int) == piece_at(s@, i as int),
        i < r.1 <= s@.len(),
        piece_shorter(r.0@, s@.len() as int),
{
    proof {
        lemma_piece_at(s@, i as int);
    }
    let c: char = s[i];
    if c != '$' && c != '@' {
        return (Piece::Literal(c), i + 1);
    }
    let array = c == '@';
    if !array && is_at(s, i + 1, '(') && is_at(s, i + 2, '(') {
        let e = find_arith_close(s, i + 3);
        let expr = part(s, i + 3, e);
        let next: usize = if is_at(s, e, ')') && is_at(s, e + 1, ')') {
            e + 2
        } else {
            step_after(s, e)
        };
        return (Piece::Arith(expr), next);
    }
    let n = find_name_end(s, i + 1);
    if n > i + 1 && is_at(s, n, '(') {
        let e = find_close(s, n + 1, '(', ')');
        let name = part(s, i + 1, n);
        let inner = part(s, n + 1, e);
        return (Piece::Method(array, name, inner), step_after(s, e));
    }
    if is_at(s, i + 1, '(') {
        let e = find_close(s, i + 2, '(', ')');
        let inner = part(s, i + 2, e);
        let at = step_after(s, e);
        let (slice, next) = read_slice(s, at);
        return (Piece::Process(array, inner, slice), next);
    }
    if is_at(s, i + 1, '{') {
        let e = find_next(s, '}', i + 2);
        let name = part(s, i + 2, e);
        let at = step_after(s, e);
        let (slice, next) = read_slice(s, at);
        return (Piece::Name(array, name, slice), next);
    }
    let name = part(s, i + 1, n);
    let (slice, next) = read_slice(s, n);
    (Piece::Name(array, name, slice), next)
}

/// Cuts a word into pieces.
pub fn read_pieces(word: &str) -> (r: Vec<Piece>)
    ensures
        piece_views(r@) == pieces_from(word@, 0),
        forall|k: int| 0 <= k < r@.len() ==> piece_shorter(#[trigger] r@[k]@, word@.len() as int),
{
    let s = chars_of(word);
    let mut out: Vec<Piece> = Vec::new();
    let mut i: usize = 0;
    assert(piece_views(out@) + pieces_from(s@, 0) =~= pieces_from(s@, 0));
    while i < s.len()
        invariant
            i <= s@.len(),
            s@ == word@,
            pieces_from(s@, 0) == piece_views(out@) + pieces_from(s@, i as int),
            forall|k: int|
                0 <= k < out@.len() ==> piece_shorter(#[trigger] out@[k]@, s@.len() as int),
        decreases s@.len() - i,
    {
        let (p, next) = read_piece(&s, i);
        let ghost before = out@;
        out.push(p);
        proof {
            assert(piece_views(out@) =~= piece_views(before).push(p@));
            let rest = pieces_from(s@, next as int);
            assert(piece_views(before) + (seq![p@] + rest) =~= piece_views(before).push(p@) + rest);
            assert forall|k: int| 0 <= k < out@.len() implies piece_shorter(
                #[trigger] out@[k]@,
                s@.len() as int,
            ) by {
                if k < before.len() {
                    assert(out@[k] == before[k]);
                }
            }
        }
        i = next;
    }
    assert(piece_views(out@) + Seq::<PieceView>::empty() =~= piece_views(out@));
    out
}

/// A word without a sigil is made of its characters.
pub proof fn law_no_sigil_is_literal(s: Seq<char>, i: int)
    requires
        0 <= i <= s.len(),
        forall|k: int| i <= k < s.len() ==> #[trigger] s[k] != '$' && s[k] != '@',
    ensures
        pieces_from(s, i).len() == s.len() - i,
        forall|k: int|
            0 <= k < s.len() - i ==> #[trigger] pieces_from(s, i)[k] == PieceView::Literal(s[i + k]),
    decreases s.len() - i,
{
    if i < s.len() {
        law_no_sigil_is_literal(s, i + 1);
        let all = pieces_from(s, i);
        let rest = pieces_from(s, i + 1);
        assert(piece_at(s, i) == (PieceView::Literal(s[i]), i + 1));
        assert(all == seq![PieceView::Literal(s[i])] + rest);
        assert forall|k: int| 0 <= k < s.len() - i implies #[trigger] all[k] == PieceView::Literal(
            s[i + k],
        ) by {
            if k > 0 {
                assert(all[k] == rest[k - 1]);
            }
        }
    }
}

/// `$name` and `@name` refer to what is named, as far as the name goes.
pub proof fn law_references_are_read(s: Seq<char>, i: int, n: int)
    requires
        0 <= i < n <= s.len(),
        s[i] == '$' || s[i] == '@',
        forall|k: int| i < k < n ==> text::is_name_char(#[trigger] s[k]),
        n < s.len() ==> !text::is_name_char(s[n]) && s[n] != '(' && s[n] != '[' && (n > i + 1
            || s[n] != '{'),
    ensures
        pieces_from(s, i) == seq![
            PieceView::Name(s[i] == '@', s.subrange(i + 1, n), None),
        ] + pieces_from(s, n),
{
    token::lemma_name_is(s, i + 1, n);
    if n > i + 1 {
        assert(text::is_name_char(s[i + 1]));
    }
}

/// A slice behind a reference belongs to it.
pub proof fn law_slices_are_read(s: Seq<char>, i: int, n: int, e: int)
    requires
        0 <= i,
        i + 1 < n < e < s.len(),
        s[i] == '$' || s[i] == '@',
        forall|k: int| i < k < n ==> text::is_name_char(#[trigger] s[k]),
        s[n] == '[' && s[e] == ']',
        forall|k: int| n < k < e ==> #[trigger] s[k] != '[' && s[k] != ']',
    ensures
        pieces_from(s, i) == seq![
            PieceView::Name(s[i] == '@', s.subrange(i + 1, n), Some(s.subrange(n + 1, e))),
        ] + pieces_from(s, e + 1),
{
    assert(text::is_name_char(s[i + 1]));
    token::lemma_name_is(s, i + 1, n);
    token::lemma_closes(s, n + 1, e, '[', ']');
}

/// Braces bound the name of a reference: what is behind them is not part of
/// it.
pub proof fn law_braced_references_are_read(s: Seq<char>, i: int, e: int)
    requires
        0 <= i,
        i + 1 < e < s.len(),
        s[i] == '$' || s[i] == '@',
        s[i + 1] == '{' && s[e] == '}',
        forall|k: int| i + 1 < k < e ==> #[trigger] s[k] != '}',
        e + 1 < s.len() ==> s[e + 1] != '[',
    ensures
        pieces_from(s, i) == seq![
            PieceView::Name(s[i] == '@', s.subrange(i + 2, e), None),
        ] + pieces_from(s, e + 1),
{
    token::lemma_name_is(s, i + 1, i + 1);
    token::lemma_next_is(s, '}', i + 2, e);
}

/// `$((...))` holds an arithmetic expression.
pub proof fn law_arithmetic_is_read(s: Seq<char>, i: int, e: int)
    requires
        0 <= i,
        i + 2 < e,
        e + 1 < s.len(),
        s[i] == '$' && s[i + 1] == '(' && s[i + 2] == '(',
        forall|k: int| i + 2 < k < e ==> #[trigger] s[k] != '(' && s[k] != ')',
        s[e] == ')' && s[e + 1] == ')',
    ensures
        pieces_from(s, i) == seq![
            PieceView::Arith(s.subrange(i + 3, e)),
        ] + pieces_from(s, e + 2),
{
    lemma_arith_closes(s, i + 3, e);
}

proof fn lemma_arith_closes(s: Seq<char>, i: int, e: int)
    requires
        0 <= i <= e < s.len(),
        forall|k: int| i <= k < e ==> #[trigger] s[k] != '(' && s[k] != ')',
        s[e] == ')',
    ensures
        arith_close(s, i, 0) == e,
    decreases e - i,
{
    if i < e {
        assert(s[i] != '(' && s[i] != ')');
        lemma_arith_closes(s, i + 1, e);
    }
}

/// `$(...)` and `@(...)` hold a command.
pub proof fn law_process_expansion_is_read(s: Seq<char>, i: int, e: int)
    requires
        0 <= i,
        i + 2 < e < s.len(),
        s[i] == '$' || s[i] == '@',
        s[i + 1] == '(' && s[e] == ')',
        forall|k: int| i + 1 < k < e ==> #[trigger] s[k] != '(' && s[k] != ')',
        e + 1 < s.len() ==> s[e + 1] != '[',
    ensures
        pieces_from(s, i) == seq![
            PieceView::Process(s[i] == '@', s.subrange(i + 2, e), None),
        ] + pieces_from(s, e + 1),
{
    assert(s[i + 2] != '(');
    token::lemma_name_is(s, i + 1, i + 1);
    token::lemma_closes(s, i + 2, e, '(', ')');
}

/// `$name(...)` and `@name(...)` call a method with what stands between the
/// parentheses.
pub proof fn law_method_calls_are_read(s: Seq<char>, i: int, n: int, e: int)
    requires
        0 <= i,
        i + 1 < n < e < s.len(),
        s[i] == '$' || s[i] == '@',
        forall|k: int| i < k < n ==> text::is_name_char(#[trigger] s[k]),
        s[n] == '(' && s[e] == ')',
        forall|k: int| n < k < e ==> #[trigger] s[k] != '(' && s[k] != ')',
    ensures
        pieces_from(s, i) == seq![
            PieceView::Method(s[i] == '@', s.subrange(i + 1, n), s.subrange(n + 1, e)),
        ] + pieces_from(s, e + 1),
{
    assert(text::is_name_char(s[i + 1]));
    token::lemma_name_is(s, i + 1, n);
    token::lemma_closes(s, n + 1, e, '(', ')');
}

} // verus!
