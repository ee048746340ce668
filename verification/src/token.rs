//! Cutting a line into tokens.

use crate::text;
use crate::text::{chars_of, find_word_end, is_name, is_space, sub_chars, text_of};
use vstd::prelude::*;

verus! {

/// How a token was quoted.
#[derive(Clone, Copy, PartialEq, Eq, Debug, Structural)]
pub enum Quoting {
    /// A bare word: a token that is exactly `@name` becomes several words, and
    /// everything else is expanded in place.
    Bare,
    /// `'...'`: nothing is expanded.
    Single,
    /// `"..."`: references are expanded, and an array becomes one string.
    Double,
}

/// A token of a line.
#[derive(Clone, Debug, PartialEq)]
pub struct Token {
    pub text: String,
    pub quoting: Quoting,
}

/// What a token is.
#[verifier::ext_equal]
pub struct TokenView {
    pub text: Seq<char>,
    pub quoting: Quoting,
}

impl View for Token {
    type V = TokenView;

    open spec fn view(&self) -> TokenView {
        TokenView { text: self.text@, quoting: self.quoting }
    }
}

/// What the tokens of a list are.
pub open spec fn token_views(list: Seq<Token>) -> Seq<TokenView> {
    Seq::new(list.len(), |i: int| list[i]@)
}

impl vstd::std_specs::convert::FromSpecImpl<String> for Token {
    open spec fn obeys_from_spec() -> bool {
        true
    }

    open spec fn from_spec(text: String) -> Token {
        Token { text, quoting: Quoting::Bare }
    }
}

impl From<String> for Token {
    fn from(text: String) -> (r: Token) {
        Token { text, quoting: Quoting::Bare }
    }
}

impl vstd::std_specs::convert::FromSpecImpl<&str> for Token {
    open spec fn obeys_from_spec() -> bool {
        false
    }

    open spec fn from_spec(text: &str) -> Token {
        arbitrary()
    }
}

impl From<&str> for Token {
    fn from(text: &str) -> (r: Token)
        ensures
            r@ == (TokenView { text: text@, quoting: Quoting::Bare }),
    {
        Token { text: text.to_owned(), quoting: Quoting::Bare }
    }
}

impl Token {
    /// A copy of the token.
    pub fn copy(&self) -> (r: Token)
        ensures
            r@ == self@,
    {
        Token { text: self.text.clone(), quoting: self.quoting }
    }
}

/// The tokens of a list from index `from` on, copied.
pub fn tail_tokens(list: &[Token], from: usize) -> (r: Vec<Token>)
    requires
        from <= list@.len(),
    ensures
        token_views(r@) == token_views(list@).skip(from as int),
{
    let mut out: Vec<Token> = Vec::new();
    let ghost all = token_views(list@);
    let mut i: usize = from;
    while i < list.len()
        invariant
            from <= i <= list@.len(),
            all == token_views(list@),
            token_views(out@) == all.subrange(from as int, i as int),
        decreases list@.len() - i,
    {
        let ghost before = out@;
        let t = list[i].copy();
        out.push(t);
        proof {
            assert(token_views(out@) =~= token_views(before).push(t@));
            assert(all.subrange(from as int, i + 1) =~= all.subrange(from as int, i as int).push(t@));
        }
        i = i + 1;
    }
    assert(all.subrange(from as int, list@.len() as int) =~= all.skip(from as int));
    out
}

/// The place of the `close` that ends `depth` open brackets, from `i` on; the
/// end of the text when there is none.
pub open spec fn close_at(s: Seq<char>, i: int, depth: int, open: char, close: char) -> int
    decreases s.len() - i,
{
    if i < 0 || i >= s.len() {
        s.len() as int
    } else if s[i] == open {
        close_at(s, i + 1, depth + 1, open, close)
    } else if s[i] == close {
        if depth <= 1 {
            i
        } else {
            close_at(s, i + 1, depth - 1, open, close)
        }
    } else {
        close_at(s, i + 1, depth, open, close)
    }
}

/// The place after `i`, inside the text.
pub open spec fn after(s: Seq<char>, i: int) -> int {
    if i < s.len() {
        i + 1
    } else {
        s.len() as int
    }
}

/// The place of the first `c` at or after `i`, or the end.
pub open spec fn next_place(s: Seq<char>, c: char, i: int) -> int
    decreases s.len() - i,
{
    if i < 0 || i >= s.len() {
        s.len() as int
    } else if s[i] == c {
        i
    } else {
        next_place(s, c, i + 1)
    }
}

/// The place after the name characters at `i`.
pub open spec fn name_end(s: Seq<char>, i: int) -> int
    decreases s.len() - i,
{
    if 0 <= i < s.len() && text::is_name_char(s[i]) {
        name_end(s, i + 1)
    } else {
        i
    }
}

/// Whether `c` stands at `i`.
pub open spec fn stands(s: Seq<char>, i: int, c: char) -> bool {
    0 <= i < s.len() && s[i] == c
}

/// The place after the `))` that ends an arithmetic expansion, from `i` on,
/// inside `depth` open parentheses; the end of the text when there is none.
pub open spec fn arithmetic_end(s: Seq<char>, i: int, depth: int) -> int
    decreases s.len() - i,
{
    if i < 0 || i >= s.len() {
        s.len() as int
    } else if s[i] == '(' {
        arithmetic_end(s, i + 1, depth + 1)
    } else if s[i] == ')' {
        if depth > 0 {
            arithmetic_end(s, i + 1, depth - 1)
        } else if stands(s, i + 1, ')') {
            i + 2
        } else {
            arithmetic_end(s, i + 1, depth)
        }
    } else {
        arithmetic_end(s, i + 1, depth)
    }
}

/// The place after the `[...]` at `i`, if there is one.
pub open spec fn bracket_end(s: Seq<char>, i: int) -> int {
    if stands(s, i, '[') {
        after(s, close_at(s, i + 1, 1, '[', ']'))
    } else {
        i
    }
}

/// The place after a method call whose sigil stands at `i`.
pub open spec fn method_end(s: Seq<char>, i: int) -> Option<int> {
    let e = name_end(s, i + 1);
    if e > i + 1 && stands(s, e, '(') {
        Some(after(s, close_at(s, e + 1, 1, '(', ')')))
    } else {
        None
    }
}

/// The place after the unquoted token that starts at `i`: an array literal, an
/// arithmetic expansion, a process expansion or a method call with the slice
/// behind it, or else everything up to the next white space.
pub open spec fn token_end(s: Seq<char>, i: int) -> int {
    if stands(s, i, '[') {
        after(s, close_at(s, i + 1, 1, '[', ']'))
    } else if stands(s, i, '$') && stands(s, i + 1, '(') && stands(s, i + 2, '(') {
        bracket_end(s, arithmetic_end(s, i + 3, 0))
    } else if (stands(s, i, '$') || stands(s, i, '@')) && stands(s, i + 1, '(') {
        bracket_end(s, after(s, close_at(s, i + 2, 1, '(', ')')))
    } else if (stands(s, i, '$') || stands(s, i, '@')) && method_end(s, i) is Some {
        bracket_end(s, method_end(s, i)->0)
    } else {
        text::word_end(s, i)
    }
}

/// The tokens of `s` from `i` on. A `#` where a token would start makes the
/// rest a comment.
pub open spec fn tokens_from(s: Seq<char>, i: int) -> Seq<TokenView>
    decreases s.len() - i,
    when 0 <= i <= s.len()
    via tokens_from_decreases
{
    if i >= s.len() {
        Seq::empty()
    } else if text::is_space_char(s[i]) {
        tokens_from(s, i + 1)
    } else if s[i] == '#' {
        Seq::empty()
    } else if s[i] == '"' || s[i] == '\'' {
        let e = next_place(s, s[i], i + 1);
        seq![
            TokenView {
                text: s.subrange(i + 1, e),
                quoting: if s[i] == '"' {
                    Quoting::Double
                } else {
                    Quoting::Single
                },
            },
        ] + tokens_from(s, after(s, e))
    } else {
        let e = token_end(s, i);
        seq![TokenView { text: s.subrange(i, e), quoting: Quoting::Bare }] + tokens_from(s, e)
    }
}

#[via_fn]
proof fn tokens_from_decreases(s: Seq<char>, i: int) {
    if i < s.len() {
        lemma_next_place(s, s[i], i + 1);
        if !text::is_space_char(s[i]) {
            lemma_token_end(s, i);
        }
    }
}

pub(crate) proof fn lemma_next_place(s: Seq<char>, c: char, i: int)
    requires
        0 <= i <= s.len(),
    ensures
        i <= next_place(s, c, i) <= s.len(),
    decreases s.len() - i,
{
    if i < s.len() && s[i] != c {
        lemma_next_place(s, c, i + 1);
    }
}

pub(crate) proof fn lemma_close_at(s: Seq<char>, i: int, depth: int, open: char, close: char)
    requires
        0 <= i <= s.len(),
    ensures
        i <= close_at(s, i, depth, open, close) <= s.len(),
    decreases s.len() - i,
{
    if i < s.len() {
        if s[i] == open {
            lemma_close_at(s, i + 1, depth + 1, open, close);
        } else if s[i] == close {
            if depth > 1 {
                lemma_close_at(s, i + 1, depth - 1, open, close);
            }
        } else {
            lemma_close_at(s, i + 1, depth, open, close);
        }
    }
}

pub(crate) proof fn lemma_name_end(s: Seq<char>, i: int)
    requires
        0 <= i,
    ensures
        i <= name_end(s, i),
        i <= s.len() ==> name_end(s, i) <= s.len(),
    decreases s.len() - i,
{
    if i < s.len() && text::is_name_char(s[i]) {
        lemma_name_end(s, i + 1);
    }
}

proof fn lemma_arithmetic_end(s: Seq<char>, i: int, depth: int)
    requires
        0 <= i <= s.len(),
    ensures
        i <= arithmetic_end(s, i, depth) <= s.len(),
    decreases s.len() - i,
{
    if i < s.len() {
        if s[i] == '(' {
            lemma_arithmetic_end(s, i + 1, depth + 1);
        } else if s[i] == ')' {
            if depth > 0 {
                lemma_arithmetic_end(s, i + 1, depth - 1);
            } else if !stands(s, i + 1, ')') {
                lemma_arithmetic_end(s, i + 1, depth);
            }
        } else {
            lemma_arithmetic_end(s, i + 1, depth);
        }
    }
}

proof fn lemma_bracket_end(s: Seq<char>, i: int)
    requires
        0 <= i <= s.len(),
    ensures
        i <= bracket_end(s, i) <= s.len(),
{
    if stands(s, i, '[') {
        lemma_close_at(s, i + 1, 1, '[', ']');
    }
}

/// A token has at least one character and ends inside the line.
proof fn lemma_token_end(s: Seq<char>, i: int)
    requires
        0 <= i < s.len(),
        !text::is_space_char(s[i]),
    ensures
        i < token_end(s, i) <= s.len(),
{
    if stands(s, i, '[') {
        lemma_close_at(s, i + 1, 1, '[', ']');
    } else if stands(s, i, '$') && stands(s, i + 1, '(') && stands(s, i + 2, '(') {
        lemma_arithmetic_end(s, i + 3, 0);
        lemma_bracket_end(s, arithmetic_end(s, i + 3, 0));
    } else if (stands(s, i, '$') || stands(s, i, '@')) && stands(s, i + 1, '(') {
        lemma_close_at(s, i + 2, 1, '(', ')');
        lemma_bracket_end(s, after(s, close_at(s, i + 2, 1, '(', ')')));
    } else if (stands(s, i, '$') || stands(s, i, '@')) && method_end(s, i) is Some {
        lemma_name_end(s, i + 1);
        let e = name_end(s, i + 1);
        lemma_close_at(s, e + 1, 1, '(', ')');
        lemma_bracket_end(s, method_end(s, i)->0);
    } else {
        text::lemma_word_end(s, i);
    }
}

/// Finds the place that ends `depth` open brackets, or the end.
pub fn find_close(s: &[char], from: usize, open: char, close: char) -> (r: usize)
    requires
        from <= s@.len(),
    ensures
        r == close_at(s@, from as int, 1, open, close),
        from <= r <= s@.len(),
{
    let mut i: usize = from;
    let mut depth: u128 = 1;
    while i < s.len()
        invariant
            from <= i <= s.len(),
            1 <= depth <= 1 + (i - from),
            close_at(s@, from as int, 1, open, close) == close_at(
                s@,
                i as int,
                depth as int,
                open,
                close,
            ),
        decreases s@.len() - i,
    {
        if s[i] == open {
            depth = depth + 1;
        } else if s[i] == close {
            if depth <= 1 {
                return i;
            }
            depth = depth - 1;
        }
        i = i + 1;
    }
    i
}

/// The place after `i`, inside the text.
pub fn step_after(s: &[char], i: usize) -> (r: usize)
    requires
        i <= s@.len(),
    ensures
        r == after(s@, i as int),
        i <= r <= s@.len(),
{
    if i < s.len() {
        i + 1
    } else {
        i
    }
}

/// Finds the first `c` at or after `from`, or the end.
pub fn find_next(s: &[char], c: char, from: usize) -> (r: usize)
    requires
        from <= s@.len(),
    ensures
        r == next_place(s@, c, from as int),
        from <= r <= s@.len(),
{
    let mut i: usize = from;
    while i < s.len() && s[i] != c
        invariant
            from <= i <= s@.len(),
            next_place(s@, c, from as int) == next_place(s@, c, i as int),
        decreases s@.len() - i,
    {
        i = i + 1;
    }
    i
}

/// Finds the place after the name characters at `from`.
pub fn find_name_end(s: &[char], from: usize) -> (r: usize)
    requires
        from <= s@.len(),
    ensures
        r == name_end(s@, from as int),
        from <= r <= s@.len(),
{
    let mut i: usize = from;
    while i < s.len() && is_name(s[i])
        invariant
            from <= i <= s@.len(),
            name_end(s@, from as int) == name_end(s@, i as int),
        decreases s@.len() - i,
    {
        i = i + 1;
    }
    i
}

/// Tests whether `c` stands at `i`.
pub fn is_at(s: &[char], i: usize, c: char) -> (r: bool)
    ensures
        r == stands(s@, i as int, c),
        r ==> i < s.len(),
{
    i < s.len() && s[i] == c
}

fn find_arithmetic_end(s: &[char], from: usize) -> (r: usize)
    requires
        from <= s@.len(),
    ensures
        r == arithmetic_end(s@, from as int, 0),
        from <= r <= s@.len(),
{
    let mut i: usize = from;
    let mut depth: u128 = 0;
    while i < s.len()
        invariant
            from <= i <= s.len(),
            0 <= depth <= i - from,
            arithmetic_end(s@, from as int, 0) == arithmetic_end(s@, i as int, depth as int),
        decreases s@.len() - i,
    {
        if s[i] == '(' {
            depth = depth + 1;
        } else if s[i] == ')' {
            if depth > 0 {
                depth = depth - 1;
            } else if is_at(s, i + 1, ')') {
                return i + 2;
            }
        }
        i = i + 1;
    }
    i
}

fn find_bracket_end(s: &[char], from: usize) -> (r: usize)
    requires
        from <= s@.len(),
    ensures
        r == bracket_end(s@, from as int),
        from <= r <= s@.len(),
{
    if is_at(s, from, '[') {
        let c = find_close(s, from + 1, '[', ']');
        step_after(s, c)
    } else {
        from
    }
}

fn find_token_end(s: &[char], i: usize) -> (r: usize)
    requires
        i < s@.len(),
        !text::is_space_char(s@[i as int]),
    ensures
        r == token_end(s@, i as int),
        i < r <= s@.len(),
{
    proof {
        lemma_token_end(s@, i as int);
    }
    if s[i] == '[' {
        let c = find_close(s, i + 1, '[', ']');
        return step_after(s, c);
    }
    if s[i] == '$' || s[i] == '@' {
        if is_at(s, i + 1, '(') {
            if s[i] == '$' && is_at(s, i + 2, '(') {
                let e = find_arithmetic_end(s, i + 3);
                return find_bracket_end(s, e);
            }
            let c = find_close(s, i + 2, '(', ')');
            let e = step_after(s, c);
            return find_bracket_end(s, e);
        }
        let n = find_name_end(s, i + 1);
        if n > i + 1 && is_at(s, n, '(') {
            let c = find_close(s, n + 1, '(', ')');
            let e = step_after(s, c);
            return find_bracket_end(s, e);
        }
    }
    find_word_end(s, i)
}

/// Cuts a line into tokens. Quotes, array literals, arithmetic and process
/// expansions and method calls keep their inner white space; a comment is left
/// out.
pub fn tokenize(line: &str) -> (r: Vec<Token>)
    ensures
        token_views(r@) == tokens_from(line@, 0),
        forall|k: int| 0 <= k < r@.len() ==> #[trigger] r@[k]@.text.len() <= line@.len(),
{
    let s = chars_of(line);
    let mut out: Vec<Token> = Vec::new();
    let mut i: usize = 0;
    assert(token_views(out@) + tokens_from(s@, 0) =~= tokens_from(s@, 0));
    while i < s.len()
        invariant_except_break
            i <= s@.len(),
            s@ == line@,
            tokens_from(s@, 0) == token_views(out@) + tokens_from(s@, i as int),
            forall|k: int| 0 <= k < out@.len() ==> #[trigger] out@[k]@.text.len() <= s@.len(),
        ensures
            token_views(out@) == tokens_from(s@, 0),
            s@ == line@,
            forall|k: int| 0 <= k < out@.len() ==> #[trigger] out@[k]@.text.len() <= s@.len(),
        decreases s@.len() - i,
    {
        let c: char = s[i];
        if is_space(c) {
            i = i + 1;
            assert(i == s@.len() ==> tokens_from(s@, i as int) =~= Seq::<TokenView>::empty());
        } else if c == '#' {
            assert(token_views(out@) + Seq::<TokenView>::empty() =~= token_views(out@));
            break;
        } else {
            let ghost before = out@;
            let ghost start = i as int;
            let (word, quoting, next) = if c == '"' || c == '\'' {
                let e = find_next(&s, c, i + 1);
                let q = if c == '"' {
                    Quoting::Double
                } else {
                    Quoting::Single
                };
                (sub_chars(&s, i + 1, e), q, step_after(&s, e))
            } else {
                let e = find_token_end(&s, i);
                (sub_chars(&s, i, e), Quoting::Bare, e)
            };
            let t = Token { text: text_of(&word), quoting };
            out.push(t);
            proof {
                assert(token_views(out@) =~= token_views(before).push(t@));
                let rest = tokens_from(s@, next as int);
                assert(token_views(before) + (seq![t@] + rest) =~= token_views(before).push(t@)
                    + rest);
                assert forall|k: int| 0 <= k < out@.len() implies #[trigger] out@[k]@.text.len()
                    <= s@.len() by {
                    if k < before.len() {
                        assert(out@[k] == before[k]);
                    }
                }
            }
            i = next;
        }
        assert(i == s@.len() ==> token_views(out@) + tokens_from(s@, i as int) =~= token_views(
            out@,
        ));
    }
    out
}

/// Whether `t` is a run of characters of `s`.
pub open spec fn is_part(s: Seq<char>, t: Seq<char>) -> bool {
    exists|a: int, b: int| 0 <= a <= b <= s.len() && t == #[trigger] s.subrange(a, b)
}

/// Every token is a run of characters of the line.
pub proof fn law_tokens_are_parts_of_the_line(s: Seq<char>, i: int)
    requires
        0 <= i <= s.len(),
    ensures
        forall|k: int|
            0 <= k < tokens_from(s, i).len() ==> is_part(s, #[trigger] tokens_from(s, i)[k].text),
    decreases s.len() - i,
{
    if i < s.len() {
        if text::is_space_char(s[i]) {
            law_tokens_are_parts_of_the_line(s, i + 1);
            assert(tokens_from(s, i) == tokens_from(s, i + 1));
        } else if s[i] != '#' {
            let quoted = s[i] == '"' || s[i] == '\'';
            lemma_next_place(s, s[i], i + 1);
            lemma_token_end(s, i);
            let e = if quoted {
                next_place(s, s[i], i + 1)
            } else {
                token_end(s, i)
            };
            let next = if quoted {
                after(s, e)
            } else {
                e
            };
            law_tokens_are_parts_of_the_line(s, next);
            let all = tokens_from(s, i);
            let rest = tokens_from(s, next);
            let a = if quoted {
                i + 1
            } else {
                i
            };
            assert(all.len() == rest.len() + 1);
            assert forall|k: int| 0 <= k < all.len() implies is_part(s, #[trigger] all[k].text) by {
                if k == 0 {
                    assert(all[k].text == s.subrange(a, e));
                } else {
                    assert(all[k] == rest[k - 1]);
                }
            }
        }
    }
}

proof fn lemma_word_ends(s: Seq<char>, i: int, j: int)
    requires
        0 <= i <= j <= s.len(),
        forall|k: int| i <= k < j ==> !text::is_space_char(#[trigger] s[k]),
        j < s.len() ==> text::is_space_char(s[j]),
    ensures
        text::word_end(s, i) == j,
    decreases j - i,
{
    if i < j {
        assert(!text::is_space_char(s[i]));
        lemma_word_ends(s, i + 1, j);
    }
}

pub(crate) proof fn lemma_next_is(s: Seq<char>, c: char, i: int, j: int)
    requires
        0 <= i <= j < s.len(),
        forall|k: int| i <= k < j ==> #[trigger] s[k] != c,
        s[j] == c,
    ensures
        next_place(s, c, i) == j,
    decreases j - i,
{
    if i < j {
        assert(s[i] != c);
        lemma_next_is(s, c, i + 1, j);
    }
}

pub(crate) proof fn lemma_closes(s: Seq<char>, i: int, j: int, open: char, close: char)
    requires
        0 <= i <= j < s.len(),
        open != close,
        forall|k: int| i <= k < j ==> #[trigger] s[k] != open && s[k] != close,
        s[j] == close,
    ensures
        close_at(s, i, 1, open, close) == j,
    decreases j - i,
{
    if i < j {
        assert(s[i] != open && s[i] != close);
        lemma_closes(s, i + 1, j, open, close);
    }
}

pub(crate) proof fn lemma_name_is(s: Seq<char>, i: int, j: int)
    requires
        0 <= i <= j <= s.len(),
        forall|k: int| i <= k < j ==> text::is_name_char(#[trigger] s[k]),
        j < s.len() ==> !text::is_name_char(s[j]),
    ensures
        name_end(s, i) == j,
    decreases j - i,
{
    if i < j {
        assert(text::is_name_char(s[i]));
        lemma_name_is(s, i + 1, j);
    }
}

/// White space separates tokens and is part of none; a `#` where a token would
/// start ends the line.
pub proof fn law_spaces_and_comments_are_left_out(s: Seq<char>, i: int)
    requires
        0 <= i < s.len(),
    ensures
        text::is_space_char(s[i]) ==> tokens_from(s, i) == tokens_from(s, i + 1),
        s[i] == '#' ==> tokens_from(s, i).len() == 0,
{
}

/// A word without quotes, brackets and sigils is one bare token, up to the
/// next white space.
pub proof fn law_words_are_tokens(s: Seq<char>, i: int, j: int)
    requires
        0 <= i < j <= s.len(),
        forall|k: int| i <= k < j ==> !text::is_space_char(#[trigger] s[k]),
        j < s.len() ==> text::is_space_char(s[j]),
        s[i] != '#' && s[i] != '"' && s[i] != '\'' && s[i] != '[' && s[i] != '$' && s[i] != '@',
    ensures
        tokens_from(s, i) == seq![
            TokenView { text: s.subrange(i, j), quoting: Quoting::Bare },
        ] + tokens_from(s, j),
{
    lemma_word_ends(s, i, j);
    assert(!text::is_space_char(s[i]));
}

/// What stands between two quotes of a kind is one token, spaces and all, and
/// the quotes are not part of it.
pub proof fn law_quotes_make_one_token(s: Seq<char>, i: int, j: int)
    requires
        0 <= i < j < s.len(),
        s[i] == '"' || s[i] == '\'',
        s[j] == s[i],
        forall|k: int| i < k < j ==> #[trigger] s[k] != s[i],
    ensures
        tokens_from(s, i) == seq![
            TokenView {
                text: s.subrange(i + 1, j),
                quoting: if s[i] == '"' {
                    Quoting::Double
                } else {
                    Quoting::Single
                },
            },
        ] + tokens_from(s, j + 1),
{
    lemma_next_is(s, s[i], i + 1, j);
}

/// An array literal is one bare token with its brackets.
pub proof fn law_array_literal_is_one_token(s: Seq<char>, i: int, j: int)
    requires
        0 <= i < j < s.len(),
        s[i] == '[' && s[j] == ']',
        forall|k: int| i < k < j ==> #[trigger] s[k] != '[' && s[k] != ']',
    ensures
        tokens_from(s, i) == seq![
            TokenView { text: s.subrange(i, j + 1), quoting: Quoting::Bare },
        ] + tokens_from(s, j + 1),
{
    lemma_closes(s, i + 1, j, '[', ']');
}

/// A process expansion is one bare token, spaces and all.
pub proof fn law_process_expansion_is_one_token(s: Seq<char>, i: int, j: int)
    requires
        0 <= i,
        i + 2 < j < s.len(),
        s[i] == '$' || s[i] == '@',
        s[i + 1] == '(' && s[j] == ')',
        forall|k: int| i + 1 < k < j ==> #[trigger] s[k] != '(' && s[k] != ')',
        j + 1 < s.len() ==> s[j + 1] != '[',
    ensures
        tokens_from(s, i) == seq![
            TokenView { text: s.subrange(i, j + 1), quoting: Quoting::Bare },
        ] + tokens_from(s, j + 1),
{
    assert(s[i + 2] != '(');
    lemma_closes(s, i + 2, j, '(', ')');
}

/// A method call is one bare token, spaces and all.
pub proof fn law_method_call_is_one_token(s: Seq<char>, i: int, n: int, j: int)
    requires
        0 <= i,
        i + 1 < n < j < s.len(),
        s[i] == '$' || s[i] == '@',
        forall|k: int| i < k < n ==> text::is_name_char(#[trigger] s[k]),
        s[n] == '(' && s[j] == ')',
        forall|k: int| n < k < j ==> #[trigger] s[k] != '(' && s[k] != ')',
        j + 1 < s.len() ==> s[j + 1] != '[',
    ensures
        tokens_from(s, i) == seq![
            TokenView { text: s.subrange(i, j + 1), quoting: Quoting::Bare },
        ] + tokens_from(s, j + 1),
{
    assert(text::is_name_char(s[i + 1]));
    lemma_name_is(s, i + 1, n);
    lemma_closes(s, n + 1, j, '(', ')');
}

} // verus!
