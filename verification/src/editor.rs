//! The line editor.
//!
//! Every key changes the line, the cursor and the selection, or ends the
//! reading. Up and Down walk the history; Tab completes commands and paths.
//! Positions are counted in characters.

use crate::builtin_names;
use crate::builtin_names::{ascii_lower_text, is_keyword, names};
use crate::dialog;
use crate::dialog::{
    Answer, AnswerView, Entry, EntryView, Request, RequestView, StageCall, StageCallView, Talk,
    TalkView,
};
use crate::fileset;
use crate::fs_builtins;
use crate::fs_builtins::arrange;
use crate::methods;
use crate::methods::lower_text;
use crate::paths;
use crate::paths::{file_name, parent};
use crate::text;
use crate::text::{
    cat2, cat3, chars_of, code_of, extend_chars, has_prefix, is_name, is_space, same, same_chars,
    sub_chars, text_of, trim_end_chars, trim_text,
};
use vstd::prelude::*;

verus! {

// ---------------------------------------------------------------------------
// Highlighting
// ---------------------------------------------------------------------------

/// Whether lines are highlighted.
#[derive(Debug, Clone, Copy, PartialEq, Eq, Structural)]
pub struct Highlighting {
    pub on: bool,
}

impl Default for Highlighting {
    fn default() -> (r: Highlighting)
        ensures
            r.on,
    {
        Highlighting { on: true }
    }
}

/// Turns highlighting on or off.
pub fn set_highlight_enabled(state: &mut Highlighting, on: bool)
    ensures
        final(state).on == on,
{
    state.on = on;
}

/// Tells whether highlighting is on.
pub fn highlight_enabled(state: &Highlighting) -> (r: bool)
    ensures
        r == state.on,
{
    state.on
}

/// What a part of a line is.
#[derive(Debug, Clone, Copy, PartialEq, Eq, Structural)]
pub enum SpanKind {
    Plain,
    Comment,
    Quoted,
    Variable,
    Keyword,
    Command,
}

/// A part of a line.
#[derive(Debug, Clone, PartialEq, Eq)]
pub struct Span {
    pub kind: SpanKind,
    pub text: String,
}

/// A part of a line.
#[verifier::ext_equal]
pub struct SpanView {
    pub kind: SpanKind,
    pub text: Seq<char>,
}

impl View for Span {
    type V = SpanView;

    open spec fn view(&self) -> SpanView {
        SpanView { kind: self.kind, text: self.text@ }
    }
}

/// The parts of a line.
pub open spec fn span_views(list: Seq<Span>) -> Seq<SpanView> {
    Seq::new(list.len(), |i: int| list[i]@)
}

/// Where a quoted part that starts at `i` ends, seen from `k`: behind the
/// closing quote, or at the end of the line.
pub open spec fn quote_end(s: Seq<char>, quote: char, k: int) -> int
    decreases s.len() - k,
{
    if k < 0 || k >= s.len() {
        s.len() as int
    } else if s[k] == quote {
        k + 1
    } else {
        quote_end(s, quote, k + 1)
    }
}

/// Whether a character belongs to a variable's part.
pub open spec fn in_variable(c: char) -> bool {
    (if (c as u32) < 128 {
        text::is_ascii_letter(c) || text::is_digit_char(c)
    } else {
        text::unicode_alphanumeric(c)
    }) || c == '_' || c == '{' || c == '}' || c == '(' || c == ')'
}

/// Where a variable's part ends, seen from `k`.
pub open spec fn variable_end(s: Seq<char>, k: int) -> int
    decreases s.len() - k,
{
    if k < 0 || k >= s.len() || !in_variable(s[k]) {
        k
    } else {
        variable_end(s, k + 1)
    }
}

/// Whether a character ends a word.
pub open spec fn ends_word(c: char) -> bool {
    text::is_space_char(c) || c == '#' || c == '\'' || c == '"' || c == '$' || c == '@'
}

/// Where a word ends, seen from `k`.
pub open spec fn word_stop(s: Seq<char>, k: int) -> int
    decreases s.len() - k,
{
    if k < 0 || k >= s.len() || ends_word(s[k]) {
        k
    } else {
        word_stop(s, k + 1)
    }
}

/// The part of a line that starts at `i`, and where it ends. `seen` tells
/// whether a word stands before it.
pub open spec fn span_at(s: Seq<char>, i: int, seen: bool) -> (SpanKind, int) {
    let c = s[i];
    if c == '#' {
        (SpanKind::Comment, s.len() as int)
    } else if text::is_space_char(c) {
        (SpanKind::Plain, i + 1)
    } else if c == '\'' || c == '"' {
        (SpanKind::Quoted, quote_end(s, c, i + 1))
    } else if c == '$' || c == '@' {
        (SpanKind::Variable, variable_end(s, i + 1))
    } else {
        let e = word_stop(s, i);
        (
            if seen {
                SpanKind::Plain
            } else if builtin_names::is_language_word(s.subrange(i, e)) {
                SpanKind::Keyword
            } else {
                SpanKind::Command
            },
            e,
        )
    }
}

proof fn lemma_ends(s: Seq<char>, quote: char, k: int)
    requires
        0 <= k <= s.len(),
    ensures
        k <= quote_end(s, quote, k) <= s.len(),
        k <= variable_end(s, k) <= s.len(),
        k <= word_stop(s, k) <= s.len(),
    decreases s.len() - k,
{
    if k < s.len() {
        lemma_ends(s, quote, k + 1);
    }
}

proof fn lemma_span_goes_on(s: Seq<char>, i: int, seen: bool)
    requires
        0 <= i < s.len(),
    ensures
        i < span_at(s, i, seen).1 <= s.len(),
{
    lemma_ends(s, s[i], i + 1);
    lemma_ends(s, s[i], i);
}

/// The parts of a line from `i` on.
pub open spec fn spans_from(s: Seq<char>, i: int, seen: bool) -> Seq<SpanView>
    decreases s.len() - i,
    via spans_go_on
{
    if i < 0 || i >= s.len() {
        Seq::empty()
    } else {
        let (kind, e) = span_at(s, i, seen);
        seq![SpanView { kind, text: s.subrange(i, e) }] + spans_from(
            s,
            e,
            seen || !text::is_space_char(s[i]),
        )
    }
}

#[via_fn]
proof fn spans_go_on(s: Seq<char>, i: int, seen: bool) {
    if 0 <= i < s.len() {
        lemma_span_goes_on(s, i, seen);
    }
}

fn find_quote_end(v: &[char], quote: char, from: usize) -> (r: usize)
    requires
        from <= v@.len(),
    ensures
        r == quote_end(v@, quote, from as int),
{
    let mut k: usize = from;
    while k < v.len()
        invariant
            from <= k <= v@.len(),
            quote_end(v@, quote, from as int) == quote_end(v@, quote, k as int),
        decreases v@.len() - k,
    {
        if v[k] == quote {
            return k + 1;
        }
        k = k + 1;
    }
    k
}

fn belongs_to_variable(c: char) -> (r: bool)
    ensures
        r == in_variable(c),
{
    let letter = is_name(c) && c != '_';
    letter || c == '_' || c == '{' || c == '}' || c == '(' || c == ')'
}

fn find_variable_end(v: &[char], from: usize) -> (r: usize)
    requires
        from <= v@.len(),
    ensures
        r == variable_end(v@, from as int),
{
    let mut k: usize = from;
    while k < v.len() && belongs_to_variable(v[k])
        invariant
            from <= k <= v@.len(),
            variable_end(v@, from as int) == variable_end(v@, k as int),
        decreases v@.len() - k,
    {
        k = k + 1;
    }
    k
}

fn find_word_stop(v: &[char], from: usize) -> (r: usize)
    requires
        from <= v@.len(),
    ensures
        r == word_stop(v@, from as int),
{
    let mut k: usize = from;
    while k < v.len() && !(is_space(v[k]) || v[k] == '#' || v[k] == '\'' || v[k] == '"' || v[k]
        == '$' || v[k] == '@')
        invariant
            from <= k <= v@.len(),
            word_stop(v@, from as int) == word_stop(v@, k as int),
        decreases v@.len() - k,
    {
        k = k + 1;
    }
    k
}

/// Tells the parts of a line apart. A line that is not finished yet has parts
/// too: an open quote reaches to its end.
pub fn highlight(line: &str) -> (r: Vec<Span>)
    ensures
        span_views(r@) == spans_from(line@, 0, false),
{
    let v = chars_of(line);
    let ghost s = line@;
    let mut out: Vec<Span> = Vec::new();
    let mut seen = false;
    let mut i: usize = 0;
    assert(span_views(out@) =~= Seq::<SpanView>::empty());
    assert(span_views(out@) + spans_from(s, 0, false) =~= spans_from(s, 0, false));
    while i < v.len()
        invariant
            i <= v@.len(),
            v@ == s,
            span_views(out@) + spans_from(s, i as int, seen) == spans_from(s, 0, false),
        decreases v@.len() - i,
    {
        let c = v[i];
        proof {
            lemma_span_goes_on(s, i as int, seen);
            lemma_ends(s, c, i + 1);
            lemma_ends(s, c, i as int);
        }
        let space = is_space(c);
        let (kind, end) = if c == '#' {
            (SpanKind::Comment, v.len())
        } else if space {
            (SpanKind::Plain, i + 1)
        } else if c == '\'' || c == '"' {
            (SpanKind::Quoted, find_quote_end(&v, c, i + 1))
        } else if c == '$' || c == '@' {
            (SpanKind::Variable, find_variable_end(&v, i + 1))
        } else {
            let e = find_word_stop(&v, i);
            if seen {
                (SpanKind::Plain, e)
            } else {
                let w = sub_chars(&v, i, e);
                let word = text_of(&w);
                if is_keyword(word.as_str()) {
                    (SpanKind::Keyword, e)
                } else {
                    (SpanKind::Command, e)
                }
            }
        };
        let piece = sub_chars(&v, i, end);
        let span = Span { kind, text: text_of(&piece) };
        let ghost before = out@;
        let ghost next = seen || !text::is_space_char(c);
        let ghost rest = spans_from(s, end as int, next);
        out.push(span);
        proof {
            assert(span@ == SpanView { kind, text: s.subrange(i as int, end as int) });
            assert(span_views(out@) =~= span_views(before).push(span@));
            assert(span_views(before) + (seq![span@] + rest) =~= span_views(out@) + rest);
        }
        if !space {
            seen = true;
        }
        i = end;
    }
    assert(span_views(out@) + Seq::<SpanView>::empty() =~= span_views(out@));
    out
}

/// The characters of a run of parts.
pub open spec fn spans_text(list: Seq<SpanView>) -> Seq<char>
    decreases list.len(),
{
    if list.len() == 0 {
        Seq::empty()
    } else {
        list[0].text + spans_text(list.skip(1))
    }
}

proof fn lemma_spans_text(s: Seq<char>, i: int, seen: bool)
    requires
        0 <= i <= s.len(),
    ensures
        spans_text(spans_from(s, i, seen)) == s.skip(i),
    decreases s.len() - i,
{
    if i < s.len() {
        let (kind, e) = span_at(s, i, seen);
        lemma_span_goes_on(s, i, seen);
        let next = seen || !text::is_space_char(s[i]);
        lemma_spans_text(s, e, next);
        let whole = spans_from(s, i, seen);
        assert(whole.skip(1) =~= spans_from(s, e, next));
        assert(s.subrange(i, e) + s.skip(e) =~= s.skip(i));
    } else {
        assert(s.skip(i) =~= Seq::<char>::empty());
    }
}

/// Highlighting keeps every character of a line, finished or not: the parts
/// make up the line.
pub proof fn law_highlighting_keeps_every_character(s: Seq<char>)
    ensures
        spans_text(spans_from(s, 0, false)) == s,
{
    lemma_spans_text(s, 0, false);
    assert(s.skip(0) =~= s);
}

// ---------------------------------------------------------------------------
// Words and selections
// ---------------------------------------------------------------------------

/// The first position before `i` that is not behind white space.
pub open spec fn back_over_space(s: Seq<char>, i: int) -> int
    decreases i,
{
    if i <= 0 || i > s.len() || !text::is_space_char(s[i - 1]) {
        i
    } else {
        back_over_space(s, i - 1)
    }
}

/// The start of the word that ends at `i`.
pub open spec fn back_over_word(s: Seq<char>, i: int) -> int
    decreases i,
{
    if i <= 0 || i > s.len() || text::is_space_char(s[i - 1]) {
        i
    } else {
        back_over_word(s, i - 1)
    }
}

/// The start of the word before a position.
pub open spec fn word_before(s: Seq<char>, pos: int) -> int {
    back_over_word(s, back_over_space(s, pos))
}

/// Finds the start of the word before a position.
pub fn prev_word_boundary(buffer: &[char], pos: usize) -> (r: usize)
    requires
        pos <= buffer@.len(),
    ensures
        r == word_before(buffer@, pos as int),
        r <= pos,
{
    let mut i = pos;
    while i > 0 && is_space(buffer[i - 1])
        invariant
            i <= pos <= buffer@.len(),
            back_over_space(buffer@, pos as int) == back_over_space(buffer@, i as int),
        decreases i,
    {
        i = i - 1;
    }
    let ghost mid = i as int;
    while i > 0 && !is_space(buffer[i - 1])
        invariant
            i <= pos <= buffer@.len(),
            back_over_word(buffer@, mid) == back_over_word(buffer@, i as int),
        decreases i,
    {
        i = i - 1;
    }
    i
}

/// The end of the word at `i`.
pub open spec fn over_word(s: Seq<char>, i: int) -> int
    decreases s.len() - i,
{
    if i < 0 || i >= s.len() || text::is_space_char(s[i]) {
        i
    } else {
        over_word(s, i + 1)
    }
}

/// The first position from `i` on that is not white space.
pub open spec fn over_space(s: Seq<char>, i: int) -> int
    decreases s.len() - i,
{
    if i < 0 || i >= s.len() || !text::is_space_char(s[i]) {
        i
    } else {
        over_space(s, i + 1)
    }
}

/// The start of the word after a position.
pub open spec fn word_after(s: Seq<char>, pos: int) -> int {
    over_space(s, over_word(s, pos))
}

/// Finds the start of the word after a position.
pub fn next_word_boundary(buffer: &[char], pos: usize) -> (r: usize)
    requires
        pos <= buffer@.len(),
    ensures
        r == word_after(buffer@, pos as int),
        pos <= r <= buffer@.len(),
{
    let mut i = pos;
    while i < buffer.len() && !is_space(buffer[i])
        invariant
            pos <= i <= buffer@.len(),
            over_word(buffer@, pos as int) == over_word(buffer@, i as int),
        decreases buffer@.len() - i,
    {
        i = i + 1;
    }
    let ghost mid = i as int;
    while i < buffer.len() && is_space(buffer[i])
        invariant
            pos <= i <= buffer@.len(),
            over_space(buffer@, mid) == over_space(buffer@, i as int),
        decreases buffer@.len() - i,
    {
        i = i + 1;
    }
    i
}

/// The part that is selected between an anchor and the cursor.
pub open spec fn selected(anchor: Option<usize>, cursor: usize) -> Option<(usize, usize)> {
    match anchor {
        None => None,
        Some(a) => if a == cursor {
            None
        } else if a < cursor {
            Some((a, cursor))
        } else {
            Some((cursor, a))
        },
    }
}

/// Tells which part is selected.
pub fn selection_range(anchor: Option<usize>, cursor: usize) -> (r: Option<(usize, usize)>)
    ensures
        r == selected(anchor, cursor),
{
    match anchor {
        None => None,
        Some(a) => if a == cursor {
            None
        } else if a < cursor {
            Some((a, cursor))
        } else {
            Some((cursor, a))
        },
    }
}

/// The anchor after the cursor moved from one place to another with the
/// selection growing.
pub open spec fn extended(anchor: Option<usize>, cursor: usize, destination: usize) -> Option<usize> {
    let a = match anchor {
        Some(a) => a,
        None => cursor,
    };
    if a == destination {
        None
    } else {
        Some(a)
    }
}

/// Moves the cursor and lets the selection grow.
pub fn extend_selection(anchor: &mut Option<usize>, cursor: &mut usize, destination: usize)
    ensures
        *final(anchor) == extended(*old(anchor), *old(cursor), destination),
        *final(cursor) == destination,
{
    let a = match *anchor {
        Some(a) => a,
        None => *cursor,
    };
    *cursor = destination;
    if a == destination {
        *anchor = None;
    } else {
        *anchor = Some(a);
    }
}

/// A line without the characters between two places.
pub open spec fn cut(s: Seq<char>, from: int, to: int) -> Seq<char> {
    s.take(from) + s.skip(to)
}

fn cut_out(buffer: &mut Vec<char>, from: usize, to: usize)
    requires
        from <= to <= old(buffer)@.len(),
    ensures
        final(buffer)@ == cut(old(buffer)@, from as int, to as int),
{
    let ghost all = buffer@;
    let mut tail = buffer.split_off(to);
    buffer.truncate(from);
    buffer.append(&mut tail);
    assert(buffer@ =~= cut(all, from as int, to as int));
}

/// Deletes the selected part, and tells whether there was one. The selection
/// ends either way.
pub fn delete_selection(buffer: &mut Vec<char>, cursor: &mut usize, anchor: &mut Option<usize>) -> (r:
    bool)
    requires
        *old(cursor) <= old(buffer)@.len(),
        *old(anchor) matches Some(a) ==> a <= old(buffer)@.len(),
    ensures
        *final(anchor) is None,
        r == selected(*old(anchor), *old(cursor)) is Some,
        match selected(*old(anchor), *old(cursor)) {
            Some((from, to)) => final(buffer)@ == cut(old(buffer)@, from as int, to as int)
                && *final(cursor) == from,
            None => final(buffer)@ == old(buffer)@ && *final(cursor) == *old(cursor),
        },
{
    match selection_range(*anchor, *cursor) {
        None => {
            *anchor = None;
            false
        },
        Some((from, to)) => {
            cut_out(buffer, from, to);
            *cursor = from;
            *anchor = None;
            true
        },
    }
}

// ---------------------------------------------------------------------------
// Showing a selection
// ---------------------------------------------------------------------------

/// What turns reverse video on and off.
pub open spec fn reverse_on() -> Seq<char> {
    "\u{1b}[7m"@
}

/// What turns reverse video off.
pub open spec fn reverse_off() -> Seq<char> {
    "\u{1b}[27m"@
}

/// Where an escape sequence whose characters go on at `k` ends: behind its
/// `m`, or at the end.
pub open spec fn escape_end(s: Seq<char>, k: int) -> int
    decreases s.len() - k,
{
    if k < 0 || k >= s.len() {
        s.len() as int
    } else if s[k] == 'm' {
        k + 1
    } else {
        escape_end(s, k + 1)
    }
}

proof fn lemma_escape_end(s: Seq<char>, k: int)
    requires
        0 <= k <= s.len(),
    ensures
        k <= escape_end(s, k) <= s.len(),
    decreases s.len() - k,
{
    if k < s.len() {
        lemma_escape_end(s, k + 1);
    }
}

/// Whether an escape sequence starts at `i`.
pub open spec fn escapes_at(s: Seq<char>, i: int) -> bool {
    s[i] == '\u{1b}' && i + 1 < s.len() && s[i + 1] == '['
}

/// The rendered text from `i` on with the visible characters of a range in
/// reverse video, `visible` of them standing before. Reverse video is turned
/// on again behind every escape sequence inside the range.
pub open spec fn reversed_from(s: Seq<char>, i: int, visible: int, from: int, to: int) -> Seq<char>
    decreases s.len() - i,
    via reversed_goes_on
{
    if i < 0 || i >= s.len() {
        if visible == to {
            reverse_off()
        } else {
            Seq::empty()
        }
    } else if escapes_at(s, i) {
        let e = escape_end(s, i + 1);
        s.subrange(i, e) + (if s[e - 1] == 'm' && from <= visible < to {
            reverse_on()
        } else {
            Seq::empty()
        }) + reversed_from(s, e, visible, from, to)
    } else {
        (if visible == from {
            reverse_on()
        } else {
            Seq::empty()
        }) + (if visible == to {
            reverse_off()
        } else {
            Seq::empty()
        }) + seq![s[i]] + reversed_from(s, i + 1, visible + 1, from, to)
    }
}

#[via_fn]
proof fn reversed_goes_on(s: Seq<char>, i: int, visible: int, from: int, to: int) {
    if 0 <= i < s.len() {
        lemma_escape_end(s, i + 1);
    }
}

fn find_escape_end(v: &[char], from: usize) -> (r: usize)
    requires
        from <= v@.len(),
    ensures
        r == escape_end(v@, from as int),
{
    let mut k: usize = from;
    while k < v.len()
        invariant
            from <= k <= v@.len(),
            escape_end(v@, from as int) == escape_end(v@, k as int),
        decreases v@.len() - k,
    {
        if v[k] == 'm' {
            return k + 1;
        }
        k = k + 1;
    }
    k
}

/// Shows a range of visible characters in reverse video, colours kept.
pub fn apply_selection_highlight(rendered: &str, range: (usize, usize)) -> (r: String)
    ensures
        r@ == reversed_from(rendered@, 0, 0, range.0 as int, range.1 as int),
{
    let (from, to) = range;
    let v = chars_of(rendered);
    let ghost s = rendered@;
    let on = chars_of("\u{1b}[7m");
    let off = chars_of("\u{1b}[27m");
    let mut out: Vec<char> = Vec::new();
    let mut visible: usize = 0;
    let mut i: usize = 0;
    let ghost whole = reversed_from(s, 0, 0, from as int, to as int);
    assert(out@ + whole =~= whole);
    while i < v.len()
        invariant
            i <= v@.len(),
            visible <= i,
            v@ == s,
            on@ == reverse_on(),
            off@ == reverse_off(),
            out@ + reversed_from(s, i as int, visible as int, from as int, to as int) == whole,
        decreases v@.len() - i,
    {
        let ghost before = out@;
        if v[i] == '\u{1b}' && i + 1 < v.len() && v[i + 1] == '[' {
            proof {
                lemma_escape_end(s, i + 1);
            }
            let e = find_escape_end(&v, i + 1);
            let piece = sub_chars(&v, i, e);
            let ghost rest = reversed_from(s, e as int, visible as int, from as int, to as int);
            extend_chars(&mut out, &piece);
            if v[e - 1] == 'm' && from <= visible && visible < to {
                extend_chars(&mut out, &on);
                assert(before + (s.subrange(i as int, e as int) + reverse_on() + rest) =~= out@
                    + rest);
            } else {
                assert(before + (s.subrange(i as int, e as int) + Seq::<char>::empty() + rest)
                    =~= out@ + rest);
            }
            i = e;
        } else {
            let ghost rest = reversed_from(
                s,
                i + 1,
                visible + 1,
                from as int,
                to as int,
            );
            let ghost a = if visible == from {
                reverse_on()
            } else {
                Seq::empty()
            };
            let ghost b = if visible == to {
                reverse_off()
            } else {
                Seq::empty()
            };
            if visible == from {
                extend_chars(&mut out, &on);
            }
            assert(out@ =~= before + a);
            if visible == to {
                extend_chars(&mut out, &off);
            }
            assert(out@ =~= before + a + b);
            out.push(v[i]);
            assert(before + (a + b + seq![s[i as int]] + rest) =~= out@ + rest);
            visible = visible + 1;
            i = i + 1;
        }
    }
    if visible == to {
        extend_chars(&mut out, &off);
    }
    assert(out@ =~= whole);
    text_of(&out)
}

/// A text without its escape sequences, from `i` on.
pub open spec fn visible_from(s: Seq<char>, i: int) -> Seq<char>
    decreases s.len() - i,
    via visible_goes_on
{
    if i < 0 || i >= s.len() {
        Seq::empty()
    } else if escapes_at(s, i) {
        visible_from(s, escape_end(s, i + 1))
    } else {
        seq![s[i]] + visible_from(s, i + 1)
    }
}

#[via_fn]
proof fn visible_goes_on(s: Seq<char>, i: int) {
    if 0 <= i < s.len() {
        lemma_escape_end(s, i + 1);
    }
}

/// What is visible of a text.
pub open spec fn visible_text(s: Seq<char>) -> Seq<char> {
    visible_from(s, 0)
}

proof fn lemma_escape_shift(s: Seq<char>, d: int, k: int)
    requires
        0 <= d <= s.len(),
        0 <= k <= s.len() - d,
    ensures
        escape_end(s, d + k) == d + escape_end(s.skip(d), k),
    decreases s.len() - d - k,
{
    if d + k < s.len() {
        assert(s.skip(d)[k] == s[d + k]);
        lemma_escape_shift(s, d, k + 1);
    }
}

proof fn lemma_visible_shift(s: Seq<char>, d: int, k: int)
    requires
        0 <= d <= s.len(),
        0 <= k <= s.len() - d,
    ensures
        visible_from(s, d + k) == visible_from(s.skip(d), k),
    decreases s.len() - d - k,
{
    let r = s.skip(d);
    if d + k < s.len() {
        assert(r[k] == s[d + k]);
        if k + 1 < r.len() {
            assert(r[k + 1] == s[d + k + 1]);
        }
        if escapes_at(s, d + k) {
            lemma_escape_shift(s, d, k + 1);
            lemma_escape_end(r, k + 1);
            lemma_visible_shift(s, d, escape_end(r, k + 1));
        } else {
            lemma_visible_shift(s, d, k + 1);
        }
    }
}

proof fn lemma_visible_char(c: char, rest: Seq<char>)
    requires
        !(c == '\u{1b}' && rest.len() > 0 && rest[0] == '['),
    ensures
        visible_text(seq![c] + rest) == seq![c] + visible_text(rest),
{
    let s = seq![c] + rest;
    assert(s.skip(1) =~= rest);
    if rest.len() > 0 {
        assert(s[1] == rest[0]);
    }
    lemma_visible_shift(s, 1, 0);
}

proof fn lemma_escape_in(code: Seq<char>, rest: Seq<char>, k: int)
    requires
        0 <= k < code.len(),
        code.last() == 'm',
        forall|j: int| 0 <= j < code.len() - 1 ==> code[j] != 'm',
    ensures
        escape_end(code + rest, k) == code.len(),
    decreases code.len() - k,
{
    assert((code + rest)[k] == code[k]);
    if k < code.len() - 1 {
        lemma_escape_in(code, rest, k + 1);
    }
}

proof fn lemma_visible_code(code: Seq<char>, rest: Seq<char>)
    requires
        code.len() >= 3,
        code[0] == '\u{1b}',
        code[1] == '[',
        code.last() == 'm',
        forall|j: int| 0 <= j < code.len() - 1 ==> code[j] != 'm',
    ensures
        visible_text(code + rest) == visible_text(rest),
{
    let s = code + rest;
    assert(s[0] == code[0] && s[1] == code[1]);
    lemma_escape_in(code, rest, 1);
    assert(s.skip(code.len() as int) =~= rest);
    lemma_visible_shift(s, code.len() as int, 0);
}

proof fn lemma_reverse_codes(rest: Seq<char>)
    ensures
        visible_text(reverse_on() + rest) == visible_text(rest),
        visible_text(reverse_off() + rest) == visible_text(rest),
        (reverse_on() + rest)[0] == '\u{1b}',
        (reverse_off() + rest)[0] == '\u{1b}',
        reverse_on().len() > 0,
        reverse_off().len() > 0,
{
    reveal_strlit("\u{1b}[7m");
    reveal_strlit("\u{1b}[27m");
    lemma_visible_code(reverse_on(), rest);
    lemma_visible_code(reverse_off(), rest);
}

proof fn lemma_only_last_m(s: Seq<char>, k: int)
    requires
        0 <= k <= s.len(),
    ensures
        forall|j: int| k <= j < escape_end(s, k) - 1 ==> s[j] != 'm',
        escape_end(s, k) < s.len() || (s.len() > 0 && escape_end(s, k) == s.len() && k < s.len()
            && s.last() == 'm') ==> s[escape_end(s, k) - 1] == 'm',
    decreases s.len() - k,
{
    if k < s.len() && s[k] != 'm' {
        lemma_only_last_m(s, k + 1);
    }
}

/// Whether a text begins as a rendered text from `i` on could: with the
/// character at `i`, or with an escape character.
spec fn starts_alike(out: Seq<char>, s: Seq<char>, i: int) -> bool {
    out.len() == 0 || out[0] == '\u{1b}' || (i < s.len() && out[0] == s[i])
}

#[verifier::rlimit(40)]
#[verifier::spinoff_prover]
proof fn lemma_selection_visible(s: Seq<char>, i: int, visible: int, from: int, to: int)
    requires
        0 <= i <= s.len(),
    ensures
        visible_text(reversed_from(s, i, visible, from, to)) == visible_from(s, i),
        starts_alike(reversed_from(s, i, visible, from, to), s, i),
    decreases s.len() - i,
{
    let none = Seq::<char>::empty();
    let out = reversed_from(s, i, visible, from, to);
    if i >= s.len() {
        lemma_reverse_codes(none);
        assert(reverse_off() + none =~= reverse_off());
        assert(visible_text(none) =~= none);
    } else if escapes_at(s, i) {
        let e = escape_end(s, i + 1);
        lemma_escape_end(s, i + 1);
        lemma_only_last_m(s, i + 1);
        lemma_selection_visible(s, e, visible, from, to);
        let rest = reversed_from(s, e, visible, from, to);
        let code = s.subrange(i, e);
        assert(code[0] == s[i] && out[0] == code[0]);
        assert forall|j: int| 0 <= j < code.len() - 1 implies code[j] != 'm' by {
            assert(code[j] == s[i + j]);
        }
        let b = if s[e - 1] == 'm' && from <= visible < to {
            reverse_on()
        } else {
            none
        };
        assert(out =~= code + (b + rest));
        if s[e - 1] == 'm' {
            assert(e > i + 1);
            assert(code.last() == 'm');
            assert(code[1] == s[i + 1]);
            lemma_visible_code(code, b + rest);
            lemma_reverse_codes(rest);
            assert(none + rest =~= rest);
        } else {
            assert(e == s.len());
            assert(b + rest =~= rest);
            lemma_unclosed(code, rest, visible, to);
        }
    } else {
        lemma_selection_visible(s, i + 1, visible + 1, from, to);
        let rest = reversed_from(s, i + 1, visible + 1, from, to);
        let a = if visible == from {
            reverse_on()
        } else {
            none
        };
        let b = if visible == to {
            reverse_off()
        } else {
            none
        };
        let tail = seq![s[i]] + rest;
        assert(out =~= a + (b + tail));
        if i + 1 < s.len() {
            assert(s[i + 1] != '[' || s[i] != '\u{1b}');
        }
        if s[i] == '\u{1b}' && rest.len() > 0 {
            assert(rest[0] != '[');
        }
        lemma_visible_char(s[i], rest);
        lemma_reverse_codes(tail);
        lemma_reverse_codes(b + tail);
        assert(none + tail =~= tail);
        assert(none + (b + tail) =~= b + tail);
    }
}

proof fn lemma_unclosed(code: Seq<char>, rest: Seq<char>, visible: int, to: int)
    requires
        code.len() >= 2,
        code[0] == '\u{1b}',
        code[1] == '[',
        forall|j: int| 0 <= j < code.len() ==> code[j] != 'm',
        rest == (if visible == to {
            reverse_off()
        } else {
            Seq::empty()
        }),
    ensures
        visible_text(code + rest) == Seq::<char>::empty(),
{
    reveal_strlit("\u{1b}[27m");
    let s = code + rest;
    assert(s[0] == code[0] && s[1] == code[1]);
    lemma_escape_reaches(s, 1);
    assert(visible_from(s, s.len() as int) =~= Seq::<char>::empty());
}

proof fn lemma_escape_reaches(s: Seq<char>, k: int)
    requires
        0 <= k <= s.len(),
        forall|j: int| 0 <= j < s.len() - 1 ==> s[j] != 'm',
    ensures
        escape_end(s, k) == s.len(),
    decreases s.len() - k,
{
    if k < s.len() {
        lemma_escape_reaches(s, k + 1);
    }
}

/// Showing a selection changes nothing that is visible: without the escape
/// sequences the text is the same.
pub proof fn law_selection_keeps_visible_text(s: Seq<char>, from: int, to: int)
    ensures
        visible_text(reversed_from(s, 0, 0, from, to)) == visible_text(s),
{
    lemma_selection_visible(s, 0, 0, from, to);
}

// ---------------------------------------------------------------------------
// Completion
// ---------------------------------------------------------------------------

/// How many bytes a character takes.
pub open spec fn byte_len(c: char) -> nat {
    if (c as u32) < 0x80 {
        1
    } else if (c as u32) < 0x800 {
        2
    } else if (c as u32) < 0x10000 {
        3
    } else {
        4
    }
}

/// How many bytes a text takes.
pub open spec fn byte_count(s: Seq<char>) -> nat
    decreases s.len(),
{
    if s.len() == 0 {
        0
    } else {
        byte_count(s.drop_last()) + byte_len(s.last())
    }
}

/// Whether the first text takes more bytes than the second.
fn is_longer(a: &str, b: &str) -> (r: bool)
    ensures
        r == (byte_count(a@) > byte_count(b@)),
{
    count_bytes(a) > count_bytes(b)
}

fn count_bytes(s: &str) -> (r: u128)
    ensures
        r == byte_count(s@),
        r <= 4 * s@.len(),
{
    let v = chars_of(s);
    let mut n: u128 = 0;
    let mut i: usize = 0;
    assert(v@.take(0) =~= Seq::<char>::empty());
    while i < v.len()
        invariant
            i <= v@.len(),
            v@ == s@,
            n == byte_count(v@.take(i as int)),
            n <= 4 * i,
        decreases v@.len() - i,
    {
        assert(v@.take(i + 1).drop_last() =~= v@.take(i as int));
        let u = code_of(v[i]);
        let k: u128 = if u < 0x80 {
            1
        } else if u < 0x800 {
            2
        } else if u < 0x10000 {
            3
        } else {
            4
        };
        assert(i < v.len());
        n = n + k;
        i = i + 1;
    }
    assert(v@.take(v@.len() as int) =~= v@);
    n
}

/// Whether two characters are the same, the case of ASCII letters aside.
pub open spec fn alike(a: char, b: char) -> bool {
    builtin_names::ascii_lower(seq![a])[0] == builtin_names::ascii_lower(seq![b])[0]
}

fn lower_char(c: char) -> (r: char)
    ensures
        r == builtin_names::ascii_lower(seq![c])[0],
{
    let u = code_of(c);
    if 65 <= u && u <= 90 {
        ((u + 32) as u8) as char
    } else {
        c
    }
}

/// How many characters from `k` on two texts have in common, case aside: the
/// place where they part.
pub open spec fn parts_at(a: Seq<char>, b: Seq<char>, k: int) -> int
    decreases a.len() - k,
{
    if k < 0 || k >= a.len() || k >= b.len() || !alike(a[k], b[k]) {
        k
    } else {
        parts_at(a, b, k + 1)
    }
}

fn find_parting(a: &[char], b: &[char]) -> (r: usize)
    ensures
        r == parts_at(a@, b@, 0),
        r <= a@.len(),
{
    let mut k: usize = 0;
    while k < a.len() && k < b.len() && lower_char(a[k]) == lower_char(b[k])
        invariant
            k <= a@.len(),
            parts_at(a@, b@, 0) == parts_at(a@, b@, k as int),
        decreases a@.len() - k,
    {
        k = k + 1;
    }
    k
}

/// How much of the first text all of the first `n` have in common.
pub open spec fn common_len(list: Seq<Seq<char>>, n: int) -> int
    decreases n,
{
    if n <= 1 {
        list[0].len() as int
    } else {
        let before = common_len(list, n - 1);
        let here = parts_at(list[0], list[n - 1], 0);
        if here < before {
            here
        } else {
            before
        }
    }
}

/// What all texts of a list begin with, case aside, as the first one writes
/// it.
pub open spec fn common_start(list: Seq<Seq<char>>) -> Seq<char> {
    list[0].take(common_len(list, list.len() as int))
}

/// Finds what all texts of a list begin with.
pub fn common_prefix(list: &[String]) -> (r: Option<String>)
    ensures
        match r {
            Some(s) => list@.len() > 0 && s@ == common_start(text::texts(list@)),
            None => list@.len() == 0,
        },
{
    if list.len() == 0 {
        return None;
    }
    let ghost all = text::texts(list@);
    assert(all[0] == list@[0]@);
    let first = chars_of(list[0].as_str());
    let mut end: usize = first.len();
    let mut i: usize = 1;
    while i < list.len()
        invariant
            1 <= i <= list@.len(),
            all == text::texts(list@),
            first@ == all[0],
            end == common_len(all, i as int),
            end <= first@.len(),
        decreases list@.len() - i,
    {
        assert(all[i as int] == list@[i as int]@);
        let other = chars_of(list[i].as_str());
        let here = find_parting(&first, &other);
        if here < end {
            end = here;
        }
        i = i + 1;
    }
    let front = sub_chars(&first, 0, end);
    assert(front@ =~= common_start(all));
    Some(text_of(&front))
}

/// What a prefix is completed to, out of what it could be: the only one, or
/// what all of them begin with where that is longer.
pub open spec fn chosen(prefix: Seq<char>, list: Seq<Seq<char>>) -> Option<Seq<char>> {
    if list.len() == 0 {
        None
    } else if list.len() == 1 {
        Some(list[0])
    } else if byte_count(common_start(list)) > byte_count(prefix) {
        Some(common_start(list))
    } else {
        None
    }
}

/// Chooses what a prefix is completed to.
pub fn choose_completion(prefix: &str, list: &[String]) -> (r: Option<String>)
    ensures
        fileset::opt_text(r) == chosen(prefix@, text::texts(list@)),
{
    assert(text::texts(list@).len() == list@.len());
    if list.len() == 0 {
        return None;
    }
    if list.len() == 1 {
        assert(text::texts(list@)[0] == list@[0]@);
        return Some(list[0].clone());
    }
    match common_prefix(list) {
        Some(common) => if is_longer(common.as_str(), prefix) {
            Some(common)
        } else {
            None
        },
        None => None,
    }
}

/// Whether a word is written like a path.
pub open spec fn like_path(word: Seq<char>) -> bool {
    word.contains('\\') || word.contains('/') || word.contains(':') || (word.len() > 0 && (word[0]
        == '.' || word[0] == '~'))
}

/// Tells whether a word is written like a path.
pub fn looks_like_path(word: &str) -> (r: bool)
    ensures
        r == like_path(word@),
{
    let v = chars_of(word);
    if v.len() > 0 && (v[0] == '.' || v[0] == '~') {
        return true;
    }
    let mut i: usize = 0;
    while i < v.len()
        invariant
            i <= v@.len(),
            v@ == word@,
            forall|k: int| 0 <= k < i ==> v@[k] != '\\' && v@[k] != '/' && v@[k] != ':',
        decreases v@.len() - i,
    {
        if v[i] == '\\' || v[i] == '/' || v[i] == ':' {
            assert(word@.contains(v@[i as int]));
            return true;
        }
        i = i + 1;
    }
    false
}

/// Where the last separator among the first `n` characters is.
pub open spec fn last_separator(s: Seq<char>, n: int) -> Option<int>
    decreases n,
{
    if n <= 0 {
        None
    } else if paths::is_separator(s[n - 1]) {
        Some(n - 1)
    } else {
        last_separator(s, n - 1)
    }
}

/// The directory part of a word, as it is written.
pub open spec fn typed_dir(word: Seq<char>) -> Seq<char> {
    match last_separator(word, word.len() as int) {
        Some(i) => word.take(i + 1),
        None => Seq::empty(),
    }
}

/// Finds the directory part of a word, as it is written.
pub fn typed_dir_prefix(word: &str) -> (r: String)
    ensures
        r@ == typed_dir(word@),
{
    let v = chars_of(word);
    let mut n: usize = v.len();
    while n > 0
        invariant
            n <= v@.len(),
            v@ == word@,
            last_separator(word@, word@.len() as int) == last_separator(word@, n as int),
        decreases n,
    {
        if v[n - 1] == '/' || v[n - 1] == '\\' {
            let front = sub_chars(&v, 0, n);
            assert(front@ =~= word@.take(n as int));
            return text_of(&front);
        }
        n = n - 1;
    }
    let none = String::new();
    assert(none@ =~= Seq::<char>::empty());
    none
}

/// A word with the user's directory in place of a leading `~`.
pub open spec fn at_home(word: Seq<char>, t: TalkView) -> (Seq<char>, TalkView) {
    if word.len() > 0 && word[0] == '~' {
        let (a, t1) = dialog::asked(t, RequestView::Environment("USERPROFILE"@));
        (
            match a {
                AnswerView::Text(home) => home + word.skip(1),
                _ => word,
            },
            t1,
        )
    } else {
        (word, t)
    }
}

fn expand_tilde(word: &str, talk: &mut Talk) -> (r: String)
    ensures
        (r@, final(talk)@) == at_home(word@, old(talk)@),
{
    let v = chars_of(word);
    if v.len() > 0 && v[0] == '~' {
        match talk.ask(Request::Environment("USERPROFILE".to_owned())) {
            Answer::Text(home) => {
                let rest = sub_chars(&v, 1, v.len());
                assert(rest@ =~= word@.skip(1));
                let tail = text_of(&rest);
                cat2(home.as_str(), tail.as_str())
            },
            _ => word.to_owned(),
        }
    } else {
        word.to_owned()
    }
}

/// The directory and the beginning of a name that a word stands for.
pub open spec fn sought(word: Seq<char>, expanded: Seq<char>) -> (Seq<char>, Seq<char>) {
    if word.len() > 0 && paths::is_separator(word.last()) {
        (expanded, Seq::empty())
    } else {
        (
            match paths::parent_of(expanded) {
                Some(p) => p,
                None => "."@,
            },
            match paths::file_name_of(expanded) {
                Some(n) => n,
                None => Seq::empty(),
            },
        )
    }
}

/// The completions among the first `n` entries of a directory.
pub open spec fn entry_matches(
    entries: Seq<EntryView>,
    n: int,
    dir: Seq<char>,
    partial: Seq<char>,
) -> Seq<fs_builtins::ListedView>
    decreases n,
{
    if n <= 0 {
        Seq::empty()
    } else {
        let before = entry_matches(entries, n - 1, dir, partial);
        let e = entries[n - 1];
        if text::begins_with(methods::lower(e.name), methods::lower(partial)) {
            let full = dir + e.name + (if e.is_dir {
                "\\"@
            } else {
                " "@
            });
            before.push((full, full))
        } else {
            before
        }
    }
}

/// The first texts of pairs.
pub open spec fn firsts(list: Seq<fs_builtins::ListedView>) -> Seq<Seq<char>> {
    Seq::new(list.len(), |i: int| list[i].0)
}

/// The paths that a word could be completed to, in order.
pub open spec fn path_completions(word: Seq<char>, t: TalkView) -> (Seq<Seq<char>>, TalkView) {
    let (expanded, t1) = at_home(word, t);
    let (dir, partial) = sought(word, expanded);
    let (a, t2) = dialog::asked(t1, RequestView::List(dir, Seq::empty()));
    (
        match a {
            AnswerView::Entries(entries) => firsts(
                fs_builtins::arranged(
                    entry_matches(entries, entries.len() as int, typed_dir(word), partial),
                ),
            ),
            _ => Seq::empty(),
        },
        t2,
    )
}

fn list_matches(entries: &Vec<Entry>, dir: &str, partial: &str) -> (r: Vec<(String, String)>)
    ensures
        fs_builtins::listed_views(r@) == entry_matches(
            dialog::entry_views(entries@),
            entries@.len() as int,
            dir@,
            partial@,
        ),
{
    let ghost all = dialog::entry_views(entries@);
    let low = lower_text(partial);
    let mut out: Vec<(String, String)> = Vec::new();
    assert(fs_builtins::listed_views(out@) =~= Seq::<fs_builtins::ListedView>::empty());
    let mut i: usize = 0;
    while i < entries.len()
        invariant
            i <= entries@.len(),
            all == dialog::entry_views(entries@),
            low@ == methods::lower(partial@),
            fs_builtins::listed_views(out@) == entry_matches(all, i as int, dir@, partial@),
        decreases entries@.len() - i,
    {
        assert(all[i as int] == entries@[i as int]@);
        let name = lower_text(entries[i].name.as_str());
        if has_prefix(name.as_str(), low.as_str()) {
            let full = cat3(
                dir,
                entries[i].name.as_str(),
                if entries[i].is_dir {
                    "\\"
                } else {
                    " "
                },
            );
            let ghost before = out@;
            let pair = (full.clone(), full);
            out.push(pair);
            assert(fs_builtins::listed_views(out@) =~= fs_builtins::listed_views(before).push(
                (pair.0@, pair.1@),
            ));
        }
        i = i + 1;
    }
    out
}

fn path_matches(word: &str, talk: &mut Talk) -> (r: Vec<String>)
    ensures
        (text::texts(r@), final(talk)@) == path_completions(word@, old(talk)@),
{
    let expanded = expand_tilde(word, talk);
    let v = chars_of(word);
    let (dir, partial) = if v.len() > 0 && (v[v.len() - 1] == '/' || v[v.len() - 1] == '\\') {
        let none = String::new();
        assert(none@ =~= Seq::<char>::empty());
        (expanded, none)
    } else {
        let d = match parent(expanded.as_str()) {
            Some(p) => p,
            None => ".".to_owned(),
        };
        let n = match file_name(expanded.as_str()) {
            Some(n) => n,
            None => {
                let none = String::new();
                assert(none@ =~= Seq::<char>::empty());
                none
            },
        };
        (d, n)
    };
    let no_part: Vec<String> = Vec::new();
    assert(text::texts(no_part@) =~= Seq::<Seq<char>>::empty());
    let mut out: Vec<String> = Vec::new();
    match talk.ask(Request::List(dir, no_part)) {
        Answer::Entries(entries) => {
            let typed = typed_dir_prefix(word);
            let found = list_matches(&entries, typed.as_str(), partial.as_str());
            let sorted = arrange(found);
            let ghost whole = firsts(fs_builtins::listed_views(sorted@));
            let mut i: usize = 0;
            while i < sorted.len()
                invariant
                    i <= sorted@.len(),
                    whole == firsts(fs_builtins::listed_views(sorted@)),
                    text::texts(out@) == whole.take(i as int),
                decreases sorted@.len() - i,
            {
                let s = sorted[i].0.clone();
                proof {
                    text::lemma_texts_push(out@, s);
                    assert(whole[i as int] == s@);
                    assert(whole.take(i + 1) =~= whole.take(i as int).push(s@));
                }
                out.push(s);
                i = i + 1;
            }
            assert(whole.take(sorted@.len() as int) =~= whole);
            out
        },
        _ => {
            assert(text::texts(out@) =~= Seq::<Seq<char>>::empty());
            out
        },
    }
}

/// The first `n` names that begin with a prefix.
pub open spec fn beginning_with(list: Seq<Seq<char>>, n: int, prefix: Seq<char>) -> Seq<Seq<char>>
    decreases n,
{
    if n <= 0 {
        Seq::empty()
    } else {
        let before = beginning_with(list, n - 1, prefix);
        if text::begins_with(list[n - 1], prefix) {
            before.push(list[n - 1])
        } else {
            before
        }
    }
}

/// What a command is completed to: a word that the shell knows, or a path.
pub open spec fn command_completion(prefix: Seq<char>, t: TalkView) -> (
    Option<Seq<char>>,
    TalkView,
) {
    let known = builtin_names::word_names();
    let (list, t1) = path_completions(prefix, t);
    (chosen(prefix, beginning_with(known, known.len() as int, prefix) + list), t1)
}

fn complete_command(prefix: &str, talk: &mut Talk) -> (r: Option<String>)
    ensures
        (fileset::opt_text(r), final(talk)@) == command_completion(prefix@, old(talk)@),
{
    let known = names();
    let ghost all = text::texts(known@);
    let mut list: Vec<String> = Vec::new();
    assert(text::texts(list@) =~= Seq::<Seq<char>>::empty());
    let mut i: usize = 0;
    while i < known.len()
        invariant
            i <= known@.len(),
            all == text::texts(known@),
            *talk == *old(talk),
            text::texts(list@) == beginning_with(all, i as int, prefix@),
        decreases known@.len() - i,
    {
        assert(all[i as int] == known@[i as int]@);
        if has_prefix(known[i].as_str(), prefix) {
            let name = known[i].clone();
            proof {
                text::lemma_texts_push(list@, name);
            }
            list.push(name);
        }
        i = i + 1;
    }
    assert(all.len() == known@.len());
    let more = path_matches(prefix, talk);
    text::extend_texts(&mut list, &more);
    choose_completion(prefix, &list)
}

/// The place behind the last white space among the first `n` characters.
pub open spec fn token_start(s: Seq<char>, n: int) -> int
    decreases n,
{
    if n <= 0 || n > s.len() || text::is_space_char(s[n - 1]) {
        n
    } else {
        token_start(s, n - 1)
    }
}

/// Whether the first `n` characters are white space.
pub open spec fn all_space(s: Seq<char>, n: int) -> bool {
    forall|i: int| 0 <= i < n ==> text::is_space_char(#[trigger] s[i])
}

/// The line and the cursor after completion; nothing where there is nothing
/// to complete.
pub open spec fn completed(s: Seq<char>, cursor: int, t: TalkView) -> (
    Option<(Seq<char>, int)>,
    TalkView,
) {
    let start = token_start(s, cursor);
    let word = s.subrange(start, cursor);
    if word.len() == 0 {
        (None, t)
    } else {
        let (r, t1) = if all_space(s, start) && !like_path(word) {
            command_completion(word, t)
        } else {
            let (list, t2) = path_completions(word, t);
            (chosen(word, list), t2)
        };
        (
            match r {
                None => None,
                Some(full) => if full == word {
                    None
                } else {
                    Some((s.take(start) + full + s.skip(cursor), start + full.len()))
                },
            },
            t1,
        )
    }
}

/// Completes the word before the cursor.
pub fn complete(buffer: &[char], cursor: usize, talk: &mut Talk) -> (r: Option<(Vec<char>, usize)>)
    requires
        cursor <= buffer@.len(),
    ensures
        (match r {
            Some((b, c)) => Some((b@, c as int)),
            None => None,
        }, final(talk)@) == completed(buffer@, cursor as int, old(talk)@),
        r matches Some((b, c)) ==> c <= b@.len(),
{
    let mut start: usize = cursor;
    while start > 0 && !is_space(buffer[start - 1])
        invariant
            start <= cursor <= buffer@.len(),
            token_start(buffer@, cursor as int) == token_start(buffer@, start as int),
        decreases start,
    {
        start = start - 1;
    }
    let word = sub_chars(buffer, start, cursor);
    if word.len() == 0 {
        return None;
    }
    let mut first = true;
    let mut i: usize = 0;
    while i < start
        invariant
            i <= start <= buffer@.len(),
            first == all_space(buffer@, i as int),
            *talk == *old(talk),
        decreases start - i,
    {
        if !is_space(buffer[i]) {
            assert(!text::is_space_char(buffer@[i as int]));
            first = false;
        }
        i = i + 1;
    }
    let token = text_of(&word);
    let found = if first && !looks_like_path(token.as_str()) {
        complete_command(token.as_str(), talk)
    } else {
        let list = path_matches(token.as_str(), talk);
        choose_completion(token.as_str(), &list)
    };
    match found {
        None => None,
        Some(full) => {
            if same(full.as_str(), token.as_str()) {
                return None;
            }
            let middle = chars_of(full.as_str());
            let mut out = sub_chars(buffer, 0, start);
            extend_chars(&mut out, &middle);
            let c = out.len();
            let tail = sub_chars(buffer, cursor, buffer.len());
            extend_chars(&mut out, &tail);
            assert(out@ =~= buffer@.take(start as int) + full@ + buffer@.skip(cursor as int));
            Some((out, c))
        },
    }
}

// ---------------------------------------------------------------------------
// Keys
// ---------------------------------------------------------------------------

/// A key.
#[derive(Debug, Clone, Copy, PartialEq, Eq, Structural)]
pub enum KeyCode {
    Enter,
    Esc,
    Tab,
    Backspace,
    Delete,
    Left,
    Right,
    Home,
    End,
    Up,
    Down,
    Char(char),
    Other,
}

/// A key that was pressed or released, with the modifiers that were held.
#[derive(Debug, Clone, Copy, PartialEq, Eq, Structural)]
pub struct KeyPress {
    pub code: KeyCode,
    pub control: bool,
    pub alt: bool,
    pub shift: bool,
    pub release: bool,
}

// ---------------------------------------------------------------------------
// Editing
// ---------------------------------------------------------------------------

/// A line that is being edited.
#[derive(Debug, Clone, PartialEq, Eq)]
pub struct EditorState {
    pub buffer: Vec<char>,
    pub cursor: usize,
    /// Where the selection began.
    pub anchor: Option<usize>,
    /// Which entry of the history is shown; its length for none.
    pub index: usize,
    /// The line that was being written before the history was walked.
    pub saved: Vec<char>,
}

/// A line that is being edited.
#[verifier::ext_equal]
pub struct EditorView {
    pub buffer: Seq<char>,
    pub cursor: usize,
    pub anchor: Option<usize>,
    pub index: usize,
    pub saved: Seq<char>,
}

impl View for EditorState {
    type V = EditorView;

    open spec fn view(&self) -> EditorView {
        EditorView {
            buffer: self.buffer@,
            cursor: self.cursor,
            anchor: self.anchor,
            index: self.index,
            saved: self.saved@,
        }
    }
}

impl EditorView {
    /// Whether the cursor and the selection are inside the line, and the
    /// history is not walked beyond its `n` entries.
    pub open spec fn valid(self, n: nat) -> bool {
        &&& self.cursor <= self.buffer.len()
        &&& self.anchor matches Some(a) ==> a <= self.buffer.len()
        &&& self.index <= n
        &&& self.buffer.len() <= usize::MAX
        &&& self.saved.len() <= usize::MAX
    }
}

/// What a key leads to.
#[derive(Debug, Clone, PartialEq, Eq)]
pub enum Reaction {
    /// The line is to be shown anew.
    Redraw,
    /// The line was given up: the fresh one is shown, and shown anew.
    Restart,
    /// Nothing happened.
    Ignore,
    Line,
    Eof,
    Aborted,
}

/// The line without its selection, where it has one.
pub open spec fn without_selection(e: EditorView) -> EditorView {
    match selected(e.anchor, e.cursor) {
        Some((from, to)) => EditorView {
            buffer: cut(e.buffer, from as int, to as int),
            cursor: from,
            anchor: None,
            ..e
        },
        None => EditorView { anchor: None, ..e },
    }
}

/// The line with the selection deleted, or else the characters between two
/// places, behind which the cursor then stands.
pub open spec fn deleted_or(e: EditorView, from: int, to: int) -> EditorView {
    if selected(e.anchor, e.cursor) is Some {
        without_selection(e)
    } else {
        EditorView {
            buffer: cut(e.buffer, from, to),
            cursor: from as usize,
            anchor: None,
            ..e
        }
    }
}

/// An empty line, with no entry of the history shown.
pub open spec fn emptied(e: EditorView, n: nat) -> EditorView {
    EditorView {
        buffer: Seq::empty(),
        cursor: 0,
        anchor: None,
        index: n as usize,
        ..e
    }
}

/// The line with the cursor at another place and no selection.
pub open spec fn moved(e: EditorView, to: int) -> EditorView {
    EditorView { cursor: to as usize, anchor: None, ..e }
}

/// The line with the cursor at another place and the selection grown.
pub open spec fn stretched(e: EditorView, to: int) -> EditorView {
    EditorView {
        cursor: to as usize,
        anchor: extended(e.anchor, e.cursor, to as usize),
        ..e
    }
}

/// The place before the cursor.
pub open spec fn left_of(e: EditorView) -> int {
    if e.cursor > 0 {
        e.cursor - 1
    } else {
        0
    }
}

/// The place behind the cursor.
pub open spec fn right_of(e: EditorView) -> int {
    if e.cursor < e.buffer.len() {
        e.cursor + 1
    } else {
        e.buffer.len() as int
    }
}

/// A line that shows an entry of the history.
pub open spec fn showing(e: EditorView, line: Seq<char>, index: int) -> EditorView {
    EditorView {
        buffer: line,
        cursor: line.len() as usize,
        anchor: None,
        index: index as usize,
        ..e
    }
}

/// What a key does.
#[verifier::opaque]
pub open spec fn pressed(
    e: EditorView,
    history: Seq<Seq<char>>,
    k: KeyPress,
    allow_abort: bool,
    t: TalkView,
) -> (Reaction, EditorView, TalkView) {
    let n = history.len();
    match k.code {
        KeyCode::Enter => (Reaction::Line, e, t),
        KeyCode::Esc => if e.anchor is Some {
            (Reaction::Redraw, EditorView { anchor: None, ..e }, t)
        } else if allow_abort && e.buffer.len() == 0 {
            (Reaction::Aborted, e, dialog::told(t, StageCallView::Print("^[\r\n"@)))
        } else {
            (Reaction::Redraw, emptied(e, n), t)
        },
        KeyCode::Tab => {
            let e1 = without_selection(e);
            let (c, t1) = completed(e1.buffer, e1.cursor as int, t);
            (
                Reaction::Redraw,
                match c {
                    Some((b, at)) => EditorView { buffer: b, cursor: at as usize, ..e1 },
                    None => e1,
                },
                t1,
            )
        },
        KeyCode::Backspace => if k.alt {
            (
                Reaction::Redraw,
                deleted_or(e, word_before(e.buffer, e.cursor as int), e.cursor as int),
                t,
            )
        } else {
            (Reaction::Redraw, deleted_or(e, left_of(e), e.cursor as int), t)
        },
        KeyCode::Delete => (Reaction::Redraw, deleted_or(e, e.cursor as int, right_of(e)), t),
        KeyCode::Left => (
            Reaction::Redraw,
            if k.control && k.shift {
                stretched(e, word_before(e.buffer, e.cursor as int))
            } else if k.control {
                moved(e, word_before(e.buffer, e.cursor as int))
            } else if k.shift {
                stretched(e, left_of(e))
            } else {
                moved(e, left_of(e))
            },
            t,
        ),
        KeyCode::Right => (
            Reaction::Redraw,
            if k.control && k.shift {
                stretched(e, word_after(e.buffer, e.cursor as int))
            } else if k.control {
                moved(e, word_after(e.buffer, e.cursor as int))
            } else if k.shift {
                stretched(e, right_of(e))
            } else {
                moved(e, right_of(e))
            },
            t,
        ),
        KeyCode::Home => (
            Reaction::Redraw,
            if k.shift {
                stretched(e, 0)
            } else {
                moved(e, 0)
            },
            t,
        ),
        KeyCode::End => (
            Reaction::Redraw,
            if k.shift {
                stretched(e, e.buffer.len() as int)
            } else {
                moved(e, e.buffer.len() as int)
            },
            t,
        ),
        KeyCode::Up => (
            Reaction::Redraw,
            if e.index > 0 {
                let e1 = if e.index == n {
                    EditorView { saved: e.buffer, ..e }
                } else {
                    e
                };
                showing(e1, history[e.index - 1], e.index - 1)
            } else {
                e
            },
            t,
        ),
        KeyCode::Down => (
            Reaction::Redraw,
            if e.index < n {
                showing(
                    e,
                    if e.index + 1 == n {
                        e.saved
                    } else {
                        history[e.index + 1]
                    },
                    e.index + 1,
                )
            } else {
                e
            },
            t,
        ),
        KeyCode::Char(c) => if k.control && c == 'c' {
            (Reaction::Restart, emptied(e, n), dialog::told(t, StageCallView::Print("^C\r\n"@)))
        } else if k.control && c == 'd' {
            if e.buffer.len() == 0 {
                (Reaction::Eof, e, t)
            } else {
                (Reaction::Redraw, deleted_or(e, e.cursor as int, right_of(e)), t)
            }
        } else if k.control && c == 'u' {
            (Reaction::Redraw, deleted_or(e, 0, e.cursor as int), t)
        } else if k.control && c == 'k' {
            (
                Reaction::Redraw,
                deleted_or(e, e.cursor as int, e.buffer.len() as int),
                t,
            )
        } else if k.control && c == 'w' {
            (
                Reaction::Redraw,
                deleted_or(e, word_before(e.buffer, e.cursor as int), e.cursor as int),
                t,
            )
        } else if !k.control && !k.alt && e.buffer.len() < usize::MAX {
            let e1 = without_selection(e);
            (
                Reaction::Redraw,
                EditorView {
                    buffer: e1.buffer.insert(e1.cursor as int, c),
                    cursor: (e1.cursor + 1) as usize,
                    ..e1
                },
                t,
            )
        } else {
            (Reaction::Ignore, e, t)
        },
        KeyCode::Other => (Reaction::Ignore, e, t),
    }
}

impl EditorState {
    /// An empty line before a history of `n` entries.
    pub fn new(n: usize) -> (r: EditorState)
        ensures
            r@ == (EditorView {
                buffer: Seq::empty(),
                cursor: 0,
                anchor: None,
                index: n,
                saved: Seq::empty(),
            }),
            r@.valid(n as nat),
    {
        let r = EditorState {
            buffer: Vec::new(),
            cursor: 0,
            anchor: None,
            index: n,
            saved: Vec::new(),
        };
        assert(r@ =~= (EditorView {
            buffer: Seq::empty(),
            cursor: 0,
            anchor: None,
            index: n,
            saved: Seq::empty(),
        }));
        r
    }

    fn drop_selection(&mut self, Ghost(n): Ghost<nat>)
        requires
            old(self)@.valid(n),
        ensures
            final(self)@ == without_selection(old(self)@),
            final(self)@.valid(n),
            final(self)@.buffer.len() <= old(self)@.buffer.len(),
    {
        let ghost before = self@;
        let _deleted = delete_selection(&mut self.buffer, &mut self.cursor, &mut self.anchor);
        assert(self@ =~= without_selection(before));
    }

    fn delete_or(&mut self, from: usize, to: usize, Ghost(n): Ghost<nat>)
        requires
            old(self)@.valid(n),
            from <= to <= old(self)@.buffer.len(),
        ensures
            final(self)@ == deleted_or(old(self)@, from as int, to as int),
            final(self)@.valid(n),
    {
        let ghost before = self@;
        if !delete_selection(&mut self.buffer, &mut self.cursor, &mut self.anchor) {
            cut_out(&mut self.buffer, from, to);
            self.cursor = from;
        }
        assert(self@ =~= deleted_or(before, from as int, to as int));
    }

    fn move_to(&mut self, to: usize, grow: bool, Ghost(n): Ghost<nat>)
        requires
            old(self)@.valid(n),
            to <= old(self)@.buffer.len(),
        ensures
            final(self)@ == if grow {
                stretched(old(self)@, to as int)
            } else {
                moved(old(self)@, to as int)
            },
            final(self)@.valid(n),
    {
        let ghost before = self@;
        if grow {
            extend_selection(&mut self.anchor, &mut self.cursor, to);
            assert(self@ =~= stretched(before, to as int));
        } else {
            self.anchor = None;
            self.cursor = to;
            assert(self@ =~= moved(before, to as int));
        }
    }

    fn clear(&mut self, n: usize)
        ensures
            final(self)@ == emptied(old(self)@, n as nat),
    {
        let ghost before = self@;
        self.buffer = Vec::new();
        self.cursor = 0;
        self.anchor = None;
        self.index = n;
        assert(self@ =~= emptied(before, n as nat));
    }

    fn show(&mut self, line: Vec<char>, index: usize)
        ensures
            final(self)@ == showing(old(self)@, line@, index as int),
    {
        let ghost before = self@;
        self.cursor = line.len();
        self.buffer = line;
        self.anchor = None;
        self.index = index;
        assert(self@ =~= showing(before, line@, index as int));
    }

    fn left(&self) -> (r: usize)
        ensures
            r == left_of(self@),
    {
        if self.cursor > 0 {
            self.cursor - 1
        } else {
            0
        }
    }

    fn right(&self) -> (r: usize)
        requires
            self.cursor <= self.buffer@.len(),
        ensures
            r == right_of(self@),
    {
        if self.cursor < self.buffer.len() {
            self.cursor + 1
        } else {
            self.buffer.len()
        }
    }

    /// Does what a key says.
    #[verifier::rlimit(40)]
    #[verifier::spinoff_prover]
    pub fn press(
        &mut self,
        history: &[String],
        k: KeyPress,
        allow_abort: bool,
        talk: &mut Talk,
    ) -> (r: Reaction)
        requires
            old(self)@.valid(history@.len()),
        ensures
            (r, final(self)@, final(talk)@) == pressed(
                old(self)@,
                text::texts(history@),
                k,
                allow_abort,
                old(talk)@,
            ),
            final(self)@.valid(history@.len()),
            r is Aborted ==> allow_abort,
    {
        let ghost before = self@;
        let ghost n = history@.len();
        let ghost all = text::texts(history@);
        proof {
            reveal(pressed);
        }
        match k.code {
            KeyCode::Enter => Reaction::Line,
            KeyCode::Esc => {
                if self.anchor.is_some() {
                    self.anchor = None;
                    assert(self@ =~= (EditorView { anchor: None, ..before }));
                    return Reaction::Redraw;
                }
                if allow_abort && self.buffer.len() == 0 {
                    talk.tell(StageCall::Print("^[\r\n".to_owned()));
                    return Reaction::Aborted;
                }
                self.clear(history.len());
                Reaction::Redraw
            },
            KeyCode::Tab => {
                self.drop_selection(Ghost(n));
                let ghost e1 = self@;
                match complete(&self.buffer, self.cursor, talk) {
                    Some((b, at)) => {
                        self.buffer = b;
                        self.cursor = at;
                        assert(self@ =~= (EditorView { buffer: b@, cursor: at, ..e1 }));
                        assert(self.buffer.len() <= usize::MAX);
                    },
                    None => {},
                }
                Reaction::Redraw
            },
            KeyCode::Backspace => {
                let from = if k.alt {
                    prev_word_boundary(&self.buffer, self.cursor)
                } else {
                    self.left()
                };
                self.delete_or(from, self.cursor, Ghost(n));
                Reaction::Redraw
            },
            KeyCode::Delete => {
                let to = self.right();
                self.delete_or(self.cursor, to, Ghost(n));
                Reaction::Redraw
            },
            KeyCode::Left => {
                let to = if k.control {
                    prev_word_boundary(&self.buffer, self.cursor)
                } else {
                    self.left()
                };
                self.move_to(to, k.shift, Ghost(n));
                Reaction::Redraw
            },
            KeyCode::Right => {
                let to = if k.control {
                    next_word_boundary(&self.buffer, self.cursor)
                } else {
                    self.right()
                };
                self.move_to(to, k.shift, Ghost(n));
                Reaction::Redraw
            },
            KeyCode::Home => {
                self.move_to(0, k.shift, Ghost(n));
                Reaction::Redraw
            },
            KeyCode::End => {
                let to = self.buffer.len();
                self.move_to(to, k.shift, Ghost(n));
                Reaction::Redraw
            },
            KeyCode::Up => {
                if self.index > 0 {
                    if self.index == history.len() {
                        self.saved = sub_chars(&self.buffer, 0, self.buffer.len());
                        assert(self.saved@ =~= before.buffer);
                        assert(self@ =~= (EditorView { saved: before.buffer, ..before }));
                    }
                    let at = self.index - 1;
                    assert(all[at as int] == history@[at as int]@);
                    let line = chars_of(history[at].as_str());
                    assert(line.len() <= usize::MAX);
                    self.show(line, at);
                }
                Reaction::Redraw
            },
            KeyCode::Down => {
                if self.index < history.len() {
                    let at = self.index + 1;
                    let line = if at == history.len() {
                        sub_chars(&self.saved, 0, self.saved.len())
                    } else {
                        assert(all[at as int] == history@[at as int]@);
                        chars_of(history[at].as_str())
                    };
                    assert(line.len() <= usize::MAX);
                    assert(at == n ==> line@ =~= before.saved);
                    self.show(line, at);
                }
                Reaction::Redraw
            },
            KeyCode::Char(c) => {
                if k.control && c == 'c' {
                    talk.tell(StageCall::Print("^C\r\n".to_owned()));
                    self.clear(history.len());
                    Reaction::Restart
                } else if k.control && c == 'd' {
                    if self.buffer.len() == 0 {
                        return Reaction::Eof;
                    }
                    let to = self.right();
                    self.delete_or(self.cursor, to, Ghost(n));
                    Reaction::Redraw
                } else if k.control && c == 'u' {
                    self.delete_or(0, self.cursor, Ghost(n));
                    Reaction::Redraw
                } else if k.control && c == 'k' {
                    let to = self.buffer.len();
                    self.delete_or(self.cursor, to, Ghost(n));
                    Reaction::Redraw
                } else if k.control && c == 'w' {
                    let from = prev_word_boundary(&self.buffer, self.cursor);
                    self.delete_or(from, self.cursor, Ghost(n));
                    Reaction::Redraw
                } else if !k.control && !k.alt && self.buffer.len() < usize::MAX {
                    self.drop_selection(Ghost(n));
                    let ghost e1 = self@;
                    self.buffer.insert(self.cursor, c);
                    self.cursor = self.cursor + 1;
                    assert(self@ =~= (EditorView {
                        buffer: e1.buffer.insert(e1.cursor as int, c),
                        cursor: (e1.cursor + 1) as usize,
                        ..e1
                    }));
                    Reaction::Redraw
                } else {
                    Reaction::Ignore
                }
            },
            KeyCode::Other => Reaction::Ignore,
        }
    }
}

/// What reading a line gave. Only the reading of a continuation line is ever
/// aborted.
#[derive(Debug, Clone, PartialEq, Eq)]
pub enum EditorOutcome {
    Line(String),
    Eof,
    Aborted,
}

/// What reading a line gave.
pub enum EditorOutcomeView {
    Line(Seq<char>),
    Eof,
    Aborted,
}

impl View for EditorOutcome {
    type V = EditorOutcomeView;

    open spec fn view(&self) -> EditorOutcomeView {
        match self {
            EditorOutcome::Line(line) => EditorOutcomeView::Line(line@),
            EditorOutcome::Eof => EditorOutcomeView::Eof,
            EditorOutcome::Aborted => EditorOutcomeView::Aborted,
        }
    }
}

/// The exchange after the line was shown anew.
pub open spec fn painted(prompt: Seq<char>, e: EditorView, t: TalkView) -> TalkView {
    dialog::asked(
        t,
        RequestView::Redraw(
            prompt,
            e.buffer,
            e.cursor as u64,
            match selected(e.anchor, e.cursor) {
                Some((from, to)) => Some((from as u64, to as u64)),
                None => None,
            },
        ),
    ).1
}

/// What a whole sequence of keys makes of a line: every key press is acted
/// on, releases and events that are no keys are passed over, and a failed
/// read is the end of the input, as is an exchange whose answers have run out.
pub open spec fn edited(
    e: EditorView,
    history: Seq<Seq<char>>,
    prompt: Seq<char>,
    allow_abort: bool,
    t: TalkView,
) -> (EditorOutcomeView, TalkView)
    decreases t.answers.len() - t.next,
    via edited_ends
{
    let (a, t1) = dialog::asked(t, RequestView::ReadKey);
    match a {
        AnswerView::Failure(_) => (EditorOutcomeView::Eof, t1),
        AnswerView::Key(k) => if k.release {
            edited(e, history, prompt, allow_abort, t1)
        } else {
            let (r, e2, t2) = pressed(e, history, k, allow_abort, t1);
            match r {
                Reaction::Line => (EditorOutcomeView::Line(e2.buffer), t2),
                Reaction::Eof => (EditorOutcomeView::Eof, t2),
                Reaction::Aborted => (EditorOutcomeView::Aborted, t2),
                Reaction::Ignore => edited(e2, history, prompt, allow_abort, t2),
                Reaction::Redraw => edited(
                    e2,
                    history,
                    prompt,
                    allow_abort,
                    painted(prompt, e2, t2),
                ),
                Reaction::Restart => edited(
                    e2,
                    history,
                    prompt,
                    allow_abort,
                    painted(prompt, e2, painted(prompt, e2, t2)),
                ),
            }
        },
        _ => if t1.pending is Some {
            (EditorOutcomeView::Eof, t1)
        } else {
            edited(e, history, prompt, allow_abort, t1)
        },
    }
}

#[via_fn]
proof fn edited_ends(
    e: EditorView,
    history: Seq<Seq<char>>,
    prompt: Seq<char>,
    allow_abort: bool,
    t: TalkView,
) {
    let (a, t1) = dialog::asked(t, RequestView::ReadKey);
    if let AnswerView::Key(k) = a {
        lemma_press_reads_on(e, history, k, allow_abort, t1);
    }
}

/// No key gives answers back.
proof fn lemma_press_reads_on(
    e: EditorView,
    history: Seq<Seq<char>>,
    k: KeyPress,
    allow_abort: bool,
    t: TalkView,
)
    ensures
        pressed(e, history, k, allow_abort, t).2.next >= t.next,
        pressed(e, history, k, allow_abort, t).2.answers == t.answers,
        t.next <= t.answers.len() ==> pressed(e, history, k, allow_abort, t).2.next
            <= t.answers.len(),
        pressed(e, history, k, allow_abort, t).0 is Aborted ==> allow_abort,
{
    reveal(pressed);
}

impl EditorView {
    /// An empty line before a history of `n` entries.
    pub open spec fn fresh(n: nat) -> EditorView {
        EditorView {
            buffer: Seq::empty(),
            cursor: 0,
            anchor: None,
            index: n as usize,
            saved: Seq::empty(),
        }
    }
}

/// Reads a line that is typed on a plain input.
pub open spec fn read_plainly(prompt: Seq<char>, t: TalkView) -> (EditorOutcomeView, TalkView) {
    let (a, t1) = dialog::asked(t, RequestView::ReadPlain(prompt));
    (
        match a {
            AnswerView::Text(line) => EditorOutcomeView::Line(text::trimmed_end(line)),
            _ => EditorOutcomeView::Eof,
        },
        t1,
    )
}

/// Reads a line: with the editor on a terminal that goes into raw mode, and
/// plainly elsewhere.
pub open spec fn line_read(
    history: Seq<Seq<char>>,
    prompt: Seq<char>,
    allow_abort: bool,
    t: TalkView,
) -> (EditorOutcomeView, TalkView) {
    let (a, t1) = dialog::asked(t, RequestView::IsTerminal(0));
    if a.as_truth() {
        let (raw, t2) = dialog::tried(t1, RequestView::RawMode(true));
        match raw {
            Err(_) => read_plainly(prompt, t2),
            Ok(_) => {
                let e = EditorView::fresh(history.len());
                let (r, t3) = edited(e, history, prompt, allow_abort, painted(prompt, e, t2));
                let t4 = dialog::asked(t3, RequestView::RawMode(false)).1;
                (r, dialog::told(t4, StageCallView::Print("\r\n"@)))
            },
        }
    } else {
        read_plainly(prompt, t1)
    }
}

/// A history with one more line, unless the line is blank or the last one
/// over again.
pub open spec fn with_line(history: Seq<Seq<char>>, line: Seq<char>) -> Seq<Seq<char>> {
    if text::trimmed(line).len() == 0 || (history.len() > 0 && history.last() == line) {
        history
    } else {
        history.push(line)
    }
}

/// A history without its last line, where that is the given one.
pub open spec fn without_line(history: Seq<Seq<char>>, line: Seq<char>) -> Seq<Seq<char>> {
    if history.len() > 0 && history.last() == line {
        history.drop_last()
    } else {
        history
    }
}

fn repaint(prompt: &str, e: &EditorState, talk: &mut Talk)
    ensures
        final(talk)@ == painted(prompt@, e@, old(talk)@),
{
    let line = text_of(&e.buffer);
    let range: Option<(u64, u64)> = match selection_range(e.anchor, e.cursor) {
        Some((from, to)) => Some((from as u64, to as u64)),
        None => None,
    };
    let _shown = talk.ask(Request::Redraw(prompt.to_owned(), line, e.cursor as u64, range));
}

fn read_line_plain(prompt: &str, talk: &mut Talk) -> (r: EditorOutcome)
    ensures
        (r@, final(talk)@) == read_plainly(prompt@, old(talk)@),
{
    match talk.ask(Request::ReadPlain(prompt.to_owned())) {
        Answer::Text(line) => {
            let v = chars_of(line.as_str());
            let t = trim_end_chars(&v);
            EditorOutcome::Line(text_of(&t))
        },
        _ => EditorOutcome::Eof,
    }
}

/// The line editor, with the lines that were entered before.
#[derive(Debug, Clone, PartialEq, Eq)]
pub struct LineEditor {
    pub lines: Vec<String>,
}

impl View for LineEditor {
    type V = Seq<Seq<char>>;

    open spec fn view(&self) -> Seq<Seq<char>> {
        text::texts(self.lines@)
    }
}

impl Default for LineEditor {
    fn default() -> (r: LineEditor)
        ensures
            r@ == Seq::<Seq<char>>::empty(),
    {
        LineEditor::new()
    }
}

impl LineEditor {
    /// An editor without history.
    pub fn new() -> (r: LineEditor)
        ensures
            r@ == Seq::<Seq<char>>::empty(),
    {
        let r = LineEditor { lines: Vec::new() };
        assert(r@ =~= Seq::<Seq<char>>::empty());
        r
    }

    /// An editor with the history of an earlier session.
    pub fn with_history(initial: Vec<String>) -> (r: LineEditor)
        ensures
            r@ == text::texts(initial@),
    {
        LineEditor { lines: initial }
    }

    /// The whole history.
    pub fn history(&self) -> (r: &[String])
        ensures
            text::texts(r@) == self@,
    {
        self.lines.as_slice()
    }

    /// Records a line.
    pub fn add_history(&mut self, line: &str)
        ensures
            final(self)@ == with_line(old(self)@, line@),
    {
        if trim_text(line).as_str().unicode_len() == 0 {
            return;
        }
        let n = self.lines.len();
        assert(self@.len() == n);
        assert(n > 0 ==> self@.last() == self.lines@[n - 1]@);
        if n > 0 && same(self.lines[n - 1].as_str(), line) {
            return;
        }
        let item = line.to_owned();
        proof {
            text::lemma_texts_push(self.lines@, item);
        }
        self.lines.push(item);
    }

    /// Takes the last line back where it is the given one.
    pub fn remove_last_history_if(&mut self, line: &str)
        ensures
            final(self)@ == without_line(old(self)@, line@),
    {
        let n = self.lines.len();
        let ghost before = self@;
        assert(self@.len() == n);
        assert(n > 0 ==> self@.last() == self.lines@[n - 1]@);
        if n > 0 && same(self.lines[n - 1].as_str(), line) {
            let _last = self.lines.pop();
            assert(self@ =~= before.drop_last());
        }
    }

    fn run_editor(&self, prompt: &str, allow_abort: bool, talk: &mut Talk) -> (r: EditorOutcome)
        ensures
            (r@, final(talk)@) == edited(
                EditorView::fresh(self@.len()),
                self@,
                prompt@,
                allow_abort,
                painted(prompt@, EditorView::fresh(self@.len()), old(talk)@),
            ),
    {
        let mut e = EditorState::new(self.lines.len());
        assert(e@ =~= EditorView::fresh(self@.len()));
        repaint(prompt, &e, talk);
        let ghost start = edited(e@, self@, prompt@, allow_abort, talk@);
        loop
            invariant
                e@.valid(self.lines@.len()),
                start == edited(e@, self@, prompt@, allow_abort, talk@),
                start == edited(
                    EditorView::fresh(self@.len()),
                    self@,
                    prompt@,
                    allow_abort,
                    painted(prompt@, EditorView::fresh(self@.len()), old(talk)@),
                ),
            decreases talk@.answers.len() - talk@.next,
        {
            let ghost t = talk@;
            match talk.ask(Request::ReadKey) {
                Answer::Failure(_) => {
                    return EditorOutcome::Eof;
                },
                Answer::Key(k) => {
                    if !k.release {
                        proof {
                            lemma_press_reads_on(e@, self@, k, allow_abort, talk@);
                        }
                        match e.press(&self.lines, k, allow_abort, talk) {
                            Reaction::Line => {
                                return EditorOutcome::Line(text_of(&e.buffer));
                            },
                            Reaction::Eof => {
                                return EditorOutcome::Eof;
                            },
                            Reaction::Aborted => {
                                return EditorOutcome::Aborted;
                            },
                            Reaction::Ignore => {},
                            Reaction::Redraw => {
                                repaint(prompt, &e, talk);
                            },
                            Reaction::Restart => {
                                repaint(prompt, &e, talk);
                                repaint(prompt, &e, talk);
                            },
                        }
                    }
                },
                _ => if talk.pending.is_some() {
                    return EditorOutcome::Eof;
                },
            }
        }
    }

    fn read_line_outcome(&self, prompt: &str, allow_abort: bool, talk: &mut Talk) -> (r:
        EditorOutcome)
        ensures
            (r@, final(talk)@) == line_read(self@, prompt@, allow_abort, old(talk)@),
    {
        if !talk.ask(Request::IsTerminal(0)).truth() {
            return read_line_plain(prompt, talk);
        }
        match talk.attempt(Request::RawMode(true)) {
            Err(_) => {
                return read_line_plain(prompt, talk);
            },
            Ok(_) => {},
        }
        let r = self.run_editor(prompt, allow_abort, talk);
        let _off = talk.ask(Request::RawMode(false));
        talk.tell(StageCall::Print("\r\n".to_owned()));
        r
    }

    /// Reads a line; nothing at the end of the input.
    pub fn read_line(&mut self, prompt: &str, talk: &mut Talk) -> (r: Option<String>)
        ensures
            *final(self) == *old(self),
            ({
                let (o, t) = line_read(old(self)@, prompt@, false, old(talk)@);
                final(talk)@ == t && match o {
                    EditorOutcomeView::Line(line) => r is Some && r->0@ == line,
                    _ => r is None && o is Eof,
                }
            }),
    {
        proof {
            law_only_continuations_are_aborted(self@, prompt@, talk@);
        }
        match self.read_line_outcome(prompt, false, talk) {
            EditorOutcome::Line(line) => Some(line),
            _ => None,
        }
    }

    /// Reads a continuation line of a block: Esc on an empty line aborts it.
    pub fn read_continuation_line(&mut self, prompt: &str, talk: &mut Talk) -> (r: EditorOutcome)
        ensures
            *final(self) == *old(self),
            (r@, final(talk)@) == line_read(old(self)@, prompt@, true, old(talk)@),
    {
        self.read_line_outcome(prompt, true, talk)
    }
}

proof fn lemma_never_aborted(
    e: EditorView,
    history: Seq<Seq<char>>,
    prompt: Seq<char>,
    t: TalkView,
)
    ensures
        !(edited(e, history, prompt, false, t).0 is Aborted),
    decreases t.answers.len() - t.next,
{
    let (a, t1) = dialog::asked(t, RequestView::ReadKey);
    match a {
        AnswerView::Failure(_) => {},
        AnswerView::Key(k) => {
            lemma_press_reads_on(e, history, k, false, t1);
            let (r, e2, t2) = pressed(e, history, k, false, t1);
            if k.release {
                lemma_never_aborted(e, history, prompt, t1);
            } else if r is Ignore {
                lemma_never_aborted(e2, history, prompt, t2);
            } else if r is Redraw {
                lemma_never_aborted(e2, history, prompt, painted(prompt, e2, t2));
            } else if r is Restart {
                let t3 = painted(prompt, e2, t2);
                lemma_never_aborted(e2, history, prompt, painted(prompt, e2, t3));
            }
        },
        _ => if t1.pending is None {
            lemma_never_aborted(e, history, prompt, t1);
        },
    }
}

/// An event that is no key changes nothing of the line and does not end it.
pub proof fn law_other_events_are_passed_over(
    e: EditorView,
    history: Seq<Seq<char>>,
    prompt: Seq<char>,
    allow_abort: bool,
    t: TalkView,
)
    requires
        ({
            let (a, t1) = dialog::asked(t, RequestView::ReadKey);
            &&& t1.pending is None
            &&& !(a is Key)
            &&& !(a is Failure)
        }),
    ensures
        edited(e, history, prompt, allow_abort, t) == edited(
            e,
            history,
            prompt,
            allow_abort,
            dialog::asked(t, RequestView::ReadKey).1,
        ),
{
}

/// A line at the top level is never aborted, whatever is typed.
pub proof fn law_only_continuations_are_aborted(
    history: Seq<Seq<char>>,
    prompt: Seq<char>,
    t: TalkView,
)
    ensures
        !(line_read(history, prompt, false, t).0 is Aborted),
{
    let (a, t1) = dialog::asked(t, RequestView::IsTerminal(0));
    let (raw, t2) = dialog::tried(t1, RequestView::RawMode(true));
    let e = EditorView::fresh(history.len());
    lemma_never_aborted(e, history, prompt, painted(prompt, e, t2));
}

proof fn lemma_back_inside(s: Seq<char>, i: int)
    requires
        0 <= i <= s.len(),
    ensures
        0 <= back_over_space(s, i) <= i,
        0 <= back_over_word(s, i) <= i,
    decreases i,
{
    if i > 0 {
        lemma_back_inside(s, i - 1);
    }
}

proof fn lemma_on_inside(s: Seq<char>, i: int)
    requires
        0 <= i <= s.len(),
    ensures
        i <= over_space(s, i) <= s.len(),
        i <= over_word(s, i) <= s.len(),
    decreases s.len() - i,
{
    if i < s.len() {
        lemma_on_inside(s, i + 1);
    }
}

proof fn lemma_token_inside(s: Seq<char>, n: int)
    requires
        0 <= n <= s.len(),
    ensures
        0 <= token_start(s, n) <= n,
    decreases n,
{
    if n > 0 {
        lemma_token_inside(s, n - 1);
    }
}

proof fn lemma_without_selection(e: EditorView, n: nat)
    requires
        e.valid(n),
    ensures
        without_selection(e).valid(n),
        without_selection(e).buffer.len() <= e.buffer.len(),
{
}

proof fn lemma_deleted(e: EditorView, from: int, to: int, n: nat)
    requires
        e.valid(n),
        0 <= from <= to <= e.buffer.len(),
    ensures
        deleted_or(e, from, to).valid(n),
{
    lemma_without_selection(e, n);
}

proof fn lemma_completed_inside(s: Seq<char>, cursor: int, t: TalkView)
    requires
        0 <= cursor <= s.len(),
    ensures
        completed(s, cursor, t).0 matches Some((b, at)) ==> 0 <= at <= b.len(),
{
    lemma_token_inside(s, cursor);
}

/// Whatever key is pressed, the cursor and the selection stay inside the
/// line, and the history is not walked beyond its ends, as long as the line
/// that comes out is one that a machine can hold.
#[verifier::rlimit(60)]
#[verifier::spinoff_prover]
pub proof fn law_cursor_stays_inside(
    e: EditorView,
    history: Seq<Seq<char>>,
    k: KeyPress,
    allow_abort: bool,
    t: TalkView,
)
    requires
        e.valid(history.len()),
        history.len() <= usize::MAX,
        pressed(e, history, k, allow_abort, t).1.buffer.len() <= usize::MAX,
    ensures
        pressed(e, history, k, allow_abort, t).1.valid(history.len()),
{
    let s = e.buffer;
    let c = e.cursor as int;
    lemma_back_inside(s, c);
    lemma_back_inside(s, back_over_space(s, c));
    lemma_on_inside(s, c);
    lemma_on_inside(s, over_word(s, c));
    let e1 = without_selection(e);
    lemma_without_selection(e, history.len());
    match k.code {
        KeyCode::Tab => {
            lemma_completed_inside(e1.buffer, e1.cursor as int, t);
            reveal(pressed);
        },
        KeyCode::Backspace => {
            lemma_deleted(e, left_of(e), c, history.len());
            lemma_deleted(e, word_before(s, c), c, history.len());
            reveal(pressed);
        },
        KeyCode::Delete => {
            lemma_deleted(e, c, right_of(e), history.len());
            reveal(pressed);
        },
        KeyCode::Char(_) => {
            lemma_deleted(e, c, right_of(e), history.len());
            lemma_deleted(e, 0, c, history.len());
            lemma_deleted(e, c, s.len() as int, history.len());
            lemma_deleted(e, word_before(s, c), c, history.len());
            reveal(pressed);
        },
        _ => {
            reveal(pressed);
        },
    }
}

/// Up and then Down gives back the line that was being written.
pub proof fn law_down_undoes_up(
    e: EditorView,
    history: Seq<Seq<char>>,
    up: KeyPress,
    down: KeyPress,
    allow_abort: bool,
    t: TalkView,
)
    requires
        e.valid(history.len()),
        history.len() > 0,
        history.len() <= usize::MAX,
        e.index == history.len(),
        up.code is Up,
        down.code is Down,
    ensures
        ({
            let (_, e1, t1) = pressed(e, history, up, allow_abort, t);
            let (_, e2, t2) = pressed(e1, history, down, allow_abort, t1);
            e1.buffer == history.last() && e2.buffer == e.buffer && e2.index == e.index && t2 == t
        }),
{
    reveal(pressed);
}

/// Taking a line back undoes its recording: the history is as it was.
pub proof fn law_removal_undoes_recording(history: Seq<Seq<char>>, line: Seq<char>)
    requires
        text::trimmed(line).len() > 0,
        history.len() == 0 || history.last() != line,
    ensures
        without_line(with_line(history, line), line) == history,
{
    assert(history.push(line).drop_last() =~= history);
}

/// Recording a line twice in a row records it once.
pub proof fn law_line_is_recorded_once(history: Seq<Seq<char>>, line: Seq<char>)
    ensures
        with_line(with_line(history, line), line) == with_line(history, line),
{
}

/// A key that is pressed with nothing held down.
pub open spec fn bare(code: KeyCode) -> KeyPress {
    KeyPress { code, control: false, alt: false, shift: false, release: false }
}

/// A character that is pressed with the control key.
pub open spec fn with_control(c: char) -> KeyPress {
    KeyPress { code: KeyCode::Char(c), control: true, alt: false, shift: false, release: false }
}

/// A character that is typed goes in at the cursor, which then stands behind
/// it; what is before and behind stays.
pub proof fn law_typing_inserts_at_the_cursor(
    e: EditorView,
    history: Seq<Seq<char>>,
    c: char,
    abort: bool,
    t: TalkView,
)
    requires
        e.valid(history.len()),
        e.anchor is None,
        e.buffer.len() < usize::MAX,
    ensures
        ({
            let (r, after, t2) = pressed(e, history, bare(KeyCode::Char(c)), abort, t);
            let at = e.cursor as int;
            &&& r is Redraw
            &&& after.buffer == e.buffer.take(at) + seq![c] + e.buffer.skip(at)
            &&& after.cursor == at + 1
            &&& after.anchor is None
            &&& t2 == t
        }),
{
    reveal(pressed);
    let at = e.cursor as int;
    assert(e.buffer.insert(at, c) =~= e.buffer.take(at) + seq![c] + e.buffer.skip(at));
}

/// Backspace takes the character before the cursor, Delete the one behind it,
/// and a backspace takes back what was typed.
pub proof fn law_backspace_takes_back(
    e: EditorView,
    history: Seq<Seq<char>>,
    c: char,
    abort: bool,
    t: TalkView,
)
    requires
        e.valid(history.len()),
        e.anchor is None,
        e.buffer.len() < usize::MAX,
    ensures
        ({
            let at = e.cursor as int;
            let back = pressed(e, history, bare(KeyCode::Backspace), abort, t).1;
            let gone = pressed(e, history, bare(KeyCode::Delete), abort, t).1;
            let typed = pressed(e, history, bare(KeyCode::Char(c)), abort, t).1;
            let again = pressed(typed, history, bare(KeyCode::Backspace), abort, t).1;
            &&& at > 0 ==> back.buffer == e.buffer.take(at - 1) + e.buffer.skip(at) && back.cursor
                == at - 1
            &&& at == 0 ==> back.buffer == e.buffer && back.cursor == 0
            &&& at < e.buffer.len() ==> gone.buffer == e.buffer.take(at) + e.buffer.skip(at + 1)
                && gone.cursor == at
            &&& at == e.buffer.len() ==> gone.buffer == e.buffer && gone.cursor == at
            &&& again.buffer == e.buffer && again.cursor == e.cursor
        }),
{
    reveal(pressed);
    let at = e.cursor as int;
    law_typing_inserts_at_the_cursor(e, history, c, abort, t);
    let typed = pressed(e, history, bare(KeyCode::Char(c)), abort, t).1;
    let again = pressed(typed, history, bare(KeyCode::Backspace), abort, t).1;
    assert(again.buffer =~= e.buffer);
    assert(cut(e.buffer, 0, 0) =~= e.buffer);
    assert(cut(e.buffer, at, at) =~= e.buffer);
}

/// The arrow keys move the cursor by one, Home and End to the ends, and none
/// changes the line.
pub proof fn law_arrows_move_the_cursor(
    e: EditorView,
    history: Seq<Seq<char>>,
    abort: bool,
    t: TalkView,
)
    requires
        e.valid(history.len()),
    ensures
        ({
            let press = |code: KeyCode| pressed(e, history, bare(code), abort, t).1;
            let n = e.buffer.len();
            &&& press(KeyCode::Left).cursor == (if e.cursor > 0 {
                e.cursor - 1
            } else {
                0
            })
            &&& press(KeyCode::Right).cursor == (if e.cursor < n {
                e.cursor + 1
            } else {
                n as int
            })
            &&& press(KeyCode::Home).cursor == 0
            &&& press(KeyCode::End).cursor == n
            &&& press(KeyCode::Left).buffer == e.buffer && press(KeyCode::Right).buffer == e.buffer
            &&& press(KeyCode::Home).buffer == e.buffer && press(KeyCode::End).buffer == e.buffer
            &&& press(KeyCode::Left).anchor is None && press(KeyCode::Right).anchor is None
        }),
{
    reveal(pressed);
}

/// With shift held the arrow keys select: what lies between where the
/// selection began and where the cursor went is selected, and a key that
/// deletes, or a character, takes its place.
pub proof fn law_selection_is_replaced(
    e: EditorView,
    history: Seq<Seq<char>>,
    c: char,
    abort: bool,
    t: TalkView,
)
    requires
        e.valid(history.len()),
        e.anchor is None,
        0 < e.cursor,
        e.buffer.len() < usize::MAX,
    ensures
        ({
            let at = e.cursor as int;
            let shifted = KeyPress {
                code: KeyCode::Left,
                control: false,
                alt: false,
                shift: true,
                release: false,
            };
            let one = pressed(e, history, shifted, abort, t).1;
            let typed = pressed(one, history, bare(KeyCode::Char(c)), abort, t).1;
            let gone = pressed(one, history, bare(KeyCode::Delete), abort, t).1;
            let rest = e.buffer.skip(at);
            &&& one.buffer == e.buffer
            &&& one.cursor == at - 1
            &&& selected(one.anchor, one.cursor) == Some(((at - 1) as usize, at as usize))
            &&& typed.buffer == e.buffer.take(at - 1) + seq![c] + rest
            &&& typed.cursor == at
            &&& gone.buffer == e.buffer.take(at - 1) + rest
            &&& gone.cursor == at - 1
            &&& gone.anchor is None
        }),
{
    reveal(pressed);
    let at = e.cursor as int;
    let shifted = KeyPress {
        code: KeyCode::Left,
        control: false,
        alt: false,
        shift: true,
        release: false,
    };
    let one = pressed(e, history, shifted, abort, t).1;
    let left = cut(e.buffer, at - 1, at);
    assert(left.insert(at - 1, c) =~= e.buffer.take(at - 1) + seq![c] + e.buffer.skip(at));
}

/// Control with `u` deletes up to the cursor and control with `k` from it on;
/// `c` starts over with an empty line; `d` ends the input on an empty line
/// and else deletes the character behind the cursor.
pub proof fn law_control_keys_delete(
    e: EditorView,
    history: Seq<Seq<char>>,
    abort: bool,
    t: TalkView,
)
    requires
        e.valid(history.len()),
        e.anchor is None,
        history.len() <= usize::MAX,
    ensures
        ({
            let at = e.cursor as int;
            let press = |c: char| pressed(e, history, with_control(c), abort, t);
            &&& press('u').1.buffer == e.buffer.skip(at) && press('u').1.cursor == 0
            &&& press('k').1.buffer == e.buffer.take(at) && press('k').1.cursor == at
            &&& press('c').0 is Restart && press('c').1.buffer.len() == 0 && press('c').1.cursor
                == 0
            &&& e.buffer.len() == 0 ==> press('d').0 is Eof
            &&& e.buffer.len() > 0 ==> press('d').1 == pressed(
                e,
                history,
                bare(KeyCode::Delete),
                abort,
                t,
            ).1 && press('d').0 is Redraw
        }),
{
    reveal(pressed);
    let at = e.cursor as int;
    assert(cut(e.buffer, 0, at) =~= e.buffer.skip(at));
    assert(cut(e.buffer, at, e.buffer.len() as int) =~= e.buffer.take(at));
}

proof fn lemma_back_over_space(s: Seq<char>, i: int)
    requires
        0 <= i <= s.len(),
    ensures
        0 <= back_over_space(s, i) <= i,
        forall|k: int| back_over_space(s, i) <= k < i ==> text::is_space_char(#[trigger] s[k]),
        back_over_space(s, i) > 0 ==> !text::is_space_char(s[back_over_space(s, i) - 1]),
    decreases i,
{
    if i > 0 && text::is_space_char(s[i - 1]) {
        lemma_back_over_space(s, i - 1);
    }
}

proof fn lemma_back_over_word(s: Seq<char>, i: int)
    requires
        0 <= i <= s.len(),
    ensures
        0 <= back_over_word(s, i) <= i,
        forall|k: int| back_over_word(s, i) <= k < i ==> !text::is_space_char(#[trigger] s[k]),
        back_over_word(s, i) > 0 ==> text::is_space_char(s[back_over_word(s, i) - 1]),
    decreases i,
{
    if i > 0 && !text::is_space_char(s[i - 1]) {
        lemma_back_over_word(s, i - 1);
    }
}

/// Control with `w`, and backspace with alt, delete the word before the
/// cursor with the white space behind it: what goes is a run without white
/// space and then a run of it, and what is left before begins no word.
pub proof fn law_words_are_deleted_whole(
    e: EditorView,
    history: Seq<Seq<char>>,
    abort: bool,
    t: TalkView,
)
    requires
        e.valid(history.len()),
        e.anchor is None,
    ensures
        ({
            let at = e.cursor as int;
            let after = pressed(e, history, with_control('w'), abort, t).1;
            let alt = KeyPress {
                code: KeyCode::Backspace,
                control: false,
                alt: true,
                shift: false,
                release: false,
            };
            let from = after.cursor as int;
            let mid = back_over_space(e.buffer, at);
            &&& pressed(e, history, alt, abort, t).1 == after
            &&& 0 <= from <= mid <= at
            &&& after.buffer == e.buffer.take(from) + e.buffer.skip(at)
            &&& forall|k: int| from <= k < mid ==> !text::is_space_char(#[trigger] e.buffer[k])
            &&& forall|k: int| mid <= k < at ==> text::is_space_char(#[trigger] e.buffer[k])
            &&& from > 0 ==> text::is_space_char(e.buffer[from - 1])
        }),
{
    reveal(pressed);
    lemma_back_over_space(e.buffer, e.cursor as int);
    lemma_back_over_word(e.buffer, back_over_space(e.buffer, e.cursor as int));
}

/// Up shows the entry before the one that is shown and Down the one behind
/// it, with the cursor at its end.
pub proof fn law_history_is_walked(
    e: EditorView,
    history: Seq<Seq<char>>,
    abort: bool,
    t: TalkView,
)
    requires
        e.valid(history.len()),
        history.len() <= usize::MAX,
        forall|k: int| 0 <= k < history.len() ==> (#[trigger] history[k]).len() <= usize::MAX,
    ensures
        ({
            let up = pressed(e, history, bare(KeyCode::Up), abort, t).1;
            let down = pressed(e, history, bare(KeyCode::Down), abort, t).1;
            let n = history.len();
            &&& e.index > 0 ==> up.buffer == history[e.index - 1] && up.index == e.index - 1
                && up.cursor == up.buffer.len()
            &&& e.index == 0 ==> up == e
            &&& e.index + 1 < n ==> down.buffer == history[e.index + 1] && down.index == e.index + 1
                && down.cursor == down.buffer.len()
            &&& e.index == n ==> down == e
        }),
{
    reveal(pressed);
}

/// Enter gives the line as it is. Escape drops the selection where there is
/// one, and else empties the line; on an empty line it gives up where that is
/// allowed.
pub proof fn law_lines_end(
    e: EditorView,
    history: Seq<Seq<char>>,
    abort: bool,
    t: TalkView,
)
    ensures
        pressed(e, history, bare(KeyCode::Enter), abort, t) == (Reaction::Line, e, t),
        ({
            let (r, after, t2) = pressed(e, history, bare(KeyCode::Esc), abort, t);
            &&& e.anchor is Some ==> r is Redraw && after.buffer == e.buffer && after.anchor is None
            &&& e.anchor is None && e.buffer.len() == 0 && abort ==> r is Aborted
            &&& e.anchor is None && !(e.buffer.len() == 0 && abort) ==> r is Redraw
                && after.buffer.len() == 0 && after.cursor == 0
        }),
{
    reveal(pressed);
}

/// Completion puts what it found in the place of the word before the cursor:
/// the rest of the line stays before and behind it.
pub proof fn law_completion_replaces_the_word(s: Seq<char>, cursor: int, t: TalkView)
    requires
        0 <= cursor <= s.len(),
        completed(s, cursor, t).0 is Some,
    ensures
        ({
            let (line, at) = completed(s, cursor, t).0->0;
            let start = token_start(s, cursor);
            &&& 0 <= start < cursor
            &&& forall|k: int| start <= k < cursor ==> !text::is_space_char(#[trigger] s[k])
            &&& start > 0 ==> text::is_space_char(s[start - 1])
            &&& line.take(start) == s.take(start)
            &&& start <= at <= line.len()
            &&& line.skip(at) == s.skip(cursor)
        }),
{
    lemma_token_starts(s, cursor);
    let (line, at) = completed(s, cursor, t).0->0;
    let start = token_start(s, cursor);
    assert(line.take(start) =~= s.take(start));
    assert(line.skip(at) =~= s.skip(cursor));
}

proof fn lemma_token_starts(s: Seq<char>, n: int)
    requires
        0 <= n <= s.len(),
    ensures
        0 <= token_start(s, n) <= n,
        forall|k: int| token_start(s, n) <= k < n ==> !text::is_space_char(#[trigger] s[k]),
        token_start(s, n) > 0 ==> text::is_space_char(s[token_start(s, n) - 1]),
    decreases n,
{
    if n > 0 && !text::is_space_char(s[n - 1]) {
        lemma_token_starts(s, n - 1);
    }
}

/// Whether a text is the completion of one of the first `n` entries that
/// begins as was typed, case aside: a directory is followed by a backslash,
/// anything else by a space.
pub open spec fn completes_one(
    entries: Seq<EntryView>,
    n: int,
    dir: Seq<char>,
    partial: Seq<char>,
    full: Seq<char>,
) -> bool {
    exists|k: int|
        0 <= k < n && text::begins_with(
            methods::lower((#[trigger] entries[k]).name),
            methods::lower(partial),
        ) && full == dir + entries[k].name + (if entries[k].is_dir {
            "\\"@
        } else {
            " "@
        })
}

/// The completions of a path are those of the entries that begin as was
/// typed, and no others.
pub proof fn law_completions_begin_as_typed(
    entries: Seq<EntryView>,
    n: int,
    dir: Seq<char>,
    partial: Seq<char>,
)
    requires
        0 <= n <= entries.len(),
    ensures
        forall|m: int|
            0 <= m < entry_matches(entries, n, dir, partial).len() ==> completes_one(
                entries,
                n,
                dir,
                partial,
                (#[trigger] entry_matches(entries, n, dir, partial)[m]).0,
            ),
        n > 0 && text::begins_with(
            methods::lower(entries[n - 1].name),
            methods::lower(partial),
        ) ==> entry_matches(entries, n, dir, partial).len() == entry_matches(
            entries,
            n - 1,
            dir,
            partial,
        ).len() + 1,
    decreases n,
{
    if n > 0 {
        law_completions_begin_as_typed(entries, n - 1, dir, partial);
        let before = entry_matches(entries, n - 1, dir, partial);
        let list = entry_matches(entries, n, dir, partial);
        assert forall|m: int| 0 <= m < list.len() implies completes_one(
            entries,
            n,
            dir,
            partial,
            (#[trigger] list[m]).0,
        ) by {
            if m < before.len() {
                assert(list[m] == before[m]);
                assert(completes_one(entries, n - 1, dir, partial, before[m].0));
                let k = choose|k: int|
                    0 <= k < n - 1 && text::begins_with(
                        methods::lower((#[trigger] entries[k]).name),
                        methods::lower(partial),
                    ) && before[m].0 == dir + entries[k].name + (if entries[k].is_dir {
                        "\\"@
                    } else {
                        " "@
                    });
                assert(entries[k].name == entries[k].name);
            } else {
                assert(entries[n - 1].name == entries[n - 1].name);
            }
        }
    }
}

/// One completion is taken whole; of several no more than what all begin with
/// is, where that is longer than what was typed; without one there is none.
pub proof fn law_one_completion_is_taken(prefix: Seq<char>, list: Seq<Seq<char>>)
    ensures
        list.len() == 0 ==> chosen(prefix, list) is None,
        list.len() == 1 ==> chosen(prefix, list) == Some(list[0]),
        chosen(prefix, list) matches Some(s) && list.len() > 1 ==> {
            let s = chosen(prefix, list)->0;
            s.len() <= list[0].len() && s == list[0].take(s.len() as int) && byte_count(s)
                > byte_count(prefix)
        },
{
    if list.len() > 1 {
        lemma_common_len(list, list.len() as int);
    }
}

proof fn lemma_common_len(list: Seq<Seq<char>>, n: int)
    requires
        list.len() > 0,
    ensures
        0 <= common_len(list, n) <= list[0].len(),
    decreases n,
{
    if n > 1 {
        lemma_common_len(list, n - 1);
        lemma_parts_at(list[0], list[n - 1], 0);
    }
}

proof fn lemma_parts_at(a: Seq<char>, b: Seq<char>, k: int)
    requires
        0 <= k <= a.len(),
    ensures
        k <= parts_at(a, b, k) <= a.len(),
    decreases a.len() - k,
{
    if k < a.len() && k < b.len() && alike(a[k], b[k]) {
        lemma_parts_at(a, b, k + 1);
    }
}

/// What the parts of a line are: from a `#` on all is a comment, quotes bound
/// what is quoted, a sigil begins a variable, and the first word is a keyword
/// or a command.
pub proof fn law_parts_are_told_apart(s: Seq<char>, i: int, seen: bool)
    requires
        0 <= i < s.len(),
    ensures
        s[i] == '#' ==> span_at(s, i, seen) == (SpanKind::Comment, s.len() as int),
        s[i] == '\'' || s[i] == '"' ==> span_at(s, i, seen).0 is Quoted,
        s[i] == '$' || s[i] == '@' ==> span_at(s, i, seen).0 is Variable,
        !ends_word(s[i]) && seen ==> span_at(s, i, seen).0 is Plain,
        !ends_word(s[i]) && !seen ==> (span_at(s, i, seen).0 is Keyword
            <==> builtin_names::is_language_word(s.subrange(i, word_stop(s, i)))) && (
        span_at(s, i, seen).0 is Keyword || span_at(s, i, seen).0 is Command),
{
}

} // verus!
