//! Index and slice specifiers (`[2..5]`) and brace expansion.
//!
//! A brace group holds a range (`{1..10}`, `{a..d}`) or a list of
//! alternatives (`{ext1,ext2}`); a word may hold several groups, and a group
//! may hold groups of its own. Each alternative is tried as a range first,
//! then as a word with groups of its own, and else stands for itself.
//!
//! Positions count Unicode scalar values. A negative index selects nothing;
//! a negative step walks backwards.

use crate::text;
use crate::text::{cat2, cat3, chars_of, extend_chars, extend_texts, find_from, i64_text, parse_i64, sub_chars, text_of, trim_text};
use vstd::prelude::*;

verus! {

/// A parsed `start..end` specifier.
#[derive(Debug, Clone, Copy, PartialEq, Eq, Structural)]
pub struct Slice {
    pub start: Option<i64>,
    pub step: Option<i64>,
    pub end: Option<i64>,
    pub inclusive: bool,
}

/// What a specifier selects: one position, or a range.
#[derive(Debug, Clone, Copy, PartialEq, Eq, Structural)]
pub enum IndexSpec {
    Index(i64),
    Range(Slice),
}

/// The `i64` that `s` writes.
pub open spec fn bound_of(s: Seq<char>) -> Option<i64> {
    match text::i64_of_text(s) {
        Some(i) => Some(i as i64),
        None => None,
    }
}

/// `s` from its second `..` on: whether the end is part of the range, and the
/// text of the end. `s` is what follows the dots.
pub open spec fn range_end(s: Seq<char>) -> (bool, Seq<char>) {
    if s.len() > 0 && (s[0] == '.' || s[0] == '=') {
        (true, s.skip(1))
    } else {
        (false, s)
    }
}

/// The place of the two dots, as a needle.
pub open spec fn dots() -> Seq<char> {
    seq!['.', '.']
}

/// The specifier that `text` writes: `start..end`, `start...end` or
/// `start..=end`, with a step either as `start,step..end` or as
/// `start..step..end`. `None` when there are no dots. A bound or a step that
/// is no number counts as left out.
pub open spec fn slice_of(text: Seq<char>) -> Option<Slice> {
    match text::found_from(text, dots(), 0) {
        None => None,
        Some(first) => {
            let left = text.take(first);
            let rest = text.skip(first + 2);
            let (inner_step, inclusive, end) = if range_end(rest).0 {
                (Seq::<char>::empty(), true, rest.skip(1))
            } else {
                match text::found_from(rest, dots(), 0) {
                    Some(second) => {
                        let (closed, e) = range_end(rest.skip(second + 2));
                        (rest.take(second), closed, e)
                    },
                    None => (Seq::<char>::empty(), false, rest),
                }
            };
            let (start, comma_step) = match text::found_from(left, seq![','], 0) {
                Some(comma) => (left.take(comma), left.skip(comma + 1)),
                None => (left, Seq::<char>::empty()),
            };
            let step = if inner_step.len() > 0 {
                inner_step
            } else {
                comma_step
            };
            Some(
                Slice {
                    start: bound_of(start),
                    step: bound_of(step),
                    end: bound_of(end),
                    inclusive,
                },
            )
        },
    }
}

/// The specifier that `text` writes: a range, or else one number.
pub open spec fn index_spec_of(text: Seq<char>) -> Option<IndexSpec> {
    match slice_of(text) {
        Some(slice) => Some(IndexSpec::Range(slice)),
        None => match text::i64_of_text(text::trimmed(text)) {
            Some(i) => Some(IndexSpec::Index(i as i64)),
            None => None,
        },
    }
}

/// The positions `i`, `i + step`, ... up to `last` that lie below `len`.
pub open spec fn ascending(i: int, step: int, last: int, len: int) -> Seq<int>
    decreases
        if i < len {
            len - i
        } else {
            0
        },
{
    if step > 0 && i <= last && i < len {
        seq![i] + ascending(i + step, step, last, len)
    } else {
        Seq::empty()
    }
}

/// The positions `i`, `i + step`, ... down to `last` that lie in `0..len`,
/// for a negative step; none once a position lies outside.
pub open spec fn descending(i: int, step: int, last: int, len: int) -> Seq<int>
    decreases
        if i >= 0 {
            i + 1
        } else {
            0
        },
{
    if step < 0 && i >= last && 0 <= i < len {
        seq![i] + descending(i + step, step, last, len)
    } else {
        Seq::empty()
    }
}

/// The positions that `slice` selects in a sequence of length `len`.
pub open spec fn slice_positions(len: int, slice: Slice) -> Seq<int> {
    let step = match slice.step {
        Some(s) => s as int,
        None => 1,
    };
    if step > 0 {
        let start = match slice.start {
            Some(s) if s > 0 => s as int,
            _ => 0,
        };
        let last = match slice.end {
            Some(e) => if slice.inclusive {
                e as int
            } else {
                e - 1
            },
            None => len - 1,
        };
        ascending(start, step, last, len)
    } else if step < 0 {
        let start = match slice.start {
            Some(s) => s as int,
            None => len - 1,
        };
        let last = match slice.end {
            Some(e) => if slice.inclusive {
                e as int
            } else {
                e + 1
            },
            None => 0,
        };
        descending(start, step, last, len)
    } else {
        Seq::empty()
    }
}

/// The positions that the specifier `text` selects in a sequence of length
/// `len`, or the message for a specifier that cannot be applied.
pub open spec fn positions_of(len: int, text: Seq<char>) -> Result<Seq<int>, Seq<char>> {
    match index_spec_of(text) {
        None => Err("invalid index/range '"@ + text + "'"@),
        Some(IndexSpec::Index(i)) => if 0 <= i < len {
            Ok(seq![i as int])
        } else {
            Err("index "@ + text::int_text(i as int) + " out of bounds"@)
        },
        Some(IndexSpec::Range(slice)) => Ok(slice_positions(len, slice)),
    }
}

/// What the specifier `text` selects out of `items`.
pub open spec fn selected<T>(items: Seq<T>, text: Seq<char>) -> Result<Seq<T>, Seq<char>> {
    match positions_of(items.len() as int, text) {
        Ok(positions) => Ok(Seq::new(positions.len(), |k: int| items[positions[k]])),
        Err(message) => Err(message),
    }
}

fn parse_i64_chars(v: &[char]) -> (r: Option<i64>)
    ensures
        r == bound_of(v@),
{
    let t = text_of(v);
    parse_i64(t.as_str())
}

fn tail(v: &[char], from: usize) -> (r: Vec<char>)
    requires
        from <= v@.len(),
    ensures
        r@ == v@.skip(from as int),
{
    assert(v@.subrange(from as int, v@.len() as int) == v@.skip(from as int));
    sub_chars(v, from, v.len())
}

fn head(v: &[char], to: usize) -> (r: Vec<char>)
    requires
        to <= v@.len(),
    ensures
        r@ == v@.take(to as int),
{
    assert(v@.subrange(0, to as int) == v@.take(to as int));
    sub_chars(v, 0, to)
}

fn dots_chars() -> (r: Vec<char>)
    ensures
        r@ == dots(),
{
    let r: Vec<char> = vec!['.', '.'];
    assert(r@ =~= dots());
    r
}

fn split_range_end(s: &[char]) -> (r: (bool, Vec<char>))
    ensures
        r.0 == range_end(s@).0,
        r.1@ == range_end(s@).1,
{
    if s.len() > 0 && (s[0] == '.' || s[0] == '=') {
        (true, tail(s, 1))
    } else {
        assert(s@.skip(0) == s@);
        (false, tail(s, 0))
    }
}

/// Reads a slice specifier.
pub fn parse_slice(spec: &str) -> (r: Option<Slice>)
    ensures
        r == slice_of(spec@),
{
    let v = chars_of(spec);
    let dd = dots_chars();
    let first: usize = match find_from(&v, &dd, 0) {
        Some(i) => i,
        None => return None,
    };
    assert(first + 2 <= v.len());
    let left = head(&v, first);
    let rest = tail(&v, first + 2);
    let (closed, after) = split_range_end(&rest);
    let mut inner_step: Vec<char> = Vec::new();
    let mut inclusive = closed;
    let mut end = after;
    if !closed {
        if let Some(second) = find_from(&rest, &dd, 0) {
            inner_step = head(&rest, second);
            let tail_part = tail(&rest, second + 2);
            let (c2, e2) = split_range_end(&tail_part);
            inclusive = c2;
            end = e2;
        }
    }
    assert(inner_step@ == Seq::<char>::empty() || inner_step@.len() > 0);
    let comma: Vec<char> = vec![','];
    assert(comma@ =~= seq![',']);
    let mut start = left.clone();
    let mut comma_step: Vec<char> = Vec::new();
    assert(start@ =~= left@);
    if let Some(c) = find_from(&left, &comma, 0) {
        start = head(&left, c);
        comma_step = tail(&left, c + 1);
    }
    let step = if inner_step.len() > 0 {
        inner_step
    } else {
        comma_step
    };
    Some(
        Slice {
            start: parse_i64_chars(&start),
            step: parse_i64_chars(&step),
            end: parse_i64_chars(&end),
            inclusive,
        },
    )
}

/// Reads an index or slice specifier.
pub fn parse_index_spec(spec: &str) -> (r: Option<IndexSpec>)
    ensures
        r == index_spec_of(spec@),
{
    if let Some(slice) = parse_slice(spec) {
        return Some(IndexSpec::Range(slice));
    }
    let t = trim_text(spec);
    match parse_i64(t.as_str()) {
        Some(i) => Some(IndexSpec::Index(i)),
        None => None,
    }
}

/// The position `i` of a sequence of length `len`, if there is one.
pub fn normalize_index(i: i64, len: usize) -> (r: Option<usize>)
    ensures
        r == if 0 <= i < len {
            Some(i as usize)
        } else {
            None
        },
{
    if i < 0 || i as u64 >= len as u64 {
        return None;
    }
    Some(i as usize)
}

/// Positions as mathematical integers.
pub open spec fn as_ints(v: Seq<usize>) -> Seq<int> {
    Seq::new(v.len(), |i: int| v[i] as int)
}

/// The positions that `slice` selects in a sequence of length `len`.
pub fn slice_indices(len: usize, slice: &Slice) -> (r: Vec<usize>)
    ensures
        as_ints(r@) == slice_positions(len as int, *slice),
        forall|k: int| 0 <= k < r@.len() ==> r@[k] < len,
{
    let step: i128 = match slice.step {
        Some(s) => s as i128,
        None => 1,
    };
    let mut out: Vec<usize> = Vec::new();
    assert(as_ints(out@) =~= Seq::<int>::empty());
    if step > 0 {
        let start: i128 = match slice.start {
            Some(s) if s > 0 => s as i128,
            _ => 0,
        };
        let last: i128 = match slice.end {
            Some(e) => if slice.inclusive {
                e as i128
            } else {
                e as i128 - 1
            },
            None => len as i128 - 1,
        };
        let ghost whole = ascending(start as int, step as int, last as int, len as int);
        let mut i: i128 = start;
        assert(as_ints(out@) + whole =~= whole);
        while i <= last && i < len as i128
            invariant
                0 <= i <= i64::MAX + len,
                0 < step <= i64::MAX,
                whole == as_ints(out@) + ascending(i as int, step as int, last as int, len as int),
                forall|k: int| 0 <= k < out@.len() ==> out@[k] < len,
            decreases
                if i < len {
                    len - i
                } else {
                    0
                },
        {
            let ghost before = as_ints(out@);
            out.push(i as usize);
            assert(as_ints(out@) =~= before.push(i as int));
            i = i + step;
            assert(before + (seq![i - step] + ascending(i as int, step as int, last as int, len as int))
                =~= as_ints(out@) + ascending(i as int, step as int, last as int, len as int));
        }
        assert(as_ints(out@) + Seq::<int>::empty() =~= as_ints(out@));
    } else if step < 0 {
        let start: i128 = match slice.start {
            Some(s) => s as i128,
            None => len as i128 - 1,
        };
        let last: i128 = match slice.end {
            Some(e) => if slice.inclusive {
                e as i128
            } else {
                e as i128 + 1
            },
            None => 0,
        };
        let ghost whole = descending(start as int, step as int, last as int, len as int);
        let mut i: i128 = start;
        assert(as_ints(out@) + whole =~= whole);
        while i >= last && i >= 0 && i < len as i128
            invariant
                i64::MIN * 2 <= i,
                i <= i64::MAX + len,
                i64::MIN <= step < 0,
                whole == as_ints(out@) + descending(i as int, step as int, last as int, len as int),
                forall|k: int| 0 <= k < out@.len() ==> out@[k] < len,
            decreases
                if i >= 0 {
                    i + 1
                } else {
                    0
                },
        {
            let ghost before = as_ints(out@);
            out.push(i as usize);
            assert(as_ints(out@) =~= before.push(i as int));
            i = i + step;
            assert(before + (seq![i - step] + descending(i as int, step as int, last as int, len as int))
                =~= as_ints(out@) + descending(i as int, step as int, last as int, len as int));
        }
        assert(as_ints(out@) + Seq::<int>::empty() =~= as_ints(out@));
    }
    out
}

/// The positions that a specifier selects, or the message for one that
/// cannot be applied.
fn positions(len: usize, spec: &str) -> (r: Result<Vec<usize>, String>)
    ensures
        match r {
            Ok(v) => positions_of(len as int, spec@) == Ok::<Seq<int>, Seq<char>>(as_ints(v@))
                && forall|k: int| 0 <= k < v@.len() ==> v@[k] < len,
            Err(e) => positions_of(len as int, spec@) == Err::<Seq<int>, Seq<char>>(e@),
        },
{
    match parse_index_spec(spec) {
        None => Err(cat3("invalid index/range '", spec, "'")),
        Some(IndexSpec::Index(i)) => {
            match normalize_index(i, len) {
                Some(idx) => {
                    let v: Vec<usize> = vec![idx];
                    assert(as_ints(v@) =~= seq![i as int]);
                    Ok(v)
                },
                None => {
                    let n = i64_text(i);
                    Err(cat3("index ", n.as_str(), " out of bounds"))
                },
            }
        },
        Some(IndexSpec::Range(slice)) => Ok(slice_indices(len, &slice)),
    }
}

/// Applies a specifier to an array: the selected elements, in the order of
/// the selection.
pub fn apply_array_slice(items: &[String], spec: &str) -> (r: Result<Vec<String>, String>)
    ensures
        match r {
            Ok(v) => selected(text::texts(items@), spec@) == Ok::<Seq<Seq<char>>, Seq<char>>(text::texts(v@)),
            Err(e) => selected(text::texts(items@), spec@) == Err::<Seq<Seq<char>>, Seq<char>>(e@),
        },
{
    match positions(items.len(), spec) {
        Err(e) => Err(e),
        Ok(at) => {
            let ghost want = Seq::new(at@.len(), |k: int| text::texts(items@)[as_ints(at@)[k]]);
            let mut out: Vec<String> = Vec::new();
            let mut k: usize = 0;
            while k < at.len()
                invariant
                    k <= at@.len(),
                    forall|j: int| 0 <= j < at@.len() ==> at@[j] < items@.len(),
                    want == Seq::new(at@.len(), |k: int| text::texts(items@)[as_ints(at@)[k]]),
                    text::texts(out@) == want.take(k as int),
                decreases at@.len() - k,
            {
                let item = items[at[k]].clone();
                proof {
                    text::lemma_texts_push(out@, item);
                    assert(want[k as int] == item@);
                    assert(want.take(k + 1) =~= want.take(k as int).push(item@));
                }
                out.push(item);
                k = k + 1;
            }
            assert(want.take(at@.len() as int) =~= want);
            Ok(out)
        },
    }
}

/// Applies a specifier to a string, character by character.
pub fn apply_string_slice(s: &str, spec: &str) -> (r: Result<String, String>)
    ensures
        match r {
            Ok(v) => selected(s@, spec@) == Ok::<Seq<char>, Seq<char>>(v@),
            Err(e) => selected(s@, spec@) == Err::<Seq<char>, Seq<char>>(e@),
        },
{
    let chars = chars_of(s);
    match positions(chars.len(), spec) {
        Err(e) => Err(e),
        Ok(at) => {
            let ghost want = Seq::new(at@.len(), |k: int| chars@[as_ints(at@)[k]]);
            let mut out = String::new();
            let mut k: usize = 0;
            while k < at.len()
                invariant
                    k <= at@.len(),
                    forall|j: int| 0 <= j < at@.len() ==> at@[j] < chars@.len(),
                    want == Seq::new(at@.len(), |k: int| chars@[as_ints(at@)[k]]),
                    out@ == want.take(k as int),
                decreases at@.len() - k,
            {
                out.push(chars[at[k]]);
                assert(want.take(k + 1) =~= want.take(k as int).push(chars@[at@[k as int] as int]));
                k = k + 1;
            }
            assert(want.take(at@.len() as int) =~= want);
            Ok(out)
        },
    }
}

/// The numbers from `i` by `step` up to `end`, with `end` itself only if the
/// sequence is inclusive.
pub open spec fn counted_up(i: int, end: int, step: int, inclusive: bool) -> Seq<int>
    decreases
        if i <= end {
            end - i + 1
        } else {
            0
        },
{
    if step > 0 && (i < end || (inclusive && i == end)) {
        seq![i] + counted_up(i + step, end, step, inclusive)
    } else {
        Seq::empty()
    }
}

/// The numbers from `i` by `step` down to `end`, with `end` itself only if
/// the sequence is inclusive.
pub open spec fn counted_down(i: int, end: int, step: int, inclusive: bool) -> Seq<int>
    decreases
        if i >= end {
            i - end + 1
        } else {
            0
        },
{
    if step > 0 && (i > end || (inclusive && i == end)) {
        seq![i] + counted_down(i - step, end, step, inclusive)
    } else {
        Seq::empty()
    }
}

/// The numbers from `start` towards `end` by `step`, in the direction in which
/// `end` lies; a step below one counts as one.
pub open spec fn counted(start: int, end: int, step: int, inclusive: bool) -> Seq<int> {
    let by = if step > 1 {
        step
    } else {
        1
    };
    if start <= end {
        counted_up(start, end, by, inclusive)
    } else {
        counted_down(start, end, by, inclusive)
    }
}

/// The size of a step, as far as it fits an `i64`; no size is zero.
pub open spec fn step_size(step: Option<i64>) -> int {
    match step {
        None => 1,
        Some(s) => if s == i64::MIN {
            i64::MIN as int
        } else if s < 0 {
            -s
        } else if s == 0 {
            1
        } else {
            s as int
        },
    }
}

/// The decimal notations of numbers.
pub open spec fn int_texts(numbers: Seq<int>) -> Seq<Seq<char>> {
    Seq::new(numbers.len(), |i: int| text::int_text(numbers[i]))
}

/// The words of a numeric range such as `1..10` or `0..3...12`.
pub open spec fn numeric_range(inner: Seq<char>) -> Option<Seq<Seq<char>>> {
    match slice_of(inner) {
        Some(Slice { start: Some(start), step, end: Some(end), inclusive }) => Some(
            int_texts(counted(start as int, end as int, step_size(step), inclusive)),
        ),
        _ => None,
    }
}

/// Whether `c` is an ASCII letter.
pub open spec fn is_letter(c: char) -> bool {
    65 <= c as u32 <= 90 || 97 <= c as u32 <= 122
}

/// The words of a range of letters such as `a..d`.
pub open spec fn letter_range(inner: Seq<char>) -> Option<Seq<Seq<char>>> {
    match text::found_from(inner, dots(), 0) {
        None => None,
        Some(first) => {
            let left = inner.take(first);
            let (inclusive, end) = range_end(inner.skip(first + 2));
            if left.len() == 1 && end.len() == 1 && is_letter(left[0]) && is_letter(end[0]) {
                let codes = counted(left[0] as u32 as int, end[0] as u32 as int, 1, inclusive);
                Some(Seq::new(codes.len(), |i: int| seq![codes[i] as char]))
            } else {
                None
            }
        },
    }
}

/// The words of a brace range: of a numeric one, or else of one of letters.
pub open spec fn brace_range(inner: Seq<char>) -> Option<Seq<Seq<char>>> {
    match numeric_range(inner) {
        Some(words) => Some(words),
        None => letter_range(inner),
    }
}

/// The numbers as mathematical integers.
pub open spec fn wide(v: Seq<i64>) -> Seq<int> {
    Seq::new(v.len(), |i: int| v[i] as int)
}

/// Every counted number lies between the two bounds.
proof fn lemma_counted_between(start: int, end: int, step: int, inclusive: bool)
    ensures
        forall|k: int|
            0 <= k < counted(start, end, step, inclusive).len() ==> (start <= #[trigger] counted(
                start,
                end,
                step,
                inclusive,
            )[k] <= end || end <= counted(start, end, step, inclusive)[k] <= start),
{
    let by = if step > 1 {
        step
    } else {
        1
    };
    if start <= end {
        lemma_up_between(start, end, by, inclusive);
    } else {
        lemma_down_between(start, end, by, inclusive);
    }
}

proof fn lemma_up_between(i: int, end: int, step: int, inclusive: bool)
    ensures
        forall|k: int|
            0 <= k < counted_up(i, end, step, inclusive).len() ==> i <= #[trigger] counted_up(
                i,
                end,
                step,
                inclusive,
            )[k] <= end,
    decreases
        if i <= end {
            end - i + 1
        } else {
            0
        },
{
    if step > 0 && (i < end || (inclusive && i == end)) {
        lemma_up_between(i + step, end, step, inclusive);
        let rest = counted_up(i + step, end, step, inclusive);
        assert forall|k: int| 0 <= k < counted_up(i, end, step, inclusive).len() implies i
            <= #[trigger] counted_up(i, end, step, inclusive)[k] <= end by {
            if k > 0 {
                assert(counted_up(i, end, step, inclusive)[k] == rest[k - 1]);
            }
        }
    }
}

proof fn lemma_down_between(i: int, end: int, step: int, inclusive: bool)
    ensures
        forall|k: int|
            0 <= k < counted_down(i, end, step, inclusive).len() ==> end <= #[trigger] counted_down(
                i,
                end,
                step,
                inclusive,
            )[k] <= i,
    decreases
        if i >= end {
            i - end + 1
        } else {
            0
        },
{
    if step > 0 && (i > end || (inclusive && i == end)) {
        lemma_down_between(i - step, end, step, inclusive);
        let rest = counted_down(i - step, end, step, inclusive);
        assert forall|k: int| 0 <= k < counted_down(i, end, step, inclusive).len() implies end
            <= #[trigger] counted_down(i, end, step, inclusive)[k] <= i by {
            if k > 0 {
                assert(counted_down(i, end, step, inclusive)[k] == rest[k - 1]);
            }
        }
    }
}

/// The numbers from `start` towards `end` by `step`.
pub fn numeric_sequence(start: i64, end: i64, step: i64, inclusive: bool) -> (r: Vec<i64>)
    ensures
        wide(r@) == counted(start as int, end as int, step as int, inclusive),
{
    let by: i128 = if step > 1 {
        step as i128
    } else {
        1
    };
    let mut out: Vec<i64> = Vec::new();
    assert(wide(out@) =~= Seq::<int>::empty());
    let mut i: i128 = start as i128;
    let last: i128 = end as i128;
    if start <= end {
        let ghost whole = counted_up(i as int, last as int, by as int, inclusive);
        assert(wide(out@) + whole =~= whole);
        while (inclusive && i <= last) || (!inclusive && i < last)
            invariant
                start <= i <= i64::MAX * 2,
                last == end,
                1 <= by <= i64::MAX,
                whole == wide(out@) + counted_up(i as int, last as int, by as int, inclusive),
            decreases
                if i <= last {
                    last - i + 1
                } else {
                    0
                },
        {
            let ghost before = wide(out@);
            out.push(i as i64);
            assert(wide(out@) =~= before.push(i as int));
            i = i + by;
            assert(before + (seq![i - by] + counted_up(i as int, last as int, by as int, inclusive))
                =~= wide(out@) + counted_up(i as int, last as int, by as int, inclusive));
        }
        assert(wide(out@) + Seq::<int>::empty() =~= wide(out@));
    } else {
        let ghost whole = counted_down(i as int, last as int, by as int, inclusive);
        assert(wide(out@) + whole =~= whole);
        while (inclusive && i >= last) || (!inclusive && i > last)
            invariant
                i64::MIN * 2 <= i <= start,
                last == end,
                1 <= by <= i64::MAX,
                whole == wide(out@) + counted_down(i as int, last as int, by as int, inclusive),
            decreases
                if i >= last {
                    i - last + 1
                } else {
                    0
                },
        {
            let ghost before = wide(out@);
            out.push(i as i64);
            assert(wide(out@) =~= before.push(i as int));
            i = i - by;
            assert(before + (seq![i + by] + counted_down(i as int, last as int, by as int, inclusive))
                =~= wide(out@) + counted_down(i as int, last as int, by as int, inclusive));
        }
        assert(wide(out@) + Seq::<int>::empty() =~= wide(out@));
    }
    out
}

/// Expands a numeric range.
pub fn expand_numeric_brace_range(inner: &str) -> (r: Option<Vec<String>>)
    ensures
        match r {
            Some(v) => numeric_range(inner@) == Some(text::texts(v@)),
            None => numeric_range(inner@) is None,
        },
{
    let slice = match parse_slice(inner) {
        Some(s) => s,
        None => return None,
    };
    let start: i64 = match slice.start {
        Some(i) => i,
        None => return None,
    };
    let end: i64 = match slice.end {
        Some(i) => i,
        None => return None,
    };
    let size: i64 = match slice.step {
        None => 1,
        Some(s) => if s == i64::MIN {
            i64::MIN
        } else if s < 0 {
            -s
        } else if s == 0 {
            1
        } else {
            s
        },
    };
    let numbers = numeric_sequence(start, end, size, slice.inclusive);
    let ghost want = int_texts(wide(numbers@));
    let mut out: Vec<String> = Vec::new();
    let mut k: usize = 0;
    while k < numbers.len()
        invariant
            k <= numbers@.len(),
            want == int_texts(wide(numbers@)),
            text::texts(out@) == want.take(k as int),
        decreases numbers@.len() - k,
    {
        let word = i64_text(numbers[k]);
        proof {
            text::lemma_texts_push(out@, word);
            assert(want.take(k + 1) =~= want.take(k as int).push(word@));
        }
        out.push(word);
        k = k + 1;
    }
    assert(want.take(numbers@.len() as int) =~= want);
    Some(out)
}

/// Whether `c` is an ASCII letter.
pub fn letter(c: char) -> (r: bool)
    ensures
        r == is_letter(c),
{
    let u: u32 = c as u32;
    (65 <= u && u <= 90) || (97 <= u && u <= 122)
}

/// Expands a range of letters.
pub fn expand_alpha_brace_range(inner: &str) -> (r: Option<Vec<String>>)
    ensures
        match r {
            Some(v) => letter_range(inner@) == Some(text::texts(v@)),
            None => letter_range(inner@) is None,
        },
{
    let v = chars_of(inner);
    let dd = dots_chars();
    let first: usize = match find_from(&v, &dd, 0) {
        Some(i) => i,
        None => return None,
    };
    assert(first + 2 <= v.len());
    let rest = tail(&v, first + 2);
    let (inclusive, end) = split_range_end(&rest);
    if first != 1 || end.len() != 1 || !letter(v[0]) || !letter(end[0]) {
        return None;
    }
    let a: i64 = v[0] as u32 as i64;
    let b: i64 = end[0] as u32 as i64;
    let codes = numeric_sequence(a, b, 1, inclusive);
    proof {
        lemma_counted_between(a as int, b as int, 1, inclusive);
    }
    let ghost ints = counted(a as int, b as int, 1, inclusive);
    let ghost want = Seq::new(ints.len(), |i: int| seq![ints[i] as char]);
    let mut out: Vec<String> = Vec::new();
    let mut k: usize = 0;
    while k < codes.len()
        invariant
            k <= codes@.len(),
            ints == wide(codes@),
            forall|j: int| 0 <= j < ints.len() ==> 65 <= #[trigger] ints[j] <= 122,
            want == Seq::new(ints.len(), |i: int| seq![ints[i] as char]),
            text::texts(out@) == want.take(k as int),
        decreases codes@.len() - k,
    {
        let mut word = String::new();
        assert(ints[k as int] == codes@[k as int]);
        let code: i64 = codes[k];
        word.push(code as u8 as char);
        proof {
            assert(word@ =~= seq![ints[k as int] as char]);
            text::lemma_texts_push(out@, word);
            assert(want.take(k + 1) =~= want.take(k as int).push(word@));
        }
        out.push(word);
        k = k + 1;
    }
    assert(want.take(codes@.len() as int) =~= want);
    assert(inner@.take(first as int)[0] == v@[0]);
    assert(letter_range(inner@)->0 =~= want);
    Some(out)
}

/// Expands the content of a brace range, such as `1..10`, `10...1` or `a..d`;
/// `None` for anything else.
pub fn expand_brace_range(inner: &str) -> (r: Option<Vec<String>>)
    ensures
        match r {
            Some(v) => brace_range(inner@) == Some(text::texts(v@)),
            None => brace_range(inner@) is None,
        },
{
    match expand_numeric_brace_range(inner) {
        Some(v) => Some(v),
        None => expand_alpha_brace_range(inner),
    }
}

/// A word cut into literal text and the contents of its brace groups.
pub enum BraceSegment {
    Literal(String),
    Group(String),
}

/// What a segment holds.
pub enum SegmentView {
    Literal(Seq<char>),
    Group(Seq<char>),
}

impl View for BraceSegment {
    type V = SegmentView;

    open spec fn view(&self) -> SegmentView {
        match self {
            BraceSegment::Literal(t) => SegmentView::Literal(t@),
            BraceSegment::Group(t) => SegmentView::Group(t@),
        }
    }
}

/// What the segments of a list hold.
pub open spec fn segment_views(list: Seq<BraceSegment>) -> Seq<SegmentView> {
    Seq::new(list.len(), |i: int| list[i]@)
}

/// The place of the `}` that closes `depth` open groups, from `i` on.
pub open spec fn group_close(w: Seq<char>, i: int, depth: int) -> Option<int>
    decreases w.len() - i,
{
    if i < 0 || i >= w.len() {
        None
    } else if w[i] == '{' {
        group_close(w, i + 1, depth + 1)
    } else if w[i] == '}' {
        if depth == 1 {
            Some(i)
        } else {
            group_close(w, i + 1, depth - 1)
        }
    } else {
        group_close(w, i + 1, depth)
    }
}

/// The place just after the first `}` at or after `i`, or the end.
pub open spec fn past_brace(w: Seq<char>, i: int) -> int
    decreases w.len() - i,
{
    if i < 0 || i >= w.len() {
        w.len() as int
    } else if w[i] == '}' {
        i + 1
    } else {
        past_brace(w, i + 1)
    }
}

/// The segments done so far, with the pending literal text if there is any.
pub open spec fn with_literal(done: Seq<SegmentView>, literal: Seq<char>) -> Seq<SegmentView> {
    if literal.len() > 0 {
        done.push(SegmentView::Literal(literal))
    } else {
        done
    }
}

/// The segments of `w` from `i` on, after the segments `done` and the pending
/// text `literal`. A `{` after `$` or `@` starts a variable reference, which is
/// literal text up to its `}`; `{}` is literal text too. `None` when a brace
/// has no partner.
pub open spec fn segments_from(
    w: Seq<char>,
    i: int,
    literal: Seq<char>,
    done: Seq<SegmentView>,
) -> Option<Seq<SegmentView>>
    decreases w.len() - i,
    when 0 <= i <= w.len()
    via segments_from_decreases
{
    if i >= w.len() {
        Some(with_literal(done, literal))
    } else if w[i] == '{' {
        if literal.len() > 0 && (literal.last() == '$' || literal.last() == '@') {
            let next = past_brace(w, i + 1);
            segments_from(w, next, literal + w.subrange(i, next), done)
        } else {
            match group_close(w, i + 1, 1) {
                None => None,
                Some(close) => if close == i + 1 {
                    segments_from(w, close + 1, literal + seq!['{', '}'], done)
                } else {
                    segments_from(
                        w,
                        close + 1,
                        Seq::empty(),
                        with_literal(done, literal).push(SegmentView::Group(w.subrange(i + 1, close))),
                    )
                },
            }
        }
    } else if w[i] == '}' {
        None
    } else {
        segments_from(w, i + 1, literal.push(w[i]), done)
    }
}

#[via_fn]
proof fn segments_from_decreases(
    w: Seq<char>,
    i: int,
    literal: Seq<char>,
    done: Seq<SegmentView>,
) {
    if i < w.len() {
        lemma_past_brace(w, i + 1);
        lemma_group_close(w, i + 1, 1);
    }
}

proof fn lemma_past_brace(w: Seq<char>, i: int)
    requires
        0 <= i <= w.len(),
    ensures
        i <= past_brace(w, i) <= w.len(),
    decreases w.len() - i,
{
    if i < w.len() && w[i] != '}' {
        lemma_past_brace(w, i + 1);
    }
}

proof fn lemma_group_close(w: Seq<char>, i: int, depth: int)
    requires
        0 <= i,
    ensures
        group_close(w, i, depth) matches Some(c) ==> i <= c < w.len(),
    decreases w.len() - i,
{
    if i < w.len() {
        let next = if w[i] == '{' {
            depth + 1
        } else if w[i] == '}' {
            depth - 1
        } else {
            depth
        };
        lemma_group_close(w, i + 1, next);
    }
}

/// Whether some segment is a group.
pub open spec fn has_group(list: Seq<SegmentView>) -> bool {
    exists|i: int| 0 <= i < list.len() && #[trigger] list[i] is Group
}

/// The segments of a word that holds a brace group; `None` for a word without
/// one, and for a word in which a brace has no partner.
pub open spec fn word_segments(w: Seq<char>) -> Option<Seq<SegmentView>> {
    match segments_from(w, 0, Seq::empty(), Seq::empty()) {
        Some(list) => if has_group(list) {
            Some(list)
        } else {
            None
        },
        None => None,
    }
}

fn find_group_close(w: &[char], from: usize) -> (r: Option<usize>)
    requires
        1 <= from <= w@.len(),
    ensures
        match r {
            Some(c) => group_close(w@, from as int, 1) == Some(c as int) && from <= c < w@.len(),
            None => group_close(w@, from as int, 1) is None,
        },
{
    let mut i: usize = from;
    let mut depth: usize = 1;
    while i < w.len()
        invariant
            1 <= from <= i <= w.len(),
            1 <= depth <= 1 + (i - from),
            group_close(w@, from as int, 1) == group_close(w@, i as int, depth as int),
        decreases w@.len() - i,
    {
        if w[i] == '{' {
            depth = depth + 1;
        } else if w[i] == '}' {
            if depth == 1 {
                return Some(i);
            }
            depth = depth - 1;
        }
        i = i + 1;
    }
    None
}

fn find_past_brace(w: &[char], from: usize) -> (r: usize)
    requires
        from <= w@.len(),
    ensures
        r == past_brace(w@, from as int),
        from <= r <= w@.len(),
{
    let mut i: usize = from;
    while i < w.len()
        invariant
            from <= i <= w@.len(),
            past_brace(w@, from as int) == past_brace(w@, i as int),
        decreases w@.len() - i,
    {
        if w[i] == '}' {
            return i + 1;
        }
        i = i + 1;
    }
    i
}

fn push_literal(done: &mut Vec<BraceSegment>, literal: &[char])
    ensures
        segment_views(final(done)@) == with_literal(segment_views(old(done)@), literal@),
        final(done)@.len() >= old(done)@.len(),
        forall|i: int| 0 <= i < old(done)@.len() ==> final(done)@[i] == old(done)@[i],
        forall|i: int| old(done)@.len() <= i < final(done)@.len() ==> final(done)@[i]@ is Literal,
{
    if literal.len() > 0 {
        let ghost before = done@;
        done.push(BraceSegment::Literal(text_of(literal)));
        assert(segment_views(done@) =~= segment_views(before).push(SegmentView::Literal(literal@)));
    }
}

/// Cuts a word into literal text and brace groups.
pub fn parse_top_level_segments(word: &str) -> (r: Option<Vec<BraceSegment>>)
    ensures
        match r {
            Some(list) => word_segments(word@) == Some(segment_views(list@)) && forall|k: int|
                0 <= k < list@.len() ==> (#[trigger] list@[k]@ matches SegmentView::Group(g)
                    ==> g.len() < word@.len()),
            None => word_segments(word@) is None,
        },
{
    let w = chars_of(word);
    let mut done: Vec<BraceSegment> = Vec::new();
    let mut literal: Vec<char> = Vec::new();
    let mut found = false;
    let mut i: usize = 0;
    let ghost whole = segments_from(w@, 0, Seq::empty(), Seq::empty());
    assert(segment_views(done@) =~= Seq::<SegmentView>::empty());
    while i < w.len()
        invariant
            i <= w@.len(),
            w@ == word@,
            whole == segments_from(w@, 0, Seq::empty(), Seq::empty()),
            whole == segments_from(w@, i as int, literal@, segment_views(done@)),
            found == has_group(segment_views(done@)),
            forall|k: int|
                0 <= k < done@.len() ==> (#[trigger] done@[k]@ matches SegmentView::Group(g)
                    ==> g.len() < w@.len()),
        decreases w@.len() - i,
    {
        let c: char = w[i];
        if c == '{' {
            if literal.len() > 0 && (literal[literal.len() - 1] == '$' || literal[literal.len() - 1]
                == '@') {
                let next: usize = find_past_brace(&w, i + 1);
                let part = sub_chars(&w, i, next);
                extend_chars(&mut literal, &part);
                i = next;
            } else {
                let close: usize = match find_group_close(&w, i + 1) {
                    Some(k) => k,
                    None => return None,
                };
                if close == i + 1 {
                    let ghost before = literal@;
                    literal.push('{');
                    literal.push('}');
                    assert(literal@ =~= before + seq!['{', '}']);
                } else {
                    let ghost start = segment_views(done@);
                    push_literal(&mut done, &literal);
                    let part = sub_chars(&w, i + 1, close);
                    let ghost middle = done@;
                    done.push(BraceSegment::Group(text_of(&part)));
                    proof {
                        assert(segment_views(done@) =~= segment_views(middle).push(
                            SegmentView::Group(part@),
                        ));
                        assert(segment_views(done@)[middle.len() as int] is Group);
                        assert forall|k: int| 0 <= k < done@.len() implies (
                        #[trigger] done@[k]@ matches SegmentView::Group(g) ==> g.len()
                            < w@.len()) by {
                            if k < middle.len() {
                                assert(done@[k] == middle[k]);
                            }
                        }
                    }
                    literal = Vec::new();
                    assert(literal@ =~= Seq::<char>::empty());
                    found = true;
                }
                i = close + 1;
            }
        } else if c == '}' {
            return None;
        } else {
            literal.push(c);
            i = i + 1;
        }
    }
    let ghost before = done@;
    push_literal(&mut done, &literal);
    proof {
        let a = segment_views(before);
        let b = segment_views(done@);
        assert(whole == Some(b));
        assert forall|k: int| 0 <= k < done@.len() implies (
        #[trigger] done@[k]@ matches SegmentView::Group(g) ==> g.len() < w@.len()) by {
            if k < before.len() {
                assert(done@[k] == before[k]);
            }
        }
        if has_group(a) {
            let k = choose|k: int| 0 <= k < a.len() && #[trigger] a[k] is Group;
            assert(b[k] == a[k]);
        }
        if has_group(b) {
            let k = choose|k: int| 0 <= k < b.len() && #[trigger] b[k] is Group;
            assert(b[k] == done@[k]@);
            assert(k < before.len());
            assert(a[k] == b[k]);
        }
    }
    if found {
        Some(done)
    } else {
        None
    }
}

/// The parts of a group's content between its commas; `depth` groups are open
/// at `i`, and the current part starts at `start`.
pub open spec fn comma_parts(content: Seq<char>, start: int, i: int, depth: int) -> Seq<Seq<char>>
    decreases content.len() - i,
{
    if i < 0 || i >= content.len() {
        seq![content.subrange(start, content.len() as int)]
    } else if content[i] == ',' && depth == 0 {
        seq![content.subrange(start, i)] + comma_parts(content, i + 1, i + 1, depth)
    } else {
        comma_parts(
            content,
            start,
            i + 1,
            if content[i] == '{' {
                depth + 1
            } else if content[i] == '}' {
                depth - 1
            } else {
                depth
            },
        )
    }
}

/// Cuts a group's content at the commas that stand in no inner group.
pub fn split_top_level_commas(content: &str) -> (r: Vec<String>)
    ensures
        text::texts(r@) == comma_parts(content@, 0, 0, 0),
        forall|k: int| 0 <= k < r@.len() ==> #[trigger] text::texts(r@)[k].len() <= content@.len(),
{
    let v = chars_of(content);
    let mut parts: Vec<String> = Vec::new();
    let mut depth: i128 = 0;
    let mut start: usize = 0;
    let mut i: usize = 0;
    let ghost whole = comma_parts(v@, 0, 0, 0);
    assert(text::texts(parts@) + whole =~= whole);
    while i < v.len()
        invariant
            start <= i <= v@.len(),
            v@ == content@,
            -i <= depth <= i,
            whole == text::texts(parts@) + comma_parts(v@, start as int, i as int, depth as int),
            forall|k: int|
                0 <= k < parts@.len() ==> #[trigger] text::texts(parts@)[k].len() <= v@.len(),
        decreases v@.len() - i,
    {
        let c: char = v[i];
        if c == ',' && depth == 0 {
            let part = sub_chars(&v, start, i);
            let word = text_of(&part);
            let ghost before = text::texts(parts@);
            proof {
                text::lemma_texts_push(parts@, word);
            }
            parts.push(word);
            assert(before + (seq![word@] + comma_parts(v@, i + 1, i + 1, depth as int))
                =~= text::texts(parts@) + comma_parts(v@, i + 1, i + 1, depth as int));
            start = i + 1;
        } else if c == '{' {
            depth = depth + 1;
        } else if c == '}' {
            depth = depth - 1;
        }
        i = i + 1;
    }
    let part = sub_chars(&v, start, v.len());
    let word = text_of(&part);
    proof {
        text::lemma_texts_push(parts@, word);
        assert(text::texts(parts@) + seq![word@] =~= text::texts(parts@).push(word@));
    }
    parts.push(word);
    parts
}

/// Each word of `a` followed by each word of `b`, in that order.
pub open spec fn crossed(a: Seq<Seq<char>>, b: Seq<Seq<char>>) -> Seq<Seq<char>>
    decreases a.len(),
{
    if a.len() == 0 {
        Seq::empty()
    } else {
        crossed(a.drop_last(), b) + Seq::new(b.len(), |j: int| a.last() + b[j])
    }
}

/// The words that the brace groups of `w` make: one for each way to choose an
/// alternative in every group. `None` when `w` holds no group.
pub open spec fn braces(w: Seq<char>) -> Option<Seq<Seq<char>>>
    decreases w.len(), 3nat, 0nat,
{
    match word_segments(w) {
        Some(list) => Some(segment_words(list, w.len())),
        None => None,
    }
}

/// The words that a list of segments makes, where groups are shorter than
/// `limit`.
pub open spec fn segment_words(list: Seq<SegmentView>, limit: nat) -> Seq<Seq<char>>
    decreases limit, 2nat, list.len(),
{
    if list.len() == 0 {
        seq![Seq::empty()]
    } else {
        let before = segment_words(list.drop_last(), limit);
        match list.last() {
            SegmentView::Literal(t) => Seq::new(before.len(), |i: int| before[i] + t),
            SegmentView::Group(content) => crossed(
                before,
                alternatives(comma_parts(content, 0, 0, 0), limit),
            ),
        }
    }
}

/// The words that the alternatives of a group stand for.
pub open spec fn alternatives(parts: Seq<Seq<char>>, limit: nat) -> Seq<Seq<char>>
    decreases limit, 1nat, parts.len(),
{
    if parts.len() == 0 {
        Seq::empty()
    } else {
        alternatives(parts.drop_last(), limit) + alternative_words(parts.last(), limit)
    }
}

/// The words that one alternative stands for: those of a range, or those of
/// its own groups, or else the alternative itself.
pub open spec fn alternative_words(part: Seq<char>, limit: nat) -> Seq<Seq<char>>
    decreases limit, 0nat, 0nat,
{
    match brace_range(part) {
        Some(words) => words,
        None => if part.len() < limit {
            match braces(part) {
                Some(words) => words,
                None => seq![part],
            }
        } else {
            seq![part]
        },
    }
}

fn cross_texts(a: &[String], b: &[String]) -> (r: Vec<String>)
    ensures
        text::texts(r@) == crossed(text::texts(a@), text::texts(b@)),
{
    let mut out: Vec<String> = Vec::new();
    let ghost ta = text::texts(a@);
    let ghost tb = text::texts(b@);
    let mut i: usize = 0;
    assert(text::texts(out@) =~= Seq::<Seq<char>>::empty());
    while i < a.len()
        invariant
            i <= a@.len(),
            ta == text::texts(a@),
            tb == text::texts(b@),
            text::texts(out@) == crossed(ta.take(i as int), tb),
        decreases a@.len() - i,
    {
        let ghost before = text::texts(out@);
        let ghost row = Seq::new(tb.len(), |j: int| ta[i as int] + tb[j]);
        let mut j: usize = 0;
        while j < b.len()
            invariant
                j <= b@.len(),
                i < a@.len(),
                ta == text::texts(a@),
                tb == text::texts(b@),
                row == Seq::new(tb.len(), |j: int| ta[i as int] + tb[j]),
                text::texts(out@) == before + row.take(j as int),
            decreases b@.len() - j,
        {
            let word = cat2(a[i].as_str(), b[j].as_str());
            proof {
                text::lemma_texts_push(out@, word);
                assert(word@ == row[j as int]);
                assert(before + row.take(j + 1) =~= (before + row.take(j as int)).push(word@));
            }
            out.push(word);
            j = j + 1;
        }
        proof {
            assert(row.take(b@.len() as int) =~= row);
            assert(ta.take(i + 1).drop_last() =~= ta.take(i as int));
            assert(ta.take(i + 1).last() == ta[i as int]);
            assert(Seq::new(tb.len(), |j: int| ta.take(i + 1).last() + tb[j]) =~= row);
        }
        i = i + 1;
    }
    assert(ta.take(a@.len() as int) =~= ta);
    out
}

fn expand_alternatives(content: &str, limit: Ghost<nat>) -> (r: Vec<String>)
    requires
        content@.len() < limit@,
    ensures
        text::texts(r@) == alternatives(comma_parts(content@, 0, 0, 0), limit@),
    decreases limit@, 0nat,
{
    let parts = split_top_level_commas(content);
    let ghost all = text::texts(parts@);
    let mut options: Vec<String> = Vec::new();
    let mut k: usize = 0;
    assert(text::texts(options@) =~= Seq::<Seq<char>>::empty());
    while k < parts.len()
        invariant
            k <= parts@.len(),
            all == text::texts(parts@),
            forall|m: int| 0 <= m < parts@.len() ==> #[trigger] all[m].len() < limit@,
            text::texts(options@) == alternatives(all.take(k as int), limit@),
        decreases parts@.len() - k,
    {
        let part = parts[k].as_str();
        proof {
            assert(part@ == all[k as int]);
            assert(all.take(k + 1).drop_last() =~= all.take(k as int));
            assert(all.take(k + 1).last() == part@);
            reveal_with_fuel(alternatives, 2);
            reveal_with_fuel(alternative_words, 2);
        }
        if let Some(words) = expand_brace_range(part) {
            extend_texts(&mut options, &words);
        } else if let Some(words) = expand_braces(part) {
            extend_texts(&mut options, &words);
        } else {
            let ghost before = text::texts(options@);
            let word: String = part.to_owned();
            proof {
                text::lemma_texts_push(options@, word);
                assert(before + seq![part@] =~= before.push(part@));
            }
            options.push(word);
        }
        k = k + 1;
    }
    assert(all.take(parts@.len() as int) =~= all);
    options
}

/// Expands every brace group of a word into the words it makes, in the order
/// of the alternatives; `None` when the word holds no group or a brace without
/// its partner.
pub fn expand_braces(word: &str) -> (r: Option<Vec<String>>)
    ensures
        match r {
            Some(v) => braces(word@) == Some(text::texts(v@)),
            None => braces(word@) is None,
        },
    decreases word@.len(), 1nat,
{
    let list = match parse_top_level_segments(word) {
        Some(list) => list,
        None => return None,
    };
    let ghost views = segment_views(list@);
    let ghost limit = word@.len();
    let mut combos: Vec<String> = vec![String::new()];
    assert(text::texts(combos@) =~= segment_words(Seq::<SegmentView>::empty(), limit));
    let mut k: usize = 0;
    assert(views.take(0) =~= Seq::<SegmentView>::empty());
    while k < list.len()
        invariant
            k <= list@.len(),
            limit == word@.len(),
            views == segment_views(list@),
            forall|m: int|
                0 <= m < list@.len() ==> (#[trigger] list@[m]@ matches SegmentView::Group(g)
                    ==> g.len() < limit),
            text::texts(combos@) == segment_words(views.take(k as int), limit),
        decreases list@.len() - k,
    {
        proof {
            assert(views.take(k + 1).drop_last() =~= views.take(k as int));
            assert(views.take(k + 1).last() == list@[k as int]@);
        }
        match &list[k] {
            BraceSegment::Literal(t) => {
                let one: Vec<String> = vec![t.clone()];
                let ghost before = text::texts(combos@);
                combos = cross_texts(&combos, &one);
                proof {
                    assert(text::texts(one@) =~= seq![t@]);
                    lemma_crossed_with_one(before, t@);
                }
            },
            BraceSegment::Group(content) => {
                assert(list@[k as int]@ == SegmentView::Group(content@));
                let options = expand_alternatives(content.as_str(), Ghost(limit));
                combos = cross_texts(&combos, &options);
            },
        }
        k = k + 1;
    }
    assert(views.take(list@.len() as int) =~= views);
    Some(combos)
}

proof fn lemma_crossed_with_one(a: Seq<Seq<char>>, t: Seq<char>)
    ensures
        crossed(a, seq![t]) == Seq::new(a.len(), |i: int| a[i] + t),
    decreases a.len(),
{
    if a.len() > 0 {
        lemma_crossed_with_one(a.drop_last(), t);
        assert(crossed(a, seq![t]) =~= Seq::new(a.len(), |i: int| a[i] + t));
    } else {
        assert(crossed(a, seq![t]) =~= Seq::new(a.len(), |i: int| a[i] + t));
    }
}

// ---------------------------------------------------------------------------
// Laws
// ---------------------------------------------------------------------------

/// Whether no word is longer than `n`.
pub open spec fn no_longer(words: Seq<Seq<char>>, n: int) -> bool {
    forall|i: int| 0 <= i < words.len() ==> (#[trigger] words[i]).len() <= n
}

proof fn lemma_nat_text_grows(a: nat, b: nat)
    requires
        a <= b,
    ensures
        text::nat_text(a).len() <= text::nat_text(b).len(),
        text::nat_text(a).len() >= 1,
    decreases b,
{
    if a >= 10 {
        lemma_nat_text_grows(a / 10, b / 10);
    } else if b >= 10 {
        lemma_nat_text_grows(0, b / 10);
    }
}

proof fn lemma_digits_at_least(s: Seq<char>)
    requires
        s.len() >= 1,
        text::all_digits(s),
    ensures
        text::nat_text(text::digits_value(s)).len() <= s.len(),
    decreases s.len(),
{
    let front = s.drop_last();
    let d = (s.last() as u32 - 48) as nat;
    assert(text::is_digit_char(s[s.len() - 1]));
    assert(d < 10);
    let v = text::digits_value(front);
    assert(text::digits_value(s) == v * 10 + d);
    if s.len() == 1 {
        assert(front =~= Seq::<char>::empty());
        assert(v == 0);
    } else if v * 10 + d >= 10 {
        assert(text::all_digits(front));
        lemma_digits_at_least(front);
        assert((v * 10 + d) / 10 == v);
    }
}

proof fn lemma_bound_text(s: Seq<char>)
    requires
        bound_of(s) is Some,
    ensures
        text::int_text(bound_of(s)->0 as int).len() <= s.len(),
{
    if s[0] == '-' || s[0] == '+' {
        lemma_digits_at_least(s.skip(1));
    } else {
        lemma_digits_at_least(s);
    }
    lemma_nat_text_grows(0, 0);
}

proof fn lemma_between_text(a: int, n: int, b: int)
    requires
        a <= n <= b,
    ensures
        text::int_text(n).len() <= text::int_text(a).len() || text::int_text(n).len()
            <= text::int_text(b).len(),
{
    if n >= 0 {
        lemma_nat_text_grows(n as nat, b as nat);
    } else {
        lemma_nat_text_grows((-n) as nat, (-a) as nat);
    }
}

proof fn lemma_range_fits(inner: Seq<char>)
    ensures
        brace_range(inner) matches Some(words) ==> no_longer(words, inner.len() as int),
{
    if let Some(first) = text::found_from(inner, dots(), 0) {
        text::lemma_found_is_first(inner, dots(), 0);
        let left = inner.take(first);
        let rest = inner.skip(first + 2);
        text::lemma_found_is_first(left, seq![','], 0);
        text::lemma_found_is_first(rest, dots(), 0);
        if let Some(words) = numeric_range(inner) {
            let slice = slice_of(inner)->0;
            let start_text = match text::found_from(left, seq![','], 0) {
                Some(comma) => left.take(comma),
                None => left,
            };
            let end_text = if range_end(rest).0 {
                rest.skip(1)
            } else {
                match text::found_from(rest, dots(), 0) {
                    Some(second) => range_end(rest.skip(second + 2)).1,
                    None => rest,
                }
            };
            assert(slice.start == bound_of(start_text));
            assert(slice.end == bound_of(end_text));
            lemma_bound_text(start_text);
            lemma_bound_text(end_text);
            let a = slice.start->0 as int;
            let b = slice.end->0 as int;
            let by = step_size(slice.step);
            lemma_counted_between(a, b, by, slice.inclusive);
            let ints = counted(a, b, by, slice.inclusive);
            assert forall|i: int| 0 <= i < words.len() implies (#[trigger] words[i]).len()
                <= inner.len() by {
                assert(words[i] == text::int_text(ints[i]));
                if a <= b {
                    lemma_between_text(a, ints[i], b);
                } else {
                    lemma_between_text(b, ints[i], a);
                }
            }
        }
    }
}

proof fn lemma_comma_parts_fit(content: Seq<char>, start: int, i: int, depth: int)
    requires
        0 <= start <= i <= content.len(),
    ensures
        no_longer(comma_parts(content, start, i, depth), content.len() as int),
    decreases content.len() - i,
{
    if i < content.len() {
        if content[i] == ',' && depth == 0 {
            lemma_comma_parts_fit(content, i + 1, i + 1, depth);
        } else {
            let next = if content[i] == '{' {
                depth + 1
            } else if content[i] == '}' {
                depth - 1
            } else {
                depth
            };
            lemma_comma_parts_fit(content, start, i + 1, next);
        }
    }
}

/// How many characters the segments of a list hold together.
spec fn weight(list: Seq<SegmentView>) -> nat
    decreases list.len(),
{
    if list.len() == 0 {
        0
    } else {
        weight(list.drop_last()) + match list.last() {
            SegmentView::Literal(t) => t.len(),
            SegmentView::Group(t) => t.len(),
        }
    }
}

proof fn lemma_weight_push(list: Seq<SegmentView>, item: SegmentView)
    ensures
        weight(list.push(item)) == weight(list) + match item {
            SegmentView::Literal(t) => t.len(),
            SegmentView::Group(t) => t.len(),
        },
{
    assert(list.push(item).drop_last() =~= list);
}

proof fn lemma_segments_fit(w: Seq<char>, i: int, literal: Seq<char>, done: Seq<SegmentView>)
    requires
        0 <= i <= w.len(),
    ensures
        segments_from(w, i, literal, done) matches Some(list) ==> weight(list) <= weight(done)
            + literal.len() + (w.len() - i),
    decreases w.len() - i,
{
    lemma_weight_push(done, SegmentView::Literal(literal));
    if i < w.len() {
        if w[i] == '{' {
            if literal.len() > 0 && (literal.last() == '$' || literal.last() == '@') {
                lemma_past_brace(w, i + 1);
                let next = past_brace(w, i + 1);
                lemma_segments_fit(w, next, literal + w.subrange(i, next), done);
            } else {
                lemma_group_close(w, i + 1, 1);
                if let Some(close) = group_close(w, i + 1, 1) {
                    if close == i + 1 {
                        lemma_segments_fit(w, close + 1, literal + seq!['{', '}'], done);
                    } else {
                        let group = SegmentView::Group(w.subrange(i + 1, close));
                        let more = with_literal(done, literal);
                        lemma_weight_push(more, group);
                        lemma_segments_fit(w, close + 1, Seq::empty(), more.push(group));
                    }
                }
            }
        } else if w[i] != '}' {
            lemma_segments_fit(w, i + 1, literal.push(w[i]), done);
        }
    }
}

proof fn lemma_crossed_fits(a: Seq<Seq<char>>, b: Seq<Seq<char>>, m: int, n: int)
    requires
        no_longer(a, m),
        no_longer(b, n),
    ensures
        no_longer(crossed(a, b), m + n),
    decreases a.len(),
{
    if a.len() > 0 {
        lemma_crossed_fits(a.drop_last(), b, m, n);
        let front = crossed(a.drop_last(), b);
        let row = Seq::new(b.len(), |j: int| a.last() + b[j]);
        let all = crossed(a, b);
        assert forall|i: int| 0 <= i < all.len() implies (#[trigger] all[i]).len() <= m + n by {
            if i >= front.len() {
                assert(all[i] == row[i - front.len()]);
                assert(a[a.len() - 1].len() <= m);
                assert(b[i - front.len()].len() <= n);
            } else {
                assert(all[i] == front[i]);
            }
        }
    }
}

proof fn lemma_segment_words_fit(list: Seq<SegmentView>, limit: nat)
    ensures
        no_longer(segment_words(list, limit), weight(list) as int),
    decreases limit, 2nat, list.len(),
{
    if list.len() > 0 {
        lemma_segment_words_fit(list.drop_last(), limit);
        let before = segment_words(list.drop_last(), limit);
        let w = weight(list.drop_last());
        match list.last() {
            SegmentView::Literal(t) => {
                let all = segment_words(list, limit);
                assert forall|i: int| 0 <= i < all.len() implies (#[trigger] all[i]).len()
                    <= weight(list) by {
                    assert(before[i].len() <= w);
                }
            },
            SegmentView::Group(content) => {
                lemma_comma_parts_fit(content, 0, 0, 0);
                let parts = comma_parts(content, 0, 0, 0);
                lemma_alternatives_fit(parts, limit, content.len() as int);
                lemma_crossed_fits(
                    before,
                    alternatives(parts, limit),
                    w as int,
                    content.len() as int,
                );
            },
        }
    }
}

proof fn lemma_alternatives_fit(parts: Seq<Seq<char>>, limit: nat, n: int)
    requires
        no_longer(parts, n),
    ensures
        no_longer(alternatives(parts, limit), n),
    decreases limit, 1nat, parts.len(),
{
    if parts.len() > 0 {
        assert(no_longer(parts.drop_last(), n));
        lemma_alternatives_fit(parts.drop_last(), limit, n);
        lemma_alternative_fits(parts.last(), limit);
        assert(parts[parts.len() - 1].len() <= n);
        let front = alternatives(parts.drop_last(), limit);
        let more = alternative_words(parts.last(), limit);
        let all = alternatives(parts, limit);
        assert(all == front + more);
        assert forall|i: int| 0 <= i < all.len() implies (#[trigger] all[i]).len() <= n by {
            if i >= front.len() {
                assert(all[i] == more[i - front.len()]);
            } else {
                assert(all[i] == front[i]);
            }
        }
    }
}

proof fn lemma_alternative_fits(part: Seq<char>, limit: nat)
    ensures
        no_longer(alternative_words(part, limit), part.len() as int),
    decreases limit, 0nat, 0nat,
{
    lemma_range_fits(part);
    if brace_range(part) is None && part.len() < limit {
        law_brace_words_fit(part);
    }
}

/// No word that brace expansion makes is longer than the word it came from.
pub proof fn law_brace_words_fit(w: Seq<char>)
    ensures
        braces(w) matches Some(words) ==> no_longer(words, w.len() as int),
    decreases w.len(), 3nat, 0nat,
{
    if let Some(list) = word_segments(w) {
        lemma_segments_fit(w, 0, Seq::empty(), Seq::empty());
        lemma_segment_words_fit(list, w.len());
    }
}

/// How many words a list of segments makes: the product of the numbers of
/// alternatives of its groups.
pub open spec fn ways(list: Seq<SegmentView>, limit: nat) -> nat
    decreases list.len(),
{
    if list.len() == 0 {
        1
    } else {
        match list.last() {
            SegmentView::Literal(t) => ways(list.drop_last(), limit),
            SegmentView::Group(content) => ways(list.drop_last(), limit) * alternatives(
                comma_parts(content, 0, 0, 0),
                limit,
            ).len(),
        }
    }
}

proof fn lemma_crossed_len(a: Seq<Seq<char>>, b: Seq<Seq<char>>)
    ensures
        crossed(a, b).len() == a.len() * b.len(),
    decreases a.len(),
{
    if a.len() > 0 {
        lemma_crossed_len(a.drop_last(), b);
        assert(a.len() * b.len() == (a.len() - 1) * b.len() + b.len()) by (nonlinear_arith)
            requires
                a.len() > 0,
        ;
    } else {
        assert(a.len() * b.len() == 0) by (nonlinear_arith)
            requires
                a.len() == 0,
        ;
    }
}

/// Several groups multiply: a word with groups makes one word for each way to
/// choose an alternative in every group.
pub proof fn law_groups_multiply(list: Seq<SegmentView>, limit: nat)
    ensures
        segment_words(list, limit).len() == ways(list, limit),
    decreases list.len(),
{
    if list.len() > 0 {
        law_groups_multiply(list.drop_last(), limit);
        if let SegmentView::Group(content) = list.last() {
            lemma_crossed_len(
                segment_words(list.drop_last(), limit),
                alternatives(comma_parts(content, 0, 0, 0), limit),
            );
        }
    }
}

/// Whether `s` holds neither a brace nor a comma.
pub open spec fn plain(s: Seq<char>) -> bool {
    forall|i: int| 0 <= i < s.len() ==> #[trigger] s[i] != '{' && s[i] != '}' && s[i] != ','
}

proof fn lemma_plain_group(w: Seq<char>, i: int)
    requires
        1 <= i < w.len(),
        w.last() == '}',
        forall|k: int| 1 <= k < w.len() - 1 ==> #[trigger] w[k] != '{' && w[k] != '}',
    ensures
        group_close(w, i, 1) == Some(w.len() - 1),
    decreases w.len() - i,
{
    if i < w.len() - 1 {
        lemma_plain_group(w, i + 1);
    }
}

proof fn lemma_plain_parts(s: Seq<char>, i: int)
    requires
        0 <= i <= s.len(),
        plain(s),
    ensures
        comma_parts(s, 0, i, 0) == seq![s],
    decreases s.len() - i,
{
    if i < s.len() {
        lemma_plain_parts(s, i + 1);
    } else {
        assert(s.subrange(0, s.len() as int) =~= s);
    }
}

/// A range that stands alone in braces makes exactly the words of the range.
pub proof fn law_bare_range(inner: Seq<char>)
    requires
        plain(inner),
        brace_range(inner) is Some,
    ensures
        braces(seq!['{'] + inner + seq!['}']) == brace_range(inner),
{
    let w = seq!['{'] + inner + seq!['}'];
    if inner.len() == 0 {
        text::lemma_found_is_first(inner, dots(), 0);
        assert(!text::occurs_at(inner, dots(), 0));
        assert(false);
    }
    assert forall|k: int| 1 <= k < w.len() - 1 implies #[trigger] w[k] != '{' && w[k] != '}' by {
        assert(w[k] == inner[k - 1]);
    }
    lemma_plain_group(w, 1);
    let group = SegmentView::Group(w.subrange(1, w.len() - 1));
    assert(w.subrange(1, w.len() - 1) =~= inner);
    let done = Seq::<SegmentView>::empty().push(group);
    assert(segments_from(w, w.len() as int, Seq::empty(), done) == Some(done));
    assert(segments_from(w, 0, Seq::empty(), Seq::empty()) == Some(done));
    assert(done[0] is Group);
    assert(word_segments(w) == Some(done));
    lemma_plain_parts(inner, 0);
    let words = brace_range(inner)->0;
    let limit = w.len();
    let parts = seq![inner];
    assert(parts.drop_last() =~= Seq::<Seq<char>>::empty());
    assert(alternatives(parts.drop_last(), limit) =~= Seq::<Seq<char>>::empty());
    assert(alternative_words(inner, limit) == words);
    assert(alternatives(parts, limit) =~= words);
    assert(done.drop_last() =~= Seq::<SegmentView>::empty());
    let before = segment_words(done.drop_last(), limit);
    assert(before =~= seq![Seq::<char>::empty()]);
    assert(before.drop_last() =~= Seq::<Seq<char>>::empty());
    assert(crossed(before.drop_last(), words) =~= Seq::<Seq<char>>::empty());
    assert forall|j: int| 0 <= j < words.len() implies before.last() + words[j] == words[j] by {
        assert(before.last() + words[j] =~= words[j]);
    }
    assert(crossed(before, words) =~= words);
    assert(segment_words(done, limit) == crossed(before, alternatives(parts, limit)));
}

/// A word without braces is left alone.
pub proof fn law_no_brace_no_expansion(w: Seq<char>)
    requires
        forall|i: int| 0 <= i < w.len() ==> #[trigger] w[i] != '{' && w[i] != '}',
    ensures
        braces(w) is None,
{
    lemma_no_brace(w, 0, Seq::empty());
    assert(w.take(0) =~= Seq::<char>::empty());
}

proof fn lemma_no_brace(w: Seq<char>, i: int, literal: Seq<char>)
    requires
        0 <= i <= w.len(),
        forall|k: int| 0 <= k < w.len() ==> #[trigger] w[k] != '{' && w[k] != '}',
    ensures
        segments_from(w, i, literal, Seq::empty()) matches Some(list) && !has_group(list),
    decreases w.len() - i,
{
    if i < w.len() {
        lemma_no_brace(w, i + 1, literal.push(w[i]));
    }
}

/// The range `..` selects everything, in order.
pub proof fn law_full_range_selects_all<T>(items: Seq<T>)
    ensures
        selected(items, dots()) == Ok::<Seq<T>, Seq<char>>(items),
{
    let d = dots();
    assert(d.subrange(0, 2) =~= d);
    assert(text::occurs_at(d, dots(), 0));
    let left = d.take(0);
    let rest = d.skip(2);
    assert(rest =~= Seq::<char>::empty());
    assert(left =~= Seq::<char>::empty());
    text::lemma_found_is_first(rest, dots(), 0);
    text::lemma_found_is_first(left, seq![','], 0);
    assert(!text::occurs_at(rest, dots(), 0));
    assert(!text::occurs_at(left, seq![','], 0));
    assert(bound_of(Seq::<char>::empty()) is None);
    let slice = Slice { start: None, step: None, end: None, inclusive: false };
    assert(slice_of(d) == Some(slice));
    lemma_ascending_all(0, items.len() as int);
    assert(selected(items, dots())->Ok_0 =~= items);
}

proof fn lemma_ascending_all(i: int, len: int)
    requires
        0 <= i <= len,
    ensures
        ascending(i, 1, len - 1, len) == Seq::new((len - i) as nat, |k: int| i + k),
    decreases len - i,
{
    if i < len {
        lemma_ascending_all(i + 1, len);
    }
    assert(ascending(i, 1, len - 1, len) =~= Seq::new((len - i) as nat, |k: int| i + k));
}

/// A slice selects positions of the sequence only.
pub proof fn law_slice_stays_inside(len: int, slice: Slice)
    requires
        0 <= len,
    ensures
        forall|k: int|
            0 <= k < slice_positions(len, slice).len() ==> 0 <= #[trigger] slice_positions(
                len,
                slice,
            )[k] < len,
{
    let step = match slice.step {
        Some(s) => s as int,
        None => 1,
    };
    if step > 0 {
        let start = match slice.start {
            Some(s) if s > 0 => s as int,
            _ => 0,
        };
        let last = match slice.end {
            Some(e) => if slice.inclusive {
                e as int
            } else {
                e - 1
            },
            None => len - 1,
        };
        lemma_ascending_inside(start, step, last, len);
    } else if step < 0 {
        let start = match slice.start {
            Some(s) => s as int,
            None => len - 1,
        };
        let last = match slice.end {
            Some(e) => if slice.inclusive {
                e as int
            } else {
                e + 1
            },
            None => 0,
        };
        lemma_descending_inside(start, step, last, len);
    }
}

proof fn lemma_ascending_inside(i: int, step: int, last: int, len: int)
    requires
        0 <= i,
    ensures
        forall|k: int|
            0 <= k < ascending(i, step, last, len).len() ==> 0 <= #[trigger] ascending(
                i,
                step,
                last,
                len,
            )[k] < len,
    decreases
        if i < len {
            len - i
        } else {
            0
        },
{
    if step > 0 && i <= last && i < len {
        lemma_ascending_inside(i + step, step, last, len);
        let rest = ascending(i + step, step, last, len);
        let all = ascending(i, step, last, len);
        assert forall|k: int| 0 <= k < all.len() implies 0 <= #[trigger] all[k] < len by {
            if k > 0 {
                assert(all[k] == rest[k - 1]);
            }
        }
    }
}

proof fn lemma_descending_inside(i: int, step: int, last: int, len: int)
    ensures
        forall|k: int|
            0 <= k < descending(i, step, last, len).len() ==> 0 <= #[trigger] descending(
                i,
                step,
                last,
                len,
            )[k] < len,
    decreases
        if i >= 0 {
            i + 1
        } else {
            0
        },
{
    if step < 0 && i >= last && 0 <= i < len {
        lemma_descending_inside(i + step, step, last, len);
        let rest = descending(i + step, step, last, len);
        let all = descending(i, step, last, len);
        assert forall|k: int| 0 <= k < all.len() implies 0 <= #[trigger] all[k] < len by {
            if k > 0 {
                assert(all[k] == rest[k - 1]);
            }
        }
    }
}

// ---------------------------------------------------------------------------
// Words one after the other
// ---------------------------------------------------------------------------

/// Each word of `b` behind `p`.
pub open spec fn prefixed(p: Seq<char>, b: Seq<Seq<char>>) -> Seq<Seq<char>> {
    Seq::new(b.len(), |j: int| p + b[j])
}

proof fn lemma_crossed_step(a: Seq<Seq<char>>, p: Seq<char>, b: Seq<Seq<char>>)
    ensures
        crossed(a.push(p), b) == crossed(a, b) + prefixed(p, b),
{
    assert(a.push(p).drop_last() =~= a);
    assert(crossed(a.push(p), b) =~= crossed(a, b) + prefixed(p, b));
}

proof fn lemma_crossed_sum(a: Seq<Seq<char>>, b: Seq<Seq<char>>, c: Seq<Seq<char>>)
    ensures
        crossed(a + b, c) == crossed(a, c) + crossed(b, c),
    decreases b.len(),
{
    if b.len() == 0 {
        assert(a + b =~= a);
        assert(crossed(a, c) + crossed(b, c) =~= crossed(a, c));
    } else {
        lemma_crossed_sum(a, b.drop_last(), c);
        assert(a + b =~= (a + b.drop_last()).push(b.last()));
        lemma_crossed_step(a + b.drop_last(), b.last(), c);
        assert(b.drop_last().push(b.last()) =~= b);
        lemma_crossed_step(b.drop_last(), b.last(), c);
        assert(crossed(a + b, c) =~= crossed(a, c) + crossed(b, c));
    }
}

proof fn lemma_crossed_prefix(p: Seq<char>, b: Seq<Seq<char>>, c: Seq<Seq<char>>)
    ensures
        crossed(prefixed(p, b), c) == prefixed(p, crossed(b, c)),
    decreases b.len(),
{
    if b.len() == 0 {
        assert(crossed(prefixed(p, b), c) =~= prefixed(p, crossed(b, c)));
    } else {
        let front = b.drop_last();
        lemma_crossed_prefix(p, front, c);
        assert(prefixed(p, b) =~= prefixed(p, front).push(p + b.last()));
        lemma_crossed_step(prefixed(p, front), p + b.last(), c);
        assert(front.push(b.last()) =~= b);
        lemma_crossed_step(front, b.last(), c);
        assert forall|j: int| 0 <= j < c.len() implies (p + b.last()) + (#[trigger] c[j]) == p + (
        b.last() + c[j]) by {
            assert((p + b.last()) + c[j] =~= p + (b.last() + c[j]));
        }
        assert(prefixed(p + b.last(), c) =~= prefixed(p, prefixed(b.last(), c)));
        assert(prefixed(p, crossed(front, c) + prefixed(b.last(), c)) =~= prefixed(
            p,
            crossed(front, c),
        ) + prefixed(p, prefixed(b.last(), c)));
    }
}

proof fn lemma_crossed_thrice(a: Seq<Seq<char>>, b: Seq<Seq<char>>, c: Seq<Seq<char>>)
    ensures
        crossed(crossed(a, b), c) == crossed(a, crossed(b, c)),
    decreases a.len(),
{
    if a.len() > 0 {
        let front = a.drop_last();
        lemma_crossed_thrice(front, b, c);
        assert(front.push(a.last()) =~= a);
        lemma_crossed_step(front, a.last(), b);
        lemma_crossed_sum(crossed(front, b), prefixed(a.last(), b), c);
        lemma_crossed_prefix(a.last(), b, c);
        lemma_crossed_step(front, a.last(), crossed(b, c));
    } else {
        assert(crossed(crossed(a, b), c) =~= crossed(a, crossed(b, c)));
    }
}

proof fn lemma_crossed_with_nothing(a: Seq<Seq<char>>)
    ensures
        crossed(a, seq![Seq::empty()]) == a,
{
    lemma_crossed_with_one(a, Seq::empty());
    assert forall|i: int| 0 <= i < a.len() implies (#[trigger] a[i]) + Seq::<char>::empty()
        == a[i] by {
        assert(a[i] + Seq::<char>::empty() =~= a[i]);
    }
    assert(crossed(a, seq![Seq::empty()]) =~= a);
}

proof fn lemma_segment_words_push(list: Seq<SegmentView>, item: SegmentView, limit: nat)
    ensures
        segment_words(list.push(item), limit) == crossed(
            segment_words(list, limit),
            match item {
                SegmentView::Literal(t) => seq![t],
                SegmentView::Group(content) => alternatives(comma_parts(content, 0, 0, 0), limit),
            },
        ),
{
    assert(list.push(item).drop_last() =~= list);
    if let SegmentView::Literal(t) = item {
        lemma_crossed_with_one(segment_words(list, limit), t);
        assert(segment_words(list.push(item), limit) =~= crossed(
            segment_words(list, limit),
            seq![t],
        ));
    }
}

proof fn lemma_segment_words_sum(a: Seq<SegmentView>, b: Seq<SegmentView>, limit: nat)
    ensures
        segment_words(a + b, limit) == crossed(segment_words(a, limit), segment_words(b, limit)),
    decreases b.len(),
{
    if b.len() == 0 {
        assert(a + b =~= a);
        lemma_crossed_with_nothing(segment_words(a, limit));
    } else {
        let front = b.drop_last();
        lemma_segment_words_sum(a, front, limit);
        assert(a + b =~= (a + front).push(b.last()));
        assert(front.push(b.last()) =~= b);
        lemma_segment_words_push(a + front, b.last(), limit);
        lemma_segment_words_push(front, b.last(), limit);
        let words = match b.last() {
            SegmentView::Literal(t) => seq![t],
            SegmentView::Group(content) => alternatives(comma_parts(content, 0, 0, 0), limit),
        };
        lemma_crossed_thrice(segment_words(a, limit), segment_words(front, limit), words);
    }
}

/// Whether every group of a list is shorter than `n`.
spec fn groups_below(list: Seq<SegmentView>, n: int) -> bool {
    forall|k: int|
        0 <= k < list.len() ==> match #[trigger] list[k] {
            SegmentView::Group(content) => content.len() < n,
            SegmentView::Literal(_) => true,
        }
}

proof fn lemma_groups_below(w: Seq<char>, i: int, literal: Seq<char>, done: Seq<SegmentView>)
    requires
        0 <= i <= w.len(),
        groups_below(done, w.len() as int),
    ensures
        segments_from(w, i, literal, done) matches Some(list) ==> groups_below(
            list,
            w.len() as int,
        ),
    decreases w.len() - i,
{
    if i < w.len() {
        if w[i] == '{' {
            if literal.len() > 0 && (literal.last() == '$' || literal.last() == '@') {
                lemma_past_brace(w, i + 1);
                let next = past_brace(w, i + 1);
                lemma_groups_below(w, next, literal + w.subrange(i, next), done);
            } else {
                lemma_group_close(w, i + 1, 1);
                if let Some(close) = group_close(w, i + 1, 1) {
                    if close == i + 1 {
                        lemma_groups_below(w, close + 1, literal + seq!['{', '}'], done);
                    } else {
                        let group = SegmentView::Group(w.subrange(i + 1, close));
                        lemma_groups_below(
                            w,
                            close + 1,
                            Seq::empty(),
                            with_literal(done, literal).push(group),
                        );
                    }
                }
            }
        } else if w[i] != '}' {
            lemma_groups_below(w, i + 1, literal.push(w[i]), done);
        }
    }
}

proof fn lemma_alternative_any_limit(part: Seq<char>, m: nat, n: nat)
    requires
        part.len() < m,
        part.len() < n,
    ensures
        alternative_words(part, m) == alternative_words(part, n),
{
}

proof fn lemma_alternatives_any_limit(parts: Seq<Seq<char>>, m: nat, n: nat)
    requires
        forall|k: int| 0 <= k < parts.len() ==> (#[trigger] parts[k]).len() < m,
        forall|k: int| 0 <= k < parts.len() ==> (#[trigger] parts[k]).len() < n,
    ensures
        alternatives(parts, m) == alternatives(parts, n),
    decreases parts.len(),
{
    if parts.len() > 0 {
        assert forall|k: int| 0 <= k < parts.len() - 1 implies (
        #[trigger] parts.drop_last()[k]).len() < m && parts.drop_last()[k].len() < n by {
            assert(parts.drop_last()[k] == parts[k]);
        }
        lemma_alternatives_any_limit(parts.drop_last(), m, n);
        assert(parts.last() == parts[parts.len() - 1]);
        lemma_alternative_any_limit(parts.last(), m, n);
    }
}

proof fn lemma_segment_words_any_limit(list: Seq<SegmentView>, m: nat, n: nat)
    requires
        groups_below(list, m as int),
        groups_below(list, n as int),
    ensures
        segment_words(list, m) == segment_words(list, n),
    decreases list.len(),
{
    if list.len() > 0 {
        let front = list.drop_last();
        assert forall|k: int| 0 <= k < front.len() implies match #[trigger] front[k] {
            SegmentView::Group(content) => content.len() < m && content.len() < n,
            SegmentView::Literal(_) => true,
        } by {
            assert(front[k] == list[k]);
        }
        lemma_segment_words_any_limit(front, m, n);
        assert(list[list.len() - 1] == list.last());
        if let SegmentView::Group(content) = list.last() {
            let parts = comma_parts(content, 0, 0, 0);
            lemma_comma_parts_fit(content, 0, 0, 0);
            lemma_alternatives_any_limit(parts, m, n);
        }
    }
}

/// Whether `v` can stand behind `u` without changing what the braces of
/// either mean: where a `$` or `@` of `u` stands before a `{`, the reference
/// that they begin ends inside `u`.
pub open spec fn stays_apart(u: Seq<char>, v: Seq<char>) -> bool {
    forall|k: int|
        0 <= k < u.len() && (#[trigger] u[k] == '$' || u[k] == '@') && (u + v)[k + 1] == '{'
            ==> exists|j: int| k < j < u.len() && #[trigger] u[j] == '}'
}

proof fn lemma_close_inside(u: Seq<char>, v: Seq<char>, i: int, depth: int)
    requires
        0 <= i,
        group_close(u, i, depth) is Some,
    ensures
        group_close(u + v, i, depth) == group_close(u, i, depth),
    decreases u.len() - i,
{
    if i < u.len() {
        assert((u + v)[i] == u[i]);
        if u[i] == '{' {
            lemma_close_inside(u, v, i + 1, depth + 1);
        } else if u[i] == '}' {
            if depth != 1 {
                lemma_close_inside(u, v, i + 1, depth - 1);
            }
        } else {
            lemma_close_inside(u, v, i + 1, depth);
        }
    }
}

proof fn lemma_close_behind(u: Seq<char>, v: Seq<char>, i: int, depth: int)
    requires
        0 <= i,
    ensures
        group_close(u + v, u.len() + i, depth) == match group_close(v, i, depth) {
            Some(c) => Some(u.len() + c),
            None => None,
        },
    decreases v.len() - i,
{
    if i < v.len() {
        assert((u + v)[u.len() + i] == v[i]);
        if v[i] == '{' {
            lemma_close_behind(u, v, i + 1, depth + 1);
        } else if v[i] == '}' {
            lemma_close_behind(u, v, i + 1, depth - 1);
        } else {
            lemma_close_behind(u, v, i + 1, depth);
        }
    }
}

proof fn lemma_past_inside(u: Seq<char>, v: Seq<char>, i: int, j: int)
    requires
        0 <= i <= j < u.len(),
        u[j] == '}',
    ensures
        past_brace(u + v, i) == past_brace(u, i),
        i < past_brace(u, i) <= u.len(),
        u[past_brace(u, i) - 1] == '}',
    decreases j - i,
{
    assert((u + v)[i] == u[i]);
    if u[i] != '}' {
        lemma_past_inside(u, v, i + 1, j);
    }
}

proof fn lemma_past_behind(u: Seq<char>, v: Seq<char>, i: int)
    requires
        0 <= i <= v.len(),
    ensures
        past_brace(u + v, u.len() + i) == u.len() + past_brace(v, i),
    decreases v.len() - i,
{
    if i < v.len() {
        assert((u + v)[u.len() + i] == v[i]);
        if v[i] != '}' {
            lemma_past_behind(u, v, i + 1);
        }
    }
}

/// Whether the pending text is what stands just before `i`.
spec fn just_before(w: Seq<char>, i: int, literal: Seq<char>) -> bool {
    literal.len() > 0 ==> i > 0 && literal.last() == w[i - 1]
}

/// Cutting `u + v` comes through `u` as cutting `u` does. Gives the pending
/// text and the segments at the end of `u`.
proof fn lemma_cut_front(
    u: Seq<char>,
    v: Seq<char>,
    i: int,
    literal: Seq<char>,
    done: Seq<SegmentView>,
) -> (r: (Seq<char>, Seq<SegmentView>))
    requires
        0 <= i <= u.len(),
        segments_from(u, i, literal, done) is Some,
        stays_apart(u, v),
        just_before(u, i, literal),
    ensures
        segments_from(u, i, literal, done) == Some(with_literal(r.1, r.0)),
        segments_from(u + v, i, literal, done) == segments_from(u + v, u.len() as int, r.0, r.1),
        just_before(u, u.len() as int, r.0),
    decreases u.len() - i,
{
    let w = u + v;
    if i >= u.len() {
        (literal, done)
    } else {
        assert(w[i] == u[i]);
        if u[i] == '{' {
            if literal.len() > 0 && (literal.last() == '$' || literal.last() == '@') {
                assert(u[i - 1] == '$' || u[i - 1] == '@');
                assert(w[(i - 1) + 1] == '{');
                let j = choose|j: int| i - 1 < j < u.len() && #[trigger] u[j] == '}';
                assert(j != i);
                lemma_past_inside(u, v, i + 1, j);
                let next = past_brace(u, i + 1);
                assert(w.subrange(i, next) =~= u.subrange(i, next));
                let more = literal + u.subrange(i, next);
                assert(more.last() == u[next - 1]);
                lemma_cut_front(u, v, next, more, done)
            } else {
                lemma_group_close(u, i + 1, 1);
                lemma_close_inside(u, v, i + 1, 1);
                let close = group_close(u, i + 1, 1)->0;
                lemma_closes_with_brace(u, i + 1, 1);
                if close == i + 1 {
                    let more = literal + seq!['{', '}'];
                    assert(more.last() == u[close]);
                    lemma_cut_front(u, v, close + 1, more, done)
                } else {
                    assert(w.subrange(i + 1, close) =~= u.subrange(i + 1, close));
                    lemma_cut_front(
                        u,
                        v,
                        close + 1,
                        Seq::empty(),
                        with_literal(done, literal).push(
                            SegmentView::Group(u.subrange(i + 1, close)),
                        ),
                    )
                }
            }
        } else {
            lemma_cut_front(u, v, i + 1, literal.push(u[i]), done)
        }
    }
}

proof fn lemma_closes_with_brace(w: Seq<char>, i: int, depth: int)
    requires
        0 <= i,
    ensures
        group_close(w, i, depth) matches Some(c) ==> w[c] == '}',
    decreases w.len() - i,
{
    if i < w.len() {
        if w[i] == '{' {
            lemma_closes_with_brace(w, i + 1, depth + 1);
        } else if w[i] == '}' {
            lemma_closes_with_brace(w, i + 1, depth - 1);
        } else {
            lemma_closes_with_brace(w, i + 1, depth);
        }
    }
}

/// Once a group of `v` is passed, cutting `u + v` goes as cutting `v` does.
proof fn lemma_cut_rest(
    u: Seq<char>,
    v: Seq<char>,
    i: int,
    literal: Seq<char>,
    before: Seq<SegmentView>,
    done: Seq<SegmentView>,
)
    requires
        0 <= i <= v.len(),
        segments_from(v, i, literal, done) is Some,
    ensures
        segments_from(u + v, u.len() + i, literal, before + done) == Some(
            before + segments_from(v, i, literal, done)->0,
        ),
    decreases v.len() - i,
{
    let w = u + v;
    let n = u.len() as int;
    if i >= v.len() {
        assert(with_literal(before + done, literal) =~= before + with_literal(done, literal));
    } else {
        assert(w[n + i] == v[i]);
        if v[i] == '{' {
            if literal.len() > 0 && (literal.last() == '$' || literal.last() == '@') {
                lemma_past_brace(v, i + 1);
                lemma_past_behind(u, v, i + 1);
                let next = past_brace(v, i + 1);
                assert(w.subrange(n + i, n + next) =~= v.subrange(i, next));
                lemma_cut_rest(u, v, next, literal + v.subrange(i, next), before, done);
            } else {
                lemma_group_close(v, i + 1, 1);
                lemma_close_behind(u, v, i + 1, 1);
                let close = group_close(v, i + 1, 1)->0;
                if close == i + 1 {
                    lemma_cut_rest(u, v, close + 1, literal + seq!['{', '}'], before, done);
                } else {
                    let group = SegmentView::Group(v.subrange(i + 1, close));
                    assert(w.subrange(n + i + 1, n + close) =~= v.subrange(i + 1, close));
                    let more = with_literal(done, literal).push(group);
                    assert(with_literal(before + done, literal).push(group) =~= before + more);
                    lemma_cut_rest(u, v, close + 1, Seq::empty(), before, more);
                }
            }
        } else {
            lemma_cut_rest(u, v, i + 1, literal.push(v[i]), before, done);
        }
    }
}

/// Until the first group of `v` is passed, its text joins the text that is
/// pending at the end of `u`. Gives the text of `v` before its first group,
/// and the segments from there on.
proof fn lemma_cut_back(
    u: Seq<char>,
    v: Seq<char>,
    i: int,
    pending: Seq<char>,
    literal: Seq<char>,
    done: Seq<SegmentView>,
) -> (r: (Seq<char>, Seq<SegmentView>))
    requires
        0 <= i <= v.len(),
        segments_from(v, i, literal, Seq::empty()) is Some,
        stays_apart(u, v),
        just_before(u, u.len() as int, pending),
        literal.len() == 0 ==> i == 0,
    ensures
        segments_from(v, i, literal, Seq::empty()) == Some(with_literal(Seq::empty(), r.0) + r.1),
        segments_from(u + v, u.len() + i, pending + literal, done) == Some(
            with_literal(done, pending + r.0) + r.1,
        ),
    decreases v.len() - i,
{
    let w = u + v;
    let n = u.len() as int;
    let none = Seq::<SegmentView>::empty();
    if i >= v.len() {
        assert(with_literal(none, literal) + none =~= with_literal(none, literal));
        assert(with_literal(done, pending + literal) + none =~= with_literal(
            done,
            pending + literal,
        ));
        (literal, none)
    } else {
        assert(w[n + i] == v[i]);
        if literal.len() > 0 {
            assert((pending + literal).last() == literal.last());
        } else {
            assert(pending + literal =~= pending);
        }
        if v[i] == '{' {
            if literal.len() > 0 && (literal.last() == '$' || literal.last() == '@') {
                lemma_past_brace(v, i + 1);
                lemma_past_behind(u, v, i + 1);
                let next = past_brace(v, i + 1);
                assert(w.subrange(n + i, n + next) =~= v.subrange(i, next));
                let more = literal + v.subrange(i, next);
                assert((pending + literal) + v.subrange(i, next) =~= pending + more);
                lemma_cut_back(u, v, next, pending, more, done)
            } else {
                if literal.len() == 0 && pending.len() > 0 && (pending.last() == '$'
                    || pending.last() == '@') {
                    assert(u[n - 1] == pending.last());
                    assert(w[(n - 1) + 1] == '{');
                    assert(false);
                }
                lemma_group_close(v, i + 1, 1);
                lemma_close_behind(u, v, i + 1, 1);
                let close = group_close(v, i + 1, 1)->0;
                if close == i + 1 {
                    let more = literal + seq!['{', '}'];
                    assert((pending + literal) + seq!['{', '}'] =~= pending + more);
                    lemma_cut_back(u, v, close + 1, pending, more, done)
                } else {
                    let group = SegmentView::Group(v.subrange(i + 1, close));
                    assert(w.subrange(n + i + 1, n + close) =~= v.subrange(i + 1, close));
                    let first = seq![group];
                    let front = with_literal(none, literal);
                    let joined = with_literal(done, pending + literal);
                    assert(front.push(group) =~= front + first);
                    lemma_rest_is_framed(v, close + 1, Seq::empty(), front, first);
                    let rest = segments_from(v, close + 1, Seq::empty(), first)->0;
                    lemma_cut_rest(u, v, close + 1, Seq::empty(), joined, first);
                    assert(joined.push(group) =~= joined + first);
                    (literal, rest)
                }
            }
        } else {
            assert((pending + literal).push(v[i]) =~= pending + literal.push(v[i]));
            lemma_cut_back(u, v, i + 1, pending, literal.push(v[i]), done)
        }
    }
}

/// The segments that are done already only stand before those that follow.
proof fn lemma_rest_is_framed(
    v: Seq<char>,
    i: int,
    literal: Seq<char>,
    before: Seq<SegmentView>,
    done: Seq<SegmentView>,
)
    requires
        0 <= i <= v.len(),
        segments_from(v, i, literal, before + done) is Some,
    ensures
        segments_from(v, i, literal, done) is Some,
        segments_from(v, i, literal, before + done) == Some(
            before + segments_from(v, i, literal, done)->0,
        ),
    decreases v.len() - i,
{
    if i >= v.len() {
        assert(with_literal(before + done, literal) =~= before + with_literal(done, literal));
    } else if v[i] == '{' {
        if literal.len() > 0 && (literal.last() == '$' || literal.last() == '@') {
            lemma_past_brace(v, i + 1);
            let next = past_brace(v, i + 1);
            lemma_rest_is_framed(v, next, literal + v.subrange(i, next), before, done);
        } else {
            lemma_group_close(v, i + 1, 1);
            let close = group_close(v, i + 1, 1)->0;
            if close == i + 1 {
                lemma_rest_is_framed(v, close + 1, literal + seq!['{', '}'], before, done);
            } else {
                let group = SegmentView::Group(v.subrange(i + 1, close));
                let more = with_literal(done, literal).push(group);
                assert(with_literal(before + done, literal).push(group) =~= before + more);
                lemma_rest_is_framed(v, close + 1, Seq::empty(), before, more);
            }
        }
    } else {
        lemma_rest_is_framed(v, i + 1, literal.push(v[i]), before, done);
    }
}

proof fn lemma_crossed_at(a: Seq<Seq<char>>, b: Seq<Seq<char>>, i: int, j: int)
    requires
        0 <= i < a.len(),
        0 <= j < b.len(),
    ensures
        0 <= i * b.len() + j < crossed(a, b).len(),
        crossed(a, b)[i * b.len() + j] == a[i] + b[j],
    decreases a.len(),
{
    let front = a.drop_last();
    lemma_crossed_len(a, b);
    lemma_crossed_len(front, b);
    let n = b.len() as int;
    let m = a.len() as int;
    assert(i * n + j < m * n) by (nonlinear_arith)
        requires
            0 <= i < m,
            0 <= j < n,
    ;
    assert(0 <= i * n + j) by (nonlinear_arith)
        requires
            0 <= i,
            0 <= j,
            0 <= n,
    ;
    if i < m - 1 {
        lemma_crossed_at(front, b, i, j);
        assert(front[i] == a[i]);
    } else {
        assert(i * n == (m - 1) * n);
    }
}

proof fn lemma_pending_text_joins(
    done: Seq<SegmentView>,
    pending: Seq<char>,
    text: Seq<char>,
    limit: nat,
)
    ensures
        segment_words(with_literal(done, pending + text), limit) == crossed(
            segment_words(with_literal(done, pending), limit),
            segment_words(with_literal(Seq::empty(), text), limit),
        ),
{
    let none = Seq::<SegmentView>::empty();
    let words = segment_words(done, limit);
    assert(segment_words(none, limit) == seq![Seq::<char>::empty()]);
    if text.len() == 0 {
        assert(pending + text =~= pending);
        lemma_crossed_with_nothing(segment_words(with_literal(done, pending), limit));
    } else {
        lemma_segment_words_push(none, SegmentView::Literal(text), limit);
        let one = Seq::<char>::empty();
        lemma_crossed_with_one(seq![one], text);
        assert(one + text =~= text);
        assert(crossed(seq![one], seq![text]) =~= seq![text]);
        lemma_segment_words_push(done, SegmentView::Literal(pending + text), limit);
        if pending.len() == 0 {
            assert(pending + text =~= text);
        } else {
            lemma_segment_words_push(done, SegmentView::Literal(pending), limit);
            lemma_crossed_thrice(words, seq![pending], seq![text]);
            lemma_crossed_with_one(seq![pending], text);
            assert(crossed(seq![pending], seq![text]) =~= seq![pending + text]);
        }
    }
}

/// Words with brace groups multiply: what the braces of two words make when
/// they stand one after the other is each word of the first followed by each
/// word of the second, in the order of the first.
pub proof fn law_words_multiply(u: Seq<char>, v: Seq<char>)
    requires
        braces(u) is Some,
        braces(v) is Some,
        stays_apart(u, v),
    ensures
        ({
            let us = braces(u)->0;
            let vs = braces(v)->0;
            &&& braces(u + v) == Some(crossed(us, vs))
            &&& crossed(us, vs).len() == us.len() * vs.len()
            &&& forall|i: int, j: int|
                0 <= i < us.len() && 0 <= j < vs.len() ==> crossed(us, vs)[i * vs.len() + j] == (
                #[trigger] us[i]) + (#[trigger] vs[j])
        }),
{
    let w = u + v;
    let none = Seq::<SegmentView>::empty();
    let us = braces(u)->0;
    let vs = braces(v)->0;
    let su = word_segments(u)->0;
    let sv = word_segments(v)->0;
    let (pending, done) = lemma_cut_front(u, v, 0, Seq::empty(), none);
    let (text, rest) = lemma_cut_back(u, v, 0, pending, Seq::empty(), done);
    assert(pending + Seq::<char>::empty() =~= pending);
    let sw = with_literal(done, pending + text) + rest;
    assert(segments_from(w, 0, Seq::empty(), none) == Some(sw));
    let k = choose|k: int| 0 <= k < sv.len() && #[trigger] sv[k] is Group;
    let front = with_literal(none, text);
    assert(sv == front + rest);
    assert(k >= front.len());
    assert(sw[with_literal(done, pending + text).len() + (k - front.len())] == sv[k]);
    assert(has_group(sw));
    let limit = w.len();
    lemma_groups_below(u, 0, Seq::empty(), none);
    lemma_groups_below(v, 0, Seq::empty(), none);
    lemma_segment_words_any_limit(su, u.len(), limit);
    lemma_segment_words_any_limit(sv, v.len(), limit);
    lemma_segment_words_sum(with_literal(done, pending + text), rest, limit);
    lemma_segment_words_sum(front, rest, limit);
    lemma_pending_text_joins(done, pending, text, limit);
    lemma_crossed_thrice(
        segment_words(su, limit),
        segment_words(front, limit),
        segment_words(rest, limit),
    );
    lemma_crossed_len(us, vs);
    assert forall|i: int, j: int| 0 <= i < us.len() && 0 <= j < vs.len() implies crossed(us, vs)[i
        * vs.len() + j] == (#[trigger] us[i]) + (#[trigger] vs[j]) by {
        lemma_crossed_at(us, vs, i, j);
    }
}

// ---------------------------------------------------------------------------
// Ranges the other way round
// ---------------------------------------------------------------------------

/// An inclusive range as it is written: `start...end` or `start..=end`.
pub open spec fn range_text(start: Seq<char>, equals: bool, end: Seq<char>) -> Seq<char> {
    start + seq![
        '.',
        '.',
        if equals {
            '='
        } else {
            '.'
        },
    ] + end
}

proof fn lemma_plain_bound(s: Seq<char>, equals: bool, e: Seq<char>)
    requires
        forall|i: int| 0 <= i < s.len() ==> #[trigger] s[i] != '.' && s[i] != ',',
    ensures
        text::found_from(range_text(s, equals, e), dots(), 0) == Some(s.len() as int),
        range_text(s, equals, e).take(s.len() as int) == s,
        range_end(range_text(s, equals, e).skip(s.len() as int + 2)) == (true, e),
        range_text(s, equals, e).skip(s.len() as int + 2).skip(1) == e,
        text::found_from(s, seq![','], 0) is None,
{
    let w = range_text(s, equals, e);
    let n = s.len() as int;
    text::lemma_found_is_first(w, dots(), 0);
    assert(w.subrange(n, n + 2) =~= dots());
    assert(text::occurs_at(w, dots(), n));
    assert forall|j: int| 0 <= j < n implies !text::occurs_at(w, dots(), j) by {
        assert(w[j] == s[j]);
        if text::occurs_at(w, dots(), j) {
            assert(w.subrange(j, j + 2)[0] == w[j]);
        }
    }
    assert(w.take(n) =~= s);
    let rest = w.skip(n + 2);
    assert(rest.skip(1) =~= e);
    text::lemma_found_is_first(s, seq![','], 0);
    assert forall|j: int| 0 <= j implies !text::occurs_at(s, seq![','], j) by {
        if text::occurs_at(s, seq![','], j) {
            assert(s.subrange(j, j + 1)[0] == s[j]);
        }
    }
}

proof fn lemma_int_text_is_plain(n: int)
    ensures
        forall|i: int|
            0 <= i < text::int_text(n).len() ==> #[trigger] text::int_text(n)[i] != '.'
                && text::int_text(n)[i] != ',',
{
    let s = text::int_text(n);
    let size = if n < 0 {
        (-n) as nat
    } else {
        n as nat
    };
    let digits = text::nat_text(size);
    text::lemma_nat_text_reads_back(size);
    assert forall|i: int| 0 <= i < s.len() implies #[trigger] s[i] != '.' && s[i] != ',' by {
        if n < 0 {
            if i > 0 {
                assert(s[i] == digits[i - 1]);
                assert(text::is_digit_char(digits[i - 1]));
            }
        } else {
            assert(text::is_digit_char(digits[i]));
        }
    }
}

proof fn lemma_up_by_one(a: int, b: int)
    requires
        a <= b + 1,
    ensures
        counted_up(a, b, 1, true).len() == b - a + 1,
        forall|k: int| 0 <= k <= b - a ==> #[trigger] counted_up(a, b, 1, true)[k] == a + k,
    decreases b + 1 - a,
{
    if a <= b {
        lemma_up_by_one(a + 1, b);
        let rest = counted_up(a + 1, b, 1, true);
        assert(counted_up(a, b, 1, true) == seq![a] + rest);
        assert forall|k: int| 0 <= k <= b - a implies #[trigger] counted_up(a, b, 1, true)[k] == a
            + k by {
            if k > 0 {
                assert((seq![a] + rest)[k] == rest[k - 1]);
            }
        }
    }
}

proof fn lemma_down_by_one(a: int, b: int)
    requires
        b <= a + 1,
    ensures
        counted_down(a, b, 1, true).len() == a - b + 1,
        forall|k: int| 0 <= k <= a - b ==> #[trigger] counted_down(a, b, 1, true)[k] == a - k,
    decreases a + 1 - b,
{
    if b <= a {
        lemma_down_by_one(a - 1, b);
        let rest = counted_down(a - 1, b, 1, true);
        assert(counted_down(a, b, 1, true) == seq![a] + rest);
        assert forall|k: int| 0 <= k <= a - b implies #[trigger] counted_down(a, b, 1, true)[k] == a
            - k by {
            if k > 0 {
                assert((seq![a] + rest)[k] == rest[k - 1]);
            }
        }
    }
}

/// The numbers from `a` to `b`, both among them, whichever is the greater.
pub open spec fn between(a: int, b: int) -> Seq<int> {
    if a <= b {
        Seq::new((b - a + 1) as nat, |k: int| a + k)
    } else {
        Seq::new((a - b + 1) as nat, |k: int| a - k)
    }
}

proof fn lemma_counted_is_between(a: int, b: int)
    ensures
        counted(a, b, 1, true) == between(a, b),
        between(b, a) == between(a, b).reverse(),
{
    if a <= b {
        lemma_up_by_one(a, b);
    } else {
        lemma_down_by_one(a, b);
    }
    assert(counted(a, b, 1, true) =~= between(a, b));
    assert(between(b, a) =~= between(a, b).reverse());
}

proof fn lemma_numeric_words(a: i64, b: i64, equals: bool)
    ensures
        brace_range(range_text(text::int_text(a as int), equals, text::int_text(b as int))) == Some(
            int_texts(between(a as int, b as int)),
        ),
{
    let s = text::int_text(a as int);
    let e = text::int_text(b as int);
    lemma_int_text_is_plain(a as int);
    lemma_plain_bound(s, equals, e);
    text::law_int_text_reads_back(a as int);
    text::law_int_text_reads_back(b as int);
    assert(bound_of(s) == Some(a));
    assert(bound_of(e) == Some(b));
    assert(bound_of(Seq::<char>::empty()) is None);
    lemma_counted_is_between(a as int, b as int);
}

/// An inclusive range of numbers holds every number from one bound to the
/// other, and written the other way round it is the reverse.
pub proof fn law_numeric_range_reverses(a: i64, b: i64, equals: bool)
    ensures
        ({
            let (s, e) = (text::int_text(a as int), text::int_text(b as int));
            let there = brace_range(range_text(s, equals, e));
            let back = brace_range(range_text(e, equals, s));
            &&& there matches Some(v) && back matches Some(w) && w == v.reverse() && v.len() == (
            if a <= b {
                b - a
            } else {
                a - b
            }) + 1 && forall|k: int|
                0 <= k < v.len() ==> #[trigger] v[k] == text::int_text(
                    if a <= b {
                        a + k
                    } else {
                        a - k
                    },
                )
        }),
{
    lemma_numeric_words(a, b, equals);
    lemma_numeric_words(b, a, equals);
    lemma_counted_is_between(a as int, b as int);
    let v = int_texts(between(a as int, b as int));
    assert(int_texts(between(b as int, a as int)) =~= v.reverse());
}

proof fn lemma_letter_words(a: char, b: char, equals: bool)
    requires
        is_letter(a),
        is_letter(b),
    ensures
        ({
            let codes = between(a as u32 as int, b as u32 as int);
            brace_range(range_text(seq![a], equals, seq![b])) == Some(
                Seq::new(codes.len(), |i: int| seq![codes[i] as char]),
            )
        }),
{
    let s = seq![a];
    let e = seq![b];
    let w = range_text(s, equals, e);
    lemma_plain_bound(s, equals, e);
    assert(!text::is_digit_char(s[0]));
    assert(text::int_of_text(s) is None);
    assert(bound_of(s) is None);
    assert(numeric_range(w) is None);
    lemma_counted_is_between(a as u32 as int, b as u32 as int);
    let codes = between(a as u32 as int, b as u32 as int);
    assert(letter_range(w)->0 =~= Seq::new(codes.len(), |i: int| seq![codes[i] as char]));
}

/// An inclusive range of letters, written the other way round, is the
/// reverse.
pub proof fn law_letter_range_reverses(a: char, b: char, equals: bool)
    requires
        is_letter(a),
        is_letter(b),
    ensures
        ({
            let there = brace_range(range_text(seq![a], equals, seq![b]));
            let back = brace_range(range_text(seq![b], equals, seq![a]));
            there matches Some(v) && back matches Some(w) && w == v.reverse()
        }),
{
    lemma_letter_words(a, b, equals);
    lemma_letter_words(b, a, equals);
    lemma_counted_is_between(a as u32 as int, b as u32 as int);
    let there = brace_range(range_text(seq![a], equals, seq![b]))->0;
    let back = brace_range(range_text(seq![b], equals, seq![a]))->0;
    assert(back =~= there.reverse());
}

/// A range without its end as it is written: `start..end`.
pub open spec fn open_range_text(start: Seq<char>, end: Seq<char>) -> Seq<char> {
    start + dots() + end
}

proof fn lemma_open_bound(s: Seq<char>, e: Seq<char>)
    requires
        forall|i: int| 0 <= i < s.len() ==> #[trigger] s[i] != '.' && s[i] != ',',
        forall|i: int| 0 <= i < e.len() ==> #[trigger] e[i] != '.' && e[i] != '=',
    ensures
        text::found_from(open_range_text(s, e), dots(), 0) == Some(s.len() as int),
        open_range_text(s, e).take(s.len() as int) == s,
        open_range_text(s, e).skip(s.len() as int + 2) == e,
        !range_end(e).0,
        text::found_from(e, dots(), 0) is None,
        text::found_from(s, seq![','], 0) is None,
{
    let w = open_range_text(s, e);
    let n = s.len() as int;
    lemma_first_dots(s, e);
    assert(w.take(n) =~= s);
    assert(w.skip(n + 2) =~= e);
    lemma_not_there(e, dots());
    lemma_not_there(s, seq![',']);
}

#[verifier::spinoff_prover]
proof fn lemma_first_dots(s: Seq<char>, e: Seq<char>)
    requires
        forall|i: int| 0 <= i < s.len() ==> #[trigger] s[i] != '.',
    ensures
        text::found_from(open_range_text(s, e), dots(), 0) == Some(s.len() as int),
{
    let w = open_range_text(s, e);
    let n = s.len() as int;
    assert(w.len() == n + 2 + e.len());
    assert(w.subrange(n, n + 2) =~= dots()) by {
        assert(w[n] == '.' && w[n + 1] == '.');
    }
    assert(text::occurs_at(w, dots(), n));
    lemma_first_there(w, dots(), n, 0);
}

proof fn lemma_first_there(w: Seq<char>, needle: Seq<char>, n: int, i: int)
    requires
        0 <= i <= n,
        needle.len() > 0,
        text::occurs_at(w, needle, n),
        forall|k: int| 0 <= k < n ==> #[trigger] w[k] != needle[0],
    ensures
        text::found_from(w, needle, i) == Some(n),
    decreases n - i,
{
    if i < n {
        if text::occurs_at(w, needle, i) {
            assert(w.subrange(i, i + needle.len())[0] == w[i]);
        }
        lemma_first_there(w, needle, n, i + 1);
    }
}

proof fn lemma_not_there(s: Seq<char>, needle: Seq<char>)
    requires
        needle.len() > 0,
        forall|i: int| 0 <= i < s.len() ==> #[trigger] s[i] != needle[0],
    ensures
        text::found_from(s, needle, 0) is None,
{
    text::lemma_found_is_first(s, needle, 0);
    match text::found_from(s, needle, 0) {
        Some(j) => {
            assert(s.subrange(j, j + needle.len())[0] == s[j]);
        },
        None => {},
    }
}

proof fn lemma_int_text_is_clear(n: int)
    ensures
        forall|i: int|
            0 <= i < text::int_text(n).len() ==> #[trigger] text::int_text(n)[i] != '.'
                && text::int_text(n)[i] != '=',
{
    let s = text::int_text(n);
    let size = if n < 0 {
        (-n) as nat
    } else {
        n as nat
    };
    let digits = text::nat_text(size);
    text::lemma_nat_text_reads_back(size);
    assert forall|i: int| 0 <= i < s.len() implies #[trigger] s[i] != '.' && s[i] != '=' by {
        if n < 0 {
            if i > 0 {
                assert(s[i] == digits[i - 1]);
                assert(text::is_digit_char(digits[i - 1]));
            }
        } else {
            assert(text::is_digit_char(digits[i]));
        }
    }
}

proof fn lemma_ascending_to(i: int, last: int, len: int)
    requires
        0 <= i,
        last < len,
    ensures
        i <= last + 1 ==> ascending(i, 1, last, len) == Seq::new(
            (last + 1 - i) as nat,
            |k: int| i + k,
        ),
        i > last ==> ascending(i, 1, last, len).len() == 0,
    decreases last + 1 - i,
{
    if i <= last {
        lemma_ascending_to(i + 1, last, len);
        assert(ascending(i, 1, last, len) =~= Seq::new((last + 1 - i) as nat, |k: int| i + k));
    } else if i == last + 1 {
        assert(ascending(i, 1, last, len) =~= Seq::new(0, |k: int| i + k));
    }
}

/// A range with two bounds selects the run of items from the first bound on
/// up to the second, which it leaves out in `a..b` and takes in `a...b` and
/// `a..=b`.
pub proof fn law_range_selects_a_run<T>(items: Seq<T>, a: int, b: int, equals: bool)
    requires
        0 <= a <= b < items.len(),
        items.len() <= i64::MAX,
    ensures
        ({
            let (s, e) = (text::int_text(a), text::int_text(b));
            &&& selected(items, open_range_text(s, e)) == Ok::<Seq<T>, Seq<char>>(
                items.subrange(a, b),
            )
            &&& selected(items, range_text(s, equals, e)) == Ok::<Seq<T>, Seq<char>>(
                items.subrange(a, b + 1),
            )
        }),
{
    let (s, e) = (text::int_text(a), text::int_text(b));
    lemma_int_text_is_plain(a);
    lemma_int_text_is_clear(b);
    lemma_open_bound(s, e);
    lemma_plain_bound(s, equals, e);
    text::law_int_text_reads_back(a);
    text::law_int_text_reads_back(b);
    assert(bound_of(s) == Some(a as i64));
    assert(bound_of(e) == Some(b as i64));
    assert(bound_of(Seq::<char>::empty()) is None);
    let len = items.len() as int;
    lemma_ascending_to(a, b - 1, len);
    lemma_ascending_to(a, b, len);
    let half = Slice {
        start: Some(a as i64),
        step: None,
        end: Some(b as i64),
        inclusive: false,
    };
    let full = Slice {
        start: Some(a as i64),
        step: None,
        end: Some(b as i64),
        inclusive: true,
    };
    assert(slice_of(open_range_text(s, e)) == Some(half));
    assert(slice_of(range_text(s, equals, e)) == Some(full));
    assert(slice_positions(len, half) == ascending(a, 1, b - 1, len));
    assert(slice_positions(len, full) == ascending(a, 1, b, len));
    assert(selected(items, open_range_text(s, e))->Ok_0 =~= items.subrange(a, b));
    assert(selected(items, range_text(s, equals, e))->Ok_0 =~= items.subrange(a, b + 1));
}

/// A range without a bound goes from the start, or to the end.
pub proof fn law_open_ranges_reach_the_ends<T>(items: Seq<T>, a: int)
    requires
        0 <= a < items.len(),
        items.len() <= i64::MAX,
    ensures
        selected(items, open_range_text(text::int_text(a), Seq::empty())) == Ok::<
            Seq<T>,
            Seq<char>,
        >(items.skip(a)),
        selected(items, open_range_text(Seq::empty(), text::int_text(a))) == Ok::<
            Seq<T>,
            Seq<char>,
        >(items.take(a)),
{
    let s = text::int_text(a);
    let none = Seq::<char>::empty();
    let len = items.len() as int;
    lemma_int_text_is_plain(a);
    lemma_int_text_is_clear(a);
    lemma_open_bound(s, none);
    lemma_open_bound(none, s);
    text::law_int_text_reads_back(a);
    assert(bound_of(s) == Some(a as i64));
    assert(bound_of(none) is None);
    lemma_ascending_to(a, len - 1, len);
    lemma_ascending_to(0, a - 1, len);
    let from = Slice { start: Some(a as i64), step: None, end: None, inclusive: false };
    let to = Slice { start: None, step: None, end: Some(a as i64), inclusive: false };
    assert(slice_of(open_range_text(s, none)) == Some(from));
    assert(slice_of(open_range_text(none, s)) == Some(to));
    assert(selected(items, open_range_text(s, none))->Ok_0 =~= items.skip(a));
    assert(selected(items, open_range_text(none, s))->Ok_0 =~= items.take(a));
}

/// A step picks every so many-th item: the positions go up by the step from
/// the start, and stop at the end.
pub proof fn law_steps_skip_items(len: int, start: i64, step: i64, k: int)
    requires
        0 <= start,
        0 < step,
        0 <= k,
        start + k * step < len,
    ensures
        ({
            let slice = Slice {
                start: Some(start),
                step: Some(step),
                end: None,
                inclusive: false,
            };
            slice_positions(len, slice).len() > k && slice_positions(len, slice)[k] == start + k
                * step
        }),
{
    lemma_steps(start as int, step as int, len - 1, len, k);
}

proof fn lemma_steps(i: int, step: int, last: int, len: int, k: int)
    requires
        0 <= i,
        0 < step,
        0 <= k,
        i + k * step <= last,
        last < len,
    ensures
        ascending(i, step, last, len).len() > k,
        ascending(i, step, last, len)[k] == i + k * step,
    decreases k,
{
    assert(k * step >= 0) by (nonlinear_arith)
        requires
            k >= 0,
            step > 0,
    ;
    assert(ascending(i, step, last, len) == seq![i] + ascending(i + step, step, last, len));
    if k > 0 {
        assert((k - 1) * step == k * step - step) by (nonlinear_arith);
        lemma_steps(i + step, step, last, len, k - 1);
        assert(ascending(i, step, last, len)[k] == ascending(i + step, step, last, len)[k - 1]);
    } else {
        assert(k * step == 0) by (nonlinear_arith)
            requires
                k == 0,
        ;
    }
}

/// A negative step goes down from the start, and from the last item where no
/// start is given.
pub proof fn law_negative_steps_go_down(len: int, k: int)
    requires
        0 <= k < len,
    ensures
        ({
            let slice = Slice { start: None, step: Some(-1i64), end: None, inclusive: false };
            slice_positions(len, slice).len() > k && slice_positions(len, slice)[k] == len - 1 - k
        }),
{
    lemma_down(len - 1, len, k);
}

proof fn lemma_down(i: int, len: int, k: int)
    requires
        0 <= k <= i < len,
    ensures
        descending(i, -1, 0, len).len() > k,
        descending(i, -1, 0, len)[k] == i - k,
    decreases k,
{
    assert(descending(i, -1, 0, len) == seq![i] + descending(i - 1, -1, 0, len));
    if k > 0 {
        lemma_down(i - 1, len, k - 1);
        assert(descending(i, -1, 0, len)[k] == descending(i - 1, -1, 0, len)[k - 1]);
    }
}

proof fn lemma_numeral_is_trimmed(i: int)
    ensures
        text::trimmed(text::int_text(i)) == text::int_text(i),
        text::found_from(text::int_text(i), dots(), 0) is None,
{
    let s = text::int_text(i);
    let size = if i < 0 {
        (-i) as nat
    } else {
        i as nat
    };
    let digits = text::nat_text(size);
    text::lemma_nat_text_reads_back(size);
    lemma_int_text_is_clear(i);
    assert(s.len() > 0);
    assert(text::is_digit_char(digits[digits.len() - 1]) && text::is_digit_char(digits[0]));
    assert(s.last() == digits[digits.len() - 1]);
    assert(!text::is_space_char(s[0]));
    assert(!text::is_space_char(s.last()));
    text::lemma_found_is_first(s, dots(), 0);
    assert forall|j: int| 0 <= j implies !text::occurs_at(s, dots(), j) by {
        if text::occurs_at(s, dots(), j) {
            assert(s.subrange(j, j + 2)[0] == s[j]);
        }
    }
}

/// One number selects the item at that place, counted from zero, and is an
/// error where there is none.
pub proof fn law_index_selects_one<T>(items: Seq<T>, i: int)
    requires
        i64::MIN <= i <= i64::MAX,
    ensures
        0 <= i < items.len() ==> selected(items, text::int_text(i)) == Ok::<Seq<T>, Seq<char>>(
            seq![items[i]],
        ),
        !(0 <= i < items.len()) ==> selected(items, text::int_text(i)) is Err,
{
    lemma_numeral_is_trimmed(i);
    text::law_int_text_reads_back(i);
    assert(slice_of(text::int_text(i)) is None);
    assert(index_spec_of(text::int_text(i)) == Some(IndexSpec::Index(i as i64)));
    if 0 <= i < items.len() {
        assert(selected(items, text::int_text(i))->Ok_0 =~= seq![items[i]]);
    }
}

} // verus!
