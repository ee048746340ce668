//! Text on the clipboard, which the system holds in UTF-16 with a zero at its
//! end.

use crate::dialog;
use crate::dialog::{Answer, AnswerView, Request, RequestView, Talk, TalkView};
use crate::text::{chars_of, code_of, text_of};
use vstd::prelude::*;

verus! {

/// Specifies `char::from_u32`: the character of a code point; nothing for a
/// number that is none.
pub assume_specification[ char::from_u32 ](i: u32) -> (r: Option<char>)
    ensures
        match r {
            Some(c) => c as int == i as int,
            None => 0xD800 <= i <= 0xDFFF || i > 0x10FFFF,
        },
;

/// The units of a character.
pub open spec fn units_of(c: char) -> Seq<u16> {
    let u = c as int;
    if u < 0x10000 {
        seq![u as u16]
    } else {
        seq![
            (0xD800 + (u - 0x10000) / 0x400) as u16,
            (0xDC00 + (u - 0x10000) % 0x400) as u16,
        ]
    }
}

/// The units of a text.
pub open spec fn encoded(s: Seq<char>) -> Seq<u16>
    decreases s.len(),
{
    if s.len() == 0 {
        Seq::empty()
    } else {
        units_of(s[0]) + encoded(s.skip(1))
    }
}

/// Whether a unit is the first or the second of two.
pub open spec fn leads(u: u16) -> bool {
    0xD800 <= u <= 0xDBFF
}

/// Whether a unit is the second of two.
pub open spec fn follows(u: u16) -> bool {
    0xDC00 <= u <= 0xDFFF
}

/// The character of two units.
pub open spec fn joined_code(a: u16, b: u16) -> char {
    (0x10000 + (a - 0xD800) * 0x400 + (b - 0xDC00)) as char
}

/// The text of some units; nothing where they are none.
pub open spec fn decoded(u: Seq<u16>) -> Option<Seq<char>>
    decreases u.len(),
{
    if u.len() == 0 {
        Some(Seq::empty())
    } else if leads(u[0]) {
        if u.len() > 1 && follows(u[1]) {
            match decoded(u.skip(2)) {
                Some(rest) => Some(seq![joined_code(u[0], u[1])] + rest),
                None => None,
            }
        } else {
            None
        }
    } else if follows(u[0]) {
        None
    } else {
        match decoded(u.skip(1)) {
            Some(rest) => Some(seq![u[0] as char] + rest),
            None => None,
        }
    }
}

/// Where the first zero stands from `i` on; the length where there is none.
pub open spec fn zero_from(u: Seq<u16>, i: int) -> int
    decreases u.len() - i,
{
    if i < 0 || i >= u.len() || u[i] == 0 {
        i
    } else {
        zero_from(u, i + 1)
    }
}

/// The text in the memory of a clipboard; nothing where it is none.
pub open spec fn text_in(memory: Seq<u16>) -> Option<Seq<char>> {
    decoded(memory.take(zero_from(memory, 0)))
}

/// Writes a text in units, with a zero at the end.
pub fn to_memory(s: &str) -> (r: Vec<u16>)
    ensures
        r@ == encoded(s@).push(0),
{
    let v = chars_of(s);
    let mut out: Vec<u16> = Vec::new();
    let mut i: usize = 0;
    assert(v@.skip(0) =~= v@);
    assert(out@ + encoded(v@.skip(0)) =~= encoded(s@));
    while i < v.len()
        invariant
            i <= v@.len(),
            v@ == s@,
            out@ + encoded(v@.skip(i as int)) == encoded(s@),
        decreases v@.len() - i,
    {
        let ghost before = out@;
        let u = code_of(v[i]);
        if u < 0x10000 {
            out.push(u as u16);
            assert(out@ =~= before + units_of(v@[i as int]));
        } else {
            let k: u32 = u - 0x10000;
            out.push((0xD800 + k / 0x400) as u16);
            out.push((0xDC00 + k % 0x400) as u16);
            assert(out@ =~= before + units_of(v@[i as int]));
        }
        proof {
            let rest = v@.skip(i as int);
            assert(rest[0] == v@[i as int]);
            assert(rest.skip(1) =~= v@.skip(i + 1));
            assert(before + (units_of(rest[0]) + encoded(rest.skip(1))) =~= out@ + encoded(
                v@.skip(i + 1),
            ));
        }
        i = i + 1;
    }
    assert(v@.skip(v@.len() as int) =~= Seq::<char>::empty());
    assert(out@ + Seq::<u16>::empty() =~= out@);
    out.push(0);
    out
}

fn optional(r: Option<Vec<char>>) -> (o: Option<String>)
    ensures
        match (r, o) {
            (Some(v), Some(s)) => s@ == v@,
            (None, None) => true,
            _ => false,
        },
{
    match r {
        Some(v) => Some(text_of(&v)),
        None => None,
    }
}

/// What a decoding that has come to `i` gives.
spec fn so_far(front: Seq<char>, rest: Option<Seq<char>>) -> Option<Seq<char>> {
    match rest {
        Some(s) => Some(front + s),
        None => None,
    }
}

fn decode(u: &[u16], end: usize) -> (r: Option<Vec<char>>)
    requires
        end <= u@.len(),
    ensures
        match r {
            Some(v) => decoded(u@.take(end as int)) == Some(v@),
            None => decoded(u@.take(end as int)) is None,
        },
{
    let ghost all = u@.take(end as int);
    let mut out: Vec<char> = Vec::new();
    let mut i: usize = 0;
    assert(all.skip(0) =~= all);
    proof {
        if let Some(s) = decoded(all) {
            assert(out@ + s =~= s);
        }
    }
    while i < end
        invariant
            i <= end <= u@.len(),
            all == u@.take(end as int),
            decoded(all) == so_far(out@, decoded(all.skip(i as int))),
        decreases end - i,
    {
        let ghost rest = all.skip(i as int);
        let ghost before = out@;
        let a = u[i];
        assert(rest[0] == a);
        if 0xD800 <= a && a <= 0xDBFF {
            if end - i < 2 {
                return None;
            }
            assert(i + 1 < end);
            let b = u[i + 1];
            assert(rest[1] == b);
            if !(0xDC00 <= b && b <= 0xDFFF) {
                return None;
            }
            let code: u32 = 0x10000 + (a as u32 - 0xD800) * 0x400 + (b as u32 - 0xDC00);
            match char::from_u32(code) {
                Some(c) => {
                    out.push(c);
                    proof {
                        assert(c == joined_code(a, b));
                        assert(rest.skip(2) =~= all.skip(i + 2));
                        if let Some(s) = decoded(rest.skip(2)) {
                            assert(before + (seq![c] + s) =~= out@ + s);
                        }
                    }
                },
                None => {
                    assert(false);
                    return None;
                },
            }
            i = i + 2;
        } else if 0xDC00 <= a && a <= 0xDFFF {
            return None;
        } else {
            match char::from_u32(a as u32) {
                Some(c) => {
                    out.push(c);
                    proof {
                        assert(c == a as char);
                        assert(rest.skip(1) =~= all.skip(i + 1));
                        if let Some(s) = decoded(rest.skip(1)) {
                            assert(before + (seq![c] + s) =~= out@ + s);
                        }
                    }
                },
                None => {
                    assert(false);
                    return None;
                },
            }
            i = i + 1;
        }
    }
    assert(all.skip(end as int) =~= Seq::<u16>::empty());
    assert(out@ + Seq::<char>::empty() =~= out@);
    Some(out)
}

/// Reads the text in the memory of a clipboard.
pub fn from_memory(memory: &[u16]) -> (r: Option<String>)
    ensures
        match r {
            Some(s) => text_in(memory@) == Some(s@),
            None => text_in(memory@) is None,
        },
{
    let mut end: usize = 0;
    while end < memory.len() && memory[end] != 0
        invariant
            end <= memory@.len(),
            zero_from(memory@, 0) == zero_from(memory@, end as int),
        decreases memory@.len() - end,
    {
        end = end + 1;
    }
    let r = decode(memory, end);
    optional(r)
}

/// What happens to a text that is put on the clipboard.
pub open spec fn written(s: Seq<char>, t: TalkView) -> (Result<(), Seq<char>>, TalkView) {
    let (w, t1) = dialog::asked(t, RequestView::OnWindows);
    if w.as_truth() {
        dialog::tried(t1, RequestView::WriteClipboard(encoded(s).push(0)))
    } else {
        (Err("clipboard operations are only supported on Windows"@), t1)
    }
}

/// Puts a text on the clipboard.
pub fn write_text(s: &str, talk: &mut Talk) -> (r: Result<(), String>)
    ensures
        (dialog::outcome(r), final(talk)@) == written(s@, old(talk)@),
{
    if !talk.ask(Request::OnWindows).truth() {
        return Err("clipboard operations are only supported on Windows".to_owned());
    }
    let memory = to_memory(s);
    talk.attempt(Request::WriteClipboard(memory))
}

/// What a text or a message is.
pub open spec fn text_view(r: Result<String, String>) -> Result<Seq<char>, Seq<char>> {
    match r {
        Ok(s) => Ok(s@),
        Err(e) => Err(e@),
    }
}

/// The text on the clipboard, or a message.
pub open spec fn found(t: TalkView) -> (Result<Seq<char>, Seq<char>>, TalkView) {
    let (w, t1) = dialog::asked(t, RequestView::OnWindows);
    if w.as_truth() {
        let (a, t2) = dialog::asked(t1, RequestView::ReadClipboard);
        (
            match a {
                AnswerView::Units(memory) => match text_in(memory) {
                    Some(s) => Ok(s),
                    None => Err("clipboard contains invalid UTF-16"@),
                },
                AnswerView::Failure(e) => Err(e),
                _ => Err("clipboard does not contain text"@),
            },
            t2,
        )
    } else {
        (Err("clipboard operations are only supported on Windows"@), t1)
    }
}

/// Reads the text on the clipboard.
pub fn read_text(talk: &mut Talk) -> (r: Result<String, String>)
    ensures
        (text_view(r), final(talk)@) == found(old(talk)@),
{
    if !talk.ask(Request::OnWindows).truth() {
        return Err("clipboard operations are only supported on Windows".to_owned());
    }
    match talk.ask(Request::ReadClipboard) {
        Answer::Units(memory) => match from_memory(&memory) {
            Some(s) => Ok(s),
            None => Err("clipboard contains invalid UTF-16".to_owned()),
        },
        Answer::Failure(e) => Err(e),
        _ => Err("clipboard does not contain text".to_owned()),
    }
}

proof fn lemma_units_decode(c: char, rest: Seq<u16>)
    ensures
        decoded(units_of(c) + rest) == so_far(seq![c], decoded(rest)),
{
    let all = units_of(c) + rest;
    let u = c as int;
    if u < 0x10000 {
        assert(all[0] == u as u16);
        assert(all.skip(1) =~= rest);
        assert((u as u16) as char == c);
    } else {
        let k = u - 0x10000;
        let a = (0xD800 + k / 0x400) as u16;
        let b = (0xDC00 + k % 0x400) as u16;
        assert(0 <= k < 0x100000);
        assert(0 <= k / 0x400 < 0x400);
        assert(all[0] == a && all[1] == b);
        assert(all.skip(2) =~= rest);
        assert((k / 0x400) * 0x400 + k % 0x400 == k);
        assert(joined_code(a, b) == c);
    }
}

proof fn lemma_encoded_decodes(s: Seq<char>)
    ensures
        decoded(encoded(s)) == Some(s),
    decreases s.len(),
{
    if s.len() == 0 {
        assert(s =~= Seq::<char>::empty());
    } else {
        lemma_encoded_decodes(s.skip(1));
        lemma_units_decode(s[0], encoded(s.skip(1)));
        assert(seq![s[0]] + s.skip(1) =~= s);
    }
}

proof fn lemma_code_bound(c: char)
    ensures
        0 <= c as int <= 0x10FFFF,
{
}

proof fn lemma_no_zero(s: Seq<char>, i: int)
    requires
        !s.contains('\0'),
        0 <= i < encoded(s).len(),
    ensures
        encoded(s)[i] != 0,
    decreases s.len(),
{
    let n = units_of(s[0]).len() as int;
    assert(s.contains(s[0]));
    lemma_code_bound(s[0]);
    assert(s[0] as int != 0);
    if i >= n {
        let rest = s.skip(1);
        if rest.contains('\0') {
            let j = choose|j: int| 0 <= j < rest.len() && rest[j] == '\0';
            assert(s[j + 1] == '\0');
        }
        lemma_no_zero(rest, i - n);
    } else if s[0] as int >= 0x10000 {
        let k = s[0] as int - 0x10000;
        assert(0 <= k < 0x100000);
        assert(0 <= k / 0x400 < 0x400);
    }
}

proof fn lemma_zero_at(u: Seq<u16>, i: int, n: int)
    requires
        0 <= i <= n < u.len(),
        u[n] == 0,
        forall|j: int| i <= j < n ==> u[j] != 0,
    ensures
        zero_from(u, i) == n,
    decreases n - i,
{
    if i < n {
        lemma_zero_at(u, i + 1, n);
    }
}

/// A text without a zero character that was put on the clipboard is read back
/// as it was, whatever stands behind it in the memory.
pub proof fn law_text_comes_back(s: Seq<char>, behind: Seq<u16>)
    requires
        !s.contains('\0'),
    ensures
        text_in(encoded(s).push(0) + behind) == Some(s),
{
    let memory = encoded(s).push(0) + behind;
    let n = encoded(s).len() as int;
    assert forall|j: int| 0 <= j < n implies memory[j] != 0 by {
        lemma_no_zero(s, j);
        assert(memory[j] == encoded(s)[j]);
    }
    lemma_zero_at(memory, 0, n);
    assert(memory.take(n) =~= encoded(s));
    lemma_encoded_decodes(s);
}

/// A text is put on the clipboard as its units with a zero behind them, and
/// only on Windows.
pub proof fn law_text_is_written_whole(s: Seq<char>, t: TalkView)
    requires
        t.pending is None,
        0 <= t.next,
        t.next + 2 <= t.answers.len(),
    ensures
        ({
            let (r, t2) = written(s, t);
            let here = t.answers[t.next].as_truth();
            &&& here ==> t2.made == t.made.push(RequestView::OnWindows).push(
                RequestView::WriteClipboard(encoded(s).push(0)),
            ) && (r is Ok <==> !(t.answers[t.next + 1] is Failure))
            &&& !here ==> r is Err && t2.made == t.made.push(RequestView::OnWindows)
        }),
{
}

/// What is written is what is found: where the memory of the clipboard is
/// answered to hold the units that a text was written as, that text is found.
pub proof fn law_written_text_is_found(s: Seq<char>, behind: Seq<u16>, t: TalkView)
    requires
        !s.contains('\0'),
        t.pending is None,
        0 <= t.next,
        t.next + 2 <= t.answers.len(),
        t.answers[t.next].as_truth(),
        t.answers[t.next + 1] == AnswerView::Units(encoded(s).push(0) + behind),
    ensures
        found(t).0 == Ok::<Seq<char>, Seq<char>>(s),
{
    law_text_comes_back(s, behind);
}

/// A character of the basic plane is one unit, and any other two, of which the
/// first leads and the second follows.
pub proof fn law_units_are_one_or_two(c: char)
    ensures
        (c as u32) < 0x10000 ==> units_of(c).len() == 1 && units_of(c)[0] == c as u32,
        (c as u32) >= 0x10000 ==> units_of(c).len() == 2 && 0xD800 <= units_of(c)[0] <= 0xDBFF
            && 0xDC00 <= units_of(c)[1] <= 0xDFFF,
{
}

} // verus!
