//! The history of commands.
//!
//! The history is a file that all sessions share. Every record is a line; a
//! line `#@session=ID` says which session the records after it belong to, and
//! a line `#SECONDS` when the next one was entered. The settings are ordinary
//! variables, which `seed_defaults` fills in where they are missing.

use crate::builtins;
use crate::builtins::match_regex;
use crate::dialog;
use crate::dialog::{Action, ActionView, Answer, AnswerView, Request, RequestView, Talk, TalkView};
use crate::fileset;
use crate::fileset::copy_opt;
use crate::fs_builtins;
use crate::interp::{InterpView, Interpreter};
use crate::methods;
use crate::names;
use crate::operation;
use crate::operation::write_hex;
use crate::paths;
use crate::paths::{below, parent, with_extension};
use crate::text;
use crate::text::{
    cat2, cat3, cat4, cat5, chars_of, code_of, copy_texts, has_prefix, holds_text, is_space,
    join_texts, parse_u64, same, sort_names, sub_chars, tail_texts, text_of, u64_text,
};
use crate::types;
use crate::types::parse_truth;
use vstd::prelude::*;

verus! {

// ---------------------------------------------------------------------------
// Settings
// ---------------------------------------------------------------------------

/// The rules that hold where none are set.
pub open spec fn usual_rules() -> Seq<Seq<char>> {
    seq!["no_such_command"@, "whitespace"@, "duplicates"@]
}

/// The rules that hold where none are set.
pub fn default_ignore_rules() -> (r: Vec<String>)
    ensures
        text::texts(r@) == usual_rules(),
{
    let r: Vec<String> = vec![
        "no_such_command".to_owned(),
        "whitespace".to_owned(),
        "duplicates".to_owned(),
    ];
    assert(text::texts(r@) =~= usual_rules());
    r
}

/// A number in hexadecimal, filled up with zeros.
pub open spec fn padded_hex(n: nat, width: nat) -> Seq<char> {
    let digits = operation::hex_text(n);
    if digits.len() < width {
        text::repeated("0"@, (width - digits.len()) as nat) + digits
    } else {
        digits
    }
}

fn write_padded(n: u64, width: usize) -> (r: String)
    ensures
        r@ == padded_hex(n as nat, width as nat),
{
    let digits = write_hex(n);
    let v = chars_of(digits.as_str());
    if v.len() < width {
        let zeros = text::repeat_text("0", width - v.len());
        cat2(zeros.as_str(), digits.as_str())
    } else {
        digits
    }
}

/// The name of a new session: the time, the process and a number.
pub open spec fn fresh_session(t: TalkView) -> (Seq<char>, TalkView) {
    let (nanos, t1) = dialog::asked(t, RequestView::Nanoseconds);
    let (number, t2) = dialog::asked(t1, RequestView::Sequence);
    let (process, t3) = dialog::asked(t2, RequestView::ProcessId);
    (
        "s-"@ + padded_hex(nanos.as_number() as nat, 32) + "-"@ + padded_hex(
            process.as_number() as nat,
            8,
        ) + "-"@ + padded_hex(number.as_number() as nat, 8),
        t3,
    )
}

fn new_session_id(talk: &mut Talk) -> (r: String)
    ensures
        (r@, final(talk)@) == fresh_session(old(talk)@),
{
    let nanos = talk.ask(Request::Nanoseconds).number();
    let number = talk.ask(Request::Sequence).number();
    let process = talk.ask(Request::ProcessId).number();
    let a = write_padded(nanos, 32);
    let b = write_padded(process, 8);
    let c = write_padded(number, 8);
    let head = cat4("s-", a.as_str(), "-", b.as_str());
    cat3(head.as_str(), "-", c.as_str())
}

/// Where the history is kept unless a variable says otherwise.
pub open spec fn usual_path(t: TalkView) -> (Seq<char>, TalkView) {
    let (a, t1) = dialog::asked(t, RequestView::Environment("APPDATA"@));
    (
        match a {
            AnswerView::Text(dir) => fs_builtins::path_below(
                fs_builtins::path_below(dir, "ion-win"@),
                "history"@,
            ),
            _ => "ion-win-history"@,
        },
        t1,
    )
}

fn default_histfile_path(talk: &mut Talk) -> (r: String)
    ensures
        (r@, final(talk)@) == usual_path(old(talk)@),
{
    match talk.ask(Request::Environment("APPDATA".to_owned())) {
        Answer::Text(dir) => {
            let inner = below(dir.as_str(), "ion-win");
            below(inner.as_str(), "history")
        },
        _ => "ion-win-history".to_owned(),
    }
}

/// The variables after a scalar was filled in where it was missing.
pub open spec fn with_default(st: InterpView, name: Seq<char>, value: Seq<char>) -> InterpView {
    if names::visible(st.scalars, name) is None {
        InterpView { scalars: names::assigned(st.scalars, name, value), ..st }
    } else {
        st
    }
}

fn set_default(interp: &mut Interpreter, name: &str, value: &str)
    ensures
        final(interp)@ == with_default(old(interp)@, name@, value@),
{
    if interp.get_scalar(name).is_none() {
        let _old = interp.set_scalar(name.to_owned(), value.to_owned());
    }
}

/// The state after the settings were filled in where they were missing, and
/// the exchange.
pub open spec fn seeded(st: InterpView, t: TalkView) -> (InterpView, TalkView) {
    let (s1, t1) = if names::visible(st.scalars, "HISTFILE"@) is None {
        let (p, t0) = usual_path(t);
        (with_default(st, "HISTFILE"@, p), t0)
    } else {
        (st, t)
    };
    let s2 = with_default(s1, "HISTFILE_ENABLED"@, "1"@);
    let s3 = with_default(s2, "HISTFILE_SIZE"@, "100000"@);
    let s4 = with_default(s3, "HISTORY_SIZE"@, "1000"@);
    let (s5, t5) = if names::visible(s4.scalars, "HISTORY_SESSION_ID"@) is None {
        let (id, t4) = fresh_session(t1);
        (with_default(s4, "HISTORY_SESSION_ID"@, id), t4)
    } else {
        (s4, t1)
    };
    let s6 = if names::visible(s5.arrays, "HISTORY_IGNORE"@) is None {
        InterpView {
            arrays: names::assigned(s5.arrays, "HISTORY_IGNORE"@, usual_rules()),
            ..s5
        }
    } else {
        s5
    };
    (with_default(s6, "HISTORY_TIMESTAMP"@, "0"@), t5)
}

/// Fills the settings in where they are missing.
pub fn seed_defaults(interp: &mut Interpreter, talk: &mut Talk)
    ensures
        (final(interp)@, final(talk)@) == seeded(old(interp)@, old(talk)@),
{
    if interp.get_scalar("HISTFILE").is_none() {
        let p = default_histfile_path(talk);
        set_default(interp, "HISTFILE", p.as_str());
    }
    set_default(interp, "HISTFILE_ENABLED", "1");
    set_default(interp, "HISTFILE_SIZE", "100000");
    set_default(interp, "HISTORY_SIZE", "1000");
    if interp.get_scalar("HISTORY_SESSION_ID").is_none() {
        let id = new_session_id(talk);
        set_default(interp, "HISTORY_SESSION_ID", id.as_str());
    }
    if interp.get_array("HISTORY_IGNORE").is_none() {
        let _old = interp.set_array("HISTORY_IGNORE".to_owned(), default_ignore_rules());
    }
    set_default(interp, "HISTORY_TIMESTAMP", "0");
}

/// Where the history is kept.
pub open spec fn path_set(st: InterpView, t: TalkView) -> (Seq<char>, TalkView) {
    match names::visible(st.scalars, "HISTFILE"@) {
        Some(p) => if p.len() > 0 {
            (p, t)
        } else {
            usual_path(t)
        },
        None => usual_path(t),
    }
}

fn histfile_path(interp: &Interpreter, talk: &mut Talk) -> (r: String)
    ensures
        (r@, final(talk)@) == path_set(interp@, old(talk)@),
{
    match interp.get_scalar("HISTFILE") {
        Some(p) => if p.as_str().is_empty() {
            default_histfile_path(talk)
        } else {
            p.clone()
        },
        None => default_histfile_path(talk),
    }
}

/// The truth value of a setting; `otherwise` where it is missing or writes
/// none.
pub open spec fn switched(st: InterpView, name: Seq<char>, otherwise: bool) -> bool {
    match names::visible(st.scalars, name) {
        Some(v) => match types::truth_of(v) {
            Some(b) => b,
            None => otherwise,
        },
        None => otherwise,
    }
}

fn is_switched(interp: &Interpreter, name: &str, otherwise: bool) -> (r: bool)
    ensures
        r == switched(interp@, name@, otherwise),
{
    match interp.get_scalar(name) {
        Some(v) => match parse_truth(v.as_str()) {
            Some(b) => b,
            None => otherwise,
        },
        None => otherwise,
    }
}

/// Whether the history is kept in a file.
pub open spec fn enabled(st: InterpView) -> bool {
    switched(st, "HISTFILE_ENABLED"@, true)
}

/// The number of a setting; `otherwise` where it is missing or writes none.
pub open spec fn limit_set(st: InterpView, name: Seq<char>, otherwise: int) -> int {
    match names::visible(st.scalars, name) {
        Some(v) => match text::u64_of_text(v) {
            Some(n) => if n <= usize::MAX {
                n
            } else {
                otherwise
            },
            None => otherwise,
        },
        None => otherwise,
    }
}

fn configured_limit(interp: &Interpreter, name: &str, otherwise: usize) -> (r: usize)
    ensures
        r == limit_set(interp@, name@, otherwise as int),
{
    match interp.get_scalar(name) {
        Some(v) => match parse_u64(v.as_str()) {
            Some(n) => if n <= usize::MAX as u64 {
                n as usize
            } else {
                otherwise
            },
            None => otherwise,
        },
        None => otherwise,
    }
}

/// Whether a character can stand in a session's name.
pub open spec fn is_session_char(c: char) -> bool {
    text::is_ascii_letter(c) || text::is_digit_char(c) || c == '-' || c == '_' || c == '.'
}

/// A session's name with `_` in place of what cannot stand in it.
pub open spec fn clean_session(s: Seq<char>) -> Seq<char> {
    Seq::new(
        s.len(),
        |i: int|
            if is_session_char(s[i]) {
                s[i]
            } else {
                '_'
            },
    )
}

fn clean(s: &str) -> (r: String)
    ensures
        r@ == clean_session(s@),
{
    let v = chars_of(s);
    let mut out: Vec<char> = Vec::new();
    let mut i: usize = 0;
    while i < v.len()
        invariant
            i <= v@.len(),
            v@ == s@,
            out@ == clean_session(s@).take(i as int),
        decreases v@.len() - i,
    {
        let c = v[i];
        let u = code_of(c);
        let plain = (65 <= u && u <= 90) || (97 <= u && u <= 122) || (48 <= u && u <= 57) || c
            == '-' || c == '_' || c == '.';
        let kept = if plain {
            c
        } else {
            '_'
        };
        out.push(kept);
        assert(clean_session(s@).take(i + 1) =~= clean_session(s@).take(i as int).push(kept));
        i = i + 1;
    }
    assert(clean_session(s@).take(s@.len() as int) =~= clean_session(s@));
    text_of(&out)
}

/// The name of the current session.
pub open spec fn session_name(st: InterpView, t: TalkView) -> (Seq<char>, TalkView) {
    match names::visible(st.scalars, "HISTORY_SESSION_ID"@) {
        Some(id) => (clean_session(id), t),
        None => {
            let (id, t1) = fresh_session(t);
            (clean_session(id), t1)
        },
    }
}

fn session_id(interp: &Interpreter, talk: &mut Talk) -> (r: String)
    ensures
        (r@, final(talk)@) == session_name(interp@, old(talk)@),
{
    match interp.get_scalar("HISTORY_SESSION_ID") {
        Some(id) => clean(id.as_str()),
        None => {
            let id = new_session_id(talk);
            clean(id.as_str())
        },
    }
}

/// The rules that hold.
pub open spec fn rules_of(st: InterpView) -> Seq<Seq<char>> {
    match names::visible(st.arrays, "HISTORY_IGNORE"@) {
        Some(rules) => rules,
        None => usual_rules(),
    }
}

fn current_rules(interp: &Interpreter) -> (r: Vec<String>)
    ensures
        text::texts(r@) == rules_of(interp@),
{
    match interp.get_array("HISTORY_IGNORE") {
        Some(rules) => copy_texts(rules),
        None => default_ignore_rules(),
    }
}

/// Whether commands that were not found are to be taken out again.
pub fn ignores_no_such_command(interp: &Interpreter) -> (r: bool)
    ensures
        r == rules_of(interp@).contains("no_such_command"@),
{
    let rules = current_rules(interp);
    holds_text(&rules, "no_such_command")
}

// ---------------------------------------------------------------------------
// Records
// ---------------------------------------------------------------------------

/// A command of the history.
#[derive(Debug, Clone, PartialEq, Eq)]
pub struct HistoryRecord {
    pub timestamp: Option<u64>,
    pub session: Option<String>,
    pub command: String,
}

/// What a record says.
#[verifier::ext_equal]
pub struct RecordView {
    pub timestamp: Option<u64>,
    pub session: Option<Seq<char>>,
    pub command: Seq<char>,
}

impl View for HistoryRecord {
    type V = RecordView;

    open spec fn view(&self) -> RecordView {
        RecordView {
            timestamp: self.timestamp,
            session: fileset::opt_text(self.session),
            command: self.command@,
        }
    }
}

/// What the records of a list say.
pub open spec fn record_views(list: Seq<HistoryRecord>) -> Seq<RecordView> {
    Seq::new(list.len(), |i: int| list[i]@)
}

/// Where the first newline from `i` on is.
pub open spec fn newline_at(s: Seq<char>, i: int) -> Option<int>
    decreases s.len() - i,
{
    if i < 0 || i >= s.len() {
        None
    } else if s[i] == '\n' {
        Some(i)
    } else {
        newline_at(s, i + 1)
    }
}

/// A line without the carriage return at its end.
pub open spec fn without_return(s: Seq<char>) -> Seq<char> {
    if s.len() > 0 && s.last() == '\r' {
        s.drop_last()
    } else {
        s
    }
}

/// The lines of a text.
pub open spec fn lines_of(s: Seq<char>) -> Seq<Seq<char>>
    decreases s.len(),
    via lines_get_shorter
{
    if s.len() == 0 {
        Seq::empty()
    } else {
        match newline_at(s, 0) {
            None => seq![s],
            Some(k) => seq![without_return(s.take(k))] + lines_of(s.skip(k + 1)),
        }
    }
}

#[via_fn]
proof fn lines_get_shorter(s: Seq<char>) {
    lemma_newline(s, 0);
}

proof fn lemma_newline(s: Seq<char>, i: int)
    requires
        0 <= i,
    ensures
        match newline_at(s, i) {
            Some(k) => i <= k < s.len() && s[k] == '\n' && forall|j: int|
                i <= j < k ==> s[j] != '\n',
            None => forall|j: int| i <= j < s.len() ==> s[j] != '\n',
        },
    decreases s.len() - i,
{
    if i < s.len() && s[i] != '\n' {
        lemma_newline(s, i + 1);
    }
}

/// Lists the lines of a text.
pub fn split_lines(s: &str) -> (r: Vec<String>)
    ensures
        text::texts(r@) == lines_of(s@),
{
    let v = chars_of(s);
    let ghost whole = lines_of(s@);
    let mut out: Vec<String> = Vec::new();
    let mut from: usize = 0;
    assert(text::texts(out@) =~= Seq::<Seq<char>>::empty());
    assert(v@.skip(0) =~= v@);
    assert(text::texts(out@) + lines_of(v@.skip(0)) =~= whole);
    while from < v.len()
        invariant
            from <= v@.len(),
            v@ == s@,
            whole == lines_of(s@),
            text::texts(out@) + lines_of(v@.skip(from as int)) == whole,
        decreases v@.len() - from,
    {
        let ghost rest = v@.skip(from as int);
        let mut k: usize = from;
        while k < v.len() && v[k] != '\n'
            invariant
                from <= k <= v@.len(),
                rest == v@.skip(from as int),
                newline_at(rest, 0) == newline_at(rest, k - from),
            decreases v@.len() - k,
        {
            assert(rest[k - from] == v@[k as int]);
            k = k + 1;
        }
        if k >= v.len() {
            let last = sub_chars(&v, from, v.len());
            assert(last@ =~= rest);
            let line = text_of(&last);
            proof {
                text::lemma_texts_push(out@, line);
                assert(lines_of(rest) =~= seq![line@]);
                assert(text::texts(out@).push(line@) =~= text::texts(out@) + seq![line@]);
            }
            out.push(line);
            return out;
        }
        assert(rest[k - from] == v@[k as int]);
        let end = if k > from && v[k - 1] == '\r' {
            k - 1
        } else {
            k
        };
        let piece = sub_chars(&v, from, end);
        let line = text_of(&piece);
        proof {
            assert(rest.take(k - from) =~= v@.subrange(from as int, k as int));
            assert(piece@ =~= without_return(rest.take(k - from)));
            assert(rest.skip(k - from + 1) =~= v@.skip(k + 1));
            text::lemma_texts_push(out@, line);
            assert(text::texts(out@) + (seq![line@] + lines_of(v@.skip(k + 1))) =~= text::texts(
                out@,
            ).push(line@) + lines_of(v@.skip(k + 1)));
        }
        out.push(line);
        from = k + 1;
    }
    assert(lines_of(v@.skip(from as int)) =~= Seq::<Seq<char>>::empty());
    assert(text::texts(out@) + Seq::<Seq<char>>::empty() =~= text::texts(out@));
    out
}

/// What begins a line that names a session.
pub open spec fn session_mark() -> Seq<char> {
    "#@session="@
}

/// Whether a line says when the next command was entered.
pub open spec fn is_time_mark(line: Seq<char>) -> bool {
    line.len() > 1 && line[0] == '#' && text::all_digits(line.skip(1))
}

/// Tells whether a line says when the next command was entered.
pub fn is_timestamp_marker(line: &str) -> (r: bool)
    ensures
        r == is_time_mark(line@),
{
    let v = chars_of(line);
    if v.len() < 2 || v[0] != '#' {
        return false;
    }
    let mut i: usize = 1;
    while i < v.len()
        invariant
            1 <= i <= v@.len(),
            v@ == line@,
            forall|k: int| 0 <= k < i - 1 ==> text::is_digit_char(#[trigger] line@.skip(1)[k]),
        decreases v@.len() - i,
    {
        let u = code_of(v[i]);
        assert(line@.skip(1)[i - 1] == v@[i as int]);
        if u < 48 || u > 57 {
            assert(!text::is_digit_char(line@.skip(1)[i - 1]));
            return false;
        }
        i = i + 1;
    }
    true
}

/// The session that a line names, where it names one.
pub open spec fn named_session(line: Seq<char>) -> Option<Seq<char>> {
    let id = line.skip(session_mark().len() as int);
    if id.len() > 0 {
        Some(id)
    } else {
        None
    }
}

/// The time that a line gives, where it fits.
pub open spec fn marked_time(line: Seq<char>) -> Option<u64> {
    match text::u64_of_text(line.skip(1)) {
        Some(n) => Some(n as u64),
        None => None,
    }
}

/// The records of the lines from `i` on, given the session and the time that
/// were named before.
pub open spec fn records_from(
    lines: Seq<Seq<char>>,
    i: int,
    session: Option<Seq<char>>,
    timestamp: Option<u64>,
) -> Seq<RecordView>
    decreases lines.len() - i,
{
    if i < 0 || i >= lines.len() {
        Seq::empty()
    } else {
        let line = lines[i];
        if text::begins_with(line, session_mark()) {
            records_from(lines, i + 1, named_session(line), timestamp)
        } else if is_time_mark(line) {
            records_from(lines, i + 1, session, marked_time(line))
        } else {
            seq![RecordView { timestamp, session, command: line }] + records_from(
                lines,
                i + 1,
                session,
                None,
            )
        }
    }
}

/// The records of a text.
pub open spec fn records_of(s: Seq<char>) -> Seq<RecordView> {
    records_from(lines_of(s), 0, None, None)
}

/// Reads the records of a text.
pub fn parse_records(contents: &str) -> (r: Vec<HistoryRecord>)
    ensures
        record_views(r@) == records_of(contents@),
{
    let lines = split_lines(contents);
    let ghost all = text::texts(lines@);
    let mut session: Option<String> = None;
    let mut timestamp: Option<u64> = None;
    let mut out: Vec<HistoryRecord> = Vec::new();
    let mut i: usize = 0;
    let mark = chars_of("#@session=");
    assert(record_views(out@) =~= Seq::<RecordView>::empty());
    assert(record_views(out@) + records_from(all, 0, None, None) =~= records_of(contents@));
    while i < lines.len()
        invariant
            i <= lines@.len(),
            all == text::texts(lines@),
            mark@ == session_mark(),
            record_views(out@) + records_from(
                all,
                i as int,
                fileset::opt_text(session),
                timestamp,
            ) == records_of(contents@),
        decreases lines@.len() - i,
    {
        let line = lines[i].as_str();
        assert(all[i as int] == line@);
        if has_prefix(line, "#@session=") {
            let v = chars_of(line);
            let rest = sub_chars(&v, mark.len(), v.len());
            assert(rest@ =~= line@.skip(session_mark().len() as int));
            session = if rest.len() > 0 {
                Some(text_of(&rest))
            } else {
                None
            };
        } else if is_timestamp_marker(line) {
            let v = chars_of(line);
            let rest = sub_chars(&v, 1, v.len());
            assert(rest@ =~= line@.skip(1));
            let digits = text_of(&rest);
            timestamp = parse_u64(digits.as_str());
        } else {
            let record = HistoryRecord {
                timestamp,
                session: copy_opt(&session),
                command: line.to_owned(),
            };
            let ghost before = out@;
            let ghost more = records_from(all, i + 1, fileset::opt_text(session), None);
            out.push(record);
            timestamp = None;
            proof {
                assert(record_views(out@) =~= record_views(before).push(record@));
                assert(record_views(before) + (seq![record@] + more) =~= record_views(out@) + more);
            }
        }
        i = i + 1;
    }
    assert(record_views(out@) + Seq::<RecordView>::empty() =~= record_views(out@));
    out
}

/// The text of one record, behind the session that is named already.
pub open spec fn record_text(r: RecordView, active: Option<Seq<char>>) -> Seq<char> {
    (if r.session == active {
        Seq::empty()
    } else {
        session_mark() + (match r.session {
            Some(s) => s,
            None => Seq::empty(),
        }) + "\n"@
    }) + (match r.timestamp {
        Some(n) => "#"@ + text::nat_text(n as nat) + "\n"@,
        None => Seq::empty(),
    }) + (r.command + "\n"@)
}

/// The text of the records from `i` on.
pub open spec fn records_text(list: Seq<RecordView>, i: int, active: Option<Seq<char>>) -> Seq<char>
    decreases list.len() - i,
{
    if i < 0 || i >= list.len() {
        Seq::empty()
    } else {
        record_text(list[i], active) + records_text(list, i + 1, list[i].session)
    }
}

fn same_session(a: &Option<String>, b: &Option<String>) -> (r: bool)
    ensures
        r == (fileset::opt_text(*a) == fileset::opt_text(*b)),
{
    match (a, b) {
        (None, None) => true,
        (Some(x), Some(y)) => same(x.as_str(), y.as_str()),
        _ => false,
    }
}

fn write_record(r: &HistoryRecord, active: &Option<String>) -> (out: String)
    ensures
        out@ == record_text(r@, fileset::opt_text(*active)),
{
    let mut out = String::new();
    assert(out@ =~= Seq::<char>::empty());
    if !same_session(&r.session, active) {
        match &r.session {
            Some(s) => {
                out = cat3("#@session=", s.as_str(), "\n");
            },
            None => {
                out = cat2("#@session=", "\n");
                assert(out@ =~= session_mark() + Seq::<char>::empty() + "\n"@);
            },
        }
    }
    match r.timestamp {
        Some(n) => {
            let digits = u64_text(n);
            let line = cat3("#", digits.as_str(), "\n");
            out = cat2(out.as_str(), line.as_str());
        },
        None => {
            assert(out@ =~= out@ + Seq::<char>::empty());
        },
    }
    let line = cat2(r.command.as_str(), "\n");
    cat2(out.as_str(), line.as_str())
}

/// Writes the records.
pub fn serialize_records(list: &[HistoryRecord]) -> (r: String)
    ensures
        r@ == records_text(record_views(list@), 0, None),
{
    let ghost all = record_views(list@);
    let mut out = String::new();
    let mut active: Option<String> = None;
    let mut i: usize = 0;
    assert(out@ =~= Seq::<char>::empty());
    assert(out@ + records_text(all, 0, None) =~= records_text(all, 0, None));
    while i < list.len()
        invariant
            i <= list@.len(),
            all == record_views(list@),
            out@ + records_text(all, i as int, fileset::opt_text(active)) == records_text(
                all,
                0,
                None,
            ),
        decreases list@.len() - i,
    {
        assert(all[i as int] == list@[i as int]@);
        let piece = write_record(&list[i], &active);
        let ghost before = out@;
        let ghost rest = records_text(all, i + 1, all[i as int].session);
        out = cat2(out.as_str(), piece.as_str());
        active = copy_opt(&list[i].session);
        assert(before + (piece@ + rest) =~= out@ + rest);
        i = i + 1;
    }
    assert(out@ + Seq::<char>::empty() =~= out@);
    out
}

// ---------------------------------------------------------------------------
// Rules
// ---------------------------------------------------------------------------

/// What begins a rule that names a pattern.
pub open spec fn pattern_mark() -> Seq<char> {
    "regex:"@
}

/// Whether one of the rules from `i` on names a pattern that matches. A
/// pattern that is none matches nothing.
pub open spec fn pattern_hits(rules: Seq<Seq<char>>, i: int, entry: Seq<char>) -> bool
    decreases rules.len() - i,
{
    if i < 0 || i >= rules.len() {
        false
    } else if text::begins_with(rules[i], pattern_mark()) && builtins::regex_matched(
        rules[i].skip(pattern_mark().len() as int),
        entry,
    ) == Ok::<bool, Seq<char>>(true) {
        true
    } else {
        pattern_hits(rules, i + 1, entry)
    }
}

fn hits_pattern(rules: &[String], entry: &str) -> (r: bool)
    ensures
        r == pattern_hits(text::texts(rules@), 0, entry@),
{
    let ghost all = text::texts(rules@);
    let mark = chars_of("regex:");
    let mut i: usize = 0;
    while i < rules.len()
        invariant
            i <= rules@.len(),
            all == text::texts(rules@),
            mark@ == pattern_mark(),
            pattern_hits(all, 0, entry@) == pattern_hits(all, i as int, entry@),
        decreases rules@.len() - i,
    {
        assert(all[i as int] == rules@[i as int]@);
        if has_prefix(rules[i].as_str(), "regex:") {
            let v = chars_of(rules[i].as_str());
            let rest = sub_chars(&v, mark.len(), v.len());
            assert(rest@ =~= all[i as int].skip(pattern_mark().len() as int));
            let pattern = text_of(&rest);
            match match_regex(pattern.as_str(), entry) {
                Ok(hit) => if hit {
                    return true;
                },
                Err(_) => {},
            }
        }
        i = i + 1;
    }
    false
}

/// The entries of a list that are not a given one.
pub open spec fn without_entry(list: Seq<Seq<char>>, entry: Seq<char>) -> Seq<Seq<char>>
    decreases list.len(),
{
    if list.len() == 0 {
        Seq::empty()
    } else {
        let rest = without_entry(list.drop_last(), entry);
        if list.last() == entry {
            rest
        } else {
            rest.push(list.last())
        }
    }
}

fn drop_entry(list: &[String], entry: &str) -> (r: Vec<String>)
    ensures
        text::texts(r@) == without_entry(text::texts(list@), entry@),
{
    let ghost all = text::texts(list@);
    let mut out: Vec<String> = Vec::new();
    let mut i: usize = 0;
    assert(all.take(0) =~= Seq::<Seq<char>>::empty());
    assert(text::texts(out@) =~= Seq::<Seq<char>>::empty());
    while i < list.len()
        invariant
            i <= list@.len(),
            all == text::texts(list@),
            text::texts(out@) == without_entry(all.take(i as int), entry@),
        decreases list@.len() - i,
    {
        assert(all.take(i + 1).drop_last() =~= all.take(i as int));
        assert(all.take(i + 1).last() == list@[i as int]@);
        if !same(list[i].as_str(), entry) {
            let e = list[i].clone();
            proof {
                text::lemma_texts_push(out@, e);
            }
            out.push(e);
        }
        i = i + 1;
    }
    assert(all.take(list@.len() as int) =~= all);
    out
}

/// Whether an entry begins with white space.
pub open spec fn is_indented(entry: Seq<char>) -> bool {
    entry.len() > 0 && text::is_space_char(entry[0])
}

/// The first `n` entries that are kept: those that no pattern hits, with
/// `spaces` not those that begin with white space, and with `once` of equal
/// ones only the last.
pub open spec fn kept_entries(
    entries: Seq<Seq<char>>,
    hits: Seq<bool>,
    n: int,
    spaces: bool,
    once: bool,
) -> Seq<Seq<char>>
    decreases n,
{
    if n <= 0 {
        Seq::empty()
    } else {
        let before = kept_entries(entries, hits, n - 1, spaces, once);
        let e = entries[n - 1];
        if (spaces && is_indented(e)) || hits[n - 1] {
            before
        } else if once {
            without_entry(before, e).push(e)
        } else {
            before.push(e)
        }
    }
}

/// Keeps the entries that the rules leave, given which of them a pattern
/// hits.
pub fn keep_entries(entries: &[String], hits: &[bool], spaces: bool, once: bool) -> (r: Vec<String>)
    requires
        hits@.len() == entries@.len(),
    ensures
        text::texts(r@) == kept_entries(
            text::texts(entries@),
            hits@,
            entries@.len() as int,
            spaces,
            once,
        ),
{
    let ghost all = text::texts(entries@);
    let mut out: Vec<String> = Vec::new();
    let mut i: usize = 0;
    assert(text::texts(out@) =~= Seq::<Seq<char>>::empty());
    while i < entries.len()
        invariant
            i <= entries@.len(),
            hits@.len() == entries@.len(),
            all == text::texts(entries@),
            text::texts(out@) == kept_entries(all, hits@, i as int, spaces, once),
        decreases entries@.len() - i,
    {
        assert(all[i as int] == entries@[i as int]@);
        let e = entries[i].as_str();
        let v = chars_of(e);
        let indented = v.len() > 0 && is_space(v[0]);
        if !((spaces && indented) || hits[i]) {
            if once {
                out = drop_entry(&out, e);
            }
            let kept = entries[i].clone();
            proof {
                text::lemma_texts_push(out@, kept);
            }
            out.push(kept);
        }
        i = i + 1;
    }
    out
}

/// Which entries a pattern of the rules hits.
pub open spec fn all_hits(entries: Seq<Seq<char>>, rules: Seq<Seq<char>>) -> Seq<bool> {
    Seq::new(entries.len(), |i: int| pattern_hits(rules, 0, entries[i]))
}

/// The entries that the rules leave.
pub open spec fn ruled(entries: Seq<Seq<char>>, rules: Seq<Seq<char>>) -> Seq<Seq<char>> {
    if rules.contains("all"@) {
        Seq::empty()
    } else {
        kept_entries(
            entries,
            all_hits(entries, rules),
            entries.len() as int,
            rules.contains("whitespace"@),
            rules.contains("duplicates"@),
        )
    }
}

/// Applies the rules to a list of entries.
pub fn apply_ignore_rules(entries: &[String], rules: &[String]) -> (r: Vec<String>)
    ensures
        text::texts(r@) == ruled(text::texts(entries@), text::texts(rules@)),
{
    let ghost all = text::texts(entries@);
    let ghost laws = text::texts(rules@);
    if holds_text(rules, "all") {
        let none: Vec<String> = Vec::new();
        assert(text::texts(none@) =~= Seq::<Seq<char>>::empty());
        return none;
    }
    let spaces = holds_text(rules, "whitespace");
    let once = holds_text(rules, "duplicates");
    let mut hits: Vec<bool> = Vec::new();
    let mut i: usize = 0;
    while i < entries.len()
        invariant
            i <= entries@.len(),
            all == text::texts(entries@),
            laws == text::texts(rules@),
            hits@ == all_hits(all, laws).take(i as int),
        decreases entries@.len() - i,
    {
        assert(all[i as int] == entries@[i as int]@);
        let hit = hits_pattern(rules, entries[i].as_str());
        hits.push(hit);
        assert(all_hits(all, laws).take(i + 1) =~= all_hits(all, laws).take(i as int).push(hit));
        i = i + 1;
    }
    assert(all_hits(all, laws).take(entries@.len() as int) =~= all_hits(all, laws));
    keep_entries(entries, &hits, spaces, once)
}

// ---------------------------------------------------------------------------
// Reading and writing the file
// ---------------------------------------------------------------------------

/// The last elements of a list, no more than `limit`.
pub open spec fn latest<T>(list: Seq<T>, limit: int) -> Seq<T> {
    if list.len() > limit {
        list.skip(list.len() - limit)
    } else {
        list
    }
}

/// Keeps the last elements of a list, no more than `limit`.
pub fn retain_latest<T>(items: &mut Vec<T>, limit: usize)
    ensures
        final(items)@ == latest(old(items)@, limit as int),
{
    if items.len() > limit {
        let n = items.len() - limit;
        let tail = items.split_off(n);
        *items = tail;
        assert(items@ =~= latest(old(items)@, limit as int));
    }
}

/// The commands of records.
pub open spec fn commands_of(list: Seq<RecordView>) -> Seq<Seq<char>> {
    Seq::new(list.len(), |i: int| list[i].command)
}

fn list_commands(list: &[HistoryRecord]) -> (r: Vec<String>)
    ensures
        text::texts(r@) == commands_of(record_views(list@)),
{
    let ghost whole = commands_of(record_views(list@));
    let mut out: Vec<String> = Vec::new();
    let mut i: usize = 0;
    while i < list.len()
        invariant
            i <= list@.len(),
            whole == commands_of(record_views(list@)),
            text::texts(out@) == whole.take(i as int),
        decreases list@.len() - i,
    {
        let c = list[i].command.clone();
        proof {
            text::lemma_texts_push(out@, c);
            assert(whole.take(i + 1) =~= whole.take(i as int).push(c@));
        }
        out.push(c);
        i = i + 1;
    }
    assert(whole.take(list@.len() as int) =~= whole);
    out
}

/// The commands that the shell recalls, out of the contents of the file.
pub open spec fn recalled(st: InterpView, contents: Seq<char>) -> Seq<Seq<char>> {
    latest(
        ruled(commands_of(records_of(contents)), rules_of(st)),
        limit_set(st, "HISTORY_SIZE"@, 1000),
    )
}

fn recall(interp: &Interpreter, contents: &str) -> (r: Vec<String>)
    ensures
        text::texts(r@) == recalled(interp@, contents@),
{
    let records = parse_records(contents);
    let commands = list_commands(&records);
    let rules = current_rules(interp);
    let mut entries = apply_ignore_rules(&commands, &rules);
    let ghost before = entries@;
    let limit = configured_limit(interp, "HISTORY_SIZE", 1000);
    retain_latest(&mut entries, limit);
    assert(text::texts(entries@) =~= latest(text::texts(before), limit as int));
    entries
}

/// What loading the history gives. One that is off, locked or unreadable is
/// empty.
pub open spec fn loaded(st: InterpView, t: TalkView) -> (Seq<Seq<char>>, TalkView) {
    if !enabled(st) {
        (Seq::empty(), t)
    } else {
        let (path, t1) = path_set(st, t);
        let (lock, t2) = dialog::acted(t1, ActionView::Lock(path));
        match lock {
            Err(_) => (Seq::empty(), t2),
            Ok(_) => {
                let (a, t3) = dialog::asked(t2, RequestView::ReadStrict(path));
                (
                    match a {
                        AnswerView::Text(contents) => recalled(st, contents),
                        _ => Seq::empty(),
                    },
                    dialog::acted(t3, ActionView::Unlock(path)).1,
                )
            },
        }
    }
}

/// Loads the history.
pub fn load(interp: &Interpreter, talk: &mut Talk) -> (r: Vec<String>)
    ensures
        (text::texts(r@), final(talk)@) == loaded(interp@, old(talk)@),
{
    let none: Vec<String> = Vec::new();
    assert(text::texts(none@) =~= Seq::<Seq<char>>::empty());
    if !is_switched(interp, "HISTFILE_ENABLED", true) {
        return none;
    }
    let path = histfile_path(interp, talk);
    match talk.act(Action::Lock(path.clone())) {
        Err(_) => return none,
        Ok(_) => {},
    }
    let entries = match talk.ask(Request::ReadStrict(path.clone())) {
        Answer::Text(contents) => recall(interp, contents.as_str()),
        _ => none,
    };
    let _unlocked = talk.act(Action::Unlock(path));
    entries
}

/// A fresh view of the shared history, unless it is off.
pub fn refresh(interp: &Interpreter, talk: &mut Talk) -> (r: Option<Vec<String>>)
    ensures
        enabled(interp@) ==> r is Some && (text::texts(r->0@), final(talk)@) == loaded(
            interp@,
            old(talk)@,
        ),
        !enabled(interp@) ==> r is None && final(talk)@ == old(talk)@,
{
    if is_switched(interp, "HISTFILE_ENABLED", true) {
        Some(load(interp, talk))
    } else {
        None
    }
}

/// The lines that append commands to the file.
pub open spec fn appended_text(
    entries: Seq<Seq<char>>,
    n: int,
    session: Seq<char>,
    stamp: Option<u64>,
) -> Seq<char>
    decreases n,
{
    if n <= 0 {
        session_mark() + session + "\n"@
    } else {
        appended_text(entries, n - 1, session, stamp) + (match stamp {
            Some(s) => "#"@ + text::nat_text(s as nat) + "\n"@,
            None => Seq::empty(),
        }) + (entries[n - 1] + "\n"@)
    }
}

fn batch(entries: &[String], session: &str, stamp: Option<u64>) -> (r: String)
    ensures
        r@ == appended_text(text::texts(entries@), entries@.len() as int, session@, stamp),
{
    let ghost all = text::texts(entries@);
    let mut out = cat3("#@session=", session, "\n");
    let mut i: usize = 0;
    while i < entries.len()
        invariant
            i <= entries@.len(),
            all == text::texts(entries@),
            out@ == appended_text(all, i as int, session@, stamp),
        decreases entries@.len() - i,
    {
        assert(all[i as int] == entries@[i as int]@);
        match stamp {
            Some(s) => {
                let digits = u64_text(s);
                let line = cat3("#", digits.as_str(), "\n");
                out = cat2(out.as_str(), line.as_str());
            },
            None => {
                assert(out@ + Seq::<char>::empty() =~= out@);
            },
        }
        let line = cat2(entries[i].as_str(), "\n");
        out = cat2(out.as_str(), line.as_str());
        i = i + 1;
    }
    out
}

/// What bringing the file down to `limit` records gives: how many it holds.
pub open spec fn compacted(path: Seq<char>, limit: int, t: TalkView) -> (
    Result<int, Seq<char>>,
    TalkView,
) {
    let (a, t1) = dialog::asked(t, RequestView::ReadStrict(path));
    let records = records_of(a.as_text());
    if records.len() <= limit {
        (Ok(records.len() as int), t1)
    } else {
        let kept = latest(records, limit);
        let (process, t2) = dialog::asked(t1, RequestView::ProcessId);
        let (number, t3) = dialog::asked(t2, RequestView::Sequence);
        let temp = paths::extended(
            path,
            "compact-"@ + text::nat_text(process.as_number() as nat) + "-"@ + text::nat_text(
                number.as_number() as nat,
            ),
        );
        let (w, t4) = dialog::acted(
            t3,
            ActionView::WriteText(temp, records_text(kept, 0, None)),
        );
        match w {
            Err(e) => (Err(e), t4),
            Ok(_) => {
                let (r, t5) = dialog::acted(t4, ActionView::Replace(temp, path));
                match r {
                    Err(e) => (Err(e), dialog::acted(t5, ActionView::RemoveFile(temp)).1),
                    Ok(_) => (Ok(kept.len() as int), t5),
                }
            },
        }
    }
}

fn compact_locked(path: &str, limit: usize, talk: &mut Talk) -> (r: Result<usize, String>)
    ensures
        (match r {
            Ok(n) => Ok(n as int),
            Err(e) => Err(e@),
        }, final(talk)@) == compacted(path@, limit as int, old(talk)@),
{
    let contents = talk.ask(Request::ReadStrict(path.to_owned())).into_text();
    let mut records = parse_records(contents.as_str());
    let ghost all = record_views(records@);
    assert(all.len() == records@.len());
    if records.len() <= limit {
        return Ok(records.len());
    }
    let ghost before = records@;
    retain_latest(&mut records, limit);
    assert(record_views(records@) =~= latest(all, limit as int));
    let output = serialize_records(&records);
    let process = u64_text(talk.ask(Request::ProcessId).number());
    let number = u64_text(talk.ask(Request::Sequence).number());
    let extension = cat4("compact-", process.as_str(), "-", number.as_str());
    let temp = with_extension(path, extension.as_str());
    match talk.act(Action::WriteText(temp.clone(), output)) {
        Err(e) => return Err(e),
        Ok(_) => {},
    }
    match talk.act(Action::Replace(temp.clone(), path.to_owned())) {
        Err(e) => {
            let _removed = talk.act(Action::RemoveFile(temp));
            return Err(e);
        },
        Ok(_) => {},
    }
    Ok(records.len())
}

/// The exchange after commands were appended to the history.
pub open spec fn appended(st: InterpView, entries: Seq<Seq<char>>, t: TalkView) -> TalkView {
    let kept = ruled(entries, rules_of(st));
    if !enabled(st) || entries.len() == 0 || kept.len() == 0 {
        t
    } else {
        let (path, t1) = path_set(st, t);
        let t2 = match paths::parent_of(path) {
            Some(p) => dialog::acted(t1, ActionView::CreateDirs(p)).1,
            None => t1,
        };
        let (lock, t3) = dialog::acted(t2, ActionView::Lock(path));
        match lock {
            Err(_) => t3,
            Ok(_) => {
                let (now, t4) = dialog::asked(t3, RequestView::Seconds);
                let (session, t5) = session_name(st, t4);
                let stamp = if switched(st, "HISTORY_TIMESTAMP"@, false) {
                    Some(now.as_number())
                } else {
                    None
                };
                let (w, t6) = dialog::acted(
                    t5,
                    ActionView::AppendText(
                        path,
                        appended_text(kept, kept.len() as int, session, stamp),
                    ),
                );
                let t7 = match w {
                    Err(_) => t6,
                    Ok(_) => compacted(path, limit_set(st, "HISTFILE_SIZE"@, 100000), t6).1,
                };
                dialog::acted(t7, ActionView::Unlock(path)).1
            },
        }
    }
}

/// Appends commands to the history, under the current session, and brings the
/// file down to its size.
pub fn append(interp: &Interpreter, entries: &[String], talk: &mut Talk)
    ensures
        final(talk)@ == appended(interp@, text::texts(entries@), old(talk)@),
{
    assert(text::texts(entries@).len() == entries@.len());
    if !is_switched(interp, "HISTFILE_ENABLED", true) || entries.len() == 0 {
        return;
    }
    let rules = current_rules(interp);
    let kept = apply_ignore_rules(entries, &rules);
    assert(text::texts(kept@).len() == kept@.len());
    if kept.len() == 0 {
        return;
    }
    let path = histfile_path(interp, talk);
    match parent(path.as_str()) {
        Some(p) => {
            let _made = talk.act(Action::CreateDirs(p));
        },
        None => {},
    }
    match talk.act(Action::Lock(path.clone())) {
        Err(_) => return,
        Ok(_) => {},
    }
    let now = talk.ask(Request::Seconds).number();
    let session = session_id(interp, talk);
    let stamp = if is_switched(interp, "HISTORY_TIMESTAMP", false) {
        Some(now)
    } else {
        None
    };
    let lines = batch(&kept, session.as_str(), stamp);
    match talk.act(Action::AppendText(path.clone(), lines)) {
        Err(_) => {},
        Ok(_) => {
            let limit = configured_limit(interp, "HISTFILE_SIZE", 100000);
            let _size = compact_locked(path.as_str(), limit, talk);
        },
    }
    let _unlocked = talk.act(Action::Unlock(path));
}

// ---------------------------------------------------------------------------
// The `history` builtin
// ---------------------------------------------------------------------------

/// The name of a record's session.
pub open spec fn shown_session(r: RecordView) -> Seq<char> {
    match r.session {
        Some(s) => s,
        None => "<legacy>"@,
    }
}

/// The names of the sessions of records.
pub open spec fn session_list(list: Seq<RecordView>) -> Seq<Seq<char>> {
    Seq::new(list.len(), |i: int| shown_session(list[i]))
}

/// How often a name stands among the first `n`.
pub open spec fn occurrences(list: Seq<Seq<char>>, name: Seq<char>, n: int) -> nat
    decreases n,
{
    if n <= 0 {
        0
    } else {
        occurrences(list, name, n - 1) + (if list[n - 1] == name {
            1nat
        } else {
            0
        })
    }
}

/// The lines that count the records of each session, in the order of their
/// names.
pub open spec fn session_lines(list: Seq<RecordView>) -> Seq<Seq<char>> {
    let all = session_list(list);
    let sessions = text::sorted_set(all);
    Seq::new(
        sessions.len(),
        |i: int|
            sessions[i] + "\t"@ + text::nat_text(
                occurrences(all, sessions[i], all.len() as int),
            ),
    )
}

fn list_sessions(list: &[HistoryRecord]) -> (r: Vec<String>)
    ensures
        text::texts(r@) == session_list(record_views(list@)),
{
    let ghost whole = session_list(record_views(list@));
    let mut out: Vec<String> = Vec::new();
    let mut i: usize = 0;
    while i < list.len()
        invariant
            i <= list@.len(),
            whole == session_list(record_views(list@)),
            text::texts(out@) == whole.take(i as int),
        decreases list@.len() - i,
    {
        let s = match &list[i].session {
            Some(s) => s.clone(),
            None => "<legacy>".to_owned(),
        };
        proof {
            text::lemma_texts_push(out@, s);
            assert(whole[i as int] == s@);
            assert(whole.take(i + 1) =~= whole.take(i as int).push(s@));
        }
        out.push(s);
        i = i + 1;
    }
    assert(whole.take(list@.len() as int) =~= whole);
    out
}

fn count_name(list: &[String], name: &str) -> (r: u64)
    ensures
        r == occurrences(text::texts(list@), name@, list@.len() as int),
{
    let ghost all = text::texts(list@);
    let mut n: u64 = 0;
    let mut i: usize = 0;
    while i < list.len()
        invariant
            i <= list@.len(),
            n <= i,
            all == text::texts(list@),
            n == occurrences(all, name@, i as int),
        decreases list@.len() - i,
    {
        assert(all[i as int] == list@[i as int]@);
        if same(list[i].as_str(), name) {
            assert(n < list.len());
            n = n + 1;
        }
        i = i + 1;
    }
    n
}

fn write_sessions(list: &[HistoryRecord]) -> (r: String)
    ensures
        r@ == text::joined(session_lines(record_views(list@)), "\n"@),
{
    let all = list_sessions(list);
    let sessions = sort_names(&all);
    let ghost whole = session_lines(record_views(list@));
    let mut out: Vec<String> = Vec::new();
    let mut i: usize = 0;
    assert(whole.len() == text::texts(sessions@).len());
    while i < sessions.len()
        invariant
            i <= sessions@.len(),
            whole.len() == sessions@.len(),
            whole == session_lines(record_views(list@)),
            text::texts(all@) == session_list(record_views(list@)),
            text::texts(sessions@) == text::sorted_set(text::texts(all@)),
            text::texts(out@) == whole.take(i as int),
        decreases sessions@.len() - i,
    {
        assert(text::texts(sessions@)[i as int] == sessions@[i as int]@);
        assert(text::texts(all@).len() == all@.len());
        let n = count_name(&all, sessions[i].as_str());
        let digits = u64_text(n);
        let line = cat3(sessions[i].as_str(), "\t", digits.as_str());
        proof {
            text::lemma_texts_push(out@, line);
            assert(whole[i as int] == line@);
            assert(whole.take(i + 1) =~= whole.take(i as int).push(line@));
        }
        out.push(line);
        i = i + 1;
    }
    assert(whole.take(sessions@.len() as int) =~= whole);
    join_texts(&out, "\n")
}

/// What the options of `history` say from `i` on: the session and the limit
/// that are wanted.
pub open spec fn history_options(
    st: InterpView,
    args: Seq<Seq<char>>,
    i: int,
    session: Option<Seq<char>>,
    limit: Option<int>,
    t: TalkView,
) -> (Result<(Option<Seq<char>>, Option<int>), Seq<char>>, TalkView)
    decreases args.len() - i,
{
    if i < 0 || i >= args.len() {
        (Ok((session, limit)), t)
    } else if args[i] == "--session"@ {
        if i + 1 >= args.len() {
            (Err("history: --session requires an ID or current"@), t)
        } else if args[i + 1] == "current"@ {
            let (name, t1) = session_name(st, t);
            history_options(st, args, i + 2, Some(name), limit, t1)
        } else {
            history_options(st, args, i + 2, Some(args[i + 1]), limit, t)
        }
    } else if args[i] == "--limit"@ {
        if i + 1 >= args.len() {
            (Err("history: --limit requires a number"@), t)
        } else {
            match text::u64_of_text(args[i + 1]) {
                Some(n) => if n <= usize::MAX {
                    history_options(st, args, i + 2, session, Some(n), t)
                } else {
                    (Err("history: invalid limit '"@ + args[i + 1] + "'"@), t)
                },
                None => (Err("history: invalid limit '"@ + args[i + 1] + "'"@), t),
            }
        }
    } else {
        (Err("history: unknown option '"@ + args[i] + "'"@), t)
    }
}

/// A limit that may be absent.
pub open spec fn opt_limit(n: Option<usize>) -> Option<int> {
    match n {
        Some(k) => Some(k as int),
        None => None,
    }
}

fn read_options(interp: &Interpreter, args: &[String], talk: &mut Talk) -> (r: Result<
    (Option<String>, Option<usize>),
    String,
>)
    ensures
        (match r {
            Ok((s, n)) => Ok((fileset::opt_text(s), opt_limit(n))),
            Err(e) => Err(e@),
        }, final(talk)@) == history_options(
            interp@,
            text::texts(args@),
            0,
            None,
            None,
            old(talk)@,
        ),
{
    let ghost all = text::texts(args@);
    let ghost start = talk@;
    let mut session: Option<String> = None;
    let mut limit: Option<usize> = None;
    let mut i: usize = 0;
    while i < args.len()
        invariant
            i <= args@.len(),
            all == text::texts(args@),
            start == old(talk)@,
            history_options(interp@, all, 0, None, None, start) == history_options(
                interp@,
                all,
                i as int,
                fileset::opt_text(session),
                opt_limit(limit),
                talk@,
            ),
        decreases args@.len() - i,
    {
        assert(all[i as int] == args@[i as int]@);
        let arg = args[i].as_str();
        if same(arg, "--session") {
            if args.len() - i < 2 {
                return Err("history: --session requires an ID or current".to_owned());
            }
            assert(all[i + 1] == args@[i + 1]@);
            if same(args[i + 1].as_str(), "current") {
                session = Some(session_id(interp, talk));
            } else {
                session = Some(args[i + 1].clone());
            }
            i = i + 2;
        } else if same(arg, "--limit") {
            if args.len() - i < 2 {
                return Err("history: --limit requires a number".to_owned());
            }
            assert(all[i + 1] == args@[i + 1]@);
            let value = args[i + 1].as_str();
            match parse_u64(value) {
                Some(n) => if n <= usize::MAX as u64 {
                    limit = Some(n as usize);
                } else {
                    return Err(cat3("history: invalid limit '", value, "'"));
                },
                None => return Err(cat3("history: invalid limit '", value, "'")),
            }
            i = i + 2;
        } else {
            return Err(cat3("history: unknown option '", arg, "'"));
        }
    }
    Ok((session, limit))
}

/// The first `n` records that belong to a session.
pub open spec fn of_session(list: Seq<RecordView>, n: int, session: Seq<char>) -> Seq<RecordView>
    decreases n,
{
    if n <= 0 {
        Seq::empty()
    } else {
        let before = of_session(list, n - 1, session);
        if list[n - 1].session == Some(session) {
            before.push(list[n - 1])
        } else {
            before
        }
    }
}

fn copy_record(r: &HistoryRecord) -> (c: HistoryRecord)
    ensures
        c@ == r@,
{
    HistoryRecord {
        timestamp: r.timestamp,
        session: copy_opt(&r.session),
        command: r.command.clone(),
    }
}

fn keep_session(list: &[HistoryRecord], session: &str) -> (r: Vec<HistoryRecord>)
    ensures
        record_views(r@) == of_session(record_views(list@), list@.len() as int, session@),
{
    let ghost all = record_views(list@);
    let mut out: Vec<HistoryRecord> = Vec::new();
    assert(record_views(out@) =~= Seq::<RecordView>::empty());
    let mut i: usize = 0;
    while i < list.len()
        invariant
            i <= list@.len(),
            all == record_views(list@),
            record_views(out@) == of_session(all, i as int, session@),
        decreases list@.len() - i,
    {
        assert(all[i as int] == list@[i as int]@);
        let belongs = match &list[i].session {
            Some(s) => same(s.as_str(), session),
            None => false,
        };
        if belongs {
            let ghost before = out@;
            let c = copy_record(&list[i]);
            out.push(c);
            assert(record_views(out@) =~= record_views(before).push(c@));
        }
        i = i + 1;
    }
    out
}

/// Where the last of the first `n` commands is that is a given one.
pub open spec fn last_of(list: Seq<Seq<char>>, command: Seq<char>, n: int) -> Option<int>
    decreases n,
{
    if n <= 0 {
        None
    } else if list[n - 1] == command {
        Some(n - 1)
    } else {
        last_of(list, command, n - 1)
    }
}

fn find_last_of(list: &[String], command: &str) -> (r: Option<usize>)
    ensures
        match r {
            Some(i) => i < list@.len() && last_of(
                text::texts(list@),
                command@,
                list@.len() as int,
            ) == Some(i as int),
            None => last_of(text::texts(list@), command@, list@.len() as int) is None,
        },
{
    let ghost all = text::texts(list@);
    let mut n: usize = list.len();
    while n > 0
        invariant
            n <= list@.len(),
            all == text::texts(list@),
            last_of(all, command@, list@.len() as int) == last_of(all, command@, n as int),
        decreases n,
    {
        assert(all[n - 1] == list@[n - 1]@);
        if same(list[n - 1].as_str(), command) {
            return Some(n - 1);
        }
        n = n - 1;
    }
    None
}

/// The first `n` records whose commands are among those that are left, the
/// later ones first to find theirs.
pub open spec fn records_left(list: Seq<RecordView>, n: int, left: Seq<Seq<char>>) -> Seq<RecordView>
    decreases n,
{
    if n <= 0 {
        Seq::empty()
    } else {
        match last_of(left, list[n - 1].command, left.len() as int) {
            Some(k) => records_left(list, n - 1, left.remove(k)).push(list[n - 1]),
            None => records_left(list, n - 1, left),
        }
    }
}

/// The records that the rules leave.
pub open spec fn ruled_records(list: Seq<RecordView>, rules: Seq<Seq<char>>) -> Seq<RecordView> {
    records_left(list, list.len() as int, ruled(commands_of(list), rules))
}

fn keep_left(list: &[HistoryRecord], n: usize, left: Vec<String>) -> (r: Vec<HistoryRecord>)
    requires
        n <= list@.len(),
    ensures
        record_views(r@) == records_left(record_views(list@), n as int, text::texts(left@)),
    decreases n,
{
    let ghost all = record_views(list@);
    let mut left = left;
    if n == 0 {
        let none: Vec<HistoryRecord> = Vec::new();
        assert(record_views(none@) =~= Seq::<RecordView>::empty());
        return none;
    }
    assert(all[n - 1] == list@[n - 1]@);
    match find_last_of(&left, list[n - 1].command.as_str()) {
        Some(k) => {
            let ghost before = left@;
            assert(text::texts(left@).len() == left@.len());
            let _taken = left.remove(k);
            assert(text::texts(left@) =~= text::texts(before).remove(k as int));
            let mut out = keep_left(list, n - 1, left);
            let ghost kept = out@;
            let c = copy_record(&list[n - 1]);
            out.push(c);
            assert(record_views(out@) =~= record_views(kept).push(c@));
            out
        },
        None => {
            assert(text::texts(left@).len() == left@.len());
            keep_left(list, n - 1, left)
        },
    }
}

/// Applies the rules to records.
pub fn apply_ignore_rules_to_records(list: &[HistoryRecord], rules: &[String]) -> (r: Vec<
    HistoryRecord,
>)
    ensures
        record_views(r@) == ruled_records(record_views(list@), text::texts(rules@)),
{
    let commands = list_commands(list);
    let left = apply_ignore_rules(&commands, rules);
    keep_left(list, list.len(), left)
}

/// A number with spaces before it, up to five characters.
pub open spec fn right_aligned(n: nat) -> Seq<char> {
    let digits = text::nat_text(n);
    if digits.len() < 5 {
        text::repeated(" "@, (5 - digits.len()) as nat) + digits
    } else {
        digits
    }
}

/// The numbered lines of records.
pub open spec fn numbered(list: Seq<RecordView>) -> Seq<Seq<char>> {
    Seq::new(
        list.len(),
        |i: int| right_aligned((i + 1) as nat) + "  "@ + list[i].command,
    )
}

fn write_numbered(list: &[HistoryRecord]) -> (r: String)
    ensures
        r@ == text::joined(numbered(record_views(list@)), "\n"@),
{
    let ghost whole = numbered(record_views(list@));
    let mut out: Vec<String> = Vec::new();
    let mut i: usize = 0;
    while i < list.len()
        invariant
            i <= list@.len(),
            whole == numbered(record_views(list@)),
            text::texts(out@) == whole.take(i as int),
        decreases list@.len() - i,
    {
        assert(i < list.len());
        let digits = u64_text(i as u64 + 1);
        let v = chars_of(digits.as_str());
        let number = if v.len() < 5 {
            let spaces = text::repeat_text(" ", 5 - v.len());
            cat2(spaces.as_str(), digits.as_str())
        } else {
            digits
        };
        let line = cat3(number.as_str(), "  ", list[i].command.as_str());
        proof {
            text::lemma_texts_push(out@, line);
            assert(whole[i as int] == line@);
            assert(whole.take(i + 1) =~= whole.take(i as int).push(line@));
        }
        out.push(line);
        i = i + 1;
    }
    assert(whole.take(list@.len() as int) =~= whole);
    join_texts(&out, "\n")
}

/// The records that `history` shows.
pub open spec fn shown_records(
    st: InterpView,
    records: Seq<RecordView>,
    session: Option<Seq<char>>,
    limit: Option<int>,
) -> Seq<RecordView> {
    let mine = match session {
        Some(s) => of_session(records, records.len() as int, s),
        None => records,
    };
    let recent = latest(
        ruled_records(mine, rules_of(st)),
        limit_set(st, "HISTORY_SIZE"@, 1000),
    );
    match limit {
        Some(n) => latest(recent, n),
        None => recent,
    }
}

fn choose_records(
    interp: &Interpreter,
    records: Vec<HistoryRecord>,
    session: Option<String>,
    limit: Option<usize>,
) -> (r: Vec<HistoryRecord>)
    ensures
        record_views(r@) == shown_records(
            interp@,
            record_views(records@),
            fileset::opt_text(session),
            opt_limit(limit),
        ),
{
    assert(record_views(records@).len() == records@.len());
    let mine = match &session {
        Some(s) => keep_session(&records, s.as_str()),
        None => records,
    };
    let rules = current_rules(interp);
    let mut kept = apply_ignore_rules_to_records(&mine, &rules);
    let size = configured_limit(interp, "HISTORY_SIZE", 1000);
    let ghost a = kept@;
    retain_latest(&mut kept, size);
    assert(record_views(kept@) =~= latest(record_views(a), size as int));
    match limit {
        Some(n) => {
            let ghost b = kept@;
            retain_latest(&mut kept, n);
            assert(record_views(kept@) =~= latest(record_views(b), n as int));
        },
        None => {},
    }
    kept
}

/// What `history` gives, once it holds the lock.
pub open spec fn history_shown(st: InterpView, args: Seq<Seq<char>>, path: Seq<char>, t: TalkView) -> (
    Result<Seq<char>, Seq<char>>,
    TalkView,
) {
    if args == seq!["--compact"@] {
        let (r, t1) = compacted(path, limit_set(st, "HISTFILE_SIZE"@, 100000), t);
        (
            match r {
                Err(e) => Err("history: compaction failed: "@ + e),
                Ok(n) => Ok("history: compacted to "@ + text::nat_text(n as nat) + " entries"@),
            },
            t1,
        )
    } else {
        let (a, t1) = dialog::asked(t, RequestView::ReadStrict(path));
        let records = records_of(a.as_text());
        if args == seq!["--sessions"@] {
            (Ok(text::joined(session_lines(records), "\n"@)), t1)
        } else {
            let (o, t2) = history_options(st, args, 0, None, None, t1);
            (
                match o {
                    Err(e) => Err(e),
                    Ok((session, limit)) => Ok(
                        text::joined(
                            numbered(shown_records(st, records, session, limit)),
                            "\n"@,
                        ),
                    ),
                },
                t2,
            )
        }
    }
}

/// What `history` gives: the numbered commands, those of one session, or how
/// many each session has. Nothing when the history is off.
pub open spec fn inspected(st: InterpView, args: Seq<Seq<char>>, t: TalkView) -> (
    Result<Seq<char>, Seq<char>>,
    TalkView,
) {
    if !enabled(st) {
        (Ok(Seq::empty()), t)
    } else {
        let (path, t1) = path_set(st, t);
        let (lock, t2) = dialog::acted(t1, ActionView::Lock(path));
        match lock {
            Err(_) => (Err("history: could not acquire the history lock"@), t2),
            Ok(_) => {
                let (r, t3) = history_shown(st, args, path, t2);
                (r, dialog::acted(t3, ActionView::Unlock(path)).1)
            },
        }
    }
}

fn is_alone(args: &[String], word: &str) -> (r: bool)
    ensures
        r == (text::texts(args@) == seq![word@]),
{
    if args.len() != 1 {
        assert(text::texts(args@).len() != seq![word@].len());
        return false;
    }
    let ghost all = text::texts(args@);
    assert(all[0] == args@[0]@);
    if same(args[0].as_str(), word) {
        assert(all =~= seq![word@]);
        true
    } else {
        assert(all[0] != seq![word@][0]);
        false
    }
}

fn show_history(interp: &Interpreter, args: &[String], path: &str, talk: &mut Talk) -> (r: Result<
    String,
    String,
>)
    ensures
        (methods::text_outcome(r), final(talk)@) == history_shown(
            interp@,
            text::texts(args@),
            path@,
            old(talk)@,
        ),
{
    if is_alone(args, "--compact") {
        let limit = configured_limit(interp, "HISTFILE_SIZE", 100000);
        return match compact_locked(path, limit, talk) {
            Err(e) => Err(cat2("history: compaction failed: ", e.as_str())),
            Ok(n) => {
                let digits = u64_text(n as u64);
                Ok(cat3("history: compacted to ", digits.as_str(), " entries"))
            },
        };
    }
    let contents = talk.ask(Request::ReadStrict(path.to_owned())).into_text();
    let records = parse_records(contents.as_str());
    if is_alone(args, "--sessions") {
        return Ok(write_sessions(&records));
    }
    match read_options(interp, args, talk) {
        Err(e) => Err(e),
        Ok((session, limit)) => {
            let kept = choose_records(interp, records, session, limit);
            Ok(write_numbered(&kept))
        },
    }
}

/// Runs the `history` builtin.
pub fn inspect(interp: &Interpreter, args: &[String], talk: &mut Talk) -> (r: Result<String, String>)
    ensures
        (methods::text_outcome(r), final(talk)@) == inspected(
            interp@,
            text::texts(args@),
            old(talk)@,
        ),
{
    if !is_switched(interp, "HISTFILE_ENABLED", true) {
        let none = String::new();
        assert(none@ =~= Seq::<char>::empty());
        return Ok(none);
    }
    let path = histfile_path(interp, talk);
    match talk.act(Action::Lock(path.clone())) {
        Err(_) => return Err("history: could not acquire the history lock".to_owned()),
        Ok(_) => {},
    }
    let r = show_history(interp, args, path.as_str(), talk);
    let _unlocked = talk.act(Action::Unlock(path));
    r
}

// ---------------------------------------------------------------------------
// Laws
// ---------------------------------------------------------------------------

/// Whether a line can be written and read back: it holds no newline and does
/// not end in a carriage return.
pub open spec fn is_line(s: Seq<char>) -> bool {
    &&& forall|i: int| 0 <= i < s.len() ==> s[i] != '\n'
    &&& s.len() > 0 ==> s.last() != '\r'
}

/// Whether a record can be written and read back: its command and its session
/// are lines, the session has a name, and the command is no mark.
pub open spec fn is_plain(r: RecordView) -> bool {
    &&& is_line(r.command)
    &&& !text::begins_with(r.command, session_mark())
    &&& !is_time_mark(r.command)
    &&& r.session matches Some(s) ==> s.len() > 0 && is_line(s)
}

proof fn lemma_line_first(line: Seq<char>, rest: Seq<char>)
    requires
        is_line(line),
    ensures
        lines_of(line + "\n"@ + rest) == seq![line] + lines_of(rest),
{
    reveal_strlit("\n");
    let s = line + "\n"@ + rest;
    assert(s[line.len() as int] == '\n');
    assert forall|i: int| 0 <= i < line.len() implies s[i] != '\n' by {
        assert(s[i] == line[i]);
    }
    lemma_newline(s, 0);
    let k = newline_at(s, 0)->0;
    assert(k == line.len());
    assert(s.take(k) =~= line);
    assert(s.skip(k + 1) =~= rest);
    assert(without_return(line) == line);
}

proof fn lemma_records_split(
    head: Seq<char>,
    rest: Seq<Seq<char>>,
    session: Option<Seq<char>>,
    timestamp: Option<u64>,
    i: int,
)
    requires
        0 <= i,
    ensures
        records_from(seq![head] + rest, i + 1, session, timestamp) == records_from(
            rest,
            i,
            session,
            timestamp,
        ),
    decreases rest.len() - i,
{
    let whole = seq![head] + rest;
    if i < rest.len() {
        assert(whole[i + 1] == rest[i]);
        let line = rest[i];
        if text::begins_with(line, session_mark()) {
            lemma_records_split(head, rest, named_session(line), timestamp, i + 1);
        } else if is_time_mark(line) {
            lemma_records_split(head, rest, session, marked_time(line), i + 1);
        } else {
            lemma_records_split(head, rest, session, None, i + 1);
        }
    }
}

proof fn lemma_stamp(n: u64)
    ensures
        is_time_mark("#"@ + text::nat_text(n as nat)),
        marked_time("#"@ + text::nat_text(n as nat)) == Some(n),
        is_line("#"@ + text::nat_text(n as nat)),
        !text::begins_with("#"@ + text::nat_text(n as nat), session_mark()),
{
    reveal_strlit("#");
    reveal_strlit("#@session=");
    text::lemma_nat_text_reads_back(n as nat);
    let digits = text::nat_text(n as nat);
    let line = "#"@ + digits;
    assert(line.skip(1) =~= digits);
    assert(text::is_digit_char(digits[0]));
    assert forall|i: int| 0 <= i < line.len() implies line[i] != '\n' && line[i] != '\r' by {
        if i > 0 {
            assert(line[i] == digits[i - 1]);
            assert(text::is_digit_char(digits[i - 1]));
        }
    }
    if text::begins_with(line, session_mark()) {
        let mark = session_mark();
        assert(line.take(mark.len() as int)[1] == mark[1]);
        assert(line[1] == digits[0]);
    }
}

proof fn lemma_mark(session: Option<Seq<char>>)
    requires
        session matches Some(s) ==> s.len() > 0 && is_line(s),
    ensures
        ({
            let line = session_mark() + (match session {
                Some(s) => s,
                None => Seq::empty(),
            });
            &&& is_line(line)
            &&& text::begins_with(line, session_mark())
            &&& named_session(line) == session
        }),
{
    reveal_strlit("#@session=");
    let s = match session {
        Some(s) => s,
        None => Seq::empty(),
    };
    let mark = session_mark();
    let line = mark + s;
    assert(line.take(mark.len() as int) =~= mark);
    assert(line.skip(mark.len() as int) =~= s);
    assert forall|i: int| 0 <= i < line.len() implies line[i] != '\n' by {
        if i >= mark.len() {
            assert(line[i] == s[i - mark.len()]);
        }
    }
    if s.len() > 0 {
        assert(line.last() == s.last());
    } else {
        assert(line =~= mark);
    }
}

#[verifier::rlimit(30)]
#[verifier::spinoff_prover]
proof fn lemma_records_read_back(list: Seq<RecordView>, i: int, active: Option<Seq<char>>)
    requires
        0 <= i <= list.len(),
        forall|k: int| 0 <= k < list.len() ==> is_plain(#[trigger] list[k]),
        active matches Some(s) ==> s.len() > 0 && is_line(s),
    ensures
        records_from(lines_of(records_text(list, i, active)), 0, active, None) == list.skip(i),
    decreases list.len() - i,
{
    if i >= list.len() {
        assert(list.skip(i) =~= Seq::<RecordView>::empty());
    } else {
        let r = list[i];
        assert(is_plain(r));
        lemma_records_read_back(list, i + 1, r.session);
        let rest = records_text(list, i + 1, r.session);
        let tail = lines_of(rest);
        let command = r.command + "\n"@ + rest;
        lemma_line_first(r.command, rest);
        let after = seq![r.command] + tail;
        lemma_records_split(r.command, tail, r.session, None, 0);
        // The command, behind any time.
        assert(records_from(after, 0, r.session, r.timestamp) =~= seq![r] + records_from(
            tail,
            0,
            r.session,
            None,
        )) by {
            assert(after[0] == r.command);
            assert((RecordView {
                timestamp: r.timestamp,
                session: r.session,
                command: r.command,
            }) == r);
        }
        // The time before it.
        let timed = (match r.timestamp {
            Some(n) => "#"@ + text::nat_text(n as nat) + "\n"@,
            None => Seq::empty(),
        }) + command;
        assert(records_from(lines_of(timed), 0, r.session, None) == seq![r] + records_from(
            tail,
            0,
            r.session,
            None,
        )) by {
            match r.timestamp {
                Some(n) => {
                    let mark = "#"@ + text::nat_text(n as nat);
                    lemma_stamp(n);
                    lemma_line_first(mark, command);
                    assert(timed =~= mark + "\n"@ + command);
                    let lines = seq![mark] + lines_of(command);
                    assert(lines[0] == mark);
                    lemma_records_split(mark, lines_of(command), r.session, Some(n), 0);
                },
                None => {
                    assert(timed =~= command);
                },
            }
        }
        // The session before that.
        let full = (if r.session == active {
            Seq::empty()
        } else {
            session_mark() + (match r.session {
                Some(s) => s,
                None => Seq::empty(),
            }) + "\n"@
        }) + timed;
        assert(records_text(list, i, active) =~= full);
        assert(records_from(lines_of(full), 0, active, None) == seq![r] + records_from(
            tail,
            0,
            r.session,
            None,
        )) by {
            if r.session == active {
                assert(full =~= timed);
            } else {
                let mark = session_mark() + (match r.session {
                    Some(s) => s,
                    None => Seq::empty(),
                });
                lemma_mark(r.session);
                lemma_line_first(mark, timed);
                assert(full =~= mark + "\n"@ + timed);
                let lines = seq![mark] + lines_of(timed);
                assert(lines[0] == mark);
                lemma_records_split(mark, lines_of(timed), r.session, None, 0);
            }
        }
        assert(seq![r] + list.skip(i + 1) =~= list.skip(i));
    }
}

/// What is written is read back: the records of the text that records make
/// are those records, wherever each can stand on a line of its own.
pub proof fn law_records_read_back(list: Seq<RecordView>)
    requires
        forall|k: int| 0 <= k < list.len() ==> is_plain(#[trigger] list[k]),
    ensures
        records_of(records_text(list, 0, None)) == list,
{
    lemma_records_read_back(list, 0, None);
    assert(list.skip(0) =~= list);
}

/// With the rule `all` nothing is kept, whatever the other rules are.
pub proof fn law_all_keeps_nothing(entries: Seq<Seq<char>>, rules: Seq<Seq<char>>)
    requires
        rules.contains("all"@),
    ensures
        ruled(entries, rules).len() == 0,
{
}

/// Without rules everything is kept.
pub proof fn law_no_rules_keep_everything(entries: Seq<Seq<char>>)
    ensures
        ruled(entries, Seq::empty()) == entries,
{
    let none = Seq::<Seq<char>>::empty();
    assert(!none.contains("all"@));
    assert(!none.contains("whitespace"@));
    assert(!none.contains("duplicates"@));
    lemma_all_kept(entries, all_hits(entries, none), entries.len() as int);
    assert(entries.take(entries.len() as int) =~= entries);
}

proof fn lemma_all_kept(entries: Seq<Seq<char>>, hits: Seq<bool>, n: int)
    requires
        0 <= n <= entries.len(),
        hits.len() == entries.len(),
        forall|i: int| 0 <= i < hits.len() ==> !#[trigger] hits[i],
    ensures
        kept_entries(entries, hits, n, false, false) == entries.take(n),
    decreases n,
{
    if n > 0 {
        lemma_all_kept(entries, hits, n - 1);
        assert(entries.take(n) =~= entries.take(n - 1).push(entries[n - 1]));
    }
}

proof fn lemma_without(list: Seq<Seq<char>>, entry: Seq<char>)
    ensures
        !without_entry(list, entry).contains(entry),
        list.no_duplicates() ==> without_entry(list, entry).no_duplicates(),
        forall|x: Seq<char>|
            without_entry(list, entry).contains(x) ==> #[trigger] list.contains(x),
    decreases list.len(),
{
    if list.len() > 0 {
        let front = list.drop_last();
        lemma_without(front, entry);
        let rest = without_entry(front, entry);
        let whole = without_entry(list, entry);
        assert forall|x: Seq<char>| whole.contains(x) implies #[trigger] list.contains(x) by {
            let i = choose|i: int| 0 <= i < whole.len() && whole[i] == x;
            if i < rest.len() {
                assert(rest[i] == x);
                assert(rest.contains(x));
                assert(front.contains(x));
                let j = choose|j: int| 0 <= j < front.len() && front[j] == x;
                assert(list[j] == x);
            } else {
                assert(list[list.len() - 1] == x);
            }
        }
        if whole.contains(entry) {
            let i = choose|i: int| 0 <= i < whole.len() && whole[i] == entry;
            if i < rest.len() {
                assert(rest[i] == entry);
                assert(rest.contains(entry));
            }
        }
        if list.no_duplicates() {
            assert(front.no_duplicates());
            assert forall|i: int, j: int|
                0 <= i < whole.len() && 0 <= j < whole.len() && i != j implies whole[i]
                != whole[j] by {
                if i < rest.len() && j < rest.len() {
                    assert(rest[i] != rest[j]);
                } else {
                    let k = if i < rest.len() {
                        i
                    } else {
                        j
                    };
                    if k < rest.len() {
                        assert(rest.contains(rest[k]));
                        assert(front.contains(rest[k]));
                        let m = choose|m: int| 0 <= m < front.len() && front[m] == rest[k];
                        assert(list[m] != list[list.len() - 1]);
                    }
                }
            }
        }
    }
}

/// With the rule `duplicates` no command stands twice.
pub proof fn law_duplicates_stand_once(entries: Seq<Seq<char>>, hits: Seq<bool>, n: int, spaces: bool)
    requires
        0 <= n <= entries.len(),
        hits.len() == entries.len(),
    ensures
        kept_entries(entries, hits, n, spaces, true).no_duplicates(),
    decreases n,
{
    if n > 0 {
        law_duplicates_stand_once(entries, hits, n - 1, spaces);
        let before = kept_entries(entries, hits, n - 1, spaces, true);
        let e = entries[n - 1];
        lemma_without(before, e);
        let rest = without_entry(before, e);
        let whole = rest.push(e);
        assert forall|i: int, j: int|
            0 <= i < whole.len() && 0 <= j < whole.len() && i != j implies whole[i] != whole[j] by {
            if i < rest.len() && j < rest.len() {
                assert(rest[i] != rest[j]);
            } else if i < rest.len() {
                assert(rest.contains(rest[i]));
            } else if j < rest.len() {
                assert(rest.contains(rest[j]));
            }
        }
    }
}

/// The file never holds more records than its limit after it was brought down
/// to it, and the latest ones stay.
pub proof fn law_latest_records_stay<T>(list: Seq<T>, limit: int)
    requires
        0 <= limit,
    ensures
        latest(list, limit).len() <= limit,
        latest(list, limit).len() > 0 ==> latest(list, limit).last() == list.last(),
        list.len() <= limit ==> latest(list, limit) == list,
{
}

/// The name of one of the scalars that are filled in.
pub open spec fn is_setting(name: Seq<char>) -> bool {
    name == "HISTFILE"@ || name == "HISTFILE_ENABLED"@ || name == "HISTFILE_SIZE"@ || name
        == "HISTORY_SIZE"@ || name == "HISTORY_SESSION_ID"@ || name == "HISTORY_TIMESTAMP"@
}

/// What a variable is after it was filled in where it was missing.
pub open spec fn filled<T>(before: Option<T>, usual: T) -> Option<T> {
    match before {
        Some(v) => Some(v),
        None => Some(usual),
    }
}

proof fn lemma_assigned_keeps<T>(
    frames: Seq<Map<Seq<char>, T>>,
    name: Seq<char>,
    value: T,
    other: Seq<char>,
)
    requires
        frames.len() >= 1,
    ensures
        names::assigned(frames, name, value).len() == frames.len(),
        names::visible(names::assigned(frames, name, value), name) == Some(value),
        other != name ==> names::visible(names::assigned(frames, name, value), other)
            == names::visible(frames, other),
{
    names::lemma_owner(frames, name, frames.len() as int);
    assert(name.push('x').len() != name.len());
    names::law_assignment_is_read_back(frames, name, value, name.push('x'));
    if other != name {
        names::law_assignment_is_read_back(frames, name, value, other);
    }
}

proof fn lemma_default(st: InterpView, name: Seq<char>, value: Seq<char>)
    requires
        st.has_global(),
    ensures
        ({
            let after = with_default(st, name, value);
            &&& after.has_global()
            &&& names::visible(after.scalars, name) == filled(
                names::visible(st.scalars, name),
                value,
            )
            &&& forall|other: Seq<char>|
                other != name ==> #[trigger] names::visible(after.scalars, other) == names::visible(
                    st.scalars,
                    other,
                )
            &&& after.arrays == st.arrays
            &&& after == (InterpView { scalars: after.scalars, ..st })
        }),
{
    lemma_assigned_keeps(st.scalars, name, value, name);
    let after = with_default(st, name, value);
    assert forall|other: Seq<char>| other != name implies #[trigger] names::visible(
        after.scalars,
        other,
    ) == names::visible(st.scalars, other) by {
        lemma_assigned_keeps(st.scalars, name, value, other);
    }
}

proof fn lemma_settings_differ()
    ensures
        "HISTFILE"@.len() == 8,
        "HISTFILE_ENABLED"@.len() == 16,
        "HISTFILE_SIZE"@.len() == 13,
        "HISTORY_SIZE"@.len() == 12,
        "HISTORY_SESSION_ID"@.len() == 18,
        "HISTORY_TIMESTAMP"@.len() == 17,
{
    reveal_strlit("HISTFILE");
    reveal_strlit("HISTFILE_ENABLED");
    reveal_strlit("HISTFILE_SIZE");
    reveal_strlit("HISTORY_SIZE");
    reveal_strlit("HISTORY_SESSION_ID");
    reveal_strlit("HISTORY_TIMESTAMP");
}

/// Filling the settings in keeps those that are set, gives each of the others
/// its usual value, and changes no other variable and nothing else.
#[verifier::rlimit(40)]
#[verifier::spinoff_prover]
pub proof fn law_settings_are_filled_in(st: InterpView, t: TalkView)
    requires
        st.has_global(),
    ensures
        ({
            let after = seeded(st, t).0;
            let path = usual_path(t).0;
            let t1 = if names::visible(st.scalars, "HISTFILE"@) is None {
                usual_path(t).1
            } else {
                t
            };
            let was = |name: Seq<char>| names::visible(st.scalars, name);
            let is = |name: Seq<char>| names::visible(after.scalars, name);
            &&& after.has_global()
            &&& is("HISTFILE"@) == filled(was("HISTFILE"@), path)
            &&& is("HISTFILE_ENABLED"@) == filled(was("HISTFILE_ENABLED"@), "1"@)
            &&& is("HISTFILE_SIZE"@) == filled(was("HISTFILE_SIZE"@), "100000"@)
            &&& is("HISTORY_SIZE"@) == filled(was("HISTORY_SIZE"@), "1000"@)
            &&& is("HISTORY_SESSION_ID"@) == filled(
                was("HISTORY_SESSION_ID"@),
                fresh_session(t1).0,
            )
            &&& is("HISTORY_TIMESTAMP"@) == filled(was("HISTORY_TIMESTAMP"@), "0"@)
            &&& names::visible(after.arrays, "HISTORY_IGNORE"@) == filled(
                names::visible(st.arrays, "HISTORY_IGNORE"@),
                usual_rules(),
            )
            &&& forall|other: Seq<char>|
                !is_setting(other) ==> #[trigger] names::visible(after.scalars, other)
                    == names::visible(st.scalars, other)
            &&& forall|other: Seq<char>|
                other != "HISTORY_IGNORE"@ ==> #[trigger] names::visible(after.arrays, other)
                    == names::visible(st.arrays, other)
            &&& after == (InterpView { scalars: after.scalars, arrays: after.arrays, ..st })
        }),
{
    lemma_settings_differ();
    let s1 = if names::visible(st.scalars, "HISTFILE"@) is None {
        with_default(st, "HISTFILE"@, usual_path(t).0)
    } else {
        st
    };
    let t1 = if names::visible(st.scalars, "HISTFILE"@) is None {
        usual_path(t).1
    } else {
        t
    };
    lemma_default(st, "HISTFILE"@, usual_path(t).0);
    let s2 = with_default(s1, "HISTFILE_ENABLED"@, "1"@);
    lemma_default(s1, "HISTFILE_ENABLED"@, "1"@);
    let s3 = with_default(s2, "HISTFILE_SIZE"@, "100000"@);
    lemma_default(s2, "HISTFILE_SIZE"@, "100000"@);
    let s4 = with_default(s3, "HISTORY_SIZE"@, "1000"@);
    lemma_default(s3, "HISTORY_SIZE"@, "1000"@);
    let s5 = if names::visible(s4.scalars, "HISTORY_SESSION_ID"@) is None {
        with_default(s4, "HISTORY_SESSION_ID"@, fresh_session(t1).0)
    } else {
        s4
    };
    lemma_default(s4, "HISTORY_SESSION_ID"@, fresh_session(t1).0);
    let s6 = if names::visible(s5.arrays, "HISTORY_IGNORE"@) is None {
        InterpView {
            arrays: names::assigned(s5.arrays, "HISTORY_IGNORE"@, usual_rules()),
            ..s5
        }
    } else {
        s5
    };
    lemma_assigned_keeps(s5.arrays, "HISTORY_IGNORE"@, usual_rules(), "HISTORY_IGNORE"@);
    assert forall|other: Seq<char>| other != "HISTORY_IGNORE"@ implies #[trigger] names::visible(
        s6.arrays,
        other,
    ) == names::visible(st.arrays, other) by {
        lemma_assigned_keeps(s5.arrays, "HISTORY_IGNORE"@, usual_rules(), other);
    }
    lemma_default(s6, "HISTORY_TIMESTAMP"@, "0"@);
}

/// Filling the settings in a second time changes nothing and asks nothing.
pub proof fn law_settings_are_filled_in_once(st: InterpView, t: TalkView, later: TalkView)
    requires
        st.has_global(),
    ensures
        seeded(seeded(st, t).0, later) == (seeded(st, t).0, later),
{
    law_settings_are_filled_in(st, t);
}

/// Whether an entry stands among the first `n` in a place where nothing keeps
/// it out.
pub open spec fn let_in(
    entries: Seq<Seq<char>>,
    hits: Seq<bool>,
    n: int,
    spaces: bool,
    e: Seq<char>,
) -> bool {
    exists|k: int|
        0 <= k < n && #[trigger] entries[k] == e && !hits[k] && !(spaces && e.len() > 0
            && text::is_space_char(e[0]))
}

proof fn lemma_without_entry(list: Seq<Seq<char>>, entry: Seq<char>, e: Seq<char>)
    ensures
        without_entry(list, entry).contains(e) <==> list.contains(e) && e != entry,
    decreases list.len(),
{
    if list.len() > 0 {
        let rest = list.drop_last();
        lemma_without_entry(rest, entry, e);
        let kept = without_entry(rest, entry);
        assert(list.contains(e) <==> rest.contains(e) || list.last() == e) by {
            if list.contains(e) {
                let k = choose|k: int| 0 <= k < list.len() && list[k] == e;
                if k < rest.len() {
                    assert(rest[k] == e);
                }
            }
            if rest.contains(e) {
                let k = choose|k: int| 0 <= k < rest.len() && rest[k] == e;
                assert(list[k] == e);
            }
            assert(list[list.len() - 1] == list.last());
        }
        let pushed = kept.push(list.last());
        assert(pushed.contains(e) <==> kept.contains(e) || list.last() == e) by {
            if pushed.contains(e) {
                let k = choose|k: int| 0 <= k < pushed.len() && pushed[k] == e;
                if k < kept.len() {
                    assert(kept[k] == e);
                }
            }
            if kept.contains(e) {
                let k = choose|k: int| 0 <= k < kept.len() && kept[k] == e;
                assert(pushed[k] == e);
            }
            assert(pushed[kept.len() as int] == list.last());
        }
    }
}

proof fn lemma_pushed(list: Seq<Seq<char>>, x: Seq<char>, e: Seq<char>)
    ensures
        list.push(x).contains(e) <==> list.contains(e) || x == e,
{
    let pushed = list.push(x);
    if pushed.contains(e) {
        let k = choose|k: int| 0 <= k < pushed.len() && pushed[k] == e;
        if k < list.len() {
            assert(list[k] == e);
        }
    }
    if list.contains(e) {
        let k = choose|k: int| 0 <= k < list.len() && list[k] == e;
        assert(pushed[k] == e);
    }
    assert(pushed[list.len() as int] == x);
}

/// A command is kept exactly where it stands once in a place where no pattern
/// hits it and it does not begin with white space that keeps it out. What
/// was kept last stands last.
pub proof fn law_kept_are_those_let_in(
    entries: Seq<Seq<char>>,
    hits: Seq<bool>,
    n: int,
    spaces: bool,
    once: bool,
    e: Seq<char>,
)
    requires
        0 <= n <= entries.len(),
        hits.len() == entries.len(),
    ensures
        kept_entries(entries, hits, n, spaces, once).contains(e) <==> let_in(
            entries,
            hits,
            n,
            spaces,
            e,
        ),
        n > 0 && entries[n - 1] == e && !hits[n - 1] && !(spaces && e.len() > 0
            && text::is_space_char(e[0])) ==> kept_entries(
            entries,
            hits,
            n,
            spaces,
            once,
        ).last() == e,
    decreases n,
{
    if n > 0 {
        law_kept_are_those_let_in(entries, hits, n - 1, spaces, once, e);
        let before = kept_entries(entries, hits, n - 1, spaces, once);
        let x = entries[n - 1];
        lemma_without_entry(before, x, e);
        lemma_pushed(before, x, e);
        lemma_pushed(without_entry(before, x), x, e);
        if let_in(entries, hits, n - 1, spaces, e) {
            let k = choose|k: int|
                0 <= k < n - 1 && #[trigger] entries[k] == e && !hits[k] && !(spaces && e.len() > 0
                    && text::is_space_char(e[0]));
            assert(entries[k] == e);
        }
        if let_in(entries, hits, n, spaces, e) {
            let k = choose|k: int|
                0 <= k < n && #[trigger] entries[k] == e && !hits[k] && !(spaces && e.len() > 0
                    && text::is_space_char(e[0]));
            if k < n - 1 {
                assert(entries[k] == e);
            }
        }
    }
}

/// Without the rule `duplicates` what is kept stays in its order, one entry
/// for each time it was entered.
pub proof fn law_kept_stay_in_order(
    entries: Seq<Seq<char>>,
    hits: Seq<bool>,
    n: int,
    spaces: bool,
)
    requires
        0 < n <= entries.len(),
        hits.len() == entries.len(),
    ensures
        ({
            let before = kept_entries(entries, hits, n - 1, spaces, false);
            let e = entries[n - 1];
            kept_entries(entries, hits, n, spaces, false) == if hits[n - 1] || (spaces && e.len()
                > 0 && text::is_space_char(e[0])) {
                before
            } else {
                before.push(e)
            }
        }),
{
}

/// The latest elements are the last ones, in their order.
pub proof fn law_latest_are_the_last<T>(list: Seq<T>, limit: int, k: int)
    requires
        0 <= limit <= list.len(),
        0 <= k < limit,
    ensures
        latest(list, limit).len() == limit,
        latest(list, limit)[k] == list[list.len() - limit + k],
{
}

proof fn lemma_text_of_more(
    list: Seq<RecordView>,
    r: RecordView,
    i: int,
    active: Option<Seq<char>>,
)
    requires
        0 <= i <= list.len(),
        i == list.len() || list.last().session == r.session,
        i < list.len() || active == r.session,
    ensures
        records_text(list.push(r), i, active) == records_text(list, i, active) + record_text(
            r,
            r.session,
        ),
    decreases list.len() - i,
{
    let more = list.push(r);
    if i < list.len() {
        assert(more[i] == list[i]);
        lemma_text_of_more(list, r, i + 1, list[i].session);
        let a = record_text(list[i], active);
        let b = records_text(list, i + 1, list[i].session);
        let c = record_text(r, r.session);
        assert(a + (b + c) =~= (a + b) + c);
    } else {
        assert(more[i] == r);
        assert(records_text(more, i + 1, r.session) == Seq::<char>::empty());
        assert(record_text(r, active) + Seq::<char>::empty() =~= record_text(r, active));
        assert(Seq::<char>::empty() + record_text(r, active) =~= record_text(r, active));
    }
}

/// The records of commands that were entered in one session at one time.
pub open spec fn entered(
    entries: Seq<Seq<char>>,
    n: int,
    session: Seq<char>,
    stamp: Option<u64>,
) -> Seq<RecordView> {
    Seq::new(
        n as nat,
        |k: int| RecordView { timestamp: stamp, session: Some(session), command: entries[k] },
    )
}

proof fn lemma_appended_text(
    entries: Seq<Seq<char>>,
    n: int,
    session: Seq<char>,
    stamp: Option<u64>,
)
    requires
        0 < n <= entries.len(),
    ensures
        appended_text(entries, n, session, stamp) == records_text(
            entered(entries, n, session, stamp),
            0,
            None,
        ),
    decreases n,
{
    let list = entered(entries, n, session, stamp);
    let r = RecordView { timestamp: stamp, session: Some(session), command: entries[n - 1] };
    let time = match stamp {
        Some(s) => "#"@ + text::nat_text(s as nat) + "\n"@,
        None => Seq::empty(),
    };
    let line = entries[n - 1] + "\n"@;
    if n == 1 {
        let mark = session_mark() + session + "\n"@;
        assert(list[0] == r);
        assert(records_text(list, 1, Some(session)) == Seq::<char>::empty());
        assert(record_text(r, None) == mark + time + line);
        assert(record_text(r, None) + Seq::<char>::empty() =~= record_text(r, None));
        assert(appended_text(entries, 0, session, stamp) == mark);
    } else {
        let front = entered(entries, n - 1, session, stamp);
        lemma_appended_text(entries, n - 1, session, stamp);
        assert(list =~= front.push(r));
        assert(front.last().session == r.session);
        lemma_text_of_more(front, r, 0, None);
        assert(record_text(r, r.session) =~= time + line);
        let a = appended_text(entries, n - 1, session, stamp);
        assert(a + (time + line) =~= a + time + line);
    }
}

/// What is appended to the file is read back from it: the commands in their
/// order, each with the session and the time at which they were appended.
pub proof fn law_appended_commands_read_back(
    entries: Seq<Seq<char>>,
    session: Seq<char>,
    stamp: Option<u64>,
)
    requires
        entries.len() > 0,
        session.len() > 0,
        is_line(session),
        forall|k: int|
            0 <= k < entries.len() ==> is_line(#[trigger] entries[k]) && !text::begins_with(
                entries[k],
                session_mark(),
            ) && !is_time_mark(entries[k]),
    ensures
        ({
            let records = records_of(
                appended_text(entries, entries.len() as int, session, stamp),
            );
            &&& records.len() == entries.len()
            &&& forall|k: int|
                0 <= k < entries.len() ==> (#[trigger] records[k]).command == entries[k]
                    && records[k].session == Some(session) && records[k].timestamp == stamp
        }),
{
    let n = entries.len() as int;
    let list = entered(entries, n, session, stamp);
    lemma_appended_text(entries, n, session, stamp);
    assert forall|k: int| 0 <= k < list.len() implies is_plain(#[trigger] list[k]) by {
        assert(is_line(entries[k]));
    }
    law_records_read_back(list);
}

/// Loading reads the file under its lock and lets the lock go.
pub proof fn law_history_is_read_under_its_lock(
    st: InterpView,
    path: Seq<char>,
    contents: Seq<char>,
    t: TalkView,
)
    requires
        names::visible(st.scalars, "HISTFILE"@) == Some(path),
        path.len() > 0,
        names::visible(st.scalars, "HISTFILE_ENABLED"@) is None,
        t.pending is None,
        0 <= t.next,
        t.next + 3 <= t.answers.len(),
        !(t.answers[t.next] is Failure),
        t.answers[t.next + 1] == AnswerView::Text(contents),
    ensures
        loaded(st, t).0 == recalled(st, contents),
        loaded(st, t).1.made == t.made.push(RequestView::Do(ActionView::Lock(path))).push(
            RequestView::ReadStrict(path),
        ).push(RequestView::Do(ActionView::Unlock(path))),
{
}

/// A history that is switched off is neither read nor written, and gives
/// nothing.
pub proof fn law_switched_off_history_is_left_alone(
    st: InterpView,
    entries: Seq<Seq<char>>,
    args: Seq<Seq<char>>,
    t: TalkView,
)
    requires
        names::visible(st.scalars, "HISTFILE_ENABLED"@) == Some("0"@),
    ensures
        loaded(st, t) == (Seq::<Seq<char>>::empty(), t),
        appended(st, entries, t) == t,
        inspected(st, args, t) == (Ok::<Seq<char>, Seq<char>>(Seq::empty()), t),
{
    reveal_strlit("0");
    assert("0"@.len() == 1 && "0"@[0] == '0');
    lemma_zero_is_off();
}

proof fn lemma_zero_is_off()
    ensures
        types::truth_of("0"@) == Some(false),
{
    reveal_strlit("0");
    reveal_strlit("1");
    reveal_strlit("true");
    reveal_strlit("false");
    assert("0"@.len() == 1 && "1"@.len() == 1 && "true"@.len() == 4 && "false"@.len() == 5);
    assert("0"@[0] == '0' && "1"@[0] == '1');
}

/// A session's records are those that name it, in their order.
pub proof fn law_sessions_are_told_apart(list: Seq<RecordView>, r: RecordView, session: Seq<char>)
    ensures
        of_session(list.push(r), list.len() as int + 1, session) == if r.session == Some(session) {
            of_session(list, list.len() as int, session).push(r)
        } else {
            of_session(list, list.len() as int, session)
        },
        of_session(Seq::empty(), 0, session).len() == 0,
{
    lemma_of_session(list, r, list.len() as int, session);
    assert(list.push(r)[list.len() as int] == r);
}

proof fn lemma_of_session(list: Seq<RecordView>, r: RecordView, n: int, session: Seq<char>)
    requires
        n <= list.len(),
    ensures
        of_session(list.push(r), n, session) == of_session(list, n, session),
    decreases n,
{
    if n > 0 {
        lemma_of_session(list, r, n - 1, session);
        assert(list.push(r)[n - 1] == list[n - 1]);
    }
}

} // verus!
