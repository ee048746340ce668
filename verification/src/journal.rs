//! The journal of an operation as JSON, by which it lasts.

use crate::fileset;
use crate::fileset::{FileIdentity, FileIdentityView, FileRecord, FileRecordView};
use crate::json;
use crate::json::{read_json, write_json, Json, JsonView, ListBuilder, ObjectBuilder};
use crate::operation;
use crate::operation::{
    hex_char, kind_name, parse_kind, ArchivePlanEntry, ArchivePlanEntryView, ArchivePlanItem,
    ArchivePlanItemView, JournalOutput, JournalView, OperationJournal, OutputView, RecoveryStep,
    StepView,
};
use crate::text;
use crate::text::{cat2, cat3, chars_of, code_of, text_of};
use vstd::prelude::*;

verus! {

// ---------------------------------------------------------------------------
// File identities
// ---------------------------------------------------------------------------

/// The notation of a file identity: two hexadecimal digits for each byte.
pub open spec fn hex_of(bytes: Seq<u8>) -> Seq<char> {
    Seq::new(
        2 * bytes.len(),
        |i: int|
            operation::hex_digit(
                if i % 2 == 0 {
                    bytes[i / 2] as int / 16
                } else {
                    bytes[i / 2] as int % 16
                },
            ),
    )
}

/// Writes a file identity.
pub fn hex_file_id(bytes: &[u8; 16]) -> (r: String)
    ensures
        r@ == hex_of(bytes@),
{
    let mut out: Vec<char> = Vec::new();
    let mut i: usize = 0;
    while i < 16
        invariant
            i <= 16,
            out@ == hex_of(bytes@).take(2 * i as int),
        decreases 16 - i,
    {
        let b = bytes[i];
        let ghost before = out@;
        out.push(hex_char(b / 16));
        out.push(hex_char(b % 16));
        proof {
            let k = 2 * i as int;
            assert(k / 2 == i && (k + 1) / 2 == i && k % 2 == 0 && (k + 1) % 2 == 1);
            assert(hex_of(bytes@)[k] == operation::hex_digit(b as int / 16));
            assert(hex_of(bytes@)[k + 1] == operation::hex_digit(b as int % 16));
            assert(out@ =~= hex_of(bytes@).take(k + 2));
        }
        i = i + 1;
    }
    assert(hex_of(bytes@).take(32) =~= hex_of(bytes@));
    text_of(&out)
}

/// The value of a hexadecimal digit, in upper or lower case.
pub open spec fn digit_value(c: char) -> Option<int> {
    let u = c as int;
    if 48 <= u <= 57 {
        Some(u - 48)
    } else if 97 <= u <= 102 {
        Some(u - 87)
    } else if 65 <= u <= 70 {
        Some(u - 55)
    } else {
        None
    }
}

/// The value of two characters: two digits, or one behind a plus sign.
pub open spec fn pair_value(a: char, b: char) -> Option<u8> {
    match digit_value(b) {
        None => None,
        Some(low) => if a == '+' {
            Some(low as u8)
        } else {
            match digit_value(a) {
                Some(high) => Some((16 * high + low) as u8),
                None => None,
            }
        },
    }
}

/// The file identity that a text writes; nothing where it writes none.
pub open spec fn id_from(s: Seq<char>) -> Option<Seq<u8>> {
    if s.len() == 32 && forall|i: int|
        0 <= i < 16 ==> (#[trigger] pair_value(s[2 * i], s[2 * i + 1])) is Some {
        Some(Seq::new(16, |i: int| pair_value(s[2 * i], s[2 * i + 1])->0))
    } else {
        None
    }
}

fn value_of_digit(c: char) -> (r: Option<u8>)
    ensures
        match r {
            Some(d) => digit_value(c) == Some(d as int) && d < 16,
            None => digit_value(c) is None,
        },
{
    let u = code_of(c);
    if 48 <= u && u <= 57 {
        Some((u - 48) as u8)
    } else if 97 <= u && u <= 102 {
        Some((u - 87) as u8)
    } else if 65 <= u && u <= 70 {
        Some((u - 55) as u8)
    } else {
        None
    }
}

fn value_of_pair(a: char, b: char) -> (r: Option<u8>)
    ensures
        r == pair_value(a, b),
{
    match value_of_digit(b) {
        None => None,
        Some(low) => if a == '+' {
            Some(low)
        } else {
            match value_of_digit(a) {
                Some(high) => Some(16 * high + low),
                None => None,
            }
        },
    }
}

/// The identity or the message that a text leads to.
pub open spec fn id_outcome(s: Seq<char>) -> Result<Seq<u8>, Seq<char>> {
    match id_from(s) {
        Some(id) => Ok(id),
        None => Err("journal: invalid file identity"@),
    }
}

/// Reads a file identity.
pub fn parse_file_id(s: &str) -> (r: Result<[u8; 16], String>)
    ensures
        match r {
            Ok(id) => id_outcome(s@) == Ok::<Seq<u8>, Seq<char>>(id@),
            Err(e) => id_outcome(s@) == Err::<Seq<u8>, Seq<char>>(e@),
        },
{
    let v = chars_of(s);
    if v.len() != 32 {
        return Err("journal: invalid file identity".to_owned());
    }
    let mut bytes: [u8; 16] = [0; 16];
    let mut i: usize = 0;
    while i < 16
        invariant
            i <= 16,
            v@ == s@,
            v@.len() == 32,
            forall|k: int|
                0 <= k < i ==> (#[trigger] pair_value(s@[2 * k], s@[2 * k + 1])) == Some(bytes@[k]),
        decreases 16 - i,
    {
        match value_of_pair(v[2 * i], v[2 * i + 1]) {
            Some(b) => {
                bytes[i] = b;
            },
            None => {
                assert(pair_value(s@[2 * (i as int)], s@[2 * (i as int) + 1]) is None);
                return Err("journal: invalid file identity".to_owned());
            },
        }
        i = i + 1;
    }
    proof {
        assert(bytes@ =~= id_from(s@)->0) by {
            assert forall|k: int| 0 <= k < 16 implies bytes@[k] == id_from(s@)->0[k] by {
                assert(pair_value(s@[2 * k], s@[2 * k + 1]) == Some(bytes@[k]));
            }
        }
    }
    Ok(bytes)
}

/// A file identity is read back from its notation.
pub proof fn law_identity_comes_back(bytes: Seq<u8>)
    requires
        bytes.len() == 16,
    ensures
        id_from(hex_of(bytes)) == Some(bytes),
{
    let s = hex_of(bytes);
    assert forall|i: int| 0 <= i < 16 implies (#[trigger] pair_value(s[2 * i], s[2 * i + 1]))
        == Some(bytes[i]) by {
        let b = bytes[i] as int;
        assert((2 * i) / 2 == i && (2 * i + 1) / 2 == i && (2 * i) % 2 == 0 && (2 * i + 1) % 2
            == 1);
        assert(s[2 * i] == operation::hex_digit(b / 16));
        assert(s[2 * i + 1] == operation::hex_digit(b % 16));
        assert(0 <= b / 16 < 16 && 0 <= b % 16 < 16);
        assert(16 * (b / 16) + b % 16 == b);
    }
    assert(id_from(s)->0 =~= bytes);
}

// ---------------------------------------------------------------------------
// Writing
// ---------------------------------------------------------------------------

/// The fields of a record.
pub open spec fn record_fields(r: FileRecordView) -> Map<Seq<char>, JsonView> {
    Map::<Seq<char>, JsonView>::empty().insert("path"@, JsonView::Text(r.path)).insert(
        "volume_id"@,
        json::number_or_null(r.identity.volume_id),
    ).insert(
        "file_id"@,
        json::text_or_null(
            match r.identity.file_id {
                Some(id) => Some(hex_of(id)),
                None => None,
            },
        ),
    ).insert("kind"@, JsonView::Text(operation::kind_text(r.kind))).insert(
        "size"@,
        JsonView::Number(r.size),
    ).insert("modified"@, json::number_or_null(r.modified))
}

/// The JSON value of a record.
pub open spec fn record_tree(r: FileRecordView) -> JsonView {
    JsonView::Object(record_fields(r))
}

/// The JSON value of an output.
pub open spec fn output_tree(o: OutputView) -> JsonView {
    JsonView::Object(
        record_fields(o.record).insert("role"@, JsonView::Text(o.role)).insert(
            "original_path"@,
            json::text_or_null(o.original),
        ),
    )
}

/// The JSON value of a step.
pub open spec fn step_tree(s: StepView) -> JsonView {
    JsonView::Object(
        Map::<Seq<char>, JsonView>::empty().insert("operation"@, JsonView::Text(s.operation)).insert(
            "destination"@,
            JsonView::Text(s.destination),
        ).insert("source"@, record_tree(s.source)),
    )
}

/// The JSON value of an entry of an archive.
pub open spec fn entry_tree(e: ArchivePlanEntryView) -> JsonView {
    JsonView::Object(
        Map::<Seq<char>, JsonView>::empty().insert(
            "archive_name"@,
            JsonView::Text(e.archive_name),
        ).insert("source"@, record_tree(e.source)),
    )
}

/// The JSON value of an archive.
pub open spec fn archive_tree(a: ArchivePlanItemView) -> JsonView {
    JsonView::Object(
        Map::<Seq<char>, JsonView>::empty().insert("root"@, JsonView::Text(a.root)).insert(
            "archive"@,
            JsonView::Text(a.archive),
        ).insert("backup"@, json::text_or_null(a.backup)).insert(
            "entries"@,
            JsonView::List(
                Seq::new(a.entries.len(), |i: int| entry_tree(a.entries[i])),
            ),
        ),
    )
}

/// The JSON value of a journal.
pub open spec fn journal_tree(j: JournalView) -> JsonView {
    JsonView::Object(
        Map::<Seq<char>, JsonView>::empty().insert("version"@, JsonView::Number(5)).insert(
            "id"@,
            JsonView::Text(j.id),
        ).insert("plan_id"@, JsonView::Text(j.plan_id)).insert(
            "operation"@,
            JsonView::Text(j.operation),
        ).insert("started_at"@, JsonView::Number(j.started_at)).insert(
            "finished_at"@,
            JsonView::Number(j.finished_at),
        ).insert("undo_safe"@, JsonView::Truth(j.undo_safe)).insert(
            "resume_supported"@,
            JsonView::Truth(j.resume_supported),
        ).insert("status"@, JsonView::Text(j.status)).insert(
            "error"@,
            json::text_or_null(j.error),
        ).insert("undone_at"@, json::number_or_null(j.undone_at)).insert(
            "staging_paths"@,
            JsonView::List(Seq::new(j.staging.len(), |i: int| JsonView::Text(j.staging[i]))),
        ).insert(
            "remaining_steps"@,
            JsonView::List(Seq::new(j.steps.len(), |i: int| step_tree(j.steps[i]))),
        ).insert(
            "remaining_archives"@,
            JsonView::List(Seq::new(j.archives.len(), |i: int| archive_tree(j.archives[i]))),
        ).insert(
            "outputs"@,
            JsonView::List(Seq::new(j.outputs.len(), |i: int| output_tree(j.outputs[i]))),
        ),
    )
}

fn record_builder(r: &FileRecord) -> (b: ObjectBuilder)
    ensures
        b@ == record_fields(r@),
{
    let mut b = ObjectBuilder::new();
    b.put("path", Json::of_text(r.path.as_str()));
    b.put("volume_id", Json::of_opt_number(r.identity.volume_id));
    let id = match &r.identity.file_id {
        Some(id) => Some(hex_file_id(id)),
        None => None,
    };
    b.put("file_id", Json::of_opt_text(&id));
    b.put("kind", Json::Text(kind_name(r.kind)));
    b.put("size", Json::Number(r.size));
    b.put("modified", Json::of_opt_number(r.modified));
    b
}

fn build_record(r: &FileRecord) -> (j: Json)
    ensures
        j@ == record_tree(r@),
{
    record_builder(r).build()
}

fn build_output(o: &JournalOutput) -> (j: Json)
    ensures
        j@ == output_tree(o@),
{
    let mut b = record_builder(&o.record);
    b.put("role", Json::of_text(o.role.as_str()));
    b.put("original_path", Json::of_opt_text(&o.original_path));
    b.build()
}

fn build_step(s: &RecoveryStep) -> (j: Json)
    ensures
        j@ == step_tree(s@),
{
    let mut b = ObjectBuilder::new();
    b.put("operation", Json::of_text(s.operation.as_str()));
    b.put("destination", Json::of_text(s.destination.as_str()));
    b.put("source", build_record(&s.source));
    b.build()
}

fn build_entry(e: &ArchivePlanEntry) -> (j: Json)
    ensures
        j@ == entry_tree(e@),
{
    let mut b = ObjectBuilder::new();
    b.put("archive_name", Json::of_text(e.archive_name.as_str()));
    b.put("source", build_record(&e.source));
    b.build()
}

fn build_archive(a: &ArchivePlanItem) -> (j: Json)
    ensures
        j@ == archive_tree(a@),
{
    let ghost all = Seq::new(a@.entries.len(), |i: int| entry_tree(a@.entries[i]));
    let mut list = ListBuilder::new();
    let mut i: usize = 0;
    assert(all.take(0) =~= Seq::<JsonView>::empty());
    while i < a.entries.len()
        invariant
            i <= a.entries@.len(),
            all == Seq::new(a@.entries.len(), |i: int| entry_tree(a@.entries[i])),
            list@ == all.take(i as int),
        decreases a.entries@.len() - i,
    {
        let item = build_entry(&a.entries[i]);
        assert(all[i as int] == item@);
        assert(all.take(i + 1) =~= all.take(i as int).push(item@));
        list.add_item(item);
        i = i + 1;
    }
    assert(all.take(all.len() as int) =~= all);
    let mut b = ObjectBuilder::new();
    b.put("root", Json::of_text(a.root.as_str()));
    b.put("archive", Json::of_text(a.archive.as_str()));
    b.put("backup", Json::of_opt_text(&a.backup));
    b.put("entries", list.build());
    b.build()
}

fn build_staging(list: &Vec<String>) -> (j: Json)
    ensures
        j@ == JsonView::List(
            Seq::new(text::texts(list@).len(), |i: int| JsonView::Text(text::texts(list@)[i])),
        ),
{
    let ghost texts = text::texts(list@);
    let ghost all = Seq::new(texts.len(), |i: int| JsonView::Text(texts[i]));
    let mut out = ListBuilder::new();
    let mut i: usize = 0;
    assert(all.take(0) =~= Seq::<JsonView>::empty());
    while i < list.len()
        invariant
            i <= list@.len(),
            texts == text::texts(list@),
            all == Seq::new(texts.len(), |i: int| JsonView::Text(texts[i])),
            out@ == all.take(i as int),
        decreases list@.len() - i,
    {
        let item = Json::of_text(list[i].as_str());
        assert(all[i as int] == item@);
        assert(all.take(i + 1) =~= all.take(i as int).push(item@));
        out.add_item(item);
        i = i + 1;
    }
    assert(all.take(all.len() as int) =~= all);
    out.build()
}

fn build_steps(list: &Vec<RecoveryStep>) -> (j: Json)
    ensures
        j@ == JsonView::List(
            Seq::new(
                operation::step_views(list@).len(),
                |i: int| step_tree(operation::step_views(list@)[i]),
            ),
        ),
{
    let ghost views = operation::step_views(list@);
    let ghost all = Seq::new(views.len(), |i: int| step_tree(views[i]));
    let mut out = ListBuilder::new();
    let mut i: usize = 0;
    assert(all.take(0) =~= Seq::<JsonView>::empty());
    while i < list.len()
        invariant
            i <= list@.len(),
            views == operation::step_views(list@),
            all == Seq::new(views.len(), |i: int| step_tree(views[i])),
            out@ == all.take(i as int),
        decreases list@.len() - i,
    {
        let item = build_step(&list[i]);
        assert(all[i as int] == item@);
        assert(all.take(i + 1) =~= all.take(i as int).push(item@));
        out.add_item(item);
        i = i + 1;
    }
    assert(all.take(all.len() as int) =~= all);
    out.build()
}

fn build_archives(list: &Vec<ArchivePlanItem>) -> (j: Json)
    ensures
        j@ == JsonView::List(
            Seq::new(
                operation::item_views(list@).len(),
                |i: int| archive_tree(operation::item_views(list@)[i]),
            ),
        ),
{
    let ghost views = operation::item_views(list@);
    let ghost all = Seq::new(views.len(), |i: int| archive_tree(views[i]));
    let mut out = ListBuilder::new();
    let mut i: usize = 0;
    assert(all.take(0) =~= Seq::<JsonView>::empty());
    while i < list.len()
        invariant
            i <= list@.len(),
            views == operation::item_views(list@),
            all == Seq::new(views.len(), |i: int| archive_tree(views[i])),
            out@ == all.take(i as int),
        decreases list@.len() - i,
    {
        let item = build_archive(&list[i]);
        assert(all[i as int] == item@);
        assert(all.take(i + 1) =~= all.take(i as int).push(item@));
        out.add_item(item);
        i = i + 1;
    }
    assert(all.take(all.len() as int) =~= all);
    out.build()
}

fn build_outputs(list: &Vec<JournalOutput>) -> (j: Json)
    ensures
        j@ == JsonView::List(
            Seq::new(
                operation::output_views(list@).len(),
                |i: int| output_tree(operation::output_views(list@)[i]),
            ),
        ),
{
    let ghost views = operation::output_views(list@);
    let ghost all = Seq::new(views.len(), |i: int| output_tree(views[i]));
    let mut out = ListBuilder::new();
    let mut i: usize = 0;
    assert(all.take(0) =~= Seq::<JsonView>::empty());
    while i < list.len()
        invariant
            i <= list@.len(),
            views == operation::output_views(list@),
            all == Seq::new(views.len(), |i: int| output_tree(views[i])),
            out@ == all.take(i as int),
        decreases list@.len() - i,
    {
        let item = build_output(&list[i]);
        assert(all[i as int] == item@);
        assert(all.take(i + 1) =~= all.take(i as int).push(item@));
        out.add_item(item);
        i = i + 1;
    }
    assert(all.take(all.len() as int) =~= all);
    out.build()
}

fn build_journal(j: &OperationJournal) -> (r: Json)
    ensures
        r@ == journal_tree(j@),
{
    let mut b = ObjectBuilder::new();
    b.put("version", Json::Number(5));
    b.put("id", Json::of_text(j.id.as_str()));
    b.put("plan_id", Json::of_text(j.plan_id.as_str()));
    b.put("operation", Json::of_text(j.operation.as_str()));
    b.put("started_at", Json::Number(j.started_at));
    b.put("finished_at", Json::Number(j.finished_at));
    b.put("undo_safe", Json::Truth(j.undo_safe));
    b.put("resume_supported", Json::Truth(j.resume_supported));
    b.put("status", Json::of_text(j.status.as_str()));
    b.put("error", Json::of_opt_text(&j.error));
    b.put("undone_at", Json::of_opt_number(j.undone_at));
    b.put("staging_paths", build_staging(&j.staging_paths));
    b.put("remaining_steps", build_steps(&j.remaining_steps));
    b.put("remaining_archives", build_archives(&j.remaining_archives));
    b.put("outputs", build_outputs(&j.outputs));
    b.build()
}

// ---------------------------------------------------------------------------
// Reading
// ---------------------------------------------------------------------------

/// A text, or an empty one.
pub open spec fn or_empty(s: Option<Seq<char>>) -> Seq<char> {
    match s {
        Some(s) => s,
        None => Seq::empty(),
    }
}

/// A number, or zero.
pub open spec fn or_zero(n: Option<u64>) -> u64 {
    match n {
        Some(n) => n,
        None => 0,
    }
}

/// A truth value, or false.
pub open spec fn or_false(b: Option<bool>) -> bool {
    match b {
        Some(b) => b,
        None => false,
    }
}

/// The file identity in a JSON value, or a message; none where none is given.
pub open spec fn identity_from(j: JsonView) -> Result<Option<Seq<u8>>, Seq<char>> {
    match j.text("file_id"@) {
        None => Ok(None),
        Some(s) => match id_outcome(s) {
            Ok(id) => Ok(Some(id)),
            Err(e) => Err(e),
        },
    }
}

/// The record of a path and an identity, its other fields in a JSON value.
pub open spec fn record_with(path: Seq<char>, id: Option<Seq<u8>>, j: JsonView) -> FileRecordView {
    FileRecordView {
        path,
        identity: FileIdentityView { volume_id: j.number("volume_id"@), file_id: id },
        kind: operation::kind_named(
            match j.text("kind"@) {
                Some(s) => s,
                None => "other"@,
            },
        ),
        size: or_zero(j.number("size"@)),
        modified: j.number("modified"@),
        sha256: None,
    }
}

/// The record in a JSON value, or a message, which is given for a missing
/// path.
pub open spec fn record_from(j: JsonView, missing: Seq<char>) -> Result<
    FileRecordView,
    Seq<char>,
> {
    match j.text("path"@) {
        None => Err(missing),
        Some(path) => match identity_from(j) {
            Err(e) => Err(e),
            Ok(id) => Ok(record_with(path, id, j)),
        },
    }
}

/// The output in a JSON value, or a message.
pub open spec fn output_from(j: JsonView) -> Result<OutputView, Seq<char>> {
    match identity_from(j) {
        Err(e) => Err(e),
        Ok(id) => match j.text("path"@) {
            None => Err("journal: output missing path"@),
            Some(path) => Ok(
                OutputView {
                    role: or_empty(j.text("role"@)),
                    record: record_with(path, id, j),
                    original: j.text("original_path"@),
                },
            ),
        },
    }
}

/// The step in a JSON value, or a message.
pub open spec fn step_from(j: JsonView) -> Result<StepView, Seq<char>> {
    match j.field("source"@) {
        None => Err("journal: recovery step missing source"@),
        Some(source) => match j.text("destination"@) {
            None => Err("journal: recovery step missing destination"@),
            Some(destination) => match record_from(
                source,
                "journal: recovery source missing path"@,
            ) {
                Err(e) => Err(e),
                Ok(record) => Ok(
                    StepView {
                        operation: or_empty(j.text("operation"@)),
                        source: record,
                        destination,
                    },
                ),
            },
        },
    }
}

/// The entry of an archive in a JSON value, or a message.
pub open spec fn entry_from(j: JsonView) -> Result<ArchivePlanEntryView, Seq<char>> {
    match j.field("source"@) {
        None => Err("journal: archive recovery entry missing source"@),
        Some(source) => match record_from(
            source,
            "journal: archive recovery source missing path"@,
        ) {
            Err(e) => Err(e),
            Ok(record) => Ok(
                ArchivePlanEntryView {
                    archive_name: or_empty(j.text("archive_name"@)),
                    source: record,
                },
            ),
        },
    }
}

/// Reads an output.
pub open spec fn output_reader() -> spec_fn(JsonView) -> Result<OutputView, Seq<char>> {
    |j: JsonView| output_from(j)
}

/// Reads a step.
pub open spec fn step_reader() -> spec_fn(JsonView) -> Result<StepView, Seq<char>> {
    |j: JsonView| step_from(j)
}

/// Reads an entry of an archive.
pub open spec fn entry_reader() -> spec_fn(JsonView) -> Result<ArchivePlanEntryView, Seq<char>> {
    |j: JsonView| entry_from(j)
}

/// What the first `n` values of a list are read as, or the message of the
/// first that is not.
pub open spec fn all_from<A>(
    list: Seq<JsonView>,
    n: int,
    f: spec_fn(JsonView) -> Result<A, Seq<char>>,
) -> Result<Seq<A>, Seq<char>>
    decreases n,
{
    if n <= 0 {
        Ok(Seq::empty())
    } else {
        match all_from(list, n - 1, f) {
            Err(e) => Err(e),
            Ok(before) => match f(list[n - 1]) {
                Err(e) => Err(e),
                Ok(item) => Ok(before.push(item)),
            },
        }
    }
}

/// The list of a field, or an empty one.
pub open spec fn or_no_items(l: Option<Seq<JsonView>>) -> Seq<JsonView> {
    match l {
        Some(l) => l,
        None => Seq::empty(),
    }
}

/// What the values of a field are read as, or a message.
pub open spec fn field_from<A>(
    j: JsonView,
    name: Seq<char>,
    f: spec_fn(JsonView) -> Result<A, Seq<char>>,
) -> Result<Seq<A>, Seq<char>> {
    let list = or_no_items(j.list(name));
    all_from(list, list.len() as int, f)
}

/// The archive in a JSON value, or a message.
pub open spec fn archive_from(j: JsonView) -> Result<ArchivePlanItemView, Seq<char>> {
    match field_from(j, "entries"@, entry_reader()) {
        Err(e) => Err(e),
        Ok(entries) => match j.text("archive"@) {
            None => Err("journal: archive recovery step missing destination"@),
            Some(archive) => Ok(
                ArchivePlanItemView {
                    root: or_empty(j.text("root"@)),
                    archive,
                    backup: j.text("backup"@),
                    entries,
                },
            ),
        },
    }
}

/// Reads an archive.
pub open spec fn archive_reader() -> spec_fn(JsonView) -> Result<ArchivePlanItemView, Seq<char>> {
    |j: JsonView| archive_from(j)
}

/// The texts among the first `n` values of a list.
pub open spec fn texts_among(list: Seq<JsonView>, n: int) -> Seq<Seq<char>>
    decreases n,
{
    if n <= 0 {
        Seq::empty()
    } else {
        match list[n - 1] {
            JsonView::Text(s) => texts_among(list, n - 1).push(s),
            _ => texts_among(list, n - 1),
        }
    }
}

/// A text that has to be there, or a message.
pub open spec fn required_text(j: JsonView, name: Seq<char>) -> Result<Seq<char>, Seq<char>> {
    match j.text(name) {
        Some(s) => Ok(s),
        None => Err("journal: missing '"@ + name + "'"@),
    }
}

/// A number that has to be there, or a message.
pub open spec fn required_number(j: JsonView, name: Seq<char>) -> Result<u64, Seq<char>> {
    match j.number(name) {
        Some(n) => Ok(n),
        None => Err("journal: missing '"@ + name + "'"@),
    }
}

/// The status of a journal that may be older than statuses.
pub open spec fn status_from(j: JsonView) -> Seq<char> {
    match j.text("status"@) {
        Some(s) => s,
        None => if j.number("undone_at"@) is Some {
            "undone"@
        } else {
            "applied"@
        },
    }
}

/// The parts of a journal that are lists.
pub struct ListsView {
    pub outputs: Seq<OutputView>,
    pub staging: Seq<Seq<char>>,
    pub steps: Seq<StepView>,
    pub archives: Seq<ArchivePlanItemView>,
}

/// The lists of a journal in a JSON value, or a message.
pub open spec fn lists_from(j: JsonView) -> Result<ListsView, Seq<char>> {
    match j.list("outputs"@) {
        None => Err("journal: missing 'outputs'"@),
        Some(list) => match all_from(list, list.len() as int, output_reader()) {
            Err(e) => Err(e),
            Ok(outputs) => match field_from(j, "remaining_steps"@, step_reader()) {
                Err(e) => Err(e),
                Ok(steps) => match field_from(
                    j,
                    "remaining_archives"@,
                    archive_reader(),
                ) {
                    Err(e) => Err(e),
                    Ok(archives) => {
                        let staging = or_no_items(j.list("staging_paths"@));
                        Ok(
                            ListsView {
                                outputs,
                                staging: texts_among(staging, staging.len() as int),
                                steps,
                                archives,
                            },
                        )
                    },
                },
            },
        },
    }
}

/// The journal of some lists, its other parts in a JSON value, or a message.
pub open spec fn journal_with(l: ListsView, j: JsonView) -> Result<JournalView, Seq<char>> {
    match required_text(j, "id"@) {
        Err(e) => Err(e),
        Ok(id) => match required_text(j, "plan_id"@) {
            Err(e) => Err(e),
            Ok(plan_id) => match required_text(j, "operation"@) {
                Err(e) => Err(e),
                Ok(operation) => match required_number(j, "started_at"@) {
                    Err(e) => Err(e),
                    Ok(started_at) => match required_number(j, "finished_at"@) {
                        Err(e) => Err(e),
                        Ok(finished_at) => Ok(
                            JournalView {
                                id,
                                plan_id,
                                operation,
                                started_at,
                                finished_at,
                                outputs: l.outputs,
                                staging: l.staging,
                                steps: l.steps,
                                archives: l.archives,
                                resume_supported: or_false(j.truth("resume_supported"@)),
                                undo_safe: or_false(j.truth("undo_safe"@)),
                                status: status_from(j),
                                error: j.text("error"@),
                                undone_at: j.number("undone_at"@),
                            },
                        ),
                    },
                },
            },
        },
    }
}

/// The journal in a JSON value, or a message.
pub open spec fn journal_from(j: JsonView) -> Result<JournalView, Seq<char>> {
    match lists_from(j) {
        Err(e) => Err(e),
        Ok(l) => journal_with(l, j),
    }
}

/// The journal in a text, or a message.
pub open spec fn journal_parsed(s: Seq<char>) -> Result<JournalView, Seq<char>> {
    match json::json_parsed(s) {
        Err(e) => Err("journal: invalid persisted JSON: "@ + e),
        Ok(j) => journal_from(j),
    }
}

proof fn lemma_refused_stays<A>(
    list: Seq<JsonView>,
    n: int,
    m: int,
    f: spec_fn(JsonView) -> Result<A, Seq<char>>,
)
    requires
        n <= m,
        all_from(list, n, f) is Err,
    ensures
        all_from(list, m, f) == all_from(list, n, f),
    decreases m - n,
{
    if n < m {
        lemma_refused_stays(list, n, m - 1, f);
    }
}

fn take_identity(j: &Json) -> (r: Result<Option<[u8; 16]>, String>)
    ensures
        match r {
            Ok(Some(id)) => identity_from(j@) == Ok::<Option<Seq<u8>>, Seq<char>>(Some(id@)),
            Ok(None) => identity_from(j@) == Ok::<Option<Seq<u8>>, Seq<char>>(None),
            Err(e) => identity_from(j@) == Err::<Option<Seq<u8>>, Seq<char>>(e@),
        },
{
    match j.get_text("file_id") {
        None => Ok(None),
        Some(s) => match parse_file_id(s.as_str()) {
            Ok(id) => Ok(Some(id)),
            Err(e) => Err(e),
        },
    }
}

/// What an identity is.
pub open spec fn id_view(id: Option<[u8; 16]>) -> Option<Seq<u8>> {
    match id {
        Some(id) => Some(id@),
        None => None,
    }
}

fn make_record(path: String, id: Option<[u8; 16]>, j: &Json) -> (r: FileRecord)
    ensures
        r@ == record_with(path@, id_view(id), j@),
{
    let kind = match j.get_text("kind") {
        Some(s) => parse_kind(s.as_str()),
        None => parse_kind("other"),
    };
    let size = match j.get_number("size") {
        Some(n) => n,
        None => 0,
    };
    FileRecord {
        path,
        identity: FileIdentity { volume_id: j.get_number("volume_id"), file_id: id },
        kind,
        size,
        modified: j.get_number("modified"),
        sha256: None,
    }
}

fn take_record(j: &Json, missing: &str) -> (r: Result<FileRecord, String>)
    ensures
        match r {
            Ok(f) => record_from(j@, missing@) == Ok::<FileRecordView, Seq<char>>(f@),
            Err(e) => record_from(j@, missing@) == Err::<FileRecordView, Seq<char>>(e@),
        },
{
    match j.get_text("path") {
        None => Err(missing.to_owned()),
        Some(path) => match take_identity(j) {
            Err(e) => Err(e),
            Ok(id) => Ok(make_record(path, id, j)),
        },
    }
}

fn text_or_empty(s: Option<String>) -> (r: String)
    ensures
        r@ == or_empty(fileset::opt_text(s)),
{
    match s {
        Some(s) => s,
        None => {
            let none = String::new();
            assert(none@ =~= Seq::<char>::empty());
            none
        },
    }
}

fn take_output(j: &Json) -> (r: Result<JournalOutput, String>)
    ensures
        match r {
            Ok(o) => output_from(j@) == Ok::<OutputView, Seq<char>>(o@),
            Err(e) => output_from(j@) == Err::<OutputView, Seq<char>>(e@),
        },
{
    match take_identity(j) {
        Err(e) => Err(e),
        Ok(id) => match j.get_text("path") {
            None => Err("journal: output missing path".to_owned()),
            Some(path) => Ok(
                JournalOutput {
                    role: text_or_empty(j.get_text("role")),
                    record: make_record(path, id, j),
                    original_path: j.get_text("original_path"),
                },
            ),
        },
    }
}

fn take_step(j: &Json) -> (r: Result<RecoveryStep, String>)
    ensures
        match r {
            Ok(s) => step_from(j@) == Ok::<StepView, Seq<char>>(s@),
            Err(e) => step_from(j@) == Err::<StepView, Seq<char>>(e@),
        },
{
    match j.get("source") {
        None => Err("journal: recovery step missing source".to_owned()),
        Some(source) => match j.get_text("destination") {
            None => Err("journal: recovery step missing destination".to_owned()),
            Some(destination) => match take_record(
                source,
                "journal: recovery source missing path",
            ) {
                Err(e) => Err(e),
                Ok(record) => Ok(
                    RecoveryStep {
                        operation: text_or_empty(j.get_text("operation")),
                        source: record,
                        destination,
                    },
                ),
            },
        },
    }
}

fn take_entry(j: &Json) -> (r: Result<ArchivePlanEntry, String>)
    ensures
        match r {
            Ok(a) => entry_from(j@) == Ok::<ArchivePlanEntryView, Seq<char>>(a@),
            Err(e) => entry_from(j@) == Err::<ArchivePlanEntryView, Seq<char>>(e@),
        },
{
    match j.get("source") {
        None => Err("journal: archive recovery entry missing source".to_owned()),
        Some(source) => match take_record(
            source,
            "journal: archive recovery source missing path",
        ) {
            Err(e) => Err(e),
            Ok(record) => Ok(
                ArchivePlanEntry {
                    archive_name: text_or_empty(j.get_text("archive_name")),
                    source: record,
                },
            ),
        },
    }
}

fn take_entries(list: &Vec<Json>) -> (r: Result<Vec<ArchivePlanEntry>, String>)
    ensures
        match r {
            Ok(l) => all_from(
                json::values_of(list@, list@.len()),
                json::values_of(list@, list@.len()).len() as int,
                entry_reader(),
            ) == Ok::<Seq<ArchivePlanEntryView>, Seq<char>>(operation::entry_views(l@)),
            Err(e) => all_from(
                json::values_of(list@, list@.len()),
                json::values_of(list@, list@.len()).len() as int,
                entry_reader(),
            ) == Err::<Seq<ArchivePlanEntryView>, Seq<char>>(e@),
        },
{
    let ghost all = json::values_of(list@, list@.len());
    let ghost f = entry_reader();
    proof {
        json::lemma_values(list@, list@.len());
    }
    let mut out: Vec<ArchivePlanEntry> = Vec::new();
    assert(operation::entry_views(out@) =~= Seq::<ArchivePlanEntryView>::empty());
    let mut i: usize = 0;
    while i < list.len()
        invariant
            i <= list@.len(),
            all == json::values_of(list@, list@.len()),
            f == entry_reader(),
            all.len() == list@.len(),
            forall|k: int| 0 <= k < list@.len() ==> #[trigger] all[k] == list@[k]@,
            all_from(all, i as int, f) == Ok::<Seq<ArchivePlanEntryView>, Seq<char>>(operation::entry_views(out@)),
        decreases list@.len() - i,
    {
        assert(all[i as int] == list@[i as int]@);
        match take_entry(&list[i]) {
            Err(e) => {
                proof {
                    lemma_refused_stays(all, i + 1, list@.len() as int, f);
                }
                return Err(e);
            },
            Ok(item) => {
                let ghost before = out@;
                out.push(item);
                assert(operation::entry_views(out@) =~= operation::entry_views(before).push(item@));
            },
        }
        i = i + 1;
    }
    Ok(out)
}

fn take_archive(j: &Json) -> (r: Result<ArchivePlanItem, String>)
    ensures
        match r {
            Ok(a) => archive_from(j@) == Ok::<ArchivePlanItemView, Seq<char>>(a@),
            Err(e) => archive_from(j@) == Err::<ArchivePlanItemView, Seq<char>>(e@),
        },
{
    let none: Vec<Json> = Vec::new();
    let entries = match take_entries(
        match j.get_list("entries") {
            Some(l) => l,
            None => &none,
        },
    ) {
        Err(e) => {
            return Err(e);
        },
        Ok(l) => l,
    };
    match j.get_text("archive") {
        None => Err("journal: archive recovery step missing destination".to_owned()),
        Some(archive) => Ok(
            ArchivePlanItem {
                root: text_or_empty(j.get_text("root")),
                archive,
                backup: j.get_text("backup"),
                entries,
            },
        ),
    }
}

fn take_archives(list: &Vec<Json>) -> (r: Result<Vec<ArchivePlanItem>, String>)
    ensures
        match r {
            Ok(l) => all_from(
                json::values_of(list@, list@.len()),
                json::values_of(list@, list@.len()).len() as int,
                archive_reader(),
            ) == Ok::<Seq<ArchivePlanItemView>, Seq<char>>(operation::item_views(l@)),
            Err(e) => all_from(
                json::values_of(list@, list@.len()),
                json::values_of(list@, list@.len()).len() as int,
                archive_reader(),
            ) == Err::<Seq<ArchivePlanItemView>, Seq<char>>(e@),
        },
{
    let ghost all = json::values_of(list@, list@.len());
    let ghost f = archive_reader();
    proof {
        json::lemma_values(list@, list@.len());
    }
    let mut out: Vec<ArchivePlanItem> = Vec::new();
    assert(operation::item_views(out@) =~= Seq::<ArchivePlanItemView>::empty());
    let mut i: usize = 0;
    while i < list.len()
        invariant
            i <= list@.len(),
            all == json::values_of(list@, list@.len()),
            f == archive_reader(),
            all.len() == list@.len(),
            forall|k: int| 0 <= k < list@.len() ==> #[trigger] all[k] == list@[k]@,
            all_from(all, i as int, f) == Ok::<Seq<ArchivePlanItemView>, Seq<char>>(operation::item_views(out@)),
        decreases list@.len() - i,
    {
        assert(all[i as int] == list@[i as int]@);
        match take_archive(&list[i]) {
            Err(e) => {
                proof {
                    lemma_refused_stays(all, i + 1, list@.len() as int, f);
                }
                return Err(e);
            },
            Ok(item) => {
                let ghost before = out@;
                out.push(item);
                assert(operation::item_views(out@) =~= operation::item_views(before).push(item@));
            },
        }
        i = i + 1;
    }
    Ok(out)
}

fn take_steps(list: &Vec<Json>) -> (r: Result<Vec<RecoveryStep>, String>)
    ensures
        match r {
            Ok(l) => all_from(
                json::values_of(list@, list@.len()),
                json::values_of(list@, list@.len()).len() as int,
                step_reader(),
            ) == Ok::<Seq<StepView>, Seq<char>>(operation::step_views(l@)),
            Err(e) => all_from(
                json::values_of(list@, list@.len()),
                json::values_of(list@, list@.len()).len() as int,
                step_reader(),
            ) == Err::<Seq<StepView>, Seq<char>>(e@),
        },
{
    let ghost all = json::values_of(list@, list@.len());
    let ghost f = step_reader();
    proof {
        json::lemma_values(list@, list@.len());
    }
    let mut out: Vec<RecoveryStep> = Vec::new();
    assert(operation::step_views(out@) =~= Seq::<StepView>::empty());
    let mut i: usize = 0;
    while i < list.len()
        invariant
            i <= list@.len(),
            all == json::values_of(list@, list@.len()),
            f == step_reader(),
            all.len() == list@.len(),
            forall|k: int| 0 <= k < list@.len() ==> #[trigger] all[k] == list@[k]@,
            all_from(all, i as int, f) == Ok::<Seq<StepView>, Seq<char>>(operation::step_views(out@)),
        decreases list@.len() - i,
    {
        assert(all[i as int] == list@[i as int]@);
        match take_step(&list[i]) {
            Err(e) => {
                proof {
                    lemma_refused_stays(all, i + 1, list@.len() as int, f);
                }
                return Err(e);
            },
            Ok(item) => {
                let ghost before = out@;
                out.push(item);
                assert(operation::step_views(out@) =~= operation::step_views(before).push(item@));
            },
        }
        i = i + 1;
    }
    Ok(out)
}

fn take_outputs(list: &Vec<Json>) -> (r: Result<Vec<JournalOutput>, String>)
    ensures
        match r {
            Ok(l) => all_from(
                json::values_of(list@, list@.len()),
                json::values_of(list@, list@.len()).len() as int,
                output_reader(),
            ) == Ok::<Seq<OutputView>, Seq<char>>(operation::output_views(l@)),
            Err(e) => all_from(
                json::values_of(list@, list@.len()),
                json::values_of(list@, list@.len()).len() as int,
                output_reader(),
            ) == Err::<Seq<OutputView>, Seq<char>>(e@),
        },
{
    let ghost all = json::values_of(list@, list@.len());
    let ghost f = output_reader();
    proof {
        json::lemma_values(list@, list@.len());
    }
    let mut out: Vec<JournalOutput> = Vec::new();
    assert(operation::output_views(out@) =~= Seq::<OutputView>::empty());
    let mut i: usize = 0;
    while i < list.len()
        invariant
            i <= list@.len(),
            all == json::values_of(list@, list@.len()),
            f == output_reader(),
            all.len() == list@.len(),
            forall|k: int| 0 <= k < list@.len() ==> #[trigger] all[k] == list@[k]@,
            all_from(all, i as int, f) == Ok::<Seq<OutputView>, Seq<char>>(operation::output_views(out@)),
        decreases list@.len() - i,
    {
        assert(all[i as int] == list@[i as int]@);
        match take_output(&list[i]) {
            Err(e) => {
                proof {
                    lemma_refused_stays(all, i + 1, list@.len() as int, f);
                }
                return Err(e);
            },
            Ok(item) => {
                let ghost before = out@;
                out.push(item);
                assert(operation::output_views(out@) =~= operation::output_views(before).push(item@));
            },
        }
        i = i + 1;
    }
    Ok(out)
}

fn take_staging(list: &Vec<Json>) -> (r: Vec<String>)
    ensures
        text::texts(r@) == texts_among(
            json::values_of(list@, list@.len()),
            json::values_of(list@, list@.len()).len() as int,
        ),
{
    let ghost all = json::values_of(list@, list@.len());
    proof {
        json::lemma_values(list@, list@.len());
    }
    let mut out: Vec<String> = Vec::new();
    assert(text::texts(out@) =~= Seq::<Seq<char>>::empty());
    let mut i: usize = 0;
    while i < list.len()
        invariant
            i <= list@.len(),
            all.len() == list@.len(),
            forall|k: int| 0 <= k < list@.len() ==> #[trigger] all[k] == list@[k]@,
            text::texts(out@) == texts_among(all, i as int),
        decreases list@.len() - i,
    {
        assert(all[i as int] == list@[i as int]@);
        match &list[i] {
            Json::Text(s) => {
                let item = s.clone();
                proof {
                    text::lemma_texts_push(out@, item);
                }
                out.push(item);
            },
            _ => {},
        }
        i = i + 1;
    }
    out
}

fn need_text(j: &Json, name: &str) -> (r: Result<String, String>)
    ensures
        match r {
            Ok(s) => required_text(j@, name@) == Ok::<Seq<char>, Seq<char>>(s@),
            Err(e) => required_text(j@, name@) == Err::<Seq<char>, Seq<char>>(e@),
        },
{
    match j.get_text(name) {
        Some(s) => Ok(s),
        None => Err(cat3("journal: missing '", name, "'")),
    }
}

fn need_number(j: &Json, name: &str) -> (r: Result<u64, String>)
    ensures
        match r {
            Ok(n) => required_number(j@, name@) == Ok::<u64, Seq<char>>(n),
            Err(e) => required_number(j@, name@) == Err::<u64, Seq<char>>(e@),
        },
{
    match j.get_number(name) {
        Some(n) => Ok(n),
        None => Err(cat3("journal: missing '", name, "'")),
    }
}

fn truth_or_false(b: Option<bool>) -> (r: bool)
    ensures
        r == or_false(b),
{
    match b {
        Some(b) => b,
        None => false,
    }
}

/// What reading a journal gave.
pub open spec fn journal_view(r: Result<OperationJournal, String>) -> Result<
    JournalView,
    Seq<char>,
> {
    match r {
        Ok(j) => Ok(j@),
        Err(e) => Err(e@),
    }
}

fn take_journal(j: &Json) -> (r: Result<OperationJournal, String>)
    ensures
        journal_view(r) == journal_from(j@),
{
    let none: Vec<Json> = Vec::new();
    let outputs = match j.get_list("outputs") {
        None => {
            return Err("journal: missing 'outputs'".to_owned());
        },
        Some(l) => match take_outputs(l) {
            Err(e) => {
                return Err(e);
            },
            Ok(l) => l,
        },
    };
    let remaining_steps = match take_steps(
        match j.get_list("remaining_steps") {
            Some(l) => l,
            None => &none,
        },
    ) {
        Err(e) => {
            return Err(e);
        },
        Ok(l) => l,
    };
    let remaining_archives = match take_archives(
        match j.get_list("remaining_archives") {
            Some(l) => l,
            None => &none,
        },
    ) {
        Err(e) => {
            return Err(e);
        },
        Ok(l) => l,
    };
    let staging_paths = take_staging(
        match j.get_list("staging_paths") {
            Some(l) => l,
            None => &none,
        },
    );
    let undone_at = j.get_number("undone_at");
    let status = match j.get_text("status") {
        Some(s) => s,
        None => if undone_at.is_some() {
            "undone".to_owned()
        } else {
            "applied".to_owned()
        },
    };
    let id = match need_text(j, "id") {
        Err(e) => {
            return Err(e);
        },
        Ok(s) => s,
    };
    let plan_id = match need_text(j, "plan_id") {
        Err(e) => {
            return Err(e);
        },
        Ok(s) => s,
    };
    let operation = match need_text(j, "operation") {
        Err(e) => {
            return Err(e);
        },
        Ok(s) => s,
    };
    let started_at = match need_number(j, "started_at") {
        Err(e) => {
            return Err(e);
        },
        Ok(n) => n,
    };
    let finished_at = match need_number(j, "finished_at") {
        Err(e) => {
            return Err(e);
        },
        Ok(n) => n,
    };
    let journal = OperationJournal {
        id,
        plan_id,
        operation,
        started_at,
        finished_at,
        outputs,
        staging_paths,
        remaining_steps,
        remaining_archives,
        resume_supported: truth_or_false(j.get_truth("resume_supported")),
        undo_safe: truth_or_false(j.get_truth("undo_safe")),
        status,
        error: j.get_text("error"),
        undone_at,
    };
    Ok(journal)
}

impl OperationJournal {
    /// Writes the journal as JSON. It is read back as it is, the hashes of
    /// its records left out.
    pub fn to_json(&self) -> (r: String)
        ensures
            r@ == json::json_written(journal_tree(self@)),
            json::json_parsed(r@) == json::read_as(journal_tree(self@)),
            lasting(self@) ==> journal_parsed(r@) == Ok::<JournalView, Seq<char>>(self@),
    {
        let j = build_journal(self);
        proof {
            lemma_journal_writable(self@);
            if lasting(self@) {
                law_journal_comes_back(self@);
            }
        }
        write_json(&j)
    }

    /// Reads a journal from JSON, or says what is wrong with it.
    pub fn from_json(s: &str) -> (r: Result<OperationJournal, String>)
        ensures
            journal_view(r) == journal_parsed(s@),
    {
        match read_json(s) {
            Err(e) => Err(cat2("journal: invalid persisted JSON: ", e.as_str())),
            Ok(j) => take_journal(&j),
        }
    }
}

// ---------------------------------------------------------------------------
// Lasting
// ---------------------------------------------------------------------------

/// Whether JSON holds all of a record: a hash is not kept, and an identity
/// has its sixteen bytes.
pub open spec fn record_lasts(r: FileRecordView) -> bool {
    r.sha256 is None && (r.identity.file_id matches Some(id) ==> id.len() == 16)
}

/// Whether JSON holds all of a journal.
pub open spec fn lasting(j: JournalView) -> bool {
    &&& forall|i: int| 0 <= i < j.outputs.len() ==> record_lasts((#[trigger] j.outputs[i]).record)
    &&& forall|i: int| 0 <= i < j.steps.len() ==> record_lasts((#[trigger] j.steps[i]).source)
    &&& forall|i: int| 0 <= i < j.archives.len() ==> archive_lasts(#[trigger] j.archives[i])
}

/// Whether JSON holds all of an archive.
pub open spec fn archive_lasts(a: ArchivePlanItemView) -> bool {
    forall|i: int| 0 <= i < a.entries.len() ==> record_lasts((#[trigger] a.entries[i]).source)
}

/// The names of the fields of a journal are all different.
proof fn lemma_journal_names()
    ensures
        "version"@ != "id"@,
        "version"@ != "plan_id"@,
        "version"@ != "operation"@,
        "version"@ != "started_at"@,
        "version"@ != "finished_at"@,
        "version"@ != "undo_safe"@,
        "version"@ != "resume_supported"@,
        "version"@ != "status"@,
        "version"@ != "error"@,
        "version"@ != "undone_at"@,
        "version"@ != "staging_paths"@,
        "version"@ != "remaining_steps"@,
        "version"@ != "remaining_archives"@,
        "version"@ != "outputs"@,
        "id"@ != "plan_id"@,
        "id"@ != "operation"@,
        "id"@ != "started_at"@,
        "id"@ != "finished_at"@,
        "id"@ != "undo_safe"@,
        "id"@ != "resume_supported"@,
        "id"@ != "status"@,
        "id"@ != "error"@,
        "id"@ != "undone_at"@,
        "id"@ != "staging_paths"@,
        "id"@ != "remaining_steps"@,
        "id"@ != "remaining_archives"@,
        "id"@ != "outputs"@,
        "plan_id"@ != "operation"@,
        "plan_id"@ != "started_at"@,
        "plan_id"@ != "finished_at"@,
        "plan_id"@ != "undo_safe"@,
        "plan_id"@ != "resume_supported"@,
        "plan_id"@ != "status"@,
        "plan_id"@ != "error"@,
        "plan_id"@ != "undone_at"@,
        "plan_id"@ != "staging_paths"@,
        "plan_id"@ != "remaining_steps"@,
        "plan_id"@ != "remaining_archives"@,
        "plan_id"@ != "outputs"@,
        "operation"@ != "started_at"@,
        "operation"@ != "finished_at"@,
        "operation"@ != "undo_safe"@,
        "operation"@ != "resume_supported"@,
        "operation"@ != "status"@,
        "operation"@ != "error"@,
        "operation"@ != "undone_at"@,
        "operation"@ != "staging_paths"@,
        "operation"@ != "remaining_steps"@,
        "operation"@ != "remaining_archives"@,
        "operation"@ != "outputs"@,
        "started_at"@ != "finished_at"@,
        "started_at"@ != "undo_safe"@,
        "started_at"@ != "resume_supported"@,
        "started_at"@ != "status"@,
        "started_at"@ != "error"@,
        "started_at"@ != "undone_at"@,
        "started_at"@ != "staging_paths"@,
        "started_at"@ != "remaining_steps"@,
        "started_at"@ != "remaining_archives"@,
        "started_at"@ != "outputs"@,
        "finished_at"@ != "undo_safe"@,
        "finished_at"@ != "resume_supported"@,
        "finished_at"@ != "status"@,
        "finished_at"@ != "error"@,
        "finished_at"@ != "undone_at"@,
        "finished_at"@ != "staging_paths"@,
        "finished_at"@ != "remaining_steps"@,
        "finished_at"@ != "remaining_archives"@,
        "finished_at"@ != "outputs"@,
        "undo_safe"@ != "resume_supported"@,
        "undo_safe"@ != "status"@,
        "undo_safe"@ != "error"@,
        "undo_safe"@ != "undone_at"@,
        "undo_safe"@ != "staging_paths"@,
        "undo_safe"@ != "remaining_steps"@,
        "undo_safe"@ != "remaining_archives"@,
        "undo_safe"@ != "outputs"@,
        "resume_supported"@ != "status"@,
        "resume_supported"@ != "error"@,
        "resume_supported"@ != "undone_at"@,
        "resume_supported"@ != "staging_paths"@,
        "resume_supported"@ != "remaining_steps"@,
        "resume_supported"@ != "remaining_archives"@,
        "resume_supported"@ != "outputs"@,
        "status"@ != "error"@,
        "status"@ != "undone_at"@,
        "status"@ != "staging_paths"@,
        "status"@ != "remaining_steps"@,
        "status"@ != "remaining_archives"@,
        "status"@ != "outputs"@,
        "error"@ != "undone_at"@,
        "error"@ != "staging_paths"@,
        "error"@ != "remaining_steps"@,
        "error"@ != "remaining_archives"@,
        "error"@ != "outputs"@,
        "undone_at"@ != "staging_paths"@,
        "undone_at"@ != "remaining_steps"@,
        "undone_at"@ != "remaining_archives"@,
        "undone_at"@ != "outputs"@,
        "staging_paths"@ != "remaining_steps"@,
        "staging_paths"@ != "remaining_archives"@,
        "staging_paths"@ != "outputs"@,
        "remaining_steps"@ != "remaining_archives"@,
        "remaining_steps"@ != "outputs"@,
        "remaining_archives"@ != "outputs"@,
{
    reveal_strlit("version");
    reveal_strlit("id");
    reveal_strlit("plan_id");
    reveal_strlit("operation");
    reveal_strlit("started_at");
    reveal_strlit("finished_at");
    reveal_strlit("undo_safe");
    reveal_strlit("resume_supported");
    reveal_strlit("status");
    reveal_strlit("error");
    reveal_strlit("undone_at");
    reveal_strlit("staging_paths");
    reveal_strlit("remaining_steps");
    reveal_strlit("remaining_archives");
    reveal_strlit("outputs");
    assert("version"@.len() == 7);
    assert("id"@.len() == 2);
    assert("plan_id"@.len() == 7);
    assert("operation"@.len() == 9);
    assert("started_at"@.len() == 10);
    assert("finished_at"@.len() == 11);
    assert("undo_safe"@.len() == 9);
    assert("resume_supported"@.len() == 16);
    assert("status"@.len() == 6);
    assert("error"@.len() == 5);
    assert("undone_at"@.len() == 9);
    assert("staging_paths"@.len() == 13);
    assert("remaining_steps"@.len() == 15);
    assert("remaining_archives"@.len() == 18);
    assert("outputs"@.len() == 7);
    assert("version"@[0] == 'v' && "plan_id"@[0] == 'p');
    assert("version"@[0] == 'v' && "outputs"@[0] == 'o');
    assert("plan_id"@[0] == 'p' && "outputs"@[0] == 'o');
    assert("operation"@[0] == 'o' && "undo_safe"@[0] == 'u');
    assert("operation"@[0] == 'o' && "undone_at"@[0] == 'u');
    assert("undo_safe"@[4] == '_' && "undone_at"@[4] == 'n');
}

/// The names of the fields of a record are all different.
proof fn lemma_record_names()
    ensures
        "path"@ != "volume_id"@,
        "path"@ != "file_id"@,
        "path"@ != "kind"@,
        "path"@ != "size"@,
        "path"@ != "modified"@,
        "path"@ != "role"@,
        "path"@ != "original_path"@,
        "volume_id"@ != "file_id"@,
        "volume_id"@ != "kind"@,
        "volume_id"@ != "size"@,
        "volume_id"@ != "modified"@,
        "volume_id"@ != "role"@,
        "volume_id"@ != "original_path"@,
        "file_id"@ != "kind"@,
        "file_id"@ != "size"@,
        "file_id"@ != "modified"@,
        "file_id"@ != "role"@,
        "file_id"@ != "original_path"@,
        "kind"@ != "size"@,
        "kind"@ != "modified"@,
        "kind"@ != "role"@,
        "kind"@ != "original_path"@,
        "size"@ != "modified"@,
        "size"@ != "role"@,
        "size"@ != "original_path"@,
        "modified"@ != "role"@,
        "modified"@ != "original_path"@,
        "role"@ != "original_path"@,
{
    reveal_strlit("path");
    reveal_strlit("volume_id");
    reveal_strlit("file_id");
    reveal_strlit("kind");
    reveal_strlit("size");
    reveal_strlit("modified");
    reveal_strlit("role");
    reveal_strlit("original_path");
    assert("path"@.len() == 4);
    assert("volume_id"@.len() == 9);
    assert("file_id"@.len() == 7);
    assert("kind"@.len() == 4);
    assert("size"@.len() == 4);
    assert("modified"@.len() == 8);
    assert("role"@.len() == 4);
    assert("original_path"@.len() == 13);
    assert("path"@[0] == 'p' && "kind"@[0] == 'k');
    assert("path"@[0] == 'p' && "size"@[0] == 's');
    assert("path"@[0] == 'p' && "role"@[0] == 'r');
    assert("kind"@[0] == 'k' && "size"@[0] == 's');
    assert("kind"@[0] == 'k' && "role"@[0] == 'r');
    assert("size"@[0] == 's' && "role"@[0] == 'r');
}

/// The names of the fields of a step are all different.
proof fn lemma_step_names()
    ensures
        "operation"@ != "destination"@,
        "operation"@ != "source"@,
        "destination"@ != "source"@,
{
    reveal_strlit("operation");
    reveal_strlit("destination");
    reveal_strlit("source");
    assert("operation"@.len() == 9);
    assert("destination"@.len() == 11);
    assert("source"@.len() == 6);
}

/// The names of the fields of an archive are all different.
proof fn lemma_archive_names()
    ensures
        "root"@ != "archive"@,
        "root"@ != "backup"@,
        "root"@ != "entries"@,
        "archive"@ != "backup"@,
        "archive"@ != "entries"@,
        "backup"@ != "entries"@,
{
    reveal_strlit("root");
    reveal_strlit("archive");
    reveal_strlit("backup");
    reveal_strlit("entries");
    assert("root"@.len() == 4);
    assert("archive"@.len() == 7);
    assert("backup"@.len() == 6);
    assert("entries"@.len() == 7);
    assert("archive"@[0] == 'a' && "entries"@[0] == 'e');
}

/// The names of the fields of an entry are all different.
proof fn lemma_entry_names()
    ensures
        "archive_name"@ != "source"@,
{
    reveal_strlit("archive_name");
    reveal_strlit("source");
    assert("archive_name"@.len() == 12);
    assert("source"@.len() == 6);
}

proof fn lemma_record_back(r: FileRecordView, missing: Seq<char>)
    requires
        record_lasts(r),
    ensures
        record_from(record_tree(r), missing) == Ok::<FileRecordView, Seq<char>>(r),
{
    lemma_record_names();
    operation::law_kind_reads_back(r.kind);
    if let Some(id) = r.identity.file_id {
        law_identity_comes_back(id);
    }
}

proof fn lemma_output_back(o: OutputView)
    requires
        record_lasts(o.record),
    ensures
        output_from(output_tree(o)) == Ok::<OutputView, Seq<char>>(o),
{
    lemma_record_names();
    operation::law_kind_reads_back(o.record.kind);
    if let Some(id) = o.record.identity.file_id {
        law_identity_comes_back(id);
    }
}

proof fn lemma_step_back(s: StepView)
    requires
        record_lasts(s.source),
    ensures
        step_from(step_tree(s)) == Ok::<StepView, Seq<char>>(s),
{
    lemma_step_names();
    lemma_record_back(s.source, "journal: recovery source missing path"@);
}

proof fn lemma_entry_back(e: ArchivePlanEntryView)
    requires
        record_lasts(e.source),
    ensures
        entry_from(entry_tree(e)) == Ok::<ArchivePlanEntryView, Seq<char>>(e),
{
    lemma_entry_names();
    lemma_record_back(e.source, "journal: archive recovery source missing path"@);
}

/// Items that are read back one by one are read back as a list.
proof fn lemma_all_back<A>(
    list: Seq<JsonView>,
    items: Seq<A>,
    n: int,
    f: spec_fn(JsonView) -> Result<A, Seq<char>>,
)
    requires
        0 <= n <= items.len(),
        list.len() == items.len(),
        forall|i: int| 0 <= i < items.len() ==> f(#[trigger] list[i]) == Ok::<A, Seq<char>>(items[i]),
    ensures
        all_from(list, n, f) == Ok::<Seq<A>, Seq<char>>(items.take(n)),
    decreases n,
{
    if n > 0 {
        lemma_all_back(list, items, n - 1, f);
        assert(f(list[n - 1]) == Ok::<A, Seq<char>>(items[n - 1]));
        assert(items.take(n - 1).push(items[n - 1]) =~= items.take(n));
    } else {
        assert(items.take(0) =~= Seq::<A>::empty());
    }
}

proof fn lemma_archive_back(a: ArchivePlanItemView)
    requires
        archive_lasts(a),
    ensures
        archive_from(archive_tree(a)) == Ok::<ArchivePlanItemView, Seq<char>>(a),
{
    lemma_archive_names();
    let list = Seq::new(a.entries.len(), |i: int| entry_tree(a.entries[i]));
    let f = entry_reader();
    assert forall|i: int| 0 <= i < a.entries.len() implies f(#[trigger] list[i]) == Ok::<
        ArchivePlanEntryView,
        Seq<char>,
    >(a.entries[i]) by {
        lemma_entry_back(a.entries[i]);
    }
    lemma_all_back(list, a.entries, a.entries.len() as int, f);
    assert(a.entries.take(a.entries.len() as int) =~= a.entries);
    assert(archive_tree(a).list("entries"@) == Some(list));
}

proof fn lemma_staging_back(list: Seq<JsonView>, staging: Seq<Seq<char>>, n: int)
    requires
        0 <= n <= staging.len(),
        list.len() == staging.len(),
        forall|i: int| 0 <= i < list.len() ==> #[trigger] list[i] == JsonView::Text(staging[i]),
    ensures
        texts_among(list, n) == staging.take(n),
    decreases n,
{
    if n > 0 {
        lemma_staging_back(list, staging, n - 1);
        assert(list[n - 1] == JsonView::Text(staging[n - 1]));
        assert(staging.take(n - 1).push(staging[n - 1]) =~= staging.take(n));
    } else {
        assert(staging.take(0) =~= Seq::<Seq<char>>::empty());
    }
}

/// The fields of the JSON value of a journal.
proof fn lemma_journal_fields(j: JournalView)
    ensures
        ({
            let t = journal_tree(j);
            &&& t.text("id"@) == Some(j.id)
            &&& t.text("plan_id"@) == Some(j.plan_id)
            &&& t.text("operation"@) == Some(j.operation)
            &&& t.number("started_at"@) == Some(j.started_at)
            &&& t.number("finished_at"@) == Some(j.finished_at)
            &&& t.truth("undo_safe"@) == Some(j.undo_safe)
            &&& t.truth("resume_supported"@) == Some(j.resume_supported)
            &&& t.text("status"@) == Some(j.status)
            &&& t.text("error"@) == j.error
            &&& t.number("undone_at"@) == j.undone_at
            &&& t.list("staging_paths"@) == Some(
                Seq::new(j.staging.len(), |i: int| JsonView::Text(j.staging[i])),
            )
            &&& t.list("remaining_steps"@) == Some(
                Seq::new(j.steps.len(), |i: int| step_tree(j.steps[i])),
            )
            &&& t.list("remaining_archives"@) == Some(
                Seq::new(j.archives.len(), |i: int| archive_tree(j.archives[i])),
            )
            &&& t.list("outputs"@) == Some(
                Seq::new(j.outputs.len(), |i: int| output_tree(j.outputs[i])),
            )
        }),
{
    lemma_journal_names();
}

/// A journal is read back from its JSON value as it is, as long as JSON holds
/// all of it.
pub proof fn law_journal_comes_back(j: JournalView)
    requires
        lasting(j),
    ensures
        journal_from(journal_tree(j)) == Ok::<JournalView, Seq<char>>(j),
{
    lemma_journal_fields(j);
    let outputs = Seq::new(j.outputs.len(), |i: int| output_tree(j.outputs[i]));
    let f = output_reader();
    assert forall|i: int| 0 <= i < j.outputs.len() implies f(#[trigger] outputs[i]) == Ok::<
        OutputView,
        Seq<char>,
    >(j.outputs[i]) by {
        lemma_output_back(j.outputs[i]);
    }
    lemma_all_back(outputs, j.outputs, j.outputs.len() as int, f);
    assert(j.outputs.take(j.outputs.len() as int) =~= j.outputs);
    let steps = Seq::new(j.steps.len(), |i: int| step_tree(j.steps[i]));
    let g = step_reader();
    assert forall|i: int| 0 <= i < j.steps.len() implies g(#[trigger] steps[i]) == Ok::<
        StepView,
        Seq<char>,
    >(j.steps[i]) by {
        lemma_step_back(j.steps[i]);
    }
    lemma_all_back(steps, j.steps, j.steps.len() as int, g);
    assert(j.steps.take(j.steps.len() as int) =~= j.steps);
    let archives = Seq::new(j.archives.len(), |i: int| archive_tree(j.archives[i]));
    let h = archive_reader();
    assert forall|i: int| 0 <= i < j.archives.len() implies h(#[trigger] archives[i]) == Ok::<
        ArchivePlanItemView,
        Seq<char>,
    >(j.archives[i]) by {
        lemma_archive_back(j.archives[i]);
    }
    lemma_all_back(archives, j.archives, j.archives.len() as int, h);
    assert(j.archives.take(j.archives.len() as int) =~= j.archives);
    let staging = Seq::new(j.staging.len(), |i: int| JsonView::Text(j.staging[i]));
    lemma_staging_back(staging, j.staging, j.staging.len() as int);
    assert(j.staging.take(j.staging.len() as int) =~= j.staging);
}

proof fn lemma_record_writable(r: FileRecordView)
    ensures
        json::writable(record_tree(r), 2),
{
    reveal_with_fuel(json::writable, 3);
}

proof fn lemma_output_writable(o: OutputView)
    ensures
        json::writable(output_tree(o), 2),
{
    reveal_with_fuel(json::writable, 3);
}

proof fn lemma_leaf(v: JsonView, n: nat)
    requires
        n > 0,
        !(v is List),
        !(v is Object),
        !(v is OtherNumber),
    ensures
        json::writable(v, n),
{
}

proof fn lemma_step_writable(s: StepView)
    ensures
        json::writable(step_tree(s), 3),
{
    lemma_record_writable(s.source);
    lemma_leaf(JsonView::Text(s.operation), 2);
    lemma_leaf(JsonView::Text(s.destination), 2);
}

proof fn lemma_entry_writable(e: ArchivePlanEntryView)
    ensures
        json::writable(entry_tree(e), 3),
{
    lemma_record_writable(e.source);
    lemma_leaf(JsonView::Text(e.archive_name), 2);
}

proof fn lemma_archive_writable(a: ArchivePlanItemView)
    ensures
        json::writable(archive_tree(a), 5),
{
    let list = Seq::new(a.entries.len(), |i: int| entry_tree(a.entries[i]));
    assert forall|i: int| 0 <= i < list.len() implies json::writable(#[trigger] list[i], 3) by {
        lemma_entry_writable(a.entries[i]);
    }
    assert(json::writable(JsonView::List(list), 4));
    lemma_leaf(JsonView::Text(a.root), 4);
    lemma_leaf(JsonView::Text(a.archive), 4);
    lemma_leaf(json::text_or_null(a.backup), 4);
}

proof fn lemma_journal_writable(j: JournalView)
    ensures
        json::writable(journal_tree(j), 100),
{
    let outputs = Seq::new(j.outputs.len(), |i: int| output_tree(j.outputs[i]));
    assert forall|i: int| 0 <= i < outputs.len() implies json::writable(#[trigger] outputs[i], 98) by {
        lemma_output_writable(j.outputs[i]);
        json::lemma_deeper(outputs[i], 2, 98);
    }
    assert(json::writable(JsonView::List(outputs), 99));
    let steps = Seq::new(j.steps.len(), |i: int| step_tree(j.steps[i]));
    assert forall|i: int| 0 <= i < steps.len() implies json::writable(#[trigger] steps[i], 98) by {
        lemma_step_writable(j.steps[i]);
        json::lemma_deeper(steps[i], 3, 98);
    }
    assert(json::writable(JsonView::List(steps), 99));
    let archives = Seq::new(j.archives.len(), |i: int| archive_tree(j.archives[i]));
    assert forall|i: int| 0 <= i < archives.len() implies json::writable(
        #[trigger] archives[i],
        98,
    ) by {
        lemma_archive_writable(j.archives[i]);
        json::lemma_deeper(archives[i], 5, 98);
    }
    assert(json::writable(JsonView::List(archives), 99));
    let staging = Seq::new(j.staging.len(), |i: int| JsonView::Text(j.staging[i]));
    assert forall|i: int| 0 <= i < staging.len() implies json::writable(
        #[trigger] staging[i],
        98,
    ) by {
        lemma_leaf(staging[i], 98);
    }
    assert(json::writable(JsonView::List(staging), 99));
    let m = journal_tree(j)->Object_0;
    assert forall|k: Seq<char>| m.dom().contains(k) implies json::writable(#[trigger] m[k], 99) by {
        lemma_leaf(json::text_or_null(j.error), 99);
        lemma_leaf(json::number_or_null(j.undone_at), 99);
    }
}

/// What is read from a JSON value is what its fields hold; a journal without a
/// status was applied, or undone where it tells when.
pub proof fn law_journals_are_read_from_their_fields(t: JsonView)
    ensures
        journal_from(t) matches Ok(j) ==> {
            &&& t.text("id"@) == Some(j.id)
            &&& t.text("plan_id"@) == Some(j.plan_id)
            &&& t.text("operation"@) == Some(j.operation)
            &&& t.number("started_at"@) == Some(j.started_at)
            &&& t.number("finished_at"@) == Some(j.finished_at)
            &&& t.text("error"@) == j.error
            &&& t.number("undone_at"@) == j.undone_at
            &&& j.undo_safe <==> t.truth("undo_safe"@) == Some(true)
            &&& j.resume_supported <==> t.truth("resume_supported"@) == Some(true)
            &&& t.text("status"@) is Some ==> t.text("status"@) == Some(j.status)
            &&& t.text("status"@) is None && j.undone_at is None ==> j.status == "applied"@
            &&& t.text("status"@) is None && j.undone_at is Some ==> j.status == "undone"@
        },
        t.list("outputs"@) is None || t.text("id"@) is None || t.text("plan_id"@) is None || t.text(
            "operation"@,
        ) is None || t.number("started_at"@) is None || t.number("finished_at"@) is None
            ==> journal_from(t) is Err,
{
}

/// The JSON value of a journal holds its parts under their names.
pub proof fn law_journals_are_written_by_name(j: JournalView)
    ensures
        ({
            let t = journal_tree(j);
            &&& t.text("id"@) == Some(j.id)
            &&& t.text("plan_id"@) == Some(j.plan_id)
            &&& t.text("operation"@) == Some(j.operation)
            &&& t.number("started_at"@) == Some(j.started_at)
            &&& t.number("finished_at"@) == Some(j.finished_at)
            &&& t.truth("undo_safe"@) == Some(j.undo_safe)
            &&& t.truth("resume_supported"@) == Some(j.resume_supported)
            &&& t.text("status"@) == Some(j.status)
            &&& t.text("error"@) == j.error
            &&& t.number("undone_at"@) == j.undone_at
            &&& t.list("outputs"@) is Some && t.list("outputs"@)->0.len() == j.outputs.len()
            &&& t.list("remaining_steps"@) is Some && t.list("remaining_steps"@)->0.len() == j.steps.len()
            &&& t.list("remaining_archives"@) is Some && t.list("remaining_archives"@)->0.len() == j.archives.len()
            &&& t.list("staging_paths"@) is Some && t.list("staging_paths"@)->0.len() == j.staging.len()
        }),
{
    lemma_journal_fields(j);
}

} // verus!
