//! Sets of files with what is known of each.

use crate::builtins;
use crate::dialog;
use crate::dialog::{Answer, Request, Talk, TalkView};
use crate::table;
use crate::table::{passes, Row, Table};
use crate::text;
use crate::text::{copy_texts, holds_text, u64_text};
use vstd::prelude::*;

verus! {

/// What the file system calls a file, where it is known.
#[derive(Debug, Clone, Copy, PartialEq, Eq)]
pub struct FileIdentity {
    pub volume_id: Option<u64>,
    pub file_id: Option<[u8; 16]>,
}

/// What the file system calls a file.
#[verifier::ext_equal]
pub struct FileIdentityView {
    pub volume_id: Option<u64>,
    pub file_id: Option<Seq<u8>>,
}

impl View for FileIdentity {
    type V = FileIdentityView;

    open spec fn view(&self) -> FileIdentityView {
        FileIdentityView {
            volume_id: self.volume_id,
            file_id: match self.file_id {
                Some(id) => Some(id@),
                None => None,
            },
        }
    }
}

fn same_bytes(a: &[u8; 16], b: &[u8; 16]) -> (r: bool)
    ensures
        r == (a@ == b@),
{
    let mut i: usize = 0;
    while i < 16
        invariant
            i <= 16,
            forall|k: int| 0 <= k < i ==> a@[k] == b@[k],
        decreases 16 - i,
    {
        if a[i] != b[i] {
            assert(a@[i as int] != b@[i as int]);
            return false;
        }
        i = i + 1;
    }
    assert(a@ =~= b@);
    true
}

impl FileIdentity {
    /// Whether two files go by the same name in the file system.
    pub fn same(&self, other: &FileIdentity) -> (r: bool)
        ensures
            r == (self@ == other@),
    {
        if self.volume_id != other.volume_id {
            return false;
        }
        match (&self.file_id, &other.file_id) {
            (None, None) => true,
            (Some(a), Some(b)) => same_bytes(a, b),
            _ => false,
        }
    }
}

/// What kind of file it is.
#[derive(Debug, Clone, Copy, PartialEq, Eq, Structural)]
pub enum FileKind {
    File,
    Directory,
    Symlink,
    Other,
}

/// A file of a set.
#[derive(Debug, Clone, PartialEq, Eq)]
pub struct FileRecord {
    pub path: String,
    pub identity: FileIdentity,
    pub kind: FileKind,
    pub size: u64,
    pub modified: Option<u64>,
    pub sha256: Option<String>,
}

/// What a record says.
#[verifier::ext_equal]
pub struct FileRecordView {
    pub path: Seq<char>,
    pub identity: FileIdentityView,
    pub kind: FileKind,
    pub size: u64,
    pub modified: Option<u64>,
    pub sha256: Option<Seq<char>>,
}

/// The contents of a string that may be absent.
pub open spec fn opt_text(s: Option<String>) -> Option<Seq<char>> {
    match s {
        Some(t) => Some(t@),
        None => None,
    }
}

impl View for FileRecord {
    type V = FileRecordView;

    open spec fn view(&self) -> FileRecordView {
        FileRecordView {
            path: self.path@,
            identity: self.identity@,
            kind: self.kind,
            size: self.size,
            modified: self.modified,
            sha256: opt_text(self.sha256),
        }
    }
}

/// What the records of a list say.
pub open spec fn record_views(list: Seq<FileRecord>) -> Seq<FileRecordView> {
    Seq::new(list.len(), |i: int| list[i]@)
}

/// Where a set comes from: the command that made it, and the paths that it
/// was searched below.
#[derive(Debug, Clone, PartialEq, Eq)]
pub struct FileSetProvenance {
    pub producer: String,
    pub roots: Vec<String>,
}

/// A set of files, with the columns that it shows as a table.
#[derive(Debug, Clone, PartialEq, Eq)]
pub struct FileSet {
    pub files: Vec<FileRecord>,
    pub provenance: FileSetProvenance,
    pub visible_columns: Vec<String>,
}

/// What a set holds.
#[verifier::ext_equal]
pub struct FileSetView {
    pub files: Seq<FileRecordView>,
    pub producer: Seq<char>,
    pub roots: Seq<Seq<char>>,
    pub columns: Seq<Seq<char>>,
}

impl View for FileSet {
    type V = FileSetView;

    open spec fn view(&self) -> FileSetView {
        FileSetView {
            files: record_views(self.files@),
            producer: self.provenance.producer@,
            roots: text::texts(self.provenance.roots@),
            columns: text::texts(self.visible_columns@),
        }
    }
}

/// The kind of file that the facts tell.
pub open spec fn kind_of(f: dialog::FileFacts) -> FileKind {
    if f.is_symlink {
        FileKind::Symlink
    } else if f.is_dir {
        FileKind::Directory
    } else if f.is_file {
        FileKind::File
    } else {
        FileKind::Other
    }
}

/// The cells of a record: its path, size, time of change, whether it is a
/// directory, and its hash where it has one.
pub open spec fn row_of(f: FileRecordView) -> table::RowView {
    let base = seq![
        ("path"@, f.path),
        ("size"@, text::nat_text(f.size as nat)),
        (
            "modified"@,
            match f.modified {
                Some(v) => text::nat_text(v as nat),
                None => Seq::empty(),
            },
        ),
        (
            "is_dir"@,
            if f.kind == FileKind::Directory {
                "true"@
            } else {
                "false"@
            },
        ),
    ];
    match f.sha256 {
        Some(hash) => base.push(("sha256"@, hash)),
        None => base,
    }
}

/// The record that the facts about a path make.
pub open spec fn record_of(
    path: Seq<char>,
    sha256: Option<Seq<char>>,
    f: dialog::FileFacts,
) -> FileRecordView {
    FileRecordView {
        path,
        identity: FileIdentityView { volume_id: None, file_id: None },
        kind: kind_of(f),
        size: f.size,
        modified: f.modified,
        sha256,
    }
}

/// Asks about a path and makes its record, or gives the message.
pub open spec fn inspected(path: Seq<char>, sha256: Option<Seq<char>>, t: TalkView) -> (
    Result<FileRecordView, Seq<char>>,
    TalkView,
) {
    let (a, t2) = dialog::asked(t, dialog::RequestView::Inspect(path));
    (
        match a {
            dialog::AnswerView::File(f) => Ok(record_of(path, sha256, f)),
            dialog::AnswerView::Failure(e) => Err(e),
            _ => Err(Seq::empty()),
        },
        t2,
    )
}

/// Copies a string that may be absent.
pub fn copy_opt(s: &Option<String>) -> (r: Option<String>)
    ensures
        opt_text(r) == opt_text(*s),
{
    match s {
        Some(t) => Some(t.clone()),
        None => None,
    }
}

/// Copies a list of records.
pub fn copy_records(list: &[FileRecord]) -> (r: Vec<FileRecord>)
    ensures
        record_views(r@) == record_views(list@),
{
    let mut out: Vec<FileRecord> = Vec::new();
    let mut i: usize = 0;
    while i < list.len()
        invariant
            i <= list@.len(),
            record_views(out@) == record_views(list@).take(i as int),
        decreases list@.len() - i,
    {
        let ghost before = out@;
        let f = list[i].copy();
        out.push(f);
        proof {
            assert(record_views(out@) =~= record_views(before).push(f@));
            assert(record_views(list@).take(i + 1) =~= record_views(list@).take(i as int).push(f@));
        }
        i = i + 1;
    }
    assert(record_views(list@).take(list@.len() as int) =~= record_views(list@));
    out
}

impl FileRecord {
    /// A copy of the record.
    pub fn copy(&self) -> (r: FileRecord)
        ensures
            r@ == self@,
    {
        FileRecord {
            path: self.path.clone(),
            identity: self.identity,
            kind: self.kind,
            size: self.size,
            modified: self.modified,
            sha256: copy_opt(&self.sha256),
        }
    }

    /// A copy of the record under another path.
    pub fn at(&self, path: &str) -> (r: FileRecord)
        ensures
            r@ == (FileRecordView { path: path@, ..self@ }),
    {
        FileRecord {
            path: path.to_owned(),
            identity: self.identity,
            kind: self.kind,
            size: self.size,
            modified: self.modified,
            sha256: copy_opt(&self.sha256),
        }
    }

    /// Makes the record of a path out of what the file system says of it.
    pub fn from_path(path: String, sha256: Option<String>, talk: &mut Talk) -> (r: Result<
        FileRecord,
        String,
    >)
        ensures
            (match r {
                Ok(f) => Ok(f@),
                Err(e) => Err(e@),
            }, final(talk)@) == inspected(path@, opt_text(sha256), old(talk)@),
    {
        match talk.ask(Request::Inspect(path.clone())) {
            Answer::File(f) => {
                let kind = if f.is_symlink {
                    FileKind::Symlink
                } else if f.is_dir {
                    FileKind::Directory
                } else if f.is_file {
                    FileKind::File
                } else {
                    FileKind::Other
                };
                let r = FileRecord {
                    path,
                    identity: FileIdentity { volume_id: None, file_id: None },
                    kind,
                    size: f.size,
                    modified: f.modified,
                    sha256,
                };
                assert(r@ =~= record_of(path@, opt_text(sha256), f));
                Ok(r)
            },
            Answer::Failure(e) => Err(e),
            _ => Err(String::new()),
        }
    }

    /// The cells of the record.
    pub fn to_row(&self) -> (r: Row)
        ensures
            table::row_view(r@) == row_of(self@),
    {
        let modified = match self.modified {
            Some(v) => u64_text(v),
            None => String::new(),
        };
        let is_dir: String = if self.kind == FileKind::Directory {
            "true".to_owned()
        } else {
            "false".to_owned()
        };
        let mut row: Row = vec![
            ("path".to_owned(), self.path.clone()),
            ("size".to_owned(), u64_text(self.size)),
            ("modified".to_owned(), modified),
            ("is_dir".to_owned(), is_dir),
        ];
        if let Some(hash) = &self.sha256 {
            row.push(("sha256".to_owned(), hash.clone()));
        }
        assert(table::row_view(row@) =~= row_of(self@));
        row
    }
}

/// The columns that a set shows at first.
pub open spec fn first_columns(files: Seq<FileRecordView>) -> Seq<Seq<char>> {
    let base = seq!["path"@, "size"@, "modified"@, "is_dir"@];
    if exists|i: int| 0 <= i < files.len() && (#[trigger] files[i]).sha256 is Some {
        base.push("sha256"@)
    } else {
        base
    }
}

/// The cells of `row` whose names are among `columns`, up to cell `n`.
pub open spec fn shown_cells(row: table::RowView, columns: Seq<Seq<char>>, n: int) -> table::RowView
    decreases n,
{
    if n <= 0 {
        Seq::empty()
    } else {
        let before = shown_cells(row, columns, n - 1);
        if columns.contains(row[n - 1].0) {
            before.push(row[n - 1])
        } else {
            before
        }
    }
}

/// The table that a set shows: one row for each file, with the visible
/// columns.
pub open spec fn table_of(set: FileSetView) -> Seq<table::RowView> {
    Seq::new(
        set.files.len(),
        |i: int|
            {
                let row = row_of(set.files[i]);
                shown_cells(row, set.columns, row.len() as int)
            },
    )
}

/// The first `n` files whose row passes the comparison.
pub open spec fn files_passing(
    files: Seq<FileRecordView>,
    n: int,
    column: Seq<char>,
    op: Seq<char>,
    value: Seq<char>,
    t: TalkView,
) -> (Seq<FileRecordView>, TalkView)
    decreases n,
{
    if n <= 0 {
        (Seq::empty(), t)
    } else {
        let (kept, t1) = files_passing(files, n - 1, column, op, value, t);
        let (pass, t2) = table::row_passes(row_of(files[n - 1]), column, op, value, t1);
        (
            if pass {
                kept.push(files[n - 1])
            } else {
                kept
            },
            t2,
        )
    }
}

impl FileSet {
    /// A copy of the set.
    pub fn copy(&self) -> (r: FileSet)
        ensures
            r@ == self@,
    {
        FileSet {
            files: copy_records(&self.files),
            provenance: FileSetProvenance {
                producer: self.provenance.producer.clone(),
                roots: copy_texts(&self.provenance.roots),
            },
            visible_columns: copy_texts(&self.visible_columns),
        }
    }

    /// A set of files without roots, showing its usual columns.
    pub fn new(files: Vec<FileRecord>, producer: &str) -> (r: FileSet)
        ensures
            r@ == (FileSetView {
                files: record_views(files@),
                producer: producer@,
                roots: Seq::empty(),
                columns: first_columns(record_views(files@)),
            }),
            r.files == files,
            r.provenance.producer@ == producer@,
    {
        let mut visible_columns: Vec<String> = vec![
            "path".to_owned(),
            "size".to_owned(),
            "modified".to_owned(),
            "is_dir".to_owned(),
        ];
        assert(text::texts(visible_columns@) =~= seq!["path"@, "size"@, "modified"@, "is_dir"@]);
        let ghost base = visible_columns@;
        let mut hashed = false;
        let mut i: usize = 0;
        let ghost views = record_views(files@);
        while i < files.len()
            invariant
                i <= files@.len(),
                views == record_views(files@),
                hashed == exists|k: int| 0 <= k < i && (#[trigger] views[k]).sha256 is Some,
            decreases files@.len() - i,
        {
            if files[i].sha256.is_some() {
                assert(views[i as int].sha256 is Some);
                hashed = true;
            }
            i = i + 1;
        }
        if hashed {
            let name = "sha256".to_owned();
            proof {
                text::lemma_texts_push(visible_columns@, name);
            }
            visible_columns.push(name);
        }
        let r = FileSet {
            files,
            provenance: FileSetProvenance { producer: producer.to_owned(), roots: Vec::new() },
            visible_columns,
        };
        assert(r@.roots =~= Seq::<Seq<char>>::empty());
        assert(r@.columns =~= first_columns(views));
        r
    }

    /// The set with the paths that it was searched below.
    pub fn with_roots(self, roots: Vec<String>) -> (r: FileSet)
        ensures
            r@ == (FileSetView { roots: text::texts(roots@), ..self@ }),
            r.files == self.files,
            r.provenance.producer == self.provenance.producer,
            r.provenance.roots == roots,
    {
        FileSet {
            files: self.files,
            provenance: FileSetProvenance { producer: self.provenance.producer, roots },
            visible_columns: self.visible_columns,
        }
    }

    /// The set as a table of its visible columns.
    pub fn to_table(&self) -> (r: Table)
        ensures
            r@ == table_of(self@),
    {
        let ghost want = table_of(self@);
        let mut rows: Vec<Row> = Vec::new();
        let mut i: usize = 0;
        assert(table::row_views(rows@) =~= want.take(0));
        while i < self.files.len()
            invariant
                i <= self.files@.len(),
                want == table_of(self@),
                table::row_views(rows@) == want.take(i as int),
            decreases self.files@.len() - i,
        {
            let all = self.files[i].to_row();
            let ghost whole = table::row_view(all@);
            let mut row: Row = Vec::new();
            let mut j: usize = 0;
            assert(table::row_view(row@) =~= Seq::<(Seq<char>, Seq<char>)>::empty());
            while j < all.len()
                invariant
                    j <= all@.len(),
                    whole == table::row_view(all@),
                    table::row_view(row@) == shown_cells(whole, self@.columns, j as int),
                decreases all@.len() - j,
            {
                if holds_text(&self.visible_columns, all[j].0.as_str()) {
                    let ghost before = row@;
                    let cell = (all[j].0.clone(), all[j].1.clone());
                    row.push(cell);
                    assert(table::row_view(row@) =~= table::row_view(before).push(
                        (cell.0@, cell.1@),
                    ));
                }
                j = j + 1;
            }
            let ghost before = rows@;
            rows.push(row);
            proof {
                assert(want[i as int] == table::row_view(row@));
                assert(table::row_views(rows@) =~= table::row_views(before).push(want[i as int]));
                assert(want.take(i + 1) =~= want.take(i as int).push(want[i as int]));
            }
            i = i + 1;
        }
        assert(want.take(self.files@.len() as int) =~= want);
        Table { rows }
    }

    /// The set with other visible columns; the records stay as they are.
    pub fn select(self, columns: &[String]) -> (r: FileSet)
        ensures
            r@ == (FileSetView { columns: text::texts(columns@), ..self@ }),
            r.files == self.files,
            r.provenance == self.provenance,
    {
        FileSet {
            files: self.files,
            provenance: self.provenance,
            visible_columns: copy_texts(columns),
        }
    }

    /// The files whose row passes the comparison.
    pub fn filter(self, column: &str, op: &str, value: &str, talk: &mut Talk) -> (r: FileSet)
        ensures
            ({
                let (kept, t) = files_passing(
                    self@.files,
                    self@.files.len() as int,
                    column@,
                    op@,
                    value@,
                    old(talk)@,
                );
                r@ == (FileSetView { files: kept, ..self@ }) && final(talk)@ == t
            }),
    {
        let ghost files = self@.files;
        let ghost was = self@;
        let mut kept: Vec<FileRecord> = Vec::new();
        let mut left = self.files;
        let ghost start = talk@;
        let ghost mut n: int = 0;
        assert(record_views(kept@) =~= Seq::<FileRecordView>::empty());
        assert(record_views(left@) =~= files.skip(0));
        while left.len() > 0
            invariant
                0 <= n <= files.len(),
                record_views(left@) == files.skip(n),
                left@.len() == files.len() - n,
                (record_views(kept@), talk@) == files_passing(
                    files,
                    n,
                    column@,
                    op@,
                    value@,
                    start,
                ),
            decreases left@.len(),
        {
            let ghost before = left@;
            let ghost had = kept@;
            let file = left.remove(0);
            proof {
                assert(record_views(before)[0] == file@);
                assert(files[n] == file@);
                assert(record_views(left@) =~= record_views(before).skip(1));
                assert(files.skip(n).skip(1) =~= files.skip(n + 1));
            }
            let row = file.to_row();
            if passes(&row, column, op, value, talk) {
                kept.push(file);
                assert(record_views(kept@) =~= record_views(had).push(file@));
            }
            proof {
                n = n + 1;
            }
        }
        let r = FileSet {
            files: kept,
            provenance: self.provenance,
            visible_columns: self.visible_columns,
        };
        assert(r@ =~= FileSetView { files: record_views(kept@), ..was });
        r
    }

    /// The number of files.
    pub fn len(&self) -> (r: usize)
        ensures
            r == self@.files.len(),
    {
        self.files.len()
    }
}

/// Choosing columns discards nothing of the records: with the usual columns
/// back, the set is what it was.
pub proof fn law_selection_discards_no_record(set: FileSetView, columns: Seq<Seq<char>>)
    ensures
        ({
            let narrowed = FileSetView { columns, ..set };
            &&& narrowed.files == set.files
            &&& table_of(narrowed).len() == table_of(set).len()
            &&& (FileSetView { columns: set.columns, ..narrowed }) == set
        }),
{
}

/// The cells of a file: its path, its size and its time of change in decimal,
/// whether it is a directory, and its hash where it has one. No other cell is
/// shown.
pub proof fn law_cells_tell_the_record(f: FileRecordView)
    ensures
        ({
            let row = row_of(f);
            &&& table::cell_from(row, "path"@, 0) == Some(f.path)
            &&& table::cell_from(row, "size"@, 0) == Some(text::int_text(f.size as int))
            &&& f.modified matches Some(m) ==> table::cell_from(row, "modified"@, 0) == Some(
                text::int_text(m as int),
            )
            &&& f.modified is None ==> table::cell_from(row, "modified"@, 0) == Some(
                Seq::<char>::empty(),
            )
            &&& table::cell_from(row, "is_dir"@, 0) == Some(
                if f.kind == FileKind::Directory {
                    "true"@
                } else {
                    "false"@
                },
            )
            &&& table::cell_from(row, "sha256"@, 0) == f.sha256
            &&& row.len() == if f.sha256 is Some {
                5
            } else {
                4int
            }
        }),
{
    reveal_strlit("path");
    reveal_strlit("size");
    reveal_strlit("modified");
    reveal_strlit("is_dir");
    reveal_strlit("sha256");
    assert("path"@.len() == 4 && "size"@.len() == 4 && "modified"@.len() == 8);
    assert("is_dir"@.len() == 6 && "sha256"@.len() == 6);
    assert("path"@[0] == 'p' && "size"@[0] == 's' && "is_dir"@[0] == 'i' && "sha256"@[0] == 's');
    let row = row_of(f);
    assert(row[0].0 == "path"@ && row[1].0 == "size"@);
    assert(row[2].0 == "modified"@ && row[3].0 == "is_dir"@);
    table::law_first_cell_counts(row, "path"@, 0);
    table::law_first_cell_counts(row, "size"@, 1);
    table::law_first_cell_counts(row, "modified"@, 2);
    table::law_first_cell_counts(row, "is_dir"@, 3);
    if f.sha256 is Some {
        assert(row[4].0 == "sha256"@);
    }
    table::law_first_cell_counts(row, "sha256"@, 4);
}

/// A comparison keeps exactly the files that have a cell under the column of
/// which `test` says that it stands so to the value, in their order; the
/// questions about a file follow those about the files before.
pub proof fn law_filter_keeps_what_passes(
    files: Seq<FileRecordView>,
    n: int,
    column: Seq<char>,
    op: Seq<char>,
    value: Seq<char>,
    t: TalkView,
)
    requires
        0 <= n <= files.len(),
    ensures
        files_passing(files, n, column, op, value, t).0 == table::chosen(
            files.take(n),
            |k: int|
                table::cell_from(row_of(files[k]), column, 0) matches Some(cell)
                    && crate::builtins::tested(
                    seq![cell, op, value],
                    files_passing(files, k, column, op, value, t).1,
                ).0,
        ),
        n < files.len() ==> files_passing(files, n + 1, column, op, value, t).1 == (
        match table::cell_from(row_of(files[n]), column, 0) {
            Some(cell) => crate::builtins::tested(
                seq![cell, op, value],
                files_passing(files, n, column, op, value, t).1,
            ).1,
            None => files_passing(files, n, column, op, value, t).1,
        }),
    decreases n,
{
    if n > 0 {
        law_filter_keeps_what_passes(files, n - 1, column, op, value, t);
        assert(files.take(n).drop_last() =~= files.take(n - 1));
    } else {
        assert(files.take(n) =~= Seq::<FileRecordView>::empty());
    }
}

/// A file is among those that are kept exactly if it is among the files and
/// its cell passes: every file that is kept passes, every one that is left out
/// does not, and the order stays.
pub proof fn law_kept_files_pass(
    files: Seq<FileRecordView>,
    column: Seq<char>,
    op: Seq<char>,
    value: Seq<char>,
    t: TalkView,
) -> (at: Seq<int>)
    ensures
        ({
            let kept = files_passing(files, files.len() as int, column, op, value, t).0;
            let passes = |k: int|
                table::cell_from(row_of(files[k]), column, 0) matches Some(cell)
                    && crate::builtins::tested(
                    seq![cell, op, value],
                    files_passing(files, k, column, op, value, t).1,
                ).0;
            &&& at.len() == kept.len()
            &&& forall|j: int|
                0 <= j < at.len() ==> 0 <= #[trigger] at[j] < files.len() && passes(at[j]) && kept[j]
                    == files[at[j]]
            &&& forall|j: int, k: int| 0 <= j < k < at.len() ==> #[trigger] at[j] < #[trigger] at[k]
            &&& forall|k: int| 0 <= k < files.len() && !at.contains(k) ==> !#[trigger] passes(k)
        }),
{
    let passes = |k: int|
        table::cell_from(row_of(files[k]), column, 0) matches Some(cell) && crate::builtins::tested(
            seq![cell, op, value],
            files_passing(files, k, column, op, value, t).1,
        ).0;
    law_filter_keeps_what_passes(files, files.len() as int, column, op, value, t);
    assert(files.take(files.len() as int) =~= files);
    let at = table::lemma_chosen(files, passes);
    at
}

/// The files whose size stands to a number as `-lt`, `-eq` or `-gt` says are
/// kept and no others, where sizes and number are read as those numbers: the
/// files of a set are divided among the three.
pub proof fn law_sizes_are_compared(f: FileRecordView, value: Seq<char>, t: TalkView)
    requires
        crate::builtins::read_numbers(text::int_text(f.size as int), value, t) matches Some((m, n))
            && !crate::builtins::is_nan(m) && !crate::builtins::is_nan(n),
    ensures
        ({
            let one = seq![f];
            let less = files_passing(one, 1, "size"@, "-lt"@, value, t).0;
            let equal = files_passing(one, 1, "size"@, "-eq"@, value, t).0;
            let greater = files_passing(one, 1, "size"@, "-gt"@, value, t).0;
            let none = Seq::<FileRecordView>::empty();
            let (m, n) = crate::builtins::read_numbers(
                text::int_text(f.size as int),
                value,
                t,
            )->0;
            &&& crate::builtins::rank(m) < crate::builtins::rank(n) ==> less == one && equal == none
                && greater == none
            &&& crate::builtins::rank(m) == crate::builtins::rank(n) ==> less == none && equal == one
                && greater == none
            &&& crate::builtins::rank(m) > crate::builtins::rank(n) ==> less == none && equal == none
                && greater == one
        }),
{
    law_cells_tell_the_record(f);
    let one = seq![f];
    law_filter_keeps_what_passes(one, 1, "size"@, "-lt"@, value, t);
    law_filter_keeps_what_passes(one, 1, "size"@, "-eq"@, value, t);
    law_filter_keeps_what_passes(one, 1, "size"@, "-gt"@, value, t);
    crate::builtins::law_numbers_go_by_rank(text::int_text(f.size as int), value, t);
    assert(one.take(1) =~= one);
    assert(one.drop_last() =~= Seq::<FileRecordView>::empty());
    assert(Seq::<FileRecordView>::empty().push(f) =~= one);
    reveal_with_fuel(table::chosen, 2);
}

/// The table of a set has one row for each file, in order, and in it those of
/// the file's cells whose columns are visible, in their order.
pub proof fn law_table_shows_visible_cells(set: FileSetView, i: int)
    requires
        0 <= i < set.files.len(),
    ensures
        table_of(set).len() == set.files.len(),
        table_of(set)[i] == table::chosen(
            row_of(set.files[i]),
            |k: int| set.columns.contains(row_of(set.files[i])[k].0),
        ),
{
    let row = row_of(set.files[i]);
    lemma_shown_cells(row, set.columns, row.len() as int);
    assert(row.take(row.len() as int) =~= row);
}

proof fn lemma_shown_cells(row: table::RowView, columns: Seq<Seq<char>>, n: int)
    requires
        0 <= n <= row.len(),
    ensures
        shown_cells(row, columns, n) == table::chosen(
            row.take(n),
            |k: int| columns.contains(row[k].0),
        ),
    decreases n,
{
    if n > 0 {
        lemma_shown_cells(row, columns, n - 1);
        assert(row.take(n).drop_last() =~= row.take(n - 1));
    } else {
        assert(row.take(n) =~= Seq::<(Seq<char>, Seq<char>)>::empty());
    }
}

/// What the facts about a path say goes into its record: a link is a link
/// whatever it leads to, else a directory or a file or neither.
pub proof fn law_record_tells_the_facts(path: Seq<char>, t: TalkView, f: dialog::FileFacts)
    requires
        dialog::asked(t, dialog::RequestView::Inspect(path)).0 == dialog::AnswerView::File(f),
    ensures
        inspected(path, None, t).0 matches Ok(r) && r.path == path && r.size == f.size && r.modified
            == f.modified && r.sha256 is None && (f.is_symlink ==> r.kind == FileKind::Symlink) && (
        !f.is_symlink && f.is_dir ==> r.kind == FileKind::Directory) && (!f.is_symlink && !f.is_dir
            && f.is_file ==> r.kind == FileKind::File) && (!f.is_symlink && !f.is_dir && !f.is_file
            ==> r.kind == FileKind::Other),
        inspected(path, None, t).1 == dialog::asked(t, dialog::RequestView::Inspect(path)).1,
{
}

} // verus!
