//! Tables: the rows that structured pipeline stages hand on.

use crate::builtins;
use crate::builtins::eval_binary;
use crate::dialog::{Talk, TalkView};
use crate::text;
use crate::text::same;
use vstd::prelude::*;

verus! {

/// The named cells of a row, in order.
pub type Row = Vec<(String, String)>;

/// What a row holds.
pub type RowView = Seq<(Seq<char>, Seq<char>)>;

/// What the cells of a row hold.
pub open spec fn row_view(row: Seq<(String, String)>) -> RowView {
    Seq::new(row.len(), |i: int| (row[i].0@, row[i].1@))
}

/// What the rows of a list hold.
pub open spec fn row_views(rows: Seq<Row>) -> Seq<RowView> {
    Seq::new(rows.len(), |i: int| row_view(rows[i]@))
}

/// A list of rows.
#[derive(Debug, Clone, PartialEq, Eq)]
pub struct Table {
    pub rows: Vec<Row>,
}

fn copy_row(row: &Row) -> (r: Row)
    ensures
        row_view(r@) == row_view(row@),
{
    let mut out: Row = Vec::new();
    let mut i: usize = 0;
    while i < row.len()
        invariant
            i <= row@.len(),
            row_view(out@) == row_view(row@).take(i as int),
        decreases row@.len() - i,
    {
        let ghost before = out@;
        let cell = (row[i].0.clone(), row[i].1.clone());
        out.push(cell);
        proof {
            assert(row_view(out@) =~= row_view(before).push((cell.0@, cell.1@)));
            assert(row_view(row@).take(i + 1) =~= row_view(row@).take(i as int).push(
                (cell.0@, cell.1@),
            ));
        }
        i = i + 1;
    }
    assert(row_view(row@).take(row@.len() as int) =~= row_view(row@));
    out
}

impl Table {
    /// A copy of the table.
    pub fn copy(&self) -> (r: Table)
        ensures
            r@ == self@,
    {
        let mut rows: Vec<Row> = Vec::new();
        let mut i: usize = 0;
        while i < self.rows.len()
            invariant
                i <= self.rows@.len(),
                row_views(rows@) == row_views(self.rows@).take(i as int),
            decreases self.rows@.len() - i,
        {
            let ghost before = rows@;
            let row = copy_row(&self.rows[i]);
            rows.push(row);
            proof {
                assert(row_views(rows@) =~= row_views(before).push(row_view(row@)));
                assert(row_views(self.rows@).take(i + 1) =~= row_views(self.rows@).take(
                    i as int,
                ).push(row_view(row@)));
            }
            i = i + 1;
        }
        assert(row_views(self.rows@).take(self.rows@.len() as int) =~= row_views(self.rows@));
        Table { rows }
    }
}

impl View for Table {
    type V = Seq<RowView>;

    open spec fn view(&self) -> Seq<RowView> {
        row_views(self.rows@)
    }
}

/// The cell of `row` under `column`, from cell `i` on: the first of that name.
pub open spec fn cell_from(row: RowView, column: Seq<char>, i: int) -> Option<Seq<char>>
    decreases row.len() - i,
{
    if i < 0 || i >= row.len() {
        None
    } else if row[i].0 == column {
        Some(row[i].1)
    } else {
        cell_from(row, column, i + 1)
    }
}

/// Whether a row has a cell under `column` and that cell passes the
/// comparison.
pub open spec fn row_passes(
    row: RowView,
    column: Seq<char>,
    op: Seq<char>,
    value: Seq<char>,
    t: TalkView,
) -> (bool, TalkView) {
    match cell_from(row, column, 0) {
        Some(cell) => builtins::compared(cell, op, value, t),
        None => (false, t),
    }
}

/// The first `n` rows that pass the comparison.
pub open spec fn rows_passing(
    rows: Seq<RowView>,
    n: int,
    column: Seq<char>,
    op: Seq<char>,
    value: Seq<char>,
    t: TalkView,
) -> (Seq<RowView>, TalkView)
    decreases n,
{
    if n <= 0 {
        (Seq::empty(), t)
    } else {
        let (kept, t1) = rows_passing(rows, n - 1, column, op, value, t);
        let (pass, t2) = row_passes(rows[n - 1], column, op, value, t1);
        (
            if pass {
                kept.push(rows[n - 1])
            } else {
                kept
            },
            t2,
        )
    }
}

/// Finds the cell of a row under a column.
pub fn cell<'a>(row: &'a Row, column: &str) -> (r: Option<&'a String>)
    ensures
        match r {
            Some(c) => cell_from(row_view(row@), column@, 0) == Some(c@),
            None => cell_from(row_view(row@), column@, 0) is None,
        },
{
    let mut i: usize = 0;
    while i < row.len()
        invariant
            i <= row@.len(),
            cell_from(row_view(row@), column@, 0) == cell_from(row_view(row@), column@, i as int),
        decreases row@.len() - i,
    {
        if same(row[i].0.as_str(), column) {
            return Some(&row[i].1);
        }
        i = i + 1;
    }
    None
}

/// Tests a row against a comparison.
pub fn passes(row: &Row, column: &str, op: &str, value: &str, talk: &mut Talk) -> (r: bool)
    ensures
        (r, final(talk)@) == row_passes(row_view(row@), column@, op@, value@, old(talk)@),
{
    match cell(row, column) {
        Some(c) => eval_binary(c.as_str(), op, value, talk),
        None => false,
    }
}

impl Table {
    /// Keeps the rows whose cell under `column` passes the comparison; a row
    /// without such a cell does not pass.
    pub fn filter(self, column: &str, op: &str, value: &str, talk: &mut Talk) -> (r: Table)
        ensures
            (r@, final(talk)@) == rows_passing(
                self@,
                self@.len() as int,
                column@,
                op@,
                value@,
                old(talk)@,
            ),
    {
        let ghost rows = self@;
        let mut kept: Vec<Row> = Vec::new();
        let mut left = self.rows;
        let ghost start = talk@;
        let ghost mut n: int = 0;
        assert(row_views(kept@) =~= Seq::<RowView>::empty());
        assert(row_views(left@) =~= rows.skip(0));
        while left.len() > 0
            invariant
                0 <= n <= rows.len(),
                row_views(left@) == rows.skip(n),
                left@.len() == rows.len() - n,
                (row_views(kept@), talk@) == rows_passing(rows, n, column@, op@, value@, start),
            decreases left@.len(),
        {
            let ghost before = left@;
            let ghost was = kept@;
            let row = left.remove(0);
            proof {
                assert(row_views(before)[0] == row_view(row@));
                assert(rows[n] == row_view(row@));
                assert(row_views(left@) =~= row_views(before).skip(1));
                assert(rows.skip(n).skip(1) =~= rows.skip(n + 1));
            }
            let pass = passes(&row, column, op, value, talk);
            if pass {
                kept.push(row);
                assert(row_views(kept@) =~= row_views(was).push(row_view(row@)));
            }
            proof {
                n = n + 1;
            }
        }
        Table { rows: kept }
    }
}

/// A comparison on a table keeps some of its rows, in their order, and changes
/// none.
pub proof fn law_filter_keeps_rows(
    rows: Seq<RowView>,
    n: int,
    column: Seq<char>,
    op: Seq<char>,
    value: Seq<char>,
    t: TalkView,
)
    requires
        0 <= n <= rows.len(),
    ensures
        rows_passing(rows, n, column, op, value, t).0.len() <= n,
        forall|k: int|
            0 <= k < rows_passing(rows, n, column, op, value, t).0.len() ==> rows.contains(
                #[trigger] rows_passing(rows, n, column, op, value, t).0[k],
            ),
    decreases n,
{
    if n > 0 {
        law_filter_keeps_rows(rows, n - 1, column, op, value, t);
    }
}

/// The items of a list at the places where something holds, in their order.
pub open spec fn chosen<T>(list: Seq<T>, holds: spec_fn(int) -> bool) -> Seq<T>
    decreases list.len(),
{
    if list.len() == 0 {
        Seq::empty()
    } else if holds(list.len() - 1) {
        chosen(list.drop_last(), holds).push(list.last())
    } else {
        chosen(list.drop_last(), holds)
    }
}

/// What is chosen of a list is what stands at the places where something
/// holds: each of them, no other, in the same order.
pub proof fn lemma_chosen<T>(list: Seq<T>, holds: spec_fn(int) -> bool) -> (at: Seq<int>)
    ensures
        at.len() == chosen(list, holds).len(),
        forall|j: int|
            0 <= j < at.len() ==> 0 <= #[trigger] at[j] < list.len() && holds(at[j]) && chosen(
                list,
                holds,
            )[j] == list[at[j]],
        forall|j: int, k: int| 0 <= j < k < at.len() ==> #[trigger] at[j] < #[trigger] at[k],
        forall|k: int| 0 <= k < list.len() && #[trigger] holds(k) ==> at.contains(k),
    decreases list.len(),
{
    if list.len() == 0 {
        Seq::empty()
    } else {
        let front = list.drop_last();
        let last = list.len() - 1;
        let before = lemma_chosen(front, holds);
        let at = if holds(last) {
            before.push(last)
        } else {
            before
        };
        assert forall|j: int| 0 <= j < at.len() implies 0 <= #[trigger] at[j] < list.len() && holds(
            at[j],
        ) && chosen(list, holds)[j] == list[at[j]] by {
            if j < before.len() {
                assert(at[j] == before[j]);
                assert(front[before[j]] == list[before[j]]);
            }
        }
        assert forall|j: int, k: int| 0 <= j < k < at.len() implies #[trigger] at[j]
            < #[trigger] at[k] by {
            assert(at[j] == before[j]);
            if k < before.len() {
                assert(at[k] == before[k]);
            }
        }
        assert forall|k: int| 0 <= k < list.len() && #[trigger] holds(k) implies at.contains(k) by {
            if k < last {
                let j = choose|j: int| 0 <= j < before.len() && before[j] == k;
                assert(at[j] == k);
            } else {
                assert(at[at.len() - 1] == k);
            }
        }
        at
    }
}

/// The cell under a column is that of the first place with the column's name,
/// and there is none where no place has it.
pub proof fn law_first_cell_counts(row: RowView, column: Seq<char>, k: int)
    ensures
        (0 <= k < row.len() && row[k].0 == column && forall|j: int|
            0 <= j < k ==> (#[trigger] row[j]).0 != column) ==> cell_from(row, column, 0) == Some(
            row[k].1,
        ),
        (forall|j: int| 0 <= j < row.len() ==> (#[trigger] row[j]).0 != column) ==> cell_from(
            row,
            column,
            0,
        ) is None,
{
    if 0 <= k < row.len() && row[k].0 == column && forall|j: int|
        0 <= j < k ==> (#[trigger] row[j]).0 != column {
        lemma_cell_is_first(row, column, 0, k);
    }
    if forall|j: int| 0 <= j < row.len() ==> (#[trigger] row[j]).0 != column {
        lemma_no_cell(row, column, 0);
    }
}

proof fn lemma_cell_is_first(row: RowView, column: Seq<char>, i: int, k: int)
    requires
        0 <= i <= k < row.len(),
        row[k].0 == column,
        forall|j: int| i <= j < k ==> (#[trigger] row[j]).0 != column,
    ensures
        cell_from(row, column, i) == Some(row[k].1),
    decreases k - i,
{
    if i < k {
        lemma_cell_is_first(row, column, i + 1, k);
    }
}

proof fn lemma_no_cell(row: RowView, column: Seq<char>, i: int)
    requires
        0 <= i,
        forall|j: int| i <= j < row.len() ==> (#[trigger] row[j]).0 != column,
    ensures
        cell_from(row, column, i) is None,
    decreases row.len() - i,
{
    if i < row.len() {
        lemma_no_cell(row, column, i + 1);
    }
}

/// A comparison keeps exactly the rows that have a cell under the column of
/// which `test` says that it stands so to the value, in their order; the
/// questions about a row follow those about the rows before.
pub proof fn law_filter_keeps_what_passes(
    rows: Seq<RowView>,
    n: int,
    column: Seq<char>,
    op: Seq<char>,
    value: Seq<char>,
    t: TalkView,
)
    requires
        0 <= n <= rows.len(),
    ensures
        rows_passing(rows, n, column, op, value, t).0 == chosen(
            rows.take(n),
            |k: int|
                cell_from(rows[k], column, 0) matches Some(cell) && builtins::tested(
                    seq![cell, op, value],
                    rows_passing(rows, k, column, op, value, t).1,
                ).0,
        ),
        n < rows.len() ==> rows_passing(rows, n + 1, column, op, value, t).1 == (match cell_from(
            rows[n],
            column,
            0,
        ) {
            Some(cell) => builtins::tested(
                seq![cell, op, value],
                rows_passing(rows, n, column, op, value, t).1,
            ).1,
            None => rows_passing(rows, n, column, op, value, t).1,
        }),
    decreases n,
{
    if n > 0 {
        law_filter_keeps_what_passes(rows, n - 1, column, op, value, t);
        assert(rows.take(n).drop_last() =~= rows.take(n - 1));
    } else {
        assert(rows.take(n) =~= Seq::<RowView>::empty());
    }
}

/// Where the comparison is of texts, the rows that are kept are those whose
/// cell is the value, or is another, and nothing is asked.
pub proof fn law_filter_by_text(
    rows: Seq<RowView>,
    n: int,
    column: Seq<char>,
    value: Seq<char>,
    t: TalkView,
)
    requires
        0 <= n <= rows.len(),
    ensures
        rows_passing(rows, n, column, "="@, value, t) == (
            chosen(rows.take(n), |k: int| cell_from(rows[k], column, 0) == Some(value)),
            t,
        ),
        rows_passing(rows, n, column, "!="@, value, t) == (
            chosen(
                rows.take(n),
                |k: int| cell_from(rows[k], column, 0) matches Some(cell) && cell != value,
            ),
            t,
        ),
    decreases n,
{
    if n > 0 {
        law_filter_by_text(rows, n - 1, column, value, t);
        assert(rows.take(n).drop_last() =~= rows.take(n - 1));
        if let Some(cell) = cell_from(rows[n - 1], column, 0) {
            builtins::law_texts_are_compared_as_written(cell, value, t);
        }
    } else {
        assert(rows.take(n) =~= Seq::<RowView>::empty());
    }
}

} // verus!
