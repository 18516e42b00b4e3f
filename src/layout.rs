//! Which rows and columns of a large table are shown, and where the markers
//! for the elided ones go. Rendering the cells is left to the presenter.
use vstd::prelude::*;

verus! {

/// Tables with more rows than this (header included) are elided.
pub const ROWS_LIM: usize = 30;

/// Tables with more columns than this are elided.
pub const COLS_LIM: usize = 7;

/// Rows shown at each end of an elided table.
pub const EDGE_ROWS: usize = 5;

/// Columns shown at each side of an elided table.
pub const EDGE_COLS: usize = 3;

/// One line of the body of a rendered table.
#[derive(Clone, Copy, Debug, PartialEq, Eq)]
pub enum RowSlot {
    /// The table's row at this index.
    Row(usize),
    /// A marker row standing for this many rows left out.
    Elided(usize),
}

/// One cell position of a rendered row.
#[derive(Clone, Copy, Debug, PartialEq, Eq)]
pub enum ColSlot {
    /// The row's cell at this column index.
    Col(usize),
    /// A marker cell standing for this many columns left out.
    Elided(usize),
}

/// The body lines of a table of `rows_len` rows, the first of which is a
/// header when `header` holds: every body row when there are at most
/// `ROWS_LIM` rows, else the first and the last `EDGE_ROWS` body rows around
/// one marker that counts the rest.
pub open spec fn row_plan_of(rows_len: nat, header: bool) -> Seq<RowSlot> {
    let h: nat = if header && rows_len > 0 {
        1
    } else {
        0
    };
    if rows_len <= ROWS_LIM {
        Seq::new((rows_len - h) as nat, |i: int| RowSlot::Row((h + i) as usize))
    } else {
        Seq::new(
            11,
            |i: int|
                if i < 5 {
                    RowSlot::Row((h + i) as usize)
                } else if i == 5 {
                    RowSlot::Elided((rows_len - h - 10) as usize)
                } else {
                    RowSlot::Row((rows_len - 11 + i) as usize)
                },
        )
    }
}

/// The cell positions of a row of a table of `cols_len` columns: every column
/// when there are at most `COLS_LIM`, else the first and last `EDGE_COLS`
/// around one marker that counts the rest.
pub open spec fn col_plan_of(cols_len: nat) -> Seq<ColSlot> {
    if cols_len <= COLS_LIM {
        Seq::new(cols_len, |i: int| ColSlot::Col(i as usize))
    } else {
        Seq::new(
            7,
            |i: int|
                if i < 3 {
                    ColSlot::Col(i as usize)
                } else if i == 3 {
                    ColSlot::Elided((cols_len - 6) as usize)
                } else {
                    ColSlot::Col((cols_len - 7 + i) as usize)
                },
        )
    }
}

/// The body lines to render for a table of `rows_len` rows; with `header`, row
/// 0 is the header and is rendered apart.
pub fn row_plan(rows_len: usize, header: bool) -> (r: Vec<RowSlot>)
    ensures
        r@ == row_plan_of(rows_len as nat, header),
{
    let h: usize = if header && rows_len > 0 {
        1
    } else {
        0
    };
    let ghost want = row_plan_of(rows_len as nat, header);
    let mut r: Vec<RowSlot> = Vec::new();
    if rows_len <= ROWS_LIM {
        let mut i: usize = h;
        while i < rows_len
            invariant
                h <= i <= rows_len,
                rows_len <= ROWS_LIM,
                want == row_plan_of(rows_len as nat, header),
                h == (if header && rows_len > 0 { 1usize } else { 0usize }),
                want.len() == rows_len - h,
                r@.len() == i - h,
                forall|t: int| 0 <= t < r@.len() ==> #[trigger] r@[t] == want[t],
            decreases rows_len - i,
        {
            r.push(RowSlot::Row(i));
            i = i + 1;
        }
    } else {
        let mut i: usize = 0;
        while i < EDGE_ROWS
            invariant
                i <= EDGE_ROWS,
                rows_len > ROWS_LIM,
                want == row_plan_of(rows_len as nat, header),
                h == (if header && rows_len > 0 { 1usize } else { 0usize }),
                want.len() == 11,
                r@.len() == i,
                forall|t: int| 0 <= t < r@.len() ==> #[trigger] r@[t] == want[t],
            decreases EDGE_ROWS - i,
        {
            r.push(RowSlot::Row(h + i));
            i = i + 1;
        }
        r.push(RowSlot::Elided(rows_len - h - 2 * EDGE_ROWS));
        let mut i: usize = rows_len - EDGE_ROWS;
        while i < rows_len
            invariant
                rows_len - EDGE_ROWS <= i <= rows_len,
                rows_len > ROWS_LIM,
                want == row_plan_of(rows_len as nat, header),
                h == (if header && rows_len > 0 { 1usize } else { 0usize }),
                want.len() == 11,
                r@.len() == i - rows_len + 11,
                forall|t: int| 0 <= t < r@.len() ==> #[trigger] r@[t] == want[t],
            decreases rows_len - i,
        {
            r.push(RowSlot::Row(i));
            i = i + 1;
        }
    }
    assert(r@ =~= want);
    r
}

/// The cell positions to render in each row of a table of `cols_len` columns.
pub fn col_plan(cols_len: usize) -> (r: Vec<ColSlot>)
    ensures
        r@ == col_plan_of(cols_len as nat),
{
    let ghost want = col_plan_of(cols_len as nat);
    let mut r: Vec<ColSlot> = Vec::new();
    if cols_len <= COLS_LIM {
        let mut i: usize = 0;
        while i < cols_len
            invariant
                i <= cols_len,
                cols_len <= COLS_LIM,
                want == col_plan_of(cols_len as nat),
                want.len() == cols_len,
                r@.len() == i,
                forall|t: int| 0 <= t < r@.len() ==> #[trigger] r@[t] == want[t],
            decreases cols_len - i,
        {
            r.push(ColSlot::Col(i));
            i = i + 1;
        }
    } else {
        let mut i: usize = 0;
        while i < EDGE_COLS
            invariant
                i <= EDGE_COLS,
                cols_len > COLS_LIM,
                want == col_plan_of(cols_len as nat),
                want.len() == 7,
                r@.len() == i,
                forall|t: int| 0 <= t < r@.len() ==> #[trigger] r@[t] == want[t],
            decreases EDGE_COLS - i,
        {
            r.push(ColSlot::Col(i));
            i = i + 1;
        }
        r.push(ColSlot::Elided(cols_len - 2 * EDGE_COLS));
        let mut i: usize = cols_len - EDGE_COLS;
        while i < cols_len
            invariant
                cols_len - EDGE_COLS <= i <= cols_len,
                cols_len > COLS_LIM,
                want == col_plan_of(cols_len as nat),
                want.len() == 7,
                r@.len() == i - cols_len + 7,
                forall|t: int| 0 <= t < r@.len() ==> #[trigger] r@[t] == want[t],
            decreases cols_len - i,
        {
            r.push(ColSlot::Col(i));
            i = i + 1;
        }
    }
    assert(r@ =~= want);
    r
}

} // verus!
