//! The table that shows a list of chores.
//!
//! A table is described here as plain data: its columns and how wide each may
//! be, the header line, and one row per chore with the chore's name, its due
//! note and the label of the button that marks it done. Lengths are whole
//! numbers of points, shares of the width whole numbers of percent. Drawing is
//! left to whoever holds a screen.

use vstd::prelude::*;
use crate::chore::{Chore, ChoreModel, views};

verus! {

/// How much room the header line takes, in points.
pub const HEADER_HEIGHT: u32 = 20;

/// How much room each row takes, in points.
pub const ROW_HEIGHT: u32 = 30;

/// The share of the width that each of the first two columns claims, in
/// percent.
pub const COLUMN_SHARE: u32 = 30;

/// The least width of each of the first two columns, in points.
pub const COLUMN_MIN_WIDTH: u32 = 100;

/// How wide a column may be.
#[derive(Debug, PartialEq, Eq, Structural, Clone, Copy)]
pub enum ColumnSize {
    /// A share of the width in percent, and never less than so many points.
    Relative { percent: u32, at_least: u32 },
    /// Whatever the other columns leave.
    Remainder,
}

/// One line of the table.
pub struct Row {
    pub name: String,
    pub due: String,
    /// The label of the button in the last column.
    pub action: String,
}

/// What a row holds, with its texts as sequences of characters.
pub ghost struct RowModel {
    pub name: Seq<char>,
    pub due: Seq<char>,
    pub action: Seq<char>,
}

impl View for Row {
    type V = RowModel;

    open spec fn view(&self) -> RowModel {
        RowModel { name: self.name@, due: self.due@, action: self.action@ }
    }
}

/// A table of chores.
pub struct Table {
    /// Whether every other row is shaded.
    pub striped: bool,
    pub columns: Vec<ColumnSize>,
    pub header_height: u32,
    /// The titles of the columns.
    pub header: Vec<String>,
    pub row_height: u32,
    pub rows: Vec<Row>,
}

/// What a table holds, with its lists as sequences.
pub ghost struct TableModel {
    pub striped: bool,
    pub columns: Seq<ColumnSize>,
    pub header_height: nat,
    pub header: Seq<Seq<char>>,
    pub row_height: nat,
    pub rows: Seq<RowModel>,
}

impl View for Table {
    type V = TableModel;

    open spec fn view(&self) -> TableModel {
        TableModel {
            striped: self.striped,
            columns: self.columns@,
            header_height: self.header_height as nat,
            header: self.header@.map_values(|title: String| title@),
            row_height: self.row_height as nat,
            rows: self.rows@.map_values(|row: Row| row@),
        }
    }
}

/// The row that shows a chore.
pub open spec fn row_of(chore: ChoreModel) -> RowModel {
    RowModel { name: chore.name, due: chore.due, action: "done"@ }
}

/// The table that shows the given chores: three columns, of which the first
/// two claim a share of the width and the third takes the rest, the titles
/// "Chore", "Due" and "Actions", and the chores' rows in the chores' order.
pub open spec fn table_of(chores: Seq<ChoreModel>) -> TableModel {
    TableModel {
        striped: true,
        columns: seq![
            ColumnSize::Relative { percent: 30, at_least: 100 },
            ColumnSize::Relative { percent: 30, at_least: 100 },
            ColumnSize::Remainder,
        ],
        header_height: 20,
        header: seq!["Chore"@, "Due"@, "Actions"@],
        row_height: 30,
        rows: chores.map_values(|chore: ChoreModel| row_of(chore)),
    }
}

/// Lays the given chores out as a table, one row for each, in their order.
pub fn build_table(chores: &[Chore]) -> (table: Table)
    ensures
        table@ == table_of(views(chores@)),
{
    let mut columns: Vec<ColumnSize> = Vec::new();
    columns.push(ColumnSize::Relative { percent: COLUMN_SHARE, at_least: COLUMN_MIN_WIDTH });
    columns.push(ColumnSize::Relative { percent: COLUMN_SHARE, at_least: COLUMN_MIN_WIDTH });
    columns.push(ColumnSize::Remainder);
    let mut header: Vec<String> = Vec::new();
    header.push("Chore".to_owned());
    header.push("Due".to_owned());
    header.push("Actions".to_owned());
    let mut rows: Vec<Row> = Vec::new();
    let mut i: usize = 0;
    while i < chores.len()
        invariant
            i <= chores.len(),
            rows@.len() == i,
            forall|k: int| 0 <= k < i ==> (#[trigger] rows@[k])@ == row_of(chores@[k]@),
        decreases chores.len() - i,
    {
        let chore = &chores[i];
        rows.push(Row { name: chore.name.clone(), due: chore.due.clone(), action: "done".to_owned() });
        i += 1;
    }
    let table = Table {
        striped: true,
        columns,
        header_height: HEADER_HEIGHT,
        header,
        row_height: ROW_HEIGHT,
        rows,
    };
    proof {
        assert(table@.rows =~= table_of(views(chores@)).rows);
        assert(table@.columns =~= table_of(views(chores@)).columns);
        assert(table@.header =~= table_of(views(chores@)).header);
    }
    table
}

} // verus!
