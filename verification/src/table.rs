//! The timetable as a printable table.

use crate::schedule::{
    row_views, schedule, schedule_of, RowView, ScheduleError, ScheduleRow,
};
use crate::slots::SlotMap;
use crate::text::owned_texts;
use crate::time::{is_time, lemma_time_chars};
use prettytable::{Cell, Row, Table};
use vstd::prelude::*;
use vstd::string::*;

verus! {

/// `Table` of prettytable: rows of cells, kept to be printed.
#[verifier::external_type_specification]
#[verifier::external_body]
pub struct ExTable(Table);

/// What a table holds: the text of each cell of each row, in order, titles
/// not counted.
pub uninterp spec fn table_cells(table: Table) -> Seq<Seq<Seq<char>>>;

/// The text has neither a line feed nor an escape character in it.
pub open spec fn plain_text(s: Seq<char>) -> bool {
    forall|i: int| 0 <= i < s.len() ==> s[i] != '\n' && s[i] != '\u{1b}'
}

/// `Table::new` of prettytable: a table without rows.
#[verifier::external_body]
fn new_table() -> (table: Table)
    ensures
        table_cells(table) == Seq::<Seq<Seq<char>>>::empty(),
{
    Table::new()
}

/// `Table::add_row` of prettytable, with a row of one `Cell::new` for each
/// text: the table gets one more row, at the end, whose cells hold the texts.
///
/// A cell cuts its text at line feeds and keeps a text without any as it is.
/// It also measures the text, and in doing so counts what follows an escape
/// character in a way that stops the program on some texts; without an
/// escape character nothing is counted. So both characters are left out.
#[verifier::external_body]
fn add_row(table: &mut Table, cells: &Vec<String>)
    requires
        forall|i: int| 0 <= i < cells.len() ==> plain_text(#[trigger] cells[i]@),
    ensures
        table_cells(*final(table)) == table_cells(*old(table)).push(owned_texts(cells@)),
{
    table.add_row(Row::new(cells.iter().map(|c| Cell::new(c)).collect()));
}

/// The first cell of a row: the time, behind `> ` for the current slot.
pub open spec fn time_text(row: RowView) -> Seq<char> {
    if row.is_current {
        "> "@ + row.time
    } else {
        row.time
    }
}

/// The mark for a room: a check mark where it is free, a cross where it is
/// booked.
pub open spec fn mark(free: bool) -> Seq<char> {
    if free {
        "✅"@
    } else {
        "❌"@
    }
}

/// The three cells of a row.
pub open spec fn row_cells(row: RowView) -> Seq<Seq<char>> {
    seq![time_text(row), mark(row.room_1), mark(row.room_2)]
}

/// The cells of the heading.
pub open spec fn heading() -> Seq<Seq<char>> {
    seq!["Time"@, "Room 1"@, "Room 2"@]
}

/// The cells of the whole timetable: the heading, then one row of cells for
/// each row.
pub open spec fn table_of(rows: Seq<RowView>) -> Seq<Seq<Seq<char>>> {
    seq![heading()] + Seq::new(rows.len(), |i: int| row_cells(rows[i]))
}

/// The cell that shows the time of a row.
pub fn time_cell(row: &ScheduleRow) -> (cell: String)
    ensures
        cell@ == time_text(row@),
{
    if row.is_current {
        let mut cell = "> ".to_owned();
        cell.append(row.time.as_str());
        cell
    } else {
        row.time.clone()
    }
}

/// The cell that shows whether a room is free.
pub fn availability_cell(free: bool) -> (cell: String)
    ensures
        cell@ == mark(free),
{
    if free {
        "✅".to_owned()
    } else {
        "❌".to_owned()
    }
}

/// The table of a list of rows, under its heading.
pub fn schedule_table(rows: &Vec<ScheduleRow>) -> (table: Table)
    requires
        forall|i: int| 0 <= i < rows.len() ==> plain_text(#[trigger] rows[i]@.time),
    ensures
        table_cells(table) == table_of(row_views(rows@)),
{
    let mut table = new_table();
    let mut titles: Vec<String> = Vec::new();
    titles.push("Time".to_owned());
    titles.push("Room 1".to_owned());
    titles.push("Room 2".to_owned());
    proof {
        reveal_strlit("Time");
        reveal_strlit("Room 1");
        reveal_strlit("Room 2");
        assert(owned_texts(titles@) =~= heading());
    }
    add_row(&mut table, &titles);
    let ghost views = row_views(rows@);
    proof {
        assert(table_cells(table) =~= table_of(views.take(0)));
    }
    let mut i: usize = 0;
    while i < rows.len()
        invariant
            i <= rows.len(),
            views == row_views(rows@),
            forall|j: int| 0 <= j < rows.len() ==> plain_text(#[trigger] rows[j]@.time),
            table_cells(table) == table_of(views.take(i as int)),
        decreases rows.len() - i,
    {
        let row = &rows[i];
        let mut cells: Vec<String> = Vec::new();
        cells.push(time_cell(row));
        cells.push(availability_cell(row.room_1));
        cells.push(availability_cell(row.room_2));
        proof {
            reveal_strlit("> ");
            reveal_strlit("✅");
            reveal_strlit("❌");
            assert(plain_text(rows[i as int]@.time));
            assert(views[i as int] == row@);
            assert(owned_texts(cells@) =~= row_cells(row@));
            assert(table_of(views.take(i as int)).push(row_cells(row@)) =~= table_of(
                views.take(i + 1),
            ));
        }
        add_row(&mut table, &cells);
        i = i + 1;
    }
    proof {
        assert(views.take(i as int) =~= views);
    }
    table
}

/// The timetable of two rooms for one day, as a table ready to print.
pub fn timetable(
    room_1: &SlotMap,
    room_2: &SlotMap,
    now: &str,
    day_start: &str,
    day_end: &str,
) -> (r: Result<Table, ScheduleError>)
    ensures
        match r {
            Ok(table) => {
                let rows = schedule_of(
                    room_1.entries(),
                    room_2.entries(),
                    now@,
                    day_start@,
                    day_end@,
                );
                rows is Ok && table_cells(table) == table_of(rows->Ok_0)
            },
            Err(e) => schedule_of(room_1.entries(), room_2.entries(), now@, day_start@, day_end@)
                == Err::<Seq<RowView>, ScheduleError>(e),
        },
{
    match schedule(room_1, room_2, now, day_start, day_end) {
        Ok(rows) => {
            proof {
                assert forall|i: int| 0 <= i < rows.len() implies plain_text(
                    #[trigger] rows[i]@.time,
                ) by {
                    assert(is_time(rows[i]@.time));
                    assert forall|k: int| 0 <= k < rows[i]@.time.len() implies rows[i]@.time[k]
                        != '\n' && rows[i]@.time[k] != '\u{1b}' by {
                        lemma_time_chars(rows[i]@.time, k);
                    }
                }
            }
            Ok(schedule_table(&rows))
        },
        Err(e) => Err(e),
    }
}

} // verus!
