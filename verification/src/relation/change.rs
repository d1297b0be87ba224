//! What statements make of a table.

use vstd::prelude::*;

use crate::relation::query;
use crate::relation::query::{Cols, Query, World};
use crate::relation::term::{Cond, Row};

verus! {

/// A statement that changes a table: which rows the table may have after it.
pub struct Change {
    pub text: Seq<char>,
    pub makes: spec_fn(World, Seq<Row>) -> bool,
}

impl Change {
    /// Whether the table may have these rows after the statement.
    pub open spec fn leaves(self, w: World, after: Seq<Row>) -> bool {
        (self.makes)(w, after)
    }
}

/// One more row.
pub open spec fn insert(table: Seq<char>, cols: Cols) -> Change {
    Change {
        text: "INSERT INTO "@ + table + " ("@ + cols.header + ") VALUES ("@ + cols.text + ")"@,
        makes: |w: World, after: Seq<Row>| after == w.rows(table).push(cols.of(w.nowhere())),
    }
}

/// Whether `after` has more rows by those that a query gave back.
pub open spec fn adds(q: Query, w: World, before: Seq<Row>, got: Seq<Row>, after: Seq<Row>) -> bool {
    q.answers(w, got) && after == before + got
}

/// The rows that a query gives back, added to a table.
pub open spec fn insert_from(table: Seq<char>, between: Seq<char>, q: Query) -> Change {
    Change {
        text: "INSERT INTO "@ + table + " ("@ + q.header + ") "@ + between + q.text,
        makes: |w: World, after: Seq<Row>| exists|got: Seq<Row>| #[trigger] adds(q, w, w.rows(table), got, after),
    }
}

/// Columns that are set to what was to be inserted.
pub struct Sets {
    pub text: Seq<char>,
    pub names: Seq<Seq<char>>,
}

/// One column.
pub open spec fn set(name: Seq<char>) -> Sets {
    Sets { text: name + " = excluded."@ + name, names: seq![name] }
}

/// One more column.
pub open spec fn and_set(s: Sets, name: Seq<char>) -> Sets {
    Sets { text: s.text + ", "@ + name + " = excluded."@ + name, names: s.names.push(name) }
}

/// A row with some columns of another.
pub open spec fn overwritten(old: Row, new: Row, names: Seq<Seq<char>>) -> Row {
    |c: Seq<char>|
        if names.contains(c) {
            new(c)
        } else {
            old(c)
        }
}

/// Whether no row has the same in these columns.
pub open spec fn is_new(rows: Seq<Row>, keys: Seq<Seq<char>>, row: Row) -> bool {
    forall|i: int| 0 <= i < rows.len() ==> !query::same_in(keys, #[trigger] rows[i], row)
}

/// Whether `after` has `row`, or its columns in the row of the same key.
pub open spec fn puts(rows: Seq<Row>, keys: Seq<Seq<char>>, row: Row, names: Seq<Seq<char>>, after: Seq<Row>) -> bool {
    if is_new(rows, keys, row) {
        after == rows.push(row)
    } else {
        exists|i: int|
            0 <= i < rows.len() && query::same_in(keys, #[trigger] rows[i], row) && after == rows.update(
                i,
                overwritten(rows[i], row, names),
            )
    }
}

/// Columns by name.
pub struct Names {
    pub text: Seq<char>,
    pub list: Seq<Seq<char>>,
}

/// One name.
pub open spec fn name(n: Seq<char>) -> Names {
    Names { text: n, list: seq![n] }
}

/// One more name.
pub open spec fn and_name(a: Names, n: Seq<char>) -> Names {
    Names { text: a.text + ", "@ + n, list: a.list.push(n) }
}

/// One more row, or other columns of the row of the same key.
pub open spec fn upsert(table: Seq<char>, cols: Cols, keys: Names, sets: Sets) -> Change {
    Change {
        text: insert(table, cols).text + " ON CONFLICT("@ + keys.text + ") DO UPDATE SET "@ + sets.text,
        makes: |w: World, after: Seq<Row>|
            puts(w.rows(table), keys.list, cols.of(w.nowhere()), sets.names, after),
    }
}

/// Whether `kept` are the rows for which a condition does not hold, once each and
/// in order, and `after` holds those.
pub open spec fn keeps(w: World, rows: Seq<Row>, cond: Cond, kept: Seq<int>, after: Seq<Row>) -> bool {
    &&& after.len() == kept.len()
    &&& forall|k: int|
        0 <= k < kept.len() ==> 0 <= #[trigger] kept[k] < rows.len() && !cond.of(w.over(rows[kept[k]])) && after[k]
            == rows[kept[k]]
    &&& forall|k: int, l: int| 0 <= k < l < kept.len() ==> #[trigger] kept[k] < #[trigger] kept[l]
    &&& forall|i: int| 0 <= i < rows.len() && !cond.of(w.over(rows[i])) ==> #[trigger] query::is_one_of(kept, i)
}

/// Fewer rows, by those for which a condition holds.
pub open spec fn delete_where(table: Seq<char>, cond: Cond) -> Change {
    Change {
        text: "DELETE FROM "@ + table + " WHERE "@ + cond.text,
        makes: |w: World, after: Seq<Row>| exists|kept: Seq<int>| #[trigger] keeps(w, w.rows(table), cond, kept, after),
    }
}

/// No rows.
pub open spec fn delete_all(table: Seq<char>) -> Change {
    Change { text: "DELETE FROM "@ + table, makes: |w: World, after: Seq<Row>| after.len() == 0 }
}

} // verus!
