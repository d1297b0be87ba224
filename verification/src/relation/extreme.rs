//! The greatest and the least of what is read.

use vstd::prelude::*;

use crate::relation::query;
use crate::relation::query::{Source, World};
use crate::relation::term;
use crate::relation::term::{Cond, Row, Scope};
use crate::sql::SqlView;

verus! {

/// Whether `v` is the greatest that a column has where a condition holds, nothing
/// where it has nothing there.
pub open spec fn is_greatest(list: Seq<Scope>, cond: Cond, col: Seq<char>, v: SqlView) -> bool {
    if v is Null {
        forall|k: int| 0 <= k < list.len() && cond.of(list[k]) ==> term::bare(col).of(#[trigger] list[k]) is Null
    } else {
        &&& exists|k: int| 0 <= k < list.len() && cond.of(list[k]) && term::bare(col).of(#[trigger] list[k]) == v
        &&& forall|k: int|
            0 <= k < list.len() && cond.of(list[k]) ==> !term::before(v, term::bare(col).of(#[trigger] list[k]))
    }
}

/// Whether `v` is the least that a column has where a condition holds, nothing
/// where it has nothing there.
pub open spec fn is_least(list: Seq<Scope>, cond: Cond, col: Seq<char>, v: SqlView) -> bool {
    if v is Null {
        forall|k: int| 0 <= k < list.len() && cond.of(list[k]) ==> term::bare(col).of(#[trigger] list[k]) is Null
    } else {
        &&& exists|k: int| 0 <= k < list.len() && cond.of(list[k]) && term::bare(col).of(#[trigger] list[k]) == v
        &&& forall|k: int|
            0 <= k < list.len() && cond.of(list[k]) ==> {
                let x = term::bare(col).of(#[trigger] list[k]);
                x is Null || !term::before(x, v)
            }
    }
}

/// A statement that reads one value: which it may read.
pub struct Reading {
    pub text: Seq<char>,
    pub gives: spec_fn(World, SqlView) -> bool,
}

impl Reading {
    /// Whether the statement may read this.
    pub open spec fn reads(self, w: World, v: SqlView) -> bool {
        (self.gives)(w, v)
    }
}

/// Whether `v` is the greatest of what is read.
pub open spec fn tops(from: Source, w: World, list: Seq<Scope>, col: Seq<char>, v: SqlView) -> bool {
    from.has(w, list) && is_greatest(list, query::everything(), col, v)
}

/// The greatest of a column.
pub open spec fn greatest(col: Seq<char>, from: Source) -> Reading {
    Reading {
        text: "SELECT MAX("@ + col + ") FROM "@ + from.text,
        gives: |w: World, v: SqlView| exists|list: Seq<Scope>| #[trigger] tops(from, w, list, col, v),
    }
}

/// The least of a column of a table, where a condition holds.
pub open spec fn least(col: Seq<char>, table: Seq<char>, cond: Cond) -> Reading {
    Reading {
        text: "SELECT MIN("@ + col + ") FROM "@ + table + " WHERE "@ + cond.text,
        gives: |w: World, v: SqlView| is_least(query::scopes(w, w.rows(table)), cond, col, v),
    }
}

/// How many rows a table has.
pub open spec fn size(table: Seq<char>) -> Reading {
    Reading {
        text: "SELECT COUNT(*) FROM "@ + table,
        gives: |w: World, v: SqlView| v matches SqlView::Integer(n) && n == w.rows(table).len(),
    }
}

/// Whether a row of a table has this in a column.
pub open spec fn stands_in(rows: Seq<Row>, col: Seq<char>, v: SqlView) -> bool {
    exists|k: int| 0 <= k < rows.len() && #[trigger] rows[k](col) == v
}

} // verus!
