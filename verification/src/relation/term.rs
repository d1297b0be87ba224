//! Values, terms and conditions.

use vstd::prelude::*;

use crate::graph::binary64;
use crate::sql;
use crate::sql::SqlView;
use crate::text;

verus! {

/// A row: what stands in each column.
pub type Row = spec_fn(Seq<char>) -> SqlView;

/// White space between two words.
pub enum Gap {
    Tight,
    Blank,
    Double,
    Triple,
    /// A line break, and the next line's indentation.
    Line(nat),
}

impl Gap {
    /// The white space.
    pub open spec fn text(self) -> Seq<char> {
        match self {
            Gap::Tight => Seq::empty(),
            Gap::Blank => seq![' '],
            Gap::Double => seq![' ', ' '],
            Gap::Triple => seq![' ', ' ', ' '],
            Gap::Line(n) => seq!['\n'] + Seq::new(n, |i: int| ' '),
        }
    }
}

/// Whether `a` sorts before `b`: nothing before numbers, numbers before text,
/// text before bytes; numbers of one kind by value, text by its characters. No
/// order is told of a whole number and a binary64 value, nor of two byte strings.
pub open spec fn before(a: SqlView, b: SqlView) -> bool {
    match (a, b) {
        (SqlView::Integer(x), SqlView::Integer(y)) => x < y,
        (SqlView::Real(x), SqlView::Real(y)) => binary64::lt(x, y),
        (SqlView::Text(x), SqlView::Text(y)) => text::text_lt(x, y),
        _ => kind(a) < kind(b),
    }
}

/// Where values of one kind stand among those of the others.
pub open spec fn kind(v: SqlView) -> int {
    match v {
        SqlView::Null => 0,
        SqlView::Integer(_) => 1,
        SqlView::Real(_) => 1,
        SqlView::Text(_) => 2,
        SqlView::Blob(_) => 3,
    }
}

/// Whether two values are equal; the two zeros are.
pub open spec fn same(a: SqlView, b: SqlView) -> bool {
    a == b || match (a, b) {
        (SqlView::Real(x), SqlView::Real(y)) => binary64::is_zero(x) && binary64::is_zero(y),
        _ => false,
    }
}

/// Whether both are values, and `a` is not greater than `b`.
pub open spec fn at_most(a: SqlView, b: SqlView) -> bool {
    !(a is Null) && !(b is Null) && (before(a, b) || same(a, b))
}

/// Whether both are values, and equal.
pub open spec fn equal(a: SqlView, b: SqlView) -> bool {
    !(a is Null) && !(b is Null) && same(a, b)
}

/// Nothing compares with nothing: whether `p`, where both are values.
pub open spec fn known(a: SqlView, b: SqlView, p: bool) -> Option<bool> {
    if a is Null || b is Null {
        None
    } else {
        Some(p)
    }
}

/// What a piece of a statement is evaluated in: the row that each name stands
/// for, what is bound, and what the engine's own functions answer.
pub struct Scope {
    pub rows: spec_fn(Seq<char>) -> Row,
    pub bound: Seq<SqlView>,
    pub calls: spec_fn(Seq<char>, Seq<SqlView>) -> SqlView,
}

impl Scope {
    /// The same scope with `row` under one more name.
    pub open spec fn with(self, name: Seq<char>, row: Row) -> Scope {
        Scope {
            rows: |n: Seq<char>|
                if n == name {
                    row
                } else {
                    (self.rows)(n)
                },
            ..self
        }
    }

    /// What stands in a column of the row under `name`.
    pub open spec fn read(self, name: Seq<char>, column: Seq<char>) -> SqlView {
        (self.rows)(name)(column)
    }
}

/// A term.
pub struct Term {
    pub text: Seq<char>,
    pub value: spec_fn(Scope) -> SqlView,
}

impl Term {
    /// What the term comes to.
    pub open spec fn of(self, s: Scope) -> SqlView {
        (self.value)(s)
    }
}

/// A column of the row under a name.
pub open spec fn column(name: Seq<char>, col: Seq<char>) -> Term {
    Term { text: name + "."@ + col, value: |s: Scope| s.read(name, col) }
}

/// A column of the one row there is.
pub open spec fn bare(col: Seq<char>) -> Term {
    Term { text: col, value: |s: Scope| s.read(Seq::empty(), col) }
}

/// A column that no index is to be used for.
pub open spec fn plain(t: Term) -> Term {
    Term { text: "+"@ + t.text, ..t }
}

/// What is bound in a slot.
pub open spec fn slot(n: nat) -> Term {
    Term { text: sql::slot(n), value: |s: Scope| s.bound[n - 1] }
}

/// A text.
pub open spec fn quote(t: Seq<char>) -> Term {
    Term { text: "'"@ + t + "'"@, value: |s: Scope| SqlView::Text(t) }
}

/// A whole number.
pub open spec fn number(n: nat) -> Term {
    Term { text: text::decimal(n), value: |s: Scope| SqlView::Integer(n as i64) }
}

/// Nothing.
pub open spec fn null() -> Term {
    Term { text: "NULL"@, value: |s: Scope| SqlView::Null }
}

/// Two texts, one after the other.
pub open spec fn glue(a: Term, b: Term) -> Term {
    Term {
        text: a.text + " || "@ + b.text,
        value: |s: Scope|
            match (a.of(s), b.of(s)) {
                (SqlView::Text(x), SqlView::Text(y)) => SqlView::Text(x + y),
                _ => SqlView::Null,
            },
    }
}

/// What a function of the engine answers.
pub open spec fn call(name: Seq<char>, a: Term, b: Term) -> Term {
    Term {
        text: name + "("@ + a.text + ", "@ + b.text + ")"@,
        value: |s: Scope| (s.calls)(name, seq![a.of(s), b.of(s)]),
    }
}

/// One more than a whole number.
pub open spec fn next(a: Term) -> Term {
    Term {
        text: a.text + " + 1"@,
        value: |s: Scope|
            match a.of(s) {
                SqlView::Integer(n) => SqlView::Integer((n + 1) as i64),
                _ => SqlView::Null,
            },
    }
}

/// One of two terms, by a condition.
pub open spec fn choice(c: Cond, gap: Gap, a: Term, b: Term) -> Term {
    Term {
        text: "CASE WHEN "@ + c.text + gap.text() + "THEN "@ + a.text + " ELSE "@ + b.text + " END"@,
        value: |s: Scope|
            if c.of(s) {
                a.of(s)
            } else {
                b.of(s)
            },
    }
}

/// A condition. A loose one is an alternative that no brackets hold together.
pub struct Cond {
    pub text: Seq<char>,
    pub holds: spec_fn(Scope) -> Option<bool>,
    pub loose: bool,
}

impl Cond {
    /// Whether the condition is known to hold.
    pub open spec fn of(self, s: Scope) -> bool {
        (self.holds)(s) == Some(true)
    }
}

/// A comparison of two terms.
pub open spec fn compare(a: Term, gap: Gap, sign: Seq<char>, b: Term, p: spec_fn(SqlView, SqlView) -> bool) -> Cond {
    Cond {
        text: a.text + gap.text() + sign + " "@ + b.text,
        holds: |s: Scope| known(a.of(s), b.of(s), p(a.of(s), b.of(s))),
        loose: false,
    }
}

/// Whether two terms are equal.
pub open spec fn eq(a: Term, b: Term) -> Cond {
    compare(a, Gap::Blank, "="@, b, |x: SqlView, y: SqlView| same(x, y))
}

/// Whether two terms are equal, written with two blanks.
pub open spec fn eq_wide(a: Term, b: Term) -> Cond {
    compare(a, Gap::Double, "="@, b, |x: SqlView, y: SqlView| same(x, y))
}

/// Whether two terms differ.
pub open spec fn differ(a: Term, gap: Gap, b: Term) -> Cond {
    compare(a, gap, "<>"@, b, |x: SqlView, y: SqlView| !same(x, y))
}

/// Whether one term is less than another.
pub open spec fn lt(a: Term, b: Term) -> Cond {
    compare(a, Gap::Blank, "<"@, b, |x: SqlView, y: SqlView| before(x, y))
}

/// Whether one term is greater than another.
pub open spec fn gt(a: Term, b: Term) -> Cond {
    compare(a, Gap::Blank, ">"@, b, |x: SqlView, y: SqlView| before(y, x))
}

/// Whether one term is at most another.
pub open spec fn le(a: Term, b: Term) -> Cond {
    compare(a, Gap::Blank, "<="@, b, |x: SqlView, y: SqlView| before(x, y) || same(x, y))
}

/// Whether one term is at least another.
pub open spec fn ge(a: Term, b: Term) -> Cond {
    compare(a, Gap::Blank, ">="@, b, |x: SqlView, y: SqlView| before(y, x) || same(x, y))
}

/// Whether a term is nothing.
pub open spec fn absent(a: Term) -> Cond {
    Cond { text: a.text + " IS NULL"@, holds: |s: Scope| Some(a.of(s) is Null), loose: false }
}

/// Whether a term is something.
pub open spec fn present(a: Term) -> Cond {
    Cond { text: a.text + " IS NOT NULL"@, holds: |s: Scope| Some(!(a.of(s) is Null)), loose: false }
}

/// Whether a term is among `n` that are bound from slot `first` on.
pub open spec fn among(a: Term, first: nat, n: nat) -> Cond {
    Cond {
        text: a.text + " IN ("@ + sql::slot_list(first, n) + ")"@,
        holds: |s: Scope|
            if exists|i: int| 0 <= i < n && #[trigger] same(a.of(s), s.bound[first - 1 + i]) && !(a.of(s) is Null) {
                Some(true)
            } else {
                None
            },
        loose: false,
    }
}

/// Both of two conditions. Of a loose one nothing is known here: what stands
/// beside it binds its first or last alternative alone.
pub open spec fn and(a: Cond, gap: Gap, b: Cond) -> Cond {
    Cond {
        text: a.text + gap.text() + "AND "@ + b.text,
        holds: |s: Scope|
            if a.loose || b.loose {
                None
            } else {
                match ((a.holds)(s), (b.holds)(s)) {
                    (Some(x), Some(y)) => Some(x && y),
                    (Some(x), None) => if x {
                        None
                    } else {
                        Some(false)
                    },
                    (None, Some(y)) => if y {
                        None
                    } else {
                        Some(false)
                    },
                    (None, None) => None,
                }
            },
        loose: false,
    }
}

/// Either of two conditions.
pub open spec fn or(a: Cond, b: Cond) -> Cond {
    Cond {
        text: a.text + " OR "@ + b.text,
        holds: |s: Scope|
            match ((a.holds)(s), (b.holds)(s)) {
                (Some(x), Some(y)) => Some(x || y),
                (Some(x), None) => if x {
                    Some(true)
                } else {
                    None
                },
                (None, Some(y)) => if y {
                    Some(true)
                } else {
                    None
                },
                (None, None) => None,
            },
        loose: true,
    }
}

/// A condition in brackets.
pub open spec fn bracketed(c: Cond) -> Cond {
    Cond { text: "("@ + c.text + ")"@, holds: c.holds, loose: false }
}

/// Whether a condition holds, as a number.
pub open spec fn truth(c: Cond) -> Term {
    Term {
        text: "("@ + c.text + ")"@,
        value: |s: Scope|
            match (c.holds)(s) {
                Some(b) => SqlView::Integer(
                    if b {
                        1
                    } else {
                        0
                    },
                ),
                None => SqlView::Null,
            },
    }
}

} // verus!
