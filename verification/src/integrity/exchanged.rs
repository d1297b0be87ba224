//! What putting the shadow in place leaves.

use vstd::prelude::*;

use crate::integrity::shadow;
use crate::relation::term::Row;
use crate::text;

verus! {

/// The tables there are, by name.
pub type Tables = Map<Seq<char>, Seq<Row>>;

/// A statement that makes, names or drops tables: what there is after it.
pub struct Declared {
    pub text: Seq<char>,
    pub gives: spec_fn(Tables) -> Tables,
}

impl Declared {
    /// The tables there are after the statement.
    pub open spec fn of(self, t: Tables) -> Tables {
        (self.gives)(t)
    }
}

/// One table less.
pub open spec fn dropped(name: Seq<char>) -> Declared {
    Declared { text: "DROP TABLE "@ + name, gives: |t: Tables| t.remove(name) }
}

/// One table less, where there is one.
pub open spec fn dropped_if_there(name: Seq<char>) -> Declared {
    Declared { text: "DROP TABLE IF EXISTS "@ + name, gives: |t: Tables| t.remove(name) }
}

/// A trigger less, where there is one. No table changes.
pub open spec fn trigger_dropped_if_there(name: Seq<char>) -> Declared {
    Declared { text: "DROP TRIGGER IF EXISTS "@ + name, gives: |t: Tables| t }
}

/// A table under another name.
pub open spec fn renamed(name: Seq<char>, other: Seq<char>) -> Declared {
    Declared {
        text: "ALTER TABLE "@ + name + " RENAME TO "@ + other,
        gives: |t: Tables| t.remove(name).insert(other, t[name]),
    }
}

/// An exchange leaves as current belief what the shadow held, leaves no shadow, and
/// leaves every other table as it was.
pub proof fn law_an_exchange_puts_the_shadow_in_place(t: Tables)
    requires
        t.dom().contains(shadow::SHADOW_TABLE@),
        t.dom().contains("links_current"@),
    ensures
        shadow::exchange().len() == 4,
        shadow::exchange()[0].sql == trigger_dropped_if_there("trg_links_current_sync"@).text,
        shadow::exchange()[1].sql == trigger_dropped_if_there("trg_links_single_open"@).text,
        shadow::exchange()[2].sql == dropped("links_current"@).text,
        shadow::exchange()[3].sql == renamed(shadow::SHADOW_TABLE@, "links_current"@).text,
        forall|k: int| 0 <= k < 4 ==> (#[trigger] shadow::exchange()[k]).row.len() == 0,
        ({
            let after = renamed(shadow::SHADOW_TABLE@, "links_current"@).of(dropped("links_current"@).of(t));
            &&& after.dom().contains("links_current"@)
            &&& after["links_current"@] == t[shadow::SHADOW_TABLE@]
            &&& !after.dom().contains(shadow::SHADOW_TABLE@)
            &&& forall|name: Seq<char>|
                name != "links_current"@ && name != shadow::SHADOW_TABLE@ ==> (after.dom().contains(name)
                    <==> t.dom().contains(name)) && (#[trigger] after[name]) == t[name]
        }),
{
    reveal_strlit("links_current");
    reveal_strlit("links_current_shadow");
    assert("links_current"@.len() != shadow::SHADOW_TABLE@.len());
    assert("DROP TRIGGER IF EXISTS trg_links_current_sync"@ =~= "DROP TRIGGER IF EXISTS "@ + "trg_links_current_sync"@)
        by {
        reveal_strlit("DROP TRIGGER IF EXISTS trg_links_current_sync");
        reveal_strlit("DROP TRIGGER IF EXISTS ");
        reveal_strlit("trg_links_current_sync");
    }
    assert("DROP TRIGGER IF EXISTS trg_links_single_open"@ =~= "DROP TRIGGER IF EXISTS "@ + "trg_links_single_open"@)
        by {
        reveal_strlit("DROP TRIGGER IF EXISTS trg_links_single_open");
        reveal_strlit("DROP TRIGGER IF EXISTS ");
        reveal_strlit("trg_links_single_open");
    }
    assert("DROP TABLE links_current"@ =~= "DROP TABLE "@ + "links_current"@) by {
        reveal_strlit("DROP TABLE links_current");
        reveal_strlit("DROP TABLE ");
    }
    assert(" RENAME TO links_current"@ =~= " RENAME TO "@ + "links_current"@) by {
        reveal_strlit(" RENAME TO links_current");
        reveal_strlit(" RENAME TO ");
    }
}

/// Dropping the shadow leaves none, and every other table as it was.
pub proof fn law_a_dropped_shadow_is_gone(t: Tables)
    ensures
        shadow::drop_shadow_text() == dropped_if_there(shadow::SHADOW_TABLE@).text,
        !dropped_if_there(shadow::SHADOW_TABLE@).of(t).dom().contains(shadow::SHADOW_TABLE@),
        forall|name: Seq<char>|
            name != shadow::SHADOW_TABLE@ && t.dom().contains(name) ==> dropped_if_there(
                shadow::SHADOW_TABLE@,
            ).of(t).dom().contains(name) && (#[trigger] dropped_if_there(shadow::SHADOW_TABLE@).of(t)[name])
                == t[name],
{
}

/// Whether a declaration names one of two things.
pub open spec fn is_about(declaration: &str, one: Seq<char>, other: Seq<char>) -> bool {
    text::occurs_in(declaration@, one) || text::occurs_in(declaration@, other)
}

/// Whether a statement is among others, and binds nothing.
pub open spec fn is_stated(list: Seq<shadow::StatementView>, sql: Seq<char>) -> bool {
    exists|k: int| 0 <= k < list.len() && (#[trigger] list[k]).sql == sql
}

/// Of some declarations a swap gives back those that name one of two things, and
/// no others.
pub proof fn law_a_swap_gives_back_what_names(list: Seq<&str>, one: Seq<char>, other: Seq<char>, n: int)
    requires
        0 <= n <= list.len(),
    ensures
        forall|i: int|
            0 <= i < n && is_about(#[trigger] list[i], one, other) ==> is_stated(
                shadow::naming(list, one, other, n),
                list[i]@,
            ),
        forall|k: int|
            0 <= k < shadow::naming(list, one, other, n).len() ==> (#[trigger] shadow::naming(
                list,
                one,
                other,
                n,
            )[k]).row.len() == 0 && exists|i: int|
                0 <= i < n && is_about(#[trigger] list[i], one, other) && list[i]@ == shadow::naming(
                    list,
                    one,
                    other,
                    n,
                )[k].sql,
    decreases n,
{
    if n > 0 {
        law_a_swap_gives_back_what_names(list, one, other, n - 1);
        let before = shadow::naming(list, one, other, n - 1);
        let now = shadow::naming(list, one, other, n);
        assert forall|i: int| 0 <= i < n && is_about(#[trigger] list[i], one, other) implies is_stated(
            now,
            list[i]@,
        ) by {
            if i < n - 1 {
                let k = choose|k: int| 0 <= k < before.len() && (#[trigger] before[k]).sql == list[i]@;
                assert(now[k] == before[k]);
            } else {
                assert(now[before.len() as int].sql == list[i]@);
            }
        }
        assert forall|k: int| 0 <= k < now.len() implies (#[trigger] now[k]).row.len() == 0 && exists|i: int|
            0 <= i < n && is_about(#[trigger] list[i], one, other) && list[i]@ == now[k].sql by {
            if k < before.len() {
                assert(now[k] == before[k]);
                let i = choose|i: int|
                    0 <= i < n - 1 && is_about(#[trigger] list[i], one, other) && list[i]@ == before[k].sql;
                assert(is_about(list[i], one, other));
            } else {
                assert(is_about(list[n - 1], one, other));
            }
        }
    }
}

} // verus!
