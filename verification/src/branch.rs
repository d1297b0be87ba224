//! Lineage identity and its lifecycle.

use vstd::prelude::*;
use vstd::utf8::*;

use crate::connection::rows;
use crate::connection::rows::ConceptUpsert;
use crate::error::{DbError, Result};
use crate::graph::builder;
use crate::graph::builder::TraversalBuilder;
use crate::graph::edge;
use crate::graph::edge::EdgeAssertion;
use crate::schema;
use crate::schema::MAIN_BRANCH;
use crate::sql;
use crate::sql::{bind, text_value, SqlValue, SqlView};
use crate::text;
use crate::text::{chars_of, is_control, is_space, same, text_order, Order};

verus! {

/// The longest branch name, in bytes.
pub const MAX_BRANCH_ID: usize = 128;

/// Whether `name` may name a branch: not empty, at most 128 bytes, no control
/// character of ASCII, and no white space at either end.
pub open spec fn is_branch_name(name: Seq<char>) -> bool {
    &&& 0 < name.len()
    &&& encode_utf8(name).len() <= MAX_BRANCH_ID
    &&& forall|i: int| 0 <= i < name.len() ==> !text::is_control_char(#[trigger] name[i])
    &&& !text::is_space_char(name[0])
    &&& !text::is_space_char(name[name.len() - 1])
}

/// The name of a lineage.
#[derive(Debug, Clone, PartialEq, Eq, PartialOrd, Ord, Hash)]
pub struct BranchId {
    name: String,
}

impl View for BranchId {
    type V = Seq<char>;

    closed spec fn view(&self) -> Seq<char> {
        self.name@
    }
}

impl AsRef<str> for BranchId {
    fn as_ref(&self) -> (s: &str)
        ensures
            s@ == self@,
    {
        self.name.as_str()
    }
}

impl From<BranchId> for String {
    fn from(id: BranchId) -> (s: String)
        ensures
            s@ == id@,
    {
        id.name
    }
}

impl vstd::std_specs::convert::FromSpecImpl<BranchId> for String {
    open spec fn obeys_from_spec() -> bool {
        true
    }

    closed spec fn from_spec(id: BranchId) -> String {
        id.name
    }
}

/// The name of an optional branch.
pub open spec fn branch_view(b: Option<BranchId>) -> Option<Seq<char>> {
    match b {
        Some(id) => Some(id@),
        None => None,
    }
}

impl BranchId {
    /// A branch name that keeps the rule, or the refusal of one that does not.
    pub fn new(raw: &str) -> (id: Result<BranchId>)
        ensures
            id.is_ok() == is_branch_name(raw@),
            id matches Ok(b) ==> b@ == raw@,
            id matches Err(e) ==> (e matches DbError::InvalidBranchId(named) && named@ == raw@),
    {
        let chars = chars_of(raw);
        let n: usize = chars.len();
        if n == 0 || raw.as_bytes().len() > MAX_BRANCH_ID {
            return Err(DbError::InvalidBranchId(raw.to_owned()));
        }
        let mut i: usize = 0;
        while i < n
            invariant
                n == chars@.len(),
                chars@ == raw@,
                i <= n,
                forall|j: int| 0 <= j < i ==> !text::is_control_char(#[trigger] raw@[j]),
            decreases n - i,
        {
            if is_control(chars[i]) {
                assert(text::is_control_char(raw@[i as int]));
                return Err(DbError::InvalidBranchId(raw.to_owned()));
            }
            i = i + 1;
        }
        if is_space(chars[0]) || is_space(chars[n - 1]) {
            return Err(DbError::InvalidBranchId(raw.to_owned()));
        }
        Ok(BranchId { name: raw.to_owned() })
    }

    /// The trunk.
    pub fn main() -> (id: BranchId)
        ensures
            id@ == schema::MAIN_BRANCH@,
    {
        BranchId { name: MAIN_BRANCH.to_owned() }
    }

    /// A name read back from the database, where it was checked on the way in.
    pub fn from_stored(raw: String) -> (id: BranchId)
        ensures
            id@ == raw@,
    {
        BranchId { name: raw }
    }

    /// The name.
    pub fn as_str(&self) -> (s: &str)
        ensures
            s@ == self@,
    {
        self.name.as_str()
    }

    /// Whether this is the trunk.
    pub fn is_main(&self) -> (yes: bool)
        ensures
            yes == (self@ == schema::MAIN_BRANCH@),
    {
        same(self.name.as_str(), MAIN_BRANCH)
    }

    /// A copy of the name.
    pub fn copy(&self) -> (id: BranchId)
        ensures
            id@ == self@,
    {
        BranchId { name: self.name.clone() }
    }
}

/// One registered lineage.
///
/// The trunk has no parent and no fork point; every other branch has both.
#[derive(Debug, Clone, PartialEq, Eq, PartialOrd, Ord, Hash)]
pub struct Branch {
    pub id: BranchId,
    pub parent: Option<BranchId>,
    pub forked_at: Option<String>,
    pub created_at: String,
}

/// Counts the branches of a name and those of its parent's, and reads the
/// parent's own fork point.
pub const FORK_PROBE: &'static str =
    "SELECT (SELECT COUNT(*) FROM branches WHERE branch_id = ?1), (SELECT COUNT(*) FROM branches WHERE branch_id = ?2), (SELECT forked_at FROM branches WHERE branch_id = ?2)";

/// Registers a branch, made when it forked.
pub const FORK: &'static str =
    "INSERT INTO branches (branch_id, parent_id, forked_at, created_at) VALUES (?1, ?2, ?3, ?3)";

/// Reads every branch, the trunk first and then by age.
pub const LIST: &'static str =
    "SELECT branch_id, parent_id, forked_at, created_at FROM branches ORDER BY (parent_id IS NOT NULL), created_at, branch_id";

/// Binds what the probe before a fork asks for.
pub fn fork_probe(name: &BranchId, parent: &BranchId) -> (row: Vec<SqlValue>)
    ensures
        sql::values(row@) == seq![SqlView::Text(name@), SqlView::Text(parent@)],
{
    let mut row: Vec<SqlValue> = Vec::new();
    bind(&mut row, text_value(name.as_str()));
    bind(&mut row, text_value(parent.as_str()));
    proof {
        assert(sql::values(row@) =~= seq![SqlView::Text(name@), SqlView::Text(parent@)]);
    }
    row
}

/// Binds what registering a fork asks for.
pub fn fork_row(name: &BranchId, parent: &BranchId, stamp: &str) -> (row: Vec<SqlValue>)
    ensures
        sql::values(row@) == seq![SqlView::Text(name@), SqlView::Text(parent@), SqlView::Text(stamp@)],
{
    let mut row = fork_probe(name, parent);
    bind(&mut row, text_value(stamp));
    proof {
        assert(sql::values(row@) =~= seq![SqlView::Text(name@), SqlView::Text(parent@), SqlView::Text(stamp@)]);
    }
    row
}

/// Decides a fork of `name` from `parent` at `stamp`.
///
/// `taken` is how many branches already have the name, `parent_exists` how many
/// have the parent's, and `parent_forked_at` the parent's own fork point. A taken
/// name is refused first, a missing parent next, and a fork point before the
/// parent's own last; otherwise the row to register comes back.
pub fn fork(
    name: &BranchId,
    parent: &BranchId,
    stamp: &str,
    taken: i64,
    parent_exists: i64,
    parent_forked_at: Option<String>,
) -> (row: Result<Branch>)
    ensures
        taken > 0 ==> (row matches Err(e) && (e matches DbError::BranchExists(n) && n@ == name@)),
        taken <= 0 && parent_exists == 0 ==> (row matches Err(e) && (e matches DbError::UnknownBranch(n)
            && n@ == parent@)),
        taken <= 0 && parent_exists != 0 && fork_is_early(stamp@, parent_forked_at) ==> (row matches Err(e)
            && (e matches DbError::ForkPrecedesParent {
            branch: b,
            parent: p,
            forked_at: f,
            parent_forked_at: pf,
        } && b@ == name@ && p@ == parent@ && f@ == stamp@ && Some(pf@) == text::opt_view(parent_forked_at))),
        row.is_ok() == (taken <= 0 && parent_exists != 0 && !fork_is_early(stamp@, parent_forked_at)),
        row matches Ok(b) ==> b.id@ == name@ && branch_view(b.parent) == Some(parent@) && text::opt_view(
            b.forked_at,
        ) == Some(stamp@) && b.created_at@ == stamp@,
{
    if taken > 0 {
        return Err(DbError::BranchExists(name.as_str().to_owned()));
    }
    if parent_exists == 0 {
        return Err(DbError::UnknownBranch(parent.as_str().to_owned()));
    }
    if let Some(parent_forked_at) = parent_forked_at {
        if text_order(stamp, parent_forked_at.as_str()) == Order::Less {
            return Err(
                DbError::ForkPrecedesParent {
                    branch: name.as_str().to_owned(),
                    parent: parent.as_str().to_owned(),
                    forked_at: stamp.to_owned(),
                    parent_forked_at,
                },
            );
        }
    }
    Ok(
        Branch {
            id: name.copy(),
            parent: Some(parent.copy()),
            forked_at: Some(stamp.to_owned()),
            created_at: stamp.to_owned(),
        },
    )
}

/// Whether a fork at `stamp` would come before the parent's own fork point.
pub open spec fn fork_is_early(stamp: Seq<char>, parent_forked_at: Option<String>) -> bool {
    match parent_forked_at {
        Some(at) => text::text_lt(stamp, at@),
        None => false,
    }
}

/// A ledger seen from one lineage: what is asked for and written through it
/// stands on that lineage.
#[derive(Debug, Clone)]
pub struct BranchView {
    branch: BranchId,
}

impl View for BranchView {
    type V = Seq<char>;

    closed spec fn view(&self) -> Seq<char> {
        self.branch@
    }
}

/// Whether what names `named` may be written through a view of `branch`: it
/// names that lineage or none.
pub open spec fn claimable(named: Option<Seq<char>>, branch: Seq<char>) -> bool {
    named matches Some(name) ==> name == branch
}

/// Whether `err` refuses what names a lineage other than the view's.
pub open spec fn foreign(err: DbError, branch: Seq<char>, named: Option<Seq<char>>) -> bool {
    err matches DbError::BranchMismatch { view, named: n } && view@ == branch && Some(n@) == named
}

/// An edge on the lineage of a view.
pub open spec fn claimed_edge(e: edge::AssertionView, branch: Seq<char>) -> edge::AssertionView {
    edge::AssertionView { branch: Some(branch), ..e }
}

/// A concept on the lineage of a view.
pub open spec fn claimed_concept(c: rows::ConceptView, branch: Seq<char>) -> rows::ConceptView {
    rows::ConceptView { branch: Some(branch), ..c }
}

impl BranchView {
    /// The ledger seen from `branch`.
    pub fn new(branch: BranchId) -> (v: BranchView)
        ensures
            v@ == branch@,
    {
        BranchView { branch }
    }

    /// The lineage.
    pub fn id(&self) -> (id: &BranchId)
        ensures
            id@ == self@,
    {
        &self.branch
    }

    /// A traversal from `start_node` on the lineage.
    pub fn traversal(&self, start_node: &str) -> (b: TraversalBuilder)
        ensures
            b@ == (builder::TraversalView {
                branch: Some(self@),
                ..builder::TraversalView::from_node(start_node@)
            }),
    {
        TraversalBuilder::new(start_node).on_branch(self.branch.as_str())
    }

    /// The edge on the lineage, or its refusal where it names another.
    pub fn claim_edge(&self, edge: EdgeAssertion) -> (e: Result<EdgeAssertion>)
        ensures
            e.is_ok() == claimable(edge@.branch, self@),
            e matches Ok(claimed) ==> claimed@ == claimed_edge(edge@, self@),
            e matches Err(err) ==> foreign(err, self@, edge@.branch),
    {
        let named = match &edge.branch {
            Some(named) => if same(named.as_str(), self.branch.as_str()) {
                true
            } else {
                return Err(
                    DbError::BranchMismatch {
                        view: self.branch.as_str().to_owned(),
                        named: named.as_str().to_owned(),
                    },
                );
            },
            None => false,
        };
        if named {
            Ok(edge)
        } else {
            Ok(edge.on_branch(self.branch.copy()))
        }
    }

    /// The edges on the lineage, or the refusal of the first that names
    /// another.
    pub fn claim_edges(&self, edges: Vec<EdgeAssertion>) -> (list: Result<Vec<EdgeAssertion>>)
        ensures
            list.is_ok() == (forall|i: int|
                0 <= i < edges@.len() ==> claimable((#[trigger] edges@[i])@.branch, self@)),
            list matches Ok(l) ==> l@.len() == edges@.len() && forall|i: int|
                0 <= i < l@.len() ==> (#[trigger] l@[i])@ == claimed_edge(edges@[i]@, self@),
            list matches Err(err) ==> exists|i: int|
                0 <= i < edges@.len() && foreign(err, self@, (#[trigger] edges@[i])@.branch) && forall|j: int|
                    0 <= j < i ==> claimable((#[trigger] edges@[j])@.branch, self@),
    {
        let ghost all = edges@;
        let mut list: Vec<EdgeAssertion> = Vec::new();
        for edge in it: edges
            invariant
                it.seq() == all,
                list@.len() == it.index(),
                forall|i: int| 0 <= i < list@.len() ==> claimable((#[trigger] all[i])@.branch, self@),
                forall|i: int| 0 <= i < list@.len() ==> (#[trigger] list@[i])@ == claimed_edge(all[i]@, self@),
        {
            proof {
                assert(edge == all[list@.len() as int]);
            }
            match self.claim_edge(edge) {
                Ok(claimed) => {
                    list.push(claimed);
                },
                Err(err) => {
                    return Err(err);
                },
            }
        }
        Ok(list)
    }

    /// The concept on the lineage, or its refusal where it names another.
    pub fn claim_concept(&self, concept: ConceptUpsert) -> (c: Result<ConceptUpsert>)
        ensures
            c.is_ok() == claimable(concept@.branch, self@),
            c matches Ok(claimed) ==> claimed@ == claimed_concept(concept@, self@),
            c matches Err(err) ==> foreign(err, self@, concept@.branch),
    {
        let named = match &concept.branch {
            Some(named) => if same(named.as_str(), self.branch.as_str()) {
                true
            } else {
                return Err(
                    DbError::BranchMismatch {
                        view: self.branch.as_str().to_owned(),
                        named: named.as_str().to_owned(),
                    },
                );
            },
            None => false,
        };
        if named {
            Ok(concept)
        } else {
            Ok(concept.on_branch(self.branch.copy()))
        }
    }

    /// The concepts on the lineage, or the refusal of the first that names
    /// another.
    pub fn claim_concepts(&self, concepts: Vec<ConceptUpsert>) -> (list: Result<Vec<ConceptUpsert>>)
        ensures
            list.is_ok() == (forall|i: int|
                0 <= i < concepts@.len() ==> claimable((#[trigger] concepts@[i])@.branch, self@)),
            list matches Ok(l) ==> l@.len() == concepts@.len() && forall|i: int|
                0 <= i < l@.len() ==> (#[trigger] l@[i])@ == claimed_concept(concepts@[i]@, self@),
            list matches Err(err) ==> exists|i: int|
                0 <= i < concepts@.len() && foreign(err, self@, (#[trigger] concepts@[i])@.branch) && forall|
                    j: int,
                |
                    0 <= j < i ==> claimable((#[trigger] concepts@[j])@.branch, self@),
    {
        let ghost all = concepts@;
        let mut list: Vec<ConceptUpsert> = Vec::new();
        for concept in it: concepts
            invariant
                it.seq() == all,
                list@.len() == it.index(),
                forall|i: int| 0 <= i < list@.len() ==> claimable((#[trigger] all[i])@.branch, self@),
                forall|i: int|
                    0 <= i < list@.len() ==> (#[trigger] list@[i])@ == claimed_concept(all[i]@, self@),
        {
            proof {
                assert(concept == all[list@.len() as int]);
            }
            match self.claim_concept(concept) {
                Ok(claimed) => {
                    list.push(claimed);
                },
                Err(err) => {
                    return Err(err);
                },
            }
        }
        Ok(list)
    }
}

/// What a view has claimed it may claim again, and that changes nothing; no
/// view of another lineage may.
pub proof fn law_claiming_is_idempotent(e: edge::AssertionView, branch: Seq<char>, other: Seq<char>)
    requires
        claimable(e.branch, branch),
    ensures
        claimable(claimed_edge(e, branch).branch, branch),
        claimed_edge(claimed_edge(e, branch), branch) == claimed_edge(e, branch),
        claimed_edge(e, branch).lineage() == branch,
        other != branch ==> !claimable(claimed_edge(e, branch).branch, other),
{
}

} // verus!
