//! Which lineages a read may see, and how much of each.

use vstd::prelude::*;

use crate::error::{DbError, Result};
use crate::schema::MAIN_BRANCH;
use crate::text;
use crate::text::{opt_clone, same, text_order, Order};

verus! {

/// How a read is lowered.
#[derive(Debug, Clone, Copy, PartialEq, Eq, Structural)]
pub enum LineageShape {
    /// One lineage in the ledger: nothing to resolve, nothing to name.
    Trunk,
    /// A lineage with ancestors, which a read resolves row by row.
    Resolved,
    /// A lineage without ancestors in a ledger that has forked.
    TrunkOnForked,
}

impl LineageShape {
    /// Whether the statement names the branch: on every shape but the trunk's.
    pub fn binds_branch(self) -> (bound: bool)
        ensures
            bound == (self != LineageShape::Trunk),
    {
        !matches!(self, LineageShape::Trunk)
    }
}

/// Reads every lineage.
pub const LOAD: &'static str = "SELECT branch_id, parent_id, forked_at FROM branches";

/// One row of the table of branches.
#[derive(Debug, Clone, PartialEq, Eq)]
pub struct BranchRow {
    pub id: String,
    pub parent: Option<String>,
    pub forked_at: Option<String>,
}

/// What a row of the table of branches holds.
pub struct RowView {
    pub id: Seq<char>,
    pub parent: Option<Seq<char>>,
    pub forked_at: Option<Seq<char>>,
}

impl View for BranchRow {
    type V = RowView;

    open spec fn view(&self) -> RowView {
        RowView {
            id: self.id@,
            parent: text::opt_view(self.parent),
            forked_at: text::opt_view(self.forked_at),
        }
    }
}

/// The first row named `name`, where there is one.
pub open spec fn row_of(rows: Seq<BranchRow>, name: Seq<char>) -> Option<RowView>
    decreases rows.len(),
{
    if rows.len() == 0 {
        None
    } else if rows[0].id@ == name {
        Some(rows[0]@)
    } else {
        row_of(rows.drop_first(), name)
    }
}

/// The first row named `name`.
pub fn find<'r>(rows: &'r [BranchRow], name: &str) -> (row: Option<&'r BranchRow>)
    ensures
        row.is_some() == row_of(rows@, name@).is_some(),
        row matches Some(r) ==> row_of(rows@, name@) == Some(r@),
{
    let mut i: usize = 0;
    let n: usize = rows.len();
    proof {
        assert(rows@.skip(0) =~= rows@);
    }
    while i < n
        invariant
            n == rows@.len(),
            i <= n,
            row_of(rows@, name@) == row_of(rows@.skip(i as int), name@),
        decreases n - i,
    {
        proof {
            assert(rows@.skip(i as int)[0] == rows@[i as int]);
            assert(rows@.skip(i as int).drop_first() =~= rows@.skip(i + 1));
        }
        if same(rows[i].id.as_str(), name) {
            return Some(&rows[i]);
        }
        i = i + 1;
    }
    None
}

/// The shape of a row's own reads, in a ledger of `lineages` branches.
pub open spec fn shape_in(lineages: nat, row: RowView) -> LineageShape {
    if lineages <= 1 {
        LineageShape::Trunk
    } else if row.parent.is_none() {
        LineageShape::TrunkOnForked
    } else {
        LineageShape::Resolved
    }
}

/// The shape of reads on `name`, where it is a branch.
pub open spec fn shape_for(rows: Seq<BranchRow>, name: Seq<char>) -> Option<LineageShape> {
    match row_of(rows, name) {
        Some(row) => Some(shape_in(rows.len(), row)),
        None => None,
    }
}

/// The one shape that serves all of `names`: theirs where they have the same,
/// the resolved one where they differ, the trunk's where there is none.
pub open spec fn shape_for_all(rows: Seq<BranchRow>, names: Seq<&str>) -> LineageShape {
    if names.len() == 0 {
        LineageShape::Trunk
    } else if forall|i: int|
        0 <= i < names.len() ==> shape_for(rows, (#[trigger] names[i])@) == shape_for(rows, names[0]@) {
        shape_for(rows, names[0]@).unwrap()
    } else {
        LineageShape::Resolved
    }
}

/// Whether every one of the first `n` names is a branch.
pub open spec fn all_known(rows: Seq<BranchRow>, names: Seq<&str>, n: int) -> bool {
    forall|i: int| 0 <= i < n ==> row_of(rows, (#[trigger] names[i])@).is_some()
}

/// Whether `name` is the first of `names` that is no branch.
pub open spec fn first_unknown(rows: Seq<BranchRow>, names: Seq<&str>, name: Seq<char>) -> bool {
    exists|i: int|
        0 <= i < names.len() && all_known(rows, names, i) && row_of(rows, name).is_none()
            && #[trigger] names[i]@ == name
}

/// The branches of a ledger, as one read of them found them.
#[derive(Debug, Clone, PartialEq, Eq)]
pub struct Lineages {
    pub rows: Vec<BranchRow>,
}

impl Lineages {
    /// The shape of reads on `name`. A name that is no branch is refused.
    pub fn shape(&self, name: &str) -> (shape: Result<LineageShape>)
        ensures
            shape.is_ok() == row_of(self.rows@, name@).is_some(),
            shape matches Ok(s) ==> shape_for(self.rows@, name@) == Some(s),
            shape matches Err(e) ==> (e matches DbError::UnknownBranch(n) && n@ == name@),
    {
        match find(self.rows.as_slice(), name) {
            None => Err(DbError::UnknownBranch(name.to_owned())),
            Some(row) => if self.rows.len() <= 1 {
                Ok(LineageShape::Trunk)
            } else if row.parent.is_none() {
                Ok(LineageShape::TrunkOnForked)
            } else {
                Ok(LineageShape::Resolved)
            },
        }
    }

    /// The one shape that serves all of `names`. The first that is no branch is
    /// refused.
    pub fn shape_of(&self, names: &[&str]) -> (shape: Result<LineageShape>)
        ensures
            shape.is_ok() == all_known(self.rows@, names@, names@.len() as int),
            shape matches Ok(s) ==> s == shape_for_all(self.rows@, names@),
            shape matches Err(e) ==> (e matches DbError::UnknownBranch(n) && first_unknown(
                self.rows@,
                names@,
                n@,
            )),
    {
        let mut agreed: Option<LineageShape> = None;
        let mut differ: bool = false;
        let n: usize = names.len();
        let mut i: usize = 0;
        while i < n
            invariant
                n == names@.len(),
                i <= n,
                all_known(self.rows@, names@, i as int),
                agreed.is_some() == (i > 0),
                agreed matches Some(s) ==> s == (if differ {
                    LineageShape::Resolved
                } else {
                    shape_for(self.rows@, names@[0]@).unwrap()
                }),
                differ == exists|j: int|
                    0 <= j < i && shape_for(self.rows@, (#[trigger] names@[j])@) != shape_for(
                        self.rows@,
                        names@[0]@,
                    ),
            decreases n - i,
        {
            let name = names[i];
            let shape = match self.shape(name) {
                Ok(shape) => shape,
                Err(e) => {
                    proof {
                        assert(names@[i as int]@ == name@);
                    }
                    return Err(e);
                },
            };
            agreed = match agreed {
                None => Some(shape),
                Some(prev) => if prev == shape {
                    proof {
                        if !differ {
                            assert(shape_for(self.rows@, names@[0]@) == Some(prev));
                        }
                    }
                    Some(prev)
                } else {
                    proof {
                        if !differ {
                            assert(shape_for(self.rows@, names@[0]@) == Some(prev));
                            assert(shape_for(self.rows@, names@[i as int]@) != shape_for(
                                self.rows@,
                                names@[0]@,
                            ));
                        }
                    }
                    differ = true;
                    Some(LineageShape::Resolved)
                },
            };
            i = i + 1;
        }
        match agreed {
            Some(shape) => Ok(shape),
            None => Ok(LineageShape::Trunk),
        }
    }

    /// What a read on `start` may see of each lineage, nearest first.
    pub fn ancestry(&self, start: &str) -> (ancestors: Vec<Ancestor>)
        requires
            self.rows@.len() < i64::MAX,
        ensures
            ancestors_view(ancestors@) == ancestry_of(self.rows@, start@),
    {
        resolve(self.rows.as_slice(), start)
    }

    /// The shape of a read on `branch`, the trunk where none is named, and what
    /// it may see of each lineage where the shape asks for that.
    pub fn resolve_for(&self, branch: Option<&str>) -> (found: Result<(LineageShape, Vec<Ancestor>)>)
        requires
            self.rows@.len() < i64::MAX,
        ensures
            found.is_ok() == row_of(self.rows@, named(branch)).is_some(),
            found matches Ok((shape, ancestors)) ==> shape_for(self.rows@, named(branch)) == Some(shape)
                && ancestors_view(ancestors@) == (if shape == LineageShape::Resolved {
                ancestry_of(self.rows@, named(branch))
            } else {
                Seq::empty()
            }),
            found matches Err(e) ==> (e matches DbError::UnknownBranch(n) && n@ == named(branch)),
    {
        let name = match branch {
            Some(name) => name,
            None => MAIN_BRANCH,
        };
        let shape = self.shape(name)?;
        let ancestry = match shape {
            LineageShape::Resolved => self.ancestry(name),
            _ => Vec::new(),
        };
        proof {
            if shape != LineageShape::Resolved {
                assert(ancestors_view(ancestry@) =~= Seq::empty());
            }
        }
        Ok((shape, ancestry))
    }
}

/// The branch a read names: the trunk where it names none.
pub open spec fn named(branch: Option<&str>) -> Seq<char> {
    match branch {
        Some(name) => name@,
        None => MAIN_BRANCH@,
    }
}

/// One lineage that a read may see.
#[derive(Debug, Clone, PartialEq, Eq)]
#[non_exhaustive]
pub struct Ancestor {
    pub branch_id: String,
    /// How many forks lie between the reader and this lineage.
    pub dist: i64,
    /// The last instant of it that the reader may see; none for the reader.
    pub cutoff: Option<String>,
}

/// What an ancestor is.
pub struct AncestorView {
    pub branch_id: Seq<char>,
    pub dist: int,
    pub cutoff: Option<Seq<char>>,
}

impl View for Ancestor {
    type V = AncestorView;

    open spec fn view(&self) -> AncestorView {
        AncestorView {
            branch_id: self.branch_id@,
            dist: self.dist as int,
            cutoff: text::opt_view(self.cutoff),
        }
    }
}

/// What a list of ancestors is.
pub open spec fn ancestors_view(list: Seq<Ancestor>) -> Seq<AncestorView> {
    list.map_values(|a: Ancestor| a@)
}

impl Ancestor {
    /// A lineage `dist` forks away, uncut.
    pub fn new(branch_id: &str, dist: i64) -> (a: Ancestor)
        ensures
            a@ == (AncestorView { branch_id: branch_id@, dist: dist as int, cutoff: None }),
    {
        Ancestor { branch_id: branch_id.to_owned(), dist, cutoff: None }
    }

    /// The same lineage, cut at `ts`.
    pub fn cutoff(self, ts: &str) -> (a: Ancestor)
        ensures
            a@ == (AncestorView { branch_id: self@.branch_id, dist: self@.dist, cutoff: Some(ts@) }),
    {
        Ancestor { branch_id: self.branch_id, dist: self.dist, cutoff: Some(ts.to_owned()) }
    }
}

/// The parent of `name` and the instant it forked, where it has both.
pub open spec fn fork_of(rows: Seq<BranchRow>, name: Seq<char>) -> Option<(Seq<char>, Seq<char>)> {
    match row_of(rows, name) {
        Some(row) => match (row.parent, row.forked_at) {
            (Some(parent), Some(forked)) => Some((parent, forked)),
            _ => None,
        },
        None => None,
    }
}

/// The earlier of a cutoff, none being later than any, and a fork point.
pub open spec fn earlier(cutoff: Option<Seq<char>>, forked: Seq<char>) -> Seq<char> {
    match cutoff {
        Some(c) => if text::text_le(c, forked) {
            c
        } else {
            forked
        },
        None => forked,
    }
}

/// The lineage after `at`: the parent of `at`, cut at the earliest fork so far.
pub open spec fn parent_of(rows: Seq<BranchRow>, at: AncestorView) -> AncestorView {
    let (parent, forked) = fork_of(rows, at.branch_id).unwrap();
    AncestorView { branch_id: parent, dist: at.dist + 1, cutoff: Some(earlier(at.cutoff, forked)) }
}

/// `at` and the lineages above it, at most `left` of them.
pub open spec fn lineages_from(rows: Seq<BranchRow>, at: AncestorView, left: nat) -> Seq<AncestorView>
    decreases left,
{
    if left == 0 || fork_of(rows, at.branch_id).is_none() {
        seq![at]
    } else {
        seq![at] + lineages_from(rows, parent_of(rows, at), (left - 1) as nat)
    }
}

/// What a read on `start` may see: `start` itself, uncut, then its parent, and
/// so on upwards. No chain is longer than the number of branches.
pub open spec fn ancestry_of(rows: Seq<BranchRow>, start: Seq<char>) -> Seq<AncestorView> {
    lineages_from(rows, AncestorView { branch_id: start, dist: 0, cutoff: None }, rows.len())
}

/// What a read on `start` may see of each lineage, nearest first.
pub fn resolve(rows: &[BranchRow], start: &str) -> (ancestors: Vec<Ancestor>)
    requires
        rows@.len() < i64::MAX,
    ensures
        ancestors_view(ancestors@) == ancestry_of(rows@, start@),
{
    let mut out: Vec<Ancestor> = Vec::new();
    let mut cur: String = start.to_owned();
    let mut cutoff: Option<String> = None;
    let mut dist: i64 = 0;
    let n: i64 = rows.len() as i64;
    let mut more: bool = true;
    while more
        invariant
            n == rows@.len(),
            0 <= dist <= n,
            more ==> ancestors_view(out@) + lineages_from(
                rows@,
                AncestorView { branch_id: cur@, dist: dist as int, cutoff: text::opt_view(cutoff) },
                (n - dist) as nat,
            ) == ancestry_of(rows@, start@),
            !more ==> ancestors_view(out@) == ancestry_of(rows@, start@),
            n < i64::MAX,
        decreases n - dist + if more { 1int } else { 0int },
    {
        let ghost at = AncestorView { branch_id: cur@, dist: dist as int, cutoff: text::opt_view(cutoff) };
        let ghost before = ancestors_view(out@);
        out.push(Ancestor { branch_id: cur.clone(), dist, cutoff: opt_clone(&cutoff) });
        proof {
            assert(ancestors_view(out@) =~= before.push(at));
            assert(before + seq![at] =~= before.push(at));
        }
        more = false;
        if dist < n {
            if let Some(node) = find(rows, cur.as_str()) {
                if let Some(parent) = &node.parent {
                    if let Some(forked) = &node.forked_at {
                        let kept = match &cutoff {
                            Some(c) => text_order(c.as_str(), forked.as_str()) != Order::Greater,
                            None => false,
                        };
                        proof {
                            text::lemma_text_lt_asymmetric(at.cutoff.unwrap_or(forked@), forked@);
                            assert(kept ==> earlier(at.cutoff, forked@) == at.cutoff.unwrap());
                            assert(!kept ==> earlier(at.cutoff, forked@) == forked@);
                        }
                        if !kept {
                            cutoff = Some(forked.clone());
                        }
                        cur = parent.clone();
                        dist = dist + 1;
                        more = true;
                        proof {
                            let next = parent_of(rows@, at);
                            assert(next == AncestorView {
                                branch_id: cur@,
                                dist: dist as int,
                                cutoff: text::opt_view(cutoff),
                            });
                            assert(before + (seq![at] + lineages_from(rows@, next, (n - dist) as nat))
                                =~= before.push(at) + lineages_from(rows@, next, (n - dist) as nat));
                        }
                    }
                }
            }
        }
    }
    out
}

/// Whether entry `i` of an ancestry is followed by its parent.
pub open spec fn follows(rows: Seq<BranchRow>, list: Seq<AncestorView>, i: int) -> bool {
    fork_of(rows, list[i].branch_id).is_some() && list[i + 1] == parent_of(rows, list[i])
}

proof fn lemma_lineages_from(rows: Seq<BranchRow>, at: AncestorView, left: nat)
    ensures
        1 <= lineages_from(rows, at, left).len() <= left + 1,
        lineages_from(rows, at, left)[0] == at,
        forall|i: int|
            0 <= i < lineages_from(rows, at, left).len() - 1 ==> follows(
                rows,
                lineages_from(rows, at, left),
                i,
            ),
        lineages_from(rows, at, left).len() <= left ==> fork_of(
            rows,
            lineages_from(rows, at, left).last().branch_id,
        ).is_none(),
    decreases left,
{
    let list = lineages_from(rows, at, left);
    if left != 0 && fork_of(rows, at.branch_id).is_some() {
        let rest = lineages_from(rows, parent_of(rows, at), (left - 1) as nat);
        lemma_lineages_from(rows, parent_of(rows, at), (left - 1) as nat);
        assert(list == seq![at] + rest);
        assert forall|i: int| 0 <= i < list.len() - 1 implies follows(rows, list, i) by {
            if i > 0 {
                assert(follows(rows, rest, i - 1));
                assert(list[i] == rest[i - 1]);
                assert(list[i + 1] == rest[i]);
            }
        }
    }
}

/// A shape serves the reads of a lineage: there is one exactly where the lineage is
/// registered. Reads that name no lineage are of a ledger that has no other, reads
/// that name theirs alone are of a lineage that sees no other, and a lineage that
/// sees others, in a ledger that has them, resolves them.
pub proof fn law_the_shape_serves_the_lineage(rows: Seq<BranchRow>, name: Seq<char>)
    ensures
        shape_for(rows, name).is_some() <==> exists|i: int| 0 <= i < rows.len() && (#[trigger] rows[i]).id@ == name,
        shape_for(rows, name) == Some(LineageShape::Trunk) ==> rows.len() == 1 && rows[0].id@ == name,
        shape_for(rows, name) == Some(LineageShape::TrunkOnForked) ==> 1 < rows.len() && ancestry_of(rows, name).len()
            == 1,
        1 < rows.len() && 1 < ancestry_of(rows, name).len() ==> shape_for(rows, name) == Some(
            LineageShape::Resolved,
        ),
        shape_for(rows, name) == Some(LineageShape::Resolved) ==> 1 < rows.len() && row_of(
            rows,
            name,
        ).unwrap().parent.is_some(),
{
    lemma_row_found(rows, name);
    let at = AncestorView { branch_id: name, dist: 0, cutoff: None };
    if fork_of(rows, name).is_none() {
        assert(lineages_from(rows, at, rows.len()) =~= seq![at]);
    }
}

/// A row is found where one has the name.
proof fn lemma_row_found(rows: Seq<BranchRow>, name: Seq<char>)
    ensures
        row_of(rows, name).is_some() <==> exists|i: int| 0 <= i < rows.len() && (#[trigger] rows[i]).id@ == name,
    decreases rows.len(),
{
    if rows.len() > 0 && rows[0].id@ != name {
        let rest = rows.drop_first();
        lemma_row_found(rest, name);
        if row_of(rest, name).is_some() {
            let i = choose|i: int| 0 <= i < rest.len() && (#[trigger] rest[i]).id@ == name;
            assert(rows[i + 1].id@ == name);
        }
        if exists|i: int| 0 <= i < rows.len() && (#[trigger] rows[i]).id@ == name {
            let i = choose|i: int| 0 <= i < rows.len() && (#[trigger] rows[i]).id@ == name;
            assert(rest[i - 1].id@ == name);
        }
    }
}

/// The shape that serves several lineages is theirs, or the one that resolves.
pub proof fn law_one_shape_serves_them_all(rows: Seq<BranchRow>, names: Seq<&str>, i: int)
    requires
        0 <= i < names.len(),
        forall|k: int| 0 <= k < names.len() ==> shape_for(rows, (#[trigger] names[k])@).is_some(),
    ensures
        shape_for_all(rows, names) == LineageShape::Resolved || Some(shape_for_all(rows, names)) == shape_for(
            rows,
            names[i]@,
        ),
{
    assert(shape_for(rows, names[0]@).is_some());
}

/// An ancestry starts with the reader, uncut, and climbs parent by parent until
/// a lineage has no parent; only a ledger whose parents form a cycle stops it
/// earlier, after one entry more than there are branches. Distances count up
/// from nought, and every lineage but the reader's own is cut.
pub proof fn law_ancestry_climbs_from_the_reader(rows: Seq<BranchRow>, start: Seq<char>)
    ensures
        1 <= ancestry_of(rows, start).len() <= rows.len() + 1,
        ancestry_of(rows, start)[0] == (AncestorView { branch_id: start, dist: 0, cutoff: None }),
        forall|i: int|
            0 <= i < ancestry_of(rows, start).len() - 1 ==> follows(rows, ancestry_of(rows, start), i),
        forall|i: int|
            0 <= i < ancestry_of(rows, start).len() ==> (#[trigger] ancestry_of(rows, start)[i]).dist == i
                && (ancestry_of(rows, start)[i].cutoff.is_none() <==> i == 0),
        fork_of(rows, ancestry_of(rows, start).last().branch_id).is_none() || ancestry_of(rows, start).len()
            == rows.len() + 1,
{
    let list = ancestry_of(rows, start);
    lemma_lineages_from(rows, AncestorView { branch_id: start, dist: 0, cutoff: None }, rows.len());
    assert forall|i: int| 0 <= i < list.len() implies (#[trigger] list[i]).dist == i && (
    list[i].cutoff.is_none() <==> i == 0) by {
        lemma_distance(rows, list, i);
    }
}

proof fn lemma_distance(rows: Seq<BranchRow>, list: Seq<AncestorView>, i: int)
    requires
        0 <= i < list.len(),
        list[0].dist == 0 && list[0].cutoff.is_none(),
        forall|j: int| 0 <= j < list.len() - 1 ==> follows(rows, list, j),
    ensures
        list[i].dist == i,
        list[i].cutoff.is_none() <==> i == 0,
    decreases i,
{
    if i > 0 {
        lemma_distance(rows, list, i - 1);
        assert(follows(rows, list, i - 1));
    }
}

/// The instant at which entry `i` of an ancestry forked from its parent.
pub open spec fn fork_point(rows: Seq<BranchRow>, list: Seq<AncestorView>, i: int) -> Seq<char> {
    fork_of(rows, list[i].branch_id).unwrap().1
}

/// A lineage is cut at the earliest fork between it and the reader: its cutoff
/// is one of those fork points, and none of them is earlier.
pub proof fn law_cutoff_is_the_earliest_fork(rows: Seq<BranchRow>, start: Seq<char>, i: int)
    requires
        0 < i < ancestry_of(rows, start).len(),
    ensures
        exists|j: int|
            0 <= j < i && ancestry_of(rows, start)[i].cutoff == Some(
                #[trigger] fork_point(rows, ancestry_of(rows, start), j),
            ),
        forall|j: int|
            0 <= j < i ==> text::text_le(
                ancestry_of(rows, start)[i].cutoff.unwrap(),
                #[trigger] fork_point(rows, ancestry_of(rows, start), j),
            ),
    decreases i,
{
    let list = ancestry_of(rows, start);
    law_ancestry_climbs_from_the_reader(rows, start);
    assert(follows(rows, list, i - 1));
    let here = fork_point(rows, list, i - 1);
    if i > 1 {
        law_cutoff_is_the_earliest_fork(rows, start, i - 1);
        let c = list[i - 1].cutoff.unwrap();
        text::lemma_text_lt_total(c, here);
        if text::text_le(c, here) {
            let j = choose|j: int|
                0 <= j < i - 1 && list[i - 1].cutoff == Some(#[trigger] fork_point(rows, list, j));
            assert(list[i].cutoff == Some(fork_point(rows, list, j)));
        } else {
            assert(list[i].cutoff == Some(fork_point(rows, list, i - 1)));
            assert forall|j: int| 0 <= j < i implies text::text_le(
                here,
                #[trigger] fork_point(rows, list, j),
            ) by {
                if j < i - 1 {
                    let f = fork_point(rows, list, j);
                    if c != f {
                        text::lemma_text_lt_transitive(here, c, f);
                    }
                }
            }
        }
    } else {
        assert(list[i].cutoff == Some(fork_point(rows, list, 0)));
    }
}

/// Whether no branch forked before its parent did, which [`crate::branch::fork`]
/// sees to.
pub open spec fn forks_in_order(rows: Seq<BranchRow>) -> bool {
    forall|name: Seq<char>|
        (#[trigger] fork_of(rows, name)).is_some() && fork_of(rows, fork_of(rows, name).unwrap().0).is_some()
            ==> text::text_le(
            fork_of(rows, fork_of(rows, name).unwrap().0).unwrap().1,
            fork_of(rows, name).unwrap().1,
        )
}

/// Where no branch forked before its parent did, each lineage is cut at the
/// fork of the lineage just below it.
pub proof fn law_ordered_forks_cut_at_the_nearest(rows: Seq<BranchRow>, start: Seq<char>, i: int)
    requires
        forks_in_order(rows),
        0 < i < ancestry_of(rows, start).len(),
    ensures
        ancestry_of(rows, start)[i].cutoff == Some(fork_point(rows, ancestry_of(rows, start), i - 1)),
    decreases i,
{
    let list = ancestry_of(rows, start);
    law_ancestry_climbs_from_the_reader(rows, start);
    assert(follows(rows, list, i - 1));
    if i > 1 {
        law_ordered_forks_cut_at_the_nearest(rows, start, i - 1);
        assert(follows(rows, list, i - 2));
        assert(fork_of(rows, list[i - 2].branch_id).is_some());
        let c = fork_point(rows, list, i - 2);
        let here = fork_point(rows, list, i - 1);
        assert(text::text_le(here, c));
        text::lemma_text_lt_asymmetric(c, here);
    }
}

/// Whether the parent of every branch is a branch.
pub open spec fn parents_known(rows: Seq<BranchRow>) -> bool {
    forall|name: Seq<char>|
        (#[trigger] fork_of(rows, name)).is_some() ==> row_of(rows, fork_of(rows, name).unwrap().0).is_some()
}

proof fn lemma_row_of_push(rows: Seq<BranchRow>, row: BranchRow, name: Seq<char>)
    ensures
        row_of(rows.push(row), name) == (if row_of(rows, name).is_some() {
            row_of(rows, name)
        } else if row.id@ == name {
            Some(row@)
        } else {
            None
        }),
    decreases rows.len(),
{
    if rows.len() == 0 {
        assert(rows.push(row).drop_first() =~= Seq::empty());
        assert(row_of(rows.push(row).drop_first(), name).is_none());
    } else {
        assert(rows.push(row).drop_first() =~= rows.drop_first().push(row));
        lemma_row_of_push(rows.drop_first(), row, name);
    }
}

/// A branch that [`crate::branch::fork`] lets through keeps the order of forks:
/// it is new, its parent is a branch, and it does not fork before its parent
/// did.
pub proof fn law_forking_keeps_the_order(rows: Seq<BranchRow>, row: BranchRow, parent: Seq<char>, stamp: Seq<char>)
    requires
        forks_in_order(rows),
        parents_known(rows),
        row@ == (RowView { id: row.id@, parent: Some(parent), forked_at: Some(stamp) }),
        row_of(rows, row.id@).is_none(),
        row_of(rows, parent).is_some(),
        row_of(rows, parent).unwrap().forked_at matches Some(at) ==> !text::text_lt(stamp, at),
    ensures
        forks_in_order(rows.push(row)),
        parents_known(rows.push(row)),
{
    let more = rows.push(row);
    assert forall|name: Seq<char>|
        (#[trigger] fork_of(more, name)).is_some() implies row_of(
        more,
        fork_of(more, name).unwrap().0,
    ).is_some() && (fork_of(more, fork_of(more, name).unwrap().0).is_some() ==> text::text_le(
        fork_of(more, fork_of(more, name).unwrap().0).unwrap().1,
        fork_of(more, name).unwrap().1,
    )) by {
        lemma_row_of_push(rows, row, name);
        let above = fork_of(more, name).unwrap().0;
        lemma_row_of_push(rows, row, above);
        if row_of(rows, name).is_some() {
            assert(fork_of(more, name) == fork_of(rows, name));
            assert(row_of(rows, above).is_some());
            assert(fork_of(more, above) == fork_of(rows, above));
        } else {
            assert(above == parent);
            if let Some((_, at)) = fork_of(rows, parent) {
                text::lemma_text_lt_total(stamp, at);
            }
        }
    }
}

} // verus!
