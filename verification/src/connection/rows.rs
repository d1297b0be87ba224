//! What is written, and the rows that writing it binds.

use vstd::prelude::*;

use crate::branch;
use crate::branch::BranchId;
use crate::error::{DbError, Result};
use crate::graph::edge;
use crate::graph::edge::EdgeAssertion;
use crate::graph::lineage;
use crate::graph::lineage::{Ancestor, LineageShape};
use crate::graph::lineage_sql;
use crate::graph::lineage_sql::ancestry_params;
use crate::schema;
use crate::schema::{MAIN_BRANCH, OPEN_SENTINEL};
use crate::sql;
use crate::sql::{bind, nullable_value, text_value, SqlValue, SqlView};
use crate::text;
use crate::util::ids;
use crate::util::ids::validate_id;
use crate::util::timestamp;
use crate::util::timestamp::normalize;

verus! {

/// A concept as it is to stand from now on.
#[derive(Debug, Clone, PartialEq)]
pub struct ConceptUpsert {
    pub id: String,
    pub title: String,
    pub content: String,
    pub embedding_model: Option<String>,
    pub valid_from: String,
    pub valid_to: String,
    pub retired: bool,
    /// The lineage it is claimed for; none is the trunk.
    pub branch: Option<BranchId>,
}

/// What a concept is to be.
pub struct ConceptView {
    pub id: Seq<char>,
    pub title: Seq<char>,
    pub content: Seq<char>,
    pub embedding_model: Option<Seq<char>>,
    pub valid_from: Seq<char>,
    pub valid_to: Seq<char>,
    pub retired: bool,
    pub branch: Option<Seq<char>>,
}

impl View for ConceptUpsert {
    type V = ConceptView;

    open spec fn view(&self) -> ConceptView {
        ConceptView {
            id: self.id@,
            title: self.title@,
            content: self.content@,
            embedding_model: text::opt_view(self.embedding_model),
            valid_from: self.valid_from@,
            valid_to: self.valid_to@,
            retired: self.retired,
            branch: branch::branch_view(self.branch),
        }
    }
}

impl ConceptView {
    /// The lineage the concept goes to.
    pub open spec fn lineage(self) -> Seq<char> {
        match self.branch {
            Some(name) => name,
            None => schema::MAIN_BRANCH@,
        }
    }
}

/// Whether a concept may be written.
pub open spec fn writable(c: ConceptView) -> bool {
    ids::is_valid_id(c.id) && timestamp::is_stamp(c.valid_from) && timestamp::is_stamp(c.valid_to)
}

/// The refusal of a concept that may not be written: of its id, else of the
/// first of its two instants that is none.
pub open spec fn concept_refused(c: ConceptView, err: DbError) -> bool {
    if !ids::is_valid_id(c.id) {
        ids::refuses(err, c.id)
    } else if !timestamp::is_stamp(c.valid_from) {
        timestamp::refuses(err, c.valid_from)
    } else {
        timestamp::refuses(err, c.valid_to)
    }
}

/// A concept with its instants in canonical form.
pub open spec fn concept_normalized(c: ConceptView) -> ConceptView {
    ConceptView {
        valid_from: timestamp::widened(c.valid_from),
        valid_to: timestamp::widened(c.valid_to),
        ..c
    }
}

impl ConceptUpsert {
    /// A concept without content, valid without end from an instant that is
    /// still to be stated.
    pub fn new(id: &str, title: &str) -> (c: ConceptUpsert)
        ensures
            c@ == (ConceptView {
                id: id@,
                title: title@,
                content: Seq::empty(),
                embedding_model: None,
                valid_from: Seq::empty(),
                valid_to: schema::OPEN_SENTINEL@,
                retired: false,
                branch: None,
            }),
    {
        ConceptUpsert {
            id: id.to_owned(),
            title: title.to_owned(),
            content: String::new(),
            embedding_model: None,
            valid_from: String::new(),
            valid_to: OPEN_SENTINEL.to_owned(),
            retired: false,
            branch: None,
        }
    }

    /// The name of the lineage the concept goes to.
    pub fn branch_name(&self) -> (name: &str)
        ensures
            name@ == self@.lineage(),
    {
        match &self.branch {
            Some(b) => b.as_str(),
            None => MAIN_BRANCH,
        }
    }

    /// The same concept with this content.
    pub fn content(self, content: &str) -> (c: ConceptUpsert)
        ensures
            c@ == (ConceptView { content: content@, ..self@ }),
    {
        let mut c = self;
        c.content = content.to_owned();
        c
    }

    /// The same concept embedded by this model.
    pub fn embedding_model(self, model: &str) -> (c: ConceptUpsert)
        ensures
            c@ == (ConceptView { embedding_model: Some(model@), ..self@ }),
    {
        let mut c = self;
        c.embedding_model = Some(model.to_owned());
        c
    }

    /// The same concept, valid from `ts`.
    pub fn valid_from(self, ts: &str) -> (c: ConceptUpsert)
        ensures
            c@ == (ConceptView { valid_from: ts@, ..self@ }),
    {
        let mut c = self;
        c.valid_from = ts.to_owned();
        c
    }

    /// The same concept, valid until `ts`.
    pub fn valid_to(self, ts: &str) -> (c: ConceptUpsert)
        ensures
            c@ == (ConceptView { valid_to: ts@, ..self@ }),
    {
        let mut c = self;
        c.valid_to = ts.to_owned();
        c
    }

    /// The same concept, retired or not.
    pub fn retired(self, retired: bool) -> (c: ConceptUpsert)
        ensures
            c@ == (ConceptView { retired, ..self@ }),
    {
        let mut c = self;
        c.retired = retired;
        c
    }

    /// The same concept on `branch`.
    pub fn on_branch(self, branch: BranchId) -> (c: ConceptUpsert)
        ensures
            c@ == (ConceptView { branch: Some(branch@), ..self@ }),
    {
        let mut c = self;
        c.branch = Some(branch);
        c
    }

    /// The concept with its instants in canonical form, or its refusal.
    pub fn normalized(self) -> (c: Result<ConceptUpsert>)
        ensures
            c.is_ok() == writable(self@),
            c matches Ok(n) ==> n@ == concept_normalized(self@),
            c matches Err(err) ==> concept_refused(self@, err),
    {
        let mut c = self;
        if let Err(err) = validate_id(c.id.as_str()) {
            return Err(err);
        }
        let from = match normalize(c.valid_from.as_str()) {
            Ok(ts) => ts,
            Err(err) => {
                return Err(err);
            },
        };
        let to = match normalize(c.valid_to.as_str()) {
            Ok(ts) => ts,
            Err(err) => {
                return Err(err);
            },
        };
        c.valid_from = from;
        c.valid_to = to;
        Ok(c)
    }
}

/// The concepts of a batch.
pub open spec fn concepts_view(list: Seq<ConceptUpsert>) -> Seq<ConceptView> {
    list.map_values(|c: ConceptUpsert| c@)
}

/// Whether `err` refuses the first concept of `list` that may not be written.
pub open spec fn first_concept_refused(list: Seq<ConceptUpsert>, err: DbError) -> bool {
    exists|i: int|
        0 <= i < list.len() && concept_refused((#[trigger] list[i])@, err) && !writable(list[i]@) && forall|
            j: int,
        |
            0 <= j < i ==> writable((#[trigger] list[j])@)
}

/// All concepts in canonical form, or the refusal of the first that may not be
/// written.
pub fn normalize_concepts(list: Vec<ConceptUpsert>) -> (normal: Result<Vec<ConceptUpsert>>)
    ensures
        normal.is_ok() == (forall|i: int| 0 <= i < list@.len() ==> writable((#[trigger] list@[i])@)),
        normal matches Ok(n) ==> concepts_view(n@) == concepts_view(list@).map_values(
            |c: ConceptView| concept_normalized(c),
        ),
        normal matches Err(err) ==> first_concept_refused(list@, err),
{
    let ghost whole = list@;
    let mut done: Vec<ConceptUpsert> = Vec::new();
    for first in it: list
        invariant
            it.seq() == whole,
            done@.len() == it.index(),
            forall|i: int| 0 <= i < done@.len() ==> writable((#[trigger] whole[i])@),
            forall|i: int|
                0 <= i < done@.len() ==> (#[trigger] done@[i])@ == concept_normalized(whole[i]@),
    {
        proof {
            assert(first == whole[done@.len() as int]);
        }
        match first.normalized() {
            Ok(c) => {
                done.push(c);
            },
            Err(err) => {
                return Err(err);
            },
        }
    }
    proof {
        assert(concepts_view(done@) =~= concepts_view(whole).map_values(
            |c: ConceptView| concept_normalized(c),
        ));
    }
    Ok(done)
}

/// Whether `err` refuses the first edge of `list` that may not be asserted.
pub open spec fn first_edge_refused(list: Seq<EdgeAssertion>, err: DbError) -> bool {
    exists|i: int|
        0 <= i < list.len() && edge::refused((#[trigger] list[i])@, err) && !edge::assertable(list[i]@)
            && forall|j: int| 0 <= j < i ==> edge::assertable((#[trigger] list[j])@)
}

/// An edge with its instants in canonical form.
pub open spec fn edge_normalized(e: edge::AssertionView) -> edge::AssertionView {
    edge::AssertionView {
        valid_from: timestamp::widened(e.valid_from),
        valid_to: timestamp::widened(e.valid_to),
        ..e
    }
}

/// All edges in canonical form, or the refusal of the first that may not be
/// asserted.
pub fn normalize_all(list: Vec<EdgeAssertion>) -> (normal: Result<Vec<EdgeAssertion>>)
    ensures
        normal.is_ok() == (forall|i: int| 0 <= i < list@.len() ==> edge::assertable((#[trigger] list@[i])@)),
        normal matches Ok(n) ==> n@.len() == list@.len() && forall|i: int|
            0 <= i < n@.len() ==> (#[trigger] n@[i])@ == edge_normalized(list@[i]@),
        normal matches Err(err) ==> first_edge_refused(list@, err),
{
    let ghost whole = list@;
    let mut done: Vec<EdgeAssertion> = Vec::new();
    for first in it: list
        invariant
            it.seq() == whole,
            done@.len() == it.index(),
            forall|i: int| 0 <= i < done@.len() ==> edge::assertable((#[trigger] whole[i])@),
            forall|i: int|
                0 <= i < done@.len() ==> (#[trigger] done@[i])@ == edge_normalized(whole[i]@),
    {
        proof {
            assert(first == whole[done@.len() as int]);
        }
        match first.normalized() {
            Ok(e) => {
                done.push(e);
            },
            Err(err) => {
                return Err(err);
            },
        }
    }
    Ok(done)
}

/// A label that an analysis puts on a concept.
#[derive(Debug, Clone, PartialEq, Eq)]
pub struct Annotation {
    pub concept_id: String,
    pub label: String,
    pub value: String,
}

impl Annotation {
    /// The value of a label on a concept.
    pub fn new(concept_id: &str, label: &str, value: &str) -> (a: Annotation)
        ensures
            a.concept_id@ == concept_id@,
            a.label@ == label@,
            a.value@ == value@,
    {
        Annotation {
            concept_id: concept_id.to_owned(),
            label: label.to_owned(),
            value: value.to_owned(),
        }
    }
}

/// Asserts an edge.
pub const INSERT_LINK: &'static str =
    "INSERT INTO links (source_id, target_id, edge_type, valid_from, valid_to, weight, properties, recorded_at, branch_id) VALUES (?1, ?2, ?3, ?4, ?5, ?6, ?7, ?8, ?9)";

/// Writes a concept, over the one of the same id where there is one. The lineage
/// of that one stays what it is.
pub const UPSERT_CONCEPT: &'static str =
    "INSERT INTO concepts (id, title, content, embedding_model, valid_from, valid_to, recorded_at, retired, branch_id) VALUES (?1, ?2, ?3, ?4, ?5, ?6, ?7, ?8, ?9) ON CONFLICT(id) DO UPDATE SET title = excluded.title, content = excluded.content, embedding_model = excluded.embedding_model, valid_from = excluded.valid_from, valid_to = excluded.valid_to, recorded_at = excluded.recorded_at, retired = excluded.retired";

/// Writes an annotation, over the one of the same label where there is one.
pub const UPSERT_ANNOTATION: &'static str =
    "INSERT INTO analytics_annotations (concept_id, label, value, computed_at) VALUES (?1, ?2, ?3, ?4) ON CONFLICT(concept_id, label) DO UPDATE SET value = excluded.value, computed_at = excluded.computed_at";

/// Reads the stamp of a concept.
pub const CONCEPT_STAMP: &'static str = "SELECT recorded_at FROM concepts WHERE id = ?1";

/// Reads the lineage that holds a concept.
pub const CONCEPT_LINEAGE: &'static str = "SELECT branch_id FROM concepts WHERE id = ?1";

/// The row of an asserted edge.
pub open spec fn edge_row(e: edge::AssertionView, stamp: Seq<char>) -> Seq<SqlView> {
    seq![
        SqlView::Text(e.source),
        SqlView::Text(e.target),
        SqlView::Text(e.edge_type),
        SqlView::Text(e.valid_from),
        SqlView::Text(e.valid_to),
        SqlView::Real(e.weight),
        SqlView::Text(e.properties),
        SqlView::Text(stamp),
        SqlView::Text(e.lineage()),
    ]
}

/// Binds the row of an asserted edge.
pub fn edge_params(e: &EdgeAssertion, stamp: &str) -> (row: Vec<SqlValue>)
    ensures
        sql::values(row@) == edge_row(e@, stamp@),
{
    let mut row: Vec<SqlValue> = Vec::new();
    bind(&mut row, text_value(e.source.as_str()));
    bind(&mut row, text_value(e.target.as_str()));
    bind(&mut row, text_value(e.edge_type.as_str()));
    bind(&mut row, text_value(e.valid_from.as_str()));
    bind(&mut row, text_value(e.valid_to.as_str()));
    bind(&mut row, SqlValue::Real(e.weight));
    bind(&mut row, text_value(e.properties.as_str()));
    bind(&mut row, text_value(stamp));
    bind(&mut row, text_value(e.branch_name()));
    proof {
        assert(sql::values(row@) =~= edge_row(e@, stamp@));
    }
    row
}

/// The row of a concept.
pub open spec fn concept_row(c: ConceptView, stamp: Seq<char>) -> Seq<SqlView> {
    seq![
        SqlView::Text(c.id),
        SqlView::Text(c.title),
        SqlView::Text(c.content),
        sql::nullable(c.embedding_model),
        SqlView::Text(c.valid_from),
        SqlView::Text(c.valid_to),
        SqlView::Text(stamp),
        SqlView::Integer(
            if c.retired {
                1
            } else {
                0
            },
        ),
        SqlView::Text(c.lineage()),
    ]
}

/// Binds the row of a concept.
pub fn concept_params(c: &ConceptUpsert, stamp: &str) -> (row: Vec<SqlValue>)
    ensures
        sql::values(row@) == concept_row(c@, stamp@),
{
    let mut row: Vec<SqlValue> = Vec::new();
    bind(&mut row, text_value(c.id.as_str()));
    bind(&mut row, text_value(c.title.as_str()));
    bind(&mut row, text_value(c.content.as_str()));
    bind(&mut row, nullable_value(&c.embedding_model));
    bind(&mut row, text_value(c.valid_from.as_str()));
    bind(&mut row, text_value(c.valid_to.as_str()));
    bind(&mut row, text_value(stamp));
    bind(
        &mut row,
        SqlValue::Integer(
            if c.retired {
                1
            } else {
                0
            },
        ),
    );
    bind(&mut row, text_value(c.branch_name()));
    proof {
        assert(sql::values(row@) =~= concept_row(c@, stamp@));
    }
    row
}

/// The row of an annotation.
pub open spec fn annotation_row(a: Annotation, stamp: Seq<char>) -> Seq<SqlView> {
    seq![
        SqlView::Text(a.concept_id@),
        SqlView::Text(a.label@),
        SqlView::Text(a.value@),
        SqlView::Text(stamp),
    ]
}

/// Binds the row of an annotation.
pub fn annotation_params(a: &Annotation, stamp: &str) -> (row: Vec<SqlValue>)
    ensures
        sql::values(row@) == annotation_row(*a, stamp@),
{
    let mut row: Vec<SqlValue> = Vec::new();
    bind(&mut row, text_value(a.concept_id.as_str()));
    bind(&mut row, text_value(a.label.as_str()));
    bind(&mut row, text_value(a.value.as_str()));
    bind(&mut row, text_value(stamp));
    proof {
        assert(sql::values(row@) =~= annotation_row(*a, stamp@));
    }
    row
}

/// What the overlap guard binds: the edge and the start it corrects, the branch
/// where the shape names one, the ancestry where the shape resolves one.
pub open spec fn guard_row(
    e: edge::AssertionView,
    shape: LineageShape,
    ancestry: Seq<lineage::AncestorView>,
) -> Seq<SqlView> {
    seq![
        SqlView::Text(e.source),
        SqlView::Text(e.target),
        SqlView::Text(e.edge_type),
        SqlView::Text(e.valid_from),
    ] + (if shape == LineageShape::Trunk {
        Seq::empty()
    } else {
        seq![SqlView::Text(e.lineage())]
    }) + (if shape == LineageShape::Resolved {
        lineage_sql::ancestry_row(ancestry)
    } else {
        Seq::empty()
    })
}

/// Binds what the overlap guard asks for.
pub fn guard_params(e: &EdgeAssertion, shape: LineageShape, ancestry: &[Ancestor]) -> (row: Vec<SqlValue>)
    ensures
        sql::values(row@) == guard_row(e@, shape, lineage::ancestors_view(ancestry@)),
{
    let mut row: Vec<SqlValue> = Vec::new();
    bind(&mut row, text_value(e.source.as_str()));
    bind(&mut row, text_value(e.target.as_str()));
    bind(&mut row, text_value(e.edge_type.as_str()));
    bind(&mut row, text_value(e.valid_from.as_str()));
    if shape.binds_branch() {
        bind(&mut row, text_value(e.branch_name()));
    }
    let ghost on = sql::values(row@);
    if shape == LineageShape::Resolved {
        let mut more = ancestry_params(ancestry);
        let ghost tail = sql::values(more@);
        let ghost before = row@;
        row.append(&mut more);
        proof {
            assert(sql::values(row@) =~= on + tail);
        }
    }
    proof {
        assert(sql::values(row@) =~= guard_row(e@, shape, lineage::ancestors_view(ancestry@)));
    }
    row
}

/// An edge whose validity is to end.
#[derive(Debug)]
pub struct Retirement {
    pub source: String,
    pub target: String,
    pub edge_type: String,
    pub valid_from: String,
    pub valid_to: String,
    pub branch: Option<BranchId>,
}

impl Retirement {
    /// The lineage on which it ends.
    pub open spec fn lineage(self) -> Seq<char> {
        match branch::branch_view(self.branch) {
            Some(name) => name,
            None => schema::MAIN_BRANCH@,
        }
    }

    /// How the edge is named where it is not found.
    pub open spec fn missing(self) -> Seq<char> {
        self.source@ + " -> "@ + self.target@ + " ("@ + self.edge_type@ + ") at "@ + self.valid_from@
    }
}

/// The retirement of an edge, with its instants in canonical form, or its
/// refusal: of the type, else of the first of the two instants that is none.
pub fn retirement(
    source: &str,
    target: &str,
    edge_type: &str,
    valid_from: &str,
    valid_to: &str,
    branch: Option<BranchId>,
) -> (r: Result<Retirement>)
    ensures
        r.is_ok() == (edge::is_edge_type(edge_type@) && timestamp::is_stamp(valid_from@)
            && timestamp::is_stamp(valid_to@)),
        r matches Ok(n) ==> n.source@ == source@ && n.target@ == target@ && n.edge_type@ == edge_type@
            && n.valid_from@ == timestamp::widened(valid_from@) && n.valid_to@ == timestamp::widened(
            valid_to@,
        ) && n.branch == branch,
        r matches Err(err) ==> (if !edge::is_edge_type(edge_type@) {
            err matches DbError::InvalidEdgeType(t) && t@ == edge_type@
        } else if !timestamp::is_stamp(valid_from@) {
            timestamp::refuses(err, valid_from@)
        } else {
            timestamp::refuses(err, valid_to@)
        }),
{
    if let Err(err) = edge::validate_edge_type(edge_type) {
        return Err(err);
    }
    let from = match normalize(valid_from) {
        Ok(ts) => ts,
        Err(err) => {
            return Err(err);
        },
    };
    let to = match normalize(valid_to) {
        Ok(ts) => ts,
        Err(err) => {
            return Err(err);
        },
    };
    Ok(
        Retirement {
            source: source.to_owned(),
            target: target.to_owned(),
            edge_type: edge_type.to_owned(),
            valid_from: from,
            valid_to: to,
            branch,
        },
    )
}

/// What a retirement binds.
pub open spec fn retire_row(
    r: Retirement,
    stamp: Seq<char>,
    shape: LineageShape,
    ancestry: Seq<lineage::AncestorView>,
) -> Seq<SqlView> {
    seq![
        SqlView::Text(r.source@),
        SqlView::Text(r.target@),
        SqlView::Text(r.edge_type@),
        SqlView::Text(r.valid_from@),
        SqlView::Text(r.lineage()),
        SqlView::Text(r.valid_to@),
        SqlView::Text(stamp),
    ] + (if shape == LineageShape::Resolved {
        lineage_sql::ancestry_row(ancestry)
    } else {
        Seq::empty()
    })
}

impl Retirement {
    /// Binds what the retirement asks for.
    pub fn params(&self, stamp: &str, shape: LineageShape, ancestry: &[Ancestor]) -> (row: Vec<SqlValue>)
        ensures
            sql::values(row@) == retire_row(*self, stamp@, shape, lineage::ancestors_view(ancestry@)),
    {
        let mut row: Vec<SqlValue> = Vec::new();
        bind(&mut row, text_value(self.source.as_str()));
        bind(&mut row, text_value(self.target.as_str()));
        bind(&mut row, text_value(self.edge_type.as_str()));
        bind(&mut row, text_value(self.valid_from.as_str()));
        bind(
            &mut row,
            text_value(
                match &self.branch {
                    Some(b) => b.as_str(),
                    None => MAIN_BRANCH,
                },
            ),
        );
        bind(&mut row, text_value(self.valid_to.as_str()));
        bind(&mut row, text_value(stamp));
        let ghost on = sql::values(row@);
        if shape == LineageShape::Resolved {
            let mut more = ancestry_params(ancestry);
            let ghost tail = sql::values(more@);
            row.append(&mut more);
            proof {
                assert(sql::values(row@) =~= on + tail);
            }
        }
        proof {
            assert(sql::values(row@) =~= retire_row(*self, stamp@, shape, lineage::ancestors_view(ancestry@)));
        }
        row
    }

    /// What a retirement that wrote `affected` rows comes to: nothing written
    /// means that no such edge was found.
    pub fn settled(&self, affected: u64) -> (r: Result<()>)
        ensures
            r.is_ok() == (affected != 0),
            r matches Err(err) ==> (err matches DbError::NotFound(what) && what@ == self.missing()),
    {
        if affected == 0 {
            let mut what = self.source.clone();
            what.append(" -> ");
            what.append(self.target.as_str());
            what.append(" (");
            what.append(self.edge_type.as_str());
            what.append(") at ");
            what.append(self.valid_from.as_str());
            return Err(DbError::NotFound(what));
        }
        Ok(())
    }
}

} // verus!
