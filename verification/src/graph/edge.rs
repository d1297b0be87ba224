//! Edge assertions and the rule for edge types.

use vstd::prelude::*;

use crate::branch;
use crate::branch::BranchId;
use crate::error::{DbError, Result};
use crate::schema;
use crate::schema::{MAIN_BRANCH, OPEN_SENTINEL};
use crate::util::ids;
use crate::util::ids::validate_id;
use crate::util::timestamp;
use crate::util::timestamp::normalize;

verus! {

/// The bit pattern of a weight of one.
pub const UNIT_WEIGHT: u64 = 0x3ff0_0000_0000_0000;

/// One relationship asserted over one validity.
///
/// The weight is the bit pattern of its binary64 value. An assertion that names
/// no branch goes to the trunk.
#[derive(Debug, Clone, PartialEq)]
pub struct EdgeAssertion {
    pub source: String,
    pub target: String,
    pub edge_type: String,
    pub valid_from: String,
    pub valid_to: String,
    pub weight: u64,
    pub properties: String,
    pub branch: Option<BranchId>,
}

/// What an assertion says, as text.
pub struct AssertionView {
    pub source: Seq<char>,
    pub target: Seq<char>,
    pub edge_type: Seq<char>,
    pub valid_from: Seq<char>,
    pub valid_to: Seq<char>,
    pub weight: u64,
    pub properties: Seq<char>,
    pub branch: Option<Seq<char>>,
}

impl View for EdgeAssertion {
    type V = AssertionView;

    open spec fn view(&self) -> AssertionView {
        AssertionView {
            source: self.source@,
            target: self.target@,
            edge_type: self.edge_type@,
            valid_from: self.valid_from@,
            valid_to: self.valid_to@,
            weight: self.weight,
            properties: self.properties@,
            branch: branch::branch_view(self.branch),
        }
    }
}

impl AssertionView {
    /// The lineage the assertion goes to.
    pub open spec fn lineage(self) -> Seq<char> {
        match self.branch {
            Some(name) => name,
            None => schema::MAIN_BRANCH@,
        }
    }
}

/// Whether `c` may stand in an edge type.
pub open spec fn is_edge_type_char(c: char) -> bool {
    is_upper(c) || is_lower(c) || ('0' <= c <= '9') || c == '_' || c == ':' || c == '.' || c == '-'
}

/// Whether `c` is an upper-case ASCII letter.
pub open spec fn is_upper(c: char) -> bool {
    'A' <= c <= 'Z'
}

/// Whether `c` is a lower-case ASCII letter.
pub open spec fn is_lower(c: char) -> bool {
    'a' <= c <= 'z'
}

/// The longest edge type.
pub const MAX_EDGE_TYPE_LEN: usize = 64;

/// Whether `t` is an edge type: one to 64 letters, digits and `_:.-`, the
/// letters all of one case.
pub open spec fn is_edge_type(t: Seq<char>) -> bool {
    &&& 0 < t.len() <= MAX_EDGE_TYPE_LEN
    &&& forall|i: int| 0 <= i < t.len() ==> is_edge_type_char(#[trigger] t[i])
    &&& !((exists|i: int| 0 <= i < t.len() && is_upper(#[trigger] t[i])) && (exists|i: int|
        0 <= i < t.len() && is_lower(#[trigger] t[i])))
}

/// Checks an edge type against the rule.
pub fn validate_edge_type(edge_type: &str) -> (checked: Result<()>)
    ensures
        checked.is_ok() == is_edge_type(edge_type@),
        checked matches Err(e) ==> (e matches DbError::InvalidEdgeType(t) && t@ == edge_type@),
{
    let chars = crate::text::chars_of(edge_type);
    let n: usize = chars.len();
    if n == 0 || n > MAX_EDGE_TYPE_LEN {
        return Err(DbError::InvalidEdgeType(edge_type.to_owned()));
    }
    let mut upper = false;
    let mut lower = false;
    let mut i: usize = 0;
    while i < n
        invariant
            n == chars@.len(),
            chars@ == edge_type@,
            i <= n,
            forall|j: int| 0 <= j < i ==> is_edge_type_char(#[trigger] edge_type@[j]),
            upper == exists|j: int| 0 <= j < i && is_upper(#[trigger] edge_type@[j]),
            lower == exists|j: int| 0 <= j < i && is_lower(#[trigger] edge_type@[j]),
        decreases n - i,
    {
        let c = chars[i];
        assert(c == edge_type@[i as int]);
        let up = 'A' <= c && c <= 'Z';
        let low = 'a' <= c && c <= 'z';
        if !(up || low || ('0' <= c && c <= '9') || c == '_' || c == ':' || c == '.' || c == '-') {
            assert(!is_edge_type_char(edge_type@[i as int]));
            return Err(DbError::InvalidEdgeType(edge_type.to_owned()));
        }
        upper = upper || up;
        lower = lower || low;
        i = i + 1;
    }
    if upper && lower {
        return Err(DbError::InvalidEdgeType(edge_type.to_owned()));
    }
    Ok(())
}

impl EdgeAssertion {
    /// An open-ended assertion of weight one, with no properties, on the trunk.
    pub fn new(source: &str, target: &str, edge_type: &str) -> (e: EdgeAssertion)
        ensures
            e@ == (AssertionView {
                source: source@,
                target: target@,
                edge_type: edge_type@,
                valid_from: Seq::empty(),
                valid_to: schema::OPEN_SENTINEL@,
                weight: UNIT_WEIGHT,
                properties: "{}"@,
                branch: None,
            }),
    {
        EdgeAssertion {
            source: source.to_owned(),
            target: target.to_owned(),
            edge_type: edge_type.to_owned(),
            valid_from: String::new(),
            valid_to: OPEN_SENTINEL.to_owned(),
            weight: UNIT_WEIGHT,
            properties: "{}".to_owned(),
            branch: None,
        }
    }

    /// The same assertion from `ts` on.
    pub fn valid_from(self, ts: &str) -> (e: EdgeAssertion)
        ensures
            e@ == (AssertionView { valid_from: ts@, ..self@ }),
    {
        let mut e = self;
        e.valid_from = ts.to_owned();
        e
    }

    /// The same assertion until `ts`.
    pub fn valid_to(self, ts: &str) -> (e: EdgeAssertion)
        ensures
            e@ == (AssertionView { valid_to: ts@, ..self@ }),
    {
        let mut e = self;
        e.valid_to = ts.to_owned();
        e
    }

    /// The same assertion with a weight, given as a bit pattern.
    pub fn weight(self, weight: u64) -> (e: EdgeAssertion)
        ensures
            e@ == (AssertionView { weight, ..self@ }),
    {
        let mut e = self;
        e.weight = weight;
        e
    }

    /// The same assertion with properties, as JSON.
    pub fn properties(self, json: &str) -> (e: EdgeAssertion)
        ensures
            e@ == (AssertionView { properties: json@, ..self@ }),
    {
        let mut e = self;
        e.properties = json.to_owned();
        e
    }

    /// The same assertion on a branch.
    pub fn on_branch(self, branch: BranchId) -> (e: EdgeAssertion)
        ensures
            e@ == (AssertionView { branch: Some(branch@), ..self@ }),
    {
        let mut e = self;
        e.branch = Some(branch);
        e
    }

    /// The name of the lineage the assertion goes to.
    pub fn branch_name(&self) -> (name: &str)
        ensures
            name@ == self@.lineage(),
    {
        match &self.branch {
            Some(b) => b.as_str(),
            None => MAIN_BRANCH,
        }
    }

    /// Checks the assertion and puts its timestamps in canonical form.
    ///
    /// What is wrong is reported in order: the source, the target, the type, the
    /// start and the end.
    pub fn normalized(self) -> (e: Result<EdgeAssertion>)
        ensures
            e.is_ok() == assertable(self@),
            e matches Ok(n) ==> n@ == (AssertionView {
                valid_from: timestamp::widened(self.valid_from@),
                valid_to: timestamp::widened(self.valid_to@),
                ..self@
            }),
            e matches Err(err) ==> refused(self@, err),
    {
        let mut e = self;
        if let Err(err) = validate_id(e.source.as_str()) {
            return Err(err);
        }
        if let Err(err) = validate_id(e.target.as_str()) {
            return Err(err);
        }
        if let Err(err) = validate_edge_type(e.edge_type.as_str()) {
            return Err(err);
        }
        let from = match normalize(e.valid_from.as_str()) {
            Ok(ts) => ts,
            Err(err) => {
                return Err(err);
            },
        };
        let to = match normalize(e.valid_to.as_str()) {
            Ok(ts) => ts,
            Err(err) => {
                return Err(err);
            },
        };
        e.valid_from = from;
        e.valid_to = to;
        Ok(e)
    }
}

/// Whether an assertion can be written.
pub open spec fn assertable(e: AssertionView) -> bool {
    &&& ids::is_valid_id(e.source)
    &&& ids::is_valid_id(e.target)
    &&& is_edge_type(e.edge_type)
    &&& timestamp::is_stamp(e.valid_from)
    &&& timestamp::is_stamp(e.valid_to)
}

/// Whether `err` is the first thing wrong with an assertion.
pub open spec fn refused(e: AssertionView, err: DbError) -> bool {
    if !ids::is_valid_id(e.source) {
        ids::refuses(err, e.source)
    } else if !ids::is_valid_id(e.target) {
        ids::refuses(err, e.target)
    } else if !is_edge_type(e.edge_type) {
        err matches DbError::InvalidEdgeType(t) && t@ == e.edge_type
    } else if !timestamp::is_stamp(e.valid_from) {
        timestamp::refuses(err, e.valid_from)
    } else {
        timestamp::refuses(err, e.valid_to)
    }
}

} // verus!
