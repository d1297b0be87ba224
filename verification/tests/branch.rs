//! Lineage names, forks, and what a view of a lineage may claim.

use macrame::branch::{fork, BranchId, BranchView, MAX_BRANCH_ID};
use macrame::connection::ConceptUpsert;
use macrame::graph::EdgeAssertion;
use macrame::vector::ModelName;
use macrame::DbError;

#[test]
fn accepts_the_name_shapes_the_use_case_generates() {
    for ok in [
        "main",
        "b9",
        "01ARZ3NDEKTSV4RRFFQ69G5FAV",
        "3f2504e0-4f89-11d3-9a0c-0305e82c3301",
        "turn/17/alt/3",
        "explore Kant's second critique",
    ] {
        assert_eq!(BranchId::new(ok).unwrap().as_str(), ok);
    }
}

#[test]
fn refuses_what_cannot_be_corrected_later() {
    for bad in [
        "",
        " release",
        "release ",
        "release\n",
        "rel\tease",
        "rel\0ease",
    ] {
        assert!(
            BranchId::new(bad).is_err(),
            "{bad:?} was accepted, and `branches` is append-only"
        );
    }
    assert!(BranchId::new(&"x".repeat(MAX_BRANCH_ID)).is_ok());
    assert!(BranchId::new(&"x".repeat(MAX_BRANCH_ID + 1)).is_err());
}

#[test]
fn only_the_control_characters_of_ascii_are_barred() {
    for ok in ["a\u{80}b", "a\u{85}b", "a\u{9f}b", "a\u{a0}b"] {
        assert_eq!(BranchId::new(ok).unwrap().as_str(), ok);
    }
    for bad in ["a\u{1f}b", "a\u{7f}b", "\u{85}b", "a\u{a0}", "\u{3000}b"] {
        assert!(matches!(BranchId::new(bad), Err(DbError::InvalidBranchId(s)) if s == bad));
    }
}

#[test]
fn the_rule_is_not_model_names_rule() {
    for accepted_here_rejected_there in ["Release-1", "3f2504e0-4f89", "a.b"] {
        assert!(BranchId::new(accepted_here_rejected_there).is_ok());
        assert!(ModelName::new(accepted_here_rejected_there).is_err());
    }
}

#[test]
fn the_trunk_knows_itself() {
    assert!(BranchId::main().is_main());
    assert!(BranchId::new("main").unwrap().is_main());
    assert!(!BranchId::new("mains").unwrap().is_main());
}

#[test]
fn a_length_is_counted_in_bytes() {
    assert!(BranchId::new(&"é".repeat(64)).is_ok());
    assert!(BranchId::new(&"é".repeat(65)).is_err());
}

#[test]
fn model_names_are_bounded() {
    assert_eq!(ModelName::new("bge_small_v2").unwrap().as_str(), "bge_small_v2");
    assert!(ModelName::new(&"m".repeat(48)).is_ok());
    assert!(matches!(
        ModelName::new(&"m".repeat(49)),
        Err(DbError::InvalidModelName(_))
    ));
    for bad in ["", "_m", "9m", "Model", "m-1"] {
        assert!(ModelName::new(bad).is_err(), "{bad:?}");
    }
}

const EARLY: &str = "2026-01-01T00:00:00.000000Z";
const LATE: &str = "2026-02-01T00:00:00.000000Z";

#[test]
fn a_fork_is_refused_for_each_of_its_reasons() {
    let name = BranchId::new("exp").unwrap();
    let main = BranchId::main();
    assert!(matches!(
        fork(&name, &main, LATE, 1, 0, None),
        Err(DbError::BranchExists(n)) if n == "exp"
    ));
    assert!(matches!(
        fork(&name, &main, LATE, 0, 0, None),
        Err(DbError::UnknownBranch(n)) if n == "main"
    ));
    assert!(matches!(
        fork(&name, &main, EARLY, 0, 1, Some(LATE.to_string())),
        Err(DbError::ForkPrecedesParent { branch, parent, forked_at, parent_forked_at })
            if branch == "exp" && parent == "main" && forked_at == EARLY && parent_forked_at == LATE
    ));
    let row = fork(&name, &main, LATE, 0, 1, Some(LATE.to_string())).unwrap();
    assert_eq!(row.id.as_str(), "exp");
    assert_eq!(row.parent.unwrap().as_str(), "main");
    assert_eq!(row.forked_at.as_deref(), Some(LATE));
    assert_eq!(row.created_at, LATE);
}

#[test]
fn a_view_claims_what_names_no_other_lineage() {
    let view = BranchView::new(BranchId::new("exp").unwrap());
    let plain = EdgeAssertion::new("a", "b", "KNOWS");
    let claimed = view.claim_edge(plain).unwrap();
    assert_eq!(claimed.branch_name(), "exp");
    let again = view.claim_edge(claimed).unwrap();
    assert_eq!(again.branch_name(), "exp");

    let foreign = EdgeAssertion::new("a", "b", "KNOWS").on_branch(BranchId::main());
    assert!(matches!(
        view.claim_edge(foreign),
        Err(DbError::BranchMismatch { view, named }) if view == "exp" && named == "main"
    ));

    let edges = vec![
        EdgeAssertion::new("a", "b", "KNOWS"),
        EdgeAssertion::new("a", "c", "KNOWS").on_branch(BranchId::new("other").unwrap()),
        EdgeAssertion::new("a", "d", "KNOWS").on_branch(BranchId::main()),
    ];
    assert!(matches!(
        view.claim_edges(edges),
        Err(DbError::BranchMismatch { named, .. }) if named == "other"
    ));

    let concept = view.claim_concept(ConceptUpsert::new("c", "C")).unwrap();
    assert_eq!(concept.branch.unwrap().as_str(), "exp");
    let list = view
        .claim_concepts(vec![ConceptUpsert::new("c", "C"), ConceptUpsert::new("d", "D")])
        .unwrap();
    assert_eq!(list.len(), 2);
    assert!(view
        .claim_concepts(vec![ConceptUpsert::new("c", "C").on_branch(BranchId::main())])
        .is_err());

    let walk = view.traversal("start");
    assert_eq!(walk.branch.as_deref(), Some("exp"));
    assert_eq!(walk.start_node, "start");
    assert_eq!(view.id().as_str(), "exp");
}

#[test]
fn a_name_is_ordered_and_handed_on_as_text() {
    let (a, b) = (BranchId::new("a").unwrap(), BranchId::new("b").unwrap());
    assert!(a < b && a == a.clone() && a != b);
    let text: &str = a.as_ref();
    assert_eq!(text, "a");
    assert_eq!(String::from(b), "b");
}
