//! What a reader reads once its lineage has been resolved.

use vstd::prelude::*;

use crate::graph::climbing;
use crate::graph::cut;
use crate::graph::fold;
use crate::graph::ledger;
use crate::graph::lineage::LineageShape;
use crate::graph::plan::ResolutionView;
use crate::graph::seen;
use crate::relation::query;
use crate::relation::query::{Named, World};
use crate::relation::term;
use crate::relation::term::Row;

verus! {

/// Where the ancestry comes from.
pub open spec fn lineage_of(r: ResolutionView) -> Named {
    if r.entries == 0 {
        climbing::climbed(r.branch_slot, r.tag)
    } else {
        climbing::bound_named(r.entries, r.ancestry_slot, r.tag)
    }
}

/// The fold at the recorded instant.
pub open spec fn fold_of(r: ResolutionView) -> Named {
    fold::fold_named(r.shape, r.branch_slot, r.recorded_slot.unwrap() as nat, r.tag)
}

/// The queries that a lowering puts before its reader.
pub open spec fn lowered(r: ResolutionView) -> Seq<Named> {
    match (r.shape, r.recorded_slot) {
        (LineageShape::Resolved, None) => seq![
            lineage_of(r),
            cut::churned_named(r.tag, r.key),
            cut::links_cut_named(r.tag, r.key),
            seen::visible_named("links_cut"@ + r.tag, r.tag, r.key.is_some()),
        ],
        (LineageShape::Resolved, Some(_)) => seq![
            lineage_of(r),
            fold_of(r),
            seen::visible_named("links_at_tx"@ + r.tag, r.tag, r.key.is_some()),
        ],
        (_, Some(_)) => seq![fold_of(r)],
        (_, None) => Seq::empty(),
    }
}

/// How they are written.
pub open spec fn written(list: Seq<Named>) -> Seq<Seq<char>> {
    list.map_values(|n: Named| n.text)
}

/// Whether each of them, under its name, holds what it may give back.
pub open spec fn are_held(w: World, list: Seq<Named>) -> bool {
    forall|i: int| 0 <= i < list.len() ==> (#[trigger] list[i]).query.answers(w, w.rows(list[i].name))
}

/// Whether a row is of the edge and start that an entry is of.
pub open spec fn is_edge_of(w: World, row: Row, e: Row) -> bool {
    &&& row("source_id"@) == fold::field(w, e, "source_id"@)
    &&& row("target_id"@) == fold::field(w, e, "target_id"@)
    &&& row("edge_type"@) == fold::field(w, e, "edge_type"@)
    &&& row("valid_from"@) == fold::field(w, e, "valid_from"@)
}

/// Whether a row of an entry's edge and start is given back.
pub open spec fn is_shown(w: World, out: Seq<Row>, e: Row) -> bool {
    exists|k: int| 0 <= k < out.len() && is_edge_of(w, #[trigger] out[k], e)
}

/// Whether `of` names, for each row of `out`, the entry that it tells and the
/// lineage that this is of. Of each edge and start that has an entry for which `p`
/// there is one row. The entry is the last of its edge and lineage for which `p`,
/// and no lineage with such an entry is nearer.
pub open spec fn are_seen(
    w: World,
    tag: Seq<char>,
    p: spec_fn(Row) -> bool,
    properties: bool,
    of: Seq<(int, int)>,
    out: Seq<Row>,
) -> bool {
    let (es, gs) = (fold::entries(w), ledger::ancestry(w, tag));
    &&& of.len() == out.len()
    &&& forall|k: int|
        0 <= k < out.len() ==> {
            let (i, j) = #[trigger] of[k];
            &&& 0 <= i < es.len() && p(es[i]) && fold::tells(w, out[k], es[i], properties)
            &&& 0 <= j < gs.len() && fold::reaches(gs[j], es[i])
        }
    &&& forall|k: int, m: int| 0 <= k < m < out.len() ==> !seen::same_edge(#[trigger] out[k], #[trigger] out[m])
    &&& forall|i: int| 0 <= i < es.len() && p(es[i]) ==> is_shown(w, out, #[trigger] es[i])
    &&& forall|k: int, i: int|
        0 <= k < out.len() && 0 <= i < es.len() && p(es[i]) && fold::same_entity(es[of[k].0], es[i])
            ==> !term::before(es[(#[trigger] of[k]).0]("seq_id"@), (#[trigger] es[i])("seq_id"@))
    &&& forall|k: int, i: int, j: int|
        0 <= k < out.len() && #[trigger] has_it_too(w, tag, p, out[k], i, j) ==> !term::before(
            gs[j]("dist"@),
            gs[of[k].1]("dist"@),
        )
}

/// Whether a lineage has an entry for which `p` of the edge and start of a row.
pub open spec fn has_it_too(w: World, tag: Seq<char>, p: spec_fn(Row) -> bool, row: Row, i: int, j: int) -> bool {
    &&& 0 <= i < fold::entries(w).len()
    &&& 0 <= j < ledger::ancestry(w, tag).len()
    &&& p(fold::entries(w)[i])
    &&& fold::reaches(ledger::ancestry(w, tag)[j], fold::entries(w)[i])
    &&& is_edge_of(w, row, fold::entries(w)[i])
}

proof fn lemma_lowered_text(r: ResolutionView)
    ensures
        r.ctes() == written(lowered(r)),
{
    climbing::lemma_climbed_text(r.branch_slot, r.tag);
    climbing::lemma_bound_text(r.entries, r.ancestry_slot, r.tag);
    cut::lemma_churned_text(r.tag, r.key);
    cut::lemma_links_cut_text(r.tag, r.key);
    seen::lemma_visible_text("links_cut"@ + r.tag, r.tag, r.key);
    seen::lemma_visible_text("links_at_tx"@ + r.tag, r.tag, r.key);
    if r.recorded_slot.is_some() {
        fold::lemma_fold_text(r.shape, r.branch_slot, r.recorded_slot.unwrap() as nat, r.tag);
    }
    assert(r.ctes() =~= written(lowered(r)));
}

/// The ancestor that reaches an entry is the one of its lineage.
proof fn lemma_reached_by(w: World, tag: Seq<char>, e: Row, j: int)
    requires
        ledger::is_ancestry(w, tag),
        0 <= j < ledger::ancestry(w, tag).len(),
        term::equal(ledger::ancestry(w, tag)[j]("branch_id"@), e("branch_id"@)),
        exists|i: int| 0 <= i < ledger::ancestry(w, tag).len() && fold::reaches(#[trigger] ledger::ancestry(w, tag)[i], e),
    ensures
        fold::reaches(ledger::ancestry(w, tag)[j], e),
{
    let i = choose|i: int|
        0 <= i < ledger::ancestry(w, tag).len() && fold::reaches(#[trigger] ledger::ancestry(w, tag)[i], e);
    assert(ledger::ancestry(w, tag)[i]("branch_id"@) is Text);
    assert(ledger::ancestry(w, tag)[j]("branch_id"@) is Text);
    ledger::lemma_one_lineage(w, tag, i, j);
}

/// Rows that say the same tell the same entry.
proof fn lemma_tells_alike(w: World, a: Row, b: Row, e: Row, properties: bool)
    requires
        seen::same_row(a, b, properties),
        fold::tells(w, b, e, properties),
    ensures
        fold::tells(w, a, e, properties),
        is_edge_of(w, a, e),
        is_edge_of(w, b, e),
        b("branch_id"@) == e("branch_id"@),
{
    reveal(fold::tells);
}

/// What the nearest lineages show of the last entries.
proof fn lemma_seen(
    w: World,
    tag: Seq<char>,
    p: spec_fn(Row) -> bool,
    properties: bool,
    source: Seq<char>,
    near: Seq<(int, int)>,
    last: Seq<int>,
    out: Seq<Row>,
) -> (of: Seq<(int, int)>)
    requires
        ledger::is_ledger(w),
        ledger::is_ancestry(w, tag),
        forall|e: Row| #[trigger]
            p(e) ==> ledger::is_link(e) && exists|j: int|
                0 <= j < ledger::ancestry(w, tag).len() && fold::reaches(#[trigger] ledger::ancestry(w, tag)[j], e),
        fold::are_last(w, p, properties, last, w.rows(source)),
        seen::are_of_the_nearest(w, source, tag, properties, near, out),
    ensures
        are_seen(w, tag, p, properties, of, out),
{
    let (es, gs, cs) = (fold::entries(w), ledger::ancestry(w, tag), w.rows(source));
    let of = Seq::new(out.len(), |k: int| (last[near[k].0], near[k].1));
    assert forall|k: int| 0 <= k < out.len() implies {
        let (i, j) = #[trigger] of[k];
        &&& 0 <= i < es.len() && p(es[i]) && fold::tells(w, out[k], es[i], properties)
        &&& 0 <= j < gs.len() && fold::reaches(gs[j], es[i])
        &&& is_edge_of(w, out[k], es[i])
    } by {
        let (c, j) = near[k];
        assert(seen::is_on(w, source, tag, near[k].0, near[k].1));
        let i = last[c];
        assert(p(es[i]));
        lemma_tells_alike(w, out[k], cs[c], es[i], properties);
        lemma_reached_by(w, tag, es[i], j);
    }
    assert forall|i: int| 0 <= i < es.len() && p(es[i]) implies is_shown(w, out, #[trigger] es[i]) by {
        let (c, j) = lemma_row_of(w, tag, p, properties, source, last, i);
        assert(seen::is_on(w, source, tag, c, j));
        assert(seen::is_seen(out, cs[c]));
        let k = choose|k: int| 0 <= k < out.len() && seen::same_edge(#[trigger] out[k], cs[c]);
        assert(is_edge_of(w, out[k], es[i]));
    }
    assert forall|k: int, i: int|
        0 <= k < out.len() && 0 <= i < es.len() && p(es[i]) && fold::same_entity(es[of[k].0], es[i])
            implies !term::before(es[(#[trigger] of[k]).0]("seq_id"@), (#[trigger] es[i])("seq_id"@)) by {
        let c = near[k].0;
        assert(seen::is_on(w, source, tag, near[k].0, near[k].1));
        assert(last[c] == of[k].0);
    }
    assert forall|k: int, i: int, j: int|
        0 <= k < out.len() && #[trigger] has_it_too(w, tag, p, out[k], i, j) implies !term::before(
        gs[j]("dist"@),
        gs[of[k].1]("dist"@),
    ) by {
        let (c, m) = lemma_row_of(w, tag, p, properties, source, last, i);
        assert(gs[j]("branch_id"@) is Text && gs[m]("branch_id"@) is Text);
        ledger::lemma_one_lineage(w, tag, j, m);
        assert(seen::is_on(w, source, tag, c, j));
        assert(seen::same_edge(out[k], cs[c]));
    }
    of
}

/// The row that tells of an entry's edge and lineage, and the lineage.
proof fn lemma_row_of(
    w: World,
    tag: Seq<char>,
    p: spec_fn(Row) -> bool,
    properties: bool,
    source: Seq<char>,
    last: Seq<int>,
    i: int,
) -> (r: (int, int))
    requires
        ledger::is_ledger(w),
        ledger::is_ancestry(w, tag),
        forall|e: Row| #[trigger]
            p(e) ==> ledger::is_link(e) && exists|j: int|
                0 <= j < ledger::ancestry(w, tag).len() && fold::reaches(#[trigger] ledger::ancestry(w, tag)[j], e),
        fold::are_last(w, p, properties, last, w.rows(source)),
        0 <= i < fold::entries(w).len(),
        p(fold::entries(w)[i]),
    ensures
        0 <= r.0 < w.rows(source).len(),
        0 <= r.1 < ledger::ancestry(w, tag).len(),
        seen::is_on(w, source, tag, r.0, r.1),
        is_edge_of(w, w.rows(source)[r.0], fold::entries(w)[i]),
        ledger::ancestry(w, tag)[r.1]("branch_id"@) == fold::entries(w)[i]("branch_id"@),
{
    let (es, gs, cs) = (fold::entries(w), ledger::ancestry(w, tag), w.rows(source));
    assert(fold::is_told(w, last, i));
    let c = choose|c: int| 0 <= c < last.len() && fold::same_entity(es[#[trigger] last[c]], es[i]);
    assert(p(es[last[c]]));
    let j = choose|j: int| 0 <= j < gs.len() && fold::reaches(#[trigger] gs[j], es[i]);
    assert(ledger::is_written(w, es[i]) && ledger::is_written(w, es[last[c]])) by {
        reveal(ledger::is_ledger);
    }
    ledger::lemma_same_edge(w, es[last[c]], es[i]);
    assert(cs[c]("branch_id"@) == es[last[c]]("branch_id"@) && is_edge_of(w, cs[c], es[last[c]])) by {
        reveal(fold::tells);
        assert(fold::tells(w, cs[c], es[last[c]], properties));
    }
    assert(gs[j]("branch_id"@) is Text);
    (c, j)
}

/// A lineage that is resolved is read so: of each edge and start one row, which
/// tells what the nearest lineage that has any last recorded of it, before it was
/// cut.
pub proof fn law_a_resolved_lineage_is_read_so(r: ResolutionView, w: World) -> (of: Seq<(int, int)>)
    requires
        r.shape == LineageShape::Resolved,
        r.recorded_slot.is_none(),
        ledger::is_ledger(w),
        ledger::is_ancestry(w, r.tag),
        are_held(w, lowered(r)),
    ensures
        r.ctes() == written(lowered(r)),
        are_seen(
            w,
            r.tag,
            |e: Row| ledger::may_read(w, r.tag, r.key, e),
            r.key.is_some(),
            of,
            w.rows(r.source()),
        ),
{
    lemma_lowered_text(r);
    let list = lowered(r);
    assert(list[1].query.answers(w, w.rows(list[1].name)));
    assert(list[2].query.answers(w, w.rows(list[2].name)));
    assert(list[3].query.answers(w, w.rows(list[3].name)));
    let source = "links_cut"@ + r.tag;
    let out = w.rows(r.source());
    let last = ledger::law_a_cut_lineage_stands_as_it_did(w, r.tag, r.key, w.rows(source));
    let near = seen::law_the_nearest_lineage_wins(source, r.tag, r.key, w, out);
    lemma_seen(
        w,
        r.tag,
        |e: Row| ledger::may_read(w, r.tag, r.key, e),
        r.key.is_some(),
        source,
        near,
        last,
        out,
    )
}

/// At a recorded instant it is read so: the same, of what was recorded by then.
pub proof fn law_a_resolved_lineage_is_read_so_at_an_instant(r: ResolutionView, w: World) -> (of: Seq<(int, int)>)
    requires
        r.shape == LineageShape::Resolved,
        r.recorded_slot.is_some(),
        r.key.is_none(),
        ledger::is_ledger(w),
        ledger::is_ancestry(w, r.tag),
        are_held(w, lowered(r)),
    ensures
        r.ctes() == written(lowered(r)),
        are_seen(
            w,
            r.tag,
            |e: Row| fold::may_see(w, r.shape, r.branch_slot, r.recorded_slot.unwrap() as nat, r.tag, e),
            false,
            of,
            w.rows(r.source()),
        ),
{
    lemma_lowered_text(r);
    let list = lowered(r);
    assert(list[1].query.answers(w, w.rows(list[1].name)));
    assert(list[2].query.answers(w, w.rows(list[2].name)));
    let source = "links_at_tx"@ + r.tag;
    let out = w.rows(r.source());
    let slot = r.recorded_slot.unwrap() as nat;
    let last = fold::law_fold_keeps_the_last(r.shape, r.branch_slot, slot, r.tag, w, w.rows(source));
    let near = seen::law_the_nearest_lineage_wins(source, r.tag, r.key, w, out);
    lemma_seen(
        w,
        r.tag,
        |e: Row| fold::may_see(w, r.shape, r.branch_slot, slot, r.tag, e),
        false,
        source,
        near,
        last,
        out,
    )
}

/// A trunk is read without an ancestry: at a recorded instant as the last entries
/// of each edge and lineage say that were recorded by then, and otherwise as
/// current belief has it.
pub proof fn law_a_trunk_is_read_so(r: ResolutionView, w: World) -> (of: Seq<int>)
    requires
        r.shape != LineageShape::Resolved,
        are_held(w, lowered(r)),
    ensures
        r.ctes() == written(lowered(r)),
        r.recorded_slot.is_none() ==> w.rows(r.source()) == ledger::beliefs(w),
        r.recorded_slot.is_some() ==> fold::are_last(
            w,
            |e: Row| fold::may_see(w, r.shape, r.branch_slot, r.recorded_slot.unwrap() as nat, r.tag, e),
            false,
            of,
            w.rows(r.source()),
        ),
{
    lemma_lowered_text(r);
    if r.recorded_slot.is_some() {
        let list = lowered(r);
        assert(list[0].query.answers(w, w.rows(list[0].name)));
        fold::law_fold_keeps_the_last(
            r.shape,
            r.branch_slot,
            r.recorded_slot.unwrap() as nat,
            r.tag,
            w,
            w.rows("links_at_tx"@ + r.tag),
        )
    } else {
        Seq::empty()
    }
}

} // verus!
