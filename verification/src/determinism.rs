//! The merge is a function of its inputs: whatever referents are drawn for rows whose
//! own are taken, the conflicts, the remarks and the merged rows are the same.

use vstd::prelude::*;

use crate::child_order;
use crate::collisions;
use crate::conflict::ConflictModel;
use crate::context::Ctx;
use crate::cycles;
use crate::diagnostics::DiagnosticModel;
use crate::graph;
use crate::graph::{GraphModel, NodeModel};
use crate::matching::Classes;
use crate::merging;
use crate::references;
use crate::reflection;
use crate::resolve::ResolutionsModel;
use crate::semantic::ValueSource;
use crate::text::Text;

verus! {

/// Whether two rows are the same, but for their referents.
pub open spec fn same_row(a: Option<NodeModel>, b: Option<NodeModel>) -> bool {
    match (a, b) {
        (Some(x), Some(y)) => {
            &&& x.class == y.class
            &&& x.name == y.name
            &&& x.parent == y.parent
            &&& x.children == y.children
            &&& x.properties == y.properties
        },
        (None, None) => true,
        _ => false,
    }
}

/// Whether two graphs are the same, but for the referents of their rows.
pub open spec fn same_rows(a: GraphModel, b: GraphModel) -> bool {
    &&& a.len() == b.len()
    &&& forall|r: int| 0 <= r < a.len() ==> same_row(#[trigger] a[r], b[r])
}

// ---------------------------------------------------------------------------
// Loops
// ---------------------------------------------------------------------------

proof fn lemma_above(a: GraphModel, b: GraphModel, start: usize, k: nat)
    requires
        same_rows(a, b),
    ensures
        cycles::above(a, start, k) == cycles::above(b, start, k),
    decreases k,
{
    if k > 0 {
        lemma_above(a, b, start, (k - 1) as nat);
        if let Some(x) = cycles::above(a, start, (k - 1) as nat) {
            if x < a.len() {
                assert(same_row(a[x as int], b[x as int]));
            }
        }
    }
}

proof fn lemma_on_cycle(a: GraphModel, b: GraphModel, start: usize)
    requires
        same_rows(a, b),
    ensures
        cycles::on_cycle(a, start) == cycles::on_cycle(b, start),
{
    if cycles::on_cycle(a, start) {
        let k = choose|k: nat| k >= 1 && #[trigger] cycles::above(a, start, k) == Some(start);
        lemma_above(a, b, start, k);
        assert(cycles::above(b, start, k) == Some(start));
    }
    if cycles::on_cycle(b, start) {
        let k = choose|k: nat| k >= 1 && #[trigger] cycles::above(b, start, k) == Some(start);
        lemma_above(a, b, start, k);
        assert(cycles::above(a, start, k) == Some(start));
    }
}

proof fn lemma_repointed_once(ctx: Ctx, a: GraphModel, b: GraphModel)
    requires
        same_rows(a, b),
    ensures
        same_rows(cycles::repointed_once(ctx, a), cycles::repointed_once(ctx, b)),
{
    let (x, y) = (cycles::repointed_once(ctx, a), cycles::repointed_once(ctx, b));
    assert forall|r: int| 0 <= r < x.len() implies same_row(#[trigger] x[r], y[r]) by {
        assert(same_row(a[r], b[r]));
        lemma_on_cycle(a, b, r as usize);
    }
}

proof fn lemma_rounds(ctx: Ctx, a: GraphModel, b: GraphModel, n: nat)
    requires
        same_rows(a, b),
    ensures
        same_rows(cycles::rounds(ctx, a, n), cycles::rounds(ctx, b, n)),
    decreases n,
{
    if n > 0 {
        let k = (n - 1) as nat;
        lemma_rounds(ctx, a, b, k);
        lemma_repointed_once(ctx, cycles::rounds(ctx, a, k), cycles::rounds(ctx, b, k));
    }
}

proof fn lemma_repointed(ctx: Ctx, a: GraphModel, b: GraphModel)
    requires
        same_rows(a, b),
    ensures
        same_rows(cycles::repointed(ctx, a), cycles::repointed(ctx, b)),
{
    lemma_rounds(ctx, a, b, a.len());
    cycles::lemma_repointed(ctx, a);
    cycles::lemma_repointed(ctx, b);
}

proof fn lemma_cycle_conflicts(
    ctx: Ctx,
    a: GraphModel,
    b: GraphModel,
    n: int,
    before: Seq<ConflictModel>,
)
    requires
        same_rows(a, b),
        0 <= n <= a.len(),
    ensures
        cycles::cycle_conflicts(ctx, a, n, before) == cycles::cycle_conflicts(ctx, b, n, before),
    decreases n,
{
    if n > 0 {
        lemma_cycle_conflicts(ctx, a, b, n - 1, before);
        let (x, y) = (cycles::repointed(ctx, a), cycles::repointed(ctx, b));
        lemma_repointed(ctx, a, b);
        lemma_on_cycle(x, y, (n - 1) as usize);
        assert(same_row(x[n - 1], y[n - 1]));
    }
}

// ---------------------------------------------------------------------------
// Unique ids
// ---------------------------------------------------------------------------

proof fn lemma_names(a: GraphModel, b: GraphModel, current: Option<usize>, seen: Seq<usize>)
    requires
        same_rows(a, b),
    ensures
        cycles::names_above(a, current, seen) == cycles::names_above(b, current, seen),
    decreases a.len() - seen.len(),
{
    if let Some(r) = current {
        if r < a.len() {
            assert(same_row(a[r as int], b[r as int]));
            if r != 0 && a[r as int] is Some && !seen.contains(r) && seen.len() < a.len() {
                lemma_names(a, b, a[r as int]->0.parent, seen.push(r));
            }
        }
    }
}

proof fn lemma_path(a: GraphModel, b: GraphModel, r: usize)
    requires
        same_rows(a, b),
    ensures
        cycles::graph_path(a, r) == cycles::graph_path(b, r),
{
    lemma_names(a, b, Some(r), Seq::empty());
}

proof fn lemma_first_holder(a: GraphModel, b: GraphModel, id: u128, n: int)
    requires
        same_rows(a, b),
        n <= a.len(),
    ensures
        collisions::first_holder(a, id, n) == collisions::first_holder(b, id, n),
    decreases n,
{
    if n > 0 {
        lemma_first_holder(a, b, id, n - 1);
        assert(same_row(a[n - 1], b[n - 1]));
    }
}

proof fn lemma_collides(a: GraphModel, b: GraphModel, r: int)
    requires
        same_rows(a, b),
        0 <= r < a.len(),
    ensures
        collisions::row_unique_id(a[r]) == collisions::row_unique_id(b[r]),
        collisions::collides_with(a, r) == collisions::collides_with(b, r),
{
    assert(same_row(a[r], b[r]));
    if collisions::row_unique_id(a[r]) is Some {
        lemma_first_holder(a, b, collisions::row_unique_id(a[r])->0, r);
    }
}

proof fn lemma_cleared(resolutions: ResolutionsModel, a: GraphModel, b: GraphModel)
    requires
        same_rows(a, b),
    ensures
        same_rows(collisions::cleared(resolutions, a), collisions::cleared(resolutions, b)),
{
    let (x, y) = (collisions::cleared(resolutions, a), collisions::cleared(resolutions, b));
    assert forall|r: int| 0 <= r < x.len() implies same_row(#[trigger] x[r], y[r]) by {
        assert(same_row(a[r], b[r]));
        lemma_collides(a, b, r);
        lemma_path(a, b, r as usize);
    }
}

proof fn lemma_collision_conflicts(
    resolutions: ResolutionsModel,
    a: GraphModel,
    b: GraphModel,
    n: int,
    before: Seq<ConflictModel>,
)
    requires
        same_rows(a, b),
        0 <= n <= a.len(),
    ensures
        collisions::collision_conflicts(resolutions, a, n, before)
            == collisions::collision_conflicts(resolutions, b, n, before),
    decreases n,
{
    if n > 0 {
        let r = n - 1;
        lemma_collision_conflicts(resolutions, a, b, r, before);
        assert(same_row(a[r], b[r]));
        lemma_collides(a, b, r);
        lemma_path(a, b, r as usize);
        if collisions::collides_with(a, r) is Some {
            lemma_path(a, b, collisions::collides_with(a, r)->0);
        }
    }
}

// ---------------------------------------------------------------------------
// References
// ---------------------------------------------------------------------------

proof fn lemma_dropped(ctx: Ctx, a: GraphModel, b: GraphModel, n: int)
    requires
        same_rows(a, b),
        n <= a.len(),
    ensures
        references::dropped(ctx, a, n) == references::dropped(ctx, b, n),
    decreases n,
{
    if n > 0 {
        lemma_dropped(ctx, a, b, n - 1);
        assert(same_row(a[n - 1], b[n - 1]));
    }
}

proof fn lemma_target_conflicts(
    ctx: Ctx,
    a: GraphModel,
    b: GraphModel,
    m: Map<u128, usize>,
    r: int,
    key: Text,
    targets: Seq<u128>,
    n: int,
    before: Seq<ConflictModel>,
)
    requires
        same_rows(a, b),
        0 <= r < a.len(),
        a[r] is Some,
    ensures
        references::target_conflicts(ctx, a, m, r, key, targets, n, before)
            == references::target_conflicts(ctx, b, m, r, key, targets, n, before),
    decreases n,
{
    if n > 0 {
        lemma_target_conflicts(ctx, a, b, m, r, key, targets, n - 1, before);
        assert(same_row(a[r], b[r]));
        lemma_path(a, b, r as usize);
    }
}

proof fn lemma_row_ref_conflicts(
    ctx: Ctx,
    a: GraphModel,
    b: GraphModel,
    m: Map<u128, usize>,
    r: int,
    n: int,
    before: Seq<ConflictModel>,
)
    requires
        same_rows(a, b),
        0 <= r < a.len(),
        a[r] is Some,
    ensures
        references::row_ref_conflicts(ctx, a, m, r, n, before) == references::row_ref_conflicts(
            ctx,
            b,
            m,
            r,
            n,
            before,
        ),
    decreases n,
{
    if n > 0 {
        lemma_row_ref_conflicts(ctx, a, b, m, r, n - 1, before);
        assert(same_row(a[r], b[r]));
        lemma_path(a, b, r as usize);
        let (key, property) = a[r]->0.properties[n - 1];
        let targets = references::ref_targets(property.value);
        let so_far = references::row_ref_conflicts(ctx, a, m, r, n - 1, before);
        lemma_target_conflicts(ctx, a, b, m, r, key, targets, targets.len() as int, so_far);
    }
}

proof fn lemma_ref_conflicts(
    ctx: Ctx,
    a: GraphModel,
    b: GraphModel,
    m: Map<u128, usize>,
    n: int,
    before: Seq<ConflictModel>,
)
    requires
        same_rows(a, b),
        0 <= n <= a.len(),
    ensures
        references::ref_conflicts(ctx, a, m, n, before) == references::ref_conflicts(
            ctx,
            b,
            m,
            n,
            before,
        ),
    decreases n,
{
    if n > 0 {
        lemma_ref_conflicts(ctx, a, b, m, n - 1, before);
        assert(same_row(a[n - 1], b[n - 1]));
        if a[n - 1] is Some {
            lemma_row_ref_conflicts(
                ctx,
                a,
                b,
                m,
                n - 1,
                a[n - 1]->0.properties.len() as int,
                references::ref_conflicts(ctx, a, m, n - 1, before),
            );
        }
    }
}

proof fn lemma_unlinked(ctx: Ctx, a: GraphModel, b: GraphModel)
    requires
        same_rows(a, b),
    ensures
        same_rows(references::unlinked(ctx, a), references::unlinked(ctx, b)),
{
    let (x, y) = (references::unlinked(ctx, a), references::unlinked(ctx, b));
    let m = references::dropped(ctx, a, a.len() as int);
    lemma_dropped(ctx, a, b, a.len() as int);
    assert forall|r: int| 0 <= r < x.len() implies same_row(#[trigger] x[r], y[r]) by {
        assert(same_row(a[r], b[r]));
        lemma_path(a, b, r as usize);
        if a[r] is Some {
            assert(references::kept_properties(ctx, a, m, r) =~= references::kept_properties(
                ctx,
                b,
                m,
                r,
            ));
        }
    }
}

// ---------------------------------------------------------------------------
// Children
// ---------------------------------------------------------------------------

proof fn lemma_under(a: GraphModel, b: GraphModel, parent: usize, r: usize)
    requires
        same_rows(a, b),
    ensures
        child_order::is_under(a, parent, r) == child_order::is_under(b, parent, r),
{
    if r < a.len() {
        assert(same_row(a[r as int], b[r as int]));
    }
}

proof fn lemma_child_rows(
    ctx: Ctx,
    a: GraphModel,
    b: GraphModel,
    source: ValueSource,
    children: Seq<usize>,
    parent: usize,
)
    requires
        same_rows(a, b),
    ensures
        child_order::child_rows(ctx, a, source, children, parent) == child_order::child_rows(
            ctx,
            b,
            source,
            children,
            parent,
        ),
    decreases children.len(),
{
    if children.len() > 0 {
        lemma_child_rows(ctx, a, b, source, children.drop_last(), parent);
        if let Some(r) = crate::identity::row_of(ctx.rows, source, children.last()) {
            lemma_under(a, b, parent, r);
        }
    }
}

proof fn lemma_sequences(ctx: Ctx, a: GraphModel, b: GraphModel, r: int)
    requires
        same_rows(a, b),
    ensures
        child_order::row_sequences(ctx, a, r) == child_order::row_sequences(ctx, b, r),
{
    let nodes = ctx.nodes(ctx.rows.entries[r]);
    let p = r as usize;
    if let Some(node) = nodes.base {
        lemma_child_rows(ctx, a, b, ValueSource::Base, node.children, p);
    }
    if let Some(node) = nodes.ours {
        lemma_child_rows(ctx, a, b, ValueSource::Ours, node.children, p);
    }
    if let Some(node) = nodes.theirs {
        lemma_child_rows(ctx, a, b, ValueSource::Theirs, node.children, p);
    }
}

proof fn lemma_rows_under(a: GraphModel, b: GraphModel, parent: usize, n: int)
    requires
        same_rows(a, b),
    ensures
        child_order::rows_under(a, parent, n) == child_order::rows_under(b, parent, n),
    decreases n,
{
    if n > 0 {
        lemma_rows_under(a, b, parent, n - 1);
        lemma_under(a, b, parent, (n - 1) as usize);
    }
}

proof fn lemma_row_children(ctx: Ctx, a: GraphModel, b: GraphModel, r: int)
    requires
        same_rows(a, b),
    ensures
        child_order::row_children(ctx, a, r) == child_order::row_children(ctx, b, r),
{
    lemma_sequences(ctx, a, b, r);
    lemma_rows_under(a, b, r as usize, a.len() as int);
}

proof fn lemma_ordered(ctx: Ctx, a: GraphModel, b: GraphModel)
    requires
        same_rows(a, b),
    ensures
        same_rows(child_order::ordered(ctx, a), child_order::ordered(ctx, b)),
{
    let (x, y) = (child_order::ordered(ctx, a), child_order::ordered(ctx, b));
    assert forall|r: int| 0 <= r < x.len() implies same_row(#[trigger] x[r], y[r]) by {
        assert(same_row(a[r], b[r]));
        lemma_row_children(ctx, a, b, r);
    }
}

proof fn lemma_order_label(a: GraphModel, b: GraphModel, list: Seq<usize>)
    requires
        same_rows(a, b),
    ensures
        child_order::order_label(a, list) == child_order::order_label(b, list),
{
    let x = list.map_values(|r: usize| child_order::row_name(a, r));
    let y = list.map_values(|r: usize| child_order::row_name(b, r));
    assert forall|i: int| 0 <= i < list.len() implies #[trigger] x[i] == y[i] by {
        if list[i] < a.len() {
            assert(same_row(a[list[i] as int], b[list[i] as int]));
        }
    }
    assert(x =~= y);
}

proof fn lemma_order_conflicts(
    ctx: Ctx,
    a: GraphModel,
    b: GraphModel,
    n: int,
    before: Seq<ConflictModel>,
)
    requires
        same_rows(a, b),
        0 <= n <= a.len(),
    ensures
        child_order::order_conflicts(ctx, a, n, before) == child_order::order_conflicts(
            ctx,
            b,
            n,
            before,
        ),
    decreases n,
{
    if n > 0 {
        lemma_order_conflicts(ctx, a, b, n - 1, before);
        assert(same_row(a[n - 1], b[n - 1]));
        lemma_sequences(ctx, a, b, n - 1);
        let seqs = child_order::row_sequences(ctx, a, n - 1);
        lemma_order_label(a, b, seqs.base);
        lemma_order_label(a, b, seqs.ours);
        lemma_order_label(a, b, seqs.theirs);
    }
}

// ---------------------------------------------------------------------------
// Remarks
// ---------------------------------------------------------------------------

proof fn lemma_row_lost(
    ctx: Ctx,
    a: GraphModel,
    b: GraphModel,
    m: Map<u128, usize>,
    r: int,
    n: int,
)
    requires
        same_rows(a, b),
        0 <= r < a.len(),
        a[r] is Some,
    ensures
        references::row_lost_references(ctx, a, m, r, n) == references::row_lost_references(
            ctx,
            b,
            m,
            r,
            n,
        ),
    decreases n,
{
    if n > 0 {
        lemma_row_lost(ctx, a, b, m, r, n - 1);
        assert(same_row(a[r], b[r]));
        lemma_path(a, b, r as usize);
    }
}

proof fn lemma_lost(ctx: Ctx, a: GraphModel, b: GraphModel, m: Map<u128, usize>, n: int)
    requires
        same_rows(a, b),
        n <= a.len(),
    ensures
        references::lost_references(ctx, a, m, n) == references::lost_references(ctx, b, m, n),
    decreases n,
{
    if n > 0 {
        lemma_lost(ctx, a, b, m, n - 1);
        assert(same_row(a[n - 1], b[n - 1]));
        if let (Some(_), Some(i)) = (a[n - 1], ctx.rows.entries[n - 1].base) {
            lemma_row_lost(ctx, a, b, m, n - 1, ctx.base[i as int].properties.len() as int);
        }
    }
}

proof fn lemma_row_unknown(classes: Classes, a: GraphModel, b: GraphModel, r: int, n: int)
    requires
        same_rows(a, b),
        0 <= r < a.len(),
        a[r] is Some,
    ensures
        reflection::row_unknown(classes, a, r, n) == reflection::row_unknown(classes, b, r, n),
    decreases n,
{
    if n > 0 {
        lemma_row_unknown(classes, a, b, r, n - 1);
        assert(same_row(a[r], b[r]));
        lemma_path(a, b, r as usize);
    }
}

proof fn lemma_unknown(classes: Classes, a: GraphModel, b: GraphModel, n: int)
    requires
        same_rows(a, b),
        n <= a.len(),
    ensures
        reflection::unknown_properties(classes, a, n) == reflection::unknown_properties(
            classes,
            b,
            n,
        ),
    decreases n,
{
    if n > 0 {
        lemma_unknown(classes, a, b, n - 1);
        assert(same_row(a[n - 1], b[n - 1]));
        if let Some(node) = a[n - 1] {
            lemma_row_unknown(classes, a, b, n - 1, node.properties.len() as int);
        }
    }
}

// ---------------------------------------------------------------------------
// The law
// ---------------------------------------------------------------------------

proof fn lemma_merged_rows(ctx: Ctx, a: GraphModel, b: GraphModel)
    requires
        merging::is_merged_graph(ctx, a),
        merging::is_merged_graph(ctx, b),
    ensures
        same_rows(a, b),
{
    assert forall|r: int| 0 <= r < a.len() implies same_row(#[trigger] a[r], b[r]) by {
        let draft = graph::draft(ctx, ctx.rows.entries[r]);
        assert(match b[r] {
            Some(node) => draft is Some,
            None => draft is None,
        });
    }
}

proof fn lemma_settled(ctx: Ctx, a: GraphModel, b: GraphModel)
    requires
        same_rows(a, b),
    ensures
        same_rows(merging::settled(ctx, a), merging::settled(ctx, b)),
        merging::settling_conflicts(ctx, a) == merging::settling_conflicts(ctx, b),
{
    let n = a.len() as int;
    let c1 = graph::rows_conflicts(ctx, n, Seq::empty());
    lemma_repointed(ctx, a, b);
    lemma_cycle_conflicts(ctx, a, b, n, c1);
    let c2 = cycles::cycle_conflicts(ctx, a, n, c1);
    let (p, q) = (cycles::repointed(ctx, a), cycles::repointed(ctx, b));
    lemma_cleared(ctx.resolutions, p, q);
    lemma_collision_conflicts(ctx.resolutions, p, q, n, c2);
    let c3 = collisions::collision_conflicts(ctx.resolutions, p, n, c2);
    let x = collisions::cleared(ctx.resolutions, p);
    let y = collisions::cleared(ctx.resolutions, q);
    lemma_dropped(ctx, x, y, n);
    lemma_ref_conflicts(ctx, x, y, references::dropped(ctx, x, n), n, c3);
    lemma_unlinked(ctx, x, y);
}

/// The merge is a function of its inputs: two merges of the same files find the same
/// conflicts, make the same remarks, and finish with the same rows but for the
/// referents that are drawn.
pub proof fn law_merge_is_determined(ctx: Ctx, classes: Classes, a: GraphModel, b: GraphModel)
    requires
        merging::is_merged_graph(ctx, a),
        merging::is_merged_graph(ctx, b),
    ensures
        merging::merge_conflicts(ctx, a) == merging::merge_conflicts(ctx, b),
        same_rows(merging::finished(ctx, a), merging::finished(ctx, b)),
        forall|before: Seq<DiagnosticModel>| #[trigger]
            merging::remarks_of(ctx, classes, a, before) == merging::remarks_of(
                ctx,
                classes,
                b,
                before,
            ),
{
    let n = a.len() as int;
    lemma_merged_rows(ctx, a, b);
    lemma_settled(ctx, a, b);
    let (s, t) = (merging::settled(ctx, a), merging::settled(ctx, b));
    lemma_order_conflicts(ctx, s, t, n, Seq::empty());
    lemma_ordered(ctx, s, t);
    let (p, q) = (child_order::ordered(ctx, s), child_order::ordered(ctx, t));
    lemma_cleared(ctx.resolutions, p, q);
    lemma_collision_conflicts(
        ctx.resolutions,
        p,
        q,
        n,
        child_order::order_conflicts(ctx, s, n, Seq::empty()),
    );
    let (f, h) = (merging::finished(ctx, a), merging::finished(ctx, b));
    lemma_dropped(ctx, f, h, n);
    lemma_lost(ctx, f, h, references::dropped(ctx, f, n), n);
    lemma_unknown(classes, f, h, n);
    assert(merging::remarks_on(ctx, classes, f) == merging::remarks_on(ctx, classes, h));
}

} // verus!
