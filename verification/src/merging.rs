//! The passes of a merge, from the matched rows to the merged tree.

use rbx_dom_weak::WeakDom;
use rbx_reflection::ReflectionDatabase;
use vstd::prelude::*;

use crate::child_order;
use crate::child_order::assign_child_order;
use crate::collisions;
use crate::collisions::detect_unique_id_collisions;
use crate::conflict;
use crate::conflict::{Conflict, ConflictModel};
use crate::context::{Ctx, MergeCtx};
use crate::cycles;
use crate::cycles::detect_parent_cycles;
use crate::diagnostics;
use crate::diagnostics::{Diagnostic, DiagnosticModel};
use crate::dom;
use crate::dom::Forest;
use crate::graph;
use crate::graph::{merge_semantic_graph, GraphModel, MergedGraph};
use crate::graph_wf;
use crate::identity::MergeEntry;
use crate::matching::Classes;
use crate::properties;
use crate::references;
use crate::references::{detect_dropped_references, detect_ref_targets};
use crate::reflection;
use crate::reflection::scan_unknown_properties;
use crate::resolve::ResolutionsModel;
use crate::rows;
use crate::text::Text;
use crate::tree;
use crate::tree::build_weak_dom;

verus! {

/// What comes of a merge: a tree that can be written, or the conflicts that are in
/// the way of one.
pub enum MergeOutcome {
    Merged(WeakDom),
    Conflicts(Vec<Conflict>),
}

/// The mathematical counterpart of [`MergeOutcome`].
pub ghost enum OutcomeModel {
    Merged(Forest),
    Conflicts(Seq<ConflictModel>),
}

impl View for MergeOutcome {
    type V = OutcomeModel;

    open spec fn view(&self) -> OutcomeModel {
        match *self {
            MergeOutcome::Merged(dom) => OutcomeModel::Merged(dom::forest(dom)),
            MergeOutcome::Conflicts(list) => OutcomeModel::Conflicts(conflict::conflicts_view(list@)),
        }
    }
}

/// The graph of the merged rows after loops, collisions and dangling references
/// were seen to.
pub open spec fn settled(ctx: Ctx, g: GraphModel) -> GraphModel {
    references::unlinked(ctx, collisions::cleared(ctx.resolutions, cycles::repointed(ctx, g)))
}

/// The conflicts of the merged rows, of loops, of collisions and of dangling
/// references.
pub open spec fn settling_conflicts(ctx: Ctx, g: GraphModel) -> Seq<ConflictModel> {
    let n = g.len() as int;
    let parted = cycles::repointed(ctx, g);
    let cleared = collisions::cleared(ctx.resolutions, parted);
    references::ref_conflicts(
        ctx,
        cleared,
        references::dropped(ctx, cleared, n),
        n,
        collisions::collision_conflicts(
            ctx.resolutions,
            parted,
            n,
            cycles::cycle_conflicts(ctx, g, n, graph::rows_conflicts(ctx, n, Seq::empty())),
        ),
    )
}

/// The graph with the children of every row.
pub open spec fn finished(ctx: Ctx, g: GraphModel) -> GraphModel {
    collisions::cleared(ctx.resolutions, child_order::ordered(ctx, settled(ctx, g)))
}

/// The conflicts of the order of the children, and of collisions.
pub open spec fn finishing_conflicts(ctx: Ctx, g: GraphModel) -> Seq<ConflictModel> {
    let n = g.len() as int;
    collisions::collision_conflicts(
        ctx.resolutions,
        child_order::ordered(ctx, settled(ctx, g)),
        n,
        child_order::order_conflicts(ctx, settled(ctx, g), n, Seq::empty()),
    )
}

/// The conflicts of a merge. Those of the order of the children are looked for only
/// where there are no others.
pub open spec fn merge_conflicts(ctx: Ctx, g: GraphModel) -> Seq<ConflictModel> {
    if settling_conflicts(ctx, g).len() > 0 {
        settling_conflicts(ctx, g)
    } else {
        finishing_conflicts(ctx, g)
    }
}

/// The remarks on a finished graph.
pub open spec fn remarks_on(ctx: Ctx, classes: Classes, h: GraphModel) -> Seq<DiagnosticModel> {
    let n = h.len() as int;
    references::lost_references(ctx, h, references::dropped(ctx, h, n), n)
        + reflection::unknown_properties(classes, h, n)
}

/// What comes of a merge whose merged rows are `g`: the conflicts where there are
/// any, else the tree of the finished graph.
pub open spec fn outcome_of(ctx: Ctx, g: GraphModel, outcome: OutcomeModel) -> bool {
    if merge_conflicts(ctx, g).len() > 0 {
        outcome == OutcomeModel::Conflicts(merge_conflicts(ctx, g))
    } else {
        &&& outcome is Merged
        &&& tree::built(
            tree::final_refs(ctx, finished(ctx, g), g.len() as int),
            finished(ctx, g),
            outcome->Merged_0,
        )
    }
}

/// The remarks after a merge whose merged rows are `g`.
pub open spec fn remarks_of(
    ctx: Ctx,
    classes: Classes,
    g: GraphModel,
    before: Seq<DiagnosticModel>,
) -> Seq<DiagnosticModel> {
    if merge_conflicts(ctx, g).len() > 0 {
        before
    } else {
        before + remarks_on(ctx, classes, finished(ctx, g))
    }
}

/// A graph of merged rows. Only its referents are left open: a row whose referent
/// is taken gets one by chance.
pub open spec fn is_merged_graph(ctx: Ctx, g: GraphModel) -> bool {
    &&& g.len() == ctx.rows.entries.len()
    &&& graph::merged_rows(ctx, g, g.len() as int)
}

// ---------------------------------------------------------------------------
// Conflicts only become more
// ---------------------------------------------------------------------------

pub proof fn lemma_row_conflicts_grow(
    ctx: Ctx,
    entry: MergeEntry,
    keys: Seq<Text>,
    before: Seq<ConflictModel>,
)
    ensures
        properties::row_conflicts(ctx, entry, keys, before).len() >= before.len(),
    decreases keys.len(),
{
    if keys.len() > 0 {
        lemma_row_conflicts_grow(ctx, entry, keys.drop_last(), before);
    }
}

/// The merge of a row takes no conflict away.
pub proof fn lemma_entry_conflicts_grow(ctx: Ctx, entry: MergeEntry, before: Seq<ConflictModel>)
    ensures
        graph::entry_conflicts(ctx, entry, before).len() >= before.len(),
        rows::decision(ctx, entry) is Merge && graph::draft(ctx, entry) is None
            ==> graph::entry_conflicts(ctx, entry, before).len() > before.len(),
{
    let decided = rows::decision_conflicts(ctx, entry, before);
    let classed = rows::text_conflicts(
        ctx,
        entry,
        "ClassName"@,
        rows::classes_of(ctx, entry),
        decided,
    );
    let named = rows::text_conflicts(ctx, entry, "Name"@, rows::names_of(ctx, entry), classed);
    lemma_row_conflicts_grow(
        ctx,
        entry,
        properties::row_keys(ctx, entry),
        rows::parent_conflicts(ctx, entry, named),
    );
}

/// Where there is no conflict in the end, there is none on the way.
pub proof fn lemma_rows_conflicts_grow(ctx: Ctx, n: int, m: int, before: Seq<ConflictModel>)
    requires
        0 <= n <= m,
    ensures
        before.len() <= graph::rows_conflicts(ctx, n, before).len() <= graph::rows_conflicts(
            ctx,
            m,
            before,
        ).len(),
    decreases m,
{
    if n < m {
        lemma_rows_conflicts_grow(ctx, n, m - 1, before);
        lemma_entry_conflicts_grow(
            ctx,
            ctx.rows.entries[m - 1],
            graph::rows_conflicts(ctx, m - 1, before),
        );
    } else if n > 0 {
        lemma_rows_conflicts_grow(ctx, n - 1, m - 1, before);
        lemma_entry_conflicts_grow(
            ctx,
            ctx.rows.entries[m - 1],
            graph::rows_conflicts(ctx, m - 1, before),
        );
    }
}

pub proof fn lemma_cycle_conflicts_grow(
    ctx: Ctx,
    g: GraphModel,
    n: int,
    m: int,
    before: Seq<ConflictModel>,
)
    requires
        0 <= n <= m,
    ensures
        before.len() <= cycles::cycle_conflicts(ctx, g, n, before).len() <= cycles::cycle_conflicts(
            ctx,
            g,
            m,
            before,
        ).len(),
    decreases m,
{
    if n < m {
        lemma_cycle_conflicts_grow(ctx, g, n, m - 1, before);
    } else if n > 0 {
        lemma_cycle_conflicts_grow(ctx, g, n - 1, m - 1, before);
    }
}

pub proof fn lemma_collision_conflicts_grow(
    resolutions: ResolutionsModel,
    g: GraphModel,
    n: int,
    m: int,
    before: Seq<ConflictModel>,
)
    requires
        0 <= n <= m,
    ensures
        before.len() <= collisions::collision_conflicts(resolutions, g, n, before).len()
            <= collisions::collision_conflicts(resolutions, g, m, before).len(),
    decreases m,
{
    if n < m {
        lemma_collision_conflicts_grow(resolutions, g, n, m - 1, before);
    } else if n > 0 {
        lemma_collision_conflicts_grow(resolutions, g, n - 1, m - 1, before);
    }
}

/// A dangling reference that is not decided is a conflict.
proof fn lemma_target_conflicts_grow(
    ctx: Ctx,
    g: GraphModel,
    m: Map<u128, usize>,
    r: int,
    key: Text,
    targets: Seq<u128>,
    n: int,
    before: Seq<ConflictModel>,
)
    requires
        0 <= n,
    ensures
        references::target_conflicts(ctx, g, m, r, key, targets, n, before).len() >= before.len(),
        (exists|i: int| 0 <= i < n && m.contains_key(#[trigger] targets[i]))
            ==> references::target_conflicts(ctx, g, m, r, key, targets, n, before).len()
            > before.len(),
    decreases n,
{
    if n > 0 {
        lemma_target_conflicts_grow(ctx, g, m, r, key, targets, n - 1, before);
    }
}

pub proof fn lemma_row_ref_conflicts_grow(
    ctx: Ctx,
    g: GraphModel,
    m: Map<u128, usize>,
    r: int,
    n: int,
    before: Seq<ConflictModel>,
)
    requires
        0 <= n,
    ensures
        references::row_ref_conflicts(ctx, g, m, r, n, before).len() >= before.len(),
        references::row_ref_conflicts(ctx, g, m, r, n, before).len() == before.len() ==> forall|
            i: int,
        |
            0 <= i < n && references::dangles(m, (#[trigger] g[r]->0.properties[i]).1.value)
                ==> references::ref_decided(ctx, g, r, g[r]->0.properties[i].0),
    decreases n,
{
    if n > 0 {
        lemma_row_ref_conflicts_grow(ctx, g, m, r, n - 1, before);
        let so_far = references::row_ref_conflicts(ctx, g, m, r, n - 1, before);
        let (key, property) = g[r]->0.properties[n - 1];
        let targets = references::ref_targets(property.value);
        lemma_target_conflicts_grow(ctx, g, m, r, key, targets, targets.len() as int, so_far);
    }
}

pub proof fn lemma_ref_conflicts_grow(
    ctx: Ctx,
    g: GraphModel,
    m: Map<u128, usize>,
    n: int,
    before: Seq<ConflictModel>,
)
    requires
        0 <= n,
    ensures
        references::ref_conflicts(ctx, g, m, n, before).len() >= before.len(),
        references::ref_conflicts(ctx, g, m, n, before).len() == before.len() ==> forall|
            r: int,
            i: int,
        |
            0 <= r < n && g[r] is Some && 0 <= i < g[r]->0.properties.len() && references::dangles(
                m,
                (#[trigger] g[r]->0.properties[i]).1.value,
            ) ==> references::ref_decided(ctx, g, r, g[r]->0.properties[i].0),
    decreases n,
{
    if n > 0 {
        lemma_ref_conflicts_grow(ctx, g, m, n - 1, before);
        if g[n - 1] is Some {
            lemma_row_ref_conflicts_grow(
                ctx,
                g,
                m,
                n - 1,
                g[n - 1]->0.properties.len() as int,
                references::ref_conflicts(ctx, g, m, n - 1, before),
            );
        }
    }
}

/// Where there is no conflict about the order of the children, every row has
/// children.
pub proof fn lemma_order_conflicts_grow(
    ctx: Ctx,
    g: GraphModel,
    n: int,
    before: Seq<ConflictModel>,
)
    requires
        0 <= n,
    ensures
        child_order::order_conflicts(ctx, g, n, before).len() >= before.len(),
        child_order::order_conflicts(ctx, g, n, before).len() == before.len() ==> forall|r: int|
            0 <= r < n && (#[trigger] g[r]) is Some ==> child_order::row_children(ctx, g, r)
                is Some,
    decreases n,
{
    if n > 0 {
        lemma_order_conflicts_grow(ctx, g, n - 1, before);
    }
}

/// Where the settled graph has no conflicts, none of the passes found one.
pub proof fn lemma_settled_clean(ctx: Ctx, g: GraphModel)
    requires
        settling_conflicts(ctx, g).len() == 0,
    ensures
        ({
            let n = g.len() as int;
            let none = Seq::<ConflictModel>::empty();
            let parted = cycles::repointed(ctx, g);
            let cleared = collisions::cleared(ctx.resolutions, parted);
            &&& graph::rows_conflicts(ctx, n, none).len() == 0
            &&& cycles::cycle_conflicts(ctx, g, n, none).len() == 0
            &&& collisions::collision_conflicts(ctx.resolutions, parted, n, none).len() == 0
            &&& references::ref_conflicts(
                ctx,
                cleared,
                references::dropped(ctx, cleared, n),
                n,
                none,
            ).len() == 0
        }),
{
    let n = g.len() as int;
    let none = Seq::<ConflictModel>::empty();
    let parted = cycles::repointed(ctx, g);
    let cleared = collisions::cleared(ctx.resolutions, parted);
    let c1 = graph::rows_conflicts(ctx, n, none);
    let c2 = cycles::cycle_conflicts(ctx, g, n, c1);
    let c3 = collisions::collision_conflicts(ctx.resolutions, parted, n, c2);
    lemma_rows_conflicts_grow(ctx, 0, n, none);
    lemma_cycle_conflicts_grow(ctx, g, 0, n, c1);
    lemma_collision_conflicts_grow(ctx.resolutions, parted, 0, n, c2);
    lemma_ref_conflicts_grow(ctx, cleared, references::dropped(ctx, cleared, n), n, c3);
    assert(c1 =~= none);
    assert(c2 =~= none);
    assert(c3 =~= none);
}

/// Where the finished graph has no conflicts, none of the passes found one.
pub proof fn lemma_finished_clean(ctx: Ctx, g: GraphModel)
    requires
        finishing_conflicts(ctx, g).len() == 0,
    ensures
        ({
            let n = g.len() as int;
            let none = Seq::<ConflictModel>::empty();
            let placed = child_order::ordered(ctx, settled(ctx, g));
            &&& child_order::order_conflicts(ctx, settled(ctx, g), n, none).len() == 0
            &&& collisions::collision_conflicts(ctx.resolutions, placed, n, none).len() == 0
        }),
{
    let n = g.len() as int;
    let none = Seq::<ConflictModel>::empty();
    let placed = child_order::ordered(ctx, settled(ctx, g));
    let c5 = child_order::order_conflicts(ctx, settled(ctx, g), n, none);
    lemma_order_conflicts_grow(ctx, settled(ctx, g), n, none);
    lemma_collision_conflicts_grow(ctx.resolutions, placed, 0, n, c5);
    assert(c5 =~= none);
}

// ---------------------------------------------------------------------------
// A graph without conflicts is a forest
// ---------------------------------------------------------------------------

/// Every pass keeps the graph well-formed.
pub proof fn lemma_passes_wf(ctx: Ctx, g: GraphModel)
    requires
        ctx.wf(),
        is_merged_graph(ctx, g),
    ensures
        graph_wf::graph_wf(g),
        graph_wf::graph_wf(cycles::repointed(ctx, g)),
        graph_wf::graph_wf(collisions::cleared(ctx.resolutions, cycles::repointed(ctx, g))),
        graph_wf::graph_wf(settled(ctx, g)),
        graph_wf::graph_wf(child_order::ordered(ctx, settled(ctx, g))),
        graph_wf::graph_wf(finished(ctx, g)),
{
    let parted = cycles::repointed(ctx, g);
    let cleared = collisions::cleared(ctx.resolutions, parted);
    let placed = child_order::ordered(ctx, settled(ctx, g));
    graph_wf::lemma_merged_graph_wf(ctx, g);
    graph_wf::lemma_repointed_wf(ctx, g);
    graph_wf::lemma_cleared_wf(ctx.resolutions, parted);
    graph_wf::lemma_unlinked_wf(ctx, cleared);
    graph_wf::lemma_ordered_wf(ctx, settled(ctx, g));
    graph_wf::lemma_cleared_wf(ctx.resolutions, placed);
}

/// The rows that survive the merge of rows survive all passes; only loops, unique
/// ids and dangling references change them.
pub proof fn lemma_same_rows_survive(ctx: Ctx, g: GraphModel, r: int)
    requires
        0 <= r < g.len(),
    ensures
        settled(ctx, g).len() == g.len(),
        finished(ctx, g).len() == g.len(),
        g[r] is Some <==> settled(ctx, g)[r] is Some,
        g[r] is Some <==> finished(ctx, g)[r] is Some,
        g[r] is Some ==> {
            let a = g[r]->0;
            let s = settled(ctx, g)[r]->0;
            let f = finished(ctx, g)[r]->0;
            &&& f.class == a.class
            &&& f.name == a.name
            &&& f.referent == a.referent
            &&& f.parent == s.parent
            &&& s.parent == cycles::repointed(ctx, g)[r]->0.parent
            &&& child_order::row_children(ctx, settled(ctx, g), r) is Some ==> f.children
                == child_order::row_children(ctx, settled(ctx, g), r)->0
        },
{
}

/// In a merge without conflicts the root survives.
pub proof fn lemma_root_survives(ctx: Ctx, g: GraphModel)
    requires
        ctx.wf(),
        is_merged_graph(ctx, g),
        settling_conflicts(ctx, g).len() == 0,
    ensures
        g[0] is Some,
{
    let n = g.len() as int;
    let none = Seq::<ConflictModel>::empty();
    lemma_settled_clean(ctx, g);
    lemma_rows_conflicts_grow(ctx, 1, n, none);
    lemma_rows_conflicts_grow(ctx, 0, 1, none);
    lemma_entry_conflicts_grow(
        ctx,
        ctx.rows.entries[0],
        graph::rows_conflicts(ctx, 0, none),
    );
    assert(graph::rows_conflicts(ctx, 1, none) == graph::entry_conflicts(
        ctx,
        ctx.rows.entries[0],
        graph::rows_conflicts(ctx, 0, none),
    ));
    assert(rows::decision(ctx, ctx.rows.entries[0]) is Merge);
}

/// Without conflicts the finished graph is ready to be built: the root survives, and
/// the children of every row are the rows under it, each of them once.
pub proof fn law_clean_graph_is_ready(ctx: Ctx, g: GraphModel)
    requires
        ctx.wf(),
        is_merged_graph(ctx, g),
        merge_conflicts(ctx, g).len() == 0,
    ensures
        tree::ready(finished(ctx, g)),
{
    let s = settled(ctx, g);
    let f = finished(ctx, g);
    let n = g.len() as int;
    lemma_passes_wf(ctx, g);
    lemma_root_survives(ctx, g);
    lemma_same_rows_survive(ctx, g, 0);
    lemma_finished_clean(ctx, g);
    lemma_order_conflicts_grow(ctx, s, n, Seq::empty());
    assert forall|r: int| 0 <= r < f.len() && (#[trigger] f[r]) is Some implies f[r]->0.children.no_duplicates()
        && tree::children_complete(f, r) by {
        lemma_same_rows_survive(ctx, g, r);
        assert(s[r] is Some);
        child_order::law_children_are_the_rows_under(ctx, s, r);
        assert forall|x: usize| #[trigger] f[r]->0.children.contains(x) <==> child_order::is_under(
            f,
            r as usize,
            x,
        ) by {
            assert(f[r]->0.children.contains(x) <==> child_order::is_under(s, r as usize, x));
            if x < g.len() {
                lemma_same_rows_survive(ctx, g, x as int);
            }
        }
    }
}

/// Merges the rows, and sees to loops, collisions and dangling references.
fn settle(ctx: &MergeCtx) -> (res: (MergedGraph, Vec<Conflict>, Ghost<GraphModel>))
    requires
        ctx.wf(),
    ensures
        is_merged_graph(ctx@, res.2@),
        res.0@ == settled(ctx@, res.2@),
        conflict::conflicts_view(res.1@) == settling_conflicts(ctx@, res.2@),
{
    let mut conflicts: Vec<Conflict> = Vec::new();
    assert(conflict::conflicts_view(conflicts@) =~= Seq::<ConflictModel>::empty());
    let mut graph = merge_semantic_graph(ctx, &mut conflicts);
    let ghost g = graph@;
    proof {
        lemma_passes_wf(ctx@, g);
    }
    detect_parent_cycles(ctx, &mut graph, &mut conflicts);
    detect_unique_id_collisions(&mut graph, ctx.resolutions, &mut conflicts);
    detect_ref_targets(ctx, &mut graph, &mut conflicts);
    (graph, conflicts, Ghost(g))
}

/// Orders the children, and sees to collisions again.
fn finish(ctx: &MergeCtx, graph: &mut MergedGraph, Ghost(g): Ghost<GraphModel>) -> (res: Vec<
    Conflict,
>)
    requires
        ctx.wf(),
        is_merged_graph(ctx@, g),
        old(graph)@ == settled(ctx@, g),
    ensures
        final(graph)@ == finished(ctx@, g),
        conflict::conflicts_view(res@) == finishing_conflicts(ctx@, g),
{
    let mut conflicts: Vec<Conflict> = Vec::new();
    assert(conflict::conflicts_view(conflicts@) =~= Seq::<ConflictModel>::empty());
    proof {
        lemma_passes_wf(ctx@, g);
    }
    assign_child_order(ctx, graph, &mut conflicts);
    detect_unique_id_collisions(graph, ctx.resolutions, &mut conflicts);
    conflicts
}

/// Makes the remarks on a finished graph.
fn remark(
    ctx: &MergeCtx,
    db: &ReflectionDatabase<'static>,
    graph: &MergedGraph,
    diagnostics: &mut Vec<Diagnostic>,
)
    requires
        ctx.wf(),
        graph@.len() == ctx@.rows.entries.len(),
    ensures
        diagnostics::diagnostics_view(final(diagnostics)@) == diagnostics::diagnostics_view(
            old(diagnostics)@,
        ) + remarks_on(ctx@, dom::classes(*db), graph@),
{
    let ghost before = diagnostics::diagnostics_view(diagnostics@);
    detect_dropped_references(ctx, graph, diagnostics);
    scan_unknown_properties(graph, db, diagnostics);
    proof {
        let h = graph@;
        let n = h.len() as int;
        let a = references::lost_references(ctx@, h, references::dropped(ctx@, h, n), n);
        let b = reflection::unknown_properties(dom::classes(*db), h, n);
        assert((before + a) + b =~= before + (a + b));
    }
}

/// Merges the rows of three files: either into a tree, or up to the conflicts.
pub fn merge_graph(
    ctx: &MergeCtx,
    db: &ReflectionDatabase<'static>,
    diagnostics: &mut Vec<Diagnostic>,
) -> (res: MergeOutcome)
    requires
        ctx.wf(),
    ensures
        exists|g: GraphModel| #[trigger]
            is_merged_graph(ctx@, g) && outcome_of(ctx@, g, res@)
                && diagnostics::diagnostics_view(final(diagnostics)@) == remarks_of(
                ctx@,
                dom::classes(*db),
                g,
                diagnostics::diagnostics_view(old(diagnostics)@),
            ),
{
    let (mut graph, conflicts, Ghost(g)): (MergedGraph, Vec<Conflict>, Ghost<GraphModel>) = settle(
        ctx,
    );
    assert(conflict::conflicts_view(conflicts@).len() == conflicts@.len());
    if conflicts.len() > 0 {
        return MergeOutcome::Conflicts(conflicts);
    }
    let late = finish(ctx, &mut graph, Ghost(g));
    assert(conflict::conflicts_view(late@).len() == late@.len());
    if late.len() > 0 {
        return MergeOutcome::Conflicts(late);
    }
    proof {
        law_clean_graph_is_ready(ctx@, g);
    }
    remark(ctx, db, &graph, diagnostics);
    let tree = build_weak_dom(ctx, &graph);
    MergeOutcome::Merged(tree)
}

} // verus!
