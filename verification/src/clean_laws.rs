//! What holds of every merge without conflicts.

use vstd::prelude::*;

use crate::agreement_laws;
use crate::child_order;
use crate::collisions;
use crate::conflict::ConflictModel;
use crate::context;
use crate::context::Ctx;
use crate::cycles;
use crate::dom;
use crate::graph;
use crate::graph::{GraphModel, NodeModel};
use crate::graph_wf;
use crate::identity;
use crate::identity::MergeEntry;
use crate::keyed;
use crate::lists;
use crate::matching;
use crate::merging;
use crate::properties;
use crate::references;
use crate::resolve;
use crate::resolve::{ResolutionsModel, Side};
use crate::rows;
use crate::semantic;
use crate::semantic::ValueSource;
use crate::text::Text;
use crate::three_way;
use crate::tree;

verus! {

// ---------------------------------------------------------------------------
// Unique ids
// ---------------------------------------------------------------------------

/// A unique id that a row has is found to have a holder.
pub proof fn lemma_has_holder(g: GraphModel, id: u128, r: int, n: int)
    requires
        0 <= r < n,
        collisions::row_unique_id(g[r]) == Some(id),
    ensures
        collisions::first_holder(g, id, n) is Some,
    decreases n,
{
    if r < n - 1 {
        lemma_has_holder(g, id, r, n - 1);
    }
}

/// Without conflicts about collisions, every collision is decided.
pub proof fn lemma_collisions_decided(resolutions: ResolutionsModel, g: GraphModel, n: int, r: int)
    requires
        0 <= r < n,
        collisions::collision_conflicts(resolutions, g, n, Seq::empty()).len() == 0,
        collisions::collides_with(g, r) is Some,
    ensures
        collisions::collision_decided(resolutions, g, r),
    decreases n,
{
    merging::lemma_collision_conflicts_grow(resolutions, g, n - 1, n, Seq::empty());
    if r < n - 1 {
        lemma_collisions_decided(resolutions, g, n - 1, r);
    }
}

pub proof fn lemma_without_property(node: NodeModel, key: Text)
    ensures
        keyed::lookup(graph::without_property(node, key).properties, key) is None,
{
    let list = graph::without_property(node, key).properties;
    if keyed::lookup(list, key) is Some {
        let i = keyed::lemma_lookup_some(list, key);
        assert(list.contains(list[i]));
        lists::lemma_filter_mem(node.properties, graph::has_other_name(key), list[i]);
    }
}

/// In a merge without conflicts no two instances share a unique id.
pub proof fn law_clean_merge_has_distinct_unique_ids(ctx: Ctx, g: GraphModel, r: int, s: int)
    requires
        ctx.wf(),
        merging::is_merged_graph(ctx, g),
        merging::merge_conflicts(ctx, g).len() == 0,
        0 <= r < s < g.len(),
        collisions::row_unique_id(merging::finished(ctx, g)[r]) is Some,
    ensures
        collisions::row_unique_id(merging::finished(ctx, g)[r]) != collisions::row_unique_id(
            merging::finished(ctx, g)[s],
        ),
{
    let placed = child_order::ordered(ctx, merging::settled(ctx, g));
    let f = merging::finished(ctx, g);
    let n = g.len() as int;
    merging::lemma_finished_clean(ctx, g);
    if collisions::row_unique_id(f[r]) == collisions::row_unique_id(f[s]) {
        let id = collisions::row_unique_id(f[r])->0;
        if collisions::collides_with(placed, r) is Some {
            lemma_without_property(placed[r]->0, dom::unique_id_key());
        }
        if collisions::collides_with(placed, s) is Some {
            lemma_without_property(placed[s]->0, dom::unique_id_key());
        }
        assert(collisions::row_unique_id(placed[r]) == Some(id));
        assert(collisions::row_unique_id(placed[s]) == Some(id));
        lemma_has_holder(placed, id, r, s);
        lemma_collisions_decided(ctx.resolutions, placed, n, s);
    }
}

// ---------------------------------------------------------------------------
// Loops
// ---------------------------------------------------------------------------

/// A graph whose root has no parent.
spec fn rooted(g: GraphModel) -> bool {
    cycles::up(g, 0) is None
}

/// The way up from a row goes on as the way up from any row on it.
proof fn lemma_above_goes_on(g: GraphModel, start: usize, i: nat, x: usize, m: nat)
    requires
        rooted(g),
        cycles::above(g, start, i) == Some(x),
    ensures
        cycles::above(g, start, i + m) == cycles::above(g, x, m),
    decreases m,
{
    if m > 0 {
        lemma_above_goes_on(g, start, i, x, (m - 1) as nat);
        assert((i + m - 1) as nat == i + (m - 1) as nat);
    }
}

/// Without conflicts about loops no surviving row is on a loop once loops were broken.
pub proof fn lemma_cycles_broken(ctx: Ctx, g: GraphModel, n: int, r: int)
    requires
        0 <= r < n,
        cycles::cycle_conflicts(ctx, g, n, Seq::empty()).len() == 0,
    ensures
        !cycles::is_member(cycles::repointed(ctx, g), r),
    decreases n,
{
    merging::lemma_cycle_conflicts_grow(ctx, g, n - 1, n, Seq::empty());
    if r < n - 1 {
        lemma_cycles_broken(ctx, g, n - 1, r);
    }
}

/// Without conflicts about loops no row is on a loop once loops were broken.
proof fn lemma_no_loop(ctx: Ctx, g: GraphModel, r: usize)
    requires
        cycles::cycle_conflicts(ctx, g, g.len() as int, Seq::empty()).len() == 0,
        r < g.len(),
    ensures
        !cycles::on_cycle(cycles::repointed(ctx, g), r),
{
    let h = cycles::repointed(ctx, g);
    lemma_cycles_broken(ctx, g, g.len() as int, r as int);
    if cycles::on_cycle(h, r) {
        let k = choose|k: nat| k >= 1 && #[trigger] cycles::above(h, r, k) == Some(r);
        assert(h[r as int] is None);
        assert(cycles::above(h, r, 0) == Some(r));
        assert(cycles::above(h, r, 1) is None);
        lemma_above_ends(h, r, k);
    }
}

/// The parents are not changed any more once loops were broken.
proof fn lemma_parents_stay(ctx: Ctx, g: GraphModel, r: usize)
    requires
        r < g.len(),
    ensures
        cycles::up(cycles::repointed(ctx, g), r) == cycles::up(merging::finished(ctx, g), r),
        merging::finished(ctx, g).len() == g.len(),
{
    merging::lemma_same_rows_survive(ctx, g, r as int);
}

/// In a merge without conflicts the parents form no loop.
pub proof fn law_clean_merge_has_no_loop(ctx: Ctx, g: GraphModel, r: usize)
    requires
        ctx.wf(),
        merging::is_merged_graph(ctx, g),
        merging::merge_conflicts(ctx, g).len() == 0,
        r < g.len(),
    ensures
        !cycles::on_cycle(merging::finished(ctx, g), r),
{
    let h = cycles::repointed(ctx, g);
    let f = merging::finished(ctx, g);
    merging::lemma_passes_wf(ctx, g);
    merging::lemma_settled_clean(ctx, g);
    assert(rooted(h)) by {
        assert(h[0] is Some ==> h[0]->0.parent is None);
    }
    lemma_no_loop(ctx, g, r);
    if cycles::on_cycle(f, r) {
        let k = choose|k: nat| k >= 1 && #[trigger] cycles::above(f, r, k) == Some(r);
        assert forall|x: int| 0 <= x < h.len() implies cycles::up(h, x as usize)
            == #[trigger] cycles::up(f, x as usize) by {
            lemma_parents_stay(ctx, g, x as usize);
        }
        lemma_parents_stay(ctx, g, r);
        lemma_same_parents(h, f, r, k);
        assert(cycles::above(h, r, k) == Some(r));
    }
}

/// The way up depends on the parents alone.
proof fn lemma_same_parents(a: GraphModel, b: GraphModel, start: usize, k: nat)
    requires
        a.len() == b.len(),
        forall|r: int|
            0 <= r < a.len() ==> cycles::up(a, r as usize) == #[trigger] cycles::up(b, r as usize),
    ensures
        cycles::above(a, start, k) == cycles::above(b, start, k),
    decreases k,
{
    if k > 0 {
        lemma_same_parents(a, b, start, (k - 1) as nat);
        if let Some(x) = cycles::above(a, start, (k - 1) as nat) {
            if x < a.len() {
                assert(cycles::up(a, x as int as usize) == cycles::up(b, x as int as usize));
            }
        }
    }
}

/// A row that did not survive has no way up.
proof fn lemma_above_ends(g: GraphModel, r: usize, k: nat)
    requires
        k >= 1,
        cycles::above(g, r, 1) is None,
    ensures
        cycles::above(g, r, k) is None,
    decreases k,
{
    if k > 1 {
        lemma_above_ends(g, r, (k - 1) as nat);
    }
}

// ---------------------------------------------------------------------------
// Rows without conflicts
// ---------------------------------------------------------------------------

/// Without conflicts about rows there is none about any row.
pub proof fn lemma_row_clean(ctx: Ctx, n: int, r: int)
    requires
        0 <= r < n,
        graph::rows_conflicts(ctx, n, Seq::empty()).len() == 0,
    ensures
        graph::entry_conflicts(ctx, ctx.rows.entries[r], Seq::empty()).len() == 0,
{
    let none = Seq::<ConflictModel>::empty();
    merging::lemma_rows_conflicts_grow(ctx, r + 1, n, none);
    merging::lemma_rows_conflicts_grow(ctx, r, r + 1, none);
    assert(graph::rows_conflicts(ctx, r, none) =~= none);
}

/// What a row without conflicts is like where nothing is decided: no change of it
/// met its deletion, and its class, name and parent are agreed on.
pub proof fn lemma_entry_clean(ctx: Ctx, entry: MergeEntry)
    requires
        resolve::undecided(ctx.resolutions),
        graph::entry_conflicts(ctx, entry, Seq::empty()).len() == 0,
    ensures
        !rows::delete_modify(ctx, entry),
        !(rows::decision(ctx, entry) is TakeSide),
        rows::decision(ctx, entry) is Merge ==> {
            &&& graph::draft(ctx, entry) is Some
            &&& three_way::three_way_of(ctx.parents(entry)) is Some
        },
{
    let none = Seq::<ConflictModel>::empty();
    let decided = rows::decision_conflicts(ctx, entry, none);
    merging::lemma_entry_conflicts_grow(ctx, entry, none);
    if rows::delete_modify(ctx, entry) {
        assert(decided.len() == 1);
    } else if rows::decision(ctx, entry) is Merge {
        let classed = rows::text_conflicts(
            ctx,
            entry,
            "ClassName"@,
            rows::classes_of(ctx, entry),
            decided,
        );
        let named = rows::text_conflicts(ctx, entry, "Name"@, rows::names_of(ctx, entry), classed);
        merging::lemma_row_conflicts_grow(
            ctx,
            entry,
            properties::row_keys(ctx, entry),
            rows::parent_conflicts(ctx, entry, named),
        );
    }
}

// ---------------------------------------------------------------------------
// Rows that survive
// ---------------------------------------------------------------------------

/// An instance that is not a root has a parent, whose row is that of an instance of
/// the same file.
proof fn lemma_parent_row(ctx: Ctx, r: int, side: Side)
    requires
        ctx.wf(),
        0 < r < ctx.rows.entries.len(),
        ctx.nodes(ctx.rows.entries[r]).of(side) is Some,
    ensures
        ({
            let p = ctx.parents(ctx.rows.entries[r]).of(side);
            &&& p is Some
            &&& p->0 < ctx.rows.entries.len()
            &&& ctx.nodes(ctx.rows.entries[p->0 as int]).of(side) is Some
            &&& rows::child_rows(
                ctx,
                ctx.nodes(ctx.rows.entries[p->0 as int]).of(side)->0,
                three_way::source_of_side(side),
            ).contains(Some(r as usize))
        }),
{
    let entry = ctx.rows.entries[r];
    context::lemma_entry_wf(ctx, r);
    let (d, source, i) = match side {
        Side::Base => (ctx.base, ValueSource::Base, entry.base->0),
        Side::Ours => (ctx.ours, ValueSource::Ours, entry.ours->0),
        Side::Theirs => (ctx.theirs, ValueSource::Theirs, entry.theirs->0),
    };
    assert(ctx.rows.entries[0] == MergeEntry { base: Some(0), ours: Some(0), theirs: Some(0) });
    assert(identity::row_of(ctx.rows, source, i) == Some(r as usize));
    assert(i > 0);
    matching::lemma_is_child(d, i as int);
    let p = d[i as int].parent->0;
    let q = identity::row_of(ctx.rows, source, p)->0;
    let k = d[p as int].children.index_of(i);
    let list = rows::child_rows(ctx, d[p as int], source);
    assert(list[k] == Some(r as usize));
    match side {
        Side::Base => {
            assert(ctx.rows.entries[p as int].base == Some(p));
        },
        Side::Ours => {
            assert(ctx.rows.entries[ctx.rows.ours_rows[p as int] as int].ours == Some(p));
        },
        Side::Theirs => {
            assert(ctx.rows.entries[ctx.rows.theirs_rows[p as int] as int].theirs == Some(p));
        },
    }
}

/// A child of an instance of the base has it as its parent.
proof fn lemma_base_child(ctx: Ctx, p: int, r: int)
    requires
        ctx.wf(),
        0 <= p < ctx.base.len(),
        0 <= r < ctx.rows.entries.len(),
        rows::child_rows(ctx, ctx.base[p], ValueSource::Base).contains(Some(r as usize)),
    ensures
        ctx.parents(ctx.rows.entries[r]).base == Some(p as usize),
{
    let list = rows::child_rows(ctx, ctx.base[p], ValueSource::Base);
    let k = list.index_of(Some(r as usize));
    matching::lemma_children(ctx.base, p);
    let c = ctx.base[p].children[k];
    assert(list[k] == identity::row_of(ctx.rows, ValueSource::Base, c));
    assert(c == r);
    assert(ctx.rows.entries[r].base == Some(r as usize));
}

/// Without conflicts and without decisions, the parent of a surviving row survives.
proof fn lemma_parent_survives(ctx: Ctx, g: GraphModel, r: int)
    requires
        ctx.wf(),
        resolve::undecided(ctx.resolutions),
        merging::is_merged_graph(ctx, g),
        graph::rows_conflicts(ctx, g.len() as int, Seq::empty()).len() == 0,
        0 < r < g.len(),
        g[r] is Some,
    ensures
        g[r]->0.parent is Some,
        g[r]->0.parent->0 < g.len(),
        g[g[r]->0.parent->0 as int] is Some,
{
    let entry = ctx.rows.entries[r];
    context::lemma_entry_wf(ctx, r);
    lemma_row_clean(ctx, g.len() as int, r);
    lemma_entry_clean(ctx, entry);
    assert(rows::decision(ctx, entry) is Merge);
    let nodes = ctx.nodes(entry);
    if nodes.base is Some {
        lemma_parent_row(ctx, r, Side::Base);
    }
    if nodes.ours is Some {
        lemma_parent_row(ctx, r, Side::Ours);
    }
    if nodes.theirs is Some {
        lemma_parent_row(ctx, r, Side::Theirs);
    }
    let parents = ctx.parents(entry);
    let side = three_way::three_way_of(parents)->0;
    let p = parents.of(side)->0;
    assert(g[r]->0.parent == Some(p));
    let above = ctx.rows.entries[p as int];
    context::lemma_entry_wf(ctx, p as int);
    lemma_row_clean(ctx, g.len() as int, p as int);
    lemma_entry_clean(ctx, above);
    if g[p as int] is None {
        assert(rows::decision(ctx, above) is Drop);
        assert(above.base == Some(p));
        match side {
            Side::Base => {},
            Side::Ours => {
                assert(!rows::changed(
                    ctx,
                    ctx.base[p as int],
                    ctx.ours[above.ours->0 as int],
                    ValueSource::Ours,
                ));
                lemma_base_child(ctx, p as int, r);
            },
            Side::Theirs => {
                assert(!rows::changed(
                    ctx,
                    ctx.base[p as int],
                    ctx.theirs[above.theirs->0 as int],
                    ValueSource::Theirs,
                ));
                lemma_base_child(ctx, p as int, r);
            },
        }
    }
}

/// Every row of a set leads up to a row.
spec fn all_below(g: GraphModel, seen: Set<usize>, r: usize) -> bool {
    forall|x: usize| #[trigger]
        seen.contains(x) ==> x < g.len() && exists|k: nat|
            k >= 1 && #[trigger] cycles::above(g, x, k) == Some(r)
}

/// A row all of whose ancestors survive is reached, if there are no loops.
proof fn lemma_reached(g: GraphModel, seen: Set<usize>, r: usize)
    requires
        g.len() <= usize::MAX,
        r < g.len(),
        g[r as int] is Some,
        seen.finite(),
        all_below(g, seen, r),
        forall|x: usize| x < g.len() ==> !(#[trigger] cycles::on_cycle(g, x)),
        forall|x: int|
            0 < x < g.len() && (#[trigger] g[x]) is Some ==> g[x]->0.parent is Some
                && g[x]->0.parent->0 < g.len() && g[g[x]->0.parent->0 as int] is Some,
    ensures
        tree::reached(g, r),
    decreases g.len() - seen.len(),
{
    if r == 0 {
        assert(tree::reaches_root(g, r, 0));
    } else {
        assert(g[r as int] is Some);
        let p = g[r as int]->0.parent->0;
        if seen.contains(r) {
            let k = choose|k: nat| k >= 1 && #[trigger] cycles::above(g, r, k) == Some(r);
            assert(cycles::on_cycle(g, r));
        }
        let more = seen.insert(r);
        assert(all_below(g, more, p)) by {
            assert forall|x: usize| #[trigger] more.contains(x) implies x < g.len() && exists|k: nat|
                k >= 1 && #[trigger] cycles::above(g, x, k) == Some(p) by {
                if x == r {
                    assert(cycles::above(g, x, 0) == Some(r));
                    assert(cycles::above(g, x, 1) == Some(p));
                } else {
                    assert(seen.contains(x));
                    let k = choose|k: nat| k >= 1 && #[trigger] cycles::above(g, x, k) == Some(r);
                    assert(cycles::above(g, x, (k + 1) as nat) == Some(p));
                }
            }
        }
        cycles::lemma_few_rows(more, g.len());
        lemma_reached(g, more, p);
        let steps = choose|steps: nat| #[trigger] tree::reaches_root(g, p, steps);
        assert(tree::reaches_root(g, r, (steps + 1) as nat));
    }
}

/// Where nothing is decided, loops are left as they are.
pub proof fn lemma_undecided_parents(ctx: Ctx, g: GraphModel)
    requires
        resolve::undecided(ctx.resolutions),
    ensures
        cycles::repointed(ctx, g) == g,
{
    cycles::lemma_repointed_unchanged(ctx, g);
}

/// A merge without conflicts, in which nothing had to be decided, loses no instance:
/// every addition and every instance that both sides kept survives, and the root of
/// the merged tree leads to every instance that survives.
pub proof fn law_clean_merge_keeps_instances(ctx: Ctx, g: GraphModel, r: int)
    requires
        ctx.wf(),
        resolve::undecided(ctx.resolutions),
        merging::is_merged_graph(ctx, g),
        merging::merge_conflicts(ctx, g).len() == 0,
        0 <= r < g.len(),
    ensures
        ({
            let entry = ctx.rows.entries[r];
            entry.base is None || (entry.ours is Some && entry.theirs is Some)
                ==> merging::finished(ctx, g)[r] is Some
        }),
        merging::finished(ctx, g)[r] is Some ==> tree::reached(
            merging::finished(ctx, g),
            r as usize,
        ),
{
    let f = merging::finished(ctx, g);
    let entry = ctx.rows.entries[r];
    let n = g.len() as int;
    merging::lemma_passes_wf(ctx, g);
    merging::lemma_settled_clean(ctx, g);
    merging::lemma_same_rows_survive(ctx, g, r);
    lemma_row_clean(ctx, n, r);
    lemma_entry_clean(ctx, entry);
    lemma_undecided_parents(ctx, g);
    if f[r] is Some {
        assert forall|x: int| 0 < x < f.len() && (#[trigger] f[x]) is Some implies f[x]->0.parent
            is Some && f[x]->0.parent->0 < f.len() && f[f[x]->0.parent->0 as int] is Some by {
            merging::lemma_same_rows_survive(ctx, g, x);
            lemma_parent_survives(ctx, g, x);
            merging::lemma_same_rows_survive(ctx, g, g[x]->0.parent->0 as int);
        }
        assert forall|x: usize| x < f.len() implies !(#[trigger] cycles::on_cycle(f, x)) by {
            law_clean_merge_has_no_loop(ctx, g, x);
        }
        lemma_reached(f, Set::empty(), r as usize);
    }
}

/// Instances that both sides kept, and additions, stand in the tree that is built.
pub proof fn law_built_tree_keeps_instances(
    ctx: Ctx,
    g: GraphModel,
    outcome: merging::OutcomeModel,
    r: int,
)
    requires
        ctx.wf(),
        resolve::undecided(ctx.resolutions),
        merging::is_merged_graph(ctx, g),
        merging::outcome_of(ctx, g, outcome),
        outcome is Merged,
        0 <= r < g.len(),
        ctx.rows.entries[r].base is None || (ctx.rows.entries[r].ours is Some
            && ctx.rows.entries[r].theirs is Some),
    ensures
        ({
            let node = merging::finished(ctx, g)[r]->0;
            let raw = outcome->Merged_0.instances[node.referent];
            &&& outcome->Merged_0.instances.contains_key(node.referent)
            &&& raw.class == node.class
            &&& raw.name == node.name
        }),
{
    law_clean_merge_keeps_instances(ctx, g, r);
    let f = merging::finished(ctx, g);
    assert(tree::reached(f, r as usize));
    assert(tree::row_built(
        tree::final_refs(ctx, f, g.len() as int),
        f,
        r as usize,
        outcome->Merged_0,
    ));
}

// ---------------------------------------------------------------------------
// References
// ---------------------------------------------------------------------------

/// Which rows did not survive depends on nothing but that.
proof fn lemma_same_dropped(ctx: Ctx, a: GraphModel, b: GraphModel, n: int)
    requires
        0 <= n <= a.len(),
        a.len() == b.len(),
        forall|r: int| 0 <= r < n ==> ((#[trigger] a[r]) is Some <==> b[r] is Some),
    ensures
        references::dropped(ctx, a, n) == references::dropped(ctx, b, n),
    decreases n,
{
    if n > 0 {
        lemma_same_dropped(ctx, a, b, n - 1);
        assert(a[n - 1] is Some <==> b[n - 1] is Some);
    }
}

/// The referents of a row that did not survive are noted down.
pub proof fn lemma_noted(ctx: Ctx, g: GraphModel, n: int, r: int, side: Side)
    requires
        0 <= r < n,
        g[r] is None,
        ctx.nodes(ctx.rows.entries[r]).of(side) is Some,
    ensures
        references::dropped(ctx, g, n).contains_key(
            ctx.nodes(ctx.rows.entries[r]).of(side)->0.source_ref,
        ),
    decreases n,
{
    if r < n - 1 {
        lemma_noted(ctx, g, n - 1, r, side);
    }
}

/// In a merge without conflicts no property refers to a row that did not survive.
pub proof fn law_clean_merge_has_no_dangling_reference(ctx: Ctx, g: GraphModel, r: int, i: int)
    requires
        ctx.wf(),
        merging::is_merged_graph(ctx, g),
        merging::merge_conflicts(ctx, g).len() == 0,
        0 <= r < g.len(),
        merging::finished(ctx, g)[r] is Some,
        0 <= i < merging::finished(ctx, g)[r]->0.properties.len(),
    ensures
        !references::dangles(
            references::dropped(ctx, merging::finished(ctx, g), g.len() as int),
            merging::finished(ctx, g)[r]->0.properties[i].1.value,
        ),
{
    let n = g.len() as int;
    let parted = cycles::repointed(ctx, g);
    let cleared = collisions::cleared(ctx.resolutions, parted);
    let m = references::dropped(ctx, cleared, n);
    let s = merging::settled(ctx, g);
    let placed = child_order::ordered(ctx, s);
    let f = merging::finished(ctx, g);
    let entry = f[r]->0.properties[i];
    merging::lemma_settled_clean(ctx, g);
    merging::lemma_ref_conflicts_grow(ctx, cleared, m, n, Seq::empty());
    assert(placed[r]->0.properties.contains(entry)) by {
        if f[r] != placed[r] {
            lists::lemma_filter_mem(
                placed[r]->0.properties,
                graph::has_other_name(dom::unique_id_key()),
                entry,
            );
            assert(f[r]->0.properties.contains(entry));
        } else {
            assert(placed[r]->0.properties[i] == entry);
        }
    }
    assert(s[r]->0.properties.contains(entry));
    let list = cleared[r]->0.properties;
    let keep = references::kept_properties(ctx, cleared, m, r);
    graph_wf::lemma_retained(list, keep);
    let k = s[r]->0.properties.index_of(entry);
    assert(graph_wf::is_kept(list, keep, s[r]->0.properties[k]));
    let j = choose|j: int| 0 <= j < list.len() && keep[j] && #[trigger] list[j] == entry;
    assert(cleared[r]->0.properties[j] == entry);
    assert(!references::dangles(m, entry.1.value));
    assert forall|x: int| 0 <= x < n implies ((#[trigger] cleared[x]) is Some <==> f[x] is Some) by {
        merging::lemma_same_rows_survive(ctx, g, x);
    }
    lemma_same_dropped(ctx, cleared, f, n);
}

/// The referents that the instances of a side have in the merged tree.
pub open spec fn map_of(maps: tree::RefMaps, side: Side) -> Map<u128, u128> {
    match side {
        Side::Base => maps.base,
        Side::Ours => maps.ours,
        Side::Theirs => maps.theirs,
    }
}

/// Two rows do not have the same referent on a side.
proof fn lemma_refs_differ(ctx: Ctx, r: int, s: int, side: Side)
    requires
        ctx.wf(),
        0 <= r < ctx.rows.entries.len(),
        0 <= s < ctx.rows.entries.len(),
        ctx.nodes(ctx.rows.entries[r]).of(side) is Some,
        ctx.nodes(ctx.rows.entries[s]).of(side) is Some,
        ctx.nodes(ctx.rows.entries[r]).of(side)->0.source_ref == ctx.nodes(
            ctx.rows.entries[s],
        ).of(side)->0.source_ref,
    ensures
        r == s,
{
    let a = ctx.rows.entries[r];
    let b = ctx.rows.entries[s];
    context::lemma_entry_wf(ctx, r);
    context::lemma_entry_wf(ctx, s);
    match side {
        Side::Base => {
            let (i, j) = (a.base->0 as int, b.base->0 as int);
            assert(ctx.base[i].source_ref == ctx.base[j].source_ref);
        },
        Side::Ours => {
            let (i, j) = (a.ours->0 as int, b.ours->0 as int);
            assert(ctx.ours[i].source_ref == ctx.ours[j].source_ref);
            assert(ctx.rows.ours_rows[i] == r && ctx.rows.ours_rows[j] == s);
        },
        Side::Theirs => {
            let (i, j) = (a.theirs->0 as int, b.theirs->0 as int);
            assert(ctx.theirs[i].source_ref == ctx.theirs[j].source_ref);
            assert(ctx.rows.theirs_rows[i] == r && ctx.rows.theirs_rows[j] == s);
        },
    }
}

/// The referent of a surviving row is noted down under each of its referents.
pub proof fn lemma_final_refs(ctx: Ctx, g: GraphModel, n: int, r: int, side: Side)
    requires
        ctx.wf(),
        0 <= r < n <= ctx.rows.entries.len(),
        g[r] is Some,
        ctx.nodes(ctx.rows.entries[r]).of(side) is Some,
    ensures
        ({
            let referent = ctx.nodes(ctx.rows.entries[r]).of(side)->0.source_ref;
            let map = map_of(tree::final_refs(ctx, g, n), side);
            map.contains_key(referent) && map[referent] == g[r]->0.referent
        }),
    decreases n,
{
    if r < n - 1 {
        lemma_final_refs(ctx, g, n - 1, r, side);
        if g[n - 1] is Some && ctx.nodes(ctx.rows.entries[n - 1]).of(side) is Some {
            if ctx.nodes(ctx.rows.entries[r]).of(side)->0.source_ref == ctx.nodes(
                ctx.rows.entries[n - 1],
            ).of(side)->0.source_ref {
                lemma_refs_differ(ctx, r, n - 1, side);
            }
        }
    }
}

/// The row of a referent has the instance that the referent leads to.
pub proof fn lemma_target_row(ctx: Ctx, side: Side, t: u128)
    requires
        ctx.wf(),
        ctx.target(three_way::source_of_side(side), t) is Some,
    ensures
        ({
            let x = ctx.target(three_way::source_of_side(side), t)->0;
            &&& t != 0
            &&& x < ctx.rows.entries.len()
            &&& ctx.nodes(ctx.rows.entries[x as int]).of(side) is Some
            &&& ctx.nodes(ctx.rows.entries[x as int]).of(side)->0.source_ref == t
        }),
{
    let d = ctx.file(three_way::source_of_side(side))->0;
    semantic::lemma_node_of_ref_some(d, t);
    let i = semantic::node_of_ref(d, t)->0 as int;
    match side {
        Side::Base => {
            assert(ctx.rows.entries[i].base == Some(i as usize));
        },
        Side::Ours => {
            assert(ctx.rows.entries[ctx.rows.ours_rows[i] as int].ours == Some(i as usize));
        },
        Side::Theirs => {
            assert(ctx.rows.entries[ctx.rows.theirs_rows[i] as int].theirs == Some(i as usize));
        },
    }
}

/// In a merge without conflicts every reference that led to an instance of the file
/// that it is taken from is written as the referent of that instance in the merged
/// file; where nothing had to be decided, that instance stands in the merged tree.
pub proof fn law_clean_references_lead_to_instances(
    ctx: Ctx,
    g: GraphModel,
    r: int,
    i: int,
    side: Side,
    k: int,
)
    requires
        ctx.wf(),
        merging::is_merged_graph(ctx, g),
        merging::merge_conflicts(ctx, g).len() == 0,
        0 <= r < g.len(),
        merging::finished(ctx, g)[r] is Some,
        0 <= i < merging::finished(ctx, g)[r]->0.properties.len(),
        merging::finished(ctx, g)[r]->0.properties[i].1.source == three_way::source_of_side(side),
        0 <= k < references::ref_targets(
            merging::finished(ctx, g)[r]->0.properties[i].1.value,
        ).len(),
        ctx.target(
            three_way::source_of_side(side),
            references::ref_targets(merging::finished(ctx, g)[r]->0.properties[i].1.value)[k],
        ) is Some,
    ensures
        ({
            let f = merging::finished(ctx, g);
            let source = three_way::source_of_side(side);
            let t = references::ref_targets(f[r]->0.properties[i].1.value)[k];
            let x = ctx.target(source, t)->0;
            &&& x < f.len()
            &&& f[x as int] is Some
            &&& tree::rewritten_ref(tree::final_refs(ctx, f, g.len() as int), source, t)
                == f[x as int]->0.referent
            &&& resolve::undecided(ctx.resolutions) ==> tree::reached(f, x)
        }),
{
    let f = merging::finished(ctx, g);
    let n = g.len() as int;
    let source = three_way::source_of_side(side);
    let v = f[r]->0.properties[i].1.value;
    let t = references::ref_targets(v)[k];
    let x = ctx.target(source, t)->0;
    law_clean_merge_has_no_dangling_reference(ctx, g, r, i);
    lemma_target_row(ctx, side, t);
    merging::lemma_same_rows_survive(ctx, g, x as int);
    if f[x as int] is None {
        lemma_noted(ctx, f, n, x as int, side);
        assert(references::dangles(references::dropped(ctx, f, n), v));
    }
    lemma_final_refs(ctx, f, n, x as int, side);
    if resolve::undecided(ctx.resolutions) {
        law_clean_merge_keeps_instances(ctx, g, x as int);
    }
}

// ---------------------------------------------------------------------------
// One side for every conflict
// ---------------------------------------------------------------------------

/// Every conflict is decided for one side.
pub open spec fn takes(r: ResolutionsModel, side: Side) -> bool {
    &&& r.default == Some(side)
    &&& forall|key: resolve::OverrideKey| !(#[trigger] r.overrides.contains_key(key))
}

proof fn lemma_taken_properties(ctx: Ctx, entry: MergeEntry, keys: Seq<Text>, side: Side)
    requires
        takes(ctx.resolutions, side),
    ensures
        properties::row_conflicts(ctx, entry, keys, Seq::empty()) == Seq::<ConflictModel>::empty(),
    decreases keys.len(),
{
    if keys.len() > 0 {
        lemma_taken_properties(ctx, entry, keys.drop_last(), side);
    }
}

/// A row has no conflict where one of the two sides is taken.
proof fn lemma_taken_row(ctx: Ctx, entry: MergeEntry, side: Side)
    requires
        context::entry_wf(ctx, entry),
        takes(ctx.resolutions, side),
        side != Side::Base,
    ensures
        graph::entry_conflicts(ctx, entry, Seq::empty()) == Seq::<ConflictModel>::empty(),
{
    lemma_taken_properties(ctx, entry, properties::row_keys(ctx, entry), side);
}

proof fn lemma_taken_rows(ctx: Ctx, n: int, side: Side)
    requires
        ctx.wf(),
        0 <= n <= ctx.rows.entries.len(),
        takes(ctx.resolutions, side),
        side != Side::Base,
    ensures
        graph::rows_conflicts(ctx, n, Seq::empty()) == Seq::<ConflictModel>::empty(),
    decreases n,
{
    if n > 0 {
        lemma_taken_rows(ctx, n - 1, side);
        context::lemma_entry_wf(ctx, n - 1);
        lemma_taken_row(ctx, ctx.rows.entries[n - 1], side);
    }
}

proof fn lemma_taken_collisions(r: ResolutionsModel, g: GraphModel, n: int, side: Side)
    requires
        takes(r, side),
    ensures
        collisions::collision_conflicts(r, g, n, Seq::empty()) == Seq::<ConflictModel>::empty(),
    decreases n,
{
    if n > 0 {
        lemma_taken_collisions(r, g, n - 1, side);
    }
}

proof fn lemma_taken_row_refs(
    ctx: Ctx,
    g: GraphModel,
    m: Map<u128, usize>,
    r: int,
    n: int,
    side: Side,
)
    requires
        takes(ctx.resolutions, side),
    ensures
        references::row_ref_conflicts(ctx, g, m, r, n, Seq::empty())
            == Seq::<ConflictModel>::empty(),
    decreases n,
{
    if n > 0 {
        lemma_taken_row_refs(ctx, g, m, r, n - 1, side);
    }
}

proof fn lemma_taken_refs(ctx: Ctx, g: GraphModel, m: Map<u128, usize>, n: int, side: Side)
    requires
        takes(ctx.resolutions, side),
    ensures
        references::ref_conflicts(ctx, g, m, n, Seq::empty()) == Seq::<ConflictModel>::empty(),
    decreases n,
{
    if n > 0 {
        lemma_taken_refs(ctx, g, m, n - 1, side);
        if g[n - 1] is Some {
            lemma_taken_row_refs(ctx, g, m, n - 1, g[n - 1]->0.properties.len() as int, side);
        }
    }
}

proof fn lemma_taken_order(ctx: Ctx, g: GraphModel, n: int, side: Side)
    requires
        takes(ctx.resolutions, side),
    ensures
        child_order::order_conflicts(ctx, g, n, Seq::empty()) == Seq::<ConflictModel>::empty(),
    decreases n,
{
    if n > 0 {
        lemma_taken_order(ctx, g, n - 1, side);
    }
}

pub proof fn lemma_taken_cycles(ctx: Ctx, g: GraphModel, n: int)
    requires
        0 <= n,
        forall|r: int|
            0 <= r < n ==> !(#[trigger] cycles::is_member(cycles::repointed(ctx, g), r)),
    ensures
        cycles::cycle_conflicts(ctx, g, n, Seq::empty()) == Seq::<ConflictModel>::empty(),
    decreases n,
{
    if n > 0 {
        lemma_taken_cycles(ctx, g, n - 1);
        assert(!cycles::is_member(cycles::repointed(ctx, g), n - 1));
    }
}

/// Where loops are decided for one side, a row on a loop has its parent of that side.
proof fn lemma_taken_parent(ctx: Ctx, h: GraphModel, side: Side, r: usize, m: nat, i: nat)
    requires
        ctx.wf(),
        h.len() == ctx.rows.entries.len(),
        rooted(h),
        takes(ctx.resolutions, side),
        cycles::repointed_once(ctx, h) == h,
        m >= 1,
        cycles::above(h, r, m) == Some(r),
        i <= m,
    ensures
        cycles::above(h, r, i) is Some,
        ({
            let x = cycles::above(h, r, i)->0;
            &&& x < h.len()
            &&& cycles::up(h, x) is Some
            &&& cycles::up(h, x) == ctx.parents(ctx.rows.entries[x as int]).of(side)
            &&& ctx.nodes(ctx.rows.entries[x as int]).of(side) is Some
        }),
{
    if cycles::above(h, r, i) is None {
        lemma_above_stays_ended(h, r, i, m);
    }
    let x = cycles::above(h, r, i)->0;
    lemma_above_goes_on(h, r, i, x, m);
    lemma_above_goes_on(h, r, m, r, i);
    assert(i + m == m + i);
    assert(cycles::above(h, x, m) == Some(x));
    assert(cycles::on_cycle(h, x));
    assert(cycles::above(h, x, 0) == Some(x));
    if cycles::above(h, x, 1) is None {
        lemma_above_stays_ended(h, x, 1, m);
    }
    assert(cycles::is_member(h, x as int));
    assert(cycles::repointed_once(ctx, h)[x as int] == cycles::repointed_row(ctx, h, x as int));
    context::lemma_entry_wf(ctx, x as int);
}

/// Once the way up ends, it has ended.
proof fn lemma_above_stays_ended(g: GraphModel, start: usize, i: nat, k: nat)
    requires
        cycles::above(g, start, i) is None,
        i <= k,
    ensures
        cycles::above(g, start, k) is None,
    decreases k,
{
    if i < k {
        lemma_above_stays_ended(g, start, i, (k - 1) as nat);
    }
}

/// Where loops are decided for one side, every step on the way round a loop would
/// lead to an instance that stands before the last in the file of that side.
proof fn lemma_taken_loop(ctx: Ctx, h: GraphModel, side: Side, r: usize, m: nat, i: nat)
    requires
        ctx.wf(),
        h.len() == ctx.rows.entries.len(),
        rooted(h),
        takes(ctx.resolutions, side),
        cycles::repointed_once(ctx, h) == h,
        m >= 1,
        cycles::above(h, r, m) == Some(r),
        i <= m,
    ensures
        cycles::above(h, r, i) is Some,
        agreement_laws::place(ctx, side, cycles::above(h, r, i)->0 as int) + i
            <= agreement_laws::place(ctx, side, r as int),
    decreases i,
{
    if i > 0 {
        let j = (i - 1) as nat;
        lemma_taken_loop(ctx, h, side, r, m, j);
        lemma_taken_parent(ctx, h, side, r, m, j);
        lemma_taken_parent(ctx, h, side, r, m, i);
        let y = cycles::above(h, r, j)->0;
        agreement_laws::lemma_parent_before(ctx, y as int, side);
        assert(cycles::above(h, r, i) == cycles::up(h, y));
    }
}

/// Taking ours for every conflict, or theirs, leaves no conflict.
pub proof fn law_taking_a_side_is_clean(ctx: Ctx, g: GraphModel, side: Side)
    requires
        ctx.wf(),
        merging::is_merged_graph(ctx, g),
        takes(ctx.resolutions, side),
        side != Side::Base,
    ensures
        merging::merge_conflicts(ctx, g).len() == 0,
{
    let n = g.len() as int;
    let parted = cycles::repointed(ctx, g);
    let cleared = collisions::cleared(ctx.resolutions, parted);
    let s = merging::settled(ctx, g);
    lemma_taken_rows(ctx, n, side);
    merging::lemma_passes_wf(ctx, g);
    cycles::lemma_repointed_stable(ctx, g);
    assert(rooted(parted)) by {
        assert(parted[0] is Some ==> parted[0]->0.parent is None);
    }
    assert forall|r: int| 0 <= r < n implies !(#[trigger] cycles::is_member(parted, r)) by {
        if cycles::is_member(parted, r) {
            let m = choose|m: nat|
                m >= 1 && #[trigger] cycles::above(parted, r as usize, m) == Some(r as usize);
            lemma_taken_loop(ctx, parted, side, r as usize, m, m);
        }
    }
    lemma_taken_cycles(ctx, g, n);
    lemma_taken_collisions(ctx.resolutions, parted, n, side);
    lemma_taken_refs(ctx, cleared, references::dropped(ctx, cleared, n), n, side);
    lemma_taken_order(ctx, s, n, side);
    lemma_taken_collisions(ctx.resolutions, child_order::ordered(ctx, s), n, side);
}

} // verus!
