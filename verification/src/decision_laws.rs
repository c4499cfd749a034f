//! Decisions on conflicts change nothing where there is no conflict.

use vstd::prelude::*;

use crate::agreement_laws;
use crate::child_order;
use crate::clean_laws;
use crate::collisions;
use crate::conflict::ConflictModel;
use crate::context::Ctx;
use crate::cycles;
use crate::graph;
use crate::graph::GraphModel;
use crate::identity::MergeEntry;
use crate::merging;
use crate::properties;
use crate::references;
use crate::resolve;
use crate::resolve::ResolutionsModel;
use crate::rows;
use crate::semantic::{InstanceModel, ValueSource};
use crate::text::Text;
use crate::value::ValueModel;

verus! {

/// The same files and rows with other decisions.
pub open spec fn with_decisions(ctx: Ctx, resolutions: ResolutionsModel) -> Ctx {
    Ctx { resolutions, ..ctx }
}

/// Values are compared without regard to decisions.
proof fn lemma_values(ctx: Ctx, decided: Ctx, key: Text, values: properties::Values)
    requires
        decided == with_decisions(ctx, decided.resolutions),
    ensures
        properties::merged_value(decided, key, values) == properties::merged_value(
            ctx,
            key,
            values,
        ),
    decreases properties::size(values), 1int, 0int,
{
    if key == properties::attributes_key() && properties::attributes_apply(values) {
        lemma_attributes(ctx, decided, properties::all_attribute_keys(values), values);
    } else {
        lemma_options(
            ctx,
            decided,
            values.ours,
            ValueSource::Ours,
            values.base,
            ValueSource::Base,
        );
        lemma_options(
            ctx,
            decided,
            values.theirs,
            ValueSource::Theirs,
            values.base,
            ValueSource::Base,
        );
        lemma_options(
            ctx,
            decided,
            values.ours,
            ValueSource::Ours,
            values.theirs,
            ValueSource::Theirs,
        );
    }
}

proof fn lemma_attributes(
    ctx: Ctx,
    decided: Ctx,
    keys: Seq<Text>,
    values: properties::Values,
)
    requires
        decided == with_decisions(ctx, decided.resolutions),
    ensures
        properties::merged_attributes(decided, keys, values) == properties::merged_attributes(
            ctx,
            keys,
            values,
        ),
    decreases properties::size(values), 0int, keys.len(),
{
    if keys.len() > 0 && properties::size(values) > 0 {
        lemma_attributes(ctx, decided, keys.drop_last(), values);
        properties::lemma_nested_size(values, keys.last());
        lemma_values(
            ctx,
            decided,
            properties::attributes_key(),
            properties::nested(values, keys.last()),
        );
    }
}

proof fn lemma_options(
    ctx: Ctx,
    decided: Ctx,
    a: Option<ValueModel>,
    s: ValueSource,
    b: Option<ValueModel>,
    t: ValueSource,
)
    requires
        decided == with_decisions(ctx, decided.resolutions),
    ensures
        decided.option_equal(a, s, b, t) == ctx.option_equal(a, s, b, t),
{
    if let (Some(x), Some(y)) = (a, b) {
        lemma_equal(ctx, decided, x, s, y, t);
    }
}

proof fn lemma_equal(
    ctx: Ctx,
    decided: Ctx,
    a: ValueModel,
    s: ValueSource,
    b: ValueModel,
    t: ValueSource,
)
    requires
        decided == with_decisions(ctx, decided.resolutions),
    ensures
        decided.value_equal(a, s, b, t) == ctx.value_equal(a, s, b, t),
    decreases a,
{
    assert(decided.file(s) == ctx.file(s));
    assert(decided.file(t) == ctx.file(t));
    match (a, b) {
        (ValueModel::Attributes(x), ValueModel::Attributes(y)) => {
            assert forall|i: int| 0 <= i < x.len() implies decided.value_equal(
                (#[trigger] x[i]).1,
                s,
                y[i].1,
                t,
            ) == ctx.value_equal(x[i].1, s, y[i].1, t) by {
                lemma_equal(ctx, decided, x[i].1, s, y[i].1, t);
            }
        },
        _ => {},
    }
}

/// Changes are found without regard to decisions.
proof fn lemma_changed(
    ctx: Ctx,
    decided: Ctx,
    b: InstanceModel,
    a: InstanceModel,
    source: ValueSource,
)
    requires
        decided == with_decisions(ctx, decided.resolutions),
    ensures
        rows::changed(decided, b, a, source) == rows::changed(ctx, b, a, source),
{
    assert forall|key: Text| #[trigger]
        rows::property_differs(decided, b, a, source, key) == rows::property_differs(
            ctx,
            b,
            a,
            source,
            key,
        ) by {
        lemma_options(
            ctx,
            decided,
            crate::keyed::lookup(b.properties, key),
            ValueSource::Base,
            crate::keyed::lookup(a.properties, key),
            source,
        );
    }
    if exists|key: Text| #[trigger] rows::property_differs(ctx, b, a, source, key) {
        let key = choose|key: Text| #[trigger] rows::property_differs(ctx, b, a, source, key);
        assert(rows::property_differs(decided, b, a, source, key));
    }
    assert(rows::child_rows(decided, b, ValueSource::Base) == rows::child_rows(
        ctx,
        b,
        ValueSource::Base,
    ));
    assert(rows::child_rows(decided, a, source) == rows::child_rows(ctx, a, source));
}

/// A row whose properties have no conflict gets the same properties.
proof fn lemma_properties(ctx: Ctx, decided: Ctx, entry: MergeEntry, keys: Seq<Text>)
    requires
        decided == with_decisions(ctx, decided.resolutions),
        resolve::undecided(ctx.resolutions),
        properties::row_conflicts(ctx, entry, keys, Seq::empty()).len() == 0,
    ensures
        properties::row_properties(decided, entry, keys) == properties::row_properties(
            ctx,
            entry,
            keys,
        ),
        properties::row_conflicts(decided, entry, keys, Seq::empty())
            == Seq::<ConflictModel>::empty(),
    decreases keys.len(),
{
    if keys.len() > 0 {
        let key = keys.last();
        let values = properties::row_values(ctx, entry, key);
        assert(properties::row_values(decided, entry, key) == values);
        lemma_values(ctx, decided, key, values);
        merging::lemma_row_conflicts_grow(ctx, entry, keys.drop_last(), Seq::empty());
        lemma_properties(ctx, decided, entry, keys.drop_last());
        assert(!(properties::merged_value(ctx, key, values) is Conflict));
    }
}

/// A row without conflicts is the same whatever is decided.
proof fn lemma_row(ctx: Ctx, decided: Ctx, entry: MergeEntry)
    requires
        decided == with_decisions(ctx, decided.resolutions),
        resolve::undecided(ctx.resolutions),
        graph::entry_conflicts(ctx, entry, Seq::empty()).len() == 0,
    ensures
        graph::draft(decided, entry) == graph::draft(ctx, entry),
        graph::entry_conflicts(decided, entry, Seq::empty()) == Seq::<ConflictModel>::empty(),
{
    let none = Seq::<ConflictModel>::empty();
    clean_laws::lemma_entry_clean(ctx, entry);
    assert(decided.nodes(entry) == ctx.nodes(entry));
    assert(decided.parents(entry) == ctx.parents(entry));
    if let (Some(b), Some(t)) = (entry.base, entry.theirs) {
        lemma_changed(
            ctx,
            decided,
            ctx.base[b as int],
            ctx.theirs[t as int],
            ValueSource::Theirs,
        );
    }
    if let (Some(b), Some(o)) = (entry.base, entry.ours) {
        lemma_changed(ctx, decided, ctx.base[b as int], ctx.ours[o as int], ValueSource::Ours);
    }
    assert(rows::delete_modify(decided, entry) == rows::delete_modify(ctx, entry));
    if rows::decision(ctx, entry) is Merge {
        let keys = properties::row_keys(ctx, entry);
        assert(properties::row_keys(decided, entry) == keys);
        let classed = rows::text_conflicts(
            ctx,
            entry,
            "ClassName"@,
            rows::classes_of(ctx, entry),
            none,
        );
        let named = rows::text_conflicts(ctx, entry, "Name"@, rows::names_of(ctx, entry), classed);
        let placed = rows::parent_conflicts(ctx, entry, named);
        merging::lemma_row_conflicts_grow(ctx, entry, keys, placed);
        assert(placed =~= none);
        lemma_properties(ctx, decided, entry, keys);
    }
}

proof fn lemma_rows(ctx: Ctx, decided: Ctx, n: int)
    requires
        decided == with_decisions(ctx, decided.resolutions),
        resolve::undecided(ctx.resolutions),
        0 <= n,
        graph::rows_conflicts(ctx, n, Seq::empty()).len() == 0,
    ensures
        graph::rows_conflicts(decided, n, Seq::empty()) == Seq::<ConflictModel>::empty(),
        forall|r: int|
            0 <= r < n ==> graph::draft(decided, #[trigger] ctx.rows.entries[r]) == graph::draft(
                ctx,
                ctx.rows.entries[r],
            ),
    decreases n,
{
    if n > 0 {
        merging::lemma_rows_conflicts_grow(ctx, n - 1, n, Seq::empty());
        lemma_rows(ctx, decided, n - 1);
        clean_laws::lemma_row_clean(ctx, n, n - 1);
        lemma_row(ctx, decided, ctx.rows.entries[n - 1]);
    }
}

/// Where nothing is decided and nothing is in conflict, there is no loop, no
/// collision and no dangling reference.
pub proof fn lemma_nothing_to_decide(ctx: Ctx, g: GraphModel)
    requires
        ctx.wf(),
        resolve::undecided(ctx.resolutions),
        merging::is_merged_graph(ctx, g),
        merging::settling_conflicts(ctx, g).len() == 0,
    ensures
        cycles::repointed(ctx, g) == g,
        forall|r: int| 0 <= r < g.len() ==> !(#[trigger] cycles::is_member(g, r)),
        collisions::cleared(ctx.resolutions, g) == g,
        forall|r: int| 0 <= r < g.len() ==> (#[trigger] collisions::collides_with(g, r)) is None,
        forall|r: int, i: int|
            0 <= r < g.len() && g[r] is Some && 0 <= i < g[r]->0.properties.len()
                ==> !references::dangles(
                references::dropped(ctx, g, g.len() as int),
                (#[trigger] g[r]->0.properties[i]).1.value,
            ),
{
    let n = g.len() as int;
    merging::lemma_settled_clean(ctx, g);
    clean_laws::lemma_undecided_parents(ctx, g);
    assert forall|r: int| 0 <= r < g.len() implies !(#[trigger] cycles::is_member(g, r)) by {
        if cycles::is_member(g, r) {
            clean_laws::lemma_cycles_broken(ctx, g, n, r);
        }
    }
    assert(collisions::cleared(ctx.resolutions, g) =~= g);
    assert forall|r: int| 0 <= r < g.len() implies (#[trigger] collisions::collides_with(g, r)) is None by {
        if collisions::collides_with(g, r) is Some {
            clean_laws::lemma_collisions_decided(ctx.resolutions, g, n, r);
        }
    }
    merging::lemma_ref_conflicts_grow(
        ctx,
        g,
        references::dropped(ctx, g, n),
        n,
        Seq::empty(),
    );
}

pub proof fn lemma_no_collisions(resolutions: ResolutionsModel, g: GraphModel, n: int)
    requires
        0 <= n <= g.len(),
        forall|r: int| 0 <= r < g.len() ==> (#[trigger] collisions::collides_with(g, r)) is None,
    ensures
        collisions::cleared(resolutions, g) == g,
        collisions::collision_conflicts(resolutions, g, n, Seq::empty())
            == Seq::<ConflictModel>::empty(),
    decreases n,
{
    assert forall|r: int| 0 <= r < g.len() implies collisions::cleared_row(resolutions, g, r)
        == #[trigger] g[r] by {
        assert(collisions::collides_with(g, r) is None);
    }
    assert(collisions::cleared(resolutions, g) =~= g);
    if n > 0 {
        lemma_no_collisions(resolutions, g, n - 1);
        assert(collisions::collides_with(g, n - 1) is None);
    }
}

pub proof fn lemma_no_ref_conflicts(ctx: Ctx, g: GraphModel, n: int)
    requires
        0 <= n <= g.len(),
        forall|r: int, i: int|
            0 <= r < g.len() && g[r] is Some && 0 <= i < g[r]->0.properties.len()
                ==> !references::dangles(
                references::dropped(ctx, g, g.len() as int),
                (#[trigger] g[r]->0.properties[i]).1.value,
            ),
    ensures
        references::unlinked(ctx, g) == g,
        references::ref_conflicts(
            ctx,
            g,
            references::dropped(ctx, g, g.len() as int),
            n,
            Seq::empty(),
        ) == Seq::<ConflictModel>::empty(),
    decreases n,
{
    let m = references::dropped(ctx, g, g.len() as int);
    assert forall|r: int| 0 <= r < g.len() implies references::unlinked_row(ctx, g, m, r)
        == #[trigger] g[r] by {
        if g[r] is Some {
            agreement_laws::lemma_retained_all(
                g[r]->0.properties,
                references::kept_properties(ctx, g, m, r),
            );
        }
    }
    assert(references::unlinked(ctx, g) =~= g);
    if n > 0 {
        lemma_no_ref_conflicts(ctx, g, n - 1);
        if g[n - 1] is Some {
            lemma_no_row_ref_conflicts(ctx, g, n - 1, g[n - 1]->0.properties.len() as int);
        }
    }
}

proof fn lemma_no_row_ref_conflicts(ctx: Ctx, g: GraphModel, r: int, n: int)
    requires
        0 <= r < g.len(),
        g[r] is Some,
        0 <= n <= g[r]->0.properties.len(),
        forall|i: int|
            0 <= i < g[r]->0.properties.len() ==> !references::dangles(
                references::dropped(ctx, g, g.len() as int),
                (#[trigger] g[r]->0.properties[i]).1.value,
            ),
    ensures
        references::row_ref_conflicts(
            ctx,
            g,
            references::dropped(ctx, g, g.len() as int),
            r,
            n,
            Seq::empty(),
        ) == Seq::<ConflictModel>::empty(),
    decreases n,
{
    if n > 0 {
        let m = references::dropped(ctx, g, g.len() as int);
        lemma_no_row_ref_conflicts(ctx, g, r, n - 1);
        let (key, property) = g[r]->0.properties[n - 1];
        agreement_laws::lemma_no_target_conflict(
            ctx,
            g,
            m,
            r,
            key,
            property.value,
            references::ref_targets(property.value).len() as int,
        );
    }
}

proof fn lemma_dropped(ctx: Ctx, decided: Ctx, g: GraphModel, n: int)
    requires
        decided == with_decisions(ctx, decided.resolutions),
    ensures
        references::dropped(decided, g, n) == references::dropped(ctx, g, n),
    decreases n,
{
    if n > 0 {
        lemma_dropped(ctx, decided, g, n - 1);
        assert(decided.nodes(ctx.rows.entries[n - 1]) == ctx.nodes(ctx.rows.entries[n - 1]));
    }
}

proof fn lemma_child_rows(
    ctx: Ctx,
    decided: Ctx,
    g: GraphModel,
    source: ValueSource,
    children: Seq<usize>,
    parent: usize,
)
    requires
        decided == with_decisions(ctx, decided.resolutions),
    ensures
        child_order::child_rows(decided, g, source, children, parent) == child_order::child_rows(
            ctx,
            g,
            source,
            children,
            parent,
        ),
    decreases children.len(),
{
    if children.len() > 0 {
        lemma_child_rows(ctx, decided, g, source, children.drop_last(), parent);
    }
}

proof fn lemma_sequences(ctx: Ctx, decided: Ctx, g: GraphModel, r: int)
    requires
        decided == with_decisions(ctx, decided.resolutions),
    ensures
        child_order::row_sequences(decided, g, r) == child_order::row_sequences(ctx, g, r),
{
    let nodes = ctx.nodes(ctx.rows.entries[r]);
    let p = r as usize;
    assert(decided.nodes(ctx.rows.entries[r]) == nodes);
    if let Some(node) = nodes.base {
        lemma_child_rows(ctx, decided, g, ValueSource::Base, node.children, p);
    }
    if let Some(node) = nodes.ours {
        lemma_child_rows(ctx, decided, g, ValueSource::Ours, node.children, p);
    }
    if let Some(node) = nodes.theirs {
        lemma_child_rows(ctx, decided, g, ValueSource::Theirs, node.children, p);
    }
}

/// Where the order of the children is not in conflict, decisions do not matter.
proof fn lemma_order(ctx: Ctx, decided: Ctx, g: GraphModel, n: int)
    requires
        decided == with_decisions(ctx, decided.resolutions),
        resolve::undecided(ctx.resolutions),
        0 <= n,
        child_order::order_conflicts(ctx, g, n, Seq::empty()).len() == 0,
    ensures
        child_order::order_conflicts(decided, g, n, Seq::empty()) == Seq::<ConflictModel>::empty(),
        forall|r: int|
            0 <= r < n && (#[trigger] g[r]) is Some ==> child_order::row_children(decided, g, r)
                == child_order::row_children(ctx, g, r),
    decreases n,
{
    if n > 0 {
        merging::lemma_order_conflicts_grow(ctx, g, n - 1, Seq::empty());
        lemma_order(ctx, decided, g, n - 1);
        lemma_sequences(ctx, decided, g, n - 1);
        let before = child_order::order_conflicts(ctx, g, n - 1, Seq::empty());
        assert(child_order::row_order_conflicts(ctx, g, n - 1, before).len() == 0);
        assert(g[n - 1] is Some ==> child_order::merged_sequence(
            child_order::row_sequences(ctx, g, n - 1),
        ) is Some);
    }
}

/// The settled rows of a merge without conflicts are the merged rows, whatever is
/// decided.
proof fn lemma_settled(ctx: Ctx, decided: Ctx, g: GraphModel)
    requires
        ctx.wf(),
        decided == with_decisions(ctx, decided.resolutions),
        resolve::undecided(ctx.resolutions),
        merging::is_merged_graph(ctx, g),
        merging::settling_conflicts(ctx, g).len() == 0,
    ensures
        merging::settled(ctx, g) == g,
        merging::settled(decided, g) == g,
        merging::settling_conflicts(decided, g) == Seq::<ConflictModel>::empty(),
{
    let n = g.len() as int;
    merging::lemma_settled_clean(ctx, g);
    lemma_nothing_to_decide(ctx, g);
    lemma_rows(ctx, decided, n);
    cycles::lemma_repointed_unchanged(decided, g);
    clean_laws::lemma_taken_cycles(decided, g, n);
    lemma_no_collisions(decided.resolutions, g, n);
    lemma_dropped(ctx, decided, g, n);
    lemma_no_ref_conflicts(ctx, g, n);
    lemma_no_ref_conflicts(decided, g, n);
}

/// Decisions matter only for conflicts: a merge that has none without any decision
/// has none with decisions, and its rows are the same.
pub proof fn law_decisions_change_no_clean_merge(
    ctx: Ctx,
    g: GraphModel,
    resolutions: ResolutionsModel,
)
    requires
        ctx.wf(),
        resolve::undecided(ctx.resolutions),
        merging::is_merged_graph(ctx, g),
        merging::merge_conflicts(ctx, g).len() == 0,
    ensures
        merging::is_merged_graph(with_decisions(ctx, resolutions), g),
        merging::merge_conflicts(with_decisions(ctx, resolutions), g).len() == 0,
        merging::finished(with_decisions(ctx, resolutions), g) == merging::finished(ctx, g),
{
    let decided = with_decisions(ctx, resolutions);
    let n = g.len() as int;
    lemma_settled(ctx, decided, g);
    merging::lemma_settled_clean(ctx, g);
    merging::lemma_finished_clean(ctx, g);
    lemma_rows(ctx, decided, n);
    assert forall|r: int| 0 <= r < n implies graph::preferred_referent(
        decided,
        #[trigger] ctx.rows.entries[r],
    ) == graph::preferred_referent(ctx, ctx.rows.entries[r]) by {
        assert(decided.nodes(ctx.rows.entries[r]) == ctx.nodes(ctx.rows.entries[r]));
    }
    lemma_order(ctx, decided, g, n);
    let placed = child_order::ordered(ctx, g);
    assert(child_order::ordered(decided, g) =~= placed);
    assert forall|r: int| 0 <= r < placed.len() implies (#[trigger] collisions::collides_with(
        placed,
        r,
    )) is None by {
        if collisions::collides_with(placed, r) is Some {
            clean_laws::lemma_collisions_decided(ctx.resolutions, placed, n, r);
        }
    }
    lemma_no_collisions(ctx.resolutions, placed, n);
    lemma_no_collisions(resolutions, placed, n);
}

} // verus!
