//! Rows on which everything is agreed, and the merge of such rows.

use vstd::prelude::*;

use crate::agreement_laws;
use crate::child_order;
use crate::clean_laws;
use crate::collisions;
use crate::conflict::ConflictModel;
use crate::context::Ctx;
use crate::graph;
use crate::graph::GraphModel;
use crate::identity::MergeEntry;
use crate::keyed;
use crate::merging;
use crate::properties;
use crate::properties::PropertyOutcome;
use crate::resolve;
use crate::rows;
use crate::text::Text;
use crate::three_way;

verus! {

// ---------------------------------------------------------------------------
// Rows without conflicts
// ---------------------------------------------------------------------------

/// What becomes of a property of a row.
pub open spec fn property_outcome(ctx: Ctx, entry: MergeEntry, key: Text) -> PropertyOutcome {
    properties::merged_value(ctx, key, properties::row_values(ctx, entry, key))
}

/// Whether everything about a row is agreed on: no change of it met its deletion, and
/// where it is merged, its class, name, parent and properties are not in conflict.
pub open spec fn row_agrees(ctx: Ctx, entry: MergeEntry) -> bool {
    &&& !rows::delete_modify(ctx, entry)
    &&& rows::decision(ctx, entry) is Merge ==> {
        &&& rows::agreed(rows::classes_of(ctx, entry)) is Some
        &&& rows::agreed(rows::names_of(ctx, entry)) is Some
        &&& three_way::three_way_of(ctx.parents(entry)) is Some
        &&& forall|key: Text| !(#[trigger] property_outcome(ctx, entry, key) is Conflict)
    }
}

/// Properties that are not in conflict.
proof fn lemma_properties_agree(ctx: Ctx, entry: MergeEntry, keys: Seq<Text>)
    ensures
        (forall|i: int|
            0 <= i < keys.len() ==> !(property_outcome(ctx, entry, #[trigger] keys[i]) is Conflict))
            ==> properties::row_conflicts(ctx, entry, keys, Seq::empty()) == Seq::<
            ConflictModel,
        >::empty(),
        resolve::undecided(ctx.resolutions) && properties::row_conflicts(
            ctx,
            entry,
            keys,
            Seq::empty(),
        ).len() == 0 ==> forall|i: int|
            0 <= i < keys.len() ==> !(property_outcome(ctx, entry, #[trigger] keys[i]) is Conflict),
    decreases keys.len(),
{
    if keys.len() > 0 {
        let rest = keys.drop_last();
        merging::lemma_row_conflicts_grow(ctx, entry, rest, Seq::empty());
        lemma_properties_agree(ctx, entry, rest);
        assert(keys[keys.len() - 1] == keys.last());
        assert forall|i: int| 0 <= i < rest.len() implies #[trigger] rest[i] == keys[i] by {}
        if forall|i: int|
            0 <= i < keys.len() ==> !(property_outcome(ctx, entry, #[trigger] keys[i])
                is Conflict) {
            assert forall|i: int| 0 <= i < rest.len() implies !(property_outcome(
                ctx,
                entry,
                #[trigger] rest[i],
            ) is Conflict) by {
                assert(keys[i] == rest[i]);
            }
        }
        if resolve::undecided(ctx.resolutions) && properties::row_conflicts(
            ctx,
            entry,
            keys,
            Seq::empty(),
        ).len() == 0 {
            assert forall|i: int| 0 <= i < keys.len() implies !(property_outcome(
                ctx,
                entry,
                #[trigger] keys[i],
            ) is Conflict) by {
                if i < rest.len() {
                    assert(rest[i] == keys[i]);
                }
            }
        }
    }
}

/// A property that no side has is not in conflict.
proof fn lemma_all_properties(ctx: Ctx, entry: MergeEntry)
    ensures
        (forall|key: Text| !(#[trigger] property_outcome(ctx, entry, key) is Conflict)) <==> forall|
            i: int,
        |
            0 <= i < properties::row_keys(ctx, entry).len() ==> !(property_outcome(
                ctx,
                entry,
                #[trigger] properties::row_keys(ctx, entry)[i],
            ) is Conflict),
{
    let keys = properties::row_keys(ctx, entry);
    if forall|i: int|
        0 <= i < keys.len() ==> !(property_outcome(ctx, entry, #[trigger] keys[i]) is Conflict) {
        assert forall|key: Text| !(#[trigger] property_outcome(ctx, entry, key) is Conflict) by {
            if keys.contains(key) {
                assert(keys[keys.index_of(key)] == key);
            } else {
                agreement_laws::lemma_row_named(ctx, entry, key);
            }
        }
    }
}

/// A row has no conflicts if everything about it is agreed on; where nothing is
/// decided, only then.
pub proof fn lemma_row_agrees(ctx: Ctx, entry: MergeEntry)
    ensures
        row_agrees(ctx, entry) ==> graph::entry_conflicts(ctx, entry, Seq::empty()) == Seq::<
            ConflictModel,
        >::empty(),
        resolve::undecided(ctx.resolutions) && graph::entry_conflicts(
            ctx,
            entry,
            Seq::empty(),
        ).len() == 0 ==> row_agrees(ctx, entry),
{
    let none = Seq::<ConflictModel>::empty();
    let keys = properties::row_keys(ctx, entry);
    lemma_properties_agree(ctx, entry, keys);
    lemma_all_properties(ctx, entry);
    if resolve::undecided(ctx.resolutions) && graph::entry_conflicts(ctx, entry, none).len() == 0 {
        clean_laws::lemma_entry_clean(ctx, entry);
    }
    if !rows::delete_modify(ctx, entry) && rows::decision(ctx, entry) is Merge {
        let classed = rows::text_conflicts(
            ctx,
            entry,
            "ClassName"@,
            rows::classes_of(ctx, entry),
            none,
        );
        let named = rows::text_conflicts(ctx, entry, "Name"@, rows::names_of(ctx, entry), classed);
        let placed = rows::parent_conflicts(ctx, entry, named);
        merging::lemma_row_conflicts_grow(ctx, entry, keys, placed);
        if placed.len() == 0 {
            assert(placed =~= none);
        }
    }
}

// ---------------------------------------------------------------------------
// The merge of rows without conflicts
// ---------------------------------------------------------------------------

/// The fields of a row that is agreed on.
pub proof fn lemma_draft(ctx: Ctx, entry: MergeEntry)
    requires
        row_agrees(ctx, entry),
    ensures
        graph::draft(ctx, entry) is Some <==> rows::decision(ctx, entry) is Merge,
        graph::draft(ctx, entry) matches Some(draft) ==> {
            let parents = ctx.parents(entry);
            &&& Some(draft.class) == rows::agreed(rows::classes_of(ctx, entry))
            &&& Some(draft.name) == rows::agreed(rows::names_of(ctx, entry))
            &&& draft.parent == parents.of(three_way::three_way_of(parents)->0)
            &&& draft.properties == properties::row_properties(
                ctx,
                entry,
                properties::row_keys(ctx, entry),
            )
        },
{
}

/// What a row has under a name.
pub proof fn lemma_lookup(ctx: Ctx, g: GraphModel, r: int, key: Text)
    requires
        merging::is_merged_graph(ctx, g),
        0 <= r < g.len(),
        g[r] is Some,
        row_agrees(ctx, ctx.rows.entries[r]),
    ensures
        keyed::lookup(g[r]->0.properties, key) == (match property_outcome(
            ctx,
            ctx.rows.entries[r],
            key,
        ) {
            PropertyOutcome::Keep(p) => Some(p),
            _ => None,
        }),
{
    let entry = ctx.rows.entries[r];
    lemma_draft(ctx, entry);
    assert(graph::draft(ctx, entry) is Some);
    agreement_laws::lemma_lookup_row_property(
        ctx,
        entry,
        properties::row_keys(ctx, entry),
        key,
    );
    agreement_laws::lemma_row_named(ctx, entry, key);
    assert(!(property_outcome(ctx, entry, key) is Conflict));
}

pub proof fn lemma_no_row_conflicts(ctx: Ctx, n: int)
    requires
        0 <= n <= ctx.rows.entries.len(),
        forall|r: int| 0 <= r < n ==> row_agrees(ctx, #[trigger] ctx.rows.entries[r]),
    ensures
        graph::rows_conflicts(ctx, n, Seq::empty()) == Seq::<ConflictModel>::empty(),
    decreases n,
{
    if n > 0 {
        lemma_no_row_conflicts(ctx, n - 1);
        lemma_row_agrees(ctx, ctx.rows.entries[n - 1]);
    }
}

pub proof fn lemma_no_order_conflicts(ctx: Ctx, g: GraphModel, n: int)
    requires
        0 <= n <= g.len(),
        forall|r: int|
            0 <= r < n && (#[trigger] g[r]) is Some ==> child_order::merged_sequence(
                child_order::row_sequences(ctx, g, r),
            ) is Some,
    ensures
        child_order::order_conflicts(ctx, g, n, Seq::empty()) == Seq::<ConflictModel>::empty(),
    decreases n,
{
    if n > 0 {
        lemma_no_order_conflicts(ctx, g, n - 1);
        assert(g[n - 1] is Some ==> child_order::merged_sequence(
            child_order::row_sequences(ctx, g, n - 1),
        ) is Some);
    }
}

// ---------------------------------------------------------------------------
// Unique ids
// ---------------------------------------------------------------------------

/// Without collisions, different rows have different unique ids.
pub proof fn lemma_distinct_ids(g: GraphModel, r: int, s: int)
    requires
        forall|x: int| 0 <= x < g.len() ==> (#[trigger] collisions::collides_with(g, x)) is None,
        0 <= r < g.len(),
        0 <= s < g.len(),
        collisions::row_unique_id(g[r]) is Some,
        collisions::row_unique_id(g[r]) == collisions::row_unique_id(g[s]),
    ensures
        r == s,
{
    let id = collisions::row_unique_id(g[r])->0;
    if r < s {
        clean_laws::lemma_has_holder(g, id, r, s);
        assert(collisions::collides_with(g, s) is None);
    } else if s < r {
        clean_laws::lemma_has_holder(g, id, s, r);
        assert(collisions::collides_with(g, r) is None);
    }
}

/// A graph whose rows have no collisions has none once the children are in order.
pub proof fn lemma_ordered_ids(ctx: Ctx, h: GraphModel, s: int)
    requires
        0 <= s < h.len() <= usize::MAX,
        forall|x: int| 0 <= x < h.len() ==> (#[trigger] collisions::collides_with(h, x)) is None,
    ensures
        collisions::collides_with(child_order::ordered(ctx, h), s) is None,
{
    let placed = child_order::ordered(ctx, h);
    if collisions::collides_with(placed, s) is Some {
        let id = collisions::row_unique_id(placed[s])->0;
        agreement_laws::lemma_holder(placed, id, s);
        let t = collisions::collides_with(placed, s)->0 as int;
        assert(collisions::row_unique_id(h[s]) == Some(id));
        assert(collisions::row_unique_id(h[t]) == Some(id));
        lemma_distinct_ids(h, t, s);
    }
}

} // verus!
