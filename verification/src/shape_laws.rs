//! Edits of properties: where both sides keep the tree of instances, only properties
//! can be in conflict.

use vstd::prelude::*;

use crate::agreed;
use crate::agreement;
use crate::agreement_laws;
use crate::child_order;
use crate::clean_laws;
use crate::collisions;
use crate::context;
use crate::context::Ctx;
use crate::copy_laws;
use crate::cycles;
use crate::decision_laws;
use crate::dom;
use crate::files;
use crate::graph::GraphModel;
use crate::identity;
use crate::identity::MergeEntry;
use crate::keyed;
use crate::matching;
use crate::matching::{Classes, Matching};
use crate::merging;
use crate::properties;
use crate::properties::{PropertyOutcome, Values};
use crate::references;
use crate::resolve::Side;
use crate::rows;
use crate::semantic;
use crate::semantic::{DomModel, ValueSource};
use crate::text::Text;
use crate::three_way;
use crate::twin_laws;
use crate::value::ValueModel;

verus! {

/// No instance of a side has the unique id of another instance of the base.
pub open spec fn ids_stay(b: DomModel, s: DomModel) -> bool {
    forall|i: int, j: int|
        0 <= i < b.len() && 0 <= j < s.len() && semantic::node_unique_id(#[trigger] s[j]) is Some
            && semantic::node_unique_id(s[j]) == semantic::node_unique_id(#[trigger] b[i]) ==> i
            == j
}

/// Whether a side has the tree of instances of the base, with whatever properties.
pub open spec fn keeps_tree(ctx: Ctx, x: Side) -> bool {
    &&& copy_laws::same_shape(ctx.base, copy_laws::file_of(ctx, x))
    &&& ids_stay(ctx.base, copy_laws::file_of(ctx, x))
}

proof fn lemma_ids_stay(m: Matching)
    requires
        m.wf(),
        ids_stay(m.base, m.side),
        m.side.len() == m.base.len(),
    ensures
        copy_laws::ids_lead_home(m),
{
    assert forall|i: int| 0 <= i < m.base.len() && (#[trigger] m.by_id(i)) is Some implies m.by_id(i)
        == Some(i as usize) by {
        let id = semantic::node_unique_id(m.base[i])->0;
        let all = matching::all_of(m.side);
        let j = choose|j: int| matching::is_sole(m.side, all, j, id);
        assert(matching::holds_id(m.side, all, j, id));
        assert(semantic::node_unique_id(m.side[j]) == semantic::node_unique_id(m.base[i]));
    }
}

/// Where both sides keep the tree, the rows are the instances of the base.
proof fn lemma_rows(ctx: Ctx, classes: Classes)
    requires
        ctx.wf(),
        files::is_identity(ctx.base, ctx.ours, ctx.theirs, classes, ctx.rows),
        keeps_tree(ctx, Side::Ours),
        keeps_tree(ctx, Side::Theirs),
    ensures
        ctx.rows.entries.len() == ctx.base.len(),
        forall|r: int|
            0 <= r < ctx.base.len() ==> #[trigger] ctx.rows.entries[r] == (MergeEntry {
                base: Some(r as usize),
                ours: Some(r as usize),
                theirs: Some(r as usize),
            }),
        copy_laws::same_rows(ctx, Side::Base, Side::Ours),
        copy_laws::same_rows(ctx, Side::Base, Side::Theirs),
{
    lemma_ids_stay(identity::matching_of(ctx.base, ctx.ours, classes));
    lemma_ids_stay(identity::matching_of(ctx.base, ctx.theirs, classes));
    assert forall|r: int| 0 <= r < ctx.rows.entries.len() implies (
    #[trigger] ctx.rows.entries[r]).ours == ctx.rows.entries[r].base && ctx.rows.entries[r].theirs
        == ctx.rows.entries[r].base by {
        copy_laws::lemma_placed_rows(ctx, classes, Side::Ours, r);
        copy_laws::lemma_placed_rows(ctx, classes, Side::Theirs, r);
    }
    if ctx.rows.entries.len() > ctx.base.len() {
        context::lemma_entry_wf(ctx, ctx.base.len() as int);
        assert(ctx.rows.entries[ctx.base.len() as int].base is None);
    }
    copy_laws::lemma_placed_same_rows(ctx, classes, Side::Ours);
    copy_laws::lemma_placed_same_rows(ctx, classes, Side::Theirs);
}

/// What is known of a merge of sides that keep the tree.
spec fn is_property_merge(ctx: Ctx, g: GraphModel) -> bool {
    &&& ctx.wf()
    &&& ctx.rows.entries.len() == ctx.base.len()
    &&& forall|r: int|
        0 <= r < ctx.base.len() ==> #[trigger] ctx.rows.entries[r] == (MergeEntry {
            base: Some(r as usize),
            ours: Some(r as usize),
            theirs: Some(r as usize),
        })
    &&& copy_laws::same_rows(ctx, Side::Base, Side::Ours)
    &&& copy_laws::same_rows(ctx, Side::Base, Side::Theirs)
    &&& copy_laws::same_shape(ctx.base, ctx.ours)
    &&& copy_laws::same_shape(ctx.base, ctx.theirs)
    &&& merging::is_merged_graph(ctx, g)
    &&& forall|r: int, key: Text|
        0 <= r < ctx.base.len() ==> !(#[trigger] agreed::property_outcome(
            ctx,
            ctx.rows.entries[r],
            key,
        ) is Conflict)
}

/// The parent of a row is that of the base.
proof fn lemma_parents(ctx: Ctx, g: GraphModel, r: int)
    requires
        is_property_merge(ctx, g),
        0 <= r < ctx.base.len(),
    ensures
        ctx.parents(ctx.rows.entries[r]).base == ctx.base[r].parent,
        ctx.parents(ctx.rows.entries[r]).ours == ctx.base[r].parent,
        ctx.parents(ctx.rows.entries[r]).theirs == ctx.base[r].parent,
        ctx.base[r].parent matches Some(p) ==> p < r,
        r > 0 ==> ctx.base[r].parent is Some,
{
    assert(copy_laws::instance_placed(ctx.base, ctx.ours, r));
    assert(copy_laws::instance_placed(ctx.base, ctx.theirs, r));
    if r > 0 {
        matching::lemma_is_child(ctx.base, r);
        let p = ctx.base[r].parent->0;
        assert(identity::row_of(ctx.rows, ValueSource::Base, p) == Some(p));
        assert(identity::row_of(ctx.rows, ValueSource::Ours, p) == Some(p));
        assert(identity::row_of(ctx.rows, ValueSource::Theirs, p) == Some(p));
    }
}

/// A row survives as the base has it, with the merged properties.
proof fn lemma_row(ctx: Ctx, g: GraphModel, r: int)
    requires
        is_property_merge(ctx, g),
        0 <= r < g.len(),
    ensures
        agreed::row_agrees(ctx, ctx.rows.entries[r]),
        g[r] is Some,
        g[r]->0.class == ctx.base[r].class,
        g[r]->0.name == ctx.base[r].name,
        g[r]->0.parent == ctx.base[r].parent,
{
    let entry = ctx.rows.entries[r];
    assert(copy_laws::instance_placed(ctx.base, ctx.ours, r));
    assert(copy_laws::instance_placed(ctx.base, ctx.theirs, r));
    lemma_parents(ctx, g, r);
    assert(agreed::row_agrees(ctx, entry));
    agreed::lemma_draft(ctx, entry);
    assert(rows::decision(ctx, entry) is Merge);
    assert(g[r] is Some);
}

// --- loops ------------------------------------------------------------------

proof fn lemma_above(ctx: Ctx, g: GraphModel, r: usize, k: nat)
    requires
        is_property_merge(ctx, g),
        r < g.len(),
    ensures
        cycles::above(g, r, k) matches Some(x) ==> x + k <= r,
    decreases k,
{
    if k > 0 {
        lemma_above(ctx, g, r, (k - 1) as nat);
        if let Some(x) = cycles::above(g, r, (k - 1) as nat) {
            lemma_row(ctx, g, x as int);
            lemma_parents(ctx, g, x as int);
        }
    }
}

proof fn lemma_no_loops(ctx: Ctx, g: GraphModel)
    requires
        is_property_merge(ctx, g),
    ensures
        cycles::repointed(ctx, g) == g,
        cycles::cycle_conflicts(ctx, g, g.len() as int, Seq::empty()).len() == 0,
{
    assert forall|r: int| 0 <= r < g.len() implies !(#[trigger] cycles::is_member(g, r)) by {
        if cycles::is_member(g, r) {
            let k = choose|k: nat|
                k >= 1 && #[trigger] cycles::above(g, r as usize, k) == Some(r as usize);
            lemma_above(ctx, g, r as usize, k);
        }
    }
    cycles::lemma_repointed_unchanged(ctx, g);
    clean_laws::lemma_taken_cycles(ctx, g, g.len() as int);
}

// --- collisions -------------------------------------------------------------

/// The unique id of a row is that of one of its instances.
proof fn lemma_row_id(ctx: Ctx, g: GraphModel, r: int)
    requires
        is_property_merge(ctx, g),
        0 <= r < g.len(),
        collisions::row_unique_id(g[r]) is Some,
    ensures
        exists|x: Side|
            #[trigger] agreement_laws::id_at(ctx, r, x) == collisions::row_unique_id(g[r]),
{
    let key = dom::unique_id_key();
    let entry = ctx.rows.entries[r];
    let values = properties::row_values(ctx, entry, key);
    lemma_row(ctx, g, r);
    agreed::lemma_lookup(ctx, g, r, key);
    agreement::law_unique_ids_never_conflict(ctx, values);
    let p = keyed::lookup(g[r]->0.properties, key)->0;
    let x = choose|side: Side| #[trigger] values.of(side) == Some(p.value);
    assert(agreement_laws::id_at(ctx, r, x) == collisions::row_unique_id(g[r]));
}

proof fn lemma_no_collision(ctx: Ctx, g: GraphModel, r: int)
    requires
        is_property_merge(ctx, g),
        agreement_laws::ids_apart(ctx),
        0 <= r < g.len(),
    ensures
        collisions::collides_with(g, r) is None,
{
    if collisions::collides_with(g, r) is Some {
        let id = collisions::row_unique_id(g[r])->0;
        let s = collisions::collides_with(g, r)->0 as int;
        agreement_laws::lemma_holder(g, id, r);
        lemma_row_id(ctx, g, r);
        lemma_row_id(ctx, g, s);
        let x = choose|x: Side|
            #[trigger] agreement_laws::id_at(ctx, r, x) == collisions::row_unique_id(g[r]);
        let y = choose|y: Side|
            #[trigger] agreement_laws::id_at(ctx, s, y) == collisions::row_unique_id(g[s]);
        assert(agreement_laws::id_at(ctx, r, x) == agreement_laws::id_at(ctx, s, y));
    }
}

// --- references -------------------------------------------------------------

proof fn lemma_nothing_lost(ctx: Ctx, g: GraphModel, n: int)
    requires
        is_property_merge(ctx, g),
        n <= g.len(),
    ensures
        references::dropped(ctx, g, n) == Map::<u128, usize>::empty(),
    decreases n,
{
    if n > 0 {
        lemma_nothing_lost(ctx, g, n - 1);
        lemma_row(ctx, g, n - 1);
    }
}

// --- order ------------------------------------------------------------------

proof fn lemma_sequence(ctx: Ctx, g: GraphModel, r: int)
    requires
        is_property_merge(ctx, g),
        0 <= r < g.len(),
    ensures
        child_order::merged_sequence(child_order::row_sequences(ctx, g, r)) is Some,
{
    assert(copy_laws::instance_placed(ctx.base, ctx.ours, r));
    assert(copy_laws::instance_placed(ctx.base, ctx.theirs, r));
    let children = ctx.base[r].children;
    agreement_laws::lemma_same_child_rows(
        ctx,
        g,
        ValueSource::Base,
        children,
        ValueSource::Ours,
        children,
        r as usize,
    );
    agreement_laws::lemma_same_child_rows(
        ctx,
        g,
        ValueSource::Base,
        children,
        ValueSource::Theirs,
        children,
        r as usize,
    );
    let seqs = child_order::row_sequences(ctx, g, r);
    assert(seqs.ours == seqs.base && seqs.theirs == seqs.base);
}

proof fn lemma_settled(ctx: Ctx, g: GraphModel)
    requires
        is_property_merge(ctx, g),
        agreement_laws::ids_apart(ctx),
    ensures
        merging::settled(ctx, g) == g,
        merging::settling_conflicts(ctx, g).len() == 0,
        forall|r: int| 0 <= r < g.len() ==> (#[trigger] collisions::collides_with(g, r)) is None,
{
    let n = g.len() as int;
    assert forall|r: int| 0 <= r < n implies agreed::row_agrees(
        ctx,
        #[trigger] ctx.rows.entries[r],
    ) by {
        lemma_row(ctx, g, r);
    }
    agreed::lemma_no_row_conflicts(ctx, n);
    lemma_no_loops(ctx, g);
    let looped = cycles::cycle_conflicts(ctx, g, n, Seq::empty());
    assert(looped =~= Seq::empty());
    assert forall|r: int| 0 <= r < n implies (#[trigger] collisions::collides_with(g, r)) is None by {
        lemma_no_collision(ctx, g, r);
    }
    decision_laws::lemma_no_collisions(ctx.resolutions, g, n);
    lemma_nothing_lost(ctx, g, n);
    decision_laws::lemma_no_ref_conflicts(ctx, g, n);
}

/// Whether a finished row is that of the base with merged properties.
pub open spec fn row_keeps_place(ctx: Ctx, f: GraphModel, r: int) -> bool {
    &&& f[r] is Some
    &&& f[r]->0.class == ctx.base[r].class
    &&& f[r]->0.name == ctx.base[r].name
    &&& f[r]->0.parent == ctx.base[r].parent
    &&& forall|key: Text|
        #[trigger] keyed::lookup(f[r]->0.properties, key) == (match agreed::property_outcome(
            ctx,
            ctx.rows.entries[r],
            key,
        ) {
            PropertyOutcome::Keep(p) => Some(p),
            _ => None,
        })
}

/// Where both sides keep the tree of instances and no property is in conflict, the
/// merge has no conflicts, and it is the tree of the base with the merged properties.
pub proof fn law_property_edits_keep_the_tree(ctx: Ctx, classes: Classes, g: GraphModel)
    requires
        ctx.wf(),
        files::is_identity(ctx.base, ctx.ours, ctx.theirs, classes, ctx.rows),
        merging::is_merged_graph(ctx, g),
        keeps_tree(ctx, Side::Ours),
        keeps_tree(ctx, Side::Theirs),
        agreement_laws::ids_apart(ctx),
        forall|r: int, key: Text|
            0 <= r < ctx.base.len() ==> !(#[trigger] agreed::property_outcome(
                ctx,
                ctx.rows.entries[r],
                key,
            ) is Conflict),
    ensures
        merging::merge_conflicts(ctx, g).len() == 0,
        merging::finished(ctx, g).len() == ctx.base.len(),
        forall|r: int|
            0 <= r < ctx.base.len() ==> #[trigger] row_keeps_place(
                ctx,
                merging::finished(ctx, g),
                r,
            ),
{
    let n = g.len() as int;
    lemma_rows(ctx, classes);
    assert(is_property_merge(ctx, g));
    lemma_settled(ctx, g);
    assert forall|r: int| 0 <= r < n && (#[trigger] g[r]) is Some implies child_order::merged_sequence(
        child_order::row_sequences(ctx, g, r),
    ) is Some by {
        lemma_sequence(ctx, g, r);
    }
    agreed::lemma_no_order_conflicts(ctx, g, n);
    let placed = child_order::ordered(ctx, g);
    assert forall|r: int| 0 <= r < placed.len() implies (#[trigger] collisions::collides_with(
        placed,
        r,
    )) is None by {
        agreed::lemma_ordered_ids(ctx, g, r);
    }
    decision_laws::lemma_no_collisions(ctx.resolutions, placed, n);
    let f = merging::finished(ctx, g);
    assert(f == placed);
    assert forall|r: int| 0 <= r < n implies #[trigger] row_keeps_place(ctx, f, r) by {
        lemma_row(ctx, g, r);
        assert forall|key: Text|
            #[trigger] keyed::lookup(f[r]->0.properties, key) == (match agreed::property_outcome(
                ctx,
                ctx.rows.entries[r],
                key,
            ) {
                PropertyOutcome::Keep(p) => Some(p),
                _ => None,
            }) by {
            agreed::lemma_lookup(ctx, g, r, key);
        }
    }
}

// ---------------------------------------------------------------------------
// Attribute edits
// ---------------------------------------------------------------------------

/// The side that an attribute is taken from: ours, unless only theirs edited it.
pub open spec fn attribute_editor(ctx: Ctx, values: Values, key: Text) -> Side {
    if agreement::value_prevails(ctx, properties::nested(values, key), Side::Ours) {
        Side::Ours
    } else {
        Side::Theirs
    }
}

/// Whether no attribute is edited by both sides in different ways.
pub open spec fn edits_apart(ctx: Ctx, values: Values) -> bool {
    &&& properties::absent_or_attributes(values.base)
    &&& properties::absent_or_attributes(values.ours)
    &&& properties::absent_or_attributes(values.theirs)
    &&& forall|key: Text|
        agreement::value_prevails(
            ctx,
            #[trigger] properties::nested(values, key),
            attribute_editor(ctx, values, key),
        )
}

/// Whether every attribute is that of the side that edited it.
pub open spec fn edits_land(ctx: Ctx, values: Values, merged: Option<ValueModel>) -> bool {
    forall|key: Text|
        agreement::reflects(
            ctx,
            attribute_editor(ctx, values, key),
            #[trigger] properties::attribute(merged, key),
            properties::nested(values, key).of(attribute_editor(ctx, values, key)),
        )
}

proof fn lemma_edits_land(ctx: Ctx, values: Values)
    requires
        edits_apart(ctx, values),
    ensures
        ({
            let outcome = properties::merged_value(ctx, properties::attributes_key(), values);
            &&& !(outcome is Conflict)
            &&& edits_land(ctx, values, agreement::kept_value(outcome))
        }),
{
    let outcome = properties::merged_value(ctx, properties::attributes_key(), values);
    let merged = agreement::kept_value(outcome);
    if properties::attributes_apply(values) {
        let by_ours = |key: Text|
            agreement::value_prevails(ctx, properties::nested(values, key), Side::Ours);
        assert forall|key: Text|
            agreement::value_prevails(
                ctx,
                #[trigger] properties::nested(values, key),
                agreement::editor(by_ours, key),
            ) by {
            assert(agreement::editor(by_ours, key) == attribute_editor(ctx, values, key));
        }
        agreement::law_disjoint_attribute_edits_compose(ctx, values, by_ours);
        assert forall|key: Text|
            agreement::reflects(
                ctx,
                attribute_editor(ctx, values, key),
                #[trigger] properties::attribute(merged, key),
                properties::nested(values, key).of(attribute_editor(ctx, values, key)),
            ) by {
            let list = outcome->Keep_0.value->Attributes_0;
            assert(properties::attribute(merged, key) == keyed::lookup(list, key));
            assert(agreement::editor(by_ours, key) == attribute_editor(ctx, values, key));
        }
    } else {
        assert forall|key: Text|
            agreement::reflects(
                ctx,
                attribute_editor(ctx, values, key),
                #[trigger] properties::attribute(merged, key),
                properties::nested(values, key).of(attribute_editor(ctx, values, key)),
            ) by {
            let w = attribute_editor(ctx, values, key);
            let (m, v) = (
                properties::attribute(merged, key),
                properties::nested(values, key).of(w),
            );
            assert(m == v);
            if m is Some {
                assert(agreement::counts_as(
                    ctx,
                    m->0,
                    three_way::source_of_side(w),
                    v->0,
                    three_way::source_of_side(w),
                ));
            }
        }
    }
}

/// Whether both sides edited attributes only, no attribute in different ways.
pub open spec fn attribute_edits(ctx: Ctx) -> bool {
    &&& keeps_tree(ctx, Side::Ours)
    &&& keeps_tree(ctx, Side::Theirs)
    &&& forall|r: int, key: Text|
        0 <= r < ctx.base.len() && key != properties::attributes_key() && key
            != dom::unique_id_key() ==> #[trigger] copy_laws::property_copied(
            ctx.base,
            ctx.ours,
            r,
            key,
        ) && copy_laws::property_copied(ctx.base, ctx.theirs, r, key)
    &&& forall|r: int|
        0 <= r < ctx.base.len() ==> edits_apart(
            ctx,
            #[trigger] properties::row_values(
                ctx,
                ctx.rows.entries[r],
                properties::attributes_key(),
            ),
        )
}

/// Independent attribute edits compose: where both sides edited attributes only and
/// no attribute in different ways, the merge has no conflicts, and every edit is in
/// it.
pub proof fn law_attribute_edits_merge(ctx: Ctx, classes: Classes, g: GraphModel)
    requires
        ctx.wf(),
        files::is_identity(ctx.base, ctx.ours, ctx.theirs, classes, ctx.rows),
        merging::is_merged_graph(ctx, g),
        agreement_laws::ids_apart(ctx),
        attribute_edits(ctx),
    ensures
        merging::merge_conflicts(ctx, g).len() == 0,
        forall|r: int|
            0 <= r < ctx.base.len() ==> #[trigger] row_keeps_place(
                ctx,
                merging::finished(ctx, g),
                r,
            ) && edits_land(
                ctx,
                properties::row_values(ctx, ctx.rows.entries[r], properties::attributes_key()),
                agreement::kept_value(
                    agreed::property_outcome(
                        ctx,
                        ctx.rows.entries[r],
                        properties::attributes_key(),
                    ),
                ),
            ),
{
    lemma_rows(ctx, classes);
    assert forall|r: int, key: Text| 0 <= r < ctx.base.len() implies !(
    #[trigger] agreed::property_outcome(ctx, ctx.rows.entries[r], key) is Conflict) by {
        let values = properties::row_values(ctx, ctx.rows.entries[r], key);
        if key == properties::attributes_key() {
            lemma_edits_land(ctx, values);
        } else if key == dom::unique_id_key() {
            agreement::law_unique_ids_never_conflict(ctx, values);
        } else {
            assert(copy_laws::property_copied(ctx.base, ctx.ours, r, key));
            copy_laws::lemma_copied_property(ctx, Side::Base, Side::Ours, r, key);
            copy_laws::lemma_copied_property(ctx, Side::Base, Side::Theirs, r, key);
        }
    }
    law_property_edits_keep_the_tree(ctx, classes, g);
    assert forall|r: int| 0 <= r < ctx.base.len() implies edits_land(
        ctx,
        #[trigger] properties::row_values(ctx, ctx.rows.entries[r], properties::attributes_key()),
        agreement::kept_value(
            agreed::property_outcome(ctx, ctx.rows.entries[r], properties::attributes_key()),
        ),
    ) by {
        lemma_edits_land(
            ctx,
            properties::row_values(ctx, ctx.rows.entries[r], properties::attributes_key()),
        );
    }
}

// ---------------------------------------------------------------------------
// Regenerated unique ids
// ---------------------------------------------------------------------------

/// Whether a side is the base with unique ids made anew.
pub open spec fn ids_made_anew(ctx: Ctx, x: Side) -> bool {
    &&& keeps_tree(ctx, x)
    &&& forall|r: int, key: Text|
        0 <= r < ctx.base.len() && key != dom::unique_id_key()
            ==> #[trigger] copy_laws::property_copied(
            ctx.base,
            copy_laws::file_of(ctx, x),
            r,
            key,
        )
}

/// Unique ids that were made anew never conflict: where both sides did nothing else,
/// the merge has no conflicts and is either side but for them.
pub proof fn law_ids_made_anew_merge(ctx: Ctx, classes: Classes, g: GraphModel)
    requires
        ctx.wf(),
        files::is_identity(ctx.base, ctx.ours, ctx.theirs, classes, ctx.rows),
        merging::is_merged_graph(ctx, g),
        ids_made_anew(ctx, Side::Ours),
        ids_made_anew(ctx, Side::Theirs),
        agreement_laws::regular(ctx, Side::Ours),
    ensures
        agreement_laws::takes_side(ctx, g, Side::Ours),
{
    lemma_rows(ctx, classes);
    assert forall|r: int| 0 <= r < ctx.rows.entries.len() implies ({
        let nodes = ctx.nodes(#[trigger] ctx.rows.entries[r]);
        &&& agreement::alike(ctx, nodes.ours->0, Side::Ours, nodes.base->0, Side::Base)
        &&& agreement::alike(ctx, nodes.theirs->0, Side::Theirs, nodes.base->0, Side::Base)
    }) by {
        assert(copy_laws::instance_placed(ctx.base, ctx.ours, r));
        assert(copy_laws::instance_placed(ctx.base, ctx.theirs, r));
        copy_laws::lemma_copied_alike(ctx, Side::Base, Side::Ours, r);
        copy_laws::lemma_copied_alike(ctx, Side::Base, Side::Theirs, r);
    }
    agreement_laws::law_regenerated_ids_never_conflict(ctx, g);
}

// ---------------------------------------------------------------------------
// A file merged with itself
// ---------------------------------------------------------------------------

/// A copy keeps the tree.
proof fn lemma_copy_keeps_tree(ctx: Ctx, x: Side)
    requires
        copy_laws::is_copy(ctx.base, copy_laws::file_of(ctx, x)),
        twin_laws::distinct_ids(ctx.base),
    ensures
        keeps_tree(ctx, x),
{
    let (b, s) = (ctx.base, copy_laws::file_of(ctx, x));
    assert forall|i: int| 0 <= i < b.len() implies #[trigger] copy_laws::instance_placed(b, s, i) by {
        assert(copy_laws::instance_copied(b, s, i));
    }
    assert forall|i: int, j: int|
        0 <= i < b.len() && 0 <= j < s.len() && semantic::node_unique_id(#[trigger] s[j]) is Some
            && semantic::node_unique_id(s[j]) == semantic::node_unique_id(#[trigger] b[i]) implies i
        == j by {
        assert(copy_laws::instance_copied(b, s, j));
        assert(semantic::node_unique_id(b[j]) == semantic::node_unique_id(b[i]));
    }
}

/// A file merged with itself never conflicts, and nothing in it is moved, renamed or
/// lost: this holds of a base and two copies of it, whatever names recur in it.
pub proof fn law_self_merge_is_clean(ctx: Ctx, classes: Classes, g: GraphModel)
    requires
        ctx.wf(),
        files::is_identity(ctx.base, ctx.ours, ctx.theirs, classes, ctx.rows),
        merging::is_merged_graph(ctx, g),
        copy_laws::is_copy(ctx.base, ctx.ours),
        copy_laws::is_copy(ctx.base, ctx.theirs),
        twin_laws::distinct_ids(ctx.base),
    ensures
        merging::merge_conflicts(ctx, g).len() == 0,
        merging::finished(ctx, g).len() == ctx.base.len(),
        forall|r: int|
            0 <= r < ctx.base.len() ==> #[trigger] row_keeps_place(
                ctx,
                merging::finished(ctx, g),
                r,
            ),
        forall|r: int, key: Text|
            0 <= r < ctx.base.len() && key != properties::attributes_key()
                ==> #[trigger] agreed::property_outcome(ctx, ctx.rows.entries[r], key)
                == properties::keep_or_delete(
                keyed::lookup(ctx.base[r].properties, key),
                ValueSource::Base,
            ),
{
    lemma_copy_keeps_tree(ctx, Side::Ours);
    lemma_copy_keeps_tree(ctx, Side::Theirs);
    lemma_rows(ctx, classes);
    assert forall|r: int, x: Side|
        0 <= r < ctx.rows.entries.len() implies #[trigger] agreement_laws::id_at(ctx, r, x)
        == semantic::node_unique_id(ctx.base[r]) by {
        assert(copy_laws::instance_copied(ctx.base, ctx.ours, r));
        assert(copy_laws::instance_copied(ctx.base, ctx.theirs, r));
    }
    assert forall|r: int, x: Side, s: int, y: Side|
        0 <= r < ctx.rows.entries.len() && 0 <= s < ctx.rows.entries.len() && (
        #[trigger] agreement_laws::id_at(ctx, r, x)) is Some && agreement_laws::id_at(ctx, r, x)
            == (#[trigger] agreement_laws::id_at(ctx, s, y)) implies r == s by {
        assert(semantic::node_unique_id(ctx.base[r]) == semantic::node_unique_id(ctx.base[s]));
    }
    assert forall|r: int, key: Text| 0 <= r < ctx.base.len() implies !(
    #[trigger] agreed::property_outcome(ctx, ctx.rows.entries[r], key) is Conflict) && (key
        != properties::attributes_key() ==> agreed::property_outcome(
        ctx,
        ctx.rows.entries[r],
        key,
    ) == properties::keep_or_delete(
        keyed::lookup(ctx.base[r].properties, key),
        ValueSource::Base,
    )) by {
        let values = properties::row_values(ctx, ctx.rows.entries[r], key);
        assert(copy_laws::instance_copied(ctx.base, ctx.ours, r));
        assert(copy_laws::instance_copied(ctx.base, ctx.theirs, r));
        assert(copy_laws::property_copied(ctx.base, ctx.ours, r, key));
        assert(copy_laws::property_copied(ctx.base, ctx.theirs, r, key));
        copy_laws::lemma_copied_property(ctx, Side::Base, Side::Ours, r, key);
        copy_laws::lemma_copied_property(ctx, Side::Base, Side::Theirs, r, key);
        assert(agreement::value_prevails(ctx, values, Side::Ours));
        agreement::lemma_prevailing_value(ctx, key, values, Side::Ours);
    }
    law_property_edits_keep_the_tree(ctx, classes, g);
}

} // verus!
