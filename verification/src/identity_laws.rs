//! What identities are worth: roots and shared unique ids always match, no instance
//! is matched twice, and what both sides kept is in a merge without conflicts.

use vstd::prelude::*;

use crate::agreed;
use crate::clean_laws;
use crate::collisions;
use crate::context::Ctx;
use crate::decision_laws;
use crate::dom;
use crate::files;
use crate::graph::GraphModel;
use crate::identity;
use crate::matching;
use crate::matching::{Classes, Matching};
use crate::merging;
use crate::properties;
use crate::resolve;
use crate::semantic::DomModel;
use crate::text::Text;
use crate::tree;

verus! {

/// Whether an instance below the root is the only one of its file that has a unique
/// id.
pub open spec fn has_alone(d: DomModel, i: int, id: u128) -> bool {
    0 < i && matching::is_sole(d, matching::all_of(d), i, id)
}

/// Roots match.
pub proof fn law_roots_match(m: Matching)
    requires
        m.wf(),
    ensures
        m.partner(0) == Some(0usize),
{
}

/// A unique id that one instance of each file has makes them one, whatever their
/// classes, names, parents and places.
pub proof fn law_shared_unique_id_matches(m: Matching, i: int, j: int, id: u128)
    requires
        m.wf(),
        has_alone(m.base, i, id),
        has_alone(m.side, j, id),
    ensures
        m.partner(i) == Some(j as usize),
{
    assert(matching::holds_id(m.base, matching::all_of(m.base), i, id));
    matching::lemma_sole(m.side, matching::all_of(m.side), j, id);
    assert(matching::holds_id(m.side, matching::all_of(m.side), j, id));
}

/// A service, of which each file has one under its root, is matched whatever its
/// name, unless a unique id says otherwise.
pub proof fn law_services_match(m: Matching, i: int, j: int, class: Text)
    requires
        m.wf(),
        m.classes.contains_key(class),
        m.classes[class].service,
        Matching::top_level(m.base, class) == seq![i as usize],
        Matching::top_level(m.side, class) == seq![j as usize],
        0 < i < m.base.len(),
        0 < j < m.side.len(),
        m.base[i].class == class,
        m.by_id(i) is None,
        !m.taken_by_id(j),
    ensures
        m.partner(i) == Some(j as usize),
{
}

/// No instance is matched with two.
pub proof fn law_matches_are_one_to_one(m: Matching, i: int, k: int)
    requires
        m.wf(),
        0 <= i < m.base.len(),
        0 <= k < m.base.len(),
        m.partner(i) is Some,
        m.partner(i) == m.partner(k),
    ensures
        i == k,
{
    matching::lemma_partner_injective(m, i, k);
}

/// In a merge without conflicts, in which nothing had to be decided, no instance is
/// lost that both sides kept: a unique id that one instance of each file has is in
/// the merge.
pub proof fn law_kept_unique_id_survives(
    ctx: Ctx,
    classes: Classes,
    g: GraphModel,
    i: int,
    o: int,
    t: int,
    id: u128,
)
    requires
        ctx.wf(),
        files::is_identity(ctx.base, ctx.ours, ctx.theirs, classes, ctx.rows),
        resolve::undecided(ctx.resolutions),
        merging::is_merged_graph(ctx, g),
        merging::merge_conflicts(ctx, g).len() == 0,
        has_alone(ctx.base, i, id),
        has_alone(ctx.ours, o, id),
        has_alone(ctx.theirs, t, id),
    ensures
        0 <= i < g.len(),
        collisions::row_unique_id(merging::finished(ctx, g)[i]) == Some(id),
{
    let a = identity::additions_of(ctx.base, ctx.ours, ctx.theirs, classes);
    let key = dom::unique_id_key();
    assert(matching::holds_id(ctx.base, matching::all_of(ctx.base), i, id));
    assert(matching::holds_id(ctx.ours, matching::all_of(ctx.ours), o, id));
    assert(matching::holds_id(ctx.theirs, matching::all_of(ctx.theirs), t, id));
    law_shared_unique_id_matches(
        identity::matching_of(ctx.base, ctx.ours, classes),
        i,
        o,
        id,
    );
    law_shared_unique_id_matches(
        identity::matching_of(ctx.base, ctx.theirs, classes),
        i,
        t,
        id,
    );
    identity::lemma_additions_wf(ctx.base, ctx.ours, ctx.theirs, classes);
    identity::lemma_row(a, i);
    let entry = ctx.rows.entries[i];
    assert(entry.ours == Some(o as usize) && entry.theirs == Some(t as usize));
    clean_laws::law_clean_merge_keeps_instances(ctx, g, i);
    merging::lemma_same_rows_survive(ctx, g, i);
    merging::lemma_settled_clean(ctx, g);
    clean_laws::lemma_row_clean(ctx, g.len() as int, i);
    agreed::lemma_row_agrees(ctx, entry);
    agreed::lemma_lookup(ctx, g, i, key);
    let values = properties::row_values(ctx, entry, key);
    reveal_strlit("UniqueId");
    reveal_strlit("Attributes");
    assert(key.len() != properties::attributes_key().len());
    assert(collisions::row_unique_id(g[i]) == Some(id));
    decision_laws::lemma_nothing_to_decide(ctx, g);
    decision_laws::lemma_no_ref_conflicts(ctx, g, g.len() as int);
}

/// A unique id that one instance of each file has is in the tree that is built of a
/// merge without conflicts, in which nothing had to be decided.
pub proof fn law_kept_unique_id_is_built(
    ctx: Ctx,
    classes: Classes,
    g: GraphModel,
    outcome: merging::OutcomeModel,
    i: int,
    o: int,
    t: int,
    id: u128,
)
    requires
        ctx.wf(),
        files::is_identity(ctx.base, ctx.ours, ctx.theirs, classes, ctx.rows),
        resolve::undecided(ctx.resolutions),
        merging::is_merged_graph(ctx, g),
        merging::outcome_of(ctx, g, outcome),
        outcome is Merged,
        has_alone(ctx.base, i, id),
        has_alone(ctx.ours, o, id),
        has_alone(ctx.theirs, t, id),
    ensures
        tree::has_id(outcome->Merged_0, id),
{
    let f = merging::finished(ctx, g);
    law_kept_unique_id_survives(ctx, classes, g, i, o, t, id);
    clean_laws::law_clean_merge_keeps_instances(ctx, g, i);
    assert(tree::reached(f, i as usize));
    assert(tree::row_built(
        tree::final_refs(ctx, f, g.len() as int),
        f,
        i as usize,
        outcome->Merged_0,
    ));
}

} // verus!
