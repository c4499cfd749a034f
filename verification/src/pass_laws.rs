//! What the merged rows are looked through for: unique ids that two rows share, parents in
//! a loop, and references to what did not survive.

use vstd::prelude::*;

use crate::collisions;
use crate::conflict::{ConflictKind, ConflictModel};
use crate::context;
use crate::context::Ctx;
use crate::cycles;
use crate::diagnostics::DiagnosticModel;
use crate::edit_laws;
use crate::graph;
use crate::graph::{GraphModel, NodeModel};
use crate::graph_wf;
use crate::keyed;
use crate::merging;
use crate::properties::PropertyModel;
use crate::references;
use crate::resolve::{ResolutionsModel, Side};
use crate::semantic;
use crate::text;
use crate::text::Text;
use crate::value;
use crate::value::ValueModel;

verus! {

// ---------------------------------------------------------------------------
// Unique ids
// ---------------------------------------------------------------------------

/// Whether a row has a unique id that is not nil.
pub open spec fn has_id(row: Option<NodeModel>, id: u128) -> bool {
    &&& id != 0
    &&& row is Some
    &&& keyed::lookup(row->0.properties, "UniqueId"@) matches Some(p) && value::unique_id_value(
        p.value,
    ) == Some(id)
}

proof fn lemma_has_id(row: Option<NodeModel>, id: u128)
    ensures
        has_id(row, id) <==> collisions::row_unique_id(row) == Some(id),
{
}

/// Whether a row is the first that has a unique id.
pub open spec fn is_first(g: GraphModel, s: int, id: u128) -> bool {
    &&& 0 <= s < g.len()
    &&& has_id(g[s], id)
    &&& forall|k: int| 0 <= k < s ==> !has_id(#[trigger] g[k], id)
}

proof fn lemma_no_holder(g: GraphModel, id: u128, n: int)
    requires
        0 <= n <= g.len(),
        forall|k: int| 0 <= k < n ==> !has_id(#[trigger] g[k], id),
    ensures
        collisions::first_holder(g, id, n) is None,
    decreases n,
{
    if n > 0 {
        lemma_no_holder(g, id, n - 1);
        lemma_has_id(g[n - 1], id);
    }
}

proof fn lemma_first(g: GraphModel, id: u128, s: int, n: int)
    requires
        is_first(g, s, id),
        s < n <= g.len(),
        g.len() <= usize::MAX,
    ensures
        collisions::first_holder(g, id, n) == Some(s as usize),
    decreases n,
{
    if n == s + 1 {
        lemma_no_holder(g, id, s);
        lemma_has_id(g[s], id);
    } else {
        lemma_first(g, id, s, n - 1);
    }
}

proof fn lemma_holder(g: GraphModel, id: u128, n: int)
    requires
        0 <= n <= g.len() <= usize::MAX,
        collisions::first_holder(g, id, n) is Some,
    ensures
        is_first(g, collisions::first_holder(g, id, n)->0 as int, id),
        collisions::first_holder(g, id, n)->0 < n,
    decreases n,
{
    if collisions::first_holder(g, id, n - 1) is Some {
        lemma_holder(g, id, n - 1);
    } else {
        assert forall|k: int| 0 <= k < n - 1 implies !has_id(#[trigger] g[k], id) by {
            lemma_has_id(g[k], id);
            if has_id(g[k], id) {
                crate::clean_laws::lemma_has_holder(g, id, k, n - 1);
            }
        }
        lemma_has_id(g[n - 1], id);
    }
}

/// The conflict of row `r` that has the unique id of row `s` before it.
pub open spec fn shared_id_conflict(g: GraphModel, s: int, r: int, id: u128) -> ConflictModel {
    ConflictModel {
        kind: ConflictKind::UniqueIdCollision,
        path: cycles::graph_path(g, r as usize),
        class: g[r]->0.class,
        name: g[r]->0.name,
        property: Some("UniqueId"@),
        base: Some("also assigned to "@ + cycles::graph_path(g, s as usize)),
        ours: Some(text::hex_digits(id as nat, 32)),
        theirs: None,
    }
}

proof fn lemma_collision_stays(
    resolutions: ResolutionsModel,
    g: GraphModel,
    n: int,
    m: int,
    before: Seq<ConflictModel>,
    c: ConflictModel,
)
    requires
        0 <= n <= m,
        collisions::collision_conflicts(resolutions, g, n, before).contains(c),
    ensures
        collisions::collision_conflicts(resolutions, g, m, before).contains(c),
    decreases m,
{
    if n < m {
        lemma_collision_stays(resolutions, g, n, m - 1, before, c);
        let a = collisions::collision_conflicts(resolutions, g, m - 1, before);
        let b = collisions::collision_conflicts(resolutions, g, m, before);
        assert(b[a.index_of(c)] == c);
    }
}

/// A row with the unique id of a row before it is in conflict with the first that has it;
/// once this is decided, for whichever side, the later row loses the id and nothing else.
#[verifier::rlimit(50)]
pub proof fn law_shared_unique_ids_conflict(
    resolutions: ResolutionsModel,
    g: GraphModel,
    before: Seq<ConflictModel>,
    s: int,
    r: int,
    id: u128,
    side: Side,
    key: Text,
)
    requires
        graph_wf::graph_wf(g),
        is_first(g, s, id),
        s < r < g.len(),
        has_id(g[r], id),
    ensures
        ({
            let path = cycles::graph_path(g, r as usize);
            let kind = ConflictKind::UniqueIdCollision;
            let found = collisions::collision_conflicts(resolutions, g, g.len() as int, before);
            let row = collisions::cleared(resolutions, g)[r];
            &&& edit_laws::is_open(resolutions, kind, path, Some("UniqueId"@)) ==> found.contains(
                shared_id_conflict(g, s, r, id),
            ) && row == g[r]
            &&& edit_laws::is_decided(resolutions, kind, path, Some("UniqueId"@), side) ==> {
                &&& row is Some
                &&& keyed::lookup(row->0.properties, "UniqueId"@) is None
                &&& key != "UniqueId"@ ==> keyed::lookup(row->0.properties, key) == keyed::lookup(
                    g[r]->0.properties,
                    key,
                )
                &&& row->0 == (NodeModel { properties: row->0.properties, ..g[r]->0 })
            }
        }),
{
    let n = g.len() as int;
    let path = cycles::graph_path(g, r as usize);
    let kind = ConflictKind::UniqueIdCollision;
    lemma_has_id(g[r], id);
    lemma_first(g, id, s, r);
    assert(collisions::collides_with(g, r) == Some(s as usize));
    if edit_laws::is_open(resolutions, kind, path, Some("UniqueId"@)) {
        let so_far = collisions::collision_conflicts(resolutions, g, r, before);
        let more = collisions::collision_conflicts(resolutions, g, r + 1, before);
        let c = shared_id_conflict(g, s, r, id);
        assert(more == so_far.push(c));
        assert(more[so_far.len() as int] == c);
        lemma_collision_stays(resolutions, g, r + 1, n, before, c);
    }
    if edit_laws::is_decided(resolutions, kind, path, Some("UniqueId"@), side) {
        let node = g[r]->0;
        let after = graph::without_property(node, "UniqueId"@);
        crate::clean_laws::lemma_without_property(node, "UniqueId"@);
        if key != "UniqueId"@ {
            graph_wf::lemma_cleared_wf(resolutions, g);
            assert(collisions::cleared(resolutions, g)[r] == Some(after));
            edit_laws::lemma_lookup_without(node, "UniqueId"@, key);
        }
    }
}

/// A row whose unique id no row before it has is left as it is.
pub proof fn law_first_holder_keeps_its_id(
    resolutions: ResolutionsModel,
    g: GraphModel,
    r: int,
)
    requires
        g.len() <= usize::MAX,
        0 <= r < g.len(),
        forall|id: u128, k: int| 0 <= k < r && has_id(g[r], id) ==> !#[trigger] has_id(g[k], id),
    ensures
        collisions::cleared(resolutions, g)[r] == g[r],
{
    if let Some(id) = collisions::row_unique_id(g[r]) {
        lemma_has_id(g[r], id);
        lemma_no_holder(g, id, r);
    }
}

/// A collision is only reported of two rows with one unique id.
pub proof fn law_collision_is_founded(
    resolutions: ResolutionsModel,
    g: GraphModel,
    n: int,
    before: Seq<ConflictModel>,
    c: ConflictModel,
)
    requires
        0 <= n <= g.len() <= usize::MAX,
        collisions::collision_conflicts(resolutions, g, n, before).contains(c),
    ensures
        before.contains(c) || exists|s: int, r: int, id: u128|
            s < r < n && #[trigger] is_first(g, s, id) && #[trigger] has_id(g[r], id) && c
                == shared_id_conflict(g, s, r, id),
    decreases n,
{
    if n > 0 {
        let so_far = collisions::collision_conflicts(resolutions, g, n - 1, before);
        let all = collisions::collision_conflicts(resolutions, g, n, before);
        let i = all.index_of(c);
        if i < so_far.len() {
            assert(so_far[i] == c);
            law_collision_is_founded(resolutions, g, n - 1, before, c);
        } else {
            let id = collisions::row_unique_id(g[n - 1])->0;
            lemma_has_id(g[n - 1], id);
            lemma_holder(g, id, n - 1);
            let s = collisions::first_holder(g, id, n - 1)->0 as int;
            assert(is_first(g, s, id) && has_id(g[n - 1], id));
            assert(c == shared_id_conflict(g, s, n - 1, id));
        }
    }
}

// ---------------------------------------------------------------------------
// Referents
// ---------------------------------------------------------------------------

/// The referent of the instance of a row: that of ours, else that of theirs, else that of
/// the base.
pub open spec fn own_referent(ctx: Ctx, r: int) -> u128 {
    let entry = ctx.rows.entries[r];
    if entry.ours is Some {
        ctx.ours[entry.ours->0 as int].source_ref
    } else if entry.theirs is Some {
        ctx.theirs[entry.theirs->0 as int].source_ref
    } else {
        ctx.base[entry.base->0 as int].source_ref
    }
}

/// A merged row keeps the referent of its instance where this is not nil and no row before
/// it has it. No two rows have one referent, and none has nil.
pub proof fn law_rows_keep_their_referents(ctx: Ctx, g: GraphModel, r: int, s: int)
    requires
        ctx.wf(),
        merging::is_merged_graph(ctx, g),
        0 <= r < g.len(),
        g[r] is Some,
    ensures
        g[r]->0.referent != 0,
        own_referent(ctx, r) != 0 && (forall|k: int|
            0 <= k < r && (#[trigger] g[k]) is Some ==> g[k]->0.referent != own_referent(ctx, r))
            ==> g[r]->0.referent == own_referent(ctx, r),
        0 <= s < g.len() && s != r && g[s] is Some ==> g[s]->0.referent != g[r]->0.referent,
{
    context::lemma_entry_wf(ctx, r);
    assert(graph::referent_ok(ctx, g, r));
    if 0 <= s < g.len() && s != r && g[s] is Some {
        assert(graph::referent_ok(ctx, g, s));
        if s < r {
            assert(!graph::referent_used(g, r, g[r]->0.referent));
        } else {
            assert(!graph::referent_used(g, s, g[s]->0.referent));
        }
    }
}

// ---------------------------------------------------------------------------
// Paths
// ---------------------------------------------------------------------------

/// Whether rows lead from one up to a child of the root, none of them twice.
pub open spec fn is_way_to_the_top(g: GraphModel, way: Seq<usize>) -> bool {
    &&& 0 < way.len() <= g.len()
    &&& way.no_duplicates()
    &&& forall|i: int|
        0 <= i < way.len() ==> 0 < #[trigger] way[i] < g.len() && g[way[i] as int] is Some
    &&& forall|i: int|
        0 <= i < way.len() - 1 ==> g[#[trigger] way[i] as int]->0.parent == Some(way[i + 1])
    &&& g[way.last() as int]->0.parent is None || g[way.last() as int]->0.parent == Some(0usize)
}

/// The names of some rows, the last first.
spec fn names_from(g: GraphModel, way: Seq<usize>, i: int) -> Seq<Text>
    decreases way.len() - i,
{
    if i < 0 || i >= way.len() {
        Seq::empty()
    } else {
        names_from(g, way, i + 1).push(g[way[i] as int]->0.name)
    }
}

proof fn lemma_names_above(g: GraphModel, way: Seq<usize>, i: int)
    requires
        is_way_to_the_top(g, way),
        0 <= i < way.len(),
    ensures
        cycles::names_above(g, Some(way[i]), way.take(i)) == names_from(g, way, i),
    decreases way.len() - i,
{
    let seen = way.take(i);
    assert(0 < way[i] < g.len());
    if seen.contains(way[i]) {
        let k = seen.index_of(way[i]);
        assert(way[k] == way[i]);
    }
    assert(way.take(i + 1) =~= seen.push(way[i]));
    if i < way.len() - 1 {
        lemma_names_above(g, way, i + 1);
    } else {
        assert(way[i] == way.last());
        assert(names_from(g, way, i + 1) =~= Seq::empty());
        assert(cycles::names_above(g, g[way[i] as int]->0.parent, seen.push(way[i])) =~= Seq::empty());
    }
}

proof fn lemma_names_shift(g: GraphModel, way: Seq<usize>, i: int)
    requires
        0 <= i < way.len(),
    ensures
        names_from(g, way.drop_first(), i) == names_from(g, way, i + 1),
    decreases way.len() - i,
{
    if i < way.len() - 1 {
        lemma_names_shift(g, way, i + 1);
        assert(way.drop_first()[i] == way[i + 1]);
    }
}

/// The path of a row through the merged parents is that of its parent and its name behind a
/// dot; under the root it is the name alone.
#[verifier::rlimit(50)]
pub proof fn law_merged_path_goes_by_names(g: GraphModel, way: Seq<usize>)
    requires
        is_way_to_the_top(g, way),
    ensures
        cycles::graph_path(g, 0) == "<root>"@,
        way.len() == 1 ==> cycles::graph_path(g, way[0]) == g[way[0] as int]->0.name,
        way.len() > 1 ==> cycles::graph_path(g, way[0]) == cycles::graph_path(g, way[1]) + seq![
            '.',
        ] + g[way[0] as int]->0.name,
{
    reveal_strlit(".");
    assert("."@ =~= seq!['.']);
    assert(0 < way[0] < g.len());
    assert(way.take(0) =~= Seq::<usize>::empty());
    lemma_names_above(g, way, 0);
    let names = names_from(g, way, 0);
    if way.len() == 1 {
        assert(names_from(g, way, 1) =~= Seq::empty());
        assert(names =~= seq![g[way[0] as int]->0.name]);
    } else {
        let rest = way.drop_first();
        assert(rest[0] == way[1]);
        assert(0 < way[1] < g.len());
        assert forall|i: int| 0 <= i < rest.len() implies 0 < #[trigger] rest[i] < g.len()
            && g[rest[i] as int] is Some by {
            assert(rest[i] == way[i + 1]);
        }
        assert forall|i: int| 0 <= i < rest.len() - 1 implies g[#[trigger] rest[i] as int]->0.parent
            == Some(rest[i + 1]) by {
            assert(rest[i] == way[i + 1]);
        }
        assert(rest.last() == way.last());
        assert forall|i: int, j: int| 0 <= i < rest.len() && 0 <= j < rest.len() && i
            != j implies rest[i] != rest[j] by {
            assert(way[i + 1] != way[j + 1]);
        }
        assert(is_way_to_the_top(g, rest));
        assert(rest.take(0) =~= Seq::<usize>::empty());
        lemma_names_above(g, rest, 0);
        lemma_names_shift(g, way, 0);
        let above = names_from(g, way, 1);
        assert(names == above.push(g[way[0] as int]->0.name));
        assert(names.drop_last() =~= above);
        assert(above.len() > 0) by {
            assert(above == names_from(g, way, 2).push(g[way[1] as int]->0.name));
        }
    }
}

// ---------------------------------------------------------------------------
// Loops
// ---------------------------------------------------------------------------

/// Whether each of some rows survives and is the child of the next.
pub open spec fn is_way_up(g: GraphModel, way: Seq<usize>) -> bool {
    forall|i: int|
        0 <= i < way.len() - 1 ==> (#[trigger] way[i]) < g.len() && g[way[i] as int] is Some
            && g[way[i] as int]->0.parent == Some(way[i + 1])
}

/// Whether the way up from a row leads back to it.
pub open spec fn is_looped(g: GraphModel, r: usize) -> bool {
    exists|way: Seq<usize>| #[trigger]
        is_way_up(g, way) && way.len() >= 2 && way[0] == r && way.last() == r
}

proof fn lemma_way(g: GraphModel, way: Seq<usize>, k: nat)
    requires
        is_way_up(g, way),
        g.len() > 0,
        g[0] is Some ==> g[0]->0.parent is None,
        k < way.len(),
    ensures
        cycles::above(g, way[0], k) == Some(way[k as int]),
    decreases k,
{
    if k > 0 {
        lemma_way(g, way, (k - 1) as nat);
        assert(way[k - 1] < g.len());
    }
}

proof fn lemma_way_back(g: GraphModel, start: usize, k: nat)
    requires
        cycles::above(g, start, k) is Some,
    ensures
        exists|way: Seq<usize>| #[trigger]
            is_way_up(g, way) && way.len() == k + 1 && way[0] == start && Some(way.last())
                == cycles::above(g, start, k),
    decreases k,
{
    if k == 0 {
        let way = seq![start];
        assert(is_way_up(g, way));
    } else {
        lemma_way_back(g, start, (k - 1) as nat);
        let way = choose|way: Seq<usize>| #[trigger]
            is_way_up(g, way) && way.len() == k && way[0] == start && Some(way.last())
                == cycles::above(g, start, (k - 1) as nat);
        let next = cycles::above(g, start, k)->0;
        let longer = way.push(next);
        assert forall|i: int| 0 <= i < longer.len() - 1 implies (#[trigger] longer[i]) < g.len()
            && g[longer[i] as int] is Some && g[longer[i] as int]->0.parent == Some(
            longer[i + 1],
        ) by {
            if i < way.len() - 1 {
                assert(longer[i] == way[i] && longer[i + 1] == way[i + 1]);
            } else {
                assert(longer[i] == way.last());
            }
        }
        assert(is_way_up(g, longer));
    }
}

/// A row is found to be in a loop just where the way up from it leads back to it.
pub proof fn law_loops_are_found(g: GraphModel, r: usize)
    requires
        g.len() > 0,
        g[0] is Some ==> g[0]->0.parent is None,
    ensures
        cycles::on_cycle(g, r) <==> is_looped(g, r),
{
    if cycles::on_cycle(g, r) {
        let k = choose|k: nat| k >= 1 && #[trigger] cycles::above(g, r, k) == Some(r);
        lemma_way_back(g, r, k);
    }
    if is_looped(g, r) {
        let way = choose|way: Seq<usize>| #[trigger]
            is_way_up(g, way) && way.len() >= 2 && way[0] == r && way.last() == r;
        lemma_way(g, way, (way.len() - 1) as nat);
    }
}

/// The conflict of a row in a loop: what it shows is the path of the parent on each side.
pub open spec fn loop_conflict(ctx: Ctx, r: int) -> ConflictModel {
    let entry = ctx.rows.entries[r];
    edit_laws::conflict_about(
        ctx,
        entry,
        ConflictKind::ParentCycle,
        None,
        match entry.base {
            Some(b) => edit_laws::path_of_row(
                ctx,
                edit_laws::parent_in(ctx, ctx.base[b as int], semantic::ValueSource::Base),
            ),
            None => None,
        },
        match entry.ours {
            Some(o) => edit_laws::path_of_row(
                ctx,
                edit_laws::parent_in(ctx, ctx.ours[o as int], semantic::ValueSource::Ours),
            ),
            None => None,
        },
        match entry.theirs {
            Some(t) => edit_laws::path_of_row(
                ctx,
                edit_laws::parent_in(ctx, ctx.theirs[t as int], semantic::ValueSource::Theirs),
            ),
            None => None,
        },
    )
}

proof fn lemma_loop_conflicts(
    ctx: Ctx,
    g: GraphModel,
    n: int,
    before: Seq<ConflictModel>,
    r: int,
)
    requires
        0 <= r < n,
        cycles::is_member(cycles::repointed(ctx, g), r),
    ensures
        cycles::cycle_conflicts(ctx, g, n, before).contains(loop_conflict(ctx, r)),
    decreases n,
{
    let c = loop_conflict(ctx, r);
    let so_far = cycles::cycle_conflicts(ctx, g, n - 1, before);
    let all = cycles::cycle_conflicts(ctx, g, n, before);
    if r == n - 1 {
        assert(all == so_far.push(c));
        assert(all[so_far.len() as int] == c);
    } else {
        lemma_loop_conflicts(ctx, g, n - 1, before, r);
        assert(all[so_far.index_of(c)] == c);
    }
}

/// A row that is in a loop once all decisions on loops are taken is in conflict, and if its
/// own loop is decided, it has the parent of that very side. But for their parents, rows
/// are left as they are; where there is no loop, these are too.
#[verifier::rlimit(50)]
pub proof fn law_loops_conflict(
    ctx: Ctx,
    g: GraphModel,
    before: Seq<ConflictModel>,
    r: int,
    side: Side,
)
    requires
        ctx.wf(),
        graph_wf::graph_wf(g),
        g.len() == ctx.rows.entries.len(),
        0 <= r < g.len(),
        g[r] is Some,
        cycles::repointed(ctx, g)[0] is Some ==> cycles::repointed(ctx, g)[0]->0.parent is None,
    ensures
        ({
            let h = cycles::repointed(ctx, g);
            let found = cycles::cycle_conflicts(ctx, g, g.len() as int, before);
            let path = edit_laws::row_path(ctx, ctx.rows.entries[r]);
            let kind = ConflictKind::ParentCycle;
            &&& h[r] is Some
            &&& h[r]->0 == (NodeModel { parent: h[r]->0.parent, ..g[r]->0 })
            &&& is_looped(h, r as usize) ==> found.contains(loop_conflict(ctx, r))
            &&& is_looped(h, r as usize) && edit_laws::is_decided(
                ctx.resolutions,
                kind,
                path,
                None,
                side,
            ) ==> h[r]->0.parent == side_parent(ctx, r, side)
            &&& edit_laws::is_open(ctx.resolutions, kind, path, None) ==> h[r]->0.parent
                == g[r]->0.parent
            &&& edit_laws::is_decided(ctx.resolutions, kind, path, None, side)
                && h[r]->0.parent != g[r]->0.parent ==> h[r]->0.parent == side_parent(
                ctx,
                r,
                side,
            )
            &&& (forall|k: usize| k < g.len() && g[k as int] is Some ==> !(#[trigger] is_looped(
                g,
                k,
            ))) && (g[0] is Some ==> g[0]->0.parent is None) ==> h == g
        }),
{
    let h = cycles::repointed(ctx, g);
    let entry = ctx.rows.entries[r];
    context::lemma_entry_wf(ctx, r);
    law_loops_are_found(h, r as usize);
    cycles::lemma_repointed(ctx, g);
    cycles::lemma_rounds_keep(ctx, g, g.len());
    assert(cycles::row_kept(ctx, g[r], cycles::rounds(ctx, g, g.len())[r], r));
    cycles::lemma_repointed_stable(ctx, g);
    assert(cycles::repointed_once(ctx, h)[r] == cycles::repointed_row(ctx, h, r));
    if is_looped(h, r as usize) {
        lemma_loop_conflicts(ctx, g, g.len() as int, before, r);
    }
    if (forall|k: usize| k < g.len() && g[k as int] is Some ==> !(#[trigger] is_looped(g, k))) && (
    g[0] is Some ==> g[0]->0.parent is None) {
        assert forall|k: int| 0 <= k < g.len() implies !(#[trigger] cycles::is_member(g, k)) by {
            law_loops_are_found(g, k as usize);
        }
        cycles::lemma_rounds_without_loops(ctx, g, g.len());
    }
}

/// The row of the parent that a row has on a side.
pub open spec fn side_parent(ctx: Ctx, r: int, side: Side) -> Option<usize> {
    let entry = ctx.rows.entries[r];
    match side {
        Side::Base => match entry.base {
            Some(b) => edit_laws::parent_in(
                ctx,
                ctx.base[b as int],
                semantic::ValueSource::Base,
            ),
            None => None,
        },
        Side::Ours => match entry.ours {
            Some(o) => edit_laws::parent_in(
                ctx,
                ctx.ours[o as int],
                semantic::ValueSource::Ours,
            ),
            None => None,
        },
        Side::Theirs => match entry.theirs {
            Some(t) => edit_laws::parent_in(
                ctx,
                ctx.theirs[t as int],
                semantic::ValueSource::Theirs,
            ),
            None => None,
        },
    }
}

// ---------------------------------------------------------------------------
// References
// ---------------------------------------------------------------------------

/// Whether a value refers to a referent: itself, or in an attribute.
pub open spec fn refers_to(v: ValueModel, referent: u128) -> bool
    decreases v,
{
    match v {
        ValueModel::Ref(r) => r == referent,
        ValueModel::Object(r) => r == referent,
        ValueModel::Attributes(list) => exists|i: int|
            0 <= i < list.len() && refers_to((#[trigger] list[i]).1, referent),
        ValueModel::Leaf(_) => false,
    }
}

proof fn lemma_refers(v: ValueModel, referent: u128)
    ensures
        references::ref_targets(v).contains(referent) <==> refers_to(v, referent),
    decreases v,
{
    match v {
        ValueModel::Ref(r) => {
            assert(references::ref_targets(v)[0] == r);
        },
        ValueModel::Object(r) => {
            assert(references::ref_targets(v)[0] == r);
        },
        ValueModel::Attributes(list) => {
            lemma_list_refers(list, referent);
        },
        ValueModel::Leaf(_) => {},
    }
}

proof fn lemma_list_refers(list: Seq<(Text, ValueModel)>, referent: u128)
    ensures
        references::list_targets(list).contains(referent) <==> exists|i: int|
            0 <= i < list.len() && refers_to((#[trigger] list[i]).1, referent),
    decreases list,
{
    if list.len() > 0 {
        let front = list.drop_last();
        lemma_list_refers(front, referent);
        lemma_refers(list.last().1, referent);
        let (a, b) = (references::list_targets(front), references::ref_targets(list.last().1));
        let all = references::list_targets(list);
        if all.contains(referent) {
            let k = all.index_of(referent);
            if k < a.len() {
                assert(a[k] == referent);
                let i = choose|i: int|
                    0 <= i < front.len() && refers_to((#[trigger] front[i]).1, referent);
                assert(refers_to(list[i].1, referent));
            } else {
                assert(b[k - a.len()] == referent);
                assert(refers_to(list[list.len() - 1].1, referent));
            }
        }
        if exists|i: int| 0 <= i < list.len() && refers_to((#[trigger] list[i]).1, referent) {
            let i = choose|i: int|
                0 <= i < list.len() && refers_to((#[trigger] list[i]).1, referent);
            if i < front.len() {
                assert(refers_to(front[i].1, referent));
                assert(all[a.index_of(referent)] == referent);
            } else {
                assert(all[a.len() + b.index_of(referent)] == referent);
            }
        }
    }
}

/// Whether a row is that of an instance with a referent on some side.
pub open spec fn is_known_as(ctx: Ctx, q: int, referent: u128) -> bool {
    let entry = ctx.rows.entries[q];
    ||| entry.base is Some && ctx.base[entry.base->0 as int].source_ref == referent
    ||| entry.ours is Some && ctx.ours[entry.ours->0 as int].source_ref == referent
    ||| entry.theirs is Some && ctx.theirs[entry.theirs->0 as int].source_ref == referent
}

/// Whether a referent is that of a row that did not survive.
pub open spec fn is_gone(ctx: Ctx, g: GraphModel, referent: u128) -> bool {
    exists|q: int| 0 <= q < g.len() && g[q] is None && #[trigger] is_known_as(ctx, q, referent)
}

proof fn lemma_gone(ctx: Ctx, g: GraphModel, n: int, referent: u128)
    requires
        0 <= n <= g.len() <= usize::MAX,
    ensures
        references::dropped(ctx, g, n).contains_key(referent) <==> exists|q: int|
            0 <= q < n && g[q] is None && #[trigger] is_known_as(ctx, q, referent),
        references::dropped(ctx, g, n).contains_key(referent) ==> is_known_as(
            ctx,
            references::dropped(ctx, g, n)[referent] as int,
            referent,
        ),
    decreases n,
{
    if n > 0 {
        lemma_gone(ctx, g, n - 1, referent);
        let before = references::dropped(ctx, g, n - 1);
        let after = references::dropped(ctx, g, n);
        if g[n - 1] is None {
            let nodes = ctx.nodes(ctx.rows.entries[n - 1]);
            assert(after.contains_key(referent) <==> before.contains_key(referent)
                || is_known_as(ctx, n - 1, referent));
            if is_known_as(ctx, n - 1, referent) {
                assert(after[referent] == (n - 1) as usize);
            }
        }
        if exists|q: int| 0 <= q < n && g[q] is None && #[trigger] is_known_as(ctx, q, referent) {
            let q = choose|q: int|
                0 <= q < n && g[q] is None && #[trigger] is_known_as(ctx, q, referent);
            if q < n - 1 {
                assert(0 <= q < n - 1 && is_known_as(ctx, q, referent));
            }
        }
    }
}

/// Whether a conflict is about a property of a row that refers to a row that is gone: it
/// names the row and the property, and the path of what it referred to.
pub open spec fn is_dangling_conflict(
    ctx: Ctx,
    g: GraphModel,
    r: int,
    key: Text,
    referent: u128,
    c: ConflictModel,
) -> bool {
    &&& c.kind is RefTarget
    &&& c.path == cycles::graph_path(g, r as usize)
    &&& c.class == g[r]->0.class
    &&& c.name == g[r]->0.name
    &&& c.property == Some(key)
    &&& c.ours is None
    &&& c.theirs is None
    &&& exists|q: int|
        0 <= q < g.len() && g[q] is None && #[trigger] is_known_as(ctx, q, referent) && c.base
            == Some("references "@ + gone_path(ctx, q) + ", which was deleted in the merge"@)
}

/// The path of a row that is gone: that of its instance in the base, else in ours, else in
/// theirs.
pub open spec fn gone_path(ctx: Ctx, q: int) -> Text {
    let entry = ctx.rows.entries[q];
    if entry.base is Some {
        semantic::dom_path(ctx.base, entry.base->0 as int)
    } else if entry.ours is Some {
        semantic::dom_path(ctx.ours, entry.ours->0 as int)
    } else {
        semantic::dom_path(ctx.theirs, entry.theirs->0 as int)
    }
}

proof fn lemma_target_reported(
    ctx: Ctx,
    g: GraphModel,
    m: Map<u128, usize>,
    r: int,
    key: Text,
    targets: Seq<u128>,
    n: int,
    before: Seq<ConflictModel>,
    k: int,
)
    requires
        0 <= k < n <= targets.len(),
        m.contains_key(targets[k]),
    ensures
        references::target_conflicts(ctx, g, m, r, key, targets, n, before).contains(
            references::dangling_conflict(ctx, g, r, key, m[targets[k]]),
        ),
    decreases n,
{
    let so_far = references::target_conflicts(ctx, g, m, r, key, targets, n - 1, before);
    let all = references::target_conflicts(ctx, g, m, r, key, targets, n, before);
    let c = references::dangling_conflict(ctx, g, r, key, m[targets[k]]);
    if k == n - 1 {
        assert(all[so_far.len() as int] == c);
    } else {
        lemma_target_reported(ctx, g, m, r, key, targets, n - 1, before, k);
        assert(all[so_far.index_of(c)] == c);
    }
}

proof fn lemma_targets_grow(
    ctx: Ctx,
    g: GraphModel,
    m: Map<u128, usize>,
    r: int,
    key: Text,
    targets: Seq<u128>,
    n: int,
    before: Seq<ConflictModel>,
    c: ConflictModel,
)
    requires
        before.contains(c),
    ensures
        references::target_conflicts(ctx, g, m, r, key, targets, n, before).contains(c),
    decreases n,
{
    if n > 0 {
        lemma_targets_grow(ctx, g, m, r, key, targets, n - 1, before, c);
        let so_far = references::target_conflicts(ctx, g, m, r, key, targets, n - 1, before);
        let all = references::target_conflicts(ctx, g, m, r, key, targets, n, before);
        assert(all[so_far.index_of(c)] == c);
    }
}

proof fn lemma_property_reported(
    ctx: Ctx,
    g: GraphModel,
    m: Map<u128, usize>,
    r: int,
    n: int,
    before: Seq<ConflictModel>,
    p: int,
    referent: u128,
)
    requires
        0 <= p < n <= g[r]->0.properties.len(),
        m.contains_key(referent),
        refers_to(g[r]->0.properties[p].1.value, referent),
        !references::ref_decided(ctx, g, r, g[r]->0.properties[p].0),
    ensures
        references::row_ref_conflicts(ctx, g, m, r, n, before).contains(
            references::dangling_conflict(ctx, g, r, g[r]->0.properties[p].0, m[referent]),
        ),
    decreases n,
{
    let so_far = references::row_ref_conflicts(ctx, g, m, r, n - 1, before);
    let (key, property) = g[r]->0.properties[n - 1];
    let targets = references::ref_targets(property.value);
    let c = references::dangling_conflict(ctx, g, r, g[r]->0.properties[p].0, m[referent]);
    if p == n - 1 {
        lemma_refers(property.value, referent);
        let k = targets.index_of(referent);
        lemma_target_reported(ctx, g, m, r, key, targets, targets.len() as int, so_far, k);
    } else {
        lemma_property_reported(ctx, g, m, r, n - 1, before, p, referent);
        if !references::ref_decided(ctx, g, r, key) {
            lemma_targets_grow(ctx, g, m, r, key, targets, targets.len() as int, so_far, c);
        }
    }
}

proof fn lemma_row_grows(
    ctx: Ctx,
    g: GraphModel,
    m: Map<u128, usize>,
    r: int,
    n: int,
    before: Seq<ConflictModel>,
    c: ConflictModel,
)
    requires
        before.contains(c),
    ensures
        references::row_ref_conflicts(ctx, g, m, r, n, before).contains(c),
    decreases n,
{
    if n > 0 {
        lemma_row_grows(ctx, g, m, r, n - 1, before, c);
        let so_far = references::row_ref_conflicts(ctx, g, m, r, n - 1, before);
        let (key, property) = g[r]->0.properties[n - 1];
        let targets = references::ref_targets(property.value);
        if !references::ref_decided(ctx, g, r, key) {
            lemma_targets_grow(ctx, g, m, r, key, targets, targets.len() as int, so_far, c);
        }
    }
}

proof fn lemma_rows_reported(
    ctx: Ctx,
    g: GraphModel,
    m: Map<u128, usize>,
    n: int,
    before: Seq<ConflictModel>,
    r: int,
    p: int,
    referent: u128,
)
    requires
        0 <= r < n <= g.len(),
        g[r] is Some,
        0 <= p < g[r]->0.properties.len(),
        m.contains_key(referent),
        refers_to(g[r]->0.properties[p].1.value, referent),
        !references::ref_decided(ctx, g, r, g[r]->0.properties[p].0),
    ensures
        references::ref_conflicts(ctx, g, m, n, before).contains(
            references::dangling_conflict(ctx, g, r, g[r]->0.properties[p].0, m[referent]),
        ),
    decreases n,
{
    let so_far = references::ref_conflicts(ctx, g, m, n - 1, before);
    let c = references::dangling_conflict(ctx, g, r, g[r]->0.properties[p].0, m[referent]);
    if r == n - 1 {
        lemma_property_reported(
            ctx,
            g,
            m,
            r,
            g[r]->0.properties.len() as int,
            so_far,
            p,
            referent,
        );
    } else {
        lemma_rows_reported(ctx, g, m, n - 1, before, r, p, referent);
        if g[n - 1] is Some {
            lemma_row_grows(ctx, g, m, n - 1, g[n - 1]->0.properties.len() as int, so_far, c);
        }
    }
}

/// A property that refers to a row that is gone is in conflict; once this is decided, for
/// whichever side, the row has the property no more. A property that refers to no such row
/// stays as it is.
#[verifier::rlimit(50)]
pub proof fn law_dangling_references_conflict(
    ctx: Ctx,
    g: GraphModel,
    before: Seq<ConflictModel>,
    r: int,
    p: int,
    referent: u128,
    side: Side,
)
    requires
        ctx.wf(),
        graph_wf::graph_wf(g),
        g.len() == ctx.rows.entries.len(),
        0 <= r < g.len(),
        g[r] is Some,
        0 <= p < g[r]->0.properties.len(),
    ensures
        ({
            let (key, property) = g[r]->0.properties[p];
            let path = cycles::graph_path(g, r as usize);
            let kind = ConflictKind::RefTarget;
            let m = references::dropped(ctx, g, g.len() as int);
            let found = references::ref_conflicts(ctx, g, m, g.len() as int, before);
            let row = references::unlinked(ctx, g)[r];
            let dangling = refers_to(property.value, referent) && is_gone(ctx, g, referent);
            &&& row is Some
            &&& row->0 == (NodeModel { properties: row->0.properties, ..g[r]->0 })
            &&& dangling && edit_laws::is_open(ctx.resolutions, kind, path, Some(key))
                ==> exists|c: ConflictModel| #[trigger]
                found.contains(c) && is_dangling_conflict(ctx, g, r, key, referent, c)
            &&& dangling && edit_laws::is_decided(ctx.resolutions, kind, path, Some(key), side)
                ==> keyed::lookup(row->0.properties, key) is None
            &&& (forall|t: u128| #[trigger]
                refers_to(property.value, t) ==> !is_gone(ctx, g, t)) || edit_laws::is_open(
                ctx.resolutions,
                kind,
                path,
                Some(key),
            ) ==> keyed::lookup(row->0.properties, key) == Some(property)
        }),
{
    let n = g.len() as int;
    let (key, property) = g[r]->0.properties[p];
    let path = cycles::graph_path(g, r as usize);
    let kind = ConflictKind::RefTarget;
    let m = references::dropped(ctx, g, n);
    let list = g[r]->0.properties;
    let keep = references::kept_properties(ctx, g, m, r);
    let row = references::unlinked(ctx, g)[r];
    assert(row->0.properties == graph::retained(list, keep));
    lemma_gone(ctx, g, n, referent);
    lemma_refers(property.value, referent);
    let targets = references::ref_targets(property.value);
    if refers_to(property.value, referent) && is_gone(ctx, g, referent) {
        assert(m.contains_key(targets[targets.index_of(referent)]));
        assert(references::dangles(m, property.value));
        if edit_laws::is_open(ctx.resolutions, kind, path, Some(key)) {
            lemma_rows_reported(ctx, g, m, n, before, r, p, referent);
            let q = m[referent] as int;
            references::lemma_dropped(ctx, g, n, referent);
            context::lemma_entry_wf(ctx, q);
            let c = references::dangling_conflict(ctx, g, r, key, m[referent]);
            assert(is_known_as(ctx, q, referent));
            assert(is_dangling_conflict(ctx, g, r, key, referent, c));
        }
        if edit_laws::is_decided(ctx.resolutions, kind, path, Some(key), side) {
            assert(!keep[p]);
            lemma_dropped_property(list, keep, p);
        }
    }
    if (forall|t: u128| #[trigger] refers_to(property.value, t) ==> !is_gone(ctx, g, t))
        || edit_laws::is_open(ctx.resolutions, kind, path, Some(key)) {
        if references::dangles(m, property.value) {
            let i = choose|i: int|
                0 <= i < targets.len() && m.contains_key(#[trigger] targets[i]);
            lemma_refers(property.value, targets[i]);
            assert(targets.contains(targets[i]));
            lemma_gone(ctx, g, n, targets[i]);
        }
        assert(keep[p]);
        edit_laws::lemma_lookup_retained(list, keep, key);
    }
}

/// A property that is not kept is not there any more.
proof fn lemma_dropped_property(
    list: Seq<(Text, PropertyModel)>,
    keep: Seq<bool>,
    p: int,
)
    requires
        graph_wf::properties_wf(list),
        keep.len() == list.len(),
        0 <= p < list.len(),
        !keep[p],
    ensures
        keyed::lookup(graph::retained(list, keep), list[p].0) is None,
{
    graph_wf::lemma_retained(list, keep);
    let after = graph::retained(list, keep);
    if keyed::lookup(after, list[p].0) is Some {
        let j = keyed::lemma_lookup_some(after, list[p].0);
        assert(graph_wf::is_kept(list, keep, after[j]));
        let i = choose|i: int| 0 <= i < list.len() && keep[i] && #[trigger] list[i] == after[j];
        assert(list[i].0 == list[p].0);
        text::lemma_text_lt_irreflexive(list[p].0);
        if i < p {
            assert(text::text_lt(list[i].0, list[p].0));
        } else {
            assert(text::text_lt(list[p].0, list[i].0));
        }
    }
}

proof fn lemma_row_remarked(
    ctx: Ctx,
    g: GraphModel,
    m: Map<u128, usize>,
    r: int,
    n: int,
    p: int,
    d: DiagnosticModel,
)
    requires
        0 <= p < n,
        references::lost_reference(
            ctx,
            g,
            m,
            r,
            ctx.base[ctx.rows.entries[r].base->0 as int].properties[p],
        ) == Some(d),
    ensures
        references::row_lost_references(ctx, g, m, r, n).contains(d),
    decreases n,
{
    let so_far = references::row_lost_references(ctx, g, m, r, n - 1);
    let all = references::row_lost_references(ctx, g, m, r, n);
    if p == n - 1 {
        assert(all[so_far.len() as int] == d);
    } else {
        lemma_row_remarked(ctx, g, m, r, n - 1, p, d);
        assert(all[so_far.index_of(d)] == d);
    }
}

proof fn lemma_rows_remarked(
    ctx: Ctx,
    g: GraphModel,
    m: Map<u128, usize>,
    n: int,
    r: int,
    p: int,
    d: DiagnosticModel,
)
    requires
        0 <= r < n,
        g[r] is Some,
        ctx.rows.entries[r].base is Some,
        0 <= p < ctx.base[ctx.rows.entries[r].base->0 as int].properties.len(),
        references::lost_reference(
            ctx,
            g,
            m,
            r,
            ctx.base[ctx.rows.entries[r].base->0 as int].properties[p],
        ) == Some(d),
    ensures
        references::lost_references(ctx, g, m, n).contains(d),
    decreases n,
{
    let so_far = references::lost_references(ctx, g, m, n - 1);
    let all = references::lost_references(ctx, g, m, n);
    if r == n - 1 {
        let count = ctx.base[ctx.rows.entries[r].base->0 as int].properties.len() as int;
        let row = references::row_lost_references(ctx, g, m, r, count);
        lemma_row_remarked(ctx, g, m, r, count, p, d);
        assert(all[so_far.len() + row.index_of(d)] == d);
    } else {
        lemma_rows_remarked(ctx, g, m, n - 1, r, p, d);
        assert(all[so_far.index_of(d)] == d);
    }
}

/// A reference that an instance had in the base to a row that is gone, and that its row has
/// no more, is remarked on: with the path of the row, the name of the property, and the path
/// of what is gone.
#[verifier::rlimit(50)]
pub proof fn law_lost_references_are_remarked_on(
    ctx: Ctx,
    g: GraphModel,
    r: int,
    p: int,
    referent: u128,
)
    requires
        ctx.wf(),
        g.len() == ctx.rows.entries.len(),
        g.len() <= usize::MAX,
        0 <= r < g.len(),
        g[r] is Some,
        ctx.rows.entries[r].base is Some,
        0 <= p < ctx.base[ctx.rows.entries[r].base->0 as int].properties.len(),
        referent != 0,
        ({
            let (key, v) = ctx.base[ctx.rows.entries[r].base->0 as int].properties[p];
            &&& v == ValueModel::Ref(referent) || v == ValueModel::Object(referent)
            &&& keyed::lookup(g[r]->0.properties, key) matches Some(q) ==> q.value is Leaf
                || q.value is Attributes || q.value == ValueModel::Ref(0)
        }),
        is_gone(ctx, g, referent),
    ensures
        exists|d: DiagnosticModel, q: int|
            {
                let (key, v) = ctx.base[ctx.rows.entries[r].base->0 as int].properties[p];
                &&& #[trigger] references::lost_references(
                    ctx,
                    g,
                    references::dropped(ctx, g, g.len() as int),
                    g.len() as int,
                ).contains(d)
                &&& 0 <= q < g.len() && g[q] is None && #[trigger] is_known_as(ctx, q, referent)
                &&& d.severity is Warning
                &&& d.path == Some(cycles::graph_path(g, r as usize))
                &&& d.message == "reference "@ + text::quoted(key)
                    + " was dropped to nil because its target "@ + gone_path(ctx, q)
                    + " was deleted in the merge"@
            },
{
    let n = g.len() as int;
    let m = references::dropped(ctx, g, n);
    let property = ctx.base[ctx.rows.entries[r].base->0 as int].properties[p];
    lemma_gone(ctx, g, n, referent);
    references::lemma_dropped(ctx, g, n, referent);
    let q = m[referent] as int;
    context::lemma_entry_wf(ctx, q);
    let d = references::lost_reference(ctx, g, m, r, property)->0;
    lemma_rows_remarked(ctx, g, m, n, r, p, d);
    assert(is_known_as(ctx, q, referent));
}

} // verus!
