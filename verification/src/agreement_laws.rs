//! What the merge makes of files of which one side prevails: that side.

use vstd::prelude::*;

use crate::agreement;
use crate::child_order;
use crate::collisions;
use crate::conflict::ConflictModel;
use crate::context;
use crate::context::Ctx;
use crate::cycles;
use crate::dom;
use crate::graph;
use crate::graph::GraphModel;
use crate::graph_wf;
use crate::identity;
use crate::identity::MergeEntry;
use crate::keyed;
use crate::matching;
use crate::merging;
use crate::properties;
use crate::properties::PropertyModel;
use crate::references;
use crate::resolve::Side;
use crate::rows;
use crate::semantic;
use crate::semantic::{InstanceModel, ValueSource};
use crate::text::Text;
use crate::three_way;
use crate::tree;
use crate::value;
use crate::value::ValueModel;

verus! {

// ---------------------------------------------------------------------------
// Rows
// ---------------------------------------------------------------------------

/// Where a side prevails, it does for every property but the unique id.
proof fn lemma_row_values(ctx: Ctx, r: int, key: Text, w: Side)
    requires
        agreement::prevails(ctx, w),
        0 <= r < ctx.rows.entries.len(),
        key != dom::unique_id_key(),
    ensures
        agreement::value_prevails(
            ctx,
            properties::row_values(ctx, ctx.rows.entries[r], key),
            w,
        ),
{
    let entry = ctx.rows.entries[r];
    let nodes = ctx.nodes(entry);
    let (x, y) = if w == Side::Theirs {
        (Side::Ours, Side::Base)
    } else if agreement::agree(ctx, Side::Theirs, Side::Base) {
        (Side::Theirs, Side::Base)
    } else {
        (Side::Ours, Side::Theirs)
    };
    if let (Some(a), Some(b)) = (nodes.of(x), nodes.of(y)) {
        assert(agreement::alike(ctx, a, x, b, y));
        assert(agreement::same_value(
            ctx,
            keyed::lookup(a.properties, key),
            x,
            keyed::lookup(b.properties, key),
            y,
        ));
    }
}

/// No property of a row is in conflict where a side prevails.
proof fn lemma_no_property_conflict(ctx: Ctx, r: int, keys: Seq<Text>, w: Side)
    requires
        agreement::prevails(ctx, w),
        0 <= r < ctx.rows.entries.len(),
    ensures
        properties::row_conflicts(ctx, ctx.rows.entries[r], keys, Seq::empty())
            == Seq::<ConflictModel>::empty(),
    decreases keys.len(),
{
    if keys.len() > 0 {
        let key = keys.last();
        let values = properties::row_values(ctx, ctx.rows.entries[r], key);
        lemma_no_property_conflict(ctx, r, keys.drop_last(), w);
        if key == dom::unique_id_key() {
            agreement::law_unique_ids_never_conflict(ctx, values);
        } else {
            lemma_row_values(ctx, r, key, w);
            agreement::lemma_prevailing_value(ctx, key, values, w);
        }
    }
}

/// What a row gets under a name.
pub proof fn lemma_lookup_row_property(ctx: Ctx, entry: MergeEntry, keys: Seq<Text>, key: Text)
    ensures
        keyed::lookup(properties::row_properties(ctx, entry, keys), key) == (if keys.contains(key) {
            properties::row_property(ctx, entry, key)
        } else {
            None
        }),
    decreases keys.len(),
{
    if keys.len() > 0 {
        let rest = keys.drop_last();
        let before = properties::row_properties(ctx, entry, rest);
        lemma_lookup_row_property(ctx, entry, rest, key);
        if rest.contains(key) {
            assert(keys[rest.index_of(key)] == key);
        } else if keys.contains(key) {
            let i = keys.index_of(key);
            if i < rest.len() {
                assert(rest[i] == key);
            }
        }
        assert(keys[keys.len() - 1] == keys.last());
        if let Some(p) = properties::row_property(ctx, entry, keys.last()) {
            agreement::lemma_lookup_push(before, keys.last(), p, key);
        }
    }
}

proof fn lemma_node_named(node: Option<InstanceModel>, key: Text)
    ensures
        properties::property_of(node, key) is Some ==> properties::node_keys(node).contains(key),
{
    if let Some(n) = node {
        if keyed::lookup(n.properties, key) is Some {
            let i = keyed::lemma_lookup_some(n.properties, key);
            assert(keyed::keys_of(n.properties)[i] == key);
        }
    }
}

/// A name under which no side has a value is not among the names of a row.
pub proof fn lemma_row_named(ctx: Ctx, entry: MergeEntry, key: Text)
    ensures
        !properties::row_keys(ctx, entry).contains(key) ==> {
            let values = properties::row_values(ctx, entry, key);
            values.base is None && values.ours is None && values.theirs is None
        },
{
    let nodes = ctx.nodes(entry);
    let a = properties::node_keys(nodes.base);
    let b = properties::node_keys(nodes.ours);
    let c = properties::node_keys(nodes.theirs);
    lemma_node_named(nodes.base, key);
    lemma_node_named(nodes.ours, key);
    lemma_node_named(nodes.theirs, key);
    keyed::lemma_key_union_contains(a, b, key);
    keyed::lemma_key_union_contains(keyed::key_union(a, b), c, key);
}

/// The merged properties of a row are those of a side, but for the unique id.
pub open spec fn properties_reflect(
    ctx: Ctx,
    w: Side,
    list: Seq<(Text, PropertyModel)>,
    node: InstanceModel,
) -> bool {
    forall|key: Text|
        key != dom::unique_id_key() ==> agreement::property_reflects(
            ctx,
            w,
            #[trigger] keyed::lookup(list, key),
            keyed::lookup(node.properties, key),
        )
}

/// The unique id of a row, if it has one, is that of one of its instances.
pub open spec fn id_is_inherited(
    ctx: Ctx,
    entry: MergeEntry,
    list: Seq<(Text, PropertyModel)>,
) -> bool {
    keyed::lookup(list, dom::unique_id_key()) matches Some(p) ==> exists|side: Side|
        #[trigger] properties::row_values(ctx, entry, dom::unique_id_key()).of(side) == Some(
            p.value,
        )
}

/// A row where a side prevails: it survives if that side has it, it is as that side
/// has it, and nothing about it is in conflict.
proof fn lemma_row(ctx: Ctx, r: int, w: Side)
    requires
        ctx.wf(),
        agreement::prevails(ctx, w),
        0 <= r < ctx.rows.entries.len(),
    ensures
        ({
            let entry = ctx.rows.entries[r];
            let node = ctx.nodes(entry).of(w);
            let draft = graph::draft(ctx, entry);
            &&& graph::entry_conflicts(ctx, entry, Seq::empty()) == Seq::<ConflictModel>::empty()
            &&& draft is Some <==> node is Some
            &&& draft is Some ==> {
                &&& draft->0.class == node->0.class
                &&& draft->0.name == node->0.name
                &&& draft->0.parent == ctx.parents(entry).of(w)
                &&& properties_reflect(ctx, w, draft->0.properties, node->0)
                &&& id_is_inherited(ctx, entry, draft->0.properties)
            }
        }),
{
    let entry = ctx.rows.entries[r];
    let nodes = ctx.nodes(entry);
    let keys = properties::row_keys(ctx, entry);
    context::lemma_entry_wf(ctx, r);
    lemma_no_property_conflict(ctx, r, keys, w);
    assert(!rows::delete_modify(ctx, entry));
    if rows::decision(ctx, entry) is Merge {
        let list = properties::row_properties(ctx, entry, keys);
        assert forall|key: Text| key != dom::unique_id_key() implies agreement::property_reflects(
            ctx,
            w,
            #[trigger] keyed::lookup(list, key),
            properties::property_of(nodes.of(w), key),
        ) by {
            let values = properties::row_values(ctx, entry, key);
            lemma_lookup_row_property(ctx, entry, keys, key);
            lemma_row_named(ctx, entry, key);
            lemma_row_values(ctx, r, key, w);
            agreement::lemma_prevailing_value(ctx, key, values, w);
            assert(values.of(w) == properties::property_of(nodes.of(w), key));
        }
        let key = dom::unique_id_key();
        lemma_lookup_row_property(ctx, entry, keys, key);
        agreement::law_unique_ids_never_conflict(ctx, properties::row_values(ctx, entry, key));
        assert(id_is_inherited(ctx, entry, list));
    }
}

// ---------------------------------------------------------------------------
// Graphs
// ---------------------------------------------------------------------------

/// A row as a side has it.
pub open spec fn row_mirrors(ctx: Ctx, g: GraphModel, w: Side, r: int) -> bool {
    let entry = ctx.rows.entries[r];
    let node = ctx.nodes(entry).of(w);
    &&& g[r] is Some <==> node is Some
    &&& g[r] is Some ==> {
        &&& g[r]->0.class == node->0.class
        &&& g[r]->0.name == node->0.name
        &&& g[r]->0.parent == ctx.parents(entry).of(w)
        &&& properties_reflect(ctx, w, g[r]->0.properties, node->0)
        &&& id_is_inherited(ctx, entry, g[r]->0.properties)
    }
}

/// A graph whose rows are as a side has them.
pub open spec fn mirrors(ctx: Ctx, g: GraphModel, w: Side) -> bool {
    &&& g.len() == ctx.rows.entries.len()
    &&& forall|r: int| 0 <= r < g.len() ==> #[trigger] row_mirrors(ctx, g, w, r)
}

/// The referent of the instance that a row has on a side.
pub open spec fn ref_at(ctx: Ctx, r: int, x: Side) -> Option<u128> {
    match ctx.nodes(ctx.rows.entries[r]).of(x) {
        Some(node) => Some(node.source_ref),
        None => None,
    }
}

/// The unique id of the instance that a row has on a side.
pub open spec fn id_at(ctx: Ctx, r: int, x: Side) -> Option<u128> {
    match ctx.nodes(ctx.rows.entries[r]).of(x) {
        Some(node) => semantic::node_unique_id(node),
        None => None,
    }
}

/// Instances of different rows have different referents, none of which is nil.
pub open spec fn refs_apart(ctx: Ctx) -> bool {
    forall|r: int, x: Side, s: int, y: Side|
        0 <= r < ctx.rows.entries.len() && 0 <= s < ctx.rows.entries.len() && (#[trigger] ref_at(
            ctx,
            r,
            x,
        )) is Some && ref_at(ctx, r, x) == (#[trigger] ref_at(ctx, s, y)) ==> r == s && ref_at(
            ctx,
            r,
            x,
        ) != Some(0u128)
}

/// Instances of different rows have different unique ids.
pub open spec fn ids_apart(ctx: Ctx) -> bool {
    forall|r: int, x: Side, s: int, y: Side|
        0 <= r < ctx.rows.entries.len() && 0 <= s < ctx.rows.entries.len() && (#[trigger] id_at(
            ctx,
            r,
            x,
        )) is Some && id_at(ctx, r, x) == (#[trigger] id_at(ctx, s, y)) ==> r == s
}

/// Whether a referent is nil or leads to an instance of the file of a side.
pub open spec fn leads(ctx: Ctx, w: Side, t: u128) -> bool {
    t == 0 || ctx.target(three_way::source_of_side(w), t) is Some
}

/// Every reference of a side is nil or leads to an instance of its file.
pub open spec fn closed(ctx: Ctx, w: Side) -> bool {
    forall|r: int, key: Text, i: int|
        0 <= r < ctx.rows.entries.len() ==> {
            let v = properties::property_of(ctx.nodes(ctx.rows.entries[r]).of(w), key);
            v is Some && 0 <= i < references::ref_targets(v->0).len() ==> leads(
                ctx,
                w,
                #[trigger] references::ref_targets(
                    properties::property_of(ctx.nodes(ctx.rows.entries[r]).of(w), key)->0,
                )[i],
            )
        }
}

/// What stands under the name of the unique id is no reference.
pub open spec fn ids_are_plain(ctx: Ctx) -> bool {
    forall|r: int, x: Side|
        0 <= r < ctx.rows.entries.len() ==> {
            let v = #[trigger] properties::row_values(
                ctx,
                ctx.rows.entries[r],
                dom::unique_id_key(),
            ).of(x);
            v is Some ==> references::ref_targets(v->0).len() == 0
        }
}

/// What is asked of the files besides: references lead to instances, and neither
/// referents nor unique ids are shared by instances that are not one.
pub open spec fn regular(ctx: Ctx, w: Side) -> bool {
    &&& refs_apart(ctx)
    &&& ids_apart(ctx)
    &&& ids_are_plain(ctx)
    &&& closed(ctx, w)
}

/// The rows of a merge in which a side prevails are as that side has them.
proof fn lemma_mirrors(ctx: Ctx, g: GraphModel, w: Side)
    requires
        ctx.wf(),
        agreement::prevails(ctx, w),
        merging::is_merged_graph(ctx, g),
    ensures
        mirrors(ctx, g, w),
{
    assert forall|r: int| 0 <= r < g.len() implies #[trigger] row_mirrors(ctx, g, w, r) by {
        lemma_row(ctx, r, w);
        assert(match g[r] {
            Some(node) => graph::draft(ctx, ctx.rows.entries[r]) is Some,
            None => graph::draft(ctx, ctx.rows.entries[r]) is None,
        });
    }
}

proof fn lemma_no_row_conflict(ctx: Ctx, n: int, w: Side)
    requires
        ctx.wf(),
        agreement::prevails(ctx, w),
        0 <= n <= ctx.rows.entries.len(),
    ensures
        graph::rows_conflicts(ctx, n, Seq::empty()) == Seq::<ConflictModel>::empty(),
    decreases n,
{
    if n > 0 {
        lemma_no_row_conflict(ctx, n - 1, w);
        lemma_row(ctx, n - 1, w);
    }
}

// --- loops ------------------------------------------------------------------

/// The place of a row in the file of a side.
pub open spec fn place(ctx: Ctx, w: Side, r: int) -> int {
    let entry = ctx.rows.entries[r];
    match w {
        Side::Base => entry.base->0 as int,
        Side::Ours => entry.ours->0 as int,
        Side::Theirs => entry.theirs->0 as int,
    }
}

/// The parent of a row stands before it in the file.
pub proof fn lemma_parent_before(ctx: Ctx, r: int, w: Side)
    requires
        ctx.wf(),
        0 <= r < ctx.rows.entries.len(),
        ctx.nodes(ctx.rows.entries[r]).of(w) is Some,
        ctx.parents(ctx.rows.entries[r]).of(w) is Some,
    ensures
        ({
            let p = ctx.parents(ctx.rows.entries[r]).of(w)->0;
            &&& p < ctx.rows.entries.len()
            &&& ctx.nodes(ctx.rows.entries[p as int]).of(w) is Some
            &&& place(ctx, w, p as int) < place(ctx, w, r)
        }),
{
    let entry = ctx.rows.entries[r];
    context::lemma_entry_wf(ctx, r);
    let (d, source) = match w {
        Side::Base => (ctx.base, ValueSource::Base),
        Side::Ours => (ctx.ours, ValueSource::Ours),
        Side::Theirs => (ctx.theirs, ValueSource::Theirs),
    };
    let i = place(ctx, w, r);
    if i > 0 {
        matching::lemma_is_child(d, i);
    }
    let q = d[i].parent->0;
    match w {
        Side::Base => {
            assert(ctx.rows.entries[q as int].base == Some(q));
        },
        Side::Ours => {
            assert(ctx.rows.entries[ctx.rows.ours_rows[q as int] as int].ours == Some(q));
        },
        Side::Theirs => {
            assert(ctx.rows.entries[ctx.rows.theirs_rows[q as int] as int].theirs == Some(q));
        },
    }
}

/// The way up goes to the front of the file.
proof fn lemma_above_before(ctx: Ctx, g: GraphModel, w: Side, r: usize, k: nat)
    requires
        ctx.wf(),
        mirrors(ctx, g, w),
        r < g.len(),
        g[r as int] is Some,
    ensures
        cycles::above(g, r, k) matches Some(x) ==> x < g.len() && g[x as int] is Some && place(
            ctx,
            w,
            x as int,
        ) + k <= place(ctx, w, r as int),
    decreases k,
{
    assert(row_mirrors(ctx, g, w, r as int));
    if k > 0 {
        lemma_above_before(ctx, g, w, r, (k - 1) as nat);
        if let Some(y) = cycles::above(g, r, (k - 1) as nat) {
            assert(row_mirrors(ctx, g, w, y as int));
            if let Some(x) = cycles::up(g, y) {
                lemma_parent_before(ctx, y as int, w);
                assert(row_mirrors(ctx, g, w, x as int));
            }
        }
    }
}

proof fn lemma_no_loops(ctx: Ctx, g: GraphModel, w: Side, n: int)
    requires
        ctx.wf(),
        mirrors(ctx, g, w),
        0 <= n <= g.len(),
        g.len() <= usize::MAX,
    ensures
        cycles::repointed(ctx, g) == g,
        cycles::cycle_conflicts(ctx, g, n, Seq::empty()) == Seq::<ConflictModel>::empty(),
    decreases n,
{
    assert forall|r: int| 0 <= r < g.len() implies !(#[trigger] cycles::is_member(g, r)) by {
        if cycles::is_member(g, r) {
            let k = choose|k: nat|
                k >= 1 && #[trigger] cycles::above(g, r as usize, k) == Some(r as usize);
            lemma_above_before(ctx, g, w, r as usize, k);
        }
    }
    cycles::lemma_repointed_unchanged(ctx, g);
    if n > 0 {
        lemma_no_loops(ctx, g, w, n - 1);
        assert(!cycles::is_member(g, n - 1));
    }
}

// --- unique ids -------------------------------------------------------------

/// The unique id of a row is that of one of its instances.
proof fn lemma_row_id(ctx: Ctx, g: GraphModel, w: Side, r: int)
    requires
        mirrors(ctx, g, w),
        0 <= r < g.len(),
        collisions::row_unique_id(g[r]) is Some,
    ensures
        exists|x: Side| #[trigger] id_at(ctx, r, x) == collisions::row_unique_id(g[r]),
{
    let key = dom::unique_id_key();
    let entry = ctx.rows.entries[r];
    assert(row_mirrors(ctx, g, w, r));
    let p = keyed::lookup(g[r]->0.properties, key)->0;
    let x = choose|side: Side|
        #[trigger] properties::row_values(ctx, entry, key).of(side) == Some(p.value);
    assert(id_at(ctx, r, x) == collisions::row_unique_id(g[r]));
}

pub proof fn lemma_holder(g: GraphModel, id: u128, n: int)
    requires
        collisions::first_holder(g, id, n) is Some,
        n <= usize::MAX,
    ensures
        collisions::first_holder(g, id, n)->0 < n,
        collisions::row_unique_id(g[collisions::first_holder(g, id, n)->0 as int]) == Some(id),
    decreases n,
{
    if n > 0 && collisions::first_holder(g, id, n - 1) is Some {
        lemma_holder(g, id, n - 1);
    }
}

proof fn lemma_no_collision(ctx: Ctx, g: GraphModel, w: Side, r: int)
    requires
        mirrors(ctx, g, w),
        ids_apart(ctx),
        0 <= r < g.len() <= usize::MAX,
    ensures
        collisions::collides_with(g, r) is None,
{
    if collisions::collides_with(g, r) is Some {
        let id = collisions::row_unique_id(g[r])->0;
        let s = collisions::collides_with(g, r)->0 as int;
        lemma_holder(g, id, r);
        lemma_row_id(ctx, g, w, r);
        lemma_row_id(ctx, g, w, s);
        let x = choose|x: Side| #[trigger] id_at(ctx, r, x) == collisions::row_unique_id(g[r]);
        let y = choose|y: Side| #[trigger] id_at(ctx, s, y) == collisions::row_unique_id(g[s]);
        assert(id_at(ctx, r, x) == id_at(ctx, s, y));
    }
}

proof fn lemma_no_collisions(ctx: Ctx, g: GraphModel, w: Side, n: int)
    requires
        mirrors(ctx, g, w),
        ids_apart(ctx),
        0 <= n <= g.len() <= usize::MAX,
    ensures
        collisions::cleared(ctx.resolutions, g) == g,
        collisions::collision_conflicts(ctx.resolutions, g, n, Seq::empty())
            == Seq::<ConflictModel>::empty(),
    decreases n,
{
    assert forall|r: int| 0 <= r < g.len() implies collisions::cleared_row(
        ctx.resolutions,
        g,
        r,
    ) == #[trigger] g[r] by {
        lemma_no_collision(ctx, g, w, r);
    }
    assert(collisions::cleared(ctx.resolutions, g) =~= g);
    if n > 0 {
        lemma_no_collisions(ctx, g, w, n - 1);
        lemma_no_collision(ctx, g, w, n - 1);
    }
}

// --- references -------------------------------------------------------------

/// Whether a referent of one side is the same reference as one of side `w`.
spec fn follows(ctx: Ctx, w: Side, t: u128, u: u128) -> bool {
    t == u || exists|s: Side| #[trigger]
        ctx.ref_equal(t, three_way::source_of_side(s), u, three_way::source_of_side(w))
}

/// Whether a referent follows one that a value holds.
spec fn traced(ctx: Ctx, w: Side, t: u128, v: ValueModel) -> bool {
    exists|j: int|
        0 <= j < references::ref_targets(v).len() && follows(
            ctx,
            w,
            t,
            #[trigger] references::ref_targets(v)[j],
        )
}

/// The referents of an entry are among those of the list.
proof fn lemma_entry_targets(list: Seq<(Text, ValueModel)>, i: int, u: u128)
    requires
        0 <= i < list.len(),
        references::ref_targets(list[i].1).contains(u),
    ensures
        references::list_targets(list).contains(u),
    decreases list.len(),
{
    let rest = list.drop_last();
    let a = references::list_targets(rest);
    let b = references::ref_targets(list.last().1);
    let whole = references::list_targets(list);
    assert(whole == a + b);
    if i < rest.len() {
        assert(rest[i] == list[i]);
        lemma_entry_targets(rest, i, u);
        assert(whole[a.index_of(u)] == u);
    } else {
        assert(whole[a.len() + b.index_of(u)] == u);
    }
}

/// The referents of a list are those of its entries.
proof fn lemma_list_source(list: Seq<(Text, ValueModel)>, u: u128) -> (i: int)
    requires
        references::list_targets(list).contains(u),
    ensures
        0 <= i < list.len(),
        references::ref_targets(list[i].1).contains(u),
    decreases list.len(),
{
    let rest = list.drop_last();
    let a = references::list_targets(rest);
    let b = references::ref_targets(list.last().1);
    let whole = references::list_targets(list);
    assert(whole == a + b);
    let k = whole.index_of(u);
    if k < a.len() {
        assert(a[k] == u);
        let i = lemma_list_source(rest, u);
        assert(rest[i] == list[i]);
        i
    } else {
        assert(b[k - a.len()] == u);
        list.len() - 1
    }
}

/// Equal values hold the same references, in the same order.
pub proof fn lemma_equal_targets(
    ctx: Ctx,
    a: ValueModel,
    s: ValueSource,
    b: ValueModel,
    t: ValueSource,
)
    requires
        ctx.value_equal(a, s, b, t),
    ensures
        references::ref_targets(a).len() == references::ref_targets(b).len(),
        forall|i: int|
            0 <= i < references::ref_targets(a).len() ==> ctx.ref_equal(
                #[trigger] references::ref_targets(a)[i],
                s,
                references::ref_targets(b)[i],
                t,
            ),
    decreases value::height(a), 1int, 0int,
{
    match (a, b) {
        (ValueModel::Attributes(x), ValueModel::Attributes(y)) => {
            assert(x.take(x.len() as int) =~= x);
            assert(y.take(x.len() as int) =~= y);
            lemma_equal_list_targets(ctx, x, s, y, t, x.len() as int);
        },
        _ => {},
    }
}

proof fn lemma_equal_list_targets(
    ctx: Ctx,
    x: Seq<(Text, ValueModel)>,
    s: ValueSource,
    y: Seq<(Text, ValueModel)>,
    t: ValueSource,
    n: int,
)
    requires
        ctx.value_equal(ValueModel::Attributes(x), s, ValueModel::Attributes(y), t),
        0 <= n <= x.len(),
    ensures
        references::list_targets(x.take(n)).len() == references::list_targets(y.take(n)).len(),
        forall|i: int|
            0 <= i < references::list_targets(x.take(n)).len() ==> ctx.ref_equal(
                #[trigger] references::list_targets(x.take(n))[i],
                s,
                references::list_targets(y.take(n))[i],
                t,
            ),
    decreases value::height(ValueModel::Attributes(x)), 0int, n,
{
    if n > 0 {
        lemma_equal_list_targets(ctx, x, s, y, t, n - 1);
        assert(x.take(n).drop_last() =~= x.take(n - 1));
        assert(y.take(n).drop_last() =~= y.take(n - 1));
        assert(x[n - 1].0 == y[n - 1].0);
        value::lemma_height(x, n - 1);
        lemma_equal_targets(ctx, x[n - 1].1, s, y[n - 1].1, t);
        let a = references::list_targets(x.take(n - 1));
        let b = references::list_targets(y.take(n - 1));
        let c = references::ref_targets(x[n - 1].1);
        let d = references::ref_targets(y[n - 1].1);
        assert(references::list_targets(x.take(n)) == a + c);
        assert(references::list_targets(y.take(n)) == b + d);
        assert forall|i: int| 0 <= i < (a + c).len() implies ctx.ref_equal(
            #[trigger] (a + c)[i],
            s,
            (b + d)[i],
            t,
        ) by {
            if i < a.len() {
                assert(ctx.ref_equal(a[i], s, b[i], t));
            } else {
                assert(ctx.ref_equal(c[i - a.len()], s, d[i - a.len()], t));
            }
        }
    }
}

/// Every reference of a value that counts as another is one of the other's.
proof fn lemma_counted_target(ctx: Ctx, w: Side, s: Side, m: ValueModel, v: ValueModel, t: u128)
    requires
        agreement::counts_as(
            ctx,
            m,
            three_way::source_of_side(s),
            v,
            three_way::source_of_side(w),
        ),
        references::ref_targets(m).contains(t),
    ensures
        traced(ctx, w, t, v),
{
    let (a, b) = (three_way::source_of_side(s), three_way::source_of_side(w));
    let i = references::ref_targets(m).index_of(t);
    if ctx.value_equal(m, a, v, b) {
        lemma_equal_targets(ctx, m, a, v, b);
        assert(ctx.ref_equal(references::ref_targets(m)[i], a, references::ref_targets(v)[i], b));
        assert(follows(ctx, w, t, references::ref_targets(v)[i]));
    } else if ctx.value_equal(v, b, m, a) {
        lemma_equal_targets(ctx, v, b, m, a);
        assert(ctx.ref_equal(references::ref_targets(v)[i], b, references::ref_targets(m)[i], a));
        assert(ctx.ref_equal(t, a, references::ref_targets(v)[i], b));
        assert(follows(ctx, w, t, references::ref_targets(v)[i]));
    } else {
        assert(follows(ctx, w, t, references::ref_targets(v)[i]));
    }
}

/// Every reference of a merged value is one of the side that prevails.
proof fn lemma_reflected_target(
    ctx: Ctx,
    w: Side,
    m: Option<ValueModel>,
    v: Option<ValueModel>,
    t: u128,
)
    requires
        agreement::reflects(ctx, w, m, v),
        m is Some,
        value::value_wf(m->0),
        references::ref_targets(m->0).contains(t),
    ensures
        v is Some,
        traced(ctx, w, t, v->0),
    decreases properties::option_height(m) + properties::option_height(v),
{
    if v is Some && exists|s: Side| #[trigger]
        agreement::counts_as(
            ctx,
            m->0,
            three_way::source_of_side(s),
            v->0,
            three_way::source_of_side(w),
        ) {
        let s = choose|s: Side| #[trigger]
            agreement::counts_as(
                ctx,
                m->0,
                three_way::source_of_side(s),
                v->0,
                three_way::source_of_side(w),
            );
        lemma_counted_target(ctx, w, s, m->0, v->0, t);
    } else {
        let list = m->0->Attributes_0;
        let i = lemma_list_source(list, t);
        let key = list[i].0;
        keyed::lemma_lookup_at(list, i);
        assert(properties::attribute(m, key) == Some(list[i].1));
        lemma_reflected_target(
            ctx,
            w,
            properties::attribute(m, key),
            properties::attribute(v, key),
            t,
        );
        let other = v->0->Attributes_0;
        let inner = properties::attribute(v, key)->0;
        let k = keyed::lemma_lookup_some(other, key);
        let j = choose|j: int|
            0 <= j < references::ref_targets(inner).len() && follows(
                ctx,
                w,
                t,
                #[trigger] references::ref_targets(inner)[j],
            );
        let u = references::ref_targets(inner)[j];
        assert(references::ref_targets(inner).contains(u));
        lemma_entry_targets(other, k, u);
        let x = references::ref_targets(v->0).index_of(u);
        assert(follows(ctx, w, t, references::ref_targets(v->0)[x]));
    }
}

/// A referent that is noted down is that of a row that did not survive.
pub proof fn lemma_dropped_row(ctx: Ctx, g: GraphModel, n: int, t: u128) -> (res: (int, Side))
    requires
        references::dropped(ctx, g, n).contains_key(t),
    ensures
        0 <= res.0 < n,
        g[res.0] is None,
        ref_at(ctx, res.0, res.1) == Some(t),
    decreases n,
{
    if n <= 0 {
        (0, Side::Base)
    } else if references::dropped(ctx, g, n - 1).contains_key(t) {
        lemma_dropped_row(ctx, g, n - 1, t)
    } else {
        let nodes = ctx.nodes(ctx.rows.entries[n - 1]);
        if nodes.base is Some && nodes.base->0.source_ref == t {
            (n - 1, Side::Base)
        } else if nodes.ours is Some && nodes.ours->0.source_ref == t {
            (n - 1, Side::Ours)
        } else {
            (n - 1, Side::Theirs)
        }
    }
}

/// The row of a referent has that referent.
pub proof fn lemma_target_ref(ctx: Ctx, x: Side, t: u128)
    requires
        ctx.wf(),
        ctx.target(three_way::source_of_side(x), t) is Some,
    ensures
        ctx.target(three_way::source_of_side(x), t)->0 < ctx.rows.entries.len(),
        ref_at(ctx, ctx.target(three_way::source_of_side(x), t)->0 as int, x) == Some(t),
{
    let d = ctx.file(three_way::source_of_side(x))->0;
    semantic::lemma_node_of_ref_some(d, t);
    let i = semantic::node_of_ref(d, t)->0 as int;
    match x {
        Side::Base => {
            assert(ctx.rows.entries[i].base == Some(i as usize));
        },
        Side::Ours => {
            assert(ctx.rows.entries[ctx.rows.ours_rows[i] as int].ours == Some(i as usize));
        },
        Side::Theirs => {
            assert(ctx.rows.entries[ctx.rows.theirs_rows[i] as int].theirs == Some(i as usize));
        },
    }
}

/// A referent that follows one of the side that prevails is not that of a row that
/// did not survive.
proof fn lemma_follows_survivor(ctx: Ctx, g: GraphModel, w: Side, t: u128, u: u128)
    requires
        ctx.wf(),
        mirrors(ctx, g, w),
        refs_apart(ctx),
        leads(ctx, w, u),
        follows(ctx, w, t, u),
    ensures
        !references::dropped(ctx, g, g.len() as int).contains_key(t),
{
    let n = g.len() as int;
    if references::dropped(ctx, g, n).contains_key(t) {
        let (x, y) = lemma_dropped_row(ctx, g, n, t);
        assert(row_mirrors(ctx, g, w, x));
        assert(ref_at(ctx, x, y) == ref_at(ctx, x, y));
        assert(t != 0);
        if u != 0 {
            lemma_target_ref(ctx, w, u);
            let z = ctx.target(three_way::source_of_side(w), u)->0 as int;
            if t != u {
                let s = choose|s: Side| #[trigger]
                    ctx.ref_equal(t, three_way::source_of_side(s), u, three_way::source_of_side(w));
                lemma_target_ref(ctx, s, t);
                assert(ref_at(ctx, x, y) == ref_at(ctx, z, s));
            } else {
                assert(ref_at(ctx, x, y) == ref_at(ctx, z, w));
            }
        }
    }
}

/// No property dangles where a side prevails.
proof fn lemma_no_dangling(ctx: Ctx, g: GraphModel, w: Side, r: int, i: int)
    requires
        ctx.wf(),
        mirrors(ctx, g, w),
        graph_wf::graph_wf(g),
        regular(ctx, w),
        0 <= r < g.len(),
        g[r] is Some,
        0 <= i < g[r]->0.properties.len(),
    ensures
        !references::dangles(
            references::dropped(ctx, g, g.len() as int),
            g[r]->0.properties[i].1.value,
        ),
{
    let m = references::dropped(ctx, g, g.len() as int);
    let list = g[r]->0.properties;
    let key = list[i].0;
    let p = list[i].1;
    assert(row_mirrors(ctx, g, w, r));
    assert(graph_wf::properties_wf(list));
    keyed::lemma_lookup_at(list, i);
    if references::dangles(m, p.value) {
        let k = choose|k: int|
            0 <= k < references::ref_targets(p.value).len() && m.contains_key(
                #[trigger] references::ref_targets(p.value)[k],
            );
        let t = references::ref_targets(p.value)[k];
        assert(references::ref_targets(p.value).contains(t));
        let node = ctx.nodes(ctx.rows.entries[r]).of(w);
        let v = properties::property_of(node, key);
        if key == dom::unique_id_key() {
            let x = choose|side: Side|
                #[trigger] properties::row_values(ctx, ctx.rows.entries[r], key).of(side) == Some(
                    p.value,
                );
            assert(references::ref_targets(p.value).len() == 0);
        } else {
            assert(agreement::property_reflects(ctx, w, Some(p), v));
            if p.source is Merged {
                lemma_reflected_target(ctx, w, Some(p.value), v, t);
            } else {
                let s = match p.source {
                    ValueSource::Base => Side::Base,
                    ValueSource::Ours => Side::Ours,
                    _ => Side::Theirs,
                };
                lemma_counted_target(ctx, w, s, p.value, v->0, t);
            }
            let j = choose|j: int|
                0 <= j < references::ref_targets(v->0).len() && follows(
                    ctx,
                    w,
                    t,
                    #[trigger] references::ref_targets(v->0)[j],
                );
            let u = references::ref_targets(v->0)[j];
            assert(leads(ctx, w, u));
            lemma_follows_survivor(ctx, g, w, t, u);
        }
    }
}

pub proof fn lemma_retained_all(list: Seq<(Text, PropertyModel)>, keep: Seq<bool>)
    requires
        forall|i: int| 0 <= i < list.len() ==> #[trigger] keep[i],
    ensures
        graph::retained(list, keep) == list,
    decreases list.len(),
{
    if list.len() > 0 {
        lemma_retained_all(list.drop_last(), keep);
        assert(list.drop_last().push(list.last()) =~= list);
    }
}

pub proof fn lemma_no_target_conflict(
    ctx: Ctx,
    g: GraphModel,
    m: Map<u128, usize>,
    r: int,
    key: Text,
    v: ValueModel,
    n: int,
)
    requires
        !references::dangles(m, v),
        0 <= n <= references::ref_targets(v).len(),
    ensures
        references::target_conflicts(ctx, g, m, r, key, references::ref_targets(v), n, Seq::empty())
            == Seq::<ConflictModel>::empty(),
    decreases n,
{
    if n > 0 {
        lemma_no_target_conflict(ctx, g, m, r, key, v, n - 1);
        assert(!m.contains_key(references::ref_targets(v)[n - 1]));
    }
}

proof fn lemma_no_row_ref_conflict(ctx: Ctx, g: GraphModel, w: Side, r: int, n: int)
    requires
        ctx.wf(),
        mirrors(ctx, g, w),
        graph_wf::graph_wf(g),
        regular(ctx, w),
        0 <= r < g.len(),
        g[r] is Some,
        0 <= n <= g[r]->0.properties.len(),
    ensures
        references::row_ref_conflicts(
            ctx,
            g,
            references::dropped(ctx, g, g.len() as int),
            r,
            n,
            Seq::empty(),
        ) == Seq::<ConflictModel>::empty(),
    decreases n,
{
    if n > 0 {
        let m = references::dropped(ctx, g, g.len() as int);
        lemma_no_row_ref_conflict(ctx, g, w, r, n - 1);
        lemma_no_dangling(ctx, g, w, r, n - 1);
        let (key, property) = g[r]->0.properties[n - 1];
        lemma_no_target_conflict(
            ctx,
            g,
            m,
            r,
            key,
            property.value,
            references::ref_targets(property.value).len() as int,
        );
    }
}

proof fn lemma_no_ref_conflicts(ctx: Ctx, g: GraphModel, w: Side, n: int)
    requires
        ctx.wf(),
        mirrors(ctx, g, w),
        graph_wf::graph_wf(g),
        regular(ctx, w),
        0 <= n <= g.len(),
    ensures
        references::ref_conflicts(
            ctx,
            g,
            references::dropped(ctx, g, g.len() as int),
            n,
            Seq::empty(),
        ) == Seq::<ConflictModel>::empty(),
        references::unlinked(ctx, g) == g,
    decreases n,
{
    let m = references::dropped(ctx, g, g.len() as int);
    assert forall|r: int| 0 <= r < g.len() implies references::unlinked_row(ctx, g, m, r)
        == #[trigger] g[r] by {
        if g[r] is Some {
            let keep = references::kept_properties(ctx, g, m, r);
            assert forall|i: int| 0 <= i < g[r]->0.properties.len() implies #[trigger] keep[i] by {
                lemma_no_dangling(ctx, g, w, r, i);
            }
            lemma_retained_all(g[r]->0.properties, keep);
        }
    }
    assert(references::unlinked(ctx, g) =~= g);
    if n > 0 {
        lemma_no_ref_conflicts(ctx, g, w, n - 1);
        if g[n - 1] is Some {
            lemma_no_row_ref_conflict(ctx, g, w, n - 1, g[n - 1]->0.properties.len() as int);
        }
    }
}

/// Where a side prevails, the merged rows are settled as they are.
proof fn lemma_settled(ctx: Ctx, g: GraphModel, w: Side)
    requires
        ctx.wf(),
        agreement::prevails(ctx, w),
        regular(ctx, w),
        merging::is_merged_graph(ctx, g),
    ensures
        mirrors(ctx, g, w),
        graph_wf::graph_wf(g),
        merging::settled(ctx, g) == g,
        merging::settling_conflicts(ctx, g) == Seq::<ConflictModel>::empty(),
{
    let n = g.len() as int;
    lemma_mirrors(ctx, g, w);
    graph_wf::lemma_merged_graph_wf(ctx, g);
    lemma_no_row_conflict(ctx, n, w);
    lemma_no_loops(ctx, g, w, n);
    lemma_no_collisions(ctx, g, w, n);
    lemma_no_ref_conflicts(ctx, g, w, n);
}

// --- children ---------------------------------------------------------------

/// The children that survive depend on the rows of the children alone.
pub proof fn lemma_same_child_rows(
    ctx: Ctx,
    g: GraphModel,
    s: ValueSource,
    a: Seq<usize>,
    t: ValueSource,
    b: Seq<usize>,
    parent: usize,
)
    requires
        a.len() == b.len(),
        forall|i: int|
            0 <= i < a.len() ==> identity::row_of(ctx.rows, s, #[trigger] a[i]) == identity::row_of(
                ctx.rows,
                t,
                b[i],
            ),
    ensures
        child_order::child_rows(ctx, g, s, a, parent) == child_order::child_rows(
            ctx,
            g,
            t,
            b,
            parent,
        ),
    decreases a.len(),
{
    if a.len() > 0 {
        assert forall|i: int| 0 <= i < a.drop_last().len() implies identity::row_of(
            ctx.rows,
            s,
            #[trigger] a.drop_last()[i],
        ) == identity::row_of(ctx.rows, t, b.drop_last()[i]) by {
            assert(a.drop_last()[i] == a[i]);
        }
        lemma_same_child_rows(ctx, g, s, a.drop_last(), t, b.drop_last(), parent);
        assert(a[a.len() - 1] == a.last());
    }
}

/// Sides that agree have the same children.
proof fn lemma_same_sequences(ctx: Ctx, g: GraphModel, r: int, x: Side, y: Side)
    requires
        agreement::agree(ctx, x, y),
        0 <= r < ctx.rows.entries.len(),
    ensures
        child_order::row_sequences(ctx, g, r).of(x) == child_order::row_sequences(ctx, g, r).of(y),
{
    let nodes = ctx.nodes(ctx.rows.entries[r]);
    if let (Some(a), Some(b)) = (nodes.of(x), nodes.of(y)) {
        let (s, t) = (three_way::source_of_side(x), three_way::source_of_side(y));
        assert(agreement::alike(ctx, a, x, b, y));
        let p = rows::child_rows(ctx, a, s);
        let q = rows::child_rows(ctx, b, t);
        assert(p.len() == q.len());
        assert forall|i: int| 0 <= i < a.children.len() implies identity::row_of(
            ctx.rows,
            s,
            #[trigger] a.children[i],
        ) == identity::row_of(ctx.rows, t, b.children[i]) by {
            assert(p[i] == q[i]);
        }
        lemma_same_child_rows(ctx, g, s, a.children, t, b.children, r as usize);
    }
}

/// All children on the side that prevails survive under the row.
proof fn lemma_own_sequence(ctx: Ctx, g: GraphModel, w: Side, r: int, n: int)
    requires
        ctx.wf(),
        mirrors(ctx, g, w),
        0 <= r < g.len() <= usize::MAX,
        g[r] is Some,
        0 <= n <= ctx.nodes(ctx.rows.entries[r]).of(w)->0.children.len(),
    ensures
        ({
            let children = ctx.nodes(ctx.rows.entries[r]).of(w)->0.children;
            let source = three_way::source_of_side(w);
            let list = child_order::child_rows(ctx, g, source, children.take(n), r as usize);
            &&& list.len() == n
            &&& forall|i: int|
                0 <= i < n ==> Some(#[trigger] list[i]) == identity::row_of(
                    ctx.rows,
                    source,
                    children[i],
                )
        }),
    decreases n,
{
    if n > 0 {
        let entry = ctx.rows.entries[r];
        let source = three_way::source_of_side(w);
        let children = ctx.nodes(entry).of(w)->0.children;
        lemma_own_sequence(ctx, g, w, r, n - 1);
        assert(children.take(n).drop_last() =~= children.take(n - 1));
        let before = child_order::child_rows(ctx, g, source, children.take(n - 1), r as usize);
        let list = child_order::child_rows(ctx, g, source, children.take(n), r as usize);
        let c = children[n - 1];
        assert(row_mirrors(ctx, g, w, r));
        context::lemma_entry_wf(ctx, r);
        let d = ctx.file(source)->0;
        let i = place(ctx, w, r);
        matching::lemma_children(d, i);
        assert(d[i].children[n - 1] == c);
        let x = identity::row_of(ctx.rows, source, c)->0;
        match w {
            Side::Base => {
                assert(ctx.rows.entries[c as int].base == Some(c));
            },
            Side::Ours => {
                assert(ctx.rows.entries[ctx.rows.ours_rows[c as int] as int].ours == Some(c));
            },
            Side::Theirs => {
                assert(ctx.rows.entries[ctx.rows.theirs_rows[c as int] as int].theirs == Some(c));
            },
        }
        assert(row_mirrors(ctx, g, w, x as int));
        assert(identity::row_of(ctx.rows, source, i as usize) == Some(r as usize));
        assert(child_order::is_under(g, r as usize, x));
        assert(list == before.push(x));
        assert forall|k: int| 0 <= k < n implies Some(#[trigger] list[k]) == identity::row_of(
            ctx.rows,
            source,
            children[k],
        ) by {
            if k < n - 1 {
                assert(list[k] == before[k]);
            }
        }
    }
}

proof fn lemma_nothing_new(list: Seq<usize>, items: Seq<usize>)
    requires
        forall|i: int| 0 <= i < items.len() ==> list.contains(#[trigger] items[i]),
    ensures
        child_order::with_new(list, items) == list,
    decreases items.len(),
{
    if items.len() > 0 {
        let rest = items.drop_last();
        assert forall|i: int| 0 <= i < rest.len() implies list.contains(#[trigger] rest[i]) by {
            assert(rest[i] == items[i]);
        }
        lemma_nothing_new(list, rest);
        assert(items[items.len() - 1] == items.last());
    }
}

/// A row that survives under another has its place among the children of the
/// instance that the other is on the side that prevails.
proof fn lemma_under_place(ctx: Ctx, g: GraphModel, w: Side, r: int, x: usize)
    requires
        ctx.wf(),
        mirrors(ctx, g, w),
        0 <= r < g.len() <= usize::MAX,
        g[r] is Some,
        child_order::is_under(g, r as usize, x),
    ensures
        ({
            let source = three_way::source_of_side(w);
            let d = ctx.file(source)->0;
            let j = place(ctx, w, x as int);
            &&& d[place(ctx, w, r)].children.contains(j as usize)
            &&& identity::row_of(ctx.rows, source, j as usize) == Some(x)
        }),
{
    let source = three_way::source_of_side(w);
    assert(row_mirrors(ctx, g, w, r));
    assert(row_mirrors(ctx, g, w, x as int));
    context::lemma_entry_wf(ctx, r);
    context::lemma_entry_wf(ctx, x as int);
    let d = ctx.file(source)->0;
    let j = place(ctx, w, x as int);
    let p = d[j].parent->0;
    assert(j > 0) by {
        if j == 0 {
            assert(d[0].parent is None);
        }
    }
    matching::lemma_is_child(d, j);
    assert(identity::row_of(ctx.rows, source, p) == Some(r as usize));
    assert(identity::row_of(ctx.rows, source, j as usize) == Some(x));
    match w {
        Side::Base => {},
        Side::Ours => {
            assert(ctx.rows.entries[ctx.rows.ours_rows[p as int] as int].ours == Some(p));
        },
        Side::Theirs => {
            assert(ctx.rows.entries[ctx.rows.theirs_rows[p as int] as int].theirs == Some(p));
        },
    }
    assert(p == place(ctx, w, r));
}

/// A row that survives under another is one of its children on the side that
/// prevails.
proof fn lemma_under_is_child(ctx: Ctx, g: GraphModel, w: Side, r: int, x: usize)
    requires
        ctx.wf(),
        mirrors(ctx, g, w),
        0 <= r < g.len() <= usize::MAX,
        g[r] is Some,
        child_order::is_under(g, r as usize, x),
    ensures
        child_order::row_sequences(ctx, g, r).of(w).contains(x),
{
    let source = three_way::source_of_side(w);
    assert(row_mirrors(ctx, g, w, r));
    context::lemma_entry_wf(ctx, r);
    lemma_under_place(ctx, g, w, r, x);
    let d = ctx.file(source)->0;
    let children = d[place(ctx, w, r)].children;
    let k = children.index_of(place(ctx, w, x as int) as usize);
    assert(children.take(children.len() as int) =~= children);
    lemma_own_sequence(ctx, g, w, r, children.len() as int);
    let list = child_order::row_sequences(ctx, g, r).of(w);
    assert(list == child_order::child_rows(ctx, g, source, children, r as usize));
    assert(Some(list[k]) == identity::row_of(ctx.rows, source, children[k]));
}

/// Where a side prevails, the children of a row are those that it has there.
proof fn lemma_children(ctx: Ctx, g: GraphModel, w: Side, r: int)
    requires
        ctx.wf(),
        agreement::prevails(ctx, w),
        mirrors(ctx, g, w),
        0 <= r < g.len() <= usize::MAX,
        g[r] is Some,
    ensures
        child_order::merged_sequence(child_order::row_sequences(ctx, g, r)) is Some,
        child_order::row_children(ctx, g, r) == Some(
            child_order::row_sequences(ctx, g, r).of(w),
        ),
{
    let seqs = child_order::row_sequences(ctx, g, r);
    match w {
        Side::Ours => {
            if agreement::agree(ctx, Side::Theirs, Side::Base) {
                lemma_same_sequences(ctx, g, r, Side::Theirs, Side::Base);
            } else {
                lemma_same_sequences(ctx, g, r, Side::Ours, Side::Theirs);
            }
        },
        _ => {
            lemma_same_sequences(ctx, g, r, Side::Ours, Side::Base);
        },
    }
    assert(child_order::merged_sequence(seqs) == Some(seqs.of(w)));
    let under = child_order::rows_under(g, r as usize, g.len() as int);
    child_order::lemma_rows_under(g, r as usize, g.len() as int);
    assert forall|i: int| 0 <= i < under.len() implies seqs.of(w).contains(#[trigger] under[i]) by {
        assert(under.contains(under[i]));
        lemma_under_is_child(ctx, g, w, r, under[i]);
    }
    lemma_nothing_new(seqs.of(w), under);
}

proof fn lemma_no_order_conflicts(ctx: Ctx, g: GraphModel, w: Side, n: int)
    requires
        ctx.wf(),
        agreement::prevails(ctx, w),
        mirrors(ctx, g, w),
        0 <= n <= g.len() <= usize::MAX,
    ensures
        child_order::order_conflicts(ctx, g, n, Seq::empty()) == Seq::<ConflictModel>::empty(),
    decreases n,
{
    if n > 0 {
        lemma_no_order_conflicts(ctx, g, w, n - 1);
        if g[n - 1] is Some {
            lemma_children(ctx, g, w, n - 1);
        }
    }
}

// ---------------------------------------------------------------------------
// The laws
// ---------------------------------------------------------------------------

/// A row as a side has it, with the children that it has there.
pub open spec fn row_is_taken(ctx: Ctx, f: GraphModel, w: Side, r: int) -> bool {
    let entry = ctx.rows.entries[r];
    let node = ctx.nodes(entry).of(w);
    &&& f[r] is Some <==> node is Some
    &&& f[r] is Some ==> {
        &&& f[r]->0.class == node->0.class
        &&& f[r]->0.name == node->0.name
        &&& f[r]->0.parent == ctx.parents(entry).of(w)
        &&& f[r]->0.children.map_values(|x: usize| Some(x)) == rows::child_rows(
            ctx,
            node->0,
            three_way::source_of_side(w),
        )
        &&& properties_reflect(ctx, w, f[r]->0.properties, node->0)
    }
}

/// The merge has no conflicts and is, row by row, what a side is.
pub open spec fn takes_side(ctx: Ctx, g: GraphModel, w: Side) -> bool {
    &&& merging::merge_conflicts(ctx, g).len() == 0
    &&& merging::finished(ctx, g).len() == ctx.rows.entries.len()
    &&& forall|r: int|
        0 <= r < ctx.rows.entries.len() ==> #[trigger] row_is_taken(
            ctx,
            merging::finished(ctx, g),
            w,
            r,
        )
}

/// The order of the children changes nothing else.
proof fn lemma_ordered_mirrors(ctx: Ctx, g: GraphModel, w: Side)
    requires
        mirrors(ctx, g, w),
    ensures
        mirrors(ctx, child_order::ordered(ctx, g), w),
{
    let placed = child_order::ordered(ctx, g);
    assert forall|r: int| 0 <= r < placed.len() implies #[trigger] row_mirrors(ctx, placed, w, r) by {
        assert(row_mirrors(ctx, g, w, r));
    }
}

/// Where a side prevails, the order of the children is all that is left to do.
proof fn lemma_finished(ctx: Ctx, g: GraphModel, w: Side)
    requires
        ctx.wf(),
        agreement::prevails(ctx, w),
        regular(ctx, w),
        merging::is_merged_graph(ctx, g),
    ensures
        merging::merge_conflicts(ctx, g).len() == 0,
        merging::finished(ctx, g) == child_order::ordered(ctx, g),
{
    let n = g.len() as int;
    lemma_settled(ctx, g, w);
    lemma_no_order_conflicts(ctx, g, w, n);
    lemma_ordered_mirrors(ctx, g, w);
    lemma_no_collisions(ctx, child_order::ordered(ctx, g), w, n);
}

/// The children that a row gets are those of the side that prevails.
proof fn lemma_taken_children(ctx: Ctx, g: GraphModel, w: Side, r: int)
    requires
        ctx.wf(),
        agreement::prevails(ctx, w),
        mirrors(ctx, g, w),
        0 <= r < g.len() <= usize::MAX,
        g[r] is Some,
    ensures
        child_order::ordered(ctx, g)[r]->0.children.map_values(|x: usize| Some(x))
            == rows::child_rows(
            ctx,
            ctx.nodes(ctx.rows.entries[r]).of(w)->0,
            three_way::source_of_side(w),
        ),
{
    let node = ctx.nodes(ctx.rows.entries[r]).of(w)->0;
    let source = three_way::source_of_side(w);
    assert(row_mirrors(ctx, g, w, r));
    lemma_children(ctx, g, w, r);
    assert(node.children.take(node.children.len() as int) =~= node.children);
    lemma_own_sequence(ctx, g, w, r, node.children.len() as int);
    let list = child_order::ordered(ctx, g)[r]->0.children;
    assert(list == child_order::child_rows(ctx, g, source, node.children, r as usize));
    assert(list.map_values(|x: usize| Some(x)) =~= rows::child_rows(ctx, node, source));
}

/// A side that prevails is what the merge makes of the files.
proof fn lemma_side_is_taken(ctx: Ctx, g: GraphModel, w: Side)
    requires
        ctx.wf(),
        agreement::prevails(ctx, w),
        regular(ctx, w),
        merging::is_merged_graph(ctx, g),
    ensures
        takes_side(ctx, g, w),
{
    let f = merging::finished(ctx, g);
    lemma_finished(ctx, g, w);
    lemma_mirrors(ctx, g, w);
    lemma_ordered_mirrors(ctx, g, w);
    assert forall|r: int| 0 <= r < f.len() implies #[trigger] row_is_taken(ctx, f, w, r) by {
        assert(row_mirrors(ctx, f, w, r));
        if g[r] is Some {
            lemma_taken_children(ctx, g, w, r);
        }
    }
}

/// Whether a side is the base, instance by instance, unique ids included.
pub open spec fn unchanged(ctx: Ctx, x: Side) -> bool {
    &&& agreement::agree(ctx, x, Side::Base)
    &&& forall|r: int|
        0 <= r < ctx.rows.entries.len() ==> {
            let nodes = ctx.nodes(#[trigger] ctx.rows.entries[r]);
            nodes.of(x) is Some ==> agreement::same_value(
                ctx,
                keyed::lookup(nodes.of(x)->0.properties, dom::unique_id_key()),
                x,
                keyed::lookup(nodes.base->0.properties, dom::unique_id_key()),
                Side::Base,
            )
        }
}

/// A deletion meets no change where the other side is unchanged.
proof fn lemma_no_change(ctx: Ctx, x: Side, r: int)
    requires
        ctx.wf(),
        unchanged(ctx, x),
        x != Side::Base,
        0 <= r < ctx.rows.entries.len(),
    ensures
        !rows::delete_modify(ctx, ctx.rows.entries[r]),
{
    let entry = ctx.rows.entries[r];
    let nodes = ctx.nodes(entry);
    let source = three_way::source_of_side(x);
    if nodes.of(x) is Some {
        let (a, b) = (nodes.of(x)->0, nodes.base->0);
        assert(agreement::alike(ctx, a, x, b, Side::Base));
        assert forall|key: Text| !(#[trigger] rows::property_differs(ctx, b, a, source, key)) by {
            if key != dom::unique_id_key() {
                assert(agreement::same_value(
                    ctx,
                    keyed::lookup(a.properties, key),
                    x,
                    keyed::lookup(b.properties, key),
                    Side::Base,
                ));
            }
        }
        assert(!rows::changed(ctx, b, a, source));
    }
}

/// A change on one side only is what the merge makes: where theirs is unchanged, the
/// merge has no conflicts and is ours.
pub proof fn law_change_of_ours_is_taken(ctx: Ctx, g: GraphModel)
    requires
        ctx.wf(),
        merging::is_merged_graph(ctx, g),
        unchanged(ctx, Side::Theirs),
        regular(ctx, Side::Ours),
    ensures
        takes_side(ctx, g, Side::Ours),
{
    assert forall|r: int| 0 <= r < ctx.rows.entries.len() implies !rows::delete_modify(
        ctx,
        #[trigger] ctx.rows.entries[r],
    ) by {
        lemma_no_change(ctx, Side::Theirs, r);
    }
    lemma_side_is_taken(ctx, g, Side::Ours);
}

/// Where ours is unchanged, the merge has no conflicts and is theirs.
pub proof fn law_change_of_theirs_is_taken(ctx: Ctx, g: GraphModel)
    requires
        ctx.wf(),
        merging::is_merged_graph(ctx, g),
        unchanged(ctx, Side::Ours),
        regular(ctx, Side::Theirs),
    ensures
        takes_side(ctx, g, Side::Theirs),
{
    assert forall|r: int| 0 <= r < ctx.rows.entries.len() implies !rows::delete_modify(
        ctx,
        #[trigger] ctx.rows.entries[r],
    ) by {
        lemma_no_change(ctx, Side::Ours, r);
    }
    lemma_side_is_taken(ctx, g, Side::Theirs);
}

/// The same changes on both sides never conflict: where ours and theirs agree, the
/// merge has no conflicts and is ours, whatever the base is.
pub proof fn law_same_changes_are_taken(ctx: Ctx, g: GraphModel)
    requires
        ctx.wf(),
        merging::is_merged_graph(ctx, g),
        agreement::agree(ctx, Side::Ours, Side::Theirs),
        regular(ctx, Side::Ours),
    ensures
        takes_side(ctx, g, Side::Ours),
{
    assert forall|r: int| 0 <= r < ctx.rows.entries.len() implies !rows::delete_modify(
        ctx,
        #[trigger] ctx.rows.entries[r],
    ) by {
        context::lemma_entry_wf(ctx, r);
    }
    lemma_side_is_taken(ctx, g, Side::Ours);
}

/// Unique ids that were made anew never conflict: where the three files agree but
/// for them, the merge has no conflicts and is ours.
pub proof fn law_regenerated_ids_never_conflict(ctx: Ctx, g: GraphModel)
    requires
        ctx.wf(),
        merging::is_merged_graph(ctx, g),
        agreement::agree(ctx, Side::Ours, Side::Base),
        agreement::agree(ctx, Side::Theirs, Side::Base),
        regular(ctx, Side::Ours),
    ensures
        takes_side(ctx, g, Side::Ours),
{
    assert forall|r: int| 0 <= r < ctx.rows.entries.len() implies !rows::delete_modify(
        ctx,
        #[trigger] ctx.rows.entries[r],
    ) by {
        context::lemma_entry_wf(ctx, r);
    }
    lemma_side_is_taken(ctx, g, Side::Ours);
}

// ---------------------------------------------------------------------------
// The tree that is built
// ---------------------------------------------------------------------------

/// The root leads to every row that the side has.
proof fn lemma_taken_is_reached(ctx: Ctx, f: GraphModel, w: Side, r: int)
    requires
        ctx.wf(),
        f.len() == ctx.rows.entries.len(),
        forall|x: int|
            0 <= x < ctx.rows.entries.len() ==> #[trigger] row_is_taken(ctx, f, w, x),
        0 <= r < f.len(),
        f[r] is Some,
    ensures
        tree::reached(f, r as usize),
    decreases place(ctx, w, r),
{
    assert(row_is_taken(ctx, f, w, r));
    context::lemma_entry_wf(ctx, r);
    let d = ctx.file(three_way::source_of_side(w))->0;
    let i = place(ctx, w, r);
    assert(ctx.rows.entries[0] == MergeEntry { base: Some(0), ours: Some(0), theirs: Some(0) });
    if i == 0 {
        assert(identity::row_of(ctx.rows, three_way::source_of_side(w), 0) == Some(r as usize));
        assert(identity::row_of(ctx.rows, three_way::source_of_side(w), 0) == Some(0usize));
        assert(tree::reaches_root(f, 0, 0));
    } else {
        matching::lemma_is_child(d, i);
        let p = ctx.parents(ctx.rows.entries[r]).of(w);
        assert(p is Some);
        lemma_parent_before(ctx, r, w);
        assert(row_is_taken(ctx, f, w, p->0 as int));
        lemma_taken_is_reached(ctx, f, w, p->0 as int);
        let steps = choose|steps: nat| #[trigger] tree::reaches_root(f, p->0, steps);
        assert(tree::reaches_root(f, r as usize, (steps + 1) as nat));
    }
}

/// The referent that an instance of a side has in the merged file.
pub open spec fn merged_referent(ctx: Ctx, f: GraphModel, w: Side, i: usize) -> u128 {
    f[identity::row_of(ctx.rows, three_way::source_of_side(w), i)->0 as int]->0.referent
}

/// The row of an instance of the side that is taken is in the merged tree.
pub proof fn lemma_row_of_taken(ctx: Ctx, f: GraphModel, w: Side, i: usize)
    requires
        ctx.wf(),
        f.len() == ctx.rows.entries.len(),
        forall|x: int|
            0 <= x < ctx.rows.entries.len() ==> #[trigger] row_is_taken(ctx, f, w, x),
        i < ctx.file(three_way::source_of_side(w))->0.len(),
    ensures
        ({
            let source = three_way::source_of_side(w);
            let r = identity::row_of(ctx.rows, source, i)->0;
            &&& r < f.len()
            &&& f[r as int] is Some
            &&& ctx.nodes(ctx.rows.entries[r as int]).of(w) == Some(ctx.file(source)->0[i as int])
            &&& row_is_taken(ctx, f, w, r as int)
            &&& tree::reached(f, r)
        }),
{
    let r = identity::row_of(ctx.rows, three_way::source_of_side(w), i)->0;
    match w {
        Side::Base => {
            assert(ctx.rows.entries[i as int].base == Some(i));
        },
        Side::Ours => {
            assert(ctx.rows.entries[ctx.rows.ours_rows[i as int] as int].ours == Some(i));
        },
        Side::Theirs => {
            assert(ctx.rows.entries[ctx.rows.theirs_rows[i as int] as int].theirs == Some(i));
        },
    }
    assert(row_is_taken(ctx, f, w, r as int));
    lemma_taken_is_reached(ctx, f, w, r as int);
}

/// Where the merge takes a side, the merged tree has its instances: each has its
/// class, its name and its children in their order, and there are no others.
pub proof fn law_taken_side_is_built(
    ctx: Ctx,
    g: GraphModel,
    w: Side,
    outcome: merging::OutcomeModel,
)
    requires
        ctx.wf(),
        merging::is_merged_graph(ctx, g),
        takes_side(ctx, g, w),
        merging::outcome_of(ctx, g, outcome),
    ensures
        outcome is Merged,
        ({
            let f = merging::finished(ctx, g);
            let d = ctx.file(three_way::source_of_side(w))->0;
            let built = outcome->Merged_0;
            &&& built.root == merged_referent(ctx, f, w, 0)
            &&& forall|i: usize|
                i < d.len() ==> {
                    let x = #[trigger] merged_referent(ctx, f, w, i);
                    &&& built.instances.contains_key(x)
                    &&& built.instances[x].class == d[i as int].class
                    &&& built.instances[x].name == d[i as int].name
                    &&& built.instances[x].children == d[i as int].children.map_values(
                        |c: usize| merged_referent(ctx, f, w, c),
                    )
                }
            &&& forall|x: u128| #[trigger]
                built.instances.contains_key(x) ==> exists|i: usize|
                    i < d.len() && #[trigger] merged_referent(ctx, f, w, i) == x
        }),
{
    let f = merging::finished(ctx, g);
    let source = three_way::source_of_side(w);
    let d = ctx.file(source)->0;
    let built = outcome->Merged_0;
    let maps = tree::final_refs(ctx, f, g.len() as int);
    assert forall|i: usize| i < d.len() implies ({
        let x = #[trigger] merged_referent(ctx, f, w, i);
        &&& built.instances.contains_key(x)
        &&& built.instances[x].class == d[i as int].class
        &&& built.instances[x].name == d[i as int].name
        &&& built.instances[x].children == d[i as int].children.map_values(
            |c: usize| merged_referent(ctx, f, w, c),
        )
    }) by {
        let r = identity::row_of(ctx.rows, source, i)->0;
        lemma_row_of_taken(ctx, f, w, i);
        assert(tree::row_built(maps, f, r, built));
        let own = f[r as int]->0.children;
        let list = own.map_values(|x: usize| Some(x));
        let rows_there = rows::child_rows(ctx, d[i as int], source);
        let expected = d[i as int].children.map_values(|c: usize| merged_referent(ctx, f, w, c));
        assert(own.len() == list.len() == rows_there.len() == d[i as int].children.len());
        assert forall|k: int| 0 <= k < own.len() implies #[trigger] tree::referents(f, own)[k]
            == expected[k] by {
            assert(list[k] == Some(own[k]));
            assert(list[k] == rows_there[k]);
        }
        assert(tree::referents(f, own) =~= expected);
    }
    assert(row_is_taken(ctx, f, w, 0));
    assert forall|x: u128| #[trigger] built.instances.contains_key(x) implies exists|i: usize|
        i < d.len() && #[trigger] merged_referent(ctx, f, w, i) == x by {
        let r = choose|r: usize| #[trigger]
            tree::reached(f, r) && f[r as int]->0.referent == x;
        let steps = choose|steps: nat| #[trigger] tree::reaches_root(f, r, steps);
        assert(row_is_taken(ctx, f, w, r as int));
        context::lemma_entry_wf(ctx, r as int);
        let i = place(ctx, w, r as int) as usize;
        assert(merged_referent(ctx, f, w, i) == x);
    }
}

} // verus!
