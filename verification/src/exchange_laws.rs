//! Conflicts are found alike whichever side is called ours.

use vstd::prelude::*;

use crate::agreed;
use crate::agreement;
use crate::agreement_laws;
use crate::child_order;
use crate::clean_laws;
use crate::collisions;
use crate::conflict::ConflictModel;
use crate::context::Ctx;
use crate::cycles;
use crate::decision_laws;
use crate::dom;
use crate::exchange;
use crate::files;
use crate::graph;
use crate::graph::GraphModel;
use crate::graph_wf;
use crate::identity;
use crate::identity::MergeEntry;
use crate::keyed;
use crate::matching::Classes;
use crate::merging;
use crate::properties;
use crate::properties::Values;
use crate::references;
use crate::resolve;
use crate::resolve::Side;
use crate::rows;
use crate::semantic::{InstanceModel, ValueSource};
use crate::text::Text;
use crate::three_way;
use crate::value;
use crate::value::ValueModel;

verus! {

// ---------------------------------------------------------------------------
// Exchanged rows
// ---------------------------------------------------------------------------

/// The parent of an instance.
proof fn lemma_parent_row(c: Ctx, d: Ctx, node: Option<InstanceModel>, source: ValueSource)
    requires
        exchange::is_exchanged(c, d),
    ensures
        d.parent_row(node, exchange::turned_source(source)) == exchange::across_option(
            c,
            d,
            c.parent_row(node, source),
        ),
        c.parent_row(node, source) matches Some(r) ==> r < c.rows.entries.len(),
{
    if let Some(node) = node {
        if let Some(p) = node.parent {
            exchange::lemma_row_of(c, d, source, p);
        }
    }
}

/// Rows are the same row on both sides of an exchange.
proof fn lemma_same_row(c: Ctx, d: Ctx, a: Option<usize>, b: Option<usize>)
    requires
        exchange::is_exchanged(c, d),
        a matches Some(r) ==> r < c.rows.entries.len(),
        b matches Some(r) ==> r < c.rows.entries.len(),
    ensures
        (exchange::across_option(c, d, a) == exchange::across_option(c, d, b)) == (a == b),
{
    if let (Some(r), Some(s)) = (a, b) {
        if exchange::across(c, d, r) == exchange::across(c, d, s) {
            exchange::lemma_across_injective(c, d, r, s);
        }
    }
}

/// The children of instances.
proof fn lemma_same_children(
    c: Ctx,
    d: Ctx,
    b: InstanceModel,
    a: InstanceModel,
    source: ValueSource,
)
    requires
        exchange::is_exchanged(c, d),
    ensures
        (rows::child_rows(d, b, ValueSource::Base) == rows::child_rows(
            d,
            a,
            exchange::turned_source(source),
        )) == (rows::child_rows(c, b, ValueSource::Base) == rows::child_rows(c, a, source)),
{
    let (x, y) = (rows::child_rows(c, b, ValueSource::Base), rows::child_rows(c, a, source));
    let (u, v) = (
        rows::child_rows(d, b, ValueSource::Base),
        rows::child_rows(d, a, exchange::turned_source(source)),
    );
    if x.len() == y.len() {
        assert forall|i: int| 0 <= i < x.len() implies (#[trigger] u[i] == #[trigger] v[i]) == (
        x[i] == y[i]) by {
            exchange::lemma_row_of(c, d, ValueSource::Base, b.children[i]);
            exchange::lemma_row_of(c, d, source, a.children[i]);
            lemma_same_row(c, d, x[i], y[i]);
        }
        if x == y {
            assert(u =~= v);
        }
        if u == v {
            assert forall|i: int| 0 <= i < x.len() implies x[i] == y[i] by {
                assert(u[i] == v[i]);
            }
            assert(x =~= y);
        }
    } else {
        assert(u.len() != v.len());
    }
}

/// A change is a change, whichever side it is on.
proof fn lemma_changed(c: Ctx, d: Ctx, b: InstanceModel, a: InstanceModel, source: ValueSource)
    requires
        exchange::is_exchanged(c, d),
    ensures
        rows::changed(d, b, a, exchange::turned_source(source)) == rows::changed(c, b, a, source),
{
    let other = exchange::turned_source(source);
    assert forall|key: Text| #[trigger]
        rows::property_differs(d, b, a, other, key) == rows::property_differs(
            c,
            b,
            a,
            source,
            key,
        ) by {
        exchange::lemma_option_equal(
            c,
            d,
            keyed::lookup(b.properties, key),
            ValueSource::Base,
            keyed::lookup(a.properties, key),
            source,
        );
    }
    if exists|key: Text| #[trigger] rows::property_differs(c, b, a, source, key) {
        let key = choose|key: Text| #[trigger] rows::property_differs(c, b, a, source, key);
        assert(rows::property_differs(d, b, a, other, key));
    }
    lemma_parent_row(c, d, Some(b), ValueSource::Base);
    lemma_parent_row(c, d, Some(a), source);
    lemma_same_row(
        c,
        d,
        c.parent_row(Some(b), ValueSource::Base),
        c.parent_row(Some(a), source),
    );
    lemma_same_children(c, d, b, a, source);
}

/// The three-way rule on exchanged rows.
proof fn lemma_parents(c: Ctx, d: Ctx, entry: MergeEntry)
    requires
        exchange::is_exchanged(c, d),
    ensures
        ({
            let (x, y) = (c.parents(entry), d.parents(exchange::turned(entry)));
            &&& three_way::three_way_of(x) is Some <==> three_way::three_way_of(y) is Some
            &&& three_way::three_way_of(x) is Some ==> y.of(three_way::three_way_of(y)->0)
                == exchange::across_option(c, d, x.of(three_way::three_way_of(x)->0))
        }),
{
    let nodes = c.nodes(entry);
    let x = c.parents(entry);
    assert(d.nodes(exchange::turned(entry)) == exchange::turned_values(nodes));
    lemma_parent_row(c, d, nodes.base, ValueSource::Base);
    lemma_parent_row(c, d, nodes.ours, ValueSource::Ours);
    lemma_parent_row(c, d, nodes.theirs, ValueSource::Theirs);
    lemma_same_row(c, d, x.ours, x.base);
    lemma_same_row(c, d, x.theirs, x.base);
    lemma_same_row(c, d, x.ours, x.theirs);
}

proof fn lemma_row_values(c: Ctx, d: Ctx, entry: MergeEntry, key: Text)
    requires
        exchange::is_exchanged(c, d),
    ensures
        properties::row_values(d, exchange::turned(entry), key) == exchange::turned_values(
            properties::row_values(c, entry, key),
        ),
{
    assert(d.nodes(exchange::turned(entry)) == exchange::turned_values(c.nodes(entry)));
}

/// What is agreed on stays agreed on.
proof fn lemma_agrees(c: Ctx, d: Ctx, entry: MergeEntry)
    requires
        exchange::is_exchanged(c, d),
        agreed::row_agrees(c, entry),
    ensures
        agreed::row_agrees(d, exchange::turned(entry)),
        rows::decision(d, exchange::turned(entry)) is Merge <==> rows::decision(c, entry) is Merge,
{
    let turned = exchange::turned(entry);
    assert(d.nodes(turned) == exchange::turned_values(c.nodes(entry)));
    if let (Some(b), Some(t)) = (entry.base, entry.theirs) {
        lemma_changed(c, d, c.base[b as int], c.theirs[t as int], ValueSource::Theirs);
    }
    if let (Some(b), Some(o)) = (entry.base, entry.ours) {
        lemma_changed(c, d, c.base[b as int], c.ours[o as int], ValueSource::Ours);
    }
    if rows::decision(c, entry) is Merge {
        lemma_parents(c, d, entry);
        assert forall|key: Text| !(#[trigger] agreed::property_outcome(d, turned, key) is Conflict) by {
            lemma_row_values(c, d, entry, key);
            if key == dom::unique_id_key() {
                agreement::law_unique_ids_never_conflict(d, properties::row_values(d, turned, key));
            } else {
                assert(!(agreed::property_outcome(c, entry, key) is Conflict));
                exchange::lemma_merged_value(
                    c,
                    d,
                    Map::empty(),
                    key,
                    properties::row_values(c, entry, key),
                );
            }
        }
    }
}

// ---------------------------------------------------------------------------
// Exchanged graphs
// ---------------------------------------------------------------------------

/// Whether row `r` of `g` is its row of `h`: it survives in both or in neither, under
/// the same parent.
spec fn row_turned(c: Ctx, d: Ctx, g: GraphModel, h: GraphModel, r: int) -> bool {
    let s = exchange::across(c, d, r as usize) as int;
    &&& g[r] is Some <==> h[s] is Some
    &&& g[r] is Some ==> h[s]->0.parent == exchange::across_option(c, d, g[r]->0.parent)
}

/// Whether two graphs are the merged rows of exchanged sides, all agreed on.
spec fn graphs_turned(c: Ctx, d: Ctx, g: GraphModel, h: GraphModel) -> bool {
    &&& exchange::is_exchanged(c, d)
    &&& exchange::is_exchanged(d, c)
    &&& resolve::undecided(c.resolutions)
    &&& resolve::undecided(d.resolutions)
    &&& merging::is_merged_graph(c, g)
    &&& merging::is_merged_graph(d, h)
    &&& forall|r: int| 0 <= r < g.len() ==> agreed::row_agrees(c, #[trigger] c.rows.entries[r])
}

proof fn lemma_row_turned(c: Ctx, d: Ctx, g: GraphModel, h: GraphModel, r: int)
    requires
        graphs_turned(c, d, g, h),
        0 <= r < g.len(),
    ensures
        exchange::across(c, d, r as usize) < h.len(),
        row_turned(c, d, g, h, r),
        g[r] is Some ==> rows::decision(c, c.rows.entries[r]) is Merge,
{
    let entry = c.rows.entries[r];
    let s = exchange::across(c, d, r as usize) as int;
    assert(d.rows.entries[s] == exchange::turned(entry));
    lemma_agrees(c, d, entry);
    agreed::lemma_draft(c, entry);
    agreed::lemma_draft(d, exchange::turned(entry));
    lemma_parents(c, d, entry);
    assert(match g[r] {
        Some(node) => graph::draft(c, entry) is Some && graph::draft(c, entry)->0.parent
            == node.parent,
        None => graph::draft(c, entry) is None,
    });
    assert(match h[s] {
        Some(node) => graph::draft(d, exchange::turned(entry)) is Some && graph::draft(
            d,
            exchange::turned(entry),
        )->0.parent == node.parent,
        None => graph::draft(d, exchange::turned(entry)) is None,
    });
}

// --- loops ------------------------------------------------------------------

/// The root stays the root.
proof fn lemma_root(c: Ctx, d: Ctx, r: usize)
    requires
        exchange::is_exchanged(c, d),
        r < c.rows.entries.len(),
    ensures
        exchange::across(c, d, r) == 0 <==> r == 0,
{
    assert(c.rows.entries[0].base == Some(0usize));
    assert(exchange::across(c, d, 0) == 0);
    if exchange::across(c, d, r) == 0 {
        exchange::lemma_across_injective(c, d, r, 0);
    }
}

/// The way up is the same way.
proof fn lemma_above(c: Ctx, d: Ctx, g: GraphModel, h: GraphModel, r: usize, k: nat)
    requires
        graphs_turned(c, d, g, h),
        cycles::parents_wf(g),
        r < g.len(),
    ensures
        cycles::above(h, exchange::across(c, d, r), k) == exchange::across_option(
            c,
            d,
            cycles::above(g, r, k),
        ),
        cycles::above(g, r, k) matches Some(x) ==> x < g.len(),
    decreases k,
{
    if k > 0 {
        let j = (k - 1) as nat;
        lemma_above(c, d, g, h, r, j);
        if let Some(x) = cycles::above(g, r, j) {
            lemma_root(c, d, x);
            lemma_row_turned(c, d, g, h, x as int);
            assert(row_turned(c, d, g, h, x as int));
            if g[x as int] is Some {
                assert(g[x as int]->0.parent matches Some(p) ==> p < g.len());
            }
        }
    }
}

proof fn lemma_no_loop(c: Ctx, d: Ctx, g: GraphModel, h: GraphModel, s: int)
    requires
        graphs_turned(c, d, g, h),
        cycles::parents_wf(g),
        g.len() <= usize::MAX,
        h.len() <= usize::MAX,
        forall|r: int| 0 <= r < g.len() ==> !(#[trigger] cycles::is_member(g, r)),
        0 <= s < h.len(),
    ensures
        !cycles::is_member(h, s),
{
    if cycles::is_member(h, s) {
        let r = exchange::across(d, c, s as usize);
        exchange::lemma_across_back(c, d, s as usize);
        lemma_row_turned(c, d, g, h, r as int);
        let k = choose|k: nat|
            k >= 1 && #[trigger] cycles::above(h, s as usize, k) == Some(s as usize);
        lemma_above(c, d, g, h, r, k);
        let x = cycles::above(g, r, k)->0;
        exchange::lemma_across_injective(c, d, x, r);
        assert(cycles::above(g, r, k) == Some(r));
        assert(cycles::on_cycle(g, r as int as usize));
        assert(cycles::is_member(g, r as int));
    }
}

// --- properties -------------------------------------------------------------

/// An addition that both sides made has the same unique id on both sides, where it
/// has one on both: else the merge takes that of ours, whichever side that is.
pub open spec fn joint_ids_agree(ctx: Ctx) -> bool {
    forall|r: int|
        0 <= r < ctx.rows.entries.len() ==> ids_agree(
            ctx,
            #[trigger] properties::row_values(ctx, ctx.rows.entries[r], dom::unique_id_key()),
        )
}

pub open spec fn ids_agree(ctx: Ctx, values: Values) -> bool {
    match (values.base, values.ours, values.theirs) {
        (None, Some(v), Some(u)) => ctx.value_equal(v, ValueSource::Ours, u, ValueSource::Theirs),
        _ => true,
    }
}

proof fn lemma_equal_ids(ctx: Ctx, a: ValueModel, s: ValueSource, b: ValueModel, t: ValueSource)
    requires
        ctx.value_equal(a, s, b, t),
    ensures
        value::unique_id_value(a) == value::unique_id_value(b),
{
}

/// A unique id is merged to the same effect.
proof fn lemma_merged_id(c: Ctx, d: Ctx, m: Map<u128, usize>, values: Values)
    requires
        exchange::is_exchanged(c, d),
        exchange::is_fair(c, m),
        ids_agree(c, values),
    ensures
        ({
            let p = properties::merged_value(c, dom::unique_id_key(), values);
            let q = properties::merged_value(
                d,
                dom::unique_id_key(),
                exchange::turned_values(values),
            );
            &&& exchange::same_effect(m, p, q)
            &&& p is Keep ==> value::unique_id_value(p->Keep_0.value) == value::unique_id_value(
                q->Keep_0.value,
            )
        }),
{
    reveal_strlit("UniqueId");
    reveal_strlit("Attributes");
    assert(dom::unique_id_key().len() != properties::attributes_key().len());
    exchange::lemma_winner(c, d, values);
    if let (Some(v), Some(u)) = (values.ours, values.theirs) {
        if c.value_equal(v, ValueSource::Ours, u, ValueSource::Theirs) {
            exchange::lemma_equal_dangles(c, m, v, u);
            lemma_equal_ids(c, v, ValueSource::Ours, u, ValueSource::Theirs);
        }
    }
}

/// The properties of a row come to the same.
proof fn lemma_property_turned(
    c: Ctx,
    d: Ctx,
    g: GraphModel,
    h: GraphModel,
    m: Map<u128, usize>,
    r: int,
    key: Text,
)
    requires
        graphs_turned(c, d, g, h),
        joint_ids_agree(c),
        exchange::is_fair(c, m),
        0 <= r < g.len(),
        g[r] is Some,
    ensures
        ({
            let s = exchange::across(c, d, r as usize) as int;
            let p = keyed::lookup(g[r]->0.properties, key);
            let q = keyed::lookup(h[s]->0.properties, key);
            &&& p is Some <==> q is Some
            &&& p is Some ==> references::dangles(m, p->0.value) == references::dangles(
                m,
                q->0.value,
            )
            &&& p is Some && key == dom::unique_id_key() ==> value::unique_id_value(p->0.value)
                == value::unique_id_value(q->0.value)
        }),
{
    let s = exchange::across(c, d, r as usize) as int;
    let entry = c.rows.entries[r];
    let values = properties::row_values(c, entry, key);
    lemma_row_turned(c, d, g, h, r);
    assert(d.rows.entries[s] == exchange::turned(entry));
    lemma_agrees(c, d, entry);
    agreed::lemma_lookup(c, g, r, key);
    agreed::lemma_lookup(d, h, s, key);
    lemma_row_values(c, d, entry, key);
    if key == dom::unique_id_key() {
        lemma_merged_id(c, d, m, values);
    } else {
        exchange::lemma_merged_value(c, d, m, key, values);
    }
}

// --- collisions -------------------------------------------------------------

proof fn lemma_same_id(c: Ctx, d: Ctx, g: GraphModel, h: GraphModel, r: int)
    requires
        graphs_turned(c, d, g, h),
        joint_ids_agree(c),
        0 <= r < g.len(),
    ensures
        collisions::row_unique_id(h[exchange::across(c, d, r as usize) as int])
            == collisions::row_unique_id(g[r]),
{
    lemma_row_turned(c, d, g, h, r);
    if g[r] is Some {
        lemma_property_turned(c, d, g, h, Map::empty(), r, dom::unique_id_key());
    }
}

proof fn lemma_no_collision(c: Ctx, d: Ctx, g: GraphModel, h: GraphModel, s: int)
    requires
        graphs_turned(c, d, g, h),
        joint_ids_agree(c),
        g.len() <= usize::MAX,
        h.len() <= usize::MAX,
        forall|r: int| 0 <= r < g.len() ==> (#[trigger] collisions::collides_with(g, r)) is None,
        0 <= s < h.len(),
    ensures
        collisions::collides_with(h, s) is None,
{
    if collisions::collides_with(h, s) is Some {
        let id = collisions::row_unique_id(h[s])->0;
        let t = collisions::collides_with(h, s)->0 as int;
        agreement_laws::lemma_holder(h, id, s);
        let (x, y) = (
            exchange::across(d, c, s as usize),
            exchange::across(d, c, t as usize),
        );
        exchange::lemma_across_back(c, d, s as usize);
        exchange::lemma_across_back(c, d, t as usize);
        lemma_same_id(c, d, g, h, x as int);
        lemma_same_id(c, d, g, h, y as int);
        agreed::lemma_distinct_ids(g, x as int, y as int);
    }
}

// --- references -------------------------------------------------------------

/// A referent of a row that did not survive is lost.
proof fn lemma_lost(ctx: Ctx, g: GraphModel, n: int, r: int, side: Side)
    requires
        0 <= r < n,
        g[r] is None,
        agreement_laws::ref_at(ctx, r, side) is Some,
    ensures
        references::dropped(ctx, g, n).contains_key(agreement_laws::ref_at(ctx, r, side)->0),
    decreases n,
{
    if r < n - 1 {
        lemma_lost(ctx, g, n - 1, r, side);
    }
}

spec fn turned_side(side: Side) -> Side {
    match side {
        Side::Base => Side::Base,
        Side::Ours => Side::Theirs,
        Side::Theirs => Side::Ours,
    }
}

/// The same referents are lost.
proof fn lemma_same_lost(c: Ctx, d: Ctx, g: GraphModel, h: GraphModel, x: u128)
    requires
        graphs_turned(c, d, g, h),
        g.len() <= usize::MAX,
        h.len() <= usize::MAX,
    ensures
        references::dropped(c, g, g.len() as int).contains_key(x) == references::dropped(
            d,
            h,
            h.len() as int,
        ).contains_key(x),
{
    if references::dropped(c, g, g.len() as int).contains_key(x) {
        let (r, side) = agreement_laws::lemma_dropped_row(c, g, g.len() as int, x);
        lemma_row_turned(c, d, g, h, r);
        let s = exchange::across(c, d, r as usize) as int;
        assert(d.rows.entries[s] == exchange::turned(c.rows.entries[r]));
        assert(agreement_laws::ref_at(d, s, turned_side(side)) == Some(x));
        lemma_lost(d, h, h.len() as int, s, turned_side(side));
    }
    if references::dropped(d, h, h.len() as int).contains_key(x) {
        let (s, side) = agreement_laws::lemma_dropped_row(d, h, h.len() as int, x);
        let r = exchange::across(d, c, s as usize) as int;
        exchange::lemma_across_back(c, d, s as usize);
        lemma_row_turned(c, d, g, h, r);
        assert(c.rows.entries[r] == exchange::turned(d.rows.entries[s]));
        assert(agreement_laws::ref_at(c, r, turned_side(side)) == Some(x));
        lemma_lost(c, g, g.len() as int, r, turned_side(side));
    }
}

/// A referent that leads to a row is lost if the row is.
proof fn lemma_lost_target(ctx: Ctx, g: GraphModel, side: Side, x: u128)
    requires
        ctx.wf(),
        agreement_laws::refs_apart(ctx),
        g.len() == ctx.rows.entries.len(),
        ctx.target(three_way::source_of_side(side), x) is Some,
    ensures
        ctx.target(three_way::source_of_side(side), x)->0 < g.len(),
        references::dropped(ctx, g, g.len() as int).contains_key(x)
            <==> g[ctx.target(three_way::source_of_side(side), x)->0 as int] is None,
{
    let p = ctx.target(three_way::source_of_side(side), x)->0 as int;
    agreement_laws::lemma_target_ref(ctx, side, x);
    if g[p] is None {
        lemma_lost(ctx, g, g.len() as int, p, side);
    }
    if references::dropped(ctx, g, g.len() as int).contains_key(x) {
        let (z, y) = agreement_laws::lemma_dropped_row(ctx, g, g.len() as int, x);
        assert(agreement_laws::ref_at(ctx, z, y) == agreement_laws::ref_at(ctx, p, side));
    }
}

proof fn lemma_fair(ctx: Ctx, g: GraphModel)
    requires
        ctx.wf(),
        agreement_laws::refs_apart(ctx),
        g.len() == ctx.rows.entries.len(),
    ensures
        exchange::is_fair(ctx, references::dropped(ctx, g, g.len() as int)),
{
    let m = references::dropped(ctx, g, g.len() as int);
    assert forall|x: u128, y: u128| #[trigger]
        ctx.ref_equal(x, ValueSource::Ours, y, ValueSource::Theirs) implies (m.contains_key(x)
        <==> m.contains_key(y)) by {
        if x != 0 && y != 0 && ctx.target(ValueSource::Ours, x) is Some {
            lemma_lost_target(ctx, g, Side::Ours, x);
            lemma_lost_target(ctx, g, Side::Theirs, y);
        }
    }
}

/// No reference dangles.
proof fn lemma_no_dangling(c: Ctx, d: Ctx, g: GraphModel, h: GraphModel, s: int, i: int)
    requires
        graphs_turned(c, d, g, h),
        joint_ids_agree(c),
        agreement_laws::refs_apart(c),
        graph_wf::graph_wf(g),
        graph_wf::graph_wf(h),
        forall|r: int, j: int|
            0 <= r < g.len() && g[r] is Some && 0 <= j < g[r]->0.properties.len()
                ==> !references::dangles(
                references::dropped(c, g, g.len() as int),
                (#[trigger] g[r]->0.properties[j]).1.value,
            ),
        0 <= s < h.len(),
        h[s] is Some,
        0 <= i < h[s]->0.properties.len(),
    ensures
        !references::dangles(
            references::dropped(d, h, h.len() as int),
            h[s]->0.properties[i].1.value,
        ),
{
    let (m, l) = (
        references::dropped(c, g, g.len() as int),
        references::dropped(d, h, h.len() as int),
    );
    let r = exchange::across(d, c, s as usize) as int;
    exchange::lemma_across_back(c, d, s as usize);
    lemma_row_turned(c, d, g, h, r);
    let list = h[s]->0.properties;
    let (key, q) = list[i];
    assert(graph_wf::properties_wf(list));
    keyed::lemma_lookup_at(list, i);
    lemma_fair(c, g);
    lemma_property_turned(c, d, g, h, m, r, key);
    let j = keyed::lemma_lookup_some(g[r]->0.properties, key);
    assert(!references::dangles(m, g[r]->0.properties[j].1.value));
    if references::dangles(l, q.value) {
        let targets = references::ref_targets(q.value);
        let k = choose|k: int| 0 <= k < targets.len() && l.contains_key(#[trigger] targets[k]);
        lemma_same_lost(c, d, g, h, targets[k]);
        assert(m.contains_key(targets[k]));
    }
}

// --- order ------------------------------------------------------------------

/// Rows of `c` as rows of `d`.
spec fn all_across(c: Ctx, d: Ctx, list: Seq<usize>) -> Seq<usize> {
    list.map_values(|r: usize| exchange::across(c, d, r))
}

spec fn are_rows(c: Ctx, list: Seq<usize>) -> bool {
    forall|i: int| 0 <= i < list.len() ==> (#[trigger] list[i]) < c.rows.entries.len()
}

proof fn lemma_same_lists(c: Ctx, d: Ctx, a: Seq<usize>, b: Seq<usize>)
    requires
        exchange::is_exchanged(c, d),
        are_rows(c, a),
        are_rows(c, b),
    ensures
        (all_across(c, d, a) == all_across(c, d, b)) == (a == b),
{
    let (x, y) = (all_across(c, d, a), all_across(c, d, b));
    if x == y {
        assert(a.len() == x.len() && b.len() == y.len());
        assert forall|i: int| 0 <= i < a.len() implies a[i] == b[i] by {
            assert(x[i] == y[i]);
            exchange::lemma_across_injective(c, d, a[i], b[i]);
        }
        assert(a =~= b);
    }
}

proof fn lemma_contains_across(c: Ctx, d: Ctx, list: Seq<usize>, r: usize)
    requires
        exchange::is_exchanged(c, d),
        are_rows(c, list),
        r < c.rows.entries.len(),
    ensures
        all_across(c, d, list).contains(exchange::across(c, d, r)) <==> list.contains(r),
{
    let x = all_across(c, d, list);
    if list.contains(r) {
        assert(x[list.index_of(r)] == exchange::across(c, d, r));
    }
    if x.contains(exchange::across(c, d, r)) {
        let i = x.index_of(exchange::across(c, d, r));
        exchange::lemma_across_injective(c, d, list[i], r);
    }
}

proof fn lemma_filter_across(c: Ctx, d: Ctx, list: Seq<usize>, other: Seq<usize>)
    requires
        exchange::is_exchanged(c, d),
        are_rows(c, list),
        are_rows(c, other),
    ensures
        all_across(c, d, list).filter(child_order::in_list(all_across(c, d, other)))
            == all_across(c, d, list.filter(child_order::in_list(other))),
        are_rows(c, list.filter(child_order::in_list(other))),
    decreases list.len(),
{
    reveal(Seq::filter);
    let p = child_order::in_list(other);
    let q = child_order::in_list(all_across(c, d, other));
    if list.len() > 0 {
        let rest = list.drop_last();
        assert(are_rows(c, rest)) by {
            assert forall|i: int| 0 <= i < rest.len() implies (#[trigger] rest[i])
                < c.rows.entries.len() by {
                assert(rest[i] == list[i]);
            }
        }
        lemma_filter_across(c, d, rest, other);
        assert(list[list.len() - 1] == list.last());
        lemma_contains_across(c, d, other, list.last());
        let x = all_across(c, d, list);
        assert(x.drop_last() =~= all_across(c, d, rest));
        assert(x.last() == exchange::across(c, d, list.last()));
        if p(list.last()) {
            assert(all_across(c, d, rest.filter(p).push(list.last())) =~= all_across(
                c,
                d,
                rest.filter(p),
            ).push(x.last()));
        }
    } else {
        assert(all_across(c, d, list) =~= Seq::<usize>::empty());
        assert(all_across(c, d, list.filter(p)) =~= Seq::<usize>::empty());
    }
}

/// An order that is kept is kept.
proof fn lemma_keeps_order(c: Ctx, d: Ctx, base: Seq<usize>, side: Seq<usize>)
    requires
        exchange::is_exchanged(c, d),
        are_rows(c, base),
        are_rows(c, side),
    ensures
        child_order::keeps_order(all_across(c, d, base), all_across(c, d, side))
            == child_order::keeps_order(base, side),
{
    lemma_filter_across(c, d, side, base);
    lemma_filter_across(c, d, base, side);
    lemma_same_lists(
        c,
        d,
        side.filter(child_order::in_list(base)),
        base.filter(child_order::in_list(side)),
    );
}

/// The rows of some children.
proof fn lemma_child_rows(
    c: Ctx,
    d: Ctx,
    g: GraphModel,
    h: GraphModel,
    source: ValueSource,
    children: Seq<usize>,
    parent: usize,
)
    requires
        graphs_turned(c, d, g, h),
        g.len() <= usize::MAX,
        cycles::parents_wf(g),
        parent < g.len(),
    ensures
        child_order::child_rows(
            d,
            h,
            exchange::turned_source(source),
            children,
            exchange::across(c, d, parent),
        ) == all_across(c, d, child_order::child_rows(c, g, source, children, parent)),
        are_rows(c, child_order::child_rows(c, g, source, children, parent)),
    decreases children.len(),
{
    if children.len() > 0 {
        lemma_child_rows(c, d, g, h, source, children.drop_last(), parent);
        let before = child_order::child_rows(c, g, source, children.drop_last(), parent);
        exchange::lemma_row_of(c, d, source, children.last());
        if let Some(r) = identity::row_of(c.rows, source, children.last()) {
            lemma_row_turned(c, d, g, h, r as int);
            if g[r as int] is Some {
                assert(g[r as int]->0.parent matches Some(p) ==> p < g.len());
                lemma_same_row(c, d, g[r as int]->0.parent, Some(parent));
            }
            assert(all_across(c, d, before.push(r)) =~= all_across(c, d, before).push(
                exchange::across(c, d, r),
            ));
        }
    } else {
        assert(all_across(c, d, Seq::<usize>::empty()) =~= Seq::<usize>::empty());
    }
}

proof fn lemma_side_rows(
    c: Ctx,
    d: Ctx,
    g: GraphModel,
    h: GraphModel,
    source: ValueSource,
    node: Option<InstanceModel>,
    parent: usize,
)
    requires
        graphs_turned(c, d, g, h),
        g.len() <= usize::MAX,
        cycles::parents_wf(g),
        parent < g.len(),
    ensures
        child_order::side_rows(
            d,
            h,
            exchange::turned_source(source),
            node,
            exchange::across(c, d, parent),
        ) == all_across(c, d, child_order::side_rows(c, g, source, node, parent)),
        are_rows(c, child_order::side_rows(c, g, source, node, parent)),
{
    if let Some(node) = node {
        lemma_child_rows(c, d, g, h, source, node.children, parent);
    } else {
        assert(all_across(c, d, Seq::<usize>::empty()) =~= Seq::<usize>::empty());
    }
}

/// The children of a row can be ordered if they could.
proof fn lemma_sequence(c: Ctx, d: Ctx, g: GraphModel, h: GraphModel, r: int)
    requires
        graphs_turned(c, d, g, h),
        g.len() <= usize::MAX,
        cycles::parents_wf(g),
        0 <= r < g.len(),
    ensures
        child_order::merged_sequence(
            child_order::row_sequences(d, h, exchange::across(c, d, r as usize) as int),
        ) is Some <==> child_order::merged_sequence(child_order::row_sequences(c, g, r)) is Some,
{
    let s = exchange::across(c, d, r as usize) as int;
    let entry = c.rows.entries[r];
    let nodes = c.nodes(entry);
    assert(d.rows.entries[s] == exchange::turned(entry));
    assert(d.nodes(exchange::turned(entry)) == exchange::turned_values(nodes));
    let x = child_order::row_sequences(c, g, r);
    let y = child_order::row_sequences(d, h, s);
    lemma_side_rows(c, d, g, h, ValueSource::Base, nodes.base, r as usize);
    lemma_side_rows(c, d, g, h, ValueSource::Ours, nodes.ours, r as usize);
    lemma_side_rows(c, d, g, h, ValueSource::Theirs, nodes.theirs, r as usize);
    assert(y.base == all_across(c, d, x.base));
    assert(y.ours == all_across(c, d, x.theirs));
    assert(y.theirs == all_across(c, d, x.ours));
    lemma_same_lists(c, d, x.ours, x.base);
    lemma_same_lists(c, d, x.theirs, x.base);
    lemma_same_lists(c, d, x.ours, x.theirs);
    lemma_keeps_order(c, d, x.base, x.ours);
    lemma_keeps_order(c, d, x.base, x.theirs);
}

// ---------------------------------------------------------------------------
// The law
// ---------------------------------------------------------------------------

/// The merged rows of a merge without conflicts.
proof fn lemma_graphs_turned(c: Ctx, d: Ctx, g: GraphModel, h: GraphModel)
    requires
        exchange::is_exchanged(c, d),
        exchange::is_exchanged(d, c),
        resolve::undecided(c.resolutions),
        resolve::undecided(d.resolutions),
        merging::is_merged_graph(c, g),
        merging::is_merged_graph(d, h),
        graph::rows_conflicts(c, g.len() as int, Seq::empty()).len() == 0,
    ensures
        graphs_turned(c, d, g, h),
        graph::rows_conflicts(d, h.len() as int, Seq::empty()) == Seq::<ConflictModel>::empty(),
{
    assert forall|r: int| 0 <= r < g.len() implies agreed::row_agrees(c, #[trigger] c.rows.entries[r]) by {
        clean_laws::lemma_row_clean(c, g.len() as int, r);
        agreed::lemma_row_agrees(c, c.rows.entries[r]);
    }
    assert forall|s: int| 0 <= s < h.len() implies agreed::row_agrees(d, #[trigger] d.rows.entries[s]) by {
        let r = exchange::across(d, c, s as usize) as int;
        exchange::lemma_across_back(c, d, s as usize);
        assert(agreed::row_agrees(c, c.rows.entries[r]));
        lemma_agrees(c, d, c.rows.entries[r]);
        assert(d.rows.entries[s] == exchange::turned(c.rows.entries[r]));
    }
    agreed::lemma_no_row_conflicts(d, h.len() as int);
}

/// Without conflicts there are none about loops, collisions and references once the
/// sides are exchanged.
proof fn lemma_settled(c: Ctx, d: Ctx, g: GraphModel, h: GraphModel)
    requires
        exchange::is_exchanged(c, d),
        exchange::is_exchanged(d, c),
        resolve::undecided(c.resolutions),
        resolve::undecided(d.resolutions),
        joint_ids_agree(c),
        agreement_laws::refs_apart(c),
        merging::is_merged_graph(c, g),
        merging::is_merged_graph(d, h),
        merging::settling_conflicts(c, g).len() == 0,
    ensures
        graphs_turned(c, d, g, h),
        graph_wf::graph_wf(g),
        graph_wf::graph_wf(h),
        merging::settled(c, g) == g,
        merging::settled(d, h) == h,
        merging::settling_conflicts(d, h).len() == 0,
        forall|s: int| 0 <= s < h.len() ==> (#[trigger] collisions::collides_with(h, s)) is None,
{
    let (n, k) = (g.len() as int, h.len() as int);
    merging::lemma_settled_clean(c, g);
    lemma_graphs_turned(c, d, g, h);
    graph_wf::lemma_merged_graph_wf(c, g);
    graph_wf::lemma_merged_graph_wf(d, h);
    decision_laws::lemma_nothing_to_decide(c, g);
    decision_laws::lemma_no_ref_conflicts(c, g, n);
    assert forall|s: int| 0 <= s < h.len() implies !(#[trigger] cycles::is_member(h, s)) by {
        lemma_no_loop(c, d, g, h, s);
    }
    clean_laws::lemma_undecided_parents(d, h);
    clean_laws::lemma_taken_cycles(d, h, k);
    assert forall|s: int| 0 <= s < h.len() implies (#[trigger] collisions::collides_with(h, s))
        is None by {
        lemma_no_collision(c, d, g, h, s);
    }
    decision_laws::lemma_no_collisions(d.resolutions, h, k);
    assert forall|s: int, i: int|
        0 <= s < h.len() && h[s] is Some && 0 <= i < h[s]->0.properties.len()
        implies !references::dangles(
        references::dropped(d, h, h.len() as int),
        (#[trigger] h[s]->0.properties[i]).1.value,
    ) by {
        lemma_no_dangling(c, d, g, h, s, i);
    }
    decision_laws::lemma_no_ref_conflicts(d, h, k);
}

proof fn lemma_stays_clean(c: Ctx, d: Ctx, g: GraphModel, h: GraphModel)
    requires
        exchange::is_exchanged(c, d),
        exchange::is_exchanged(d, c),
        resolve::undecided(c.resolutions),
        resolve::undecided(d.resolutions),
        joint_ids_agree(c),
        agreement_laws::refs_apart(c),
        merging::is_merged_graph(c, g),
        merging::is_merged_graph(d, h),
        merging::merge_conflicts(c, g).len() == 0,
    ensures
        merging::merge_conflicts(d, h).len() == 0,
{
    let (n, k) = (g.len() as int, h.len() as int);
    lemma_settled(c, d, g, h);
    merging::lemma_finished_clean(c, g);
    merging::lemma_order_conflicts_grow(c, g, n, Seq::empty());
    assert forall|s: int| 0 <= s < k && (#[trigger] h[s]) is Some implies child_order::merged_sequence(
        child_order::row_sequences(d, h, s),
    ) is Some by {
        let r = exchange::across(d, c, s as usize) as int;
        exchange::lemma_across_back(c, d, s as usize);
        lemma_row_turned(c, d, g, h, r);
        assert(child_order::row_children(c, g, r) is Some);
        lemma_sequence(c, d, g, h, r);
    }
    agreed::lemma_no_order_conflicts(d, h, k);
    let placed = child_order::ordered(d, h);
    assert forall|s: int| 0 <= s < placed.len() implies (#[trigger] collisions::collides_with(
        placed,
        s,
    )) is None by {
        agreed::lemma_ordered_ids(d, h, s);
    }
    decision_laws::lemma_no_collisions(d.resolutions, placed, k);
}

/// What is asked of the files holds of them once the sides are exchanged.
proof fn lemma_asked(c: Ctx, d: Ctx)
    requires
        exchange::is_exchanged(c, d),
        exchange::is_exchanged(d, c),
        joint_ids_agree(c),
        agreement_laws::refs_apart(c),
    ensures
        joint_ids_agree(d),
        agreement_laws::refs_apart(d),
{
    assert forall|s: int| 0 <= s < d.rows.entries.len() implies ids_agree(
        d,
        #[trigger] properties::row_values(d, d.rows.entries[s], dom::unique_id_key()),
    ) by {
        let r = exchange::across(d, c, s as usize) as int;
        exchange::lemma_across_back(c, d, s as usize);
        assert(d.rows.entries[s] == exchange::turned(c.rows.entries[r]));
        lemma_row_values(c, d, c.rows.entries[r], dom::unique_id_key());
        let values = properties::row_values(c, c.rows.entries[r], dom::unique_id_key());
        assert(ids_agree(c, values));
        exchange::lemma_option_equal(
            c,
            d,
            values.theirs,
            ValueSource::Theirs,
            values.ours,
            ValueSource::Ours,
        );
    }
    assert forall|r: int, x: Side, s: int, y: Side|
        0 <= r < d.rows.entries.len() && 0 <= s < d.rows.entries.len() && (
        #[trigger] agreement_laws::ref_at(d, r, x)) is Some && agreement_laws::ref_at(d, r, x) == (
        #[trigger] agreement_laws::ref_at(d, s, y)) implies r == s && agreement_laws::ref_at(
        d,
        r,
        x,
    ) != Some(0u128) by {
        let (u, v) = (
            exchange::across(d, c, r as usize) as int,
            exchange::across(d, c, s as usize) as int,
        );
        exchange::lemma_across_back(c, d, r as usize);
        exchange::lemma_across_back(c, d, s as usize);
        assert(c.rows.entries[u] == exchange::turned(d.rows.entries[r]));
        assert(c.rows.entries[v] == exchange::turned(d.rows.entries[s]));
        assert(agreement_laws::ref_at(c, u, turned_side(x)) == agreement_laws::ref_at(d, r, x));
        assert(agreement_laws::ref_at(c, v, turned_side(y)) == agreement_laws::ref_at(d, s, y));
    }
}

/// Conflicts are found alike whichever side is called ours: without decisions, a merge
/// has conflicts if it has some with the sides exchanged, and only then. This is asked
/// of files in which instances of different rows have different referents, and in
/// which an addition that both sides made does not have two unique ids.
pub proof fn law_exchanged_sides_conflict_alike(
    c: Ctx,
    d: Ctx,
    classes: Classes,
    g: GraphModel,
    h: GraphModel,
)
    requires
        c.wf(),
        d.wf(),
        d.base == c.base,
        d.ours == c.theirs,
        d.theirs == c.ours,
        files::is_identity(c.base, c.ours, c.theirs, classes, c.rows),
        files::is_identity(d.base, d.ours, d.theirs, classes, d.rows),
        resolve::undecided(c.resolutions),
        resolve::undecided(d.resolutions),
        merging::is_merged_graph(c, g),
        merging::is_merged_graph(d, h),
        agreement_laws::refs_apart(c),
        joint_ids_agree(c),
    ensures
        merging::merge_conflicts(c, g).len() == 0 <==> merging::merge_conflicts(d, h).len() == 0,
{
    exchange::lemma_is_exchanged(c, d, classes);
    lemma_asked(c, d);
    if merging::merge_conflicts(c, g).len() == 0 {
        lemma_stays_clean(c, d, g, h);
    }
    if merging::merge_conflicts(d, h).len() == 0 {
        lemma_stays_clean(d, c, h, g);
    }
}

} // verus!
