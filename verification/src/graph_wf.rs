//! The invariant of a merged graph, and that every pass keeps it.

use vstd::prelude::*;

use crate::child_order;
use crate::collisions;
use crate::context;
use crate::context::Ctx;
use crate::cycles;
use crate::dom;
use crate::graph;
use crate::graph::GraphModel;
use crate::identity::MergeEntry;
use crate::keyed;
use crate::lists;
use crate::properties;
use crate::properties::{PropertyModel, PropertyOutcome, Values};
use crate::references;
use crate::resolve::{ResolutionsModel, Side};
use crate::rows;
use crate::rows::NodeDecision;
use crate::semantic;
use crate::semantic::{InstanceModel, ValueSource};
use crate::text;
use crate::text::Text;
use crate::three_way;
use crate::value;
use crate::value::ValueModel;

verus! {

/// Merged properties are sorted, and their values are well-formed.
pub open spec fn properties_wf(list: Seq<(Text, PropertyModel)>) -> bool {
    &&& keyed::sorted(list)
    &&& forall|i: int| 0 <= i < list.len() ==> value::value_wf((#[trigger] list[i]).1.value)
}

/// The invariant of a merged graph: parents are rows, the root has none,
/// properties are well-formed, and every surviving row has a referent of its own.
pub open spec fn graph_wf(g: GraphModel) -> bool {
    &&& 0 < g.len() <= usize::MAX
    &&& cycles::parents_wf(g)
    &&& g[0] is Some ==> g[0]->0.parent is None
    &&& forall|r: int|
        0 <= r < g.len() && (#[trigger] g[r]) is Some ==> properties_wf(g[r]->0.properties)
            && g[r]->0.referent != 0
    &&& forall|r: int, s: int|
        0 <= r < s < g.len() && (#[trigger] g[r]) is Some && (#[trigger] g[s]) is Some
            ==> g[r]->0.referent != g[s]->0.referent
}

// ---------------------------------------------------------------------------
// Merged values
// ---------------------------------------------------------------------------

pub open spec fn option_wf(v: Option<ValueModel>) -> bool {
    v matches Some(x) ==> value::value_wf(x)
}

pub open spec fn values_wf(values: Values) -> bool {
    &&& option_wf(values.base)
    &&& option_wf(values.ours)
    &&& option_wf(values.theirs)
}

pub proof fn lemma_attribute_wf(v: Option<ValueModel>, key: Text)
    requires
        option_wf(v),
    ensures
        option_wf(properties::attribute(v, key)),
        keyed::ascending(properties::attribute_keys(v)),
{
    if let Some(ValueModel::Attributes(list)) = v {
        if keyed::lookup(list, key) is Some {
            let i = keyed::lemma_lookup_some(list, key);
            assert(value::value_wf(list[i].1));
        }
        let keys = keyed::keys_of(list);
        assert forall|i: int, j: int| 0 <= i < j < keys.len() implies text::text_lt(
            #[trigger] keys[i],
            #[trigger] keys[j],
        ) by {
            assert(keys[i] == list[i].0 && keys[j] == list[j].0);
        }
    }
}

/// The merge of well-formed values is well-formed.
proof fn lemma_merged_value_wf(ctx: Ctx, key: Text, values: Values)
    requires
        values_wf(values),
    ensures
        properties::merged_value(ctx, key, values) matches PropertyOutcome::Keep(p)
            ==> value::value_wf(p.value),
    decreases properties::size(values), 1int, 0int,
{
    if key == properties::attributes_key() && properties::attributes_apply(values) {
        lemma_attribute_wf(values.base, key);
        lemma_attribute_wf(values.ours, key);
        lemma_attribute_wf(values.theirs, key);
        let first = keyed::key_union(
            properties::attribute_keys(values.base),
            properties::attribute_keys(values.ours),
        );
        keyed::lemma_key_union_ascending(
            properties::attribute_keys(values.base),
            properties::attribute_keys(values.ours),
        );
        keyed::lemma_key_union_ascending(first, properties::attribute_keys(values.theirs));
        lemma_merged_attributes_wf(ctx, properties::all_attribute_keys(values), values);
    } else {
        match properties::winner(ctx, values) {
            Some(side) => {
                match side {
                    Side::Base => {},
                    Side::Ours => {},
                    Side::Theirs => {},
                }
            },
            None => {},
        }
    }
}

proof fn lemma_merged_attributes_wf(ctx: Ctx, keys: Seq<Text>, values: Values)
    requires
        values_wf(values),
        keyed::ascending(keys),
    ensures
        properties::merged_attributes(ctx, keys, values) matches Some(list) ==> {
            &&& keyed::sorted(list)
            &&& forall|i: int|
                0 <= i < list.len() ==> keys.contains((#[trigger] list[i]).0) && value::value_wf(
                    list[i].1,
                )
        },
    decreases properties::size(values), 0int, keys.len(),
{
    if keys.len() > 0 && properties::size(values) > 0 {
        let rest = keys.drop_last();
        let last = keys.last();
        assert(keyed::ascending(rest)) by {
            assert forall|i: int, j: int| 0 <= i < j < rest.len() implies text::text_lt(
                #[trigger] rest[i],
                #[trigger] rest[j],
            ) by {
                assert(rest[i] == keys[i] && rest[j] == keys[j]);
            }
        }
        lemma_merged_attributes_wf(ctx, rest, values);
        if let Some(before) = properties::merged_attributes(ctx, rest, values) {
            properties::lemma_nested_size(values, last);
            lemma_attribute_wf(values.base, last);
            lemma_attribute_wf(values.ours, last);
            lemma_attribute_wf(values.theirs, last);
            let inner = properties::nested(values, last);
            lemma_merged_value_wf(ctx, properties::attributes_key(), inner);
            if let Some(list) = properties::merged_attributes(ctx, keys, values) {
                lemma_pushed(keys, before, list);
            }
        }
    }
}

/// A list that is sorted under the first names stays sorted with an entry of the
/// last.
proof fn lemma_pushed<V>(keys: Seq<Text>, before: Seq<(Text, V)>, list: Seq<(Text, V)>)
    requires
        keys.len() > 0,
        keyed::ascending(keys),
        keyed::sorted(before),
        forall|i: int| 0 <= i < before.len() ==> keys.drop_last().contains((#[trigger] before[i]).0),
        list == before || (list.len() == before.len() + 1 && list == before.push(list.last())
            && list.last().0 == keys.last()),
    ensures
        keyed::sorted(list),
        forall|i: int| 0 <= i < list.len() ==> keys.contains((#[trigger] list[i]).0),
{
    let rest = keys.drop_last();
    assert(keys[keys.len() - 1] == keys.last());
    assert forall|i: int| 0 <= i < list.len() implies keys.contains((#[trigger] list[i]).0) by {
        if i < before.len() {
            assert(list[i] == before[i]);
            let k = rest.index_of(before[i].0);
            assert(keys[k] == before[i].0);
        } else {
            assert(list[i] == list.last());
        }
    }
    assert forall|i: int, j: int| 0 <= i < j < list.len() implies text::text_lt(
        (#[trigger] list[i]).0,
        (#[trigger] list[j]).0,
    ) by {
        assert(list[i] == before[i]);
        if j < before.len() {
            assert(list[j] == before[j]);
        } else {
            let k = rest.index_of(before[i].0);
            assert(keys[k] == before[i].0);
            assert(list[j] == list.last());
        }
    }
}

pub proof fn lemma_property_of_wf(node: Option<InstanceModel>, key: Text)
    requires
        node matches Some(n) ==> semantic::properties_wf(n.properties),
    ensures
        option_wf(properties::property_of(node, key)),
        keyed::ascending(properties::node_keys(node)),
{
    if let Some(n) = node {
        if keyed::lookup(n.properties, key) is Some {
            let i = keyed::lemma_lookup_some(n.properties, key);
            assert(value::value_wf(n.properties[i].1));
        }
        let keys = keyed::keys_of(n.properties);
        assert forall|i: int, j: int| 0 <= i < j < keys.len() implies text::text_lt(
            #[trigger] keys[i],
            #[trigger] keys[j],
        ) by {
            assert(keys[i] == n.properties[i].0 && keys[j] == n.properties[j].0);
        }
    }
}

/// The instances of a row have well-formed properties.
pub proof fn lemma_nodes_wf(ctx: Ctx, entry: MergeEntry)
    requires
        ctx.wf(),
        context::entry_wf(ctx, entry),
    ensures
        ctx.nodes(entry).base matches Some(n) ==> semantic::properties_wf(n.properties),
        ctx.nodes(entry).ours matches Some(n) ==> semantic::properties_wf(n.properties),
        ctx.nodes(entry).theirs matches Some(n) ==> semantic::properties_wf(n.properties),
{
}

proof fn lemma_row_properties_wf(ctx: Ctx, entry: MergeEntry, keys: Seq<Text>)
    requires
        ctx.wf(),
        context::entry_wf(ctx, entry),
        keyed::ascending(keys),
    ensures
        properties_wf(properties::row_properties(ctx, entry, keys)),
        forall|i: int|
            0 <= i < properties::row_properties(ctx, entry, keys).len() ==> keys.contains(
                (#[trigger] properties::row_properties(ctx, entry, keys)[i]).0,
            ),
    decreases keys.len(),
{
    if keys.len() > 0 {
        let rest = keys.drop_last();
        let last = keys.last();
        assert(keyed::ascending(rest)) by {
            assert forall|i: int, j: int| 0 <= i < j < rest.len() implies text::text_lt(
                #[trigger] rest[i],
                #[trigger] rest[j],
            ) by {
                assert(rest[i] == keys[i] && rest[j] == keys[j]);
            }
        }
        lemma_row_properties_wf(ctx, entry, rest);
        let before = properties::row_properties(ctx, entry, rest);
        let list = properties::row_properties(ctx, entry, keys);
        let nodes = ctx.nodes(entry);
        lemma_nodes_wf(ctx, entry);
        lemma_property_of_wf(nodes.base, last);
        lemma_property_of_wf(nodes.ours, last);
        lemma_property_of_wf(nodes.theirs, last);
        lemma_merged_value_wf(ctx, last, properties::row_values(ctx, entry, last));
        lemma_pushed(keys, before, list);
        assert forall|i: int| 0 <= i < list.len() implies value::value_wf(
            (#[trigger] list[i]).1.value,
        ) by {
            if i < before.len() {
                assert(list[i] == before[i]);
            }
        }
    }
}

proof fn lemma_side_properties_wf(node: InstanceModel, source: ValueSource)
    requires
        semantic::properties_wf(node.properties),
    ensures
        properties_wf(graph::side_properties(node, source)),
{
    let list = graph::side_properties(node, source);
    assert forall|i: int, j: int| 0 <= i < j < list.len() implies text::text_lt(
        (#[trigger] list[i]).0,
        (#[trigger] list[j]).0,
    ) by {
        assert(list[i].0 == node.properties[i].0 && list[j].0 == node.properties[j].0);
    }
    assert forall|i: int| 0 <= i < list.len() implies value::value_wf((#[trigger] list[i]).1.value) by {
        assert(list[i].1.value == node.properties[i].1);
    }
}

proof fn lemma_draft_wf(ctx: Ctx, r: int)
    requires
        ctx.wf(),
        0 <= r < ctx.rows.entries.len(),
        graph::draft(ctx, ctx.rows.entries[r]) is Some,
    ensures
        ({
            let d = graph::draft(ctx, ctx.rows.entries[r])->0;
            &&& properties_wf(d.properties)
            &&& d.parent matches Some(p) ==> p < ctx.rows.entries.len()
            &&& r == 0 ==> d.parent is None
        }),
{
    let entry = ctx.rows.entries[r];
    let nodes = ctx.nodes(entry);
    context::lemma_entry_wf(ctx, r);
    context::lemma_parents(ctx, entry);
    lemma_nodes_wf(ctx, entry);
    match rows::decision(ctx, entry) {
        NodeDecision::Drop => {},
        NodeDecision::TakeSide(side) => {
            lemma_side_properties_wf(nodes.of(side)->0, three_way::source_of_side(side));
        },
        NodeDecision::Merge => {
            lemma_property_of_wf(nodes.base, Seq::empty());
            lemma_property_of_wf(nodes.ours, Seq::empty());
            lemma_property_of_wf(nodes.theirs, Seq::empty());
            let a = properties::node_keys(nodes.base);
            let b = properties::node_keys(nodes.ours);
            let c = properties::node_keys(nodes.theirs);
            keyed::lemma_key_union_ascending(a, b);
            keyed::lemma_key_union_ascending(keyed::key_union(a, b), c);
            lemma_row_properties_wf(ctx, entry, properties::row_keys(ctx, entry));
        },
    }
}

// ---------------------------------------------------------------------------
// The passes
// ---------------------------------------------------------------------------

/// The graph of the merged rows is well-formed.
pub proof fn lemma_merged_graph_wf(ctx: Ctx, g: GraphModel)
    requires
        ctx.wf(),
        g.len() == ctx.rows.entries.len(),
        graph::merged_rows(ctx, g, g.len() as int),
    ensures
        graph_wf(g),
{
    assert forall|r: int| 0 <= r < g.len() && (#[trigger] g[r]) is Some implies properties_wf(
        g[r]->0.properties,
    ) && g[r]->0.referent != 0 && (g[r]->0.parent matches Some(p) ==> p < g.len()) && (r == 0
        ==> g[r]->0.parent is None) by {
        lemma_draft_wf(ctx, r);
    }
    assert forall|r: int, s: int|
        0 <= r < s < g.len() && (#[trigger] g[r]) is Some && (#[trigger] g[s]) is Some implies g[r]->0.referent
        != g[s]->0.referent by {
        assert(graph::referent_ok(ctx, g, s));
        if g[r]->0.referent == g[s]->0.referent {
            assert(graph::referent_used(g, s, g[s]->0.referent));
        }
    }
}

/// Other parents keep the graph well-formed.
pub proof fn lemma_repointed_wf(ctx: Ctx, g: GraphModel)
    requires
        ctx.wf(),
        g.len() == ctx.rows.entries.len(),
        graph_wf(g),
    ensures
        graph_wf(cycles::repointed(ctx, g)),
{
    let h = cycles::repointed(ctx, g);
    cycles::lemma_rounds_parents(ctx, g, g.len());
    cycles::lemma_rounds_keep(ctx, g, g.len());
    cycles::lemma_repointed(ctx, g);
    assert forall|r: int| 0 <= r < h.len() && (#[trigger] h[r]) is Some implies g[r] is Some
        && h[r]->0.properties == g[r]->0.properties && h[r]->0.referent == g[r]->0.referent by {
        assert(cycles::row_kept(ctx, g[r], h[r], r));
    }
    assert forall|r: int| 0 <= r < h.len() && (#[trigger] h[r]) is Some implies properties_wf(
        h[r]->0.properties,
    ) && h[r]->0.referent != 0 by {
        assert(g[r] is Some);
    }
    assert forall|r: int, s: int|
        0 <= r < s < h.len() && (#[trigger] h[r]) is Some && (#[trigger] h[s]) is Some implies h[r]->0.referent
        != h[s]->0.referent by {
        assert(g[r] is Some && g[s] is Some);
    }
    assert(h[0] is Some ==> h[0]->0.parent is None) by {
        context::lemma_entry_wf(ctx, 0);
        assert(ctx.parents(ctx.rows.entries[0]).base is None);
        assert(ctx.parents(ctx.rows.entries[0]).ours is None);
        assert(ctx.parents(ctx.rows.entries[0]).theirs is None);
        assert(cycles::row_kept(ctx, g[0], h[0], 0));
    }
}

/// A graph whose rows keep their parents and referents, and whose properties are
/// well-formed, is well-formed.
proof fn lemma_same_rows_wf(g: GraphModel, h: GraphModel)
    requires
        graph_wf(g),
        h.len() == g.len(),
        forall|r: int|
            0 <= r < g.len() ==> match (#[trigger] h[r]) {
                Some(node) => g[r] is Some && node.parent == g[r]->0.parent && node.referent
                    == g[r]->0.referent && properties_wf(node.properties),
                None => g[r] is None,
            },
    ensures
        graph_wf(h),
{
    assert forall|r: int| 0 <= r < h.len() && (#[trigger] h[r]) is Some implies properties_wf(
        h[r]->0.properties,
    ) && h[r]->0.referent != 0 && (h[r]->0.parent matches Some(p) ==> p < h.len()) by {
        assert(g[r] is Some);
    }
    assert forall|r: int, s: int|
        0 <= r < s < h.len() && (#[trigger] h[r]) is Some && (#[trigger] h[s]) is Some implies h[r]->0.referent
        != h[s]->0.referent by {
        assert(g[r] is Some && g[s] is Some);
    }
}

proof fn lemma_filtered_properties_wf(
    list: Seq<(Text, PropertyModel)>,
    pred: spec_fn((Text, PropertyModel)) -> bool,
)
    requires
        properties_wf(list),
    ensures
        properties_wf(list.filter(pred)),
    decreases list.len(),
{
    reveal(Seq::filter);
    if list.len() > 0 {
        let rest = list.drop_last();
        let f = rest.filter(pred);
        assert(properties_wf(rest)) by {
            lemma_shorter_wf(list);
        }
        lemma_filtered_properties_wf(rest, pred);
        if pred(list.last()) {
            assert forall|i: int| 0 <= i < f.len() implies among(
                list,
                list.len() - 1,
                #[trigger] f[i],
            ) by {
                assert(f.contains(f[i]));
                lists::lemma_filter_mem(rest, pred, f[i]);
                let k = rest.index_of(f[i]);
                assert(list[k] == f[i]);
            }
            lemma_extended_wf(list, f);
        }
    }
}

proof fn lemma_shorter_wf(list: Seq<(Text, PropertyModel)>)
    requires
        list.len() > 0,
        properties_wf(list),
    ensures
        properties_wf(list.drop_last()),
{
    let rest = list.drop_last();
    assert forall|i: int, j: int| 0 <= i < j < rest.len() implies text::text_lt(
        (#[trigger] rest[i]).0,
        (#[trigger] rest[j]).0,
    ) by {
        assert(rest[i] == list[i] && rest[j] == list[j]);
    }
    assert forall|i: int| 0 <= i < rest.len() implies value::value_wf((#[trigger] rest[i]).1.value) by {
        assert(rest[i] == list[i]);
    }
}

/// Whether an entry is among the first `n` of a list.
spec fn among(list: Seq<(Text, PropertyModel)>, n: int, x: (Text, PropertyModel)) -> bool {
    exists|k: int| 0 <= k < n && #[trigger] list[k] == x
}

/// A part of a list, with its last entry.
proof fn lemma_extended_wf(list: Seq<(Text, PropertyModel)>, part: Seq<(Text, PropertyModel)>)
    requires
        list.len() > 0,
        properties_wf(list),
        properties_wf(part),
        forall|i: int| 0 <= i < part.len() ==> among(list, list.len() - 1, #[trigger] part[i]),
    ensures
        properties_wf(part.push(list.last())),
{
    let all = part.push(list.last());
    assert forall|i: int, j: int| 0 <= i < j < all.len() implies text::text_lt(
        (#[trigger] all[i]).0,
        (#[trigger] all[j]).0,
    ) by {
        assert(all[i] == part[i]);
        if j < part.len() {
            assert(all[j] == part[j]);
        } else {
            assert(among(list, list.len() - 1, part[i]));
            let k = choose|k: int| 0 <= k < list.len() - 1 && #[trigger] list[k] == part[i];
            assert(text::text_lt(list[k].0, list[list.len() - 1].0));
        }
    }
    assert forall|i: int| 0 <= i < all.len() implies value::value_wf((#[trigger] all[i]).1.value) by {
        if i < part.len() {
            assert(all[i] == part[i]);
        } else {
            assert(all[i] == list[list.len() - 1]);
        }
    }
}

/// Whether an entry is one of those that are kept.
pub open spec fn is_kept(
    list: Seq<(Text, PropertyModel)>,
    keep: Seq<bool>,
    x: (Text, PropertyModel),
) -> bool {
    exists|k: int| 0 <= k < list.len() && keep[k] && #[trigger] list[k] == x
}

/// What is kept of a list is part of it, and all that is to be kept.
pub proof fn lemma_retained(list: Seq<(Text, PropertyModel)>, keep: Seq<bool>)
    ensures
        properties_wf(list) ==> properties_wf(graph::retained(list, keep)),
        forall|i: int|
            0 <= i < graph::retained(list, keep).len() ==> is_kept(
                list,
                keep,
                #[trigger] graph::retained(list, keep)[i],
            ),
        forall|k: int|
            0 <= k < list.len() && keep[k] ==> graph::retained(list, keep).contains(
                #[trigger] list[k],
            ),
    decreases list.len(),
{
    if list.len() > 0 {
        let rest = list.drop_last();
        lemma_retained(rest, keep);
        let part = graph::retained(rest, keep);
        let whole = graph::retained(list, keep);
        assert forall|i: int| 0 <= i < part.len() implies is_kept(list, keep, #[trigger] part[i])
            && among(list, list.len() - 1, part[i]) by {
            assert(is_kept(rest, keep, part[i]));
            let k = choose|k: int|
                0 <= k < rest.len() && keep[k] && #[trigger] rest[k] == part[i];
            assert(list[k] == part[i]);
        }
        assert forall|i: int| 0 <= i < whole.len() implies is_kept(
            list,
            keep,
            #[trigger] whole[i],
        ) by {
            if i < part.len() {
                assert(whole[i] == part[i]);
            } else {
                assert(list[list.len() - 1] == whole[i]);
            }
        }
        assert forall|k: int| 0 <= k < list.len() && keep[k] implies whole.contains(
            #[trigger] list[k],
        ) by {
            if k < rest.len() {
                assert(rest[k] == list[k]);
                let i = part.index_of(rest[k]);
                assert(whole[i] == list[k]);
            } else {
                assert(whole[part.len() as int] == list[k]);
            }
        }
        if properties_wf(list) {
            lemma_shorter_wf(list);
            if keep[list.len() - 1] {
                lemma_extended_wf(list, part);
            }
        }
    }
}

/// Fewer unique ids keep the graph well-formed.
pub proof fn lemma_cleared_wf(resolutions: ResolutionsModel, g: GraphModel)
    requires
        graph_wf(g),
    ensures
        graph_wf(collisions::cleared(resolutions, g)),
{
    let h = collisions::cleared(resolutions, g);
    assert forall|r: int| 0 <= r < g.len() implies match (#[trigger] h[r]) {
        Some(node) => g[r] is Some && node.parent == g[r]->0.parent && node.referent
            == g[r]->0.referent && properties_wf(node.properties),
        None => g[r] is None,
    } by {
        if g[r] is Some {
            lemma_filtered_properties_wf(
                g[r]->0.properties,
                graph::has_other_name(dom::unique_id_key()),
            );
        }
    }
    lemma_same_rows_wf(g, h);
}

/// Fewer references keep the graph well-formed.
pub proof fn lemma_unlinked_wf(ctx: Ctx, g: GraphModel)
    requires
        graph_wf(g),
    ensures
        graph_wf(references::unlinked(ctx, g)),
{
    let h = references::unlinked(ctx, g);
    let m = references::dropped(ctx, g, g.len() as int);
    assert forall|r: int| 0 <= r < g.len() implies match (#[trigger] h[r]) {
        Some(node) => g[r] is Some && node.parent == g[r]->0.parent && node.referent
            == g[r]->0.referent && properties_wf(node.properties),
        None => g[r] is None,
    } by {
        if g[r] is Some {
            lemma_retained(
                g[r]->0.properties,
                references::kept_properties(ctx, g, m, r),
            );
        }
    }
    lemma_same_rows_wf(g, h);
}

/// Children keep the graph well-formed.
pub proof fn lemma_ordered_wf(ctx: Ctx, g: GraphModel)
    requires
        graph_wf(g),
    ensures
        graph_wf(child_order::ordered(ctx, g)),
{
    let h = child_order::ordered(ctx, g);
    assert forall|r: int| 0 <= r < g.len() implies match (#[trigger] h[r]) {
        Some(node) => g[r] is Some && node.parent == g[r]->0.parent && node.referent
            == g[r]->0.referent && properties_wf(node.properties),
        None => g[r] is None,
    } by {
        if g[r] is Some {
            assert(properties_wf(g[r]->0.properties));
        }
    }
    lemma_same_rows_wf(g, h);
}

} // verus!
