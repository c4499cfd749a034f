//! What of a file stands in the tree that is built where the merge takes it, property by
//! property, and what all trees of merges without conflicts have in common.

use rbx_types::Variant;
use vstd::prelude::*;

use crate::agreement;
use crate::agreement_laws;
use crate::clean_laws;
use crate::context;
use crate::context::Ctx;
use crate::dom;
use crate::graph::{GraphModel, NodeModel};
use crate::identity;
use crate::keyed;
use crate::merging;
use crate::merging::OutcomeModel;
use crate::properties;
use crate::properties::PropertyModel;
use crate::resolve::Side;
use crate::semantic;
use crate::semantic::{DomModel, ValueSource};
use crate::text::Text;
use crate::three_way;
use crate::tree;
use crate::tree::RefMaps;
use crate::value;
use crate::value::ValueModel;

verus! {

// ---------------------------------------------------------------------------
// Unique ids
// ---------------------------------------------------------------------------

/// The nil unique id is that of one surviving row at most.
pub open spec fn nil_once(f: GraphModel) -> bool {
    forall|r: int, s: int|
        0 <= r < s < f.len() && (#[trigger] f[r]) is Some && (#[trigger] f[s]) is Some ==> !(
        tree::row_id(f[r]->0) == Some(0u128) && tree::row_id(f[s]->0) == Some(0u128))
}

/// In the tree of a merge without conflicts no unique id occurs twice, as long as the nil
/// one does not.
pub proof fn law_built_unique_ids_are_distinct(
    ctx: Ctx,
    g: GraphModel,
    outcome: OutcomeModel,
    x: u128,
    y: u128,
)
    requires
        ctx.wf(),
        merging::is_merged_graph(ctx, g),
        merging::outcome_of(ctx, g, outcome),
        outcome is Merged,
        nil_once(merging::finished(ctx, g)),
        outcome->Merged_0.instances.contains_key(x),
        outcome->Merged_0.instances.contains_key(y),
        x != y,
        dom::brought_id(outcome->Merged_0.instances[x].properties) is Some,
    ensures
        dom::brought_id(outcome->Merged_0.instances[x].properties) != dom::brought_id(
            outcome->Merged_0.instances[y].properties,
        ),
{
    let f = merging::finished(ctx, g);
    let built = outcome->Merged_0;
    let maps = tree::final_refs(ctx, f, g.len() as int);
    assert forall|r: int, s: int|
        0 <= r < s < f.len() && (#[trigger] f[r]) is Some && (#[trigger] f[s]) is Some
            && tree::row_id(f[r]->0) is Some implies tree::row_id(f[r]->0) != tree::row_id(
        f[s]->0,
    ) by {
        if tree::row_id(f[r]->0) == tree::row_id(f[s]->0) && tree::row_id(f[r]->0) != Some(0u128) {
            merging::lemma_same_rows_survive(ctx, g, r);
            clean_laws::law_clean_merge_has_distinct_unique_ids(ctx, g, r, s);
        }
    }
    assert(tree::ids_distinct(f));
    let r = choose|r: usize| #[trigger] tree::reached(f, r) && f[r as int]->0.referent == x;
    let s = choose|s: usize| #[trigger] tree::reached(f, s) && f[s as int]->0.referent == y;
    assert(tree::row_built(maps, f, r, built));
    assert(tree::row_built(maps, f, s, built));
    tree::lemma_brought_id(maps, f[r as int]->0, built.instances[x].properties);
    tree::lemma_brought_id(maps, f[s as int]->0, built.instances[y].properties);
}

// ---------------------------------------------------------------------------
// Properties
// ---------------------------------------------------------------------------

/// A referent of a file as it stands in a tree whose instances have these referents: nil
/// stays nil, that of an instance becomes the one that the instance has in the tree, and
/// any other stays as it is.
pub open spec fn ref_in_tree(d: DomModel, refs: Seq<u128>, r: u128) -> u128 {
    if r == 0 {
        0
    } else {
        match semantic::node_of_ref(d, r) {
            Some(i) => refs[i as int],
            None => r,
        }
    }
}

/// Two leaves that count as the same.
pub open spec fn same_leaf(a: Variant, b: Variant) -> bool {
    a == b || value::leaf_equal(a, b) || value::leaf_equal(b, a)
}

/// Whether an attribute map has the leaves of another one under their names, and no others.
pub open spec fn same_attributes(v: Option<ValueModel>, x: Option<ValueModel>) -> bool {
    forall|key: Text|
        match #[trigger] properties::attribute(v, key) {
            Some(ValueModel::Leaf(a)) => properties::attribute(x, key) matches Some(
                ValueModel::Leaf(b),
            ) && same_leaf(a, b),
            _ => !(properties::attribute(x, key) matches Some(ValueModel::Leaf(_))),
        }
}

/// Whether a property stands in a tree as a file has it: a leaf counts as that of the
/// file, a referent is that of the same instance, and an attribute map has the same
/// attributes. An empty attribute map may stand for none.
pub open spec fn stands_in_tree(
    d: DomModel,
    refs: Seq<u128>,
    v: Option<ValueModel>,
    x: Option<ValueModel>,
) -> bool {
    match v {
        Some(ValueModel::Leaf(a)) => x matches Some(ValueModel::Leaf(b)) && same_leaf(a, b),
        Some(ValueModel::Ref(r)) => x == Some(ValueModel::Ref(ref_in_tree(d, refs, r))),
        Some(ValueModel::Object(r)) => x == Some(ValueModel::Object(ref_in_tree(d, refs, r))),
        Some(ValueModel::Attributes(_)) => x matches Some(ValueModel::Attributes(_))
            && same_attributes(v, x),
        None => x is None || (x matches Some(ValueModel::Attributes(_)) && same_attributes(v, x)),
    }
}

/// The value of a property of an instance in a tree.
pub open spec fn value_at(properties: Map<Text, Variant>, key: Text) -> Option<ValueModel> {
    if properties.contains_key(key) {
        Some(value::value_of(properties[key]))
    } else {
        None
    }
}

/// Whether all properties of an instance but its unique id stand in a tree as a file has
/// them.
pub open spec fn properties_stand(
    d: DomModel,
    refs: Seq<u128>,
    list: Seq<(Text, ValueModel)>,
    written: Map<Text, Variant>,
) -> bool {
    forall|key: Text|
        key != dom::unique_id_key() ==> stands_in_tree(
            d,
            refs,
            #[trigger] keyed::lookup(list, key),
            value_at(written, key),
        )
}

/// The referents that the instances of a side have in the merged tree.
pub open spec fn merged_refs(ctx: Ctx, f: GraphModel, w: Side) -> Seq<u128> {
    Seq::new(
        ctx.file(three_way::source_of_side(w))->0.len(),
        |i: int| agreement_laws::merged_referent(ctx, f, w, i as usize),
    )
}

/// The rows of a graph are as a side has them.
pub open spec fn all_taken(ctx: Ctx, f: GraphModel, w: Side) -> bool {
    &&& f.len() == ctx.rows.entries.len()
    &&& forall|r: int|
        0 <= r < ctx.rows.entries.len() ==> #[trigger] agreement_laws::row_is_taken(ctx, f, w, r)
}

/// A referent that leads to a row becomes that of the row.
proof fn lemma_row_ref(ctx: Ctx, f: GraphModel, w: Side, s: Side, b: u128, r: usize)
    requires
        ctx.wf(),
        all_taken(ctx, f, w),
        ctx.target(three_way::source_of_side(s), b) == Some(r),
        r < ctx.rows.entries.len(),
        ctx.nodes(ctx.rows.entries[r as int]).of(w) is Some,
    ensures
        tree::rewritten_ref(
            tree::final_refs(ctx, f, f.len() as int),
            three_way::source_of_side(s),
            b,
        ) == f[r as int]->0.referent,
{
    clean_laws::lemma_target_row(ctx, s, b);
    assert(agreement_laws::row_is_taken(ctx, f, w, r as int));
    clean_laws::lemma_final_refs(ctx, f, f.len() as int, r as int, s);
}

/// Two references that are the same lead to the same row, or are literally the same.
proof fn lemma_same_ref(ctx: Ctx, w: Side, s: Side, b: u128, a: u128)
    requires
        same_ref(ctx, w, s, b, a),
    ensures
        a == 0 <==> b == 0,
        ctx.target(three_way::source_of_side(w), a) == ctx.target(
            three_way::source_of_side(s),
            b,
        ),
        ctx.target(three_way::source_of_side(w), a) is None ==> a == b,
{
}

/// Whether a reference of a side is the same as one of another side.
pub open spec fn same_ref(ctx: Ctx, w: Side, s: Side, b: u128, a: u128) -> bool {
    ||| a == b && s == w
    ||| ctx.ref_equal(b, three_way::source_of_side(s), a, three_way::source_of_side(w))
    ||| ctx.ref_equal(a, three_way::source_of_side(w), b, three_way::source_of_side(s))
}

/// A reference that is that of a side leads to the instance that it leads to there.
proof fn lemma_ref_stands(ctx: Ctx, f: GraphModel, w: Side, s: Side, b: u128, a: u128)
    requires
        ctx.wf(),
        all_taken(ctx, f, w),
        same_ref(ctx, w, s, b, a),
    ensures
        tree::rewritten_ref(
            tree::final_refs(ctx, f, f.len() as int),
            three_way::source_of_side(s),
            b,
        ) == ref_in_tree(
            ctx.file(three_way::source_of_side(w))->0,
            merged_refs(ctx, f, w),
            a,
        ),
{
    let maps = tree::final_refs(ctx, f, f.len() as int);
    let d = ctx.file(three_way::source_of_side(w))->0;
    lemma_same_ref(ctx, w, s, b, a);
    if a != 0 {
        lemma_has_target(ctx, w, a);
        match ctx.target(three_way::source_of_side(w), a) {
            Some(r) => {
                clean_laws::lemma_target_row(ctx, w, a);
                lemma_row_ref(ctx, f, w, s, b, r);
                semantic::lemma_node_of_ref_some(d, a);
            },
            None => {
                lemma_has_target(ctx, s, b);
                if clean_laws::map_of(maps, s).contains_key(b) {
                    lemma_final_refs_known(ctx, f, f.len() as int, s, b);
                }
            },
        }
    }
}

/// A referent other than nil leads to a row where it is that of an instance.
proof fn lemma_has_target(ctx: Ctx, s: Side, a: u128)
    requires
        ctx.wf(),
    ensures
        a != 0 ==> (ctx.target(three_way::source_of_side(s), a) is Some <==> semantic::node_of_ref(
            ctx.file(three_way::source_of_side(s))->0,
            a,
        ) is Some),
{
    let d = ctx.file(three_way::source_of_side(s))->0;
    if semantic::node_of_ref(d, a) is Some {
        semantic::lemma_node_of_ref_some(d, a);
    }
}

/// What is noted down is the referent of an instance.
proof fn lemma_final_refs_known(ctx: Ctx, f: GraphModel, n: int, s: Side, b: u128)
    requires
        ctx.wf(),
        0 <= n <= ctx.rows.entries.len(),
        clean_laws::map_of(tree::final_refs(ctx, f, n), s).contains_key(b),
    ensures
        semantic::node_of_ref(ctx.file(three_way::source_of_side(s))->0, b) is Some,
    decreases n,
{
    if n > 0 {
        context::lemma_entry_wf(ctx, n - 1);
        let before = clean_laws::map_of(tree::final_refs(ctx, f, n - 1), s);
        if before.contains_key(b) {
            lemma_final_refs_known(ctx, f, n - 1, s, b);
        } else {
            let node = ctx.nodes(ctx.rows.entries[n - 1]).of(s);
            assert(node is Some && node->0.source_ref == b);
            let d = ctx.file(three_way::source_of_side(s))->0;
            let entry = ctx.rows.entries[n - 1];
            let i = match s {
                Side::Base => entry.base->0,
                Side::Ours => entry.ours->0,
                Side::Theirs => entry.theirs->0,
            };
            assert(d[i as int].source_ref == b);
        }
    }
}

/// Values that are the same have the same entries, where they are attribute maps.
proof fn lemma_equal_entries(
    ctx: Ctx,
    a: Seq<(Text, ValueModel)>,
    s: ValueSource,
    b: Seq<(Text, ValueModel)>,
    t: ValueSource,
    key: Text,
)
    requires
        ctx.value_equal(ValueModel::Attributes(a), s, ValueModel::Attributes(b), t),
    ensures
        match (keyed::lookup(a, key), keyed::lookup(b, key)) {
            (None, None) => true,
            (Some(x), Some(y)) => ctx.value_equal(x, s, y, t),
            _ => false,
        },
{
    assert forall|i: int| 0 <= i < a.len() implies (#[trigger] a[i]).0 == b[i].0
        && ctx.value_equal(a[i].1, s, b[i].1, t) by {}
    if keyed::lookup(a, key) is Some {
        let i = keyed::lemma_lookup_some(a, key);
        assert forall|j: int| 0 <= j < i implies (#[trigger] b[j]).0 != b[i].0 by {
            assert(a[j].0 == b[j].0);
        }
        assert(a[i].0 == b[i].0);
        keyed::lemma_lookup_first(b, i);
    } else {
        keyed::lemma_lookup_absent(a, key);
        assert forall|j: int| 0 <= j < b.len() implies (#[trigger] b[j]).0 != key by {
            assert(a[j].0 == b[j].0);
        }
        keyed::lemma_lookup_none(b, key);
    }
}

/// The entry of a name in a list whose referents were rewritten.
proof fn lemma_rewritten_entry(
    maps: RefMaps,
    source: ValueSource,
    list: Seq<(Text, ValueModel)>,
    key: Text,
)
    ensures
        keyed::lookup(tree::rewritten_list(maps, source, list), key) == (match keyed::lookup(
            list,
            key,
        ) {
            Some(v) => Some(tree::rewritten(maps, source, v)),
            None => None,
        }),
{
    let after = tree::rewritten_list(maps, source, list);
    tree::lemma_rewritten_list(maps, source, list);
    if keyed::lookup(list, key) is Some {
        let i = keyed::lemma_lookup_some(list, key);
        assert(after[i] == (list[i].0, tree::rewritten(maps, source, list[i].1)));
        assert forall|j: int| 0 <= j < i implies (#[trigger] after[j]).0 != after[i].0 by {
            assert(list[j].0 != key);
        }
        keyed::lemma_lookup_first(after, i);
    } else {
        keyed::lemma_lookup_absent(list, key);
        assert forall|j: int| 0 <= j < after.len() implies (#[trigger] after[j]).0 != key by {
            assert(list[j].0 != key);
        }
        keyed::lemma_lookup_none(after, key);
    }
}

/// Rewriting referents leaves the leaves of an attribute map as they are.
proof fn lemma_rewritten_attributes(
    maps: RefMaps,
    source: ValueSource,
    m: ValueModel,
    v: Option<ValueModel>,
)
    requires
        m is Attributes,
        same_attributes(v, Some(m)),
    ensures
        tree::rewritten(maps, source, m) is Attributes,
        same_attributes(v, Some(tree::rewritten(maps, source, m))),
{
    let x = Some(tree::rewritten(maps, source, m));
    let list = m->Attributes_0;
    assert(tree::rewritten(maps, source, m) == ValueModel::Attributes(
        tree::rewritten_list(maps, source, list),
    ));
    assert forall|key: Text|
        match #[trigger] properties::attribute(v, key) {
            Some(ValueModel::Leaf(a)) => properties::attribute(x, key) matches Some(
                ValueModel::Leaf(b),
            ) && same_leaf(a, b),
            _ => !(properties::attribute(x, key) matches Some(ValueModel::Leaf(_))),
        } by {
        lemma_rewritten_entry(maps, source, list, key);
        assert(properties::attribute(Some(m), key) == keyed::lookup(list, key));
    }
}

/// An attribute map that counts as another has its leaves.
proof fn lemma_counted_attributes(
    ctx: Ctx,
    a: ValueModel,
    s: ValueSource,
    b: ValueModel,
    t: ValueSource,
)
    requires
        agreement::counts_as(ctx, a, s, b, t),
        a is Attributes,
    ensures
        b is Attributes,
        same_attributes(Some(b), Some(a)),
{
    if !(a == b && s == t) {
        let (x, y) = (a->Attributes_0, b->Attributes_0);
        assert forall|key: Text|
            match #[trigger] properties::attribute(Some(b), key) {
                Some(ValueModel::Leaf(u)) => properties::attribute(Some(a), key) matches Some(
                    ValueModel::Leaf(v),
                ) && same_leaf(u, v),
                _ => !(properties::attribute(Some(a), key) matches Some(ValueModel::Leaf(_))),
            } by {
            if ctx.value_equal(a, s, b, t) {
                lemma_equal_entries(ctx, x, s, y, t, key);
            } else {
                lemma_equal_entries(ctx, y, t, x, s, key);
            }
        }
    }
}

/// A value that reflects one of a side is a leaf where that is one, and counts as it.
proof fn lemma_reflected_leaf(
    ctx: Ctx,
    w: Side,
    m: Option<ValueModel>,
    v: Option<ValueModel>,
)
    requires
        agreement::reflects(ctx, w, m, v),
    ensures
        match v {
            Some(ValueModel::Leaf(a)) => m matches Some(ValueModel::Leaf(b)) && same_leaf(a, b),
            _ => !(m matches Some(ValueModel::Leaf(_))),
        },
{
}

/// An attribute map that reflects that of a side has its leaves.
proof fn lemma_reflected_attributes(ctx: Ctx, w: Side, m: ValueModel, v: Option<ValueModel>)
    requires
        agreement::reflects(ctx, w, Some(m), v),
        m is Attributes,
    ensures
        v is Some ==> v->0 is Attributes,
        same_attributes(v, Some(m)),
{
    if v is Some && exists|s: Side| #[trigger]
        agreement::counts_as(
            ctx,
            m,
            three_way::source_of_side(s),
            v->0,
            three_way::source_of_side(w),
        ) {
        let s = choose|s: Side| #[trigger]
            agreement::counts_as(
                ctx,
                m,
                three_way::source_of_side(s),
                v->0,
                three_way::source_of_side(w),
            );
        lemma_counted_attributes(
            ctx,
            m,
            three_way::source_of_side(s),
            v->0,
            three_way::source_of_side(w),
        );
    } else {
        assert forall|key: Text|
            match #[trigger] properties::attribute(v, key) {
                Some(ValueModel::Leaf(a)) => properties::attribute(Some(m), key) matches Some(
                    ValueModel::Leaf(b),
                ) && same_leaf(a, b),
                _ => !(properties::attribute(Some(m), key) matches Some(ValueModel::Leaf(_))),
            } by {
            assert(agreement::reflects(
                ctx,
                w,
                properties::attribute(Some(m), key),
                properties::attribute(v, key),
            ));
            lemma_reflected_leaf(
                ctx,
                w,
                properties::attribute(Some(m), key),
                properties::attribute(v, key),
            );
        }
    }
}

/// What a merged property is in the tree.
pub open spec fn rewritten_property(maps: RefMaps, p: Option<PropertyModel>) -> Option<ValueModel> {
    match p {
        Some(p) => Some(tree::rewritten(maps, p.source, p.value)),
        None => None,
    }
}

/// A property that is that of a side stands in the tree as that side has it.
proof fn lemma_property_stands(
    ctx: Ctx,
    f: GraphModel,
    w: Side,
    p: Option<PropertyModel>,
    v: Option<ValueModel>,
)
    requires
        ctx.wf(),
        all_taken(ctx, f, w),
        agreement::property_reflects(ctx, w, p, v),
    ensures
        stands_in_tree(
            ctx.file(three_way::source_of_side(w))->0,
            merged_refs(ctx, f, w),
            v,
            rewritten_property(tree::final_refs(ctx, f, f.len() as int), p),
        ),
{
    let maps = tree::final_refs(ctx, f, f.len() as int);
    if let Some(p) = p {
        if p.source is Merged {
            lemma_reflected_attributes(ctx, w, p.value, v);
            lemma_rewritten_attributes(maps, p.source, p.value, v);
        } else {
            let s = match p.source {
                ValueSource::Base => Side::Base,
                ValueSource::Ours => Side::Ours,
                _ => Side::Theirs,
            };
            assert(three_way::source_of_side(s) == p.source);
            match (p.value, v->0) {
                (ValueModel::Ref(b), ValueModel::Ref(a)) => {
                    lemma_ref_stands(ctx, f, w, s, b, a);
                },
                (ValueModel::Object(b), ValueModel::Object(a)) => {
                    lemma_ref_stands(ctx, f, w, s, b, a);
                },
                (ValueModel::Attributes(_), _) => {
                    lemma_counted_attributes(
                        ctx,
                        p.value,
                        p.source,
                        v->0,
                        three_way::source_of_side(w),
                    );
                    lemma_rewritten_attributes(maps, p.source, p.value, v);
                },
                _ => {},
            }
        }
    }
}

/// What a tree holds of a row under a name other than that of the unique id.
proof fn lemma_row_value(maps: RefMaps, node: NodeModel, written: Map<Text, Variant>, key: Text)
    requires
        tree::nearly_holds(maps, node, written),
        key != dom::unique_id_key(),
    ensures
        value_at(written, key) == rewritten_property(maps, keyed::lookup(node.properties, key)),
{
    let brought = choose|brought: Map<Text, Variant>| #[trigger]
        tree::holds_properties(maps, node.properties, brought) && tree::same_but_id(
            node,
            brought,
            written,
        );
    assert(value_at(written, key) == value_at(brought, key));
    let v = brought[key];
    assert(match keyed::lookup(node.properties, key) {
        Some(p) => brought.contains_key(key) && value::value_of(v) == tree::rewritten(
            maps,
            p.source,
            p.value,
        ),
        None => !brought.contains_key(key),
    });
}

/// The properties of a row stand in the tree as a side has them.
proof fn lemma_row_stands(
    ctx: Ctx,
    f: GraphModel,
    w: Side,
    r: int,
    written: Map<Text, Variant>,
)
    requires
        ctx.wf(),
        all_taken(ctx, f, w),
        0 <= r < f.len(),
        f[r] is Some,
        tree::nearly_holds(tree::final_refs(ctx, f, f.len() as int), f[r]->0, written),
    ensures
        properties_stand(
            ctx.file(three_way::source_of_side(w))->0,
            merged_refs(ctx, f, w),
            ctx.nodes(ctx.rows.entries[r]).of(w)->0.properties,
            written,
        ),
{
    let d = ctx.file(three_way::source_of_side(w))->0;
    let list = ctx.nodes(ctx.rows.entries[r]).of(w)->0.properties;
    let maps = tree::final_refs(ctx, f, f.len() as int);
    assert(agreement_laws::row_is_taken(ctx, f, w, r));
    assert forall|key: Text| key != dom::unique_id_key() implies stands_in_tree(
        d,
        merged_refs(ctx, f, w),
        #[trigger] keyed::lookup(list, key),
        value_at(written, key),
    ) by {
        lemma_row_value(maps, f[r]->0, written, key);
        let p = keyed::lookup(f[r]->0.properties, key);
        assert(agreement::property_reflects(ctx, w, p, keyed::lookup(list, key)));
        lemma_property_stands(ctx, f, w, p, keyed::lookup(list, key));
    }
}

/// Where the merge takes a side, every property of an instance of that side but the unique
/// id stands in the merged tree as that side has it, and no others do.
pub proof fn law_taken_properties_are_built(
    ctx: Ctx,
    g: GraphModel,
    w: Side,
    outcome: OutcomeModel,
    i: usize,
)
    requires
        ctx.wf(),
        merging::is_merged_graph(ctx, g),
        agreement_laws::takes_side(ctx, g, w),
        merging::outcome_of(ctx, g, outcome),
        i < ctx.file(three_way::source_of_side(w))->0.len(),
    ensures
        outcome is Merged,
        ({
            let f = merging::finished(ctx, g);
            let d = ctx.file(three_way::source_of_side(w))->0;
            properties_stand(
                d,
                merged_refs(ctx, f, w),
                d[i as int].properties,
                outcome->Merged_0.instances[agreement_laws::merged_referent(
                    ctx,
                    f,
                    w,
                    i,
                )].properties,
            )
        }),
{
    let f = merging::finished(ctx, g);
    let r = identity::row_of(ctx.rows, three_way::source_of_side(w), i)->0;
    agreement_laws::lemma_row_of_taken(ctx, f, w, i);
    assert(tree::row_built(
        tree::final_refs(ctx, f, g.len() as int),
        f,
        r,
        outcome->Merged_0,
    ));
    lemma_row_stands(
        ctx,
        f,
        w,
        r as int,
        outcome->Merged_0.instances[f[r as int]->0.referent].properties,
    );
}

} // verus!
