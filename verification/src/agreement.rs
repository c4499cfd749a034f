//! When two sides of a row agree, and what the merge makes of the values of such a
//! row.

use vstd::prelude::*;

use crate::context::Ctx;
use crate::dom;
use crate::keyed;
use crate::properties;
use crate::properties::{PropertyModel, PropertyOutcome, Values};
use crate::resolve::Side;
use crate::rows;
use crate::semantic::{InstanceModel, ValueSource};
use crate::text::Text;
use crate::three_way;
use crate::three_way::Sides;
use crate::value::ValueModel;

verus! {

/// Whether two optional values of different sides are the same, whichever of them
/// is compared with the other.
pub open spec fn same_value(
    ctx: Ctx,
    a: Option<ValueModel>,
    x: Side,
    b: Option<ValueModel>,
    y: Side,
) -> bool {
    let (s, t) = (three_way::source_of_side(x), three_way::source_of_side(y));
    ctx.option_equal(a, s, b, t) && ctx.option_equal(b, t, a, s)
}

/// Whether a value counts as another one, compared either way round.
pub open spec fn counts_as(
    ctx: Ctx,
    a: ValueModel,
    s: ValueSource,
    b: ValueModel,
    t: ValueSource,
) -> bool {
    (a == b && s == t) || ctx.value_equal(a, s, b, t) || ctx.value_equal(b, t, a, s)
}

/// The values of a property for which one side prevails: ours does if theirs is
/// that of the base or that of ours, theirs does if ours is that of the base.
pub open spec fn value_prevails(ctx: Ctx, values: Values, w: Side) -> bool {
    match w {
        Side::Base => false,
        Side::Ours => same_value(ctx, values.theirs, Side::Theirs, values.base, Side::Base)
            || same_value(ctx, values.ours, Side::Ours, values.theirs, Side::Theirs),
        Side::Theirs => same_value(ctx, values.ours, Side::Ours, values.base, Side::Base),
    }
}

/// Whether a merged value is that of a side. An attribute map is compared name by
/// name, and an absent one with an empty one.
pub open spec fn reflects(
    ctx: Ctx,
    w: Side,
    m: Option<ValueModel>,
    v: Option<ValueModel>,
) -> bool
    decreases properties::option_height(m) + properties::option_height(v),
{
    ||| m is None && v is None
    ||| m is Some && v is Some && exists|s: Side| #[trigger]
        counts_as(
            ctx,
            m->0,
            three_way::source_of_side(s),
            v->0,
            three_way::source_of_side(w),
        )
    ||| m is Some && m->0 is Attributes && properties::absent_or_attributes(v) && forall|key: Text|
        properties::option_height(#[trigger] properties::attribute(m, key))
            + properties::option_height(properties::attribute(v, key))
            < properties::option_height(m) + properties::option_height(v) && reflects(
            ctx,
            w,
            properties::attribute(m, key),
            properties::attribute(v, key),
        )
}

/// Whether a merged property is that of a side.
pub open spec fn property_reflects(
    ctx: Ctx,
    w: Side,
    p: Option<PropertyModel>,
    v: Option<ValueModel>,
) -> bool {
    match p {
        None => v is None,
        Some(p) => if p.source is Merged {
            p.value is Attributes && reflects(ctx, w, Some(p.value), v)
        } else {
            v is Some && counts_as(
                ctx,
                p.value,
                p.source,
                v->0,
                three_way::source_of_side(w),
            )
        },
    }
}

/// What becomes of a property, as a property.
pub open spec fn kept(outcome: PropertyOutcome) -> Option<PropertyModel> {
    match outcome {
        PropertyOutcome::Keep(p) => Some(p),
        _ => None,
    }
}

pub open spec fn kept_value(outcome: PropertyOutcome) -> Option<ValueModel> {
    match outcome {
        PropertyOutcome::Keep(p) => Some(p.value),
        _ => None,
    }
}

// ---------------------------------------------------------------------------
// Attribute maps
// ---------------------------------------------------------------------------

/// Equal attribute maps have equal entries.
proof fn lemma_equal_entries(
    ctx: Ctx,
    x: Seq<(Text, ValueModel)>,
    s: ValueSource,
    y: Seq<(Text, ValueModel)>,
    t: ValueSource,
    key: Text,
)
    requires
        ctx.value_equal(ValueModel::Attributes(x), s, ValueModel::Attributes(y), t),
    ensures
        ctx.option_equal(keyed::lookup(x, key), s, keyed::lookup(y, key), t),
{
    if keyed::lookup(x, key) is Some {
        let i = keyed::lemma_lookup_some(x, key);
        assert forall|j: int| 0 <= j < i implies (#[trigger] y[j]).0 != y[i].0 by {
            assert(x[j].0 == y[j].0);
        }
        assert(x[i].0 == y[i].0);
        keyed::lemma_lookup_first(y, i);
    } else {
        keyed::lemma_lookup_absent(x, key);
        assert forall|j: int| 0 <= j < y.len() implies (#[trigger] y[j]).0 != key by {
            assert(x[j].0 == y[j].0);
        }
        keyed::lemma_lookup_none(y, key);
    }
}

/// The entries of equal values are equal.
proof fn lemma_equal_attributes(
    ctx: Ctx,
    a: Option<ValueModel>,
    x: Side,
    b: Option<ValueModel>,
    y: Side,
    key: Text,
)
    requires
        same_value(ctx, a, x, b, y),
    ensures
        same_value(ctx, properties::attribute(a, key), x, properties::attribute(b, key), y),
{
    match (a, b) {
        (Some(ValueModel::Attributes(p)), Some(ValueModel::Attributes(q))) => {
            let (s, t) = (three_way::source_of_side(x), three_way::source_of_side(y));
            lemma_equal_entries(ctx, p, s, q, t, key);
            lemma_equal_entries(ctx, q, t, p, s, key);
        },
        _ => {},
    }
}

/// Where a side prevails for attribute maps, it does for their entries.
proof fn lemma_nested_prevails(ctx: Ctx, values: Values, w: Side, key: Text)
    requires
        value_prevails(ctx, values, w),
    ensures
        value_prevails(ctx, properties::nested(values, key), w),
{
    if w == Side::Ours {
        if same_value(ctx, values.theirs, Side::Theirs, values.base, Side::Base) {
            lemma_equal_attributes(ctx, values.theirs, Side::Theirs, values.base, Side::Base, key);
        } else {
            lemma_equal_attributes(ctx, values.ours, Side::Ours, values.theirs, Side::Theirs, key);
        }
    } else {
        lemma_equal_attributes(ctx, values.ours, Side::Ours, values.base, Side::Base, key);
    }
}

/// What an entry behind a list changes.
pub proof fn lemma_lookup_push<V>(list: Seq<(Text, V)>, key: Text, v: V, k: Text)
    ensures
        keyed::lookup(list.push((key, v)), k) == (match keyed::lookup(list, k) {
            Some(x) => Some(x),
            None => if k == key {
                Some(v)
            } else {
                None
            },
        }),
    decreases list.len(),
{
    let whole = list.push((key, v));
    if list.len() == 0 {
        assert(whole.drop_first() =~= Seq::<(Text, V)>::empty());
    } else {
        assert(whole.drop_first() =~= list.drop_first().push((key, v)));
        lemma_lookup_push(list.drop_first(), key, v, k);
    }
}

/// The names of the entries of an attribute map.
proof fn lemma_attribute_named(v: Option<ValueModel>, key: Text)
    ensures
        properties::attribute(v, key) is Some ==> properties::attribute_keys(v).contains(key),
{
    if let Some(ValueModel::Attributes(list)) = v {
        if keyed::lookup(list, key) is Some {
            let i = keyed::lemma_lookup_some(list, key);
            assert(keyed::keys_of(list)[i] == key);
        }
    }
}

pub proof fn lemma_all_named(values: Values, key: Text)
    ensures
        !properties::all_attribute_keys(values).contains(key) ==> properties::nested(values, key)
            == (Sides { base: None::<ValueModel>, ours: None, theirs: None }),
{
    let a = properties::attribute_keys(values.base);
    let b = properties::attribute_keys(values.ours);
    let c = properties::attribute_keys(values.theirs);
    lemma_attribute_named(values.base, key);
    lemma_attribute_named(values.ours, key);
    lemma_attribute_named(values.theirs, key);
    keyed::lemma_key_union_contains(a, b, key);
    keyed::lemma_key_union_contains(keyed::key_union(a, b), c, key);
}

/// The entries of merged attribute maps where none is in conflict: those of the
/// names given are the merged ones, and there are no others.
proof fn lemma_merged_entries(ctx: Ctx, keys: Seq<Text>, values: Values)
    requires
        properties::size(values) > 0,
        forall|k: Text|
            !(#[trigger] properties::merged_value(
                ctx,
                properties::attributes_key(),
                properties::nested(values, k),
            ) is Conflict),
    ensures
        properties::merged_attributes(ctx, keys, values) is Some,
        forall|k: Text|
            #[trigger] keyed::lookup(properties::merged_attributes(ctx, keys, values)->0, k) == (
            if keys.contains(k) {
                kept_value(
                    properties::merged_value(
                        ctx,
                        properties::attributes_key(),
                        properties::nested(values, k),
                    ),
                )
            } else {
                None
            }),
    decreases keys.len(),
{
    if keys.len() > 0 {
        let rest = keys.drop_last();
        let last = keys.last();
        lemma_merged_entries(ctx, rest, values);
        let before = properties::merged_attributes(ctx, rest, values)->0;
        let outcome = properties::merged_value(
            ctx,
            properties::attributes_key(),
            properties::nested(values, last),
        );
        let list = properties::merged_attributes(ctx, keys, values)->0;
        assert forall|k: Text| #[trigger] keyed::lookup(list, k) == (if keys.contains(k) {
            kept_value(
                properties::merged_value(
                    ctx,
                    properties::attributes_key(),
                    properties::nested(values, k),
                ),
            )
        } else {
            None
        }) by {
            if rest.contains(k) {
                assert(keys[rest.index_of(k)] == k);
            } else if keys.contains(k) {
                let i = keys.index_of(k);
                if i < rest.len() {
                    assert(rest[i] == k);
                }
            }
            assert(keys[keys.len() - 1] == last);
            if let PropertyOutcome::Keep(p) = outcome {
                lemma_lookup_push(before, last, p.value, k);
            }
        }
    }
}

/// Where a side prevails, the merged value is its value.
pub proof fn lemma_prevailing_value(ctx: Ctx, key: Text, values: Values, w: Side)
    requires
        value_prevails(ctx, values, w),
    ensures
        !(properties::merged_value(ctx, key, values) is Conflict),
        property_reflects(ctx, w, kept(properties::merged_value(ctx, key, values)), values.of(w)),
        reflects(
            ctx,
            w,
            kept_value(properties::merged_value(ctx, key, values)),
            values.of(w),
        ),
    decreases properties::size(values),
{
    let outcome = properties::merged_value(ctx, key, values);
    if key == properties::attributes_key() && properties::attributes_apply(values) {
        assert(properties::size(values) > 0);
        assert forall|k: Text|
            !(#[trigger] properties::merged_value(
                ctx,
                properties::attributes_key(),
                properties::nested(values, k),
            ) is Conflict) by {
            properties::lemma_nested_size(values, k);
            lemma_nested_prevails(ctx, values, w, k);
            lemma_prevailing_value(
                ctx,
                properties::attributes_key(),
                properties::nested(values, k),
                w,
            );
        }
        let keys = properties::all_attribute_keys(values);
        lemma_merged_entries(ctx, keys, values);
        let m = kept_value(outcome);
        let v = values.of(w);
        assert forall|k: Text|
            properties::option_height(#[trigger] properties::attribute(m, k))
                + properties::option_height(properties::attribute(v, k))
                < properties::option_height(m) + properties::option_height(v) && reflects(
                ctx,
                w,
                properties::attribute(m, k),
                properties::attribute(v, k),
            ) by {
            properties::lemma_attribute_height(m, k);
            properties::lemma_attribute_height(v, k);
            let inner = properties::nested(values, k);
            assert(inner.of(w) == properties::attribute(v, k));
            if keys.contains(k) {
                properties::lemma_nested_size(values, k);
                lemma_nested_prevails(ctx, values, w, k);
                lemma_prevailing_value(ctx, properties::attributes_key(), inner, w);
            } else {
                lemma_all_named(values, k);
            }
        }
        assert(reflects(ctx, w, m, v));
    } else {
        let side = properties::winner(ctx, values)->0;
        if values.of(side) is Some {
            assert(counts_as(
                ctx,
                values.of(side)->0,
                three_way::source_of_side(side),
                values.of(w)->0,
                three_way::source_of_side(w),
            ));
        }
    }
}

/// The side that prevails for an attribute, where each is edited by one side only.
pub open spec fn editor(edited_by_ours: spec_fn(Text) -> bool, key: Text) -> Side {
    if edited_by_ours(key) {
        Side::Ours
    } else {
        Side::Theirs
    }
}

/// Edits of different attributes compose: where no attribute is edited by both
/// sides, the attribute maps merge without a conflict, and every attribute is that of
/// the side that edited it.
pub proof fn law_disjoint_attribute_edits_compose(
    ctx: Ctx,
    values: Values,
    edited_by_ours: spec_fn(Text) -> bool,
)
    requires
        properties::attributes_apply(values),
        forall|key: Text|
            value_prevails(
                ctx,
                #[trigger] properties::nested(values, key),
                editor(edited_by_ours, key),
            ),
    ensures
        ({
            let outcome = properties::merged_value(ctx, properties::attributes_key(), values);
            &&& outcome is Keep
            &&& outcome->Keep_0.value is Attributes
            &&& forall|key: Text|
                reflects(
                    ctx,
                    editor(edited_by_ours, key),
                    #[trigger] keyed::lookup(outcome->Keep_0.value->Attributes_0, key),
                    properties::nested(values, key).of(editor(edited_by_ours, key)),
                )
        }),
{
    let outcome = properties::merged_value(ctx, properties::attributes_key(), values);
    assert(properties::size(values) > 0);
    assert forall|k: Text|
        !(#[trigger] properties::merged_value(
            ctx,
            properties::attributes_key(),
            properties::nested(values, k),
        ) is Conflict) by {
        lemma_prevailing_value(
            ctx,
            properties::attributes_key(),
            properties::nested(values, k),
            editor(edited_by_ours, k),
        );
    }
    let keys = properties::all_attribute_keys(values);
    lemma_merged_entries(ctx, keys, values);
    let list = properties::merged_attributes(ctx, keys, values)->0;
    assert forall|k: Text|
        reflects(
            ctx,
            editor(edited_by_ours, k),
            #[trigger] keyed::lookup(list, k),
            properties::nested(values, k).of(editor(edited_by_ours, k)),
        ) by {
        if keys.contains(k) {
            lemma_prevailing_value(
                ctx,
                properties::attributes_key(),
                properties::nested(values, k),
                editor(edited_by_ours, k),
            );
        } else {
            lemma_all_named(values, k);
        }
    }
}

/// A unique id is never in conflict: where it differs on all sides it was made anew,
/// and the merged one is that of one of the sides.
pub proof fn law_unique_ids_never_conflict(ctx: Ctx, values: Values)
    ensures
        ({
            let outcome = properties::merged_value(ctx, dom::unique_id_key(), values);
            &&& !(outcome is Conflict)
            &&& outcome is Keep ==> exists|side: Side|
                #[trigger] values.of(side) == Some(outcome->Keep_0.value)
        }),
{
    reveal_strlit("UniqueId");
    reveal_strlit("Attributes");
    assert(dom::unique_id_key().len() != properties::attributes_key().len());
    let outcome = properties::merged_value(ctx, dom::unique_id_key(), values);
    if outcome is Keep {
        match properties::winner(ctx, values) {
            Some(side) => {
                assert(values.of(side) == Some(outcome->Keep_0.value));
            },
            None => {
                if values.base is Some {
                    assert(values.of(Side::Base) == Some(outcome->Keep_0.value));
                } else if values.ours is Some {
                    assert(values.of(Side::Ours) == Some(outcome->Keep_0.value));
                } else {
                    assert(values.of(Side::Theirs) == Some(outcome->Keep_0.value));
                }
            },
        }
    }
}

// ---------------------------------------------------------------------------
// Rows
// ---------------------------------------------------------------------------

/// Whether two instances of a row are alike, but for their unique ids: they have the
/// same class and name, parents and children of the same rows, and the same values.
pub open spec fn alike(ctx: Ctx, a: InstanceModel, x: Side, b: InstanceModel, y: Side) -> bool {
    let (s, t) = (three_way::source_of_side(x), three_way::source_of_side(y));
    &&& a.class == b.class
    &&& a.name == b.name
    &&& ctx.parent_row(Some(a), s) == ctx.parent_row(Some(b), t)
    &&& rows::child_rows(ctx, a, s) == rows::child_rows(ctx, b, t)
    &&& forall|key: Text|
        key != dom::unique_id_key() ==> same_value(
            ctx,
            #[trigger] keyed::lookup(a.properties, key),
            x,
            keyed::lookup(b.properties, key),
            y,
        )
}

/// Whether two sides have the same instances, alike but for their unique ids.
pub open spec fn agree(ctx: Ctx, x: Side, y: Side) -> bool {
    forall|r: int|
        0 <= r < ctx.rows.entries.len() ==> {
            let nodes = ctx.nodes(#[trigger] ctx.rows.entries[r]);
            match (nodes.of(x), nodes.of(y)) {
                (Some(a), Some(b)) => alike(ctx, a, x, b, y),
                (None, None) => true,
                _ => false,
            }
        }
}

/// Whether one side prevails: ours does if theirs agrees with the base or with ours,
/// theirs does if ours agrees with the base; and no deletion met a change.
pub open spec fn prevails(ctx: Ctx, w: Side) -> bool {
    &&& match w {
        Side::Base => false,
        Side::Ours => agree(ctx, Side::Theirs, Side::Base) || agree(ctx, Side::Ours, Side::Theirs),
        Side::Theirs => agree(ctx, Side::Ours, Side::Base),
    }
    &&& forall|r: int|
        0 <= r < ctx.rows.entries.len() ==> !rows::delete_modify(
            ctx,
            #[trigger] ctx.rows.entries[r],
        )
}

} // verus!
