//! When two values of different files are one: by bits, by numbers, by what they lead to,
//! and entry by entry.

use rbx_types::Variant;
use vstd::prelude::*;

use crate::agreement;
use crate::context::Ctx;
use crate::identity;
use crate::keyed;
use crate::properties;
use crate::properties::Values;
use crate::semantic;
use crate::semantic::{DomModel, InstanceModel, ValueSource};
use crate::text::Text;
use crate::value;
use crate::value::ValueModel;
use crate::variant;
use crate::variant::ShapeModel;

verus! {

/// Whether a referent of a file is that of an instance of a row.
pub open spec fn leads_to(
    ctx: Ctx,
    d: DomModel,
    s: ValueSource,
    referent: u128,
    row: usize,
) -> bool {
    exists|i: int|
        0 <= i < d.len() && (#[trigger] d[i]).source_ref == referent && identity::row_of(
            ctx.rows,
            s,
            i as usize,
        ) == Some(row)
}

/// Whether a referent is that of no instance of a file.
pub open spec fn leads_nowhere(d: DomModel, referent: u128) -> bool {
    forall|i: int| 0 <= i < d.len() ==> (#[trigger] d[i]).source_ref != referent
}

/// Whether a file is that of a source.
pub open spec fn is_file_of(ctx: Ctx, s: ValueSource, d: DomModel) -> bool {
    match s {
        ValueSource::Base => d == ctx.base,
        ValueSource::Ours => d == ctx.ours,
        ValueSource::Theirs => d == ctx.theirs,
        ValueSource::Merged => false,
    }
}

proof fn lemma_target(ctx: Ctx, s: ValueSource, d: DomModel, referent: u128, row: usize)
    requires
        ctx.wf(),
        is_file_of(ctx, s, d),
        referent != 0,
    ensures
        leads_to(ctx, d, s, referent, row) ==> ctx.target(s, referent) == Some(row),
        leads_nowhere(d, referent) ==> ctx.target(s, referent) is None,
{
    if leads_to(ctx, d, s, referent, row) {
        let i = choose|i: int|
            0 <= i < d.len() && (#[trigger] d[i]).source_ref == referent && identity::row_of(
                ctx.rows,
                s,
                i as usize,
            ) == Some(row);
        semantic::lemma_node_of_ref(d, i);
    }
}

/// References of two files are one where both are nil, where both lead to instances of one
/// row, and where both lead nowhere and are the same number; else they are not.
#[verifier::rlimit(50)]
pub proof fn law_references_are_compared_by_rows(
    ctx: Ctx,
    a: u128,
    s: ValueSource,
    d: DomModel,
    x: usize,
    b: u128,
    t: ValueSource,
    e: DomModel,
    y: usize,
)
    requires
        ctx.wf(),
        is_file_of(ctx, s, d),
        is_file_of(ctx, t, e),
    ensures
        ({
            let one = ctx.value_equal(ValueModel::Ref(a), s, ValueModel::Ref(b), t);
            &&& one == ctx.value_equal(ValueModel::Object(a), s, ValueModel::Object(b), t)
            &&& a == 0 && b == 0 ==> one
            &&& (a == 0) != (b == 0) ==> !one
            &&& a != 0 && b != 0 && leads_to(ctx, d, s, a, x) && leads_to(ctx, e, t, b, y) ==> (one
                <==> x == y)
            &&& a != 0 && b != 0 && leads_nowhere(d, a) && leads_nowhere(e, b) ==> (one <==> a
                == b)
            &&& a != 0 && b != 0 && leads_to(ctx, d, s, a, x) && leads_nowhere(e, b) ==> !one
            &&& a != 0 && b != 0 && leads_nowhere(d, a) && leads_to(ctx, e, t, b, y) ==> !one
        }),
        !ctx.value_equal(ValueModel::Ref(a), s, ValueModel::Object(b), t),
{
    if a != 0 {
        lemma_target(ctx, s, d, a, x);
    }
    if b != 0 {
        lemma_target(ctx, t, e, b, y);
    }
}

/// A floating-point number is the one with the same bits, so that a number that is no
/// number is itself, and the two zeros are two. A unique id is the one with the same number,
/// and never anything else. What else is one compares as equal both ways round.
#[verifier::rlimit(50)]
pub proof fn law_leaves_are_compared_by_bits(
    ctx: Ctx,
    a: Variant,
    s: ValueSource,
    b: Variant,
    t: ValueSource,
)
    ensures
        ({
            let one = ctx.value_equal(ValueModel::Leaf(a), s, ValueModel::Leaf(b), t);
            &&& (variant::shape(a), variant::shape(b)) matches (
                ShapeModel::Float32(x, _),
                ShapeModel::Float32(y, _),
            ) ==> (one <==> x == y)
            &&& (variant::shape(a), variant::shape(b)) matches (
                ShapeModel::Float64(x, _),
                ShapeModel::Float64(y, _),
            ) ==> (one <==> x == y)
            &&& (variant::shape(a), variant::shape(b)) matches (
                ShapeModel::UniqueId(x),
                ShapeModel::UniqueId(y),
            ) ==> (one <==> x == y)
            &&& (variant::shape(a) is UniqueId) != (variant::shape(b) is UniqueId) ==> !one
            &&& variant::shape(a) is UnknownContent && variant::shape(b) is UnknownContent ==> one
            &&& one && (variant::shape(a) is Bool || variant::shape(a) is Integers
                || variant::shape(a) is Text || variant::shape(a) is Numbers || variant::shape(
                a,
            ) is Tags || variant::shape(a) is Bytes || variant::shape(a) is Uri || variant::shape(
                a,
            ) is Dims || variant::shape(a) is Keypoints || variant::shape(a) is Other)
                ==> variant::variants_equal(a, b) && variant::variants_equal(b, a)
            &&& (variant::shape(a) is Bool || variant::shape(a) is Integers || variant::shape(
                a,
            ) is Text || variant::shape(a) is Numbers || variant::shape(a) is Tags
                || variant::shape(a) is Bytes || variant::shape(a) is Uri || variant::shape(
                a,
            ) is Dims || variant::shape(a) is Keypoints || variant::shape(a) is Other)
                && !(variant::shape(b) is UniqueId) && variant::variants_equal(a, b)
                && variant::variants_equal(b, a) ==> one
        }),
{
}

/// Whether two values are one does not depend on which of them comes first.
pub proof fn law_comparison_is_symmetric(
    ctx: Ctx,
    a: ValueModel,
    s: ValueSource,
    b: ValueModel,
    t: ValueSource,
)
    ensures
        ctx.value_equal(a, s, b, t) == ctx.value_equal(b, t, a, s),
        value::raw_equal(a, b) == value::raw_equal(b, a),
    decreases a,
{
    if let (ValueModel::Attributes(x), ValueModel::Attributes(y)) = (a, b) {
        if x.len() == y.len() {
            assert forall|i: int| 0 <= i < x.len() implies ctx.value_equal(
                (#[trigger] x[i]).1,
                s,
                y[i].1,
                t,
            ) == ctx.value_equal(y[i].1, t, x[i].1, s) && value::raw_equal(x[i].1, y[i].1)
                == value::raw_equal(y[i].1, x[i].1) by {
                law_comparison_is_symmetric(ctx, x[i].1, s, y[i].1, t);
            }
            if ctx.value_equal(a, s, b, t) {
                assert forall|i: int| 0 <= i < y.len() implies (#[trigger] y[i]).0 == x[i].0
                    && ctx.value_equal(y[i].1, t, x[i].1, s) by {
                    assert(x[i].0 == y[i].0);
                }
            }
            if ctx.value_equal(b, t, a, s) {
                assert forall|i: int| 0 <= i < x.len() implies (#[trigger] x[i]).0 == y[i].0
                    && ctx.value_equal(x[i].1, s, y[i].1, t) by {
                    assert(y[i].0 == x[i].0);
                }
            }
            if value::raw_equal(a, b) {
                assert forall|i: int| 0 <= i < y.len() implies (#[trigger] y[i]).0 == x[i].0
                    && value::raw_equal(y[i].1, x[i].1) by {
                    assert(x[i].0 == y[i].0);
                }
            }
            if value::raw_equal(b, a) {
                assert forall|i: int| 0 <= i < x.len() implies (#[trigger] x[i]).0 == y[i].0
                    && value::raw_equal(x[i].1, y[i].1) by {
                    assert(y[i].0 == x[i].0);
                }
            }
        }
    }
}

/// An attribute map with one entry changed is another map just where the two values of the
/// entry are not one, all other entries being one with themselves.
pub proof fn law_maps_are_compared_entry_by_entry(
    ctx: Ctx,
    list: Seq<(Text, ValueModel)>,
    s: ValueSource,
    t: ValueSource,
    k: int,
    key: Text,
    v: ValueModel,
)
    requires
        0 <= k < list.len(),
        forall|i: int|
            0 <= i < list.len() ==> ctx.value_equal((#[trigger] list[i]).1, s, list[i].1, t),
    ensures
        ctx.value_equal(
            ValueModel::Attributes(list),
            s,
            ValueModel::Attributes(list.update(k, (key, v))),
            t,
        ) <==> key == list[k].0 && ctx.value_equal(list[k].1, s, v, t),
        !ctx.value_equal(
            ValueModel::Attributes(list),
            s,
            ValueModel::Attributes(list.remove(k)),
            t,
        ),
{
    let other = list.update(k, (key, v));
    if key == list[k].0 && ctx.value_equal(list[k].1, s, v, t) {
        assert forall|i: int| 0 <= i < list.len() implies (#[trigger] list[i]).0 == other[i].0
            && ctx.value_equal(list[i].1, s, other[i].1, t) by {
            if i != k {
                assert(other[i] == list[i]);
            }
        }
    }
    if ctx.value_equal(ValueModel::Attributes(list), s, ValueModel::Attributes(other), t) {
        assert(list[k].0 == other[k].0);
    }
    assert(list.remove(k).len() == list.len() - 1);
}

/// The unique id of an instance is the number of the one that it has under that name, unless
/// it is nil; what is no unique id counts for none.
pub proof fn law_unique_id_of_an_instance(node: InstanceModel, u: u128)
    ensures
        semantic::node_unique_id(node) == Some(u) <==> u != 0 && exists|v: Variant|
            keyed::lookup(node.properties, "UniqueId"@) == Some(ValueModel::Leaf(v))
                && #[trigger] variant::shape(v) == ShapeModel::UniqueId(u),
{
    if let Some(ValueModel::Leaf(v)) = keyed::lookup(node.properties, "UniqueId"@) {
        if variant::shape(v) == ShapeModel::UniqueId(u) {
            assert(value::unique_id_value(ValueModel::Leaf(v)) == Some(u));
        }
    }
}

/// Whether two sides at least have attribute maps, and none has another value.
pub open spec fn maps_meet(values: Values) -> bool {
    &&& values.base is None || values.base->0 is Attributes
    &&& values.ours is None || values.ours->0 is Attributes
    &&& values.theirs is None || values.theirs->0 is Attributes
    &&& (values.base is Some && values.ours is Some) || (values.base is Some && values.theirs
        is Some) || (values.ours is Some && values.theirs is Some)
}

/// What an attribute map has under a name; nothing where there is no map.
pub open spec fn entry_under(v: Option<ValueModel>, key: Text) -> Option<ValueModel> {
    match v {
        Some(ValueModel::Attributes(list)) => keyed::lookup(list, key),
        _ => None,
    }
}

/// Wherever two attribute maps meet, each entry is merged by itself: one that a single side
/// changed, added or took away is as on that side.
pub proof fn law_attribute_maps_merge_by_entries(
    ctx: Ctx,
    values: Values,
    edited_by_ours: spec_fn(Text) -> bool,
    key: Text,
)
    requires
        maps_meet(values),
        forall|k: Text|
            agreement::value_prevails(
                ctx,
                #[trigger] properties::nested(values, k),
                agreement::editor(edited_by_ours, k),
            ),
    ensures
        ({
            let outcome = properties::merged_value(ctx, "Attributes"@, values);
            let entry = if edited_by_ours(key) {
                entry_under(values.ours, key)
            } else {
                entry_under(values.theirs, key)
            };
            &&& outcome is Keep
            &&& outcome->Keep_0.value is Attributes
            &&& agreement::reflects(
                ctx,
                agreement::editor(edited_by_ours, key),
                keyed::lookup(outcome->Keep_0.value->Attributes_0, key),
                entry,
            )
        }),
{
    assert(properties::attributes_apply(values));
    agreement::law_disjoint_attribute_edits_compose(ctx, values, edited_by_ours);
    assert(properties::nested(values, key).of(agreement::editor(edited_by_ours, key)) == (
    if edited_by_ours(key) {
        entry_under(values.ours, key)
    } else {
        entry_under(values.theirs, key)
    }));
}

} // verus!
