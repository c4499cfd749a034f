//! The merge of property values, attribute maps key by key.

use vstd::prelude::*;

use crate::conflict;
use crate::conflict::{Conflict, ConflictKind, ConflictModel};
use crate::context;
use crate::context::{resolve_or_report, Ctx, MergeCtx};
use crate::display;
use crate::display::display_value;
use crate::dom;
use crate::identity::MergeEntry;
use crate::keyed;
use crate::keyed::{find, list_keys, merge_keys};
use crate::resolve;
use crate::resolve::Side;
use crate::semantic::{InstanceModel, SemanticDom, SemanticInstance, ValueSource};
use crate::text;
use crate::text::{same_text, Text};
use crate::three_way;
use crate::three_way::{side_source, three_way_side, Sides};
use crate::value;
use crate::value::{copy_value, Value, ValueModel};

verus! {

/// A value of the merged file, and the side that it comes from, through which
/// its references are to be read.
pub struct MergedProperty {
    pub value: Value,
    pub source: ValueSource,
}

/// The mathematical counterpart of [`MergedProperty`].
#[verifier::ext_equal]
pub ghost struct PropertyModel {
    pub value: ValueModel,
    pub source: ValueSource,
}

impl View for MergedProperty {
    type V = PropertyModel;

    open spec fn view(&self) -> PropertyModel {
        PropertyModel { value: self.value@, source: self.source }
    }
}

/// The name of the property that holds an instance's attributes.
pub open spec fn attributes_key() -> Text {
    "Attributes"@
}

/// What becomes of a property.
pub ghost enum PropertyOutcome {
    Keep(PropertyModel),
    Delete,
    Conflict,
}

/// What becomes of a property, as a value.
pub enum PropertyMerge {
    Keep(MergedProperty),
    Delete,
    Conflict,
}

impl View for PropertyMerge {
    type V = PropertyOutcome;

    open spec fn view(&self) -> PropertyOutcome {
        match *self {
            PropertyMerge::Keep(p) => PropertyOutcome::Keep(p@),
            PropertyMerge::Delete => PropertyOutcome::Delete,
            PropertyMerge::Conflict => PropertyOutcome::Conflict,
        }
    }
}

/// The values of a property on the three sides.
pub type Values = Sides<Option<ValueModel>>;

/// The side that the three-way rule takes a value from.
pub open spec fn winner(ctx: Ctx, values: Values) -> Option<Side> {
    three_way::three_way(
        ctx.option_equal(values.ours, ValueSource::Ours, values.base, ValueSource::Base),
        ctx.option_equal(values.theirs, ValueSource::Theirs, values.base, ValueSource::Base),
        ctx.option_equal(values.ours, ValueSource::Ours, values.theirs, ValueSource::Theirs),
    )
}

pub open spec fn keep_or_delete(value: Option<ValueModel>, source: ValueSource) -> PropertyOutcome {
    match value {
        Some(value) => PropertyOutcome::Keep(PropertyModel { value, source }),
        None => PropertyOutcome::Delete,
    }
}

pub open spec fn is_present(v: Option<ValueModel>) -> int {
    if v is Some {
        1
    } else {
        0
    }
}

pub open spec fn absent_or_attributes(v: Option<ValueModel>) -> bool {
    v matches Some(x) ==> x is Attributes
}

/// Whether attribute maps are merged key by key: two sides at least have one,
/// and none has another value.
pub open spec fn attributes_apply(values: Values) -> bool {
    &&& is_present(values.base) + is_present(values.ours) + is_present(values.theirs) >= 2
    &&& absent_or_attributes(values.base)
    &&& absent_or_attributes(values.ours)
    &&& absent_or_attributes(values.theirs)
}

/// The entry of an attribute map.
pub open spec fn attribute(v: Option<ValueModel>, key: Text) -> Option<ValueModel> {
    match v {
        Some(ValueModel::Attributes(list)) => keyed::lookup(list, key),
        _ => None,
    }
}

pub open spec fn attribute_keys(v: Option<ValueModel>) -> Seq<Text> {
    match v {
        Some(ValueModel::Attributes(list)) => keyed::keys_of(list),
        _ => Seq::empty(),
    }
}

/// The entries of that name on the three sides.
pub open spec fn nested(values: Values, key: Text) -> Values {
    Sides {
        base: attribute(values.base, key),
        ours: attribute(values.ours, key),
        theirs: attribute(values.theirs, key),
    }
}

/// The names that occur in any of the three attribute maps.
pub open spec fn all_attribute_keys(values: Values) -> Seq<Text> {
    keyed::key_union(
        keyed::key_union(attribute_keys(values.base), attribute_keys(values.ours)),
        attribute_keys(values.theirs),
    )
}

pub open spec fn option_height(v: Option<ValueModel>) -> nat {
    match v {
        Some(v) => value::height(v),
        None => 0,
    }
}

/// A measure for the recursion into attribute maps.
pub open spec fn size(values: Values) -> nat {
    option_height(values.base) + option_height(values.ours) + option_height(values.theirs)
}

pub proof fn lemma_attribute_height(v: Option<ValueModel>, key: Text)
    ensures
        option_height(attribute(v, key)) <= option_height(v),
        v is Some ==> option_height(attribute(v, key)) < option_height(v),
{
    if let Some(x) = v {
        if let ValueModel::Attributes(list) = x {
            if keyed::lookup(list, key) is Some {
                value::lemma_height_lookup(list, key);
            }
        }
    }
}

pub proof fn lemma_nested_size(values: Values, key: Text)
    requires
        size(values) > 0,
    ensures
        size(nested(values, key)) < size(values),
{
    lemma_attribute_height(values.base, key);
    lemma_attribute_height(values.ours, key);
    lemma_attribute_height(values.theirs, key);
}

/// The merge of a property. Attribute maps are merged key by key. A unique id
/// that differs on all sides is regenerated metadata and stays that of the base.
pub open spec fn merged_value(ctx: Ctx, key: Text, values: Values) -> PropertyOutcome
    decreases size(values), 1int, 0int,
{
    if key == attributes_key() && attributes_apply(values) {
        match merged_attributes(ctx, all_attribute_keys(values), values) {
            Some(list) => PropertyOutcome::Keep(
                PropertyModel {
                    value: ValueModel::Attributes(list),
                    source: ValueSource::Merged,
                },
            ),
            None => PropertyOutcome::Conflict,
        }
    } else {
        match winner(ctx, values) {
            Some(side) => keep_or_delete(values.of(side), three_way::source_of_side(side)),
            None => if key == dom::unique_id_key() {
                if values.base is Some {
                    keep_or_delete(values.base, ValueSource::Base)
                } else if values.ours is Some {
                    keep_or_delete(values.ours, ValueSource::Ours)
                } else {
                    keep_or_delete(values.theirs, ValueSource::Theirs)
                }
            } else {
                PropertyOutcome::Conflict
            },
        }
    }
}

/// The merge of attribute maps, over the names given: nothing where an entry is
/// in conflict.
pub open spec fn merged_attributes(ctx: Ctx, keys: Seq<Text>, values: Values) -> Option<
    Seq<(Text, ValueModel)>,
>
    decreases size(values), 0int, keys.len(),
{
    if keys.len() == 0 || size(values) == 0 {
        Some(Seq::empty())
    } else {
        match merged_attributes(ctx, keys.drop_last(), values) {
            None => None,
            Some(list) => {
                proof {
                    lemma_nested_size(values, keys.last());
                }
                match merged_value(ctx, attributes_key(), nested(values, keys.last())) {
                    PropertyOutcome::Keep(p) => Some(list.push((keys.last(), p.value))),
                    PropertyOutcome::Delete => Some(list),
                    PropertyOutcome::Conflict => None,
                }
            },
        }
    }
}

/// The views of optional values.
pub open spec fn values_view(s: Sides<Option<&Value>>) -> Values {
    Sides {
        base: context::option_view(s.base),
        ours: context::option_view(s.ours),
        theirs: context::option_view(s.theirs),
    }
}

fn keep(value: Option<&Value>, source: ValueSource) -> (res: PropertyMerge)
    ensures
        res@ == keep_or_delete(context::option_view(value), source),
{
    match value {
        Some(value) => PropertyMerge::Keep(MergedProperty { value: copy_value(value), source }),
        None => PropertyMerge::Delete,
    }
}

fn is_absent_or_attributes(v: Option<&Value>) -> (res: bool)
    ensures
        res == absent_or_attributes(context::option_view(v)),
{
    match v {
        Some(Value::Attributes(_)) => true,
        Some(_) => false,
        None => true,
    }
}

fn attributes_merge_applicable(values: Sides<Option<&Value>>) -> (res: bool)
    ensures
        res == attributes_apply(values_view(values)),
{
    let mut present: u8 = 0;
    if values.base.is_some() {
        present += 1;
    }
    if values.ours.is_some() {
        present += 1;
    }
    if values.theirs.is_some() {
        present += 1;
    }
    present >= 2 && is_absent_or_attributes(values.base) && is_absent_or_attributes(values.ours)
        && is_absent_or_attributes(values.theirs)
}

fn keys_of_attributes(v: Option<&Value>) -> (res: Vec<String>)
    ensures
        text::strings_view(res@) == attribute_keys(context::option_view(v)),
{
    match v {
        Some(value) => match value {
            Value::Attributes(list) => {
                proof {
                    value::lemma_attributes_view(*value);
                }
                list_keys(list)
            },
            _ => {
                let res: Vec<String> = Vec::new();
                assert(text::strings_view(res@) =~= Seq::<Text>::empty());
                res
            },
        },
        None => {
            let res: Vec<String> = Vec::new();
            assert(text::strings_view(res@) =~= Seq::<Text>::empty());
            res
        },
    }
}

fn find_attribute<'a>(v: Option<&'a Value>, key: &str) -> (res: Option<&'a Value>)
    ensures
        context::option_view(res) == attribute(context::option_view(v), key@),
{
    match v {
        Some(value) => match value {
            Value::Attributes(list) => {
                proof {
                    value::lemma_attributes_view(*value);
                }
                find(list, key)
            },
            _ => None,
        },
        None => None,
    }
}

/// Merges a property.
pub fn merge_property_value(ctx: &MergeCtx, key: &str, values: Sides<Option<&Value>>) -> (res:
    PropertyMerge)
    requires
        ctx.wf(),
    ensures
        res@ == merged_value(ctx@, key@, values_view(values)),
    decreases size(values_view(values)), 1int, 0int,
{
    let ghost model = values_view(values);
    if same_text(key, "Attributes") && attributes_merge_applicable(values) {
        return merge_attributes(ctx, values);
    }
    let side = three_way_side(
        ctx.same_option(values.ours, ValueSource::Ours, values.base, ValueSource::Base),
        ctx.same_option(values.theirs, ValueSource::Theirs, values.base, ValueSource::Base),
        ctx.same_option(values.ours, ValueSource::Ours, values.theirs, ValueSource::Theirs),
    );
    match side {
        Some(side) => {
            let value = match side {
                Side::Base => values.base,
                Side::Ours => values.ours,
                Side::Theirs => values.theirs,
            };
            keep(value, side_source(side))
        },
        None => if same_text(key, "UniqueId") {
            if values.base.is_some() {
                keep(values.base, ValueSource::Base)
            } else if values.ours.is_some() {
                keep(values.ours, ValueSource::Ours)
            } else {
                keep(values.theirs, ValueSource::Theirs)
            }
        } else {
            PropertyMerge::Conflict
        },
    }
}

/// Merges attribute maps key by key.
fn merge_attributes(ctx: &MergeCtx, values: Sides<Option<&Value>>) -> (res: PropertyMerge)
    requires
        ctx.wf(),
        attributes_apply(values_view(values)),
    ensures
        res@ == merged_value(ctx@, attributes_key(), values_view(values)),
    decreases size(values_view(values)), 0int, 1int,
{
    let ghost model = values_view(values);
    let keys = merge_keys(
        &merge_keys(&keys_of_attributes(values.base), &keys_of_attributes(values.ours)),
        &keys_of_attributes(values.theirs),
    );
    let ghost all = text::strings_view(keys@);
    assert(all == all_attribute_keys(model));
    let mut merged: Vec<(String, Value)> = Vec::new();
    let mut i: usize = 0;
    proof {
        assert(size(model) > 0);
        assert(keyed::view_list(merged@) =~= Seq::<(Text, ValueModel)>::empty());
    }
    while i < keys.len()
        invariant
            i <= keys.len(),
            ctx.wf(),
            model == values_view(values),
            size(model) > 0,
            all == text::strings_view(keys@),
            all == all_attribute_keys(model),
            attributes_apply(model),
            merged_attributes(ctx@, all.take(i as int), model) == Some(keyed::view_list(merged@)),
        decreases keys.len() - i,
    {
        let key = keys[i].as_str();
        let ghost before = keyed::view_list(merged@);
        proof {
            lemma_nested_size(model, key@);
            assert(all.take(i + 1).drop_last() =~= all.take(i as int));
            assert(all.take(i + 1).last() == key@);
        }
        let entries = Sides {
            base: find_attribute(values.base, key),
            ours: find_attribute(values.ours, key),
            theirs: find_attribute(values.theirs, key),
        };
        assert(values_view(entries) == nested(model, key@));
        match merge_property_value(ctx, "Attributes", entries) {
            PropertyMerge::Keep(property) => {
                let ghost kept = property.value@;
                merged.push((keys[i].clone(), property.value));
                assert(keyed::view_list(merged@) =~= before.push((key@, kept)));
            },
            PropertyMerge::Delete => {},
            PropertyMerge::Conflict => {
                proof {
                    lemma_conflict_stays(ctx@, all, model, i + 1);
                    assert(all.take(all.len() as int) =~= all);
                }
                return PropertyMerge::Conflict;
            },
        }
        i += 1;
    }
    assert(all.take(all.len() as int) =~= all);
    let value = Value::Attributes(merged);
    proof {
        value::lemma_attributes_view(value);
    }
    PropertyMerge::Keep(MergedProperty { value, source: ValueSource::Merged })
}

/// Once an entry is in conflict, the map is.
proof fn lemma_conflict_stays(ctx: Ctx, keys: Seq<Text>, values: Values, n: int)
    requires
        0 <= n <= keys.len(),
        merged_attributes(ctx, keys.take(n), values) is None,
    ensures
        merged_attributes(ctx, keys.take(keys.len() as int), values) is None,
    decreases keys.len() - n,
{
    if n < keys.len() {
        assert(keys.take(n + 1).drop_last() =~= keys.take(n));
        lemma_conflict_stays(ctx, keys, values, n + 1);
    }
}

// ---------------------------------------------------------------------------
// The properties of a row
// ---------------------------------------------------------------------------

pub open spec fn property_of(node: Option<InstanceModel>, key: Text) -> Option<ValueModel> {
    match node {
        Some(node) => keyed::lookup(node.properties, key),
        None => None,
    }
}

/// The values of a property of a row on the three sides.
pub open spec fn row_values(ctx: Ctx, entry: MergeEntry, key: Text) -> Values {
    let nodes = ctx.nodes(entry);
    Sides {
        base: property_of(nodes.base, key),
        ours: property_of(nodes.ours, key),
        theirs: property_of(nodes.theirs, key),
    }
}

pub open spec fn node_keys(node: Option<InstanceModel>) -> Seq<Text> {
    match node {
        Some(node) => keyed::keys_of(node.properties),
        None => Seq::empty(),
    }
}

/// The names of the properties that a row has on any side.
pub open spec fn row_keys(ctx: Ctx, entry: MergeEntry) -> Seq<Text> {
    let nodes = ctx.nodes(entry);
    keyed::key_union(
        keyed::key_union(node_keys(nodes.base), node_keys(nodes.ours)),
        node_keys(nodes.theirs),
    )
}

pub open spec fn shown_value(ctx: Ctx, source: ValueSource, v: Option<ValueModel>) -> Option<Text> {
    match v {
        Some(v) => Some(display::value_text(ctx.file(source), v)),
        None => None,
    }
}

/// How the values of a property are shown in a conflict.
pub open spec fn value_labels(ctx: Ctx, values: Values) -> Sides<Option<Text>> {
    Sides {
        base: shown_value(ctx, ValueSource::Base, values.base),
        ours: shown_value(ctx, ValueSource::Ours, values.ours),
        theirs: shown_value(ctx, ValueSource::Theirs, values.theirs),
    }
}

/// What a row gets of a property: the merged value, or that of the side that a
/// conflict is decided for.
pub open spec fn row_property(ctx: Ctx, entry: MergeEntry, key: Text) -> Option<PropertyModel> {
    let values = row_values(ctx, entry, key);
    match merged_value(ctx, key, values) {
        PropertyOutcome::Keep(p) => Some(p),
        PropertyOutcome::Delete => None,
        PropertyOutcome::Conflict => match resolve::resolution(
            ctx.resolutions,
            ConflictKind::PropertyValue,
            ctx.subject_path(entry),
            Some(key),
        ) {
            Some(side) => match values.of(side) {
                Some(value) => Some(
                    PropertyModel { value, source: three_way::source_of_side(side) },
                ),
                None => None,
            },
            None => None,
        },
    }
}

/// The conflicts after the merge of a property of a row.
pub open spec fn property_conflict(
    ctx: Ctx,
    entry: MergeEntry,
    key: Text,
    before: Seq<ConflictModel>,
) -> Seq<ConflictModel> {
    let values = row_values(ctx, entry, key);
    match merged_value(ctx, key, values) {
        PropertyOutcome::Conflict => context::reported(
            ctx.resolutions,
            before,
            ctx.subject(entry).0,
            ctx.subject(entry).1,
            ConflictKind::PropertyValue,
            Some(key),
            value_labels(ctx, values),
        ),
        _ => before,
    }
}

/// The merged properties of a row, over the names given.
pub open spec fn row_properties(ctx: Ctx, entry: MergeEntry, keys: Seq<Text>) -> Seq<
    (Text, PropertyModel),
>
    decreases keys.len(),
{
    if keys.len() == 0 {
        Seq::empty()
    } else {
        let before = row_properties(ctx, entry, keys.drop_last());
        match row_property(ctx, entry, keys.last()) {
            Some(p) => before.push((keys.last(), p)),
            None => before,
        }
    }
}

/// The conflicts after the merge of the properties of a row.
pub open spec fn row_conflicts(
    ctx: Ctx,
    entry: MergeEntry,
    keys: Seq<Text>,
    before: Seq<ConflictModel>,
) -> Seq<ConflictModel>
    decreases keys.len(),
{
    if keys.len() == 0 {
        before
    } else {
        property_conflict(
            ctx,
            entry,
            keys.last(),
            row_conflicts(ctx, entry, keys.drop_last(), before),
        )
    }
}

fn keys_of_node(node: Option<&SemanticInstance>) -> (res: Vec<String>)
    ensures
        text::strings_view(res@) == node_keys(context::instance_view(node)),
{
    match node {
        Some(node) => list_keys(&node.properties),
        None => {
            let res: Vec<String> = Vec::new();
            assert(text::strings_view(res@) =~= Seq::<Text>::empty());
            res
        },
    }
}

fn find_property<'a>(node: Option<&'a SemanticInstance>, key: &str) -> (res: Option<&'a Value>)
    ensures
        context::option_view(res) == property_of(context::instance_view(node), key@),
{
    match node {
        Some(node) => find(&node.properties, key),
        None => None,
    }
}

fn show(ctx: &MergeCtx, source: ValueSource, v: Option<&Value>) -> (res: Option<String>)
    requires
        ctx.wf(),
    ensures
        crate::diagnostics::option_text(res) == shown_value(ctx@, source, context::option_view(v)),
{
    match v {
        Some(v) => Some(display_value(ctx.file(source), v)),
        None => None,
    }
}

/// Merges the properties of a row.
pub fn merge_properties(ctx: &MergeCtx, entry: &MergeEntry, conflicts: &mut Vec<Conflict>) -> (res:
    Vec<(String, MergedProperty)>)
    requires
        ctx.wf(),
        context::entry_wf(ctx@, *entry),
    ensures
        keyed::view_list(res@) == row_properties(ctx@, *entry, row_keys(ctx@, *entry)),
        conflict::conflicts_view(final(conflicts)@) == row_conflicts(
            ctx@,
            *entry,
            row_keys(ctx@, *entry),
            conflict::conflicts_view(old(conflicts)@),
        ),
{
    let nodes = ctx.nodes(entry);
    let keys = merge_keys(
        &merge_keys(&keys_of_node(nodes.base), &keys_of_node(nodes.ours)),
        &keys_of_node(nodes.theirs),
    );
    let ghost all = text::strings_view(keys@);
    let ghost start = conflict::conflicts_view(conflicts@);
    assert(all == row_keys(ctx@, *entry));
    let mut merged: Vec<(String, MergedProperty)> = Vec::new();
    assert(keyed::view_list(merged@) =~= Seq::<(Text, PropertyModel)>::empty());
    let mut i: usize = 0;
    while i < keys.len()
        invariant
            i <= keys.len(),
            ctx.wf(),
            context::entry_wf(ctx@, *entry),
            context::nodes_view(nodes) == ctx@.nodes(*entry),
            all == text::strings_view(keys@),
            keyed::view_list(merged@) == row_properties(ctx@, *entry, all.take(i as int)),
            conflict::conflicts_view(conflicts@) == row_conflicts(
                ctx@,
                *entry,
                all.take(i as int),
                start,
            ),
        decreases keys.len() - i,
    {
        let key = keys[i].as_str();
        let ghost before = keyed::view_list(merged@);
        proof {
            assert(all.take(i + 1).drop_last() =~= all.take(i as int));
            assert(all.take(i + 1).last() == key@);
        }
        let values = Sides {
            base: find_property(nodes.base, key),
            ours: find_property(nodes.ours, key),
            theirs: find_property(nodes.theirs, key),
        };
        assert(values_view(values) == row_values(ctx@, *entry, key@));
        match merge_property_value(ctx, key, values) {
            PropertyMerge::Keep(property) => {
                let ghost kept = property@;
                merged.push((keys[i].clone(), property));
                assert(keyed::view_list(merged@) =~= before.push((key@, kept)));
            },
            PropertyMerge::Delete => {},
            PropertyMerge::Conflict => {
                let labels = Sides {
                    base: show(ctx, ValueSource::Base, values.base),
                    ours: show(ctx, ValueSource::Ours, values.ours),
                    theirs: show(ctx, ValueSource::Theirs, values.theirs),
                };
                let (dom, id): (&SemanticDom, usize) = ctx.conflict_subject(entry);
                let decided = resolve_or_report(
                    ConflictKind::PropertyValue,
                    dom,
                    id,
                    Some(key),
                    labels,
                    ctx.resolutions,
                    conflicts,
                );
                if let Some(side) = decided {
                    let chosen = match side {
                        Side::Base => values.base,
                        Side::Ours => values.ours,
                        Side::Theirs => values.theirs,
                    };
                    if let Some(value) = chosen {
                        let property = MergedProperty {
                            value: copy_value(value),
                            source: side_source(side),
                        };
                        let ghost kept = property@;
                        merged.push((keys[i].clone(), property));
                        assert(keyed::view_list(merged@) =~= before.push((key@, kept)));
                    }
                }
            },
        }
        i += 1;
    }
    assert(all.take(all.len() as int) =~= all);
    merged
}

} // verus!
