//! What the merge makes of the edits of a row: which are taken, which are in conflict, and
//! what a decision on a conflict gives.

use rbx_types::Variant;
use vstd::prelude::*;

use crate::agreement;
use crate::agreement_laws;
use crate::child_order;
use crate::collisions;
use crate::conflict::{ConflictKind, ConflictModel};
use crate::context;
use crate::context::Ctx;
use crate::cycles;
use crate::display;
use crate::dom;
use crate::graph;
use crate::graph::GraphModel;
use crate::graph_wf;
use crate::identity;
use crate::identity::MergeEntry;
use crate::keyed;
use crate::lists;
use crate::merging;
use crate::merging::OutcomeModel;
use crate::properties;
use crate::properties::{PropertyModel, Values};
use crate::references;
use crate::resolve::{ResolutionsModel, Side};
use crate::rows;
use crate::semantic;
use crate::semantic::{DomModel, InstanceModel, ValueSource};
use crate::text::Text;
use crate::three_way::Sides;
use crate::value::ValueModel;
use crate::variant;
use crate::variant::ShapeModel;

verus! {

// ---------------------------------------------------------------------------
// Values
// ---------------------------------------------------------------------------

/// Two leaves that are not the same value: numbers of other bits, other unique ids, or
/// values that do not compare as equal.
pub open spec fn leaves_differ(a: Variant, b: Variant) -> bool {
    match (variant::shape(a), variant::shape(b)) {
        (ShapeModel::Float32(x, _), ShapeModel::Float32(y, _)) => x != y,
        (ShapeModel::Float64(x, _), ShapeModel::Float64(y, _)) => x != y,
        (ShapeModel::UniqueId(x), ShapeModel::UniqueId(y)) => x != y,
        (ShapeModel::UnknownContent, ShapeModel::UnknownContent) => false,
        _ => !variant::variants_equal(a, b),
    }
}

/// Two references that lead to different instances: one of them is nil and the other is
/// not, or they lead to instances of different rows.
pub open spec fn refs_differ(ctx: Ctx, a: u128, s: ValueSource, b: u128, t: ValueSource) -> bool {
    ||| (a == 0) != (b == 0)
    ||| ctx.target(s, a) is Some && ctx.target(t, b) is Some && ctx.target(s, a) != ctx.target(
        t,
        b,
    )
}

/// Two optional values of different files that are not the same.
pub open spec fn differ(
    ctx: Ctx,
    a: Option<ValueModel>,
    s: ValueSource,
    b: Option<ValueModel>,
    t: ValueSource,
) -> bool {
    match (a, b) {
        (Some(ValueModel::Leaf(x)), Some(ValueModel::Leaf(y))) => leaves_differ(x, y)
            && leaves_differ(y, x),
        (Some(ValueModel::Ref(x)), Some(ValueModel::Ref(y))) => refs_differ(ctx, x, s, y, t),
        (Some(ValueModel::Object(x)), Some(ValueModel::Object(y))) => refs_differ(ctx, x, s, y, t),
        (Some(ValueModel::Attributes(x)), Some(ValueModel::Attributes(y))) => x.len() != y.len(),
        (None, None) => false,
        _ => true,
    }
}

/// An optional leaf that is the same as itself, or nothing. A number that is not a number
/// does not compare as equal to itself.
pub open spec fn is_plain(v: Option<ValueModel>) -> bool {
    match v {
        None => true,
        Some(ValueModel::Leaf(x)) => match variant::shape(x) {
            ShapeModel::Float32(..) => true,
            ShapeModel::Float64(..) => true,
            ShapeModel::UniqueId(_) => true,
            ShapeModel::UnknownContent => true,
            _ => variant::variants_equal(x, x),
        },
        _ => false,
    }
}

proof fn lemma_differ(
    ctx: Ctx,
    a: Option<ValueModel>,
    s: ValueSource,
    b: Option<ValueModel>,
    t: ValueSource,
)
    requires
        differ(ctx, a, s, b, t),
    ensures
        !ctx.option_equal(a, s, b, t),
        !ctx.option_equal(b, t, a, s),
{
    if let (Some(x), Some(y)) = (a, b) {
        assert(!ctx.value_equal(x, s, y, t));
        assert(!ctx.value_equal(y, t, x, s));
    }
}

proof fn lemma_plain(ctx: Ctx, v: Option<ValueModel>, s: ValueSource, t: ValueSource)
    requires
        is_plain(v),
    ensures
        ctx.option_equal(v, s, v, t),
{
    if let Some(x) = v {
        assert(ctx.value_equal(x, s, x, t));
    }
}

/// What an instance of a file has under a name; nothing where there is no instance.
pub open spec fn value_in(d: DomModel, i: Option<usize>, key: Text) -> Option<ValueModel> {
    match i {
        Some(i) => keyed::lookup(d[i as int].properties, key),
        None => None,
    }
}

// ---------------------------------------------------------------------------
// Conflicts and decisions
// ---------------------------------------------------------------------------

/// Whether nothing decides a conflict.
pub open spec fn is_open(
    r: ResolutionsModel,
    kind: ConflictKind,
    path: Text,
    property: Option<Text>,
) -> bool {
    r.default is None && !r.overrides.contains_key((kind, path, property))
}

/// Whether a conflict is decided for a side: by a decision on it alone, else by that on all.
pub open spec fn is_decided(
    r: ResolutionsModel,
    kind: ConflictKind,
    path: Text,
    property: Option<Text>,
    side: Side,
) -> bool {
    if r.overrides.contains_key((kind, path, property)) {
        r.overrides[(kind, path, property)] == side
    } else {
        r.default == Some(side)
    }
}

/// The path that conflicts about a row are reported at: that of its instance in ours, else
/// in theirs, else in the base.
pub open spec fn row_path(ctx: Ctx, entry: MergeEntry) -> Text {
    if entry.ours is Some {
        semantic::dom_path(ctx.ours, entry.ours->0 as int)
    } else if entry.theirs is Some {
        semantic::dom_path(ctx.theirs, entry.theirs->0 as int)
    } else {
        semantic::dom_path(ctx.base, entry.base->0 as int)
    }
}

proof fn lemma_prefix_conflict(a: Seq<ConflictModel>, b: Seq<ConflictModel>, c: ConflictModel)
    requires
        a.is_prefix_of(b),
        a.contains(c),
    ensures
        b.contains(c),
{
    let i = a.index_of(c);
    assert(b[i] == a[i]);
}

proof fn lemma_prefix_push(a: Seq<ConflictModel>, b: Seq<ConflictModel>, c: ConflictModel)
    requires
        a.is_prefix_of(b),
    ensures
        a.is_prefix_of(b.push(c)),
{
    assert(b.push(c).subrange(0, a.len() as int) =~= b.subrange(0, a.len() as int));
}

proof fn lemma_prefix_self(a: Seq<ConflictModel>)
    ensures
        a.is_prefix_of(a),
{
    assert(a.subrange(0, a.len() as int) =~= a);
}

proof fn lemma_prefix_transitive(
    a: Seq<ConflictModel>,
    b: Seq<ConflictModel>,
    c: Seq<ConflictModel>,
)
    requires
        a.is_prefix_of(b),
        b.is_prefix_of(c),
    ensures
        a.is_prefix_of(c),
{
    assert(c.subrange(0, a.len() as int) =~= b.subrange(0, a.len() as int));
}

proof fn lemma_reported_prefix(
    r: ResolutionsModel,
    before: Seq<ConflictModel>,
    d: DomModel,
    id: usize,
    kind: ConflictKind,
    property: Option<Text>,
    labels: Sides<Option<Text>>,
)
    ensures
        before.is_prefix_of(context::reported(r, before, d, id, kind, property, labels)),
{
    lemma_prefix_self(before);
    lemma_prefix_push(before, before, context::conflict_at(d, id, kind, property, labels));
}

proof fn lemma_row_conflicts_prefix(
    ctx: Ctx,
    entry: MergeEntry,
    keys: Seq<Text>,
    n: int,
    before: Seq<ConflictModel>,
)
    requires
        0 <= n <= keys.len(),
    ensures
        properties::row_conflicts(ctx, entry, keys.take(n), before).is_prefix_of(
            properties::row_conflicts(ctx, entry, keys, before),
        ),
    decreases keys.len(),
{
    let whole = properties::row_conflicts(ctx, entry, keys, before);
    if n == keys.len() {
        assert(keys.take(n) =~= keys);
        lemma_prefix_self(whole);
    } else {
        let rest = properties::row_conflicts(ctx, entry, keys.drop_last(), before);
        assert(keys.drop_last().take(n) =~= keys.take(n));
        lemma_row_conflicts_prefix(ctx, entry, keys.drop_last(), n, before);
        let values = properties::row_values(ctx, entry, keys.last());
        lemma_reported_prefix(
            ctx.resolutions,
            rest,
            ctx.subject(entry).0,
            ctx.subject(entry).1,
            ConflictKind::PropertyValue,
            Some(keys.last()),
            properties::value_labels(ctx, values),
        );
        lemma_prefix_self(rest);
        lemma_prefix_transitive(
            properties::row_conflicts(ctx, entry, keys.take(n), before),
            rest,
            whole,
        );
    }
}

proof fn lemma_text_conflicts_prefix(
    ctx: Ctx,
    entry: MergeEntry,
    property: Text,
    texts: Sides<Option<Text>>,
    before: Seq<ConflictModel>,
)
    ensures
        before.is_prefix_of(rows::text_conflicts(ctx, entry, property, texts, before)),
{
    lemma_prefix_self(before);
    lemma_prefix_push(
        before,
        before,
        context::conflict_at(
            ctx.subject(entry).0,
            ctx.subject(entry).1,
            ConflictKind::InstanceIdentity,
            Some(property),
            texts,
        ),
    );
}

/// The conflicts of a row after each step of its merge.
proof fn lemma_entry_prefixes(ctx: Ctx, entry: MergeEntry, before: Seq<ConflictModel>)
    ensures
        ({
            let after = graph::entry_conflicts(ctx, entry, before);
            let decided = rows::decision_conflicts(ctx, entry, before);
            let classed = rows::text_conflicts(
                ctx,
                entry,
                "ClassName"@,
                rows::classes_of(ctx, entry),
                decided,
            );
            let named = rows::text_conflicts(
                ctx,
                entry,
                "Name"@,
                rows::names_of(ctx, entry),
                classed,
            );
            let parented = rows::parent_conflicts(ctx, entry, named);
            &&& before.is_prefix_of(after)
            &&& decided.is_prefix_of(after)
            &&& rows::decision(ctx, entry) is Merge ==> {
                &&& classed.is_prefix_of(after)
                &&& graph::merged_class(ctx, entry) is Some ==> named.is_prefix_of(after)
                &&& graph::merged_class(ctx, entry) is Some && graph::merged_name(ctx, entry)
                    is Some ==> {
                    &&& parented.is_prefix_of(after)
                    &&& after == properties::row_conflicts(
                        ctx,
                        entry,
                        properties::row_keys(ctx, entry),
                        parented,
                    )
                }
            }
        }),
{
    let after = graph::entry_conflicts(ctx, entry, before);
    let decided = rows::decision_conflicts(ctx, entry, before);
    let classed = rows::text_conflicts(
        ctx,
        entry,
        "ClassName"@,
        rows::classes_of(ctx, entry),
        decided,
    );
    let named = rows::text_conflicts(ctx, entry, "Name"@, rows::names_of(ctx, entry), classed);
    let parented = rows::parent_conflicts(ctx, entry, named);
    let keys = properties::row_keys(ctx, entry);
    lemma_prefix_self(before);
    lemma_prefix_self(decided);
    lemma_prefix_self(classed);
    lemma_prefix_self(named);
    lemma_reported_prefix(
        ctx.resolutions,
        before,
        ctx.base,
        entry.base->0,
        ConflictKind::DeleteModify,
        None,
        rows::deletion_labels(entry.ours is None),
    );
    lemma_text_conflicts_prefix(ctx, entry, "ClassName"@, rows::classes_of(ctx, entry), decided);
    lemma_text_conflicts_prefix(ctx, entry, "Name"@, rows::names_of(ctx, entry), classed);
    lemma_reported_prefix(
        ctx.resolutions,
        named,
        ctx.subject(entry).0,
        ctx.subject(entry).1,
        ConflictKind::ParentMove,
        None,
        rows::parent_labels(ctx, entry),
    );
    lemma_row_conflicts_prefix(ctx, entry, keys, 0, parented);
    assert(keys.take(0) =~= Seq::<Text>::empty());
    let last = properties::row_conflicts(ctx, entry, keys, parented);
    lemma_prefix_transitive(before, decided, classed);
    lemma_prefix_transitive(before, classed, named);
    lemma_prefix_transitive(before, named, parented);
    lemma_prefix_transitive(before, parented, last);
    lemma_prefix_transitive(decided, classed, named);
    lemma_prefix_transitive(decided, named, parented);
    lemma_prefix_transitive(decided, parented, last);
    lemma_prefix_transitive(classed, named, parented);
    lemma_prefix_transitive(classed, parented, last);
    lemma_prefix_transitive(named, parented, last);
}

proof fn lemma_rows_prefix(ctx: Ctx, n: int, m: int)
    requires
        0 <= n <= m,
    ensures
        graph::rows_conflicts(ctx, n, Seq::empty()).is_prefix_of(
            graph::rows_conflicts(ctx, m, Seq::empty()),
        ),
    decreases m,
{
    let a = graph::rows_conflicts(ctx, n, Seq::empty());
    if n == m {
        lemma_prefix_self(a);
    } else {
        lemma_rows_prefix(ctx, n, m - 1);
        let b = graph::rows_conflicts(ctx, m - 1, Seq::empty());
        lemma_entry_prefixes(ctx, ctx.rows.entries[m - 1], b);
        lemma_prefix_transitive(a, b, graph::rows_conflicts(ctx, m, Seq::empty()));
    }
}

proof fn lemma_cycle_prefix(ctx: Ctx, g: GraphModel, n: int, before: Seq<ConflictModel>)
    ensures
        before.is_prefix_of(cycles::cycle_conflicts(ctx, g, n, before)),
    decreases n,
{
    if n <= 0 {
        lemma_prefix_self(before);
    } else {
        lemma_cycle_prefix(ctx, g, n - 1, before);
        let so_far = cycles::cycle_conflicts(ctx, g, n - 1, before);
        if cycles::is_member(cycles::repointed(ctx, g), n - 1) {
            lemma_prefix_push(
                before,
                so_far,
                cycles::cycle_conflicts(ctx, g, n, before).last(),
            );
            assert(cycles::cycle_conflicts(ctx, g, n, before) =~= so_far.push(
                cycles::cycle_conflicts(ctx, g, n, before).last(),
            ));
        }
    }
}

proof fn lemma_collision_prefix(
    r: ResolutionsModel,
    g: GraphModel,
    n: int,
    before: Seq<ConflictModel>,
)
    ensures
        before.is_prefix_of(collisions::collision_conflicts(r, g, n, before)),
    decreases n,
{
    if n <= 0 {
        lemma_prefix_self(before);
    } else {
        lemma_collision_prefix(r, g, n - 1, before);
        let so_far = collisions::collision_conflicts(r, g, n - 1, before);
        lemma_prefix_push(before, so_far, collisions::collision_conflict(g, n - 1));
    }
}

proof fn lemma_target_prefix(
    ctx: Ctx,
    g: GraphModel,
    m: Map<u128, usize>,
    r: int,
    key: Text,
    targets: Seq<u128>,
    n: int,
    before: Seq<ConflictModel>,
)
    ensures
        before.is_prefix_of(references::target_conflicts(ctx, g, m, r, key, targets, n, before)),
    decreases n,
{
    if n <= 0 {
        lemma_prefix_self(before);
    } else {
        lemma_target_prefix(ctx, g, m, r, key, targets, n - 1, before);
        let so_far = references::target_conflicts(ctx, g, m, r, key, targets, n - 1, before);
        let after = references::target_conflicts(ctx, g, m, r, key, targets, n, before);
        if after != so_far {
            lemma_prefix_push(before, so_far, after.last());
            assert(after =~= so_far.push(after.last()));
        }
    }
}

proof fn lemma_row_ref_prefix(
    ctx: Ctx,
    g: GraphModel,
    m: Map<u128, usize>,
    r: int,
    n: int,
    before: Seq<ConflictModel>,
)
    ensures
        before.is_prefix_of(references::row_ref_conflicts(ctx, g, m, r, n, before)),
    decreases n,
{
    if n <= 0 {
        lemma_prefix_self(before);
    } else {
        lemma_row_ref_prefix(ctx, g, m, r, n - 1, before);
        let so_far = references::row_ref_conflicts(ctx, g, m, r, n - 1, before);
        let (key, property) = g[r]->0.properties[n - 1];
        let targets = references::ref_targets(property.value);
        lemma_target_prefix(ctx, g, m, r, key, targets, targets.len() as int, so_far);
        lemma_prefix_transitive(
            before,
            so_far,
            references::target_conflicts(
                ctx,
                g,
                m,
                r,
                key,
                targets,
                targets.len() as int,
                so_far,
            ),
        );
    }
}

proof fn lemma_ref_prefix(
    ctx: Ctx,
    g: GraphModel,
    m: Map<u128, usize>,
    n: int,
    before: Seq<ConflictModel>,
)
    ensures
        before.is_prefix_of(references::ref_conflicts(ctx, g, m, n, before)),
    decreases n,
{
    if n <= 0 {
        lemma_prefix_self(before);
    } else {
        lemma_ref_prefix(ctx, g, m, n - 1, before);
        let so_far = references::ref_conflicts(ctx, g, m, n - 1, before);
        if g[n - 1] is Some {
            let len = g[n - 1]->0.properties.len() as int;
            lemma_row_ref_prefix(ctx, g, m, n - 1, len, so_far);
            lemma_prefix_transitive(
                before,
                so_far,
                references::row_ref_conflicts(ctx, g, m, n - 1, len, so_far),
            );
        }
    }
}

/// A conflict of a row is a conflict of the merge.
proof fn lemma_row_conflict_stays(ctx: Ctx, g: GraphModel, r: int, c: ConflictModel)
    requires
        0 <= r < g.len(),
        graph::entry_conflicts(
            ctx,
            ctx.rows.entries[r],
            graph::rows_conflicts(ctx, r, Seq::empty()),
        ).contains(c),
    ensures
        merging::merge_conflicts(ctx, g).contains(c),
{
    let n = g.len() as int;
    let none = Seq::<ConflictModel>::empty();
    let parted = cycles::repointed(ctx, g);
    let cleared = collisions::cleared(ctx.resolutions, parted);
    let c0 = graph::rows_conflicts(ctx, r + 1, none);
    let c1 = graph::rows_conflicts(ctx, n, none);
    let c2 = cycles::cycle_conflicts(ctx, g, n, c1);
    let c3 = collisions::collision_conflicts(ctx.resolutions, parted, n, c2);
    let m = references::dropped(ctx, cleared, n);
    lemma_rows_prefix(ctx, r + 1, n);
    lemma_cycle_prefix(ctx, g, n, c1);
    lemma_collision_prefix(ctx.resolutions, parted, n, c2);
    lemma_ref_prefix(ctx, cleared, m, n, c3);
    lemma_prefix_conflict(c0, c1, c);
    lemma_prefix_conflict(c1, c2, c);
    lemma_prefix_conflict(c2, c3, c);
    lemma_prefix_conflict(c3, references::ref_conflicts(ctx, cleared, m, n, c3), c);
}

/// Where a row has a conflict, there is no merged file.
proof fn lemma_no_outcome(ctx: Ctx, g: GraphModel, c: ConflictModel)
    requires
        merging::merge_conflicts(ctx, g).contains(c),
    ensures
        forall|outcome: OutcomeModel| #[trigger]
            merging::outcome_of(ctx, g, outcome) ==> outcome == OutcomeModel::Conflicts(
                merging::merge_conflicts(ctx, g),
            ),
{
}

// ---------------------------------------------------------------------------
// Properties
// ---------------------------------------------------------------------------

/// The conflict about a row, with what is shown of the three sides.
pub open spec fn conflict_about(
    ctx: Ctx,
    entry: MergeEntry,
    kind: ConflictKind,
    property: Option<Text>,
    base: Option<Text>,
    ours: Option<Text>,
    theirs: Option<Text>,
) -> ConflictModel {
    let node = if entry.ours is Some {
        ctx.ours[entry.ours->0 as int]
    } else if entry.theirs is Some {
        ctx.theirs[entry.theirs->0 as int]
    } else {
        ctx.base[entry.base->0 as int]
    };
    ConflictModel {
        kind,
        path: row_path(ctx, entry),
        class: node.class,
        name: node.name,
        property,
        base,
        ours,
        theirs,
    }
}

/// What is shown of a value of a file.
pub open spec fn shown_in(d: DomModel, v: Option<ValueModel>) -> Option<Text> {
    match v {
        Some(v) => Some(display::value_text(Some(d), v)),
        None => None,
    }
}

/// The conflict about a property of a row.
pub open spec fn value_conflict(ctx: Ctx, entry: MergeEntry, key: Text) -> ConflictModel {
    conflict_about(
        ctx,
        entry,
        ConflictKind::PropertyValue,
        Some(key),
        shown_in(ctx.base, value_in(ctx.base, entry.base, key)),
        shown_in(ctx.ours, value_in(ctx.ours, entry.ours, key)),
        shown_in(ctx.theirs, value_in(ctx.theirs, entry.theirs, key)),
    )
}

/// Whether three values, one of each file, are all different.
pub open spec fn all_differ(
    ctx: Ctx,
    base: Option<ValueModel>,
    ours: Option<ValueModel>,
    theirs: Option<ValueModel>,
) -> bool {
    &&& differ(ctx, base, ValueSource::Base, ours, ValueSource::Ours)
    &&& differ(ctx, base, ValueSource::Base, theirs, ValueSource::Theirs)
    &&& differ(ctx, ours, ValueSource::Ours, theirs, ValueSource::Theirs)
}

/// Whether a value is no attribute map.
pub open spec fn is_single(v: Option<ValueModel>) -> bool {
    v matches Some(x) && !(x is Attributes)
}

/// Whether the two sides changed a property of a row in different ways: as a whole, or an
/// attribute of an attribute map.
pub open spec fn is_contested(ctx: Ctx, entry: MergeEntry, key: Text) -> bool {
    let b = value_in(ctx.base, entry.base, key);
    let o = value_in(ctx.ours, entry.ours, key);
    let t = value_in(ctx.theirs, entry.theirs, key);
    let whole = key != "Attributes"@ || is_single(b) || is_single(o) || is_single(t);
    &&& key != "UniqueId"@
    &&& whole ==> all_differ(ctx, b, o, t)
    &&& !whole ==> exists|name: Text| #[trigger] attribute_contested(ctx, b, o, t, name)
}

/// The entry of an attribute map.
pub open spec fn entry_of(v: Option<ValueModel>, name: Text) -> Option<ValueModel> {
    match v {
        Some(ValueModel::Attributes(list)) => keyed::lookup(list, name),
        _ => None,
    }
}

/// Whether an attribute has three different values that are no attribute maps themselves.
pub open spec fn attribute_contested(
    ctx: Ctx,
    b: Option<ValueModel>,
    o: Option<ValueModel>,
    t: Option<ValueModel>,
    name: Text,
) -> bool {
    let (x, y, z) = (entry_of(b, name), entry_of(o, name), entry_of(t, name));
    all_differ(ctx, x, y, z) && (is_single(x) || is_single(y) || is_single(z))
}

proof fn lemma_all_differ(ctx: Ctx, key: Text, values: Values)
    requires
        key != dom::unique_id_key(),
        all_differ(ctx, values.base, values.ours, values.theirs),
        key != properties::attributes_key() || is_single(values.base) || is_single(values.ours)
            || is_single(values.theirs),
    ensures
        properties::merged_value(ctx, key, values) is Conflict,
{
    lemma_differ(ctx, values.base, ValueSource::Base, values.ours, ValueSource::Ours);
    lemma_differ(ctx, values.base, ValueSource::Base, values.theirs, ValueSource::Theirs);
    lemma_differ(ctx, values.ours, ValueSource::Ours, values.theirs, ValueSource::Theirs);
}

proof fn lemma_contested_map(ctx: Ctx, keys: Seq<Text>, values: Values, name: Text)
    requires
        properties::size(values) > 0,
        keys.contains(name),
        properties::merged_value(
            ctx,
            properties::attributes_key(),
            properties::nested(values, name),
        ) is Conflict,
    ensures
        properties::merged_attributes(ctx, keys, values) is None,
    decreases keys.len(),
{
    let i = keys.index_of(name);
    if i < keys.len() - 1 {
        assert(keys.drop_last()[i] == name);
        lemma_contested_map(ctx, keys.drop_last(), values, name);
    }
}

/// What the sides changed differently does not merge.
proof fn lemma_contested(ctx: Ctx, entry: MergeEntry, key: Text)
    requires
        is_contested(ctx, entry, key),
    ensures
        properties::merged_value(ctx, key, properties::row_values(ctx, entry, key)) is Conflict,
        properties::row_keys(ctx, entry).contains(key),
{
    let values = properties::row_values(ctx, entry, key);
    let b = value_in(ctx.base, entry.base, key);
    let o = value_in(ctx.ours, entry.ours, key);
    let t = value_in(ctx.theirs, entry.theirs, key);
    assert(values.base == b && values.ours == o && values.theirs == t);
    agreement_laws::lemma_row_named(ctx, entry, key);
    if key != "Attributes"@ || is_single(b) || is_single(o) || is_single(t) {
        lemma_all_differ(ctx, key, values);
    } else {
        let name = choose|name: Text| #[trigger] attribute_contested(ctx, b, o, t, name);
        let inner = properties::nested(values, name);
        lemma_all_differ(ctx, properties::attributes_key(), inner);
        agreement::lemma_all_named(values, name);
        assert(properties::size(values) > 0) by {
            properties::lemma_attribute_height(b, name);
            properties::lemma_attribute_height(o, name);
            properties::lemma_attribute_height(t, name);
        }
        if properties::attributes_apply(values) {
            lemma_contested_map(
                ctx,
                properties::all_attribute_keys(values),
                values,
                name,
            );
        }
    }
}

proof fn lemma_property_reported(
    ctx: Ctx,
    entry: MergeEntry,
    keys: Seq<Text>,
    key: Text,
    before: Seq<ConflictModel>,
)
    requires
        is_contested(ctx, entry, key),
        keys.contains(key),
        is_open(
            ctx.resolutions,
            ConflictKind::PropertyValue,
            row_path(ctx, entry),
            Some(key),
        ),
    ensures
        properties::row_conflicts(ctx, entry, keys, before).contains(
            value_conflict(ctx, entry, key),
        ),
    decreases keys.len(),
{
    let i = keys.index_of(key);
    let whole = properties::row_conflicts(ctx, entry, keys, before);
    let rest = properties::row_conflicts(ctx, entry, keys.drop_last(), before);
    if i < keys.len() - 1 {
        assert(keys.drop_last()[i] == key);
        lemma_property_reported(ctx, entry, keys.drop_last(), key, before);
        assert(keys.take(keys.len() - 1) =~= keys.drop_last());
        lemma_row_conflicts_prefix(ctx, entry, keys, keys.len() - 1, before);
        lemma_prefix_conflict(rest, whole, value_conflict(ctx, entry, key));
    } else {
        lemma_contested(ctx, entry, key);
        assert(whole == rest.push(value_conflict(ctx, entry, key)));
        assert(whole[rest.len() as int] == value_conflict(ctx, entry, key));
    }
}

/// Whether the three-way rule finds a text: the sides have the same one, or one of them has
/// that of the base.
pub open spec fn settles(base: Option<Text>, ours: Text, theirs: Text) -> bool {
    ours == theirs || base == Some(ours) || base == Some(theirs)
}

/// The class of an instance of a file.
pub open spec fn class_in(d: DomModel, i: Option<usize>) -> Option<Text> {
    match i {
        Some(i) => Some(d[i as int].class),
        None => None,
    }
}

/// The name of an instance of a file.
pub open spec fn name_in(d: DomModel, i: Option<usize>) -> Option<Text> {
    match i {
        Some(i) => Some(d[i as int].name),
        None => None,
    }
}

/// A row that both sides have, whose class and name are not contested.
pub open spec fn is_kept(ctx: Ctx, entry: MergeEntry) -> bool {
    &&& entry.ours is Some
    &&& entry.theirs is Some
    &&& settles(
        class_in(ctx.base, entry.base),
        ctx.ours[entry.ours->0 as int].class,
        ctx.theirs[entry.theirs->0 as int].class,
    )
    &&& settles(
        name_in(ctx.base, entry.base),
        ctx.ours[entry.ours->0 as int].name,
        ctx.theirs[entry.theirs->0 as int].name,
    )
}

proof fn lemma_kept(ctx: Ctx, g: GraphModel, r: int)
    requires
        merging::is_merged_graph(ctx, g),
        0 <= r < g.len(),
        is_kept(ctx, ctx.rows.entries[r]),
    ensures
        rows::decision(ctx, ctx.rows.entries[r]) is Merge,
        graph::merged_class(ctx, ctx.rows.entries[r]) is Some,
        graph::merged_name(ctx, ctx.rows.entries[r]) is Some,
        g[r] is Some,
        g[r]->0.properties == properties::row_properties(
            ctx,
            ctx.rows.entries[r],
            properties::row_keys(ctx, ctx.rows.entries[r]),
        ),
        g[r]->0.parent == rows::merged_parent(ctx, ctx.rows.entries[r]),
{
    assert(match g[r] {
        Some(node) => graph::draft(ctx, ctx.rows.entries[r]) == Some(
            graph::Draft {
                class: node.class,
                name: node.name,
                parent: node.parent,
                properties: node.properties,
            },
        ),
        None => graph::draft(ctx, ctx.rows.entries[r]) is None,
    });
}

/// A property other than the unique id that the two sides changed in different ways is in
/// conflict, and so is an attribute map with an attribute that they did: the merge reports
/// the conflict, with the three values, and gives no merged file.
pub proof fn law_different_edits_conflict(ctx: Ctx, g: GraphModel, r: int, key: Text)
    requires
        ctx.wf(),
        merging::is_merged_graph(ctx, g),
        0 <= r < g.len(),
        is_kept(ctx, ctx.rows.entries[r]),
        is_contested(ctx, ctx.rows.entries[r], key),
        is_open(
            ctx.resolutions,
            ConflictKind::PropertyValue,
            row_path(ctx, ctx.rows.entries[r]),
            Some(key),
        ),
    ensures
        merging::merge_conflicts(ctx, g).contains(value_conflict(ctx, ctx.rows.entries[r], key)),
        forall|outcome: OutcomeModel| #[trigger]
            merging::outcome_of(ctx, g, outcome) ==> outcome == OutcomeModel::Conflicts(
                merging::merge_conflicts(ctx, g),
            ),
{
    let entry = ctx.rows.entries[r];
    let before = graph::rows_conflicts(ctx, r, Seq::empty());
    lemma_kept(ctx, g, r);
    lemma_contested(ctx, entry, key);
    lemma_entry_prefixes(ctx, entry, before);
    let decided = rows::decision_conflicts(ctx, entry, before);
    let classed = rows::text_conflicts(
        ctx,
        entry,
        "ClassName"@,
        rows::classes_of(ctx, entry),
        decided,
    );
    let named = rows::text_conflicts(ctx, entry, "Name"@, rows::names_of(ctx, entry), classed);
    lemma_property_reported(
        ctx,
        entry,
        properties::row_keys(ctx, entry),
        key,
        rows::parent_conflicts(ctx, entry, named),
    );
    lemma_row_conflict_stays(ctx, g, r, value_conflict(ctx, entry, key));
    lemma_no_outcome(ctx, g, value_conflict(ctx, entry, key));
}

/// What a row has under a name once its properties were merged.
proof fn lemma_row_has(ctx: Ctx, g: GraphModel, r: int, key: Text)
    requires
        merging::is_merged_graph(ctx, g),
        0 <= r < g.len(),
        is_kept(ctx, ctx.rows.entries[r]),
    ensures
        g[r] is Some,
        ({
            let entry = ctx.rows.entries[r];
            let values = properties::row_values(ctx, entry, key);
            &&& values.base == value_in(ctx.base, entry.base, key)
            &&& values.ours == value_in(ctx.ours, entry.ours, key)
            &&& values.theirs == value_in(ctx.theirs, entry.theirs, key)
            &&& (values.base is Some || values.ours is Some || values.theirs is Some)
                ==> keyed::lookup(g[r]->0.properties, key) == properties::row_property(
                ctx,
                entry,
                key,
            )
            &&& !(values.base is Some || values.ours is Some || values.theirs is Some)
                ==> keyed::lookup(g[r]->0.properties, key) is None
        }),
{
    let entry = ctx.rows.entries[r];
    let keys = properties::row_keys(ctx, entry);
    let values = properties::row_values(ctx, entry, key);
    lemma_kept(ctx, g, r);
    agreement_laws::lemma_lookup_row_property(ctx, entry, keys, key);
    agreement_laws::lemma_row_named(ctx, entry, key);
    if values.base is None && values.ours is None && values.theirs is None {
        assert(properties::row_property(ctx, entry, key) is None) by {
            assert(ctx.option_equal(
                None::<ValueModel>,
                ValueSource::Ours,
                None,
                ValueSource::Base,
            ));
        }
    }
}

/// What a side has, as a property of the merged file.
pub open spec fn as_merged(v: Option<ValueModel>, source: ValueSource) -> Option<PropertyModel> {
    match v {
        Some(value) => Some(PropertyModel { value, source }),
        None => None,
    }
}

/// What a side of a row has under a name.
pub open spec fn value_of_side(ctx: Ctx, entry: MergeEntry, key: Text, side: Side) -> Option<
    PropertyModel,
> {
    match side {
        Side::Base => as_merged(value_in(ctx.base, entry.base, key), ValueSource::Base),
        Side::Ours => as_merged(value_in(ctx.ours, entry.ours, key), ValueSource::Ours),
        Side::Theirs => as_merged(value_in(ctx.theirs, entry.theirs, key), ValueSource::Theirs),
    }
}

/// A conflict about a property that is decided for a side gives the row the value of that
/// very side, or takes the property away where that side lacks it.
pub proof fn law_decided_property_is_that_of_the_side(
    ctx: Ctx,
    g: GraphModel,
    r: int,
    key: Text,
    side: Side,
)
    requires
        ctx.wf(),
        merging::is_merged_graph(ctx, g),
        0 <= r < g.len(),
        is_kept(ctx, ctx.rows.entries[r]),
        is_contested(ctx, ctx.rows.entries[r], key),
        is_decided(
            ctx.resolutions,
            ConflictKind::PropertyValue,
            row_path(ctx, ctx.rows.entries[r]),
            Some(key),
            side,
        ),
    ensures
        g[r] is Some,
        keyed::lookup(g[r]->0.properties, key) == value_of_side(
            ctx,
            ctx.rows.entries[r],
            key,
            side,
        ),
        finishes_as(ctx, g, r, key, value_of_side(ctx, ctx.rows.entries[r], key, side)),
{
    lemma_row_has(ctx, g, r, key);
    lemma_contested(ctx, ctx.rows.entries[r], key);
    lemma_finishes(ctx, g, r, key);
}

/// Whether a row of the finished graph has a property as it stands here, as long as it
/// holds no reference, which might dangle.
pub open spec fn finishes_as(
    ctx: Ctx,
    g: GraphModel,
    r: int,
    key: Text,
    p: Option<PropertyModel>,
) -> bool {
    let f = merging::finished(ctx, g);
    &&& f[r] is Some
    &&& match p {
        Some(p) => references::ref_targets(p.value).len() == 0 ==> keyed::lookup(
            f[r]->0.properties,
            key,
        ) == Some(p),
        None => keyed::lookup(f[r]->0.properties, key) is None,
    }
}

pub proof fn lemma_lookup_retained(list: Seq<(Text, PropertyModel)>, keep: Seq<bool>, key: Text)
    requires
        graph_wf::properties_wf(list),
        keep.len() == list.len(),
    ensures
        keyed::lookup(list, key) is None ==> keyed::lookup(graph::retained(list, keep), key)
            is None,
        forall|i: int|
            0 <= i < list.len() && keep[i] && (#[trigger] list[i]).0 == key ==> keyed::lookup(
                graph::retained(list, keep),
                key,
            ) == Some(list[i].1),
{
    graph_wf::lemma_retained(list, keep);
    let after = graph::retained(list, keep);
    if keyed::lookup(list, key) is None {
        keyed::lemma_lookup_absent(list, key);
        if keyed::lookup(after, key) is Some {
            let j = keyed::lemma_lookup_some(after, key);
            assert(graph_wf::is_kept(list, keep, after[j]));
        }
    }
    assert forall|i: int|
        0 <= i < list.len() && keep[i] && (#[trigger] list[i]).0 == key implies keyed::lookup(
        after,
        key,
    ) == Some(list[i].1) by {
        assert(after.contains(list[i]));
        let j = after.index_of(list[i]);
        keyed::lemma_lookup_at(after, j);
    }
}

/// Taking one property away leaves the others.
pub proof fn lemma_lookup_without(node: graph::NodeModel, gone: Text, key: Text)
    requires
        graph_wf::properties_wf(node.properties),
        graph_wf::properties_wf(graph::without_property(node, gone).properties),
        key != gone,
    ensures
        keyed::lookup(graph::without_property(node, gone).properties, key) == keyed::lookup(
            node.properties,
            key,
        ),
{
    let list = node.properties;
    let after = graph::without_property(node, gone).properties;
    if keyed::lookup(list, key) is Some {
        let i = keyed::lemma_lookup_some(list, key);
        lists::lemma_filter_mem(list, graph::has_other_name(gone), list[i]);
        assert(list.contains(list[i]));
        assert(after.contains(list[i]));
        let j = after.index_of(list[i]);
        keyed::lemma_lookup_at(after, j);
    } else if keyed::lookup(after, key) is Some {
        let j = keyed::lemma_lookup_some(after, key);
        assert(after.contains(after[j]));
        lists::lemma_filter_mem(list, graph::has_other_name(gone), after[j]);
        keyed::lemma_lookup_absent(list, key);
        let i = list.index_of(after[j]);
        assert(list[i].0 == key);
    }
}

/// A property of a merged row other than the unique id stays to the end.
proof fn lemma_finishes(ctx: Ctx, g: GraphModel, r: int, key: Text)
    requires
        ctx.wf(),
        merging::is_merged_graph(ctx, g),
        0 <= r < g.len(),
        g[r] is Some,
        key != dom::unique_id_key(),
    ensures
        finishes_as(ctx, g, r, key, keyed::lookup(g[r]->0.properties, key)),
{
    let parted = cycles::repointed(ctx, g);
    let cleared = collisions::cleared(ctx.resolutions, parted);
    let settled = merging::settled(ctx, g);
    let placed = child_order::ordered(ctx, settled);
    let f = merging::finished(ctx, g);
    merging::lemma_passes_wf(ctx, g);
    merging::lemma_same_rows_survive(ctx, g, r);
    let id = dom::unique_id_key();
    assert(parted[r] is Some && parted[r]->0.properties == g[r]->0.properties);
    if cleared[r] != parted[r] {
        lemma_lookup_without(parted[r]->0, id, key);
    }
    assert(keyed::lookup(cleared[r]->0.properties, key) == keyed::lookup(
        g[r]->0.properties,
        key,
    ));
    let list = cleared[r]->0.properties;
    let m = references::dropped(ctx, cleared, cleared.len() as int);
    let keep = references::kept_properties(ctx, cleared, m, r);
    lemma_lookup_retained(list, keep, key);
    assert(settled[r]->0.properties == graph::retained(list, keep));
    assert(placed[r]->0.properties == settled[r]->0.properties);
    if f[r] != placed[r] {
        lemma_lookup_without(placed[r]->0, id, key);
    }
    if keyed::lookup(list, key) is Some {
        let i = keyed::lemma_lookup_some(list, key);
        if references::ref_targets(list[i].1.value).len() == 0 {
            assert(!references::dangles(m, list[i].1.value));
            assert(keep[i]);
        }
    }
}

/// A property that one side changed is what it changed to; one that both changed alike is
/// what they changed to; one that neither changed stays. The unique id is no exception.
pub proof fn law_edit_of_one_side_is_taken(ctx: Ctx, g: GraphModel, r: int, key: Text)
    requires
        ctx.wf(),
        merging::is_merged_graph(ctx, g),
        0 <= r < g.len(),
        is_kept(ctx, ctx.rows.entries[r]),
    ensures
        g[r] is Some,
        ({
            let entry = ctx.rows.entries[r];
            let b = value_in(ctx.base, entry.base, key);
            let o = value_in(ctx.ours, entry.ours, key);
            let t = value_in(ctx.theirs, entry.theirs, key);
            let has = keyed::lookup(g[r]->0.properties, key);
            is_plain(b) && is_plain(o) && is_plain(t) ==> {
                &&& t == b && differ(ctx, b, ValueSource::Base, o, ValueSource::Ours) ==> has
                    == value_of_side(ctx, entry, key, Side::Ours)
                &&& o == b && differ(ctx, b, ValueSource::Base, t, ValueSource::Theirs) ==> has
                    == value_of_side(ctx, entry, key, Side::Theirs)
                &&& o == t && differ(ctx, b, ValueSource::Base, o, ValueSource::Ours) && differ(
                    ctx,
                    b,
                    ValueSource::Base,
                    t,
                    ValueSource::Theirs,
                ) ==> has == value_of_side(ctx, entry, key, Side::Ours)
                &&& o == b && t == b ==> has == value_of_side(ctx, entry, key, Side::Base)
            }
        }),
        key != "UniqueId"@ ==> finishes_as(
            ctx,
            g,
            r,
            key,
            keyed::lookup(g[r]->0.properties, key),
        ),
{
    let entry = ctx.rows.entries[r];
    let b = value_in(ctx.base, entry.base, key);
    let o = value_in(ctx.ours, entry.ours, key);
    let t = value_in(ctx.theirs, entry.theirs, key);
    lemma_row_has(ctx, g, r, key);
    if is_plain(b) && is_plain(o) && is_plain(t) {
        lemma_plain(ctx, b, ValueSource::Ours, ValueSource::Base);
        lemma_plain(ctx, b, ValueSource::Theirs, ValueSource::Base);
        lemma_plain(ctx, o, ValueSource::Ours, ValueSource::Theirs);
        if differ(ctx, b, ValueSource::Base, o, ValueSource::Ours) {
            lemma_differ(ctx, b, ValueSource::Base, o, ValueSource::Ours);
        }
        if differ(ctx, b, ValueSource::Base, t, ValueSource::Theirs) {
            lemma_differ(ctx, b, ValueSource::Base, t, ValueSource::Theirs);
        }
        if b is None && o is None && t is None {
        } else {
            let values = properties::row_values(ctx, entry, key);
            assert(!properties::attributes_apply(values));
        }
    }
    if key != "UniqueId"@ {
        lemma_finishes(ctx, g, r, key);
    }
}

/// A unique id that differs on all sides was made anew, and stays that of the base; without
/// a base it is that of ours.
pub proof fn law_new_unique_ids_yield_to_the_base(ctx: Ctx, g: GraphModel, r: int)
    requires
        ctx.wf(),
        merging::is_merged_graph(ctx, g),
        0 <= r < g.len(),
        is_kept(ctx, ctx.rows.entries[r]),
        all_differ(
            ctx,
            value_in(ctx.base, ctx.rows.entries[r].base, "UniqueId"@),
            value_in(ctx.ours, ctx.rows.entries[r].ours, "UniqueId"@),
            value_in(ctx.theirs, ctx.rows.entries[r].theirs, "UniqueId"@),
        ),
    ensures
        g[r] is Some,
        ({
            let entry = ctx.rows.entries[r];
            let key = "UniqueId"@;
            keyed::lookup(g[r]->0.properties, key) == (if value_in(ctx.base, entry.base, key)
                is Some {
                value_of_side(ctx, entry, key, Side::Base)
            } else {
                value_of_side(ctx, entry, key, Side::Ours)
            })
        }),
{
    let entry = ctx.rows.entries[r];
    let key = "UniqueId"@;
    let b = value_in(ctx.base, entry.base, key);
    let o = value_in(ctx.ours, entry.ours, key);
    let t = value_in(ctx.theirs, entry.theirs, key);
    lemma_row_has(ctx, g, r, key);
    lemma_differ(ctx, b, ValueSource::Base, o, ValueSource::Ours);
    lemma_differ(ctx, b, ValueSource::Base, t, ValueSource::Theirs);
    lemma_differ(ctx, o, ValueSource::Ours, t, ValueSource::Theirs);
    reveal_strlit("UniqueId");
    reveal_strlit("Attributes");
    assert("UniqueId"@[0] != "Attributes"@[0]);
}

// ---------------------------------------------------------------------------
// Deletions
// ---------------------------------------------------------------------------

/// The row of the parent of an instance.
pub open spec fn parent_in(ctx: Ctx, node: InstanceModel, source: ValueSource) -> Option<usize> {
    match node.parent {
        Some(p) => identity::row_of(ctx.rows, source, p),
        None => None,
    }
}

/// Whether two instances have children of different rows, or in another order.
pub open spec fn children_differ(
    ctx: Ctx,
    b: InstanceModel,
    s: InstanceModel,
    source: ValueSource,
) -> bool {
    ||| b.children.len() != s.children.len()
    ||| exists|i: int|
        0 <= i < b.children.len() && identity::row_of(
            ctx.rows,
            ValueSource::Base,
            #[trigger] b.children[i],
        ) != identity::row_of(ctx.rows, source, s.children[i])
}

/// Whether an instance of a side is not what it was in the base: another class, another
/// name, another value of a property, another parent, or other children.
pub open spec fn was_edited(ctx: Ctx, b: InstanceModel, s: InstanceModel, source: ValueSource) -> bool {
    ||| b.class != s.class
    ||| b.name != s.name
    ||| exists|key: Text|
        differ(
            ctx,
            #[trigger] keyed::lookup(b.properties, key),
            ValueSource::Base,
            keyed::lookup(s.properties, key),
            source,
        )
    ||| parent_in(ctx, b, ValueSource::Base) != parent_in(ctx, s, source)
    ||| children_differ(ctx, b, s, source)
}

/// Whether an instance of a side is what it was in the base.
pub open spec fn is_untouched(
    ctx: Ctx,
    b: InstanceModel,
    s: InstanceModel,
    source: ValueSource,
) -> bool {
    &&& b.class == s.class
    &&& b.name == s.name
    &&& forall|key: Text|
        is_plain(#[trigger] keyed::lookup(b.properties, key)) && keyed::lookup(b.properties, key)
            == keyed::lookup(s.properties, key)
    &&& parent_in(ctx, b, ValueSource::Base) == parent_in(ctx, s, source)
    &&& !children_differ(ctx, b, s, source)
}

proof fn lemma_edited(ctx: Ctx, b: InstanceModel, s: InstanceModel, source: ValueSource)
    ensures
        was_edited(ctx, b, s, source) ==> rows::changed(ctx, b, s, source),
        is_untouched(ctx, b, s, source) ==> !rows::changed(ctx, b, s, source),
{
    let x = rows::child_rows(ctx, b, ValueSource::Base);
    let y = rows::child_rows(ctx, s, source);
    if exists|key: Text|
        differ(
            ctx,
            #[trigger] keyed::lookup(b.properties, key),
            ValueSource::Base,
            keyed::lookup(s.properties, key),
            source,
        ) {
        let key = choose|key: Text|
            differ(
                ctx,
                #[trigger] keyed::lookup(b.properties, key),
                ValueSource::Base,
                keyed::lookup(s.properties, key),
                source,
            );
        lemma_differ(
            ctx,
            keyed::lookup(b.properties, key),
            ValueSource::Base,
            keyed::lookup(s.properties, key),
            source,
        );
        assert(rows::property_differs(ctx, b, s, source, key));
    }
    if children_differ(ctx, b, s, source) {
        if b.children.len() == s.children.len() {
            let i = choose|i: int|
                0 <= i < b.children.len() && identity::row_of(
                    ctx.rows,
                    ValueSource::Base,
                    #[trigger] b.children[i],
                ) != identity::row_of(ctx.rows, source, s.children[i]);
            assert(x[i] != y[i]);
        } else {
            assert(x.len() != y.len());
        }
    } else {
        assert forall|i: int| 0 <= i < x.len() implies x[i] == y[i] by {
            assert(b.children[i] == b.children[i]);
        }
        assert(x =~= y);
    }
    if is_untouched(ctx, b, s, source) {
        assert forall|key: Text| !(#[trigger] rows::property_differs(ctx, b, s, source, key)) by {
            lemma_plain(ctx, keyed::lookup(b.properties, key), ValueSource::Base, source);
        }
    }
}

/// A row that one side deleted.
pub open spec fn is_deleted_by(entry: MergeEntry, side: Side) -> bool {
    &&& entry.base is Some
    &&& match side {
        Side::Ours => entry.ours is None && entry.theirs is Some,
        Side::Theirs => entry.theirs is None && entry.ours is Some,
        Side::Base => false,
    }
}

/// The instance of a row that is left where one side deleted it.
pub open spec fn survivor(ctx: Ctx, entry: MergeEntry) -> InstanceModel {
    if entry.ours is None {
        ctx.theirs[entry.theirs->0 as int]
    } else {
        ctx.ours[entry.ours->0 as int]
    }
}

/// The side that has the instance.
pub open spec fn survivor_source(entry: MergeEntry) -> ValueSource {
    if entry.ours is None {
        ValueSource::Theirs
    } else {
        ValueSource::Ours
    }
}

/// The conflict about an instance that one side deleted and the other changed.
pub open spec fn deletion_conflict(ctx: Ctx, entry: MergeEntry) -> ConflictModel {
    let b = entry.base->0 as int;
    ConflictModel {
        kind: ConflictKind::DeleteModify,
        path: semantic::dom_path(ctx.base, b),
        class: ctx.base[b].class,
        name: ctx.base[b].name,
        property: None,
        base: Some("present in base"@),
        ours: Some(
            if entry.ours is None {
                "deleted"@
            } else {
                "modified"@
            },
        ),
        theirs: Some(
            if entry.theirs is None {
                "deleted"@
            } else {
                "modified"@
            },
        ),
    }
}

/// An instance that one side deleted and the other changed is in conflict: the merge
/// reports it and gives no merged file.
pub proof fn law_deleted_and_edited_conflicts(ctx: Ctx, g: GraphModel, r: int, side: Side)
    requires
        ctx.wf(),
        merging::is_merged_graph(ctx, g),
        0 <= r < g.len(),
        is_deleted_by(ctx.rows.entries[r], side),
        was_edited(
            ctx,
            ctx.base[ctx.rows.entries[r].base->0 as int],
            survivor(ctx, ctx.rows.entries[r]),
            survivor_source(ctx.rows.entries[r]),
        ),
        is_open(
            ctx.resolutions,
            ConflictKind::DeleteModify,
            semantic::dom_path(ctx.base, ctx.rows.entries[r].base->0 as int),
            None,
        ),
    ensures
        merging::merge_conflicts(ctx, g).contains(deletion_conflict(ctx, ctx.rows.entries[r])),
        forall|outcome: OutcomeModel| #[trigger]
            merging::outcome_of(ctx, g, outcome) ==> outcome == OutcomeModel::Conflicts(
                merging::merge_conflicts(ctx, g),
            ),
{
    let entry = ctx.rows.entries[r];
    let before = graph::rows_conflicts(ctx, r, Seq::empty());
    lemma_edited(
        ctx,
        ctx.base[entry.base->0 as int],
        survivor(ctx, entry),
        survivor_source(entry),
    );
    let decided = rows::decision_conflicts(ctx, entry, before);
    assert(decided == before.push(deletion_conflict(ctx, entry)));
    assert(decided[before.len() as int] == deletion_conflict(ctx, entry));
    lemma_entry_prefixes(ctx, entry, before);
    lemma_prefix_conflict(
        decided,
        graph::entry_conflicts(ctx, entry, before),
        deletion_conflict(ctx, entry),
    );
    lemma_row_conflict_stays(ctx, g, r, deletion_conflict(ctx, entry));
    lemma_no_outcome(ctx, g, deletion_conflict(ctx, entry));
}

/// An instance that one side deleted and the other left as it was is deleted, without a
/// conflict about it; so is one that both sides deleted.
pub proof fn law_clean_deletion_is_taken(ctx: Ctx, g: GraphModel, r: int, side: Side)
    requires
        ctx.wf(),
        merging::is_merged_graph(ctx, g),
        0 <= r < g.len(),
        ({
            let entry = ctx.rows.entries[r];
            ||| is_deleted_by(entry, side) && is_untouched(
                ctx,
                ctx.base[entry.base->0 as int],
                survivor(ctx, entry),
                survivor_source(entry),
            )
            ||| entry.base is Some && entry.ours is None && entry.theirs is None
        }),
    ensures
        g[r] is None,
        merging::finished(ctx, g)[r] is None,
        forall|before: Seq<ConflictModel>| #[trigger]
            graph::entry_conflicts(ctx, ctx.rows.entries[r], before) == before,
{
    let entry = ctx.rows.entries[r];
    if is_deleted_by(entry, side) {
        lemma_edited(
            ctx,
            ctx.base[entry.base->0 as int],
            survivor(ctx, entry),
            survivor_source(entry),
        );
    }
    assert(graph::draft(ctx, entry) is None);
    assert(g[r] is None);
    merging::lemma_same_rows_survive(ctx, g, r);
}

/// Whether a row is an instance as it stands in a file.
pub open spec fn is_row_of(
    ctx: Ctx,
    node: graph::NodeModel,
    instance: InstanceModel,
    source: ValueSource,
) -> bool {
    &&& node.class == instance.class
    &&& node.name == instance.name
    &&& node.parent == parent_in(ctx, instance, source)
    &&& forall|key: Text| #[trigger]
        keyed::lookup(node.properties, key) == as_merged(
            keyed::lookup(instance.properties, key),
            source,
        )
}

proof fn lemma_side_lookup(node: InstanceModel, source: ValueSource, key: Text)
    ensures
        keyed::lookup(graph::side_properties(node, source), key) == as_merged(
            keyed::lookup(node.properties, key),
            source,
        ),
{
    let list = node.properties;
    let after = graph::side_properties(node, source);
    if keyed::lookup(list, key) is Some {
        let i = keyed::lemma_lookup_some(list, key);
        assert forall|j: int| 0 <= j < i implies (#[trigger] after[j]).0 != after[i].0 by {
            assert(list[j].0 != key);
        }
        keyed::lemma_lookup_first(after, i);
    } else {
        keyed::lemma_lookup_absent(list, key);
        assert forall|j: int| 0 <= j < after.len() implies (#[trigger] after[j]).0 != key by {
            assert(list[j].0 != key);
        }
        keyed::lemma_lookup_none(after, key);
    }
}

/// A conflict about a deletion that is decided for a side gives the instance as that very
/// side has it, or no instance where that side has none.
pub proof fn law_decided_deletion_is_that_of_the_side(
    ctx: Ctx,
    g: GraphModel,
    r: int,
    deleter: Side,
    side: Side,
)
    requires
        ctx.wf(),
        merging::is_merged_graph(ctx, g),
        0 <= r < g.len(),
        is_deleted_by(ctx.rows.entries[r], deleter),
        was_edited(
            ctx,
            ctx.base[ctx.rows.entries[r].base->0 as int],
            survivor(ctx, ctx.rows.entries[r]),
            survivor_source(ctx.rows.entries[r]),
        ),
        is_decided(
            ctx.resolutions,
            ConflictKind::DeleteModify,
            semantic::dom_path(ctx.base, ctx.rows.entries[r].base->0 as int),
            None,
            side,
        ),
    ensures
        ({
            let entry = ctx.rows.entries[r];
            &&& side == deleter <==> g[r] is None
            &&& side == deleter <==> merging::finished(ctx, g)[r] is None
            &&& side == Side::Base ==> is_row_of(
                ctx,
                g[r]->0,
                ctx.base[entry.base->0 as int],
                ValueSource::Base,
            )
            &&& side != Side::Base && side != deleter ==> is_row_of(
                ctx,
                g[r]->0,
                survivor(ctx, entry),
                survivor_source(entry),
            )
        }),
        forall|before: Seq<ConflictModel>| #[trigger]
            graph::entry_conflicts(ctx, ctx.rows.entries[r], before) == before,
{
    let entry = ctx.rows.entries[r];
    lemma_edited(
        ctx,
        ctx.base[entry.base->0 as int],
        survivor(ctx, entry),
        survivor_source(entry),
    );
    merging::lemma_same_rows_survive(ctx, g, r);
    assert(match g[r] {
        Some(node) => graph::draft(ctx, entry) == Some(
            graph::Draft {
                class: node.class,
                name: node.name,
                parent: node.parent,
                properties: node.properties,
            },
        ),
        None => graph::draft(ctx, entry) is None,
    });
    if side == Side::Base {
        let b = ctx.base[entry.base->0 as int];
        assert forall|key: Text| #[trigger] keyed::lookup(g[r]->0.properties, key) == as_merged(
            keyed::lookup(b.properties, key),
            ValueSource::Base,
        ) by {
            lemma_side_lookup(b, ValueSource::Base, key);
        }
    } else if side != deleter {
        let s = survivor(ctx, entry);
        assert forall|key: Text| #[trigger] keyed::lookup(g[r]->0.properties, key) == as_merged(
            keyed::lookup(s.properties, key),
            survivor_source(entry),
        ) by {
            lemma_side_lookup(s, survivor_source(entry), key);
        }
    }
}

// ---------------------------------------------------------------------------
// Names, classes and parents
// ---------------------------------------------------------------------------

/// Whether three texts are all different; the base may have none.
pub open spec fn texts_differ(base: Option<Text>, ours: Text, theirs: Text) -> bool {
    base != Some(ours) && base != Some(theirs) && ours != theirs
}

/// The text of three that the sides agree on: what one of them changed it to, else what
/// it was.
pub open spec fn edited_text(base: Option<Text>, ours: Text, theirs: Text) -> Text {
    if base == Some(ours) {
        theirs
    } else {
        ours
    }
}

/// The name that one side changed is what it changed to; so is the class.
pub proof fn law_rename_of_one_side_is_taken(ctx: Ctx, g: GraphModel, r: int)
    requires
        ctx.wf(),
        merging::is_merged_graph(ctx, g),
        0 <= r < g.len(),
        is_kept(ctx, ctx.rows.entries[r]),
    ensures
        ({
            let entry = ctx.rows.entries[r];
            let o = ctx.ours[entry.ours->0 as int];
            let t = ctx.theirs[entry.theirs->0 as int];
            let f = merging::finished(ctx, g);
            &&& f[r] is Some
            &&& f[r]->0.name == edited_text(name_in(ctx.base, entry.base), o.name, t.name)
            &&& f[r]->0.class == edited_text(class_in(ctx.base, entry.base), o.class, t.class)
        }),
{
    lemma_kept(ctx, g, r);
    merging::lemma_same_rows_survive(ctx, g, r);
}

/// The conflict about the name or the class of a row.
pub open spec fn text_conflict(
    ctx: Ctx,
    entry: MergeEntry,
    property: Text,
    base: Option<Text>,
    ours: Text,
    theirs: Text,
) -> ConflictModel {
    conflict_about(
        ctx,
        entry,
        ConflictKind::InstanceIdentity,
        Some(property),
        base,
        Some(ours),
        Some(theirs),
    )
}

/// An instance that both sides gave different names is in conflict; so is one that both
/// gave different classes.
pub proof fn law_different_renames_conflict(ctx: Ctx, g: GraphModel, r: int)
    requires
        ctx.wf(),
        merging::is_merged_graph(ctx, g),
        0 <= r < g.len(),
        ctx.rows.entries[r].ours is Some,
        ctx.rows.entries[r].theirs is Some,
    ensures
        ({
            let entry = ctx.rows.entries[r];
            let path = row_path(ctx, entry);
            let o = ctx.ours[entry.ours->0 as int];
            let t = ctx.theirs[entry.theirs->0 as int];
            let class = class_in(ctx.base, entry.base);
            let name = name_in(ctx.base, entry.base);
            let found = merging::merge_conflicts(ctx, g);
            &&& texts_differ(class, o.class, t.class) && is_open(
                ctx.resolutions,
                ConflictKind::InstanceIdentity,
                path,
                Some("ClassName"@),
            ) ==> found.contains(
                text_conflict(ctx, entry, "ClassName"@, class, o.class, t.class),
            )
            &&& settles(class, o.class, t.class) && texts_differ(name, o.name, t.name) && is_open(
                ctx.resolutions,
                ConflictKind::InstanceIdentity,
                path,
                Some("Name"@),
            ) ==> found.contains(text_conflict(ctx, entry, "Name"@, name, o.name, t.name))
        }),
{
    let entry = ctx.rows.entries[r];
    let o = ctx.ours[entry.ours->0 as int];
    let t = ctx.theirs[entry.theirs->0 as int];
    let class = class_in(ctx.base, entry.base);
    let name = name_in(ctx.base, entry.base);
    let before = graph::rows_conflicts(ctx, r, Seq::empty());
    let after = graph::entry_conflicts(ctx, entry, before);
    let decided = rows::decision_conflicts(ctx, entry, before);
    let classes = rows::classes_of(ctx, entry);
    let names = rows::names_of(ctx, entry);
    let classed = rows::text_conflicts(ctx, entry, "ClassName"@, classes, decided);
    let named = rows::text_conflicts(ctx, entry, "Name"@, names, classed);
    assert(rows::decision(ctx, entry) is Merge);
    assert(classes.base == class && classes.ours == Some(o.class) && classes.theirs == Some(
        t.class,
    ));
    assert(names.base == name && names.ours == Some(o.name) && names.theirs == Some(t.name));
    lemma_entry_prefixes(ctx, entry, before);
    if texts_differ(class, o.class, t.class) && is_open(
        ctx.resolutions,
        ConflictKind::InstanceIdentity,
        row_path(ctx, entry),
        Some("ClassName"@),
    ) {
        let c = text_conflict(ctx, entry, "ClassName"@, class, o.class, t.class);
        assert(classed == decided.push(c));
        assert(classed[decided.len() as int] == c);
        lemma_prefix_conflict(classed, after, c);
        lemma_row_conflict_stays(ctx, g, r, c);
    }
    if settles(class, o.class, t.class) && texts_differ(name, o.name, t.name) && is_open(
        ctx.resolutions,
        ConflictKind::InstanceIdentity,
        row_path(ctx, entry),
        Some("Name"@),
    ) {
        let c = text_conflict(ctx, entry, "Name"@, name, o.name, t.name);
        assert(named == classed.push(c));
        assert(named[classed.len() as int] == c);
        lemma_prefix_conflict(named, after, c);
        lemma_row_conflict_stays(ctx, g, r, c);
    }
}

/// A conflict about a name that is decided for a side gives the row the name that it has on
/// that very side; so does one about a class.
pub proof fn law_decided_name_is_that_of_the_side(ctx: Ctx, g: GraphModel, r: int, side: Side)
    requires
        ctx.wf(),
        merging::is_merged_graph(ctx, g),
        0 <= r < g.len(),
        ctx.rows.entries[r].base is Some,
        ctx.rows.entries[r].ours is Some,
        ctx.rows.entries[r].theirs is Some,
    ensures
        ({
            let entry = ctx.rows.entries[r];
            let path = row_path(ctx, entry);
            let b = ctx.base[entry.base->0 as int];
            let o = ctx.ours[entry.ours->0 as int];
            let t = ctx.theirs[entry.theirs->0 as int];
            let chosen = if side == Side::Base {
                b
            } else if side == Side::Ours {
                o
            } else {
                t
            };
            let f = merging::finished(ctx, g);
            &&& settles(Some(b.class), o.class, t.class) && texts_differ(
                Some(b.name),
                o.name,
                t.name,
            ) && is_decided(
                ctx.resolutions,
                ConflictKind::InstanceIdentity,
                path,
                Some("Name"@),
                side,
            ) ==> f[r] is Some && f[r]->0.name == chosen.name
            &&& settles(Some(b.name), o.name, t.name) && texts_differ(
                Some(b.class),
                o.class,
                t.class,
            ) && is_decided(
                ctx.resolutions,
                ConflictKind::InstanceIdentity,
                path,
                Some("ClassName"@),
                side,
            ) ==> f[r] is Some && f[r]->0.class == chosen.class
        }),
{
    let entry = ctx.rows.entries[r];
    merging::lemma_same_rows_survive(ctx, g, r);
    assert(rows::decision(ctx, entry) is Merge);
    assert(match g[r] {
        Some(node) => graph::draft(ctx, entry) == Some(
            graph::Draft {
                class: node.class,
                name: node.name,
                parent: node.parent,
                properties: node.properties,
            },
        ),
        None => graph::draft(ctx, entry) is None,
    });
}

/// The path of the instance that a row is shown by.
pub open spec fn path_of_row(ctx: Ctx, row: Option<usize>) -> Option<Text> {
    match row {
        Some(x) => Some(row_path(ctx, ctx.rows.entries[x as int])),
        None => None,
    }
}

/// The conflict about the parent of a row.
pub open spec fn parent_conflict(ctx: Ctx, entry: MergeEntry) -> ConflictModel {
    conflict_about(
        ctx,
        entry,
        ConflictKind::ParentMove,
        None,
        match entry.base {
            Some(b) => path_of_row(ctx, parent_in(ctx, ctx.base[b as int], ValueSource::Base)),
            None => None,
        },
        path_of_row(
            ctx,
            parent_in(ctx, ctx.ours[entry.ours->0 as int], ValueSource::Ours),
        ),
        path_of_row(
            ctx,
            parent_in(ctx, ctx.theirs[entry.theirs->0 as int], ValueSource::Theirs),
        ),
    )
}

/// An instance that one side moved is under the parent that it was moved to; one that both
/// sides moved to different parents is in conflict, and where that is decided for a side, it
/// is under the parent that it has on that very side.
pub proof fn law_moves_are_taken_or_conflict(ctx: Ctx, g: GraphModel, r: int, side: Side)
    requires
        ctx.wf(),
        merging::is_merged_graph(ctx, g),
        0 <= r < g.len(),
        is_kept(ctx, ctx.rows.entries[r]),
        ctx.rows.entries[r].base is Some,
    ensures
        g[r] is Some,
        ({
            let entry = ctx.rows.entries[r];
            let b = parent_in(ctx, ctx.base[entry.base->0 as int], ValueSource::Base);
            let o = parent_in(ctx, ctx.ours[entry.ours->0 as int], ValueSource::Ours);
            let t = parent_in(ctx, ctx.theirs[entry.theirs->0 as int], ValueSource::Theirs);
            &&& t == b ==> g[r]->0.parent == o
            &&& o == b ==> g[r]->0.parent == t
            &&& o == t ==> g[r]->0.parent == o
            &&& o != b && t != b && o != t ==> {
                &&& is_open(
                    ctx.resolutions,
                    ConflictKind::ParentMove,
                    row_path(ctx, entry),
                    None,
                ) ==> merging::merge_conflicts(ctx, g).contains(parent_conflict(ctx, entry))
                &&& is_decided(
                    ctx.resolutions,
                    ConflictKind::ParentMove,
                    row_path(ctx, entry),
                    None,
                    side,
                ) ==> g[r]->0.parent == (if side == Side::Base {
                    b
                } else if side == Side::Ours {
                    o
                } else {
                    t
                })
            }
        }),
{
    let entry = ctx.rows.entries[r];
    let before = graph::rows_conflicts(ctx, r, Seq::empty());
    let after = graph::entry_conflicts(ctx, entry, before);
    let decided = rows::decision_conflicts(ctx, entry, before);
    let classed = rows::text_conflicts(
        ctx,
        entry,
        "ClassName"@,
        rows::classes_of(ctx, entry),
        decided,
    );
    let named = rows::text_conflicts(ctx, entry, "Name"@, rows::names_of(ctx, entry), classed);
    let parented = rows::parent_conflicts(ctx, entry, named);
    let parents = ctx.parents(entry);
    lemma_kept(ctx, g, r);
    lemma_entry_prefixes(ctx, entry, before);
    let b = parent_in(ctx, ctx.base[entry.base->0 as int], ValueSource::Base);
    let o = parent_in(ctx, ctx.ours[entry.ours->0 as int], ValueSource::Ours);
    let t = parent_in(ctx, ctx.theirs[entry.theirs->0 as int], ValueSource::Theirs);
    assert(parents.base == b && parents.ours == o && parents.theirs == t);
    if o != b && t != b && o != t && is_open(
        ctx.resolutions,
        ConflictKind::ParentMove,
        row_path(ctx, entry),
        None,
    ) {
        let c = parent_conflict(ctx, entry);
        assert(parented == named.push(c));
        assert(parented[named.len() as int] == c);
        lemma_prefix_conflict(parented, after, c);
        lemma_row_conflict_stays(ctx, g, r, c);
    }
}

/// An instance that one side added is in the merge as that side has it.
pub proof fn law_addition_is_taken(ctx: Ctx, g: GraphModel, r: int)
    requires
        ctx.wf(),
        merging::is_merged_graph(ctx, g),
        0 <= r < g.len(),
        ctx.rows.entries[r].base is None,
        ctx.rows.entries[r].ours is None || ctx.rows.entries[r].theirs is None,
    ensures
        g[r] is Some,
        merging::finished(ctx, g)[r] is Some,
        ({
            let entry = ctx.rows.entries[r];
            let (node, source) = if entry.ours is Some {
                (ctx.ours[entry.ours->0 as int], ValueSource::Ours)
            } else {
                (ctx.theirs[entry.theirs->0 as int], ValueSource::Theirs)
            };
            &&& g[r]->0.class == node.class
            &&& g[r]->0.name == node.name
            &&& g[r]->0.parent == parent_in(ctx, node, source)
            &&& forall|key: Text|
                is_plain(keyed::lookup(node.properties, key)) ==> #[trigger] keyed::lookup(
                    g[r]->0.properties,
                    key,
                ) == as_merged(keyed::lookup(node.properties, key), source)
        }),
{
    let entry = ctx.rows.entries[r];
    context::lemma_entry_wf(ctx, r);
    merging::lemma_same_rows_survive(ctx, g, r);
    assert(rows::decision(ctx, entry) is Merge);
    let (node, source) = if entry.ours is Some {
        (ctx.ours[entry.ours->0 as int], ValueSource::Ours)
    } else {
        (ctx.theirs[entry.theirs->0 as int], ValueSource::Theirs)
    };
    assert(match g[r] {
        Some(node) => graph::draft(ctx, entry) == Some(
            graph::Draft {
                class: node.class,
                name: node.name,
                parent: node.parent,
                properties: node.properties,
            },
        ),
        None => graph::draft(ctx, entry) is None,
    });
    let keys = properties::row_keys(ctx, entry);
    assert forall|key: Text| is_plain(keyed::lookup(node.properties, key)) implies (
    #[trigger] keyed::lookup(g[r]->0.properties, key)) == as_merged(
        keyed::lookup(node.properties, key),
        source,
    ) by {
        let values = properties::row_values(ctx, entry, key);
        let v = keyed::lookup(node.properties, key);
        agreement_laws::lemma_lookup_row_property(ctx, entry, keys, key);
        agreement_laws::lemma_row_named(ctx, entry, key);
        assert(values.base is None);
        assert(ctx.option_equal(
            None::<ValueModel>,
            ValueSource::Ours,
            None,
            ValueSource::Base,
        ));
        assert(ctx.option_equal(
            None::<ValueModel>,
            ValueSource::Theirs,
            None,
            ValueSource::Base,
        ));
        if v is Some {
            assert(!ctx.option_equal(v, source, None, ValueSource::Base));
        }
        assert(!properties::attributes_apply(values));
    }
}

} // verus!
