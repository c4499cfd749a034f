//! A file that was not changed is recognised instance by instance, so that the merge
//! makes of it what the other side is.

use vstd::prelude::*;

use crate::agreement;
use crate::agreement_laws;
use crate::context::Ctx;
use crate::dom;
use crate::files;
use crate::graph::GraphModel;
use crate::identity;
use crate::identity::MergeEntry;
use crate::keyed;
use crate::lists;
use crate::matching;
use crate::matching::{Classes, Matching};
use crate::merging;
use crate::resolve::Side;
use crate::rows;
use crate::semantic;
use crate::semantic::{DomModel, ValueSource};
use crate::text::Text;
use crate::three_way;
use crate::value;
use crate::value::ValueModel;

verus! {

/// Whether two referents of different files stand for the same reference: both are
/// nil, both lead to the instance of the same place, or both lead nowhere and are
/// literally the same.
pub open spec fn ref_copied(b: DomModel, s: DomModel, x: u128, y: u128) -> bool {
    if x == 0 || y == 0 {
        x == 0 && y == 0
    } else {
        match (semantic::node_of_ref(b, x), semantic::node_of_ref(s, y)) {
            (Some(i), Some(j)) => i == j,
            (None, None) => x == y,
            _ => false,
        }
    }
}

/// Whether a value of one file is a copy of a value of another.
pub open spec fn value_copied(b: DomModel, s: DomModel, v: ValueModel, u: ValueModel) -> bool
    decreases v,
{
    match (v, u) {
        (ValueModel::Ref(x), ValueModel::Ref(y)) => ref_copied(b, s, x, y),
        (ValueModel::Object(x), ValueModel::Object(y)) => ref_copied(b, s, x, y),
        (ValueModel::Attributes(x), ValueModel::Attributes(y)) => {
            &&& x.len() == y.len()
            &&& forall|i: int|
                0 <= i < x.len() ==> (#[trigger] x[i]).0 == y[i].0 && value_copied(
                    b,
                    s,
                    x[i].1,
                    y[i].1,
                )
        },
        (ValueModel::Leaf(x), ValueModel::Leaf(y)) => value::leaf_equal(x, y),
        _ => false,
    }
}

pub open spec fn option_copied(
    b: DomModel,
    s: DomModel,
    v: Option<ValueModel>,
    u: Option<ValueModel>,
) -> bool {
    match (v, u) {
        (None, None) => true,
        (Some(v), Some(u)) => value_copied(b, s, v, u),
        _ => false,
    }
}

/// Whether an instance stands where the instance of the same place of another file
/// stands, with its class and name.
pub open spec fn instance_placed(b: DomModel, s: DomModel, i: int) -> bool {
    &&& s[i].class == b[i].class
    &&& s[i].name == b[i].name
    &&& s[i].parent == b[i].parent
    &&& s[i].children == b[i].children
}

/// Whether a property of an instance is a copy of that of the instance of the same
/// place of another file.
pub open spec fn property_copied(b: DomModel, s: DomModel, i: int, key: Text) -> bool {
    option_copied(
        b,
        s,
        keyed::lookup(b[i].properties, key),
        keyed::lookup(s[i].properties, key),
    )
}

/// Whether an instance of one file is a copy of the instance of the same place of
/// another.
pub open spec fn instance_copied(b: DomModel, s: DomModel, i: int) -> bool {
    &&& instance_placed(b, s, i)
    &&& semantic::node_unique_id(s[i]) == semantic::node_unique_id(b[i])
    &&& forall|key: Text| #[trigger] property_copied(b, s, i, key)
}

/// Whether a file is a copy of another; only the referents are other ones.
pub open spec fn is_copy(b: DomModel, s: DomModel) -> bool {
    &&& s.len() == b.len()
    &&& forall|i: int| 0 <= i < b.len() ==> #[trigger] instance_copied(b, s, i)
}

/// Whether a file has the same tree of instances as another, with whatever properties.
pub open spec fn same_shape(b: DomModel, s: DomModel) -> bool {
    &&& s.len() == b.len()
    &&& forall|i: int| 0 <= i < b.len() ==> #[trigger] instance_placed(b, s, i)
}

/// Whether unique ids lead to the instance of the same place, where they lead to one.
pub open spec fn ids_lead_home(m: Matching) -> bool {
    forall|i: int|
        0 <= i < m.base.len() && (#[trigger] m.by_id(i)) is Some ==> m.by_id(i) == Some(i as usize)
}

// ---------------------------------------------------------------------------
// Matching
// ---------------------------------------------------------------------------

/// Filters that agree on a list give the same list.
pub proof fn lemma_filter_same(list: Seq<usize>, p: spec_fn(usize) -> bool, q: spec_fn(usize) -> bool)
    requires
        forall|i: int| 0 <= i < list.len() ==> p(#[trigger] list[i]) == q(list[i]),
    ensures
        list.filter(p) == list.filter(q),
    decreases list.len(),
{
    reveal(Seq::filter);
    if list.len() > 0 {
        let rest = list.drop_last();
        assert forall|i: int| 0 <= i < rest.len() implies p(#[trigger] rest[i]) == q(rest[i]) by {
            assert(rest[i] == list[i]);
        }
        lemma_filter_same(rest, p, q);
        assert(list[list.len() - 1] == list.last());
    }
}

/// Copies have the same shape, and their unique ids lead home.
proof fn lemma_copy_shape(m: Matching)
    requires
        m.wf(),
        is_copy(m.base, m.side),
    ensures
        same_shape(m.base, m.side),
        ids_lead_home(m),
{
    assert forall|i: int| 0 <= i < m.base.len() implies #[trigger] instance_placed(
        m.base,
        m.side,
        i,
    ) by {
        assert(instance_copied(m.base, m.side, i));
    }
    assert forall|i: int| 0 <= i < m.base.len() && (#[trigger] m.by_id(i)) is Some implies m.by_id(i)
        == Some(i as usize) by {
        let id = semantic::node_unique_id(m.base[i])->0;
        let (a, b) = (matching::all_of(m.base), matching::all_of(m.side));
        assert(matching::is_sole(m.base, a, i, id));
        assert(matching::is_sole(m.side, b, i, id)) by {
            assert(instance_copied(m.base, m.side, i));
            assert forall|j: int| #[trigger] matching::holds_id(m.side, b, j, id) implies j == i by {
                assert(instance_copied(m.base, m.side, j));
                assert(matching::holds_id(m.base, a, j, id));
            }
        }
        matching::lemma_sole(m.side, b, i, id);
    }
}

/// An instance is matched with the instance of the same place by unique id or as a
/// service, or not by either.
proof fn lemma_placed_first(m: Matching, i: int)
    requires
        m.wf(),
        same_shape(m.base, m.side),
        ids_lead_home(m),
        0 <= i < m.base.len(),
    ensures
        m.first(i) is Some ==> m.first(i) == Some(i as usize),
{
    if m.by_id(i) is None && m.by_service(i) is Some {
        let class = m.base[i].class;
        assert(instance_placed(m.base, m.side, 0));
        let list = m.base[0].children;
        matching::lemma_children(m.base, 0);
        assert forall|k: int| 0 <= k < list.len() implies matching::of_class(m.base, class)(
            #[trigger] list[k],
        ) == matching::of_class(m.side, class)(list[k]) by {
            assert(instance_placed(m.base, m.side, list[k] as int));
        }
        lemma_filter_same(
            list,
            matching::of_class(m.base, class),
            matching::of_class(m.side, class),
        );
    }
}

/// Under an instance and that of the same place the same children are left to be
/// matched.
proof fn lemma_placed_free(m: Matching, p: int)
    requires
        m.wf(),
        same_shape(m.base, m.side),
        ids_lead_home(m),
        0 <= p < m.base.len(),
    ensures
        m.free_base(p) == m.free_side(p),
{
    assert(instance_placed(m.base, m.side, p));
    let list = m.base[p].children;
    matching::lemma_children(m.base, p);
    assert forall|k: int| 0 <= k < list.len() implies (m.is_free_base())(#[trigger] list[k]) == (
    m.is_free_side())(list[k]) by {
        let c = list[k];
        lemma_placed_first(m, c as int);
        if m.first(c as int) is Some {
            assert(m.first(c as int) == Some(c as int as usize));
            assert(m.taken_first(c as int));
        } else if m.taken_first(c as int) {
            let i = choose|i: int|
                0 <= i < m.base.len() && #[trigger] m.first(i) == Some(c as int as usize);
            lemma_placed_first(m, i);
        }
    }
    lemma_filter_same(list, m.is_free_base(), m.is_free_side());
}

/// A file of the same shape is recognised instance by instance, if its unique ids do
/// not lead elsewhere.
pub proof fn law_same_shape_is_recognised(m: Matching, i: int)
    requires
        m.wf(),
        same_shape(m.base, m.side),
        ids_lead_home(m),
        0 <= i < m.base.len(),
    ensures
        m.partner(i) == Some(i as usize),
    decreases i,
{
    lemma_placed_first(m, i);
    if m.first(i) is None {
        matching::lemma_is_child(m.base, i);
        let p = m.base[i].parent->0 as int;
        law_same_shape_is_recognised(m, p);
        lemma_placed_free(m, p);
        let free = m.free_base(p);
        let c = i as usize;
        let class = m.base[i].class;
        let name = m.base[i].name;
        lists::lemma_filter_mem(m.base[p].children, m.is_free_base(), c);
        assert(free.contains(c));
        matching::lemma_free(m, p, p);
        assert forall|k: int| 0 <= k < free.len() implies matching::of_class_and_name(
            m.base,
            class,
            name,
        )(#[trigger] free[k]) == matching::of_class_and_name(m.side, class, name)(free[k]) by {
            assert(instance_placed(m.base, m.side, free[k] as int));
        }
        lemma_filter_same(
            free,
            matching::of_class_and_name(m.base, class, name),
            matching::of_class_and_name(m.side, class, name),
        );
        let own = matching::group_of(m.base, free, class, name);
        lists::lemma_filter_mem(free, matching::of_class_and_name(m.base, class, name), c);
        assert(own.contains(c));
        assert(own[own.index_of(c)] == c);
    }
}

/// A file that is a copy of the base is recognised instance by instance.
pub proof fn law_copy_is_recognised(m: Matching, i: int)
    requires
        m.wf(),
        is_copy(m.base, m.side),
        0 <= i < m.base.len(),
    ensures
        m.partner(i) == Some(i as usize),
{
    lemma_copy_shape(m);
    law_same_shape_is_recognised(m, i);
}

// ---------------------------------------------------------------------------
// Rows
// ---------------------------------------------------------------------------

/// The file of a side.
pub open spec fn file_of(ctx: Ctx, x: Side) -> DomModel {
    match x {
        Side::Base => ctx.base,
        Side::Ours => ctx.ours,
        Side::Theirs => ctx.theirs,
    }
}

/// The instance that a row has on a side.
pub open spec fn place(entry: MergeEntry, x: Side) -> Option<usize> {
    match x {
        Side::Base => entry.base,
        Side::Ours => entry.ours,
        Side::Theirs => entry.theirs,
    }
}

/// The rows of a side that has the shape of the base are those of the base.
pub proof fn lemma_placed_rows(ctx: Ctx, classes: Classes, x: Side, r: int)
    requires
        ctx.wf(),
        files::is_identity(ctx.base, ctx.ours, ctx.theirs, classes, ctx.rows),
        same_shape(ctx.base, file_of(ctx, x)),
        ids_lead_home(identity::matching_of(ctx.base, file_of(ctx, x), classes)),
        x != Side::Base,
        0 <= r < ctx.rows.entries.len(),
    ensures
        place(ctx.rows.entries[r], x) == ctx.rows.entries[r].base,
        r < ctx.base.len() ==> identity::row_of(
            ctx.rows,
            three_way::source_of_side(x),
            r as usize,
        ) == Some(r as usize),
{
    let a = identity::additions_of(ctx.base, ctx.ours, ctx.theirs, classes);
    let n = ctx.base.len() as int;
    identity::lemma_additions_wf(ctx.base, ctx.ours, ctx.theirs, classes);
    let m = identity::matching_of(ctx.base, file_of(ctx, x), classes);
    identity::lemma_row(a, r);
    if r < n {
        law_same_shape_is_recognised(m, r);
        assert(place(ctx.rows.entries[r], x) == Some(r as usize));
    } else {
        assert(ctx.rows.entries[r].base is None);
        if place(ctx.rows.entries[r], x) is Some {
            let j = place(ctx.rows.entries[r], x)->0 as int;
            identity::lemma_row(a, j);
            law_same_shape_is_recognised(m, j);
            assert(place(ctx.rows.entries[j], x) == Some(j as usize));
        }
    }
}

/// Whether instances of the same place of two sides have the same rows.
pub open spec fn same_rows(ctx: Ctx, y: Side, x: Side) -> bool {
    forall|i: usize|
        identity::row_of(ctx.rows, three_way::source_of_side(y), i) == #[trigger] identity::row_of(
            ctx.rows,
            three_way::source_of_side(x),
            i,
        )
}

/// A copied value is the same value.
proof fn lemma_copied_value(ctx: Ctx, y: Side, x: Side, v: ValueModel, u: ValueModel)
    requires
        ctx.wf(),
        same_rows(ctx, y, x),
        value_copied(file_of(ctx, y), file_of(ctx, x), v, u),
    ensures
        ctx.value_equal(v, three_way::source_of_side(y), u, three_way::source_of_side(x)),
        ctx.value_equal(u, three_way::source_of_side(x), v, three_way::source_of_side(y)),
    decreases v,
{
    let (b, d) = (file_of(ctx, y), file_of(ctx, x));
    let (s, t) = (three_way::source_of_side(y), three_way::source_of_side(x));
    assert(ctx.file(s) == Some(b));
    assert(ctx.file(t) == Some(d));
    match (v, u) {
        (ValueModel::Ref(p), ValueModel::Ref(q)) => {
            if p != 0 && q != 0 && semantic::node_of_ref(b, p) is Some {
                semantic::lemma_node_of_ref_some(b, p);
            }
        },
        (ValueModel::Object(p), ValueModel::Object(q)) => {
            if p != 0 && q != 0 && semantic::node_of_ref(b, p) is Some {
                semantic::lemma_node_of_ref_some(b, p);
            }
        },
        (ValueModel::Attributes(p), ValueModel::Attributes(q)) => {
            assert forall|i: int| 0 <= i < p.len() implies (#[trigger] p[i]).0 == q[i].0
                && ctx.value_equal(p[i].1, s, q[i].1, t) by {
                lemma_copied_value(ctx, y, x, p[i].1, q[i].1);
            }
            assert forall|i: int| 0 <= i < q.len() implies (#[trigger] q[i]).0 == p[i].0
                && ctx.value_equal(q[i].1, t, p[i].1, s) by {
                assert(p[i].0 == q[i].0);
                lemma_copied_value(ctx, y, x, p[i].1, q[i].1);
            }
        },
        _ => {},
    }
}

/// Sides of the shape of the base have its rows.
pub proof fn lemma_placed_same_rows(ctx: Ctx, classes: Classes, x: Side)
    requires
        ctx.wf(),
        files::is_identity(ctx.base, ctx.ours, ctx.theirs, classes, ctx.rows),
        same_shape(ctx.base, file_of(ctx, x)),
        ids_lead_home(identity::matching_of(ctx.base, file_of(ctx, x), classes)),
        x != Side::Base,
    ensures
        same_rows(ctx, Side::Base, x),
{
    assert forall|i: usize|
        identity::row_of(ctx.rows, ValueSource::Base, i) == #[trigger] identity::row_of(
            ctx.rows,
            three_way::source_of_side(x),
            i,
        ) by {
        if i < ctx.base.len() {
            lemma_placed_rows(ctx, classes, x, i as int);
        }
    }
}

/// A copied property is the same property.
pub proof fn lemma_copied_property(ctx: Ctx, y: Side, x: Side, i: int, key: Text)
    requires
        ctx.wf(),
        same_rows(ctx, y, x),
        property_copied(file_of(ctx, y), file_of(ctx, x), i, key),
    ensures
        agreement::same_value(
            ctx,
            keyed::lookup(file_of(ctx, x)[i].properties, key),
            x,
            keyed::lookup(file_of(ctx, y)[i].properties, key),
            y,
        ),
{
    let (a, b) = (file_of(ctx, x)[i], file_of(ctx, y)[i]);
    if let (Some(v), Some(u)) = (
        keyed::lookup(b.properties, key),
        keyed::lookup(a.properties, key),
    ) {
        lemma_copied_value(ctx, y, x, v, u);
    }
}

/// An instance is like its copy, whatever their unique ids.
pub proof fn lemma_copied_alike(ctx: Ctx, y: Side, x: Side, i: int)
    requires
        ctx.wf(),
        same_rows(ctx, y, x),
        instance_placed(file_of(ctx, y), file_of(ctx, x), i),
        forall|key: Text|
            key != dom::unique_id_key() ==> #[trigger] property_copied(
                file_of(ctx, y),
                file_of(ctx, x),
                i,
                key,
            ),
    ensures
        agreement::alike(ctx, file_of(ctx, x)[i], x, file_of(ctx, y)[i], y),
{
    let (a, b) = (file_of(ctx, x)[i], file_of(ctx, y)[i]);
    let (s, t) = (three_way::source_of_side(y), three_way::source_of_side(x));
    assert forall|key: Text| key != dom::unique_id_key() implies agreement::same_value(
        ctx,
        #[trigger] keyed::lookup(a.properties, key),
        x,
        keyed::lookup(b.properties, key),
        y,
    ) by {
        assert(property_copied(file_of(ctx, y), file_of(ctx, x), i, key));
        lemma_copied_property(ctx, y, x, i, key);
    }
    assert(rows::child_rows(ctx, a, t) =~= rows::child_rows(ctx, b, s));
}

/// A side that is a copy of the base is unchanged.
pub proof fn law_copy_is_unchanged(ctx: Ctx, classes: Classes, x: Side)
    requires
        ctx.wf(),
        files::is_identity(ctx.base, ctx.ours, ctx.theirs, classes, ctx.rows),
        is_copy(ctx.base, file_of(ctx, x)),
        x != Side::Base,
    ensures
        agreement_laws::unchanged(ctx, x),
{
    lemma_copy_shape(identity::matching_of(ctx.base, file_of(ctx, x), classes));
    lemma_placed_same_rows(ctx, classes, x);
    assert forall|r: int| 0 <= r < ctx.rows.entries.len() implies ({
        let nodes = ctx.nodes(#[trigger] ctx.rows.entries[r]);
        match (nodes.of(x), nodes.base) {
            (Some(a), Some(b)) => agreement::alike(ctx, a, x, b, Side::Base)
                && agreement::same_value(
                ctx,
                keyed::lookup(a.properties, dom::unique_id_key()),
                x,
                keyed::lookup(b.properties, dom::unique_id_key()),
                Side::Base,
            ),
            (None, None) => true,
            _ => false,
        }
    }) by {
        lemma_placed_rows(ctx, classes, x, r);
        if r < ctx.base.len() {
            assert(instance_copied(ctx.base, file_of(ctx, x), r));
            lemma_copied_alike(ctx, Side::Base, x, r);
            assert(property_copied(ctx.base, file_of(ctx, x), r, dom::unique_id_key()));
            lemma_copied_property(ctx, Side::Base, x, r, dom::unique_id_key());
        }
    }
}

/// Merging a file with an unchanged copy of the base gives that file: if theirs is a
/// copy of the base the merge has no conflicts and is ours, and the other way round.
pub proof fn law_unchanged_side_gives_the_other(ctx: Ctx, classes: Classes, g: GraphModel)
    requires
        ctx.wf(),
        files::is_identity(ctx.base, ctx.ours, ctx.theirs, classes, ctx.rows),
        merging::is_merged_graph(ctx, g),
    ensures
        is_copy(ctx.base, ctx.theirs) && agreement_laws::regular(ctx, Side::Ours)
            ==> agreement_laws::takes_side(ctx, g, Side::Ours),
        is_copy(ctx.base, ctx.ours) && agreement_laws::regular(ctx, Side::Theirs)
            ==> agreement_laws::takes_side(ctx, g, Side::Theirs),
{
    if is_copy(ctx.base, ctx.theirs) && agreement_laws::regular(ctx, Side::Ours) {
        law_copy_is_unchanged(ctx, classes, Side::Theirs);
        agreement_laws::law_change_of_ours_is_taken(ctx, g);
    }
    if is_copy(ctx.base, ctx.ours) && agreement_laws::regular(ctx, Side::Theirs) {
        law_copy_is_unchanged(ctx, classes, Side::Ours);
        agreement_laws::law_change_of_theirs_is_taken(ctx, g);
    }
}

} // verus!
