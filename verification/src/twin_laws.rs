//! The same edits on both sides: two sides that are copies of each other have the same
//! rows, so that the merge is either of them.

use vstd::prelude::*;

use crate::additions;
use crate::additions::Additions;
use crate::agreement;
use crate::agreement_laws;
use crate::context;
use crate::context::Ctx;
use crate::copy_laws;
use crate::dom;
use crate::files;
use crate::graph::GraphModel;
use crate::identity;
use crate::keyed;
use crate::lists;
use crate::matching;
use crate::matching::{Classes, Matching};
use crate::merging;
use crate::resolve::Side;
use crate::semantic;
use crate::semantic::{DomModel, ValueSource};
use crate::text::Text;

verus! {

/// Whether the instances of the base are as similar to those of one side as to those
/// of the other. Referents of different files are never the same, so that copies are.
pub open spec fn equally_similar(base: DomModel, x: DomModel, y: DomModel) -> bool {
    forall|i: int, j: int|
        0 <= i < base.len() && 0 <= j < x.len() ==> #[trigger] matching::similar(base[i], x[j])
            == matching::similar(base[i], y[j])
}

/// No two instances of a file have the same unique id.
pub open spec fn distinct_ids(d: DomModel) -> bool {
    forall|i: int, j: int|
        0 <= i < d.len() && 0 <= j < d.len() && semantic::node_unique_id(#[trigger] d[i]) is Some
            && semantic::node_unique_id(d[i]) == semantic::node_unique_id(#[trigger] d[j]) ==> i
            == j
}

/// Whether two matchings of a base are those with a side and with a copy of it.
spec fn twins(m: Matching, n: Matching) -> bool {
    &&& m.wf()
    &&& n.wf()
    &&& m.base == n.base
    &&& m.classes == n.classes
    &&& copy_laws::is_copy(m.side, n.side)
    &&& equally_similar(m.base, m.side, n.side)
}

proof fn lemma_sole_holder(m: Matching, n: Matching, id: u128)
    requires
        twins(m, n),
    ensures
        matching::sole_holder(m.side, matching::all_of(m.side), id) == matching::sole_holder(
            n.side,
            matching::all_of(n.side),
            id,
        ),
{
    let (a, b) = (matching::all_of(m.side), matching::all_of(n.side));
    assert(a =~= b);
    assert forall|i: int| #[trigger]
        matching::holds_id(m.side, a, i, id) == matching::holds_id(n.side, b, i, id) by {
        if 0 <= i < m.side.len() {
            assert(copy_laws::instance_copied(m.side, n.side, i));
        }
    }
    if matching::sole_holder(m.side, a, id) is Some {
        let i = choose|i: int| matching::is_sole(m.side, a, i, id);
        assert(matching::is_sole(n.side, b, i, id)) by {
            assert(matching::holds_id(m.side, a, i, id));
            assert forall|j: int| #[trigger] matching::holds_id(n.side, b, j, id) implies j == i by {
                assert(matching::holds_id(m.side, a, j, id));
            }
        }
        matching::lemma_sole(m.side, a, i, id);
        matching::lemma_sole(n.side, b, i, id);
    } else if matching::sole_holder(n.side, b, id) is Some {
        let i = choose|i: int| matching::is_sole(n.side, b, i, id);
        assert(matching::is_sole(m.side, a, i, id)) by {
            assert(matching::holds_id(n.side, b, i, id));
            assert(matching::holds_id(m.side, a, i, id));
            assert forall|j: int| #[trigger] matching::holds_id(m.side, a, j, id) implies j == i by {
                assert(matching::holds_id(n.side, b, j, id));
            }
        }
    }
}

proof fn lemma_by_id(m: Matching, n: Matching, i: int)
    requires
        twins(m, n),
    ensures
        m.by_id(i) == n.by_id(i),
{
    if i > 0 && semantic::node_unique_id(m.base[i]) is Some {
        lemma_sole_holder(m, n, semantic::node_unique_id(m.base[i])->0);
    }
}

proof fn lemma_taken_by_id(m: Matching, n: Matching, j: int)
    requires
        twins(m, n),
    ensures
        m.taken_by_id(j) == n.taken_by_id(j),
{
    if m.taken_by_id(j) {
        let i = choose|i: int|
            0 <= i < m.base.len() && #[trigger] m.by_id(i) == Some(j as usize);
        lemma_by_id(m, n, i);
        assert(n.by_id(i) == Some(j as usize));
    }
    if n.taken_by_id(j) {
        let i = choose|i: int|
            0 <= i < n.base.len() && #[trigger] n.by_id(i) == Some(j as usize);
        lemma_by_id(m, n, i);
        assert(m.by_id(i) == Some(j as usize));
    }
}

proof fn lemma_first(m: Matching, n: Matching, i: int)
    requires
        twins(m, n),
    ensures
        m.first(i) == n.first(i),
{
    lemma_by_id(m, n, i);
    let class = m.base[i].class;
    assert(copy_laws::instance_copied(m.side, n.side, 0));
    let list = m.side[0].children;
    matching::lemma_children(m.side, 0);
    assert forall|k: int| 0 <= k < list.len() implies matching::of_class(m.side, class)(
        #[trigger] list[k],
    ) == matching::of_class(n.side, class)(list[k]) by {
        assert(copy_laws::instance_copied(m.side, n.side, list[k] as int));
    }
    copy_laws::lemma_filter_same(
        list,
        matching::of_class(m.side, class),
        matching::of_class(n.side, class),
    );
    let other = Matching::top_level(m.side, class);
    if other.len() > 0 {
        lemma_taken_by_id(m, n, other[0] as int);
    }
}

proof fn lemma_taken_first(m: Matching, n: Matching, j: int)
    requires
        twins(m, n),
    ensures
        m.taken_first(j) == n.taken_first(j),
{
    if m.taken_first(j) {
        let i = choose|i: int|
            0 <= i < m.base.len() && #[trigger] m.first(i) == Some(j as usize);
        lemma_first(m, n, i);
        assert(n.first(i) == Some(j as usize));
    }
    if n.taken_first(j) {
        let i = choose|i: int|
            0 <= i < n.base.len() && #[trigger] n.first(i) == Some(j as usize);
        lemma_first(m, n, i);
        assert(m.first(i) == Some(j as usize));
    }
}

proof fn lemma_free(m: Matching, n: Matching, p: int, q: int)
    requires
        twins(m, n),
        0 <= q < m.side.len(),
    ensures
        m.free_base(p) == n.free_base(p),
        m.free_side(q) == n.free_side(q),
{
    let own = m.base[p].children;
    assert forall|k: int| 0 <= k < own.len() implies (m.is_free_base())(#[trigger] own[k]) == (
    n.is_free_base())(own[k]) by {
        lemma_first(m, n, own[k] as int);
    }
    copy_laws::lemma_filter_same(own, m.is_free_base(), n.is_free_base());
    assert(copy_laws::instance_copied(m.side, n.side, q));
    let other = m.side[q].children;
    assert forall|k: int| 0 <= k < other.len() implies (m.is_free_side())(#[trigger] other[k]) == (
    n.is_free_side())(other[k]) by {
        lemma_taken_first(m, n, other[k] as int);
    }
    copy_laws::lemma_filter_same(other, m.is_free_side(), n.is_free_side());
}

/// Groups of a side and of its copy are the same.
proof fn lemma_group(x: DomModel, y: DomModel, list: Seq<usize>, class: Text, name: Text)
    requires
        copy_laws::is_copy(x, y),
        forall|k: int| 0 <= k < list.len() ==> (#[trigger] list[k]) < x.len(),
    ensures
        matching::group_of(x, list, class, name) == matching::group_of(y, list, class, name),
{
    assert forall|k: int| 0 <= k < list.len() implies matching::of_class_and_name(x, class, name)(
        #[trigger] list[k],
    ) == matching::of_class_and_name(y, class, name)(list[k]) by {
        assert(copy_laws::instance_copied(x, y, list[k] as int));
    }
    copy_laws::lemma_filter_same(
        list,
        matching::of_class_and_name(x, class, name),
        matching::of_class_and_name(y, class, name),
    );
}

proof fn lemma_by_rename(
    m: Matching,
    n: Matching,
    free_base: Seq<usize>,
    free_side: Seq<usize>,
    c: usize,
)
    requires
        twins(m, n),
        c < m.base.len(),
        forall|k: int| 0 <= k < free_base.len() ==> (#[trigger] free_base[k]) < m.base.len(),
        forall|k: int| 0 <= k < free_side.len() ==> (#[trigger] free_side[k]) < m.side.len(),
    ensures
        matching::by_rename(m.base, m.side, free_base, free_side, c) == matching::by_rename(
            n.base,
            n.side,
            free_base,
            free_side,
            c,
        ),
{
    let b = m.base;
    let class = b[c as int].class;
    let (p, q) = (
        matching::left_over(b, m.side, free_base, free_side),
        matching::left_over(b, n.side, free_base, free_side),
    );
    assert forall|k: int| 0 <= k < free_base.len() implies p(#[trigger] free_base[k]) == q(
        free_base[k],
    ) by {
        let d = b[free_base[k] as int];
        lemma_group(m.side, n.side, free_side, d.class, d.name);
    }
    copy_laws::lemma_filter_same(free_base, p, q);
    let (r, s) = (
        matching::left_over(m.side, b, free_side, free_base),
        matching::left_over(n.side, b, free_side, free_base),
    );
    assert forall|k: int| 0 <= k < free_side.len() implies r(#[trigger] free_side[k]) == s(
        free_side[k],
    ) by {
        assert(copy_laws::instance_copied(m.side, n.side, free_side[k] as int));
        let d = m.side[free_side[k] as int];
        lemma_group(m.side, n.side, free_side, d.class, d.name);
    }
    copy_laws::lemma_filter_same(free_side, r, s);
    let left = free_side.filter(r);
    assert forall|k: int| 0 <= k < left.len() implies matching::of_class(m.side, class)(
        #[trigger] left[k],
    ) == matching::of_class(n.side, class)(left[k]) by {
        assert(left.contains(left[k]));
        lists::lemma_filter_mem(free_side, r, left[k]);
        assert(free_side[free_side.index_of(left[k])] == left[k]);
        assert(copy_laws::instance_copied(m.side, n.side, left[k] as int));
    }
    copy_laws::lemma_filter_same(
        left,
        matching::of_class(m.side, class),
        matching::of_class(n.side, class),
    );
    let other = left.filter(matching::of_class(m.side, class));
    if other.len() == 1 {
        assert(other.contains(other[0]));
        lists::lemma_filter_mem(left, matching::of_class(m.side, class), other[0]);
        lists::lemma_filter_mem(free_side, r, other[0]);
        assert(free_side[free_side.index_of(other[0])] == other[0]);
        assert(matching::similar(b[c as int], m.side[other[0] as int]) == matching::similar(
            b[c as int],
            n.side[other[0] as int],
        ));
    }
}

/// An instance of the base is matched with the same place in both.
proof fn lemma_partner(m: Matching, n: Matching, i: int)
    requires
        twins(m, n),
        0 <= i < m.base.len(),
    ensures
        m.partner(i) == n.partner(i),
    decreases i,
{
    lemma_first(m, n, i);
    if m.first(i) is None && i > 0 {
        matching::lemma_is_child(m.base, i);
        let p = m.base[i].parent->0 as int;
        lemma_partner(m, n, p);
        if let Some(q) = m.partner(p) {
            matching::lemma_partner(m, p);
            lemma_free(m, n, p, q as int);
            matching::lemma_free(m, p, q as int);
            let (free_base, free_side) = (m.free_base(p), m.free_side(q as int));
            lemma_group(
                m.side,
                n.side,
                free_side,
                m.base[i].class,
                m.base[i].name,
            );
            lemma_by_rename(m, n, free_base, free_side, i as usize);
        }
    }
}

// ---------------------------------------------------------------------------
// Additions
// ---------------------------------------------------------------------------

/// Additions that have no unique id and the same parent can be told apart by class
/// and name.
pub open spec fn additions_apart(d: DomModel, new: Seq<bool>) -> bool {
    forall|i: int, j: int|
        0 <= i < d.len() && 0 <= j < d.len() && new[i] && new[j] && semantic::node_unique_id(
            #[trigger] d[i],
        ) is None && semantic::node_unique_id(#[trigger] d[j]) is None && d[i].parent
            == d[j].parent && d[i].class == d[j].class && d[i].name == d[j].name ==> i == j
}

/// Whether theirs is a copy of ours, with the same matches of the base.
spec fn twin_additions(a: Additions) -> bool {
    &&& a.wf()
    &&& copy_laws::is_copy(a.ours, a.theirs)
    &&& a.base_to_ours == a.base_to_theirs
    &&& distinct_ids(a.ours)
    &&& additions_apart(a.ours, a.new_ours())
}

/// An addition that has a unique id is recognised by it, and by nothing else.
proof fn lemma_added_by_id(a: Additions, t: int)
    requires
        twin_additions(a),
        0 <= t < a.theirs.len(),
        a.new_theirs()[t],
    ensures
        a.by_id(t) == (if semantic::node_unique_id(a.ours[t]) is Some {
            Some(t as usize)
        } else {
            None
        }),
{
    assert(copy_laws::instance_copied(a.ours, a.theirs, t));
    if let Some(id) = semantic::node_unique_id(a.ours[t]) {
        assert forall|j: int| #[trigger] matching::holds_id(a.theirs, a.new_theirs(), j, id) implies j
            == t by {
            assert(copy_laws::instance_copied(a.ours, a.theirs, j));
            assert(semantic::node_unique_id(a.ours[j]) == semantic::node_unique_id(a.ours[t]));
        }
        assert(matching::is_sole(a.theirs, a.new_theirs(), t, id));
        assert forall|j: int| #[trigger] matching::holds_id(a.ours, a.new_ours(), j, id) implies j
            == t by {
            assert(semantic::node_unique_id(a.ours[j]) == semantic::node_unique_id(a.ours[t]));
        }
        assert(matching::is_sole(a.ours, a.new_ours(), t, id));
        matching::lemma_sole(a.ours, a.new_ours(), t, id);
    }
}

/// What has a unique id is taken.
proof fn lemma_added_taken(a: Additions, o: int)
    requires
        twin_additions(a),
        0 <= o < a.ours.len(),
        a.new_ours()[o],
    ensures
        a.taken_by_id(o) <==> semantic::node_unique_id(a.ours[o]) is Some,
{
    lemma_added_by_id(a, o);
    if semantic::node_unique_id(a.ours[o]) is Some {
        assert(a.by_id(o) == Some(o as usize));
    } else if a.taken_by_id(o) {
        let t = choose|t: int|
            0 <= t < a.theirs.len() && #[trigger] a.by_id(t) == Some(o as usize);
        let id = semantic::node_unique_id(a.theirs[t])->0;
        assert(matching::is_sole(a.theirs, a.new_theirs(), t, id));
        assert(matching::holds_id(a.theirs, a.new_theirs(), t, id));
        lemma_added_by_id(a, t);
    }
}

/// A filtered list that holds one place only.
proof fn lemma_filter_one(list: Seq<usize>, pred: spec_fn(usize) -> bool, x: usize)
    requires
        lists::increasing(list),
        list.contains(x),
        pred(x),
        forall|i: int| 0 <= i < list.len() && pred(#[trigger] list[i]) ==> list[i] == x,
    ensures
        list.filter(pred) == seq![x],
{
    let kept = list.filter(pred);
    lists::lemma_filter_increasing(list, pred);
    lists::lemma_filter_mem(list, pred, x);
    assert forall|i: int| 0 <= i < kept.len() implies #[trigger] kept[i] == x by {
        assert(kept.contains(kept[i]));
        lists::lemma_filter_mem(list, pred, kept[i]);
        assert(list[list.index_of(kept[i])] == kept[i]);
    }
    if kept.len() > 1 {
        assert(kept[0] < kept[1]);
    }
    assert(kept[kept.index_of(x)] == x);
    assert(kept =~= seq![x]);
}

/// An addition that has no unique id is its own only candidate, and the only rival.
proof fn lemma_only_candidate(a: Additions, t: int)
    requires
        twin_additions(a),
        0 < t < a.theirs.len(),
        a.new_theirs()[t],
        semantic::node_unique_id(a.ours[t]) is None,
    ensures
        a.theirs[t].parent is Some,
        a.candidates(a.theirs[t].parent->0 as int, t as usize) == seq![t as usize],
        a.rivals(a.theirs[t].parent->0 as int, t as usize) == seq![t as usize],
{
    let x = t as usize;
    matching::lemma_is_child(a.theirs, t);
    let p = a.theirs[t].parent->0 as int;
    assert(copy_laws::instance_copied(a.ours, a.theirs, p));
    assert(copy_laws::instance_copied(a.ours, a.theirs, t));
    let list = a.ours[p].children;
    matching::lemma_children(a.ours, p);
    lemma_added_taken(a, t);
    lemma_added_by_id(a, t);
    assert(a.alike(x, x));
    assert((a.may_be_ours(x))(x));
    assert((a.may_be_theirs(x))(x));
    assert forall|i: int| 0 <= i < list.len() && (a.may_be_ours(x))(#[trigger] list[i]) implies list[i]
        == x by {
        let o = list[i] as int;
        lemma_added_taken(a, o);
        assert(a.ours[o].class == a.ours[t].class);
    }
    lemma_filter_one(list, a.may_be_ours(x), x);
    assert forall|i: int|
        0 <= i < list.len() && (a.may_be_theirs(x))(#[trigger] list[i]) implies list[i] == x by {
        let u = list[i] as int;
        lemma_added_by_id(a, u);
        assert(copy_laws::instance_copied(a.ours, a.theirs, u));
        assert(a.ours[u].class == a.ours[t].class);
    }
    lemma_filter_one(list, a.may_be_theirs(x), x);
}

/// Each addition of theirs is the addition of ours of the same place.
proof fn lemma_added_twin(a: Additions, t: int)
    requires
        twin_additions(a),
        0 <= t < a.theirs.len(),
        a.new_theirs()[t],
    ensures
        a.partner(t) == Some(t as usize),
    decreases t,
{
    reveal(Additions::partner);
    lemma_added_by_id(a, t);
    if t == 0 {
        assert(a.base_to_theirs[0] == Some(0int as usize));
    } else if semantic::node_unique_id(a.ours[t]) is None {
        matching::lemma_is_child(a.theirs, t);
        let p = a.theirs[t].parent->0 as int;
        if a.new_theirs()[p] {
            lemma_added_twin(a, p);
        } else {
            additions::lemma_is_target(a.base_to_theirs, p);
        }
        assert(a.parent_in_ours(t) == Some(p as usize));
        lemma_only_candidate(a, t);
    }
}

proof fn lemma_none_marked(flags: Seq<bool>, n: int)
    requires
        forall|i: int| 0 <= i < n ==> !(#[trigger] flags[i]),
    ensures
        identity::marked(flags, n).len() == 0,
    decreases n,
{
    if n > 0 {
        lemma_none_marked(flags, n - 1);
    }
}

/// Every row has the same place in ours and theirs.
proof fn lemma_twin_row(a: Additions, r: int)
    requires
        twin_additions(a),
        0 <= r < identity::identity_rows(a).len(),
    ensures
        identity::identity_rows(a)[r].ours == identity::identity_rows(a)[r].theirs,
{
    identity::lemma_row(a, r);
    let n = a.base_to_ours.len() as int;
    let mo = identity::marked(a.new_ours(), a.ours.len() as int);
    assert forall|t: int| 0 <= t < a.theirs.len() implies !(#[trigger] identity::lone_theirs(
        a,
    )[t]) by {
        if a.new_theirs()[t] {
            lemma_added_twin(a, t);
        }
    }
    lemma_none_marked(identity::lone_theirs(a), a.theirs.len() as int);
    if r >= n {
        identity::lemma_marked(a.new_ours(), a.ours.len() as int);
        let o = mo[r - n] as int;
        assert(a.new_ours()[o]);
        assert(a.new_theirs()[o]);
        lemma_added_twin(a, o);
        let t = choose|t: int|
            0 <= t < a.theirs.len() && a.new_theirs()[t] && #[trigger] a.partner(t) == Some(
                o as usize,
            );
        lemma_added_twin(a, t);
    }
}

// ---------------------------------------------------------------------------
// The merge
// ---------------------------------------------------------------------------

/// Whether both sides are what the same edits made of the base: theirs is a copy of
/// ours, and what was added can be told apart.
pub open spec fn same_edits(ctx: Ctx, classes: Classes) -> bool {
    let a = identity::additions_of(ctx.base, ctx.ours, ctx.theirs, classes);
    &&& copy_laws::is_copy(ctx.ours, ctx.theirs)
    &&& equally_similar(ctx.base, ctx.ours, ctx.theirs)
    &&& distinct_ids(ctx.ours)
    &&& additions_apart(ctx.ours, a.new_ours())
}

/// Sides that the same edits made agree: every instance of the one is recognised as
/// the instance of the same place of the other.
pub proof fn law_same_edits_agree(ctx: Ctx, classes: Classes)
    requires
        ctx.wf(),
        files::is_identity(ctx.base, ctx.ours, ctx.theirs, classes, ctx.rows),
        same_edits(ctx, classes),
    ensures
        agreement::agree(ctx, Side::Ours, Side::Theirs),
{
    let a = identity::additions_of(ctx.base, ctx.ours, ctx.theirs, classes);
    identity::lemma_additions_wf(ctx.base, ctx.ours, ctx.theirs, classes);
    let (m, n) = (
        identity::matching_of(ctx.base, ctx.ours, classes),
        identity::matching_of(ctx.base, ctx.theirs, classes),
    );
    assert forall|i: int| 0 <= i < ctx.base.len() implies #[trigger] a.base_to_ours[i]
        == a.base_to_theirs[i] by {
        lemma_partner(m, n, i);
    }
    assert(a.base_to_ours =~= a.base_to_theirs);
    assert(twin_additions(a));
    assert forall|r: int| 0 <= r < ctx.rows.entries.len() implies (
    #[trigger] ctx.rows.entries[r]).ours == ctx.rows.entries[r].theirs by {
        lemma_twin_row(a, r);
    }
    assert(copy_laws::same_rows(ctx, Side::Ours, Side::Theirs)) by {
        assert forall|i: usize|
            identity::row_of(ctx.rows, ValueSource::Ours, i) == #[trigger] identity::row_of(
                ctx.rows,
                ValueSource::Theirs,
                i,
            ) by {
            if i < ctx.ours.len() {
                let r = ctx.rows.ours_rows[i as int] as int;
                assert(ctx.rows.entries[r].ours == Some(i));
                assert(ctx.rows.entries[r].theirs == Some(i));
            }
        }
    }
    assert forall|r: int| 0 <= r < ctx.rows.entries.len() implies ({
        let nodes = ctx.nodes(#[trigger] ctx.rows.entries[r]);
        match (nodes.ours, nodes.theirs) {
            (Some(x), Some(y)) => agreement::alike(ctx, x, Side::Ours, y, Side::Theirs),
            (None, None) => true,
            _ => false,
        }
    }) by {
        context::lemma_entry_wf(ctx, r);
        if let Some(i) = ctx.rows.entries[r].ours {
            assert(copy_laws::instance_copied(ctx.ours, ctx.theirs, i as int));
            copy_laws::lemma_copied_alike(ctx, Side::Ours, Side::Theirs, i as int);
            let (x, y) = (ctx.ours[i as int], ctx.theirs[i as int]);
            assert forall|key: Text|
                key != dom::unique_id_key() implies agreement::same_value(
                    ctx,
                    #[trigger] keyed::lookup(x.properties, key),
                    Side::Ours,
                    keyed::lookup(y.properties, key),
                    Side::Theirs,
                ) by {
                assert(agreement::same_value(
                    ctx,
                    keyed::lookup(y.properties, key),
                    Side::Theirs,
                    keyed::lookup(x.properties, key),
                    Side::Ours,
                ));
            }
        }
    }
}

/// Merging the same edits gives them once: there are no conflicts, and the merge is
/// either side.
pub proof fn law_same_edits_merge_to_either(ctx: Ctx, classes: Classes, g: GraphModel)
    requires
        ctx.wf(),
        files::is_identity(ctx.base, ctx.ours, ctx.theirs, classes, ctx.rows),
        merging::is_merged_graph(ctx, g),
        same_edits(ctx, classes),
        agreement_laws::regular(ctx, Side::Ours),
    ensures
        agreement_laws::takes_side(ctx, g, Side::Ours),
{
    law_same_edits_agree(ctx, classes);
    agreement_laws::law_same_changes_are_taken(ctx, g);
}

} // verus!
