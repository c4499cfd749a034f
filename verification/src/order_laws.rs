//! The order of children: that of the side that changed it, that of neither where both did
//! in contrary ways, and ours before theirs where both added at one place.

use vstd::prelude::*;

use crate::child_order;
use crate::conflict::{ConflictKind, ConflictModel};
use crate::context;
use crate::context::Ctx;
use crate::edit_laws;
use crate::graph::GraphModel;
use crate::identity;
use crate::lists;
use crate::matching;
use crate::resolve::Side;
use crate::semantic::{InstanceModel, ValueSource};
use crate::text;
use crate::text::Text;
use crate::three_way::Sides;

verus! {

/// Whether a row stands before another in a list.
pub open spec fn is_before(list: Seq<usize>, x: usize, y: usize) -> bool {
    exists|i: int, j: int|
        0 <= i < j < list.len() && #[trigger] list[i] == x && #[trigger] list[j] == y
}

/// Whether an instance of a file has a child of row `x` before one of row `y`.
pub open spec fn leads(ctx: Ctx, s: ValueSource, node: InstanceModel, x: usize, y: usize) -> bool {
    exists|i: int, j: int|
        0 <= i < j < node.children.len() && identity::row_of(
            ctx.rows,
            s,
            #[trigger] node.children[i],
        ) == Some(x) && identity::row_of(ctx.rows, s, #[trigger] node.children[j]) == Some(y)
}

/// Whether an instance of a file has a child of a row.
pub open spec fn has_child(ctx: Ctx, s: ValueSource, node: InstanceModel, x: usize) -> bool {
    exists|i: int|
        0 <= i < node.children.len() && identity::row_of(ctx.rows, s, #[trigger] node.children[i])
            == Some(x)
}

/// Whether two instances of two files have children of the same rows, in the same order.
pub open spec fn same_children(
    ctx: Ctx,
    s: ValueSource,
    a: InstanceModel,
    t: ValueSource,
    b: InstanceModel,
) -> bool {
    &&& a.children.len() == b.children.len()
    &&& forall|i: int|
        0 <= i < a.children.len() ==> identity::row_of(ctx.rows, s, #[trigger] a.children[i])
            == identity::row_of(ctx.rows, t, b.children[i])
}

/// Whether a row of the graph is a child of another.
pub open spec fn is_child(g: GraphModel, r: int, x: usize) -> bool {
    x < g.len() && g[x as int] is Some && g[x as int]->0.parent == Some(r as usize)
}

/// Whether a list of children has the order of an instance of a file: two children stand as
/// they do there.
pub open spec fn follows(
    ctx: Ctx,
    g: GraphModel,
    r: int,
    list: Seq<usize>,
    s: ValueSource,
    node: InstanceModel,
) -> bool {
    forall|x: usize, y: usize|
        is_child(g, r, x) && is_child(g, r, y) && #[trigger] leads(ctx, s, node, x, y)
            ==> is_before(list, x, y)
}

/// Whether two instances of two files have contrary orders of two children of a row.
pub open spec fn contradict(
    ctx: Ctx,
    g: GraphModel,
    r: int,
    s: ValueSource,
    a: InstanceModel,
    t: ValueSource,
    b: InstanceModel,
) -> bool {
    exists|x: usize, y: usize|
        is_child(g, r, x) && is_child(g, r, y) && #[trigger] leads(ctx, s, a, x, y) && leads(
            ctx,
            t,
            b,
            y,
            x,
        )
}

/// Whether one of two instances of two files has a child of a row that the other has not.
pub open spec fn is_uneven(
    ctx: Ctx,
    g: GraphModel,
    r: int,
    s: ValueSource,
    a: InstanceModel,
    t: ValueSource,
    b: InstanceModel,
) -> bool {
    exists|x: usize| #[trigger]
        is_child(g, r, x) && has_child(ctx, s, a, x) != has_child(ctx, t, b, x)
}

proof fn lemma_row_listed(
    ctx: Ctx,
    g: GraphModel,
    s: ValueSource,
    children: Seq<usize>,
    r: int,
    i: int,
    x: usize,
)
    requires
        0 <= i < children.len(),
        identity::row_of(ctx.rows, s, children[i]) == Some(x),
        is_child(g, r, x),
    ensures
        child_order::child_rows(ctx, g, s, children, r as usize).contains(x),
    decreases children.len(),
{
    let front = children.drop_last();
    let a = child_order::child_rows(ctx, g, s, front, r as usize);
    let b = child_order::child_rows(ctx, g, s, children, r as usize);
    if i == children.len() - 1 {
        assert(b == a.push(x));
        assert(b[a.len() as int] == x);
    } else {
        lemma_row_listed(ctx, g, s, front, r, i, x);
        let k = a.index_of(x);
        assert(b[k] == x);
    }
}

proof fn lemma_rows_listed(
    ctx: Ctx,
    g: GraphModel,
    s: ValueSource,
    children: Seq<usize>,
    r: int,
    i: int,
    j: int,
    x: usize,
    y: usize,
)
    requires
        0 <= i < j < children.len(),
        identity::row_of(ctx.rows, s, children[i]) == Some(x),
        identity::row_of(ctx.rows, s, children[j]) == Some(y),
        is_child(g, r, x),
        is_child(g, r, y),
    ensures
        is_before(child_order::child_rows(ctx, g, s, children, r as usize), x, y),
    decreases children.len(),
{
    let front = children.drop_last();
    let a = child_order::child_rows(ctx, g, s, front, r as usize);
    let b = child_order::child_rows(ctx, g, s, children, r as usize);
    if j == children.len() - 1 {
        lemma_row_listed(ctx, g, s, front, r, i, x);
        let k = a.index_of(x);
        assert(b == a.push(y));
        assert(b[k] == x && b[a.len() as int] == y);
    } else {
        lemma_rows_listed(ctx, g, s, front, r, i, j, x, y);
        let (k, l) = choose|k: int, l: int|
            0 <= k < l < a.len() && #[trigger] a[k] == x && #[trigger] a[l] == y;
        assert(b[k] == x && b[l] == y);
    }
}

proof fn lemma_leads(
    ctx: Ctx,
    g: GraphModel,
    s: ValueSource,
    node: InstanceModel,
    r: int,
    x: usize,
    y: usize,
)
    requires
        leads(ctx, s, node, x, y),
        is_child(g, r, x),
        is_child(g, r, y),
    ensures
        is_before(child_order::side_rows(ctx, g, s, Some(node), r as usize), x, y),
{
    let (i, j) = choose|i: int, j: int|
        0 <= i < j < node.children.len() && identity::row_of(
            ctx.rows,
            s,
            #[trigger] node.children[i],
        ) == Some(x) && identity::row_of(ctx.rows, s, #[trigger] node.children[j]) == Some(y);
    lemma_rows_listed(ctx, g, s, node.children, r, i, j, x, y);
}

proof fn lemma_same_rows(
    ctx: Ctx,
    g: GraphModel,
    s: ValueSource,
    a: Seq<usize>,
    t: ValueSource,
    b: Seq<usize>,
    r: usize,
)
    requires
        a.len() == b.len(),
        forall|i: int|
            0 <= i < a.len() ==> identity::row_of(ctx.rows, s, #[trigger] a[i])
                == identity::row_of(ctx.rows, t, b[i]),
    ensures
        child_order::child_rows(ctx, g, s, a, r) == child_order::child_rows(ctx, g, t, b, r),
    decreases a.len(),
{
    if a.len() > 0 {
        let (x, y) = (a.drop_last(), b.drop_last());
        assert forall|i: int| 0 <= i < x.len() implies identity::row_of(ctx.rows, s, #[trigger] x[i])
            == identity::row_of(ctx.rows, t, y[i]) by {
            assert(x[i] == a[i]);
        }
        lemma_same_rows(ctx, g, s, x, t, y, r);
        assert(identity::row_of(ctx.rows, s, a[a.len() - 1]) == identity::row_of(
            ctx.rows,
            t,
            b[b.len() - 1],
        ));
    }
}

/// Rows that are added to a list come behind it.
proof fn lemma_added_behind(list: Seq<usize>, items: Seq<usize>)
    ensures
        list.len() <= child_order::with_new(list, items).len(),
        child_order::with_new(list, items).take(list.len() as int) == list,
    decreases items.len(),
{
    if items.len() > 0 {
        lemma_added_behind(list, items.drop_last());
        let so_far = child_order::with_new(list, items.drop_last());
        let whole = child_order::with_new(list, items);
        assert(whole.take(list.len() as int) =~= so_far.take(list.len() as int));
    } else {
        assert(list.take(list.len() as int) =~= list);
    }
}

proof fn lemma_before_stays(list: Seq<usize>, items: Seq<usize>, x: usize, y: usize)
    requires
        is_before(list, x, y),
    ensures
        is_before(child_order::with_new(list, items), x, y),
{
    lemma_added_behind(list, items);
    let whole = child_order::with_new(list, items);
    let (i, j) = choose|i: int, j: int|
        0 <= i < j < list.len() && #[trigger] list[i] == x && #[trigger] list[j] == y;
    assert(whole.take(list.len() as int)[i] == whole[i]);
    assert(whole.take(list.len() as int)[j] == whole[j]);
}

/// The children of a row follow an instance whose rows come first.
proof fn lemma_follows(
    ctx: Ctx,
    g: GraphModel,
    r: int,
    list: Seq<usize>,
    s: ValueSource,
    node: InstanceModel,
)
    requires
        child_order::row_children(ctx, g, r) == Some(
            child_order::with_new(list, child_order::rows_under(g, r as usize, g.len() as int)),
        ),
        list == child_order::side_rows(ctx, g, s, Some(node), r as usize),
    ensures
        follows(ctx, g, r, child_order::row_children(ctx, g, r)->0, s, node),
{
    let all = child_order::row_children(ctx, g, r)->0;
    assert forall|x: usize, y: usize|
        is_child(g, r, x) && is_child(g, r, y) && #[trigger] leads(
            ctx,
            s,
            node,
            x,
            y,
        ) implies is_before(all, x, y) by {
        lemma_leads(ctx, g, s, node, r, x, y);
        lemma_before_stays(
            list,
            child_order::rows_under(g, r as usize, g.len() as int),
            x,
            y,
        );
    }
}

/// The three instances of a row.
pub open spec fn instances_of(ctx: Ctx, r: int, b: InstanceModel, o: InstanceModel, t: InstanceModel) -> bool {
    let nodes = ctx.nodes(ctx.rows.entries[r]);
    nodes.base == Some(b) && nodes.ours == Some(o) && nodes.theirs == Some(t)
}

/// Where one side left the children of an instance as they were, they have the order of the
/// other side; where both changed them alike, that of both.
#[verifier::rlimit(50)]
pub proof fn law_reordering_of_one_side_is_taken(
    ctx: Ctx,
    g: GraphModel,
    r: int,
    b: InstanceModel,
    o: InstanceModel,
    t: InstanceModel,
)
    requires
        0 <= r < g.len(),
        g[r] is Some,
        instances_of(ctx, r, b, o, t),
    ensures
        ({
            let row = child_order::ordered(ctx, g)[r];
            let children = row->0.children;
            let kept = same_children(ctx, ValueSource::Base, b, ValueSource::Ours, o);
            let theirs_kept = same_children(ctx, ValueSource::Base, b, ValueSource::Theirs, t);
            let alike = same_children(ctx, ValueSource::Ours, o, ValueSource::Theirs, t);
            &&& row is Some
            &&& kept ==> follows(ctx, g, r, children, ValueSource::Theirs, t)
            &&& theirs_kept || alike ==> follows(ctx, g, r, children, ValueSource::Ours, o)
        }),
{
    let seqs = child_order::row_sequences(ctx, g, r);
    if same_children(ctx, ValueSource::Base, b, ValueSource::Ours, o) {
        lemma_same_rows(
            ctx,
            g,
            ValueSource::Base,
            b.children,
            ValueSource::Ours,
            o.children,
            r as usize,
        );
        lemma_follows(ctx, g, r, seqs.theirs, ValueSource::Theirs, t);
    }
    if same_children(ctx, ValueSource::Base, b, ValueSource::Theirs, t) {
        lemma_same_rows(
            ctx,
            g,
            ValueSource::Base,
            b.children,
            ValueSource::Theirs,
            t.children,
            r as usize,
        );
        lemma_follows(ctx, g, r, seqs.ours, ValueSource::Ours, o);
    } else if same_children(ctx, ValueSource::Ours, o, ValueSource::Theirs, t) {
        lemma_same_rows(
            ctx,
            g,
            ValueSource::Ours,
            o.children,
            ValueSource::Theirs,
            t.children,
            r as usize,
        );
        lemma_follows(ctx, g, r, seqs.ours, ValueSource::Ours, o);
    }
}

/// Children that the side taken does not list stand behind those that it lists.
#[verifier::rlimit(50)]
pub proof fn law_unlisted_children_come_last(
    ctx: Ctx,
    g: GraphModel,
    r: int,
    b: InstanceModel,
    o: InstanceModel,
    t: InstanceModel,
    x: usize,
    y: usize,
)
    requires
        ctx.wf(),
        g.len() == ctx.rows.entries.len(),
        0 <= r < g.len(),
        g[r] is Some,
        instances_of(ctx, r, b, o, t),
        same_children(ctx, ValueSource::Base, b, ValueSource::Ours, o),
        is_child(g, r, x),
        is_child(g, r, y),
        has_child(ctx, ValueSource::Theirs, t, x),
        !has_child(ctx, ValueSource::Theirs, t, y),
    ensures
        is_before(child_order::ordered(ctx, g)[r]->0.children, x, y),
{
    let seqs = child_order::row_sequences(ctx, g, r);
    let entry = ctx.rows.entries[r];
    context::lemma_entry_wf(ctx, r);
    lemma_same_rows(
        ctx,
        g,
        ValueSource::Base,
        b.children,
        ValueSource::Ours,
        o.children,
        r as usize,
    );
    let list = seqs.theirs;
    let all = child_order::row_children(ctx, g, r)->0;
    lemma_has_child(ctx, g, ValueSource::Theirs, entry.theirs->0, t, r, x);
    lemma_has_child(ctx, g, ValueSource::Theirs, entry.theirs->0, t, r, y);
    lemma_added_behind(list, child_order::rows_under(g, r as usize, g.len() as int));
    child_order::law_children_are_the_rows_under(ctx, g, r);
    assert(child_order::is_under(g, r as usize, y));
    assert(all.contains(y));
    let i = list.index_of(x);
    let j = all.index_of(y);
    assert(all.take(list.len() as int)[i] == all[i]);
    if j < list.len() {
        assert(all.take(list.len() as int)[j] == all[j]);
        assert(list[j] == y);
    }
    assert(all[i] == x && all[j] == y);
}

proof fn lemma_not_both(list: Seq<usize>, x: usize, y: usize)
    requires
        list.no_duplicates(),
        is_before(list, x, y),
    ensures
        !is_before(list, y, x),
{
    if is_before(list, y, x) {
        let (i, j) = choose|i: int, j: int|
            0 <= i < j < list.len() && #[trigger] list[i] == x && #[trigger] list[j] == y;
        let (k, l) = choose|k: int, l: int|
            0 <= k < l < list.len() && #[trigger] list[k] == y && #[trigger] list[l] == x;
        if i != l {
            assert(list[i] != list[l]);
        }
        if j != k {
            assert(list[j] != list[k]);
        }
    }
}

proof fn lemma_filter_before(
    list: Seq<usize>,
    pred: spec_fn(usize) -> bool,
    i: int,
    j: int,
)
    requires
        0 <= i < j < list.len(),
        pred(list[i]),
        pred(list[j]),
    ensures
        is_before(list.filter(pred), list[i], list[j]),
    decreases list.len(),
{
    reveal(Seq::filter);
    let front = list.drop_last();
    let (a, b) = (front.filter(pred), list.filter(pred));
    if j == list.len() - 1 {
        assert(b == a.push(list[j]));
        assert(front[i] == list[i]);
        lists::lemma_filter_mem(front, pred, list[i]);
        assert(front.contains(list[i]));
        let k = a.index_of(list[i]);
        assert(b[k] == list[i] && b[a.len() as int] == list[j]);
    } else {
        lemma_filter_before(front, pred, i, j);
        let (k, l) = choose|k: int, l: int|
            0 <= k < l < a.len() && #[trigger] a[k] == list[i] && #[trigger] a[l] == list[j];
        assert(b[k] == list[i] && b[l] == list[j]);
    }
}

proof fn lemma_filter_distinct(list: Seq<usize>, pred: spec_fn(usize) -> bool)
    requires
        list.no_duplicates(),
    ensures
        list.filter(pred).no_duplicates(),
    decreases list.len(),
{
    reveal(Seq::filter);
    if list.len() > 0 {
        let front = list.drop_last();
        assert(front.no_duplicates()) by {
            assert forall|i: int, j: int| 0 <= i < front.len() && 0 <= j < front.len() && i
                != j implies front[i] != front[j] by {
                assert(list[i] != list[j]);
            }
        }
        lemma_filter_distinct(front, pred);
        lists::lemma_filter_mem(front, pred, list.last());
        if front.contains(list.last()) {
            let i = front.index_of(list.last());
            assert(list[i] != list[list.len() - 1]);
        }
    }
}

/// Lists with contrary orders of two rows that both hold do not keep each other's order.
proof fn lemma_contrary(base: Seq<usize>, side: Seq<usize>, x: usize, y: usize)
    requires
        base.no_duplicates(),
        side.no_duplicates(),
        is_before(base, x, y),
        is_before(side, y, x),
    ensures
        base != side,
        !child_order::keeps_order(base, side),
{
    lemma_not_both(base, x, y);
    let (i, j) = choose|i: int, j: int|
        0 <= i < j < base.len() && #[trigger] base[i] == x && #[trigger] base[j] == y;
    let (k, l) = choose|k: int, l: int|
        0 <= k < l < side.len() && #[trigger] side[k] == y && #[trigger] side[l] == x;
    lemma_filter_before(base, child_order::in_list(side), i, j);
    lemma_filter_before(side, child_order::in_list(base), k, l);
    lemma_filter_distinct(base, child_order::in_list(side));
    lemma_not_both(base.filter(child_order::in_list(side)), x, y);
}

proof fn lemma_has_child(
    ctx: Ctx,
    g: GraphModel,
    s: ValueSource,
    id: usize,
    node: InstanceModel,
    r: int,
    x: usize,
)
    requires
        ctx.wf(),
        !(s is Merged),
        id < child_order::file_of(ctx, s).len(),
        node == child_order::file_of(ctx, s)[id as int],
        is_child(g, r, x),
    ensures
        child_order::side_rows(ctx, g, s, Some(node), r as usize).contains(x) <==> has_child(
            ctx,
            s,
            node,
            x,
        ),
        child_order::side_rows(ctx, g, s, Some(node), r as usize).no_duplicates(),
{
    child_order::lemma_side_rows(ctx, g, s, Some(id), Some(node), r as usize);
    let children = node.children;
    if has_child(ctx, s, node, x) {
        let i = choose|i: int|
            0 <= i < children.len() && identity::row_of(ctx.rows, s, #[trigger] children[i])
                == Some(x);
        lemma_row_listed(ctx, g, s, children, r, i, x);
    }
    matching::lemma_children(child_order::file_of(ctx, s), id as int);
    assert forall|j: int, k: int| 0 <= j < children.len() && 0 <= k < children.len() && j
        != k implies children[j] != children[k] by {
        if j < k {
            assert(children[j] < children[k]);
        } else {
            assert(children[k] < children[j]);
        }
    }
    child_order::lemma_child_rows(ctx, g, s, children, r as usize);
}

proof fn lemma_told_apart(
    ctx: Ctx,
    g: GraphModel,
    r: int,
    s: ValueSource,
    id: usize,
    a: InstanceModel,
    t: ValueSource,
    other: usize,
    b: InstanceModel,
)
    requires
        ctx.wf(),
        !(s is Merged),
        !(t is Merged),
        id < child_order::file_of(ctx, s).len(),
        a == child_order::file_of(ctx, s)[id as int],
        other < child_order::file_of(ctx, t).len(),
        b == child_order::file_of(ctx, t)[other as int],
        contradict(ctx, g, r, s, a, t, b) || is_uneven(ctx, g, r, s, a, t, b),
    ensures
        ({
            let x = child_order::side_rows(ctx, g, s, Some(a), r as usize);
            let y = child_order::side_rows(ctx, g, t, Some(b), r as usize);
            &&& x != y
            &&& contradict(ctx, g, r, s, a, t, b) ==> !child_order::keeps_order(x, y)
        }),
{
    let m = child_order::side_rows(ctx, g, s, Some(a), r as usize);
    let n = child_order::side_rows(ctx, g, t, Some(b), r as usize);
    if contradict(ctx, g, r, s, a, t, b) {
        let (x, y) = choose|x: usize, y: usize|
            is_child(g, r, x) && is_child(g, r, y) && #[trigger] leads(ctx, s, a, x, y) && leads(
                ctx,
                t,
                b,
                y,
                x,
            );
        lemma_leads(ctx, g, s, a, r, x, y);
        lemma_leads(ctx, g, t, b, r, y, x);
        lemma_has_child(ctx, g, s, id, a, r, x);
        lemma_has_child(ctx, g, t, other, b, r, x);
        lemma_contrary(m, n, x, y);
    } else {
        let x = choose|x: usize| #[trigger]
            is_child(g, r, x) && has_child(ctx, s, a, x) != has_child(ctx, t, b, x);
        lemma_has_child(ctx, g, s, id, a, r, x);
        lemma_has_child(ctx, g, t, other, b, r, x);
    }
}

/// Whether both sides changed the children of an instance in different ways, and one of
/// them put two of them in the contrary order.
pub open spec fn orders_clash(
    ctx: Ctx,
    g: GraphModel,
    r: int,
    b: InstanceModel,
    o: InstanceModel,
    t: InstanceModel,
) -> bool {
    let (base, ours, theirs) = (ValueSource::Base, ValueSource::Ours, ValueSource::Theirs);
    let ours_turned = contradict(ctx, g, r, base, b, ours, o);
    let theirs_turned = contradict(ctx, g, r, base, b, theirs, t);
    &&& ours_turned || theirs_turned
    &&& ours_turned || is_uneven(ctx, g, r, base, b, ours, o)
    &&& theirs_turned || is_uneven(ctx, g, r, base, b, theirs, t)
    &&& contradict(ctx, g, r, ours, o, theirs, t) || is_uneven(ctx, g, r, ours, o, theirs, t)
}

proof fn lemma_clash(
    ctx: Ctx,
    g: GraphModel,
    r: int,
    b: InstanceModel,
    o: InstanceModel,
    t: InstanceModel,
)
    requires
        ctx.wf(),
        g.len() == ctx.rows.entries.len(),
        0 <= r < g.len(),
        instances_of(ctx, r, b, o, t),
        orders_clash(ctx, g, r, b, o, t),
    ensures
        child_order::merged_sequence(child_order::row_sequences(ctx, g, r)) is None,
{
    let entry = ctx.rows.entries[r];
    context::lemma_entry_wf(ctx, r);
    let (base, ours, theirs) = (ValueSource::Base, ValueSource::Ours, ValueSource::Theirs);
    let (i, j, k) = (entry.base->0, entry.ours->0, entry.theirs->0);
    lemma_told_apart(ctx, g, r, base, i, b, ours, j, o);
    lemma_told_apart(ctx, g, r, base, i, b, theirs, k, t);
    lemma_told_apart(ctx, g, r, ours, j, o, theirs, k, t);
}

/// What a conflict shows of the children of an instance of a file.
pub open spec fn order_shown(
    ctx: Ctx,
    g: GraphModel,
    r: int,
    s: ValueSource,
    node: InstanceModel,
) -> Text {
    child_order::order_label(g, child_order::side_rows(ctx, g, s, Some(node), r as usize))
}

/// What a conflict shows of children is their names, one behind the other, in brackets.
pub proof fn law_orders_are_shown_by_names(g: GraphModel, list: Seq<usize>, x: usize)
    requires
        x < g.len(),
        g[x as int] is Some,
    ensures
        child_order::order_label(g, Seq::empty()) == seq!['[', ']'],
        ({
            let t = child_order::order_label(g, list);
            let u = child_order::order_label(g, list.push(x));
            let name = g[x as int]->0.name;
            &&& list.len() == 0 ==> u == seq!['['] + name + seq![']']
            &&& list.len() > 0 ==> u == t.take(t.len() - 1) + seq![',', ' '] + name + seq![']']
        }),
{
    reveal_strlit("[");
    reveal_strlit("]");
    reveal_strlit(", ");
    let f = |r: usize| child_order::row_name(g, r);
    let parts = list.map_values(f);
    let name = g[x as int]->0.name;
    assert(Seq::<usize>::empty().map_values(f) =~= Seq::empty());
    assert(child_order::order_label(g, Seq::empty()) =~= seq!['[', ']']);
    assert(list.push(x).map_values(f) =~= parts.push(name));
    assert(parts.push(name).drop_last() =~= parts);
    let t = child_order::order_label(g, list);
    let u = child_order::order_label(g, list.push(x));
    if list.len() == 0 {
        assert(u =~= seq!['['] + name + seq![']']);
    } else {
        let inner = text::join(parts, ", "@);
        assert(t.take(t.len() - 1) =~= seq!['['] + inner);
        assert(u =~= t.take(t.len() - 1) + seq![',', ' '] + name + seq![']']);
    }
}

/// Where both sides changed the children of an instance in different ways, and one of them
/// put two of them in the contrary order, there is a conflict unless it is decided. Where it
/// is decided, the children have the order of that very side.
#[verifier::rlimit(50)]
pub proof fn law_contrary_orders_conflict(
    ctx: Ctx,
    g: GraphModel,
    r: int,
    b: InstanceModel,
    o: InstanceModel,
    t: InstanceModel,
    before: Seq<ConflictModel>,
    side: Side,
)
    requires
        ctx.wf(),
        g.len() == ctx.rows.entries.len(),
        0 <= r < g.len(),
        g[r] is Some,
        instances_of(ctx, r, b, o, t),
        orders_clash(ctx, g, r, b, o, t),
    ensures
        ({
            let path = edit_laws::row_path(ctx, ctx.rows.entries[r]);
            let found = child_order::order_conflicts(ctx, g, g.len() as int, before);
            let row = child_order::ordered(ctx, g)[r];
            &&& edit_laws::is_open(ctx.resolutions, ConflictKind::ChildOrder, path, None)
                ==> exists|c: ConflictModel| #[trigger]
                found.contains(c) && c == edit_laws::conflict_about(
                    ctx,
                    ctx.rows.entries[r],
                    ConflictKind::ChildOrder,
                    None,
                    Some(order_shown(ctx, g, r, ValueSource::Base, b)),
                    Some(order_shown(ctx, g, r, ValueSource::Ours, o)),
                    Some(order_shown(ctx, g, r, ValueSource::Theirs, t)),
                )
            &&& edit_laws::is_decided(ctx.resolutions, ConflictKind::ChildOrder, path, None, side)
                ==> row is Some && match side {
                Side::Base => follows(ctx, g, r, row->0.children, ValueSource::Base, b),
                Side::Ours => follows(ctx, g, r, row->0.children, ValueSource::Ours, o),
                Side::Theirs => follows(ctx, g, r, row->0.children, ValueSource::Theirs, t),
            }
        }),
{
    lemma_clash(ctx, g, r, b, o, t);
    let entry = ctx.rows.entries[r];
    let path = edit_laws::row_path(ctx, entry);
    let seqs = child_order::row_sequences(ctx, g, r);
    if edit_laws::is_open(ctx.resolutions, ConflictKind::ChildOrder, path, None) {
        let so_far = child_order::order_conflicts(ctx, g, r, before);
        let more = child_order::order_conflicts(ctx, g, r + 1, before);
        assert(more.len() == so_far.len() + 1);
        let c = more[so_far.len() as int];
        lemma_order_conflict_stays(ctx, g, r + 1, g.len() as int, before, c);
    }
    if edit_laws::is_decided(ctx.resolutions, ConflictKind::ChildOrder, path, None, side) {
        match side {
            Side::Base => lemma_follows(ctx, g, r, seqs.base, ValueSource::Base, b),
            Side::Ours => lemma_follows(ctx, g, r, seqs.ours, ValueSource::Ours, o),
            Side::Theirs => lemma_follows(ctx, g, r, seqs.theirs, ValueSource::Theirs, t),
        }
    }
}

proof fn lemma_order_conflict_stays(
    ctx: Ctx,
    g: GraphModel,
    n: int,
    m: int,
    before: Seq<ConflictModel>,
    c: ConflictModel,
)
    requires
        0 <= n <= m,
        child_order::order_conflicts(ctx, g, n, before).contains(c),
    ensures
        child_order::order_conflicts(ctx, g, m, before).contains(c),
    decreases m,
{
    if n < m {
        lemma_order_conflict_stays(ctx, g, n, m - 1, before, c);
        let a = child_order::order_conflicts(ctx, g, m - 1, before);
        let b = child_order::order_conflicts(ctx, g, m, before);
        let i = a.index_of(c);
        assert(b[i] == c);
    }
}

// ---------------------------------------------------------------------------
// Additions at one place
// ---------------------------------------------------------------------------

/// Rows that a list lacks are put behind it as they are.
proof fn lemma_all_new(list: Seq<usize>, items: Seq<usize>)
    requires
        (list + items).no_duplicates(),
    ensures
        child_order::with_new(list, items) == list + items,
    decreases items.len(),
{
    if items.len() == 0 {
        assert(list + items =~= list);
    } else {
        let front = items.drop_last();
        let whole = list + items;
        assert forall|i: int, j: int|
            0 <= i < (list + front).len() && 0 <= j < (list + front).len() && i != j implies (list
            + front)[i] != (list + front)[j] by {
            assert(whole[i] != whole[j]);
        }
        lemma_all_new(list, front);
        if (list + front).contains(items.last()) {
            let i = (list + front).index_of(items.last());
            assert(whole[i] != whole[whole.len() - 1]);
        }
        assert((list + front).push(items.last()) =~= list + items);
    }
}

proof fn lemma_place(side: Seq<usize>, pos: int, at: int)
    requires
        0 <= pos <= at < side.len(),
        side.no_duplicates(),
    ensures
        child_order::place_from(side, pos, side[at]) == at,
    decreases at - pos,
{
    if pos < at {
        assert(side[pos] != side[at]);
        lemma_place(side, pos + 1, at);
    }
}

proof fn lemma_part(whole: Seq<usize>, part: Seq<usize>, at: spec_fn(int) -> int)
    requires
        whole.no_duplicates(),
        forall|i: int|
            0 <= i < part.len() ==> 0 <= #[trigger] at(i) < whole.len() && part[i] == whole[at(i)],
        forall|i: int, j: int|
            0 <= i < part.len() && 0 <= j < part.len() && i != j ==> #[trigger] at(i)
                != #[trigger] at(j),
    ensures
        part.no_duplicates(),
{
    assert forall|i: int, j: int| 0 <= i < part.len() && 0 <= j < part.len() && i
        != j implies part[i] != part[j] by {
        assert(at(i) != at(j));
        assert(whole[at(i)] != whole[at(j)]);
    }
}

/// How far the merge is after `n` rows of the base.
#[verifier::rlimit(50)]
proof fn lemma_so_far(p: Seq<usize>, a: Seq<usize>, b: Seq<usize>, q: Seq<usize>, n: int)
    requires
        (p + a + b + q).no_duplicates(),
        0 <= n <= p.len() + q.len(),
    ensures
        ({
            let so_far = child_order::inserted_upto(p + q, p + a + q, p + b + q, n);
            if n <= p.len() {
                &&& so_far.list == p.take(n)
                &&& so_far.ours == n
                &&& so_far.theirs == n
            } else {
                &&& so_far.list == p + a + b + q.take(n - p.len())
                &&& so_far.ours == n + a.len()
                &&& so_far.theirs == n + b.len()
            }
        }),
    decreases n,
{
    let whole = p + a + b + q;
    let (base, ours, theirs) = (p + q, p + a + q, p + b + q);
    if n == 0 {
        assert(p.take(0) =~= Seq::empty());
    } else {
        lemma_so_far(p, a, b, q, n - 1);
        let before = child_order::inserted_upto(base, ours, theirs, n - 1);
        lemma_part(
            whole,
            ours,
            |i: int|
                if i < p.len() + a.len() {
                    i
                } else {
                    i + b.len()
                },
        );
        lemma_part(
            whole,
            theirs,
            |i: int|
                if i < p.len() {
                    i
                } else {
                    i + a.len()
                },
        );
        let row = base[n - 1];
        let one = seq![row];
        if n <= p.len() {
            lemma_place(ours, n - 1, n - 1);
            lemma_place(theirs, n - 1, n - 1);
            assert(ours.subrange(n - 1, n - 1) =~= Seq::empty());
            assert(theirs.subrange(n - 1, n - 1) =~= Seq::empty());
            lemma_part(whole, p.take(n - 1) + one, |i: int| i);
            lemma_all_new(p.take(n - 1), one);
            assert(p.take(n - 1) + one =~= p.take(n));
        } else {
            let (o, t) = (n - 1 + a.len(), n - 1 + b.len());
            assert(ours[o] == row && theirs[t] == row);
            lemma_place(ours, before.ours, o);
            lemma_place(theirs, before.theirs, t);
            let k = n - p.len();
            if k == 1 {
                assert(p.take(n - 1) =~= p);
                assert(ours.subrange(before.ours, o) =~= a);
                assert(theirs.subrange(before.theirs, t) =~= b);
                lemma_part(whole, p + a, |i: int| i);
                lemma_part(whole, p + a + b, |i: int| i);
                lemma_all_new(p, a);
                lemma_all_new(p + a, b);
            } else {
                assert(ours.subrange(before.ours, o) =~= Seq::empty());
                assert(theirs.subrange(before.theirs, t) =~= Seq::empty());
            }
            let front = p + a + b + q.take(k - 1);
            assert(p + a + b =~= p + a + b + q.take(0));
            lemma_part(whole, front + one, |i: int| i);
            lemma_all_new(front, one);
            assert(front + one =~= p + a + b + q.take(k));
        }
    }
}

/// Where both sides put new children at one place between those of the base, all of them
/// stand there: those of ours first, then those of theirs, in their orders.
#[verifier::rlimit(50)]
pub proof fn law_additions_of_ours_stand_first(
    p: Seq<usize>,
    a: Seq<usize>,
    b: Seq<usize>,
    q: Seq<usize>,
)
    requires
        (p + a + b + q).no_duplicates(),
        a.len() > 0,
        b.len() > 0,
    ensures
        child_order::merged_sequence(
            (Sides { base: p + q, ours: p + a + q, theirs: p + b + q }),
        ) == Some(p + a + b + q),
{
    let whole = p + a + b + q;
    let (base, ours, theirs) = (p + q, p + a + q, p + b + q);
    let n = base.len() as int;
    lemma_so_far(p, a, b, q, n);
    let done = child_order::inserted_upto(base, ours, theirs, n);
    if q.len() == 0 {
        assert(p.take(n) =~= p);
        assert(ours.skip(done.ours) =~= a);
        assert(theirs.skip(done.theirs) =~= b);
        lemma_part(whole, p + a, |i: int| i);
        lemma_all_new(p, a);
        lemma_part(whole, p + a + b, |i: int| i);
        lemma_all_new(p + a, b);
        assert(p + a + b =~= whole);
    } else {
        assert(ours.skip(done.ours) =~= Seq::empty());
        assert(theirs.skip(done.theirs) =~= Seq::empty());
        assert(p + a + b + q.take(n - p.len()) =~= whole);
    }
    assert(child_order::inserted(base, ours, theirs) =~= whole);
    lemma_part(
        whole,
        ours,
        |i: int|
            if i < p.len() + a.len() {
                i
            } else {
                i + b.len()
            },
    );
    lemma_part(
        whole,
        theirs,
        |i: int|
            if i < p.len() {
                i
            } else {
                i + a.len()
            },
    );
    lemma_keeps(p, a, q);
    lemma_keeps(p, b, q);
    assert(ours.len() != base.len() && theirs.len() != base.len());
    assert(ours[p.len() as int] == whole[p.len() as int]);
    assert(theirs[p.len() as int] == whole[(p.len() + a.len()) as int]);
    assert(ours != theirs);
}

/// What a side adds is not in the base.
proof fn lemma_not_in_base(p: Seq<usize>, a: Seq<usize>, q: Seq<usize>, i: int)
    requires
        (p + a + q).no_duplicates(),
        0 <= i < a.len(),
    ensures
        !(p + q).contains(a[i]),
{
    let (base, side) = (p + q, p + a + q);
    if base.contains(a[i]) {
        let k = base.index_of(a[i]);
        let at = p.len() + i;
        let l = if k < p.len() {
            k
        } else {
            k + a.len()
        };
        assert(side[at] == a[i]);
        assert(side[l] == base[k]);
    }
}

/// A side that only adds keeps the order of the base.
#[verifier::rlimit(50)]
proof fn lemma_keeps(p: Seq<usize>, a: Seq<usize>, q: Seq<usize>)
    requires
        (p + a + q).no_duplicates(),
    ensures
        child_order::keeps_order(p + q, p + a + q),
{
    let (base, side) = (p + q, p + a + q);
    let (in_base, in_side) = (child_order::in_list(base), child_order::in_list(side));
    assert forall|i: int| 0 <= i < base.len() implies in_side(#[trigger] base[i]) by {
        if i < p.len() {
            assert(side[i] == base[i]);
        } else {
            assert(side[i + a.len()] == base[i]);
        }
    }
    lists::lemma_filter_keeps(base, in_side);
    assert(p.filter(in_base) == p) by {
        assert forall|i: int| 0 <= i < p.len() implies in_base(#[trigger] p[i]) by {
            assert(base[i] == p[i]);
        }
        lists::lemma_filter_keeps(p, in_base);
    }
    assert(q.filter(in_base) == q) by {
        assert forall|i: int| 0 <= i < q.len() implies in_base(#[trigger] q[i]) by {
            assert(base[p.len() + i] == q[i]);
        }
        lists::lemma_filter_keeps(q, in_base);
    }
    assert(a.filter(in_base) == Seq::<usize>::empty()) by {
        assert forall|i: int| 0 <= i < a.len() implies !in_base(#[trigger] a[i]) by {
            lemma_not_in_base(p, a, q, i);
        }
        lists::lemma_filter_drops(a, in_base);
    }
    Seq::filter_distributes_over_add(p + a, q, in_base);
    Seq::filter_distributes_over_add(p, a, in_base);
    assert(side.filter(in_base) =~= p + q);
}

} // verus!
