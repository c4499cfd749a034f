//! The order of the children of the surviving rows.

use std::collections::HashSet;

use vstd::prelude::*;

use crate::conflict;
use crate::conflict::{Conflict, ConflictKind, ConflictModel};
use crate::context;
use crate::context::{resolve_or_report, Ctx, MergeCtx};
use crate::cycles;
use crate::graph::{GraphModel, MergedGraph, NodeModel};
use crate::identity;
use crate::lists;
use crate::resolve;
use crate::resolve::Side;
use crate::semantic::{DomModel, InstanceModel, SemanticDom, SemanticInstance, ValueSource};
use crate::text;
use crate::text::{join_strings, Text};
use crate::three_way;
use crate::three_way::{three_way_side, Sides};

verus! {

broadcast use vstd::std_specs::hash::group_hash_axioms;

// ---------------------------------------------------------------------------
// Merging sequences
// ---------------------------------------------------------------------------

/// Membership in a list.
pub open spec fn in_list(list: Seq<usize>) -> spec_fn(usize) -> bool {
    |x: usize| list.contains(x)
}

/// Whether the rows that are in both lists have the same order in both.
pub open spec fn keeps_order(base: Seq<usize>, side: Seq<usize>) -> bool {
    side.filter(in_list(base)) == base.filter(in_list(side))
}

/// A list with the items that it lacks, in their order.
pub open spec fn with_new(list: Seq<usize>, items: Seq<usize>) -> Seq<usize>
    decreases items.len(),
{
    if items.len() == 0 {
        list
    } else {
        let so_far = with_new(list, items.drop_last());
        if so_far.contains(items.last()) {
            so_far
        } else {
            so_far.push(items.last())
        }
    }
}

/// The first place from `pos` on where a row stands, or the end of the list.
pub open spec fn place_from(side: Seq<usize>, pos: int, anchor: usize) -> int
    decreases side.len() - pos,
{
    if pos < 0 || pos >= side.len() {
        side.len() as int
    } else if side[pos] == anchor {
        pos
    } else {
        place_from(side, pos + 1, anchor)
    }
}

/// The place behind `at`, unless `at` is the end of the list.
pub open spec fn behind(side: Seq<usize>, at: int) -> int {
    if at < side.len() {
        at + 1
    } else {
        at
    }
}

/// A merged list, and how far the two sides were read for it.
pub ghost struct Progress {
    pub list: Seq<usize>,
    pub ours: int,
    pub theirs: int,
}

/// The merge up to the first `n` rows of the base: before each of them stand the
/// rows that ours has before it, then those that theirs has before it.
pub open spec fn inserted_upto(
    base: Seq<usize>,
    ours: Seq<usize>,
    theirs: Seq<usize>,
    n: int,
) -> Progress
    decreases n,
{
    if n <= 0 {
        Progress { list: Seq::empty(), ours: 0, theirs: 0 }
    } else {
        let p = inserted_upto(base, ours, theirs, n - 1);
        let o = place_from(ours, p.ours, base[n - 1]);
        let t = place_from(theirs, p.theirs, base[n - 1]);
        let list = with_new(p.list, ours.subrange(p.ours, o));
        let list = with_new(list, theirs.subrange(p.theirs, t));
        Progress {
            list: with_new(list, seq![base[n - 1]]),
            ours: behind(ours, o),
            theirs: behind(theirs, t),
        }
    }
}

/// The merge of insertions on both sides.
pub open spec fn inserted(base: Seq<usize>, ours: Seq<usize>, theirs: Seq<usize>) -> Seq<usize> {
    let p = inserted_upto(base, ours, theirs, base.len() as int);
    with_new(with_new(p.list, ours.skip(p.ours)), theirs.skip(p.theirs))
}

/// The merged sequence: what the three-way rule takes; else, if both sides keep
/// the order of the base, the merge of their insertions; else none.
pub open spec fn merged_sequence(seqs: Sides<Seq<usize>>) -> Option<Seq<usize>> {
    match three_way::three_way_of(seqs) {
        Some(side) => Some(seqs.of(side)),
        None => if keeps_order(seqs.base, seqs.ours) && keeps_order(seqs.base, seqs.theirs) {
            Some(inserted(seqs.base, seqs.ours, seqs.theirs))
        } else {
            None
        },
    }
}

proof fn lemma_place_from(side: Seq<usize>, pos: int, anchor: usize)
    requires
        0 <= pos <= side.len(),
    ensures
        pos <= place_from(side, pos, anchor) <= side.len(),
        forall|i: int| pos <= i < place_from(side, pos, anchor) ==> #[trigger] side[i] != anchor,
        place_from(side, pos, anchor) < side.len() ==> side[place_from(side, pos, anchor)]
            == anchor,
    decreases side.len() - pos,
{
    if pos < side.len() && side[pos] != anchor {
        lemma_place_from(side, pos + 1, anchor);
    }
}

/// What a list with new items holds, and that it holds nothing twice if the list
/// did not.
pub proof fn lemma_with_new(list: Seq<usize>, items: Seq<usize>)
    ensures
        forall|x: usize| #[trigger]
            with_new(list, items).contains(x) <==> list.contains(x) || items.contains(x),
        list.no_duplicates() ==> with_new(list, items).no_duplicates(),
    decreases items.len(),
{
    if items.len() > 0 {
        let rest = items.drop_last();
        let so_far = with_new(list, rest);
        let whole = with_new(list, items);
        lemma_with_new(list, rest);
        assert forall|x: usize| #[trigger] whole.contains(x) <==> list.contains(x) || items.contains(
            x,
        ) by {
            assert(so_far.contains(x) <==> list.contains(x) || rest.contains(x));
            if rest.contains(x) {
                assert(items[rest.index_of(x)] == x);
            }
            if items.contains(x) {
                let i = items.index_of(x);
                if i < rest.len() {
                    assert(rest[i] == x);
                }
            }
            if whole.contains(x) && whole != so_far {
                let i = whole.index_of(x);
                if i < so_far.len() {
                    assert(so_far[i] == x);
                }
            }
            if so_far.contains(x) {
                assert(whole[so_far.index_of(x)] == x);
            }
            assert(items[items.len() - 1] == items.last());
            if whole != so_far {
                assert(whole[so_far.len() as int] == items.last());
            }
        }
    }
}

proof fn lemma_with_new_step(list: Seq<usize>, side: Seq<usize>, lo: int, hi: int)
    requires
        0 <= lo <= hi < side.len(),
    ensures
        with_new(list, side.subrange(lo, hi + 1)) == with_new(
            with_new(list, side.subrange(lo, hi)),
            seq![side[hi]],
        ),
{
    let items = side.subrange(lo, hi + 1);
    assert(items.drop_last() =~= side.subrange(lo, hi));
    let one = seq![side[hi]];
    assert(one.drop_last() =~= Seq::<usize>::empty());
    reveal_with_fuel(with_new, 2);
}

// ---------------------------------------------------------------------------
// Executable counterparts
// ---------------------------------------------------------------------------

/// A set that holds what a list holds.
spec fn holds(set: Set<usize>, list: Seq<usize>) -> bool {
    forall|x: usize| #[trigger] set.contains(x) <==> list.contains(x)
}

fn members_of(list: &Vec<usize>) -> (res: HashSet<usize>)
    ensures
        holds(res@, list@),
{
    let mut set: HashSet<usize> = HashSet::new();
    let mut i: usize = 0;
    while i < list.len()
        invariant
            i <= list.len(),
            holds(set@, list@.take(i as int)),
        decreases list.len() - i,
    {
        let ghost before = set@;
        set.insert(list[i]);
        proof {
            let a = list@.take(i as int);
            let b = list@.take(i + 1);
            assert forall|x: usize| #[trigger] set@.contains(x) <==> b.contains(x) by {
                assert(before.contains(x) <==> a.contains(x));
                if a.contains(x) {
                    assert(b[a.index_of(x)] == x);
                }
                if b.contains(x) {
                    let k = b.index_of(x);
                    if k < i {
                        assert(a[k] == x);
                    }
                }
                assert(b[i as int] == list@[i as int]);
            }
        }
        i += 1;
    }
    assert(list@.take(list.len() as int) =~= list@);
    set
}

fn keep_members(list: &Vec<usize>, set: &HashSet<usize>, Ghost(other): Ghost<Seq<usize>>) -> (res:
    Vec<usize>)
    requires
        holds(set@, other),
    ensures
        res@ == list@.filter(in_list(other)),
{
    let ghost pred = in_list(other);
    let mut out: Vec<usize> = Vec::new();
    let mut i: usize = 0;
    proof {
        lists::lemma_filter_none(list@, pred);
    }
    while i < list.len()
        invariant
            i <= list.len(),
            holds(set@, other),
            pred == in_list(other),
            out@ == list@.take(i as int).filter(pred),
        decreases list.len() - i,
    {
        proof {
            lists::lemma_filter_step(list@, pred, i as int);
            assert(set@.contains(list@[i as int]) <==> other.contains(list@[i as int]));
        }
        if set.contains(&list[i]) {
            out.push(list[i]);
        }
        i += 1;
    }
    proof {
        lists::lemma_filter_all(list@, pred);
    }
    out
}

fn same_rows(a: &Vec<usize>, b: &Vec<usize>) -> (res: bool)
    ensures
        res == (a@ == b@),
{
    if a.len() != b.len() {
        return false;
    }
    let mut i: usize = 0;
    while i < a.len()
        invariant
            i <= a.len(),
            a.len() == b.len(),
            forall|k: int| 0 <= k < i ==> #[trigger] a@[k] == b@[k],
        decreases a.len() - i,
    {
        if a[i] != b[i] {
            return false;
        }
        i += 1;
    }
    assert(a@ =~= b@);
    true
}

/// Whether the rows that are in both lists have the same order in both.
pub fn preserves_base_order(base: &Vec<usize>, side: &Vec<usize>) -> (res: bool)
    ensures
        res == keeps_order(base@, side@),
{
    let in_base = members_of(base);
    let in_side = members_of(side);
    let projected = keep_members(side, &in_base, Ghost(base@));
    let expected = keep_members(base, &in_side, Ghost(side@));
    same_rows(&projected, &expected)
}

fn add_new(value: usize, result: &mut Vec<usize>, seen: &mut HashSet<usize>)
    requires
        holds(old(seen)@, old(result)@),
    ensures
        final(result)@ == with_new(old(result)@, seq![value]),
        holds(final(seen)@, final(result)@),
{
    let ghost before = result@;
    let ghost one = seq![value];
    proof {
        reveal_with_fuel(with_new, 2);
        assert(one.drop_last() =~= Seq::<usize>::empty());
        assert(seen@.contains(value) <==> before.contains(value));
        lemma_with_new(before, one);
        assert forall|x: usize| one.contains(x) implies x == value by {}
        assert(one[0] == value);
    }
    if !seen.contains(&value) {
        let ghost set = seen@;
        seen.insert(value);
        result.push(value);
        assert forall|x: usize| #[trigger] seen@.contains(x) <==> result@.contains(x) by {
            assert(set.contains(x) <==> before.contains(x));
            assert(with_new(before, one).contains(x) <==> before.contains(x) || one.contains(x));
        }
    }
}

/// Adds the rows of a side up to an anchor, or up to its end.
fn append_until_anchor(
    side: &Vec<usize>,
    pos: usize,
    anchor: Option<usize>,
    result: &mut Vec<usize>,
    seen: &mut HashSet<usize>,
) -> (res: usize)
    requires
        pos <= side.len(),
        holds(old(seen)@, old(result)@),
    ensures
        res == (match anchor {
            Some(a) => place_from(side@, pos as int, a),
            None => side@.len() as int,
        }),
        pos <= res <= side.len(),
        final(result)@ == with_new(old(result)@, side@.subrange(pos as int, res as int)),
        holds(final(seen)@, final(result)@),
{
    let ghost start = result@;
    let mut at: usize = pos;
    proof {
        assert(side@.subrange(pos as int, pos as int) =~= Seq::<usize>::empty());
        assert(with_new(start, Seq::<usize>::empty()) == start);
    }
    while at < side.len() && Some(side[at]) != anchor
        invariant
            pos <= at <= side.len(),
            anchor matches Some(a) ==> place_from(side@, pos as int, a) == place_from(
                side@,
                at as int,
                a,
            ),
            result@ == with_new(start, side@.subrange(pos as int, at as int)),
            holds(seen@, result@),
        decreases side.len() - at,
    {
        let ghost before = result@;
        add_new(side[at], result, seen);
        proof {
            lemma_with_new_step(start, side@, pos as int, at as int);
        }
        at += 1;
    }
    at
}

/// Merges the insertions of both sides.
pub fn merge_insertions(base: &Vec<usize>, ours: &Vec<usize>, theirs: &Vec<usize>) -> (res: Vec<
    usize,
>)
    ensures
        res@ == inserted(base@, ours@, theirs@),
{
    let mut result: Vec<usize> = Vec::new();
    let mut seen: HashSet<usize> = HashSet::new();
    let mut ours_pos: usize = 0;
    let mut theirs_pos: usize = 0;
    let mut i: usize = 0;
    while i < base.len()
        invariant
            i <= base.len(),
            ours_pos <= ours.len(),
            theirs_pos <= theirs.len(),
            holds(seen@, result@),
            inserted_upto(base@, ours@, theirs@, i as int) == (Progress {
                list: result@,
                ours: ours_pos as int,
                theirs: theirs_pos as int,
            }),
        decreases base.len() - i,
    {
        let anchor: usize = base[i];
        proof {
            lemma_place_from(ours@, ours_pos as int, anchor);
            lemma_place_from(theirs@, theirs_pos as int, anchor);
        }
        ours_pos = append_until_anchor(ours, ours_pos, Some(anchor), &mut result, &mut seen);
        theirs_pos = append_until_anchor(theirs, theirs_pos, Some(anchor), &mut result, &mut seen);
        add_new(anchor, &mut result, &mut seen);
        if ours_pos < ours.len() {
            ours_pos += 1;
        }
        if theirs_pos < theirs.len() {
            theirs_pos += 1;
        }
        i += 1;
    }
    assert(ours@.subrange(ours_pos as int, ours@.len() as int) =~= ours@.skip(ours_pos as int));
    assert(theirs@.subrange(theirs_pos as int, theirs@.len() as int) =~= theirs@.skip(
        theirs_pos as int,
    ));
    append_until_anchor(ours, ours_pos, None, &mut result, &mut seen);
    append_until_anchor(theirs, theirs_pos, None, &mut result, &mut seen);
    result
}

pub open spec fn sequences_view(s: Sides<Vec<usize>>) -> Sides<Seq<usize>> {
    Sides { base: s.base@, ours: s.ours@, theirs: s.theirs@ }
}

fn copy_rows(list: &Vec<usize>) -> (res: Vec<usize>)
    ensures
        res@ == list@,
{
    let mut out: Vec<usize> = Vec::new();
    let mut i: usize = 0;
    while i < list.len()
        invariant
            i <= list.len(),
            out@ == list@.take(i as int),
        decreases list.len() - i,
    {
        out.push(list[i]);
        assert(list@.take(i + 1) =~= list@.take(i as int).push(list@[i as int]));
        i += 1;
    }
    assert(list@.take(list.len() as int) =~= list@);
    out
}

fn copy_side(seqs: &Sides<Vec<usize>>, side: Side) -> (res: Vec<usize>)
    ensures
        res@ == sequences_view(*seqs).of(side),
{
    match side {
        Side::Base => copy_rows(&seqs.base),
        Side::Ours => copy_rows(&seqs.ours),
        Side::Theirs => copy_rows(&seqs.theirs),
    }
}

/// Merges the sequences of the three sides.
pub fn merge_child_sequence(seqs: &Sides<Vec<usize>>) -> (res: Option<Vec<usize>>)
    ensures
        match res {
            Some(list) => merged_sequence(sequences_view(*seqs)) == Some(list@),
            None => merged_sequence(sequences_view(*seqs)) is None,
        },
{
    let side = three_way_side(
        same_rows(&seqs.ours, &seqs.base),
        same_rows(&seqs.theirs, &seqs.base),
        same_rows(&seqs.ours, &seqs.theirs),
    );
    if let Some(side) = side {
        return Some(copy_side(seqs, side));
    }
    if preserves_base_order(&seqs.base, &seqs.ours) && preserves_base_order(
        &seqs.base,
        &seqs.theirs,
    ) {
        return Some(merge_insertions(&seqs.base, &seqs.ours, &seqs.theirs));
    }
    None
}

// ---------------------------------------------------------------------------
// The children of a row
// ---------------------------------------------------------------------------

/// Whether a row survives under a parent.
pub open spec fn is_under(g: GraphModel, parent: usize, r: usize) -> bool {
    r < g.len() && g[r as int] is Some && g[r as int]->0.parent == Some(parent)
}

/// The rows of some children that survive under a parent.
pub open spec fn child_rows(
    ctx: Ctx,
    g: GraphModel,
    source: ValueSource,
    children: Seq<usize>,
    parent: usize,
) -> Seq<usize>
    decreases children.len(),
{
    if children.len() == 0 {
        Seq::empty()
    } else {
        let so_far = child_rows(ctx, g, source, children.drop_last(), parent);
        match identity::row_of(ctx.rows, source, children.last()) {
            Some(r) => if is_under(g, parent, r) {
                so_far.push(r)
            } else {
                so_far
            },
            None => so_far,
        }
    }
}

pub open spec fn side_rows(
    ctx: Ctx,
    g: GraphModel,
    source: ValueSource,
    node: Option<InstanceModel>,
    parent: usize,
) -> Seq<usize> {
    match node {
        Some(node) => child_rows(ctx, g, source, node.children, parent),
        None => Seq::empty(),
    }
}

/// The children of a row on the three sides.
pub open spec fn row_sequences(ctx: Ctx, g: GraphModel, r: int) -> Sides<Seq<usize>> {
    let nodes = ctx.nodes(ctx.rows.entries[r]);
    Sides {
        base: side_rows(ctx, g, ValueSource::Base, nodes.base, r as usize),
        ours: side_rows(ctx, g, ValueSource::Ours, nodes.ours, r as usize),
        theirs: side_rows(ctx, g, ValueSource::Theirs, nodes.theirs, r as usize),
    }
}

/// The rows below `n` that survive under a parent.
pub open spec fn rows_under(g: GraphModel, parent: usize, n: int) -> Seq<usize>
    decreases n,
{
    if n <= 0 {
        Seq::empty()
    } else if is_under(g, parent, (n - 1) as usize) {
        rows_under(g, parent, n - 1).push((n - 1) as usize)
    } else {
        rows_under(g, parent, n - 1)
    }
}

/// How a sequence is shown in a conflict: by the names.
pub open spec fn order_label(g: GraphModel, list: Seq<usize>) -> Text {
    "["@ + text::join(list.map_values(|r: usize| row_name(g, r)), ", "@) + "]"@
}

pub open spec fn row_name(g: GraphModel, r: usize) -> Text {
    if r < g.len() && g[r as int] is Some {
        g[r as int]->0.name
    } else {
        "<unknown>"@
    }
}

/// The side that a conflict about the order of the children is decided for.
pub open spec fn order_decision(ctx: Ctx, r: int) -> Option<Side> {
    resolve::resolution(
        ctx.resolutions,
        ConflictKind::ChildOrder,
        ctx.subject_path(ctx.rows.entries[r]),
        None,
    )
}

/// The children of a row: the merged sequence, or that of the side that the
/// conflict is decided for, and behind them the rows under it that no side
/// places; none where the conflict is not decided.
pub open spec fn row_children(ctx: Ctx, g: GraphModel, r: int) -> Option<Seq<usize>> {
    let seqs = row_sequences(ctx, g, r);
    let placed = match merged_sequence(seqs) {
        Some(list) => Some(list),
        None => match order_decision(ctx, r) {
            Some(side) => Some(seqs.of(side)),
            None => None,
        },
    };
    match placed {
        Some(list) => Some(with_new(list, rows_under(g, r as usize, g.len() as int))),
        None => None,
    }
}

pub open spec fn ordered_row(ctx: Ctx, g: GraphModel, r: int) -> Option<NodeModel> {
    match g[r] {
        Some(node) => match row_children(ctx, g, r) {
            Some(children) => Some(NodeModel { children, ..node }),
            None => Some(node),
        },
        None => None,
    }
}

/// The graph with the children of every row.
pub open spec fn ordered(ctx: Ctx, g: GraphModel) -> GraphModel {
    Seq::new(g.len(), |r: int| ordered_row(ctx, g, r))
}

/// The conflicts after the order of the children of a row.
pub open spec fn row_order_conflicts(ctx: Ctx, g: GraphModel, r: int, before: Seq<ConflictModel>) -> Seq<
    ConflictModel,
> {
    let seqs = row_sequences(ctx, g, r);
    if g[r] is None || merged_sequence(seqs) is Some {
        before
    } else {
        let entry = ctx.rows.entries[r];
        context::reported(
            ctx.resolutions,
            before,
            ctx.subject(entry).0,
            ctx.subject(entry).1,
            ConflictKind::ChildOrder,
            None,
            Sides {
                base: Some(order_label(g, seqs.base)),
                ours: Some(order_label(g, seqs.ours)),
                theirs: Some(order_label(g, seqs.theirs)),
            },
        )
    }
}

/// The conflicts about the rows below `n`.
pub open spec fn order_conflicts(ctx: Ctx, g: GraphModel, n: int, before: Seq<ConflictModel>) -> Seq<
    ConflictModel,
>
    decreases n,
{
    if n <= 0 {
        before
    } else {
        row_order_conflicts(ctx, g, n - 1, order_conflicts(ctx, g, n - 1, before))
    }
}

fn child_merge_ids(
    ctx: &MergeCtx,
    graph: &MergedGraph,
    source: ValueSource,
    node: Option<&SemanticInstance>,
    parent: usize,
) -> (res: Vec<usize>)
    ensures
        res@ == side_rows(ctx@, graph@, source, context::instance_view(node), parent),
{
    let mut out: Vec<usize> = Vec::new();
    if let Some(node) = node {
        let ghost children = node.children@;
        let mut i: usize = 0;
        assert(children.take(0) =~= Seq::<usize>::empty());
        while i < node.children.len()
            invariant
                i <= node.children.len(),
                children == node.children@,
                out@ == child_rows(ctx@, graph@, source, children.take(i as int), parent),
            decreases node.children.len() - i,
        {
            assert(children.take(i + 1).drop_last() =~= children.take(i as int));
            if let Some(r) = ctx.identities.lookup(source, node.children[i]) {
                if r < graph.rows {
                    if let Some(instance) = graph.get(r) {
                        if instance.parent == Some(parent) {
                            out.push(r);
                        }
                    }
                }
            }
            i += 1;
        }
        assert(children.take(children.len() as int) =~= children);
    }
    out
}

fn child_order_label(graph: &MergedGraph, list: &Vec<usize>) -> (res: String)
    ensures
        res@ == order_label(graph@, list@),
{
    let mut names: Vec<String> = Vec::new();
    let mut i: usize = 0;
    while i < list.len()
        invariant
            i <= list.len(),
            names.len() == i,
            forall|k: int| 0 <= k < i ==> (#[trigger] names@[k])@ == row_name(graph@, list@[k]),
        decreases list.len() - i,
    {
        let r: usize = list[i];
        let mut name = "<unknown>".to_owned();
        if r < graph.rows {
            if let Some(node) = graph.get(r) {
                name = node.name.clone();
            }
        }
        names.push(name);
        i += 1;
    }
    assert(text::strings_view(names@) =~= list@.map_values(|r: usize| row_name(graph@, r)));
    let mut out = "[".to_owned();
    out.append(join_strings(&names, ", ").as_str());
    out.append("]");
    out
}

/// Lists the rows under every row.
fn children_by_parent(graph: &MergedGraph) -> (res: Vec<Vec<usize>>)
    requires
        cycles::parents_wf(graph@),
    ensures
        res.len() == graph@.len(),
        forall|p: int|
            0 <= p < res@.len() ==> (#[trigger] res@[p])@ == rows_under(
                graph@,
                p as usize,
                graph@.len() as int,
            ),
{
    let mut lists: Vec<Vec<usize>> = Vec::new();
    let mut r: usize = 0;
    while r < graph.rows
        invariant
            r <= graph.rows,
            lists.len() == r,
            forall|p: int| 0 <= p < r ==> (#[trigger] lists@[p])@ == Seq::<usize>::empty(),
        decreases graph.rows - r,
    {
        lists.push(Vec::new());
        r += 1;
    }
    r = 0;
    while r < graph.rows
        invariant
            r <= graph.rows,
            cycles::parents_wf(graph@),
            lists.len() == graph@.len(),
            forall|p: int|
                0 <= p < lists@.len() ==> (#[trigger] lists@[p])@ == rows_under(
                    graph@,
                    p as usize,
                    r as int,
                ),
        decreases graph.rows - r,
    {
        if let Some(node) = graph.get(r) {
            if let Some(parent) = node.parent {
                assert(graph@[r as int] is Some);
                lists[parent].push(r);
            }
        }
        r += 1;
    }
    lists
}

/// What is not in a list.
pub open spec fn not_in_list(list: Seq<usize>) -> spec_fn(usize) -> bool {
    |x: usize| !list.contains(x)
}

/// A list with all that it lacks of distinct items.
proof fn lemma_with_new_distinct(list: Seq<usize>, items: Seq<usize>)
    requires
        items.no_duplicates(),
    ensures
        with_new(list, items) == list + items.filter(not_in_list(list)),
    decreases items.len(),
{
    reveal(Seq::filter);
    let pred = not_in_list(list);
    if items.len() > 0 {
        let rest = items.drop_last();
        let last = items.last();
        let so_far = list + rest.filter(pred);
        lemma_with_new_distinct(list, rest);
        lists::lemma_filter_mem(rest, pred, last);
        if rest.contains(last) {
            let k = rest.index_of(last);
            assert(items[k] == items[items.len() - 1]);
        }
        if so_far.contains(last) {
            let k = so_far.index_of(last);
            if k < list.len() {
                assert(list[k] == last);
            } else {
                assert(rest.filter(pred)[k - list.len()] == last);
            }
        } else if list.contains(last) {
            assert(so_far[list.index_of(last)] == last);
        }
        assert(so_far.push(last) =~= list + rest.filter(pred).push(last));
    } else {
        assert(list + items.filter(pred) =~= list);
    }
}

/// Adds the rows under a row that no side places.
fn append_surviving_children(under: &Vec<usize>, children: &mut Vec<usize>)
    ensures
        final(children)@ == old(children)@ + under@.filter(not_in_list(old(children)@)),
{
    let ghost start = children@;
    let ghost pred = not_in_list(start);
    let seen = members_of(children);
    let mut i: usize = 0;
    proof {
        reveal(Seq::filter);
        assert(children@ =~= start + under@.take(0).filter(pred));
    }
    while i < under.len()
        invariant
            i <= under.len(),
            holds(seen@, start),
            pred == not_in_list(start),
            children@ == start + under@.take(i as int).filter(pred),
        decreases under.len() - i,
    {
        proof {
            reveal(Seq::filter);
            assert(under@.take(i + 1).drop_last() =~= under@.take(i as int));
            assert(under@.take(i + 1).last() == under@[i as int]);
        }
        if !seen.contains(&under[i]) {
            children.push(under[i]);
            assert(children@ =~= start + under@.take(i as int).filter(pred).push(under@[i as int]));
        }
        i += 1;
    }
    assert(under@.take(under@.len() as int) =~= under@);
}

/// Merges the order of the children of a row.
fn order_row(
    ctx: &MergeCtx,
    graph: &MergedGraph,
    r: usize,
    under: &Vec<usize>,
    conflicts: &mut Vec<Conflict>,
) -> (res: Option<Vec<usize>>)
    requires
        ctx.wf(),
        r < graph@.len(),
        graph@.len() == ctx@.rows.entries.len(),
        graph@[r as int] is Some,
        under@ == rows_under(graph@, r, graph@.len() as int),
    ensures
        match res {
            Some(list) => row_children(ctx@, graph@, r as int) == Some(list@),
            None => row_children(ctx@, graph@, r as int) is None,
        },
        conflict::conflicts_view(final(conflicts)@) == row_order_conflicts(
            ctx@,
            graph@,
            r as int,
            conflict::conflicts_view(old(conflicts)@),
        ),
{
    proof {
        context::lemma_entry_wf(ctx@, r as int);
    }
    let entry = ctx.identities.entry(r);
    let nodes = ctx.nodes(&entry);
    let seqs = Sides {
        base: child_merge_ids(ctx, graph, ValueSource::Base, nodes.base, r),
        ours: child_merge_ids(ctx, graph, ValueSource::Ours, nodes.ours, r),
        theirs: child_merge_ids(ctx, graph, ValueSource::Theirs, nodes.theirs, r),
    };
    assert(sequences_view(seqs) == row_sequences(ctx@, graph@, r as int));
    let mut children = match merge_child_sequence(&seqs) {
        Some(list) => list,
        None => {
            let labels = Sides {
                base: Some(child_order_label(graph, &seqs.base)),
                ours: Some(child_order_label(graph, &seqs.ours)),
                theirs: Some(child_order_label(graph, &seqs.theirs)),
            };
            let (dom, id): (&SemanticDom, usize) = ctx.conflict_subject(&entry);
            let decided = resolve_or_report(
                ConflictKind::ChildOrder,
                dom,
                id,
                None,
                labels,
                ctx.resolutions,
                conflicts,
            );
            match decided {
                Some(side) => copy_side(&seqs, side),
                None => {
                    return None;
                },
            }
        },
    };
    proof {
        lemma_rows_under(graph@, r, graph@.len() as int);
        lemma_with_new_distinct(children@, under@);
    }
    append_surviving_children(under, &mut children);
    Some(children)
}

/// The children of a row, as they were worked out.
spec fn plan_of(plan: Option<Vec<usize>>) -> Option<Seq<usize>> {
    match plan {
        Some(list) => Some(list@),
        None => None,
    }
}

/// Gives every row its children.
pub fn assign_child_order(ctx: &MergeCtx, graph: &mut MergedGraph, conflicts: &mut Vec<Conflict>)
    requires
        ctx.wf(),
        old(graph)@.len() == ctx@.rows.entries.len(),
        cycles::parents_wf(old(graph)@),
    ensures
        final(graph)@ == ordered(ctx@, old(graph)@),
        conflict::conflicts_view(final(conflicts)@) == order_conflicts(
            ctx@,
            old(graph)@,
            old(graph)@.len() as int,
            conflict::conflicts_view(old(conflicts)@),
        ),
{
    let ghost g = graph@;
    let ghost start = conflict::conflicts_view(conflicts@);
    let rows: usize = graph.rows;
    let under = children_by_parent(graph);
    let mut plans: Vec<Option<Vec<usize>>> = Vec::new();
    let mut r: usize = 0;
    while r < rows
        invariant
            r <= rows,
            rows == g.len(),
            ctx.wf(),
            graph@ == g,
            g.len() == ctx@.rows.entries.len(),
            under.len() == g.len(),
            forall|p: int|
                0 <= p < under@.len() ==> (#[trigger] under@[p])@ == rows_under(
                    g,
                    p as usize,
                    g.len() as int,
                ),
            plans.len() == r,
            forall|k: int|
                0 <= k < r && g[k] is Some ==> plan_of(#[trigger] plans@[k]) == row_children(
                    ctx@,
                    g,
                    k,
                ),
            conflict::conflicts_view(conflicts@) == order_conflicts(ctx@, g, r as int, start),
        decreases rows - r,
    {
        let mut plan: Option<Vec<usize>> = None;
        if graph.get(r).is_some() {
            plan = order_row(ctx, graph, r, &under[r], conflicts);
        }
        plans.push(plan);
        r += 1;
    }
    while r > 0
        invariant
            r <= rows,
            rows == g.len(),
            graph@.len() == g.len(),
            plans.len() == r,
            forall|k: int|
                0 <= k < r && g[k] is Some ==> plan_of(#[trigger] plans@[k]) == row_children(
                    ctx@,
                    g,
                    k,
                ),
            forall|k: int| r <= k < rows ==> #[trigger] graph@[k] == ordered_row(ctx@, g, k),
            forall|k: int| 0 <= k < r ==> #[trigger] graph@[k] == g[k],
        decreases r,
    {
        r -= 1;
        let ghost planned = plans@[r as int];
        let plan: Option<Option<Vec<usize>>> = plans.pop();
        assert(graph@[r as int] == g[r as int]);
        if graph.get(r).is_some() {
            assert(plan_of(planned) == row_children(ctx@, g, r as int));
            if let Some(Some(children)) = plan {
                graph.set_children(r, children);
            }
        }
    }
    assert(graph@ =~= ordered(ctx@, g));
}

// ---------------------------------------------------------------------------
// Laws
// ---------------------------------------------------------------------------

/// How far the merge has come, and what it holds.
proof fn lemma_inserted_upto(base: Seq<usize>, ours: Seq<usize>, theirs: Seq<usize>, n: int)
    requires
        0 <= n <= base.len(),
    ensures
        ({
            let p = inserted_upto(base, ours, theirs, n);
            &&& 0 <= p.ours <= ours.len()
            &&& 0 <= p.theirs <= theirs.len()
            &&& p.list.no_duplicates()
            &&& forall|x: usize| #[trigger]
                p.list.contains(x) <==> base.take(n).contains(x) || ours.take(p.ours).contains(x)
                    || theirs.take(p.theirs).contains(x)
        }),
    decreases n,
{
    let p = inserted_upto(base, ours, theirs, n);
    if n > 0 {
        let q = inserted_upto(base, ours, theirs, n - 1);
        lemma_inserted_upto(base, ours, theirs, n - 1);
        let b = base[n - 1];
        lemma_place_from(ours, q.ours, b);
        lemma_place_from(theirs, q.theirs, b);
        let o = place_from(ours, q.ours, b);
        let t = place_from(theirs, q.theirs, b);
        let l1 = with_new(q.list, ours.subrange(q.ours, o));
        let l2 = with_new(l1, theirs.subrange(q.theirs, t));
        lemma_with_new(q.list, ours.subrange(q.ours, o));
        lemma_with_new(l1, theirs.subrange(q.theirs, t));
        lemma_with_new(l2, seq![b]);
        assert forall|x: usize| #[trigger]
            p.list.contains(x) <==> base.take(n).contains(x) || ours.take(p.ours).contains(x)
                || theirs.take(p.theirs).contains(x) by {
            lemma_taken(base, n - 1, n, x);
            lemma_taken(ours, q.ours, o, x);
            lemma_taken(ours, o, p.ours, x);
            lemma_taken(theirs, q.theirs, t, x);
            lemma_taken(theirs, t, p.theirs, x);
            assert(base.subrange(n - 1, n) =~= seq![b]);
            if o < ours.len() {
                assert(ours.subrange(o, o + 1) =~= seq![b]);
            } else {
                assert(ours.subrange(o, o) =~= Seq::<usize>::empty());
            }
            if t < theirs.len() {
                assert(theirs.subrange(t, t + 1) =~= seq![b]);
            } else {
                assert(theirs.subrange(t, t) =~= Seq::<usize>::empty());
            }
            assert(l1.contains(x) <==> q.list.contains(x) || ours.subrange(q.ours, o).contains(x));
            assert(l2.contains(x) <==> l1.contains(x) || theirs.subrange(q.theirs, t).contains(x));
        }
    } else {
        assert(base.take(0) =~= Seq::<usize>::empty());
        assert(ours.take(0) =~= Seq::<usize>::empty());
        assert(theirs.take(0) =~= Seq::<usize>::empty());
    }
}

proof fn lemma_taken(s: Seq<usize>, lo: int, hi: int, x: usize)
    requires
        0 <= lo <= hi <= s.len(),
    ensures
        s.take(hi).contains(x) <==> s.take(lo).contains(x) || s.subrange(lo, hi).contains(x),
{
    let a = s.take(lo);
    let m = s.subrange(lo, hi);
    let b = s.take(hi);
    if b.contains(x) {
        let i = b.index_of(x);
        if i < lo {
            assert(a[i] == x);
        } else {
            assert(m[i - lo] == x);
        }
    }
    if a.contains(x) {
        assert(b[a.index_of(x)] == x);
    }
    if m.contains(x) {
        assert(b[lo + m.index_of(x)] == x);
    }
}

/// The merge of insertions loses no row of any side, invents none, and holds none
/// twice.
pub proof fn law_insertions_keep_every_row(base: Seq<usize>, ours: Seq<usize>, theirs: Seq<usize>)
    ensures
        inserted(base, ours, theirs).no_duplicates(),
        forall|x: usize| #[trigger]
            inserted(base, ours, theirs).contains(x) <==> base.contains(x) || ours.contains(x)
                || theirs.contains(x),
{
    let p = inserted_upto(base, ours, theirs, base.len() as int);
    lemma_inserted_upto(base, ours, theirs, base.len() as int);
    let l1 = with_new(p.list, ours.skip(p.ours));
    lemma_with_new(p.list, ours.skip(p.ours));
    lemma_with_new(l1, theirs.skip(p.theirs));
    assert forall|x: usize| #[trigger]
        inserted(base, ours, theirs).contains(x) <==> base.contains(x) || ours.contains(x)
            || theirs.contains(x) by {
        assert(l1.contains(x) <==> p.list.contains(x) || ours.skip(p.ours).contains(x));
        lemma_taken(ours, p.ours, ours.len() as int, x);
        lemma_taken(theirs, p.theirs, theirs.len() as int, x);
        assert(ours.take(ours.len() as int) =~= ours);
        assert(theirs.take(theirs.len() as int) =~= theirs);
        assert(base.take(base.len() as int) =~= base);
        assert(ours.subrange(p.ours, ours.len() as int) =~= ours.skip(p.ours));
        assert(theirs.subrange(p.theirs, theirs.len() as int) =~= theirs.skip(p.theirs));
    }
}

proof fn lemma_filter_no_duplicates(s: Seq<usize>, pred: spec_fn(usize) -> bool)
    requires
        s.no_duplicates(),
    ensures
        s.filter(pred).no_duplicates(),
    decreases s.len(),
{
    reveal(Seq::filter);
    if s.len() > 0 {
        let t = s.drop_last();
        assert(t.no_duplicates()) by {
            assert forall|i: int, j: int| 0 <= i < t.len() && 0 <= j < t.len() && i != j implies t[i]
                != t[j] by {
                assert(s[i] != s[j]);
            }
        }
        lemma_filter_no_duplicates(t, pred);
        lists::lemma_filter_mem(t, pred, s.last());
        if t.contains(s.last()) {
            let i = t.index_of(s.last());
            assert(s[i] == s[s.len() - 1]);
        }
        if pred(s.last()) {
            let f = t.filter(pred);
            assert forall|i: int, j: int|
                0 <= i < f.push(s.last()).len() && 0 <= j < f.push(s.last()).len() && i
                    != j implies f.push(s.last())[i] != f.push(s.last())[j] by {
                if i < f.len() {
                    assert(f.contains(f[i]));
                }
                if j < f.len() {
                    assert(f.contains(f[j]));
                }
            }
        }
    }
}

/// Where two elements that pass a filter come to stand.
proof fn lemma_filter_places(s: Seq<usize>, pred: spec_fn(usize) -> bool, i: int, j: int) -> (res: (
    int,
    int,
))
    requires
        0 <= i < j < s.len(),
        pred(s[i]),
        pred(s[j]),
    ensures
        0 <= res.0 < res.1 < s.filter(pred).len(),
        s.filter(pred)[res.0] == s[i],
        s.filter(pred)[res.1] == s[j],
    decreases s.len(),
{
    reveal(Seq::filter);
    let t = s.drop_last();
    if j < t.len() {
        lemma_filter_places(t, pred, i, j)
    } else {
        lists::lemma_filter_mem(t, pred, s[i]);
        assert(t[i] == s[i]);
        let f = t.filter(pred);
        (f.index_of(s[i]), f.len() as int)
    }
}

/// Two rows that are in both lists stand in the same order in both.
proof fn lemma_same_order(base: Seq<usize>, side: Seq<usize>, i: int, j: int, m: int, k: int)
    requires
        base.no_duplicates(),
        side.no_duplicates(),
        keeps_order(base, side),
        0 <= i < j < side.len(),
        0 <= m < base.len(),
        0 <= k < base.len(),
        side[i] == base[m],
        side[j] == base[k],
    ensures
        m < k,
{
    let f = side.filter(in_list(base));
    assert(in_list(base)(side[i])) by {
        assert(base.contains(base[m]));
    }
    assert(in_list(base)(side[j])) by {
        assert(base.contains(base[k]));
    }
    let (a, b) = lemma_filter_places(side, in_list(base), i, j);
    if k <= m {
        assert(m != k) by {
            assert(side[i] != side[j]);
        }
        assert(in_list(side)(base[m])) by {
            assert(side.contains(side[i]));
        }
        assert(in_list(side)(base[k])) by {
            assert(side.contains(side[j]));
        }
        let (c, d) = lemma_filter_places(base, in_list(side), k, m);
        lemma_filter_no_duplicates(side, in_list(base));
        assert(f[a] == f[d]);
        assert(f[b] == f[c]);
        assert(a == d);
        assert(b == c);
    }
}

proof fn lemma_with_new_filter(list: Seq<usize>, items: Seq<usize>, pred: spec_fn(usize) -> bool)
    requires
        forall|i: int| 0 <= i < items.len() ==> !pred(#[trigger] items[i]),
    ensures
        with_new(list, items).filter(pred) == list.filter(pred),
    decreases items.len(),
{
    if items.len() > 0 {
        lemma_with_new_filter(list, items.drop_last(), pred);
        let so_far = with_new(list, items.drop_last());
        assert(!pred(items[items.len() - 1]));
        if !so_far.contains(items.last()) {
            reveal(Seq::filter);
            assert(so_far.push(items.last()).drop_last() =~= so_far);
        }
    }
}

/// What was read of a side holds the rows of the base up to `n` and no others of
/// the base.
spec fn read_upto(base: Seq<usize>, side: Seq<usize>, pos: int, n: int) -> bool {
    &&& 0 <= pos <= side.len()
    &&& forall|i: int|
        0 <= i < pos && base.contains(#[trigger] side[i]) ==> base.take(n).contains(side[i])
    &&& forall|k: int| 0 <= k < n ==> side.take(pos).contains(#[trigger] base[k])
}

proof fn lemma_read_step(base: Seq<usize>, side: Seq<usize>, pos: int, n: int)
    requires
        base.no_duplicates(),
        side.no_duplicates(),
        keeps_order(base, side),
        forall|x: usize| base.contains(x) ==> side.contains(x),
        0 <= n < base.len(),
        read_upto(base, side, pos, n),
    ensures
        ({
            let at = place_from(side, pos, base[n]);
            &&& at < side.len()
            &&& forall|i: int|
                0 <= i < side.subrange(pos, at).len() ==> !in_list(base)(
                    #[trigger] side.subrange(pos, at)[i],
                )
            &&& read_upto(base, side, behind(side, at), n + 1)
        }),
{
    let b = base[n];
    assert(base.contains(b));
    assert(side.contains(b));
    let j = side.index_of(b);
    if j < pos {
        assert(base.take(n).contains(b));
        let k = base.take(n).index_of(b);
        assert(base[k] == base[n]);
    }
    lemma_place_from(side, pos, b);
    let at = place_from(side, pos, b);
    if j < at {
        assert(side[j] != b);
    }
    assert(at <= j);
    assert(side[at] == b);
    let seg = side.subrange(pos, at);
    assert forall|i: int| 0 <= i < seg.len() implies !in_list(base)(#[trigger] seg[i]) by {
        if base.contains(seg[i]) {
            let m = base.index_of(seg[i]);
            let p = pos + i;
            assert(side[p] == base[m]);
            lemma_same_order(base, side, p, at, m, n);
            assert(side.take(pos).contains(base[m]));
            let q = side.take(pos).index_of(base[m]);
            assert(side[q] == side[p]);
        }
    }
    let next = at + 1;
    assert forall|i: int| 0 <= i < next && base.contains(#[trigger] side[i]) implies base.take(
        n + 1,
    ).contains(side[i]) by {
        if i < pos {
            let k = base.take(n).index_of(side[i]);
            assert(base.take(n + 1)[k] == side[i]);
        } else if i < at {
            assert(seg[i - pos] == side[i]);
        } else {
            assert(base.take(n + 1)[n] == b);
        }
    }
    assert forall|k: int| 0 <= k < n + 1 implies side.take(next).contains(#[trigger] base[k]) by {
        if k < n {
            let q = side.take(pos).index_of(base[k]);
            assert(side.take(next)[q] == base[k]);
        } else {
            assert(side.take(next)[at] == b);
        }
    }
}

proof fn lemma_base_order(base: Seq<usize>, ours: Seq<usize>, theirs: Seq<usize>, n: int)
    requires
        base.no_duplicates(),
        ours.no_duplicates(),
        theirs.no_duplicates(),
        keeps_order(base, ours),
        keeps_order(base, theirs),
        forall|x: usize| base.contains(x) ==> ours.contains(x) && theirs.contains(x),
        0 <= n <= base.len(),
    ensures
        ({
            let p = inserted_upto(base, ours, theirs, n);
            &&& p.list.filter(in_list(base)) == base.take(n)
            &&& read_upto(base, ours, p.ours, n)
            &&& read_upto(base, theirs, p.theirs, n)
        }),
    decreases n,
{
    let p = inserted_upto(base, ours, theirs, n);
    let pred = in_list(base);
    if n == 0 {
        lists::lemma_filter_none(p.list, pred);
        assert(p.list.take(0) =~= p.list);
        assert(base.take(0) =~= Seq::<usize>::empty());
    } else {
        let q = inserted_upto(base, ours, theirs, n - 1);
        lemma_base_order(base, ours, theirs, n - 1);
        lemma_inserted_upto(base, ours, theirs, n - 1);
        let b = base[n - 1];
        lemma_read_step(base, ours, q.ours, n - 1);
        lemma_read_step(base, theirs, q.theirs, n - 1);
        let o = place_from(ours, q.ours, b);
        let t = place_from(theirs, q.theirs, b);
        let l1 = with_new(q.list, ours.subrange(q.ours, o));
        let l2 = with_new(l1, theirs.subrange(q.theirs, t));
        lemma_with_new_filter(q.list, ours.subrange(q.ours, o), pred);
        lemma_with_new_filter(l1, theirs.subrange(q.theirs, t), pred);
        lists::lemma_filter_mem(l2, pred, b);
        if l2.contains(b) {
            assert(base.contains(b));
            let k = base.take(n - 1).index_of(b);
            assert(base[k] == base[n - 1]);
        }
        let one = seq![b];
        reveal_with_fuel(with_new, 2);
        assert(one.drop_last() =~= Seq::<usize>::empty());
        assert(p.list == l2.push(b));
        reveal(Seq::filter);
        assert(l2.push(b).drop_last() =~= l2);
        assert(pred(b)) by {
            assert(base.contains(b));
        }
        assert(base.take(n) =~= base.take(n - 1).push(b));
    }
}

/// Where both sides keep every row of the base and their order, the merge of their
/// insertions does too.
pub proof fn law_insertions_keep_base_order(
    base: Seq<usize>,
    ours: Seq<usize>,
    theirs: Seq<usize>,
)
    requires
        base.no_duplicates(),
        ours.no_duplicates(),
        theirs.no_duplicates(),
        keeps_order(base, ours),
        keeps_order(base, theirs),
        forall|x: usize| base.contains(x) ==> ours.contains(x) && theirs.contains(x),
    ensures
        inserted(base, ours, theirs).filter(in_list(base)) == base,
{
    let n = base.len() as int;
    let p = inserted_upto(base, ours, theirs, n);
    let pred = in_list(base);
    lemma_base_order(base, ours, theirs, n);
    assert(base.take(n) =~= base);
    let l1 = with_new(p.list, ours.skip(p.ours));
    assert forall|i: int| 0 <= i < ours.skip(p.ours).len() implies !pred(
        #[trigger] ours.skip(p.ours)[i],
    ) by {
        lemma_all_read(base, ours, p.ours, p.ours + i);
    }
    assert forall|i: int| 0 <= i < theirs.skip(p.theirs).len() implies !pred(
        #[trigger] theirs.skip(p.theirs)[i],
    ) by {
        lemma_all_read(base, theirs, p.theirs, p.theirs + i);
    }
    lemma_with_new_filter(p.list, ours.skip(p.ours), pred);
    lemma_with_new_filter(l1, theirs.skip(p.theirs), pred);
}

proof fn lemma_all_read(base: Seq<usize>, side: Seq<usize>, pos: int, i: int)
    requires
        side.no_duplicates(),
        read_upto(base, side, pos, base.len() as int),
        pos <= i < side.len(),
    ensures
        !base.contains(side[i]),
{
    if base.contains(side[i]) {
        let k = base.index_of(side[i]);
        assert(side.take(pos).contains(base[k]));
        let q = side.take(pos).index_of(base[k]);
        assert(side[q] == side[i]);
    }
}

proof fn lemma_filter_concat(a: Seq<usize>, b: Seq<usize>, pred: spec_fn(usize) -> bool)
    ensures
        (a + b).filter(pred) == a.filter(pred) + b.filter(pred),
    decreases b.len(),
{
    reveal(Seq::filter);
    if b.len() == 0 {
        assert(a + b =~= a);
        assert(a.filter(pred) + b.filter(pred) =~= a.filter(pred));
    } else {
        lemma_filter_concat(a, b.drop_last(), pred);
        assert((a + b).drop_last() =~= a + b.drop_last());
        assert((a + b).last() == b.last());
        let (f, g) = (a.filter(pred), b.drop_last().filter(pred));
        assert((f + g).push(b.last()) =~= f + g.push(b.last()));
    }
}

/// What holds of a list that was taken from the first rows of two sides: nothing else
/// is in it, and the rows of each side are in it in their order.
spec fn taken_from(list: Seq<usize>, side: Seq<usize>, a: int, other: Seq<usize>, c: int) -> bool {
    &&& 0 <= a <= side.len()
    &&& 0 <= c <= other.len()
    &&& forall|x: usize| #[trigger]
        list.contains(x) ==> side.take(a).contains(x) || other.take(c).contains(x)
    &&& list.filter(in_list(side)) == side.take(a)
    &&& list.filter(in_list(other)) == other.take(c)
}

/// The insertions of a side follow what was taken before.
proof fn lemma_add_segment(
    base: Seq<usize>,
    list: Seq<usize>,
    side: Seq<usize>,
    a: int,
    other: Seq<usize>,
    c: int,
    hi: int,
)
    requires
        side.no_duplicates(),
        taken_from(list, side, a, other, c),
        a <= hi <= side.len(),
        forall|x: usize| side.contains(x) && #[trigger] other.contains(x) ==> base.contains(x),
        forall|i: int| a <= i < hi ==> !base.contains(#[trigger] side[i]),
    ensures
        taken_from(with_new(list, side.subrange(a, hi)), side, hi, other, c),
{
    let seg = side.subrange(a, hi);
    let whole = list + seg;
    assert forall|i: int| 0 <= i < seg.len() implies !other.contains(#[trigger] seg[i]) by {
        assert(seg[i] == side[a + i]);
        assert(side.contains(side[a + i]));
        if other.contains(seg[i]) {
            assert(base.contains(seg[i]));
        }
    }
    assert forall|i: int| 0 <= i < seg.len() implies not_in_list(list)(#[trigger] seg[i]) by {
        assert(seg[i] == side[a + i]);
        if list.contains(seg[i]) {
            if side.take(a).contains(seg[i]) {
                let k = side.take(a).index_of(seg[i]);
                assert(side[k] == side[a + i]);
            } else {
                let k = other.take(c).index_of(seg[i]);
                assert(other[k] == seg[i]);
            }
        }
    }
    assert(seg.no_duplicates());
    lemma_with_new_distinct(list, seg);
    lists::lemma_filter_keeps(seg, not_in_list(list));
    assert(with_new(list, seg) == whole);
    lemma_filter_concat(list, seg, in_list(side));
    lemma_filter_concat(list, seg, in_list(other));
    assert forall|i: int| 0 <= i < seg.len() implies in_list(side)(#[trigger] seg[i]) by {
        assert(seg[i] == side[a + i]);
    }
    lists::lemma_filter_keeps(seg, in_list(side));
    lists::lemma_filter_drops(seg, in_list(other));
    assert(side.take(a) + seg =~= side.take(hi));
    assert(other.take(c) + Seq::<usize>::empty() =~= other.take(c));
    assert forall|x: usize| #[trigger] whole.contains(x) implies side.take(hi).contains(x)
        || other.take(c).contains(x) by {
        let k = whole.index_of(x);
        if k < list.len() {
            assert(list[k] == x);
            assert(list.contains(x));
            if side.take(a).contains(x) {
                assert(side.take(hi)[side.take(a).index_of(x)] == x);
            }
        } else {
            assert(side.take(hi)[a + k - list.len()] == x);
        }
    }
}

/// A row that both sides have next follows what was taken before.
proof fn lemma_add_shared(list: Seq<usize>, side: Seq<usize>, a: int, other: Seq<usize>, c: int)
    requires
        side.no_duplicates(),
        other.no_duplicates(),
        taken_from(list, side, a, other, c),
        a < side.len(),
        c < other.len(),
        side[a] == other[c],
    ensures
        taken_from(with_new(list, seq![side[a]]), side, a + 1, other, c + 1),
{
    let b = side[a];
    let one = seq![b];
    let whole = list.push(b);
    if list.contains(b) {
        if side.take(a).contains(b) {
            let k = side.take(a).index_of(b);
            assert(side[k] == side[a]);
        } else {
            let k = other.take(c).index_of(b);
            assert(other[k] == other[c]);
        }
    }
    reveal_with_fuel(with_new, 2);
    assert(one.drop_last() =~= Seq::<usize>::empty());
    assert(with_new(list, one) == whole);
    reveal(Seq::filter);
    assert(whole.drop_last() =~= list);
    assert(side.contains(b) && other.contains(b));
    assert(side.take(a + 1) =~= side.take(a).push(b));
    assert(other.take(c + 1) =~= other.take(c).push(b));
    assert forall|x: usize| #[trigger] whole.contains(x) implies side.take(a + 1).contains(x)
        || other.take(c + 1).contains(x) by {
        let k = whole.index_of(x);
        if k < list.len() {
            assert(list[k] == x);
            assert(list.contains(x));
            if side.take(a).contains(x) {
                assert(side.take(a + 1)[side.take(a).index_of(x)] == x);
            } else {
                assert(other.take(c + 1)[other.take(c).index_of(x)] == x);
            }
        } else {
            assert(side.take(a + 1)[a] == x);
        }
    }
}

proof fn lemma_taken_symmetric(list: Seq<usize>, side: Seq<usize>, a: int, other: Seq<usize>, c: int)
    requires
        taken_from(list, side, a, other, c),
    ensures
        taken_from(list, other, c, side, a),
{
}

proof fn lemma_place_found(side: Seq<usize>, pos: int, b: usize)
    requires
        0 <= pos <= side.len(),
        place_from(side, pos, b) < side.len(),
    ensures
        pos <= place_from(side, pos, b),
        side[place_from(side, pos, b)] == b,
    decreases side.len() - pos,
{
    lemma_place_from(side, pos, b);
}

proof fn lemma_sides_order(base: Seq<usize>, ours: Seq<usize>, theirs: Seq<usize>, n: int)
    requires
        base.no_duplicates(),
        ours.no_duplicates(),
        theirs.no_duplicates(),
        keeps_order(base, ours),
        keeps_order(base, theirs),
        forall|x: usize| base.contains(x) ==> ours.contains(x) && theirs.contains(x),
        forall|x: usize| ours.contains(x) && #[trigger] theirs.contains(x) ==> base.contains(x),
        0 <= n <= base.len(),
    ensures
        ({
            let p = inserted_upto(base, ours, theirs, n);
            taken_from(p.list, ours, p.ours, theirs, p.theirs)
        }),
    decreases n,
{
    let p = inserted_upto(base, ours, theirs, n);
    if n == 0 {
        reveal(Seq::filter);
        assert(p.list.filter(in_list(ours)) =~= ours.take(0));
        assert(p.list.filter(in_list(theirs)) =~= theirs.take(0));
    } else {
        let q = inserted_upto(base, ours, theirs, n - 1);
        lemma_sides_order(base, ours, theirs, n - 1);
        lemma_base_order(base, ours, theirs, n - 1);
        let b = base[n - 1];
        lemma_read_step(base, ours, q.ours, n - 1);
        lemma_read_step(base, theirs, q.theirs, n - 1);
        let o = place_from(ours, q.ours, b);
        let t = place_from(theirs, q.theirs, b);
        lemma_place_found(ours, q.ours, b);
        lemma_place_found(theirs, q.theirs, b);
        let l1 = with_new(q.list, ours.subrange(q.ours, o));
        let l2 = with_new(l1, theirs.subrange(q.theirs, t));
        assert forall|i: int| q.ours <= i < o implies !base.contains(#[trigger] ours[i]) by {
            let seg = ours.subrange(q.ours, o);
            assert(!in_list(base)(seg[i - q.ours]));
        }
        lemma_add_segment(base, q.list, ours, q.ours, theirs, q.theirs, o);
        lemma_taken_symmetric(l1, ours, o, theirs, q.theirs);
        assert forall|i: int| q.theirs <= i < t implies !base.contains(#[trigger] theirs[i]) by {
            let seg = theirs.subrange(q.theirs, t);
            assert(!in_list(base)(seg[i - q.theirs]));
        }
        assert forall|x: usize| theirs.contains(x) && #[trigger] ours.contains(x) implies base.contains(
            x,
        ) by {
            assert(theirs.contains(x));
        }
        lemma_add_segment(base, l1, theirs, q.theirs, ours, o, t);
        lemma_taken_symmetric(l2, theirs, t, ours, o);
        lemma_add_shared(l2, ours, o, theirs, t);
    }
}

/// Where both sides keep every row of the base and their order, and no addition is of
/// both sides, the merge of their insertions keeps the order of either side.
pub proof fn law_insertions_keep_the_order_of_sides(
    base: Seq<usize>,
    ours: Seq<usize>,
    theirs: Seq<usize>,
)
    requires
        base.no_duplicates(),
        ours.no_duplicates(),
        theirs.no_duplicates(),
        keeps_order(base, ours),
        keeps_order(base, theirs),
        forall|x: usize| base.contains(x) ==> ours.contains(x) && theirs.contains(x),
        forall|x: usize| ours.contains(x) && #[trigger] theirs.contains(x) ==> base.contains(x),
    ensures
        inserted(base, ours, theirs).filter(in_list(ours)) == ours,
        inserted(base, ours, theirs).filter(in_list(theirs)) == theirs,
{
    let n = base.len() as int;
    let p = inserted_upto(base, ours, theirs, n);
    lemma_base_order(base, ours, theirs, n);
    lemma_sides_order(base, ours, theirs, n);
    let (a, c) = (ours.len() as int, theirs.len() as int);
    assert forall|i: int| p.ours <= i < a implies !base.contains(#[trigger] ours[i]) by {
        lemma_all_read(base, ours, p.ours, i);
    }
    assert forall|i: int| p.theirs <= i < c implies !base.contains(#[trigger] theirs[i]) by {
        lemma_all_read(base, theirs, p.theirs, i);
    }
    assert(ours.skip(p.ours) =~= ours.subrange(p.ours, a));
    assert(theirs.skip(p.theirs) =~= theirs.subrange(p.theirs, c));
    let l1 = with_new(p.list, ours.skip(p.ours));
    lemma_add_segment(base, p.list, ours, p.ours, theirs, p.theirs, a);
    lemma_taken_symmetric(l1, ours, a, theirs, p.theirs);
    assert forall|x: usize| theirs.contains(x) && #[trigger] ours.contains(x) implies base.contains(
        x,
    ) by {
        assert(theirs.contains(x));
    }
    lemma_add_segment(base, l1, theirs, p.theirs, ours, a, c);
    assert(ours.take(a) =~= ours);
    assert(theirs.take(c) =~= theirs);
}

/// The rows under a parent are those that survive under it.
pub proof fn lemma_rows_under(g: GraphModel, parent: usize, n: int)
    requires
        0 <= n <= g.len(),
        n <= usize::MAX,
    ensures
        rows_under(g, parent, n).no_duplicates(),
        forall|x: usize| #[trigger]
            rows_under(g, parent, n).contains(x) <==> x < n && is_under(g, parent, x),
    decreases n,
{
    if n > 0 {
        let a = rows_under(g, parent, n - 1);
        let b = rows_under(g, parent, n);
        lemma_rows_under(g, parent, n - 1);
        assert forall|x: usize| #[trigger] b.contains(x) <==> x < n && is_under(g, parent, x) by {
            assert(a.contains(x) <==> x < n - 1 && is_under(g, parent, x));
            if a.contains(x) {
                assert(b[a.index_of(x)] == x);
            }
            if b != a {
                assert(b[a.len() as int] == n - 1);
                if b.contains(x) {
                    let i = b.index_of(x);
                    if i < a.len() {
                        assert(a[i] == x);
                    }
                }
            }
        }
        if b != a {
            assert(!a.contains((n - 1) as usize));
        }
    }
}

/// The file of a source.
pub open spec fn file_of(ctx: Ctx, source: ValueSource) -> DomModel {
    match source {
        ValueSource::Base => ctx.base,
        ValueSource::Ours => ctx.ours,
        _ => ctx.theirs,
    }
}

/// Different instances of a file are of different rows.
proof fn lemma_row_of_injective(ctx: Ctx, source: ValueSource, a: usize, b: usize)
    requires
        ctx.wf(),
        !(source is Merged),
        a < file_of(ctx, source).len(),
        b < file_of(ctx, source).len(),
        identity::row_of(ctx.rows, source, a) == identity::row_of(ctx.rows, source, b),
    ensures
        a == b,
{
    match source {
        ValueSource::Ours => {
            assert(ctx.rows.entries[ctx.rows.ours_rows[a as int] as int].ours == Some(a));
            assert(ctx.rows.entries[ctx.rows.ours_rows[b as int] as int].ours == Some(b));
        },
        ValueSource::Theirs => {
            assert(ctx.rows.entries[ctx.rows.theirs_rows[a as int] as int].theirs == Some(a));
            assert(ctx.rows.entries[ctx.rows.theirs_rows[b as int] as int].theirs == Some(b));
        },
        _ => {},
    }
}

pub proof fn lemma_child_rows(
    ctx: Ctx,
    g: GraphModel,
    source: ValueSource,
    children: Seq<usize>,
    parent: usize,
)
    requires
        ctx.wf(),
        !(source is Merged),
        children.no_duplicates(),
        forall|i: int| 0 <= i < children.len() ==> #[trigger] children[i] < file_of(ctx, source).len(),
    ensures
        child_rows(ctx, g, source, children, parent).no_duplicates(),
        forall|x: usize| #[trigger]
            child_rows(ctx, g, source, children, parent).contains(x) ==> is_under(g, parent, x)
                && exists|i: int|
                0 <= i < children.len() && identity::row_of(
                    ctx.rows,
                    source,
                    #[trigger] children[i],
                ) == Some(x),
    decreases children.len(),
{
    if children.len() > 0 {
        let rest = children.drop_last();
        let a = child_rows(ctx, g, source, rest, parent);
        let b = child_rows(ctx, g, source, children, parent);
        assert forall|i: int, j: int| 0 <= i < rest.len() && 0 <= j < rest.len() && i
            != j implies rest[i] != rest[j] by {
            assert(children[i] != children[j]);
        }
        lemma_child_rows(ctx, g, source, rest, parent);
        let last = children.last();
        assert(children[children.len() - 1] == last);
        let row = identity::row_of(ctx.rows, source, last);
        if b != a {
            let r = row->0;
            if a.contains(r) {
                let i = choose|i: int|
                    0 <= i < rest.len() && identity::row_of(ctx.rows, source, #[trigger] rest[i])
                        == Some(r);
                assert(children[i] == rest[i]);
                lemma_row_of_injective(ctx, source, rest[i], last);
            }
        }
        assert forall|x: usize| #[trigger] b.contains(x) implies is_under(g, parent, x) && exists|
            i: int,
        |
            0 <= i < children.len() && identity::row_of(ctx.rows, source, #[trigger] children[i])
                == Some(x) by {
            let k = b.index_of(x);
            if k < a.len() {
                assert(a[k] == x);
                assert(a.contains(x));
                let i = choose|i: int|
                    0 <= i < rest.len() && identity::row_of(ctx.rows, source, #[trigger] rest[i])
                        == Some(x);
                assert(children[i] == rest[i]);
            }
        }
    }
}

pub proof fn lemma_side_rows(
    ctx: Ctx,
    g: GraphModel,
    source: ValueSource,
    id: Option<usize>,
    node: Option<InstanceModel>,
    parent: usize,
)
    requires
        ctx.wf(),
        !(source is Merged),
        match id {
            Some(i) => i < file_of(ctx, source).len() && node == Some(
                file_of(ctx, source)[i as int],
            ),
            None => node is None,
        },
    ensures
        side_rows(ctx, g, source, node, parent).no_duplicates(),
        forall|x: usize| #[trigger]
            side_rows(ctx, g, source, node, parent).contains(x) ==> is_under(g, parent, x),
{
    if let Some(i) = id {
        let d = file_of(ctx, source);
        crate::matching::lemma_children(d, i as int);
        let children = d[i as int].children;
        assert forall|j: int, k: int| 0 <= j < children.len() && 0 <= k < children.len() && j
            != k implies children[j] != children[k] by {
            if j < k {
                assert(children[j] < children[k]);
            } else {
                assert(children[k] < children[j]);
            }
        }
        lemma_child_rows(ctx, g, source, children, parent);
    }
}

/// The children of a row are the rows that survive under it, each of them once.
pub proof fn law_children_are_the_rows_under(ctx: Ctx, g: GraphModel, r: int)
    requires
        ctx.wf(),
        g.len() == ctx.rows.entries.len(),
        0 <= r < g.len(),
        row_children(ctx, g, r) is Some,
    ensures
        row_children(ctx, g, r)->0.no_duplicates(),
        forall|x: usize| #[trigger]
            row_children(ctx, g, r)->0.contains(x) <==> is_under(g, r as usize, x),
{
    let entry = ctx.rows.entries[r];
    context::lemma_entry_wf(ctx, r);
    let seqs = row_sequences(ctx, g, r);
    let p = r as usize;
    let nodes = ctx.nodes(entry);
    lemma_side_rows(ctx, g, ValueSource::Base, entry.base, nodes.base, p);
    lemma_side_rows(ctx, g, ValueSource::Ours, entry.ours, nodes.ours, p);
    lemma_side_rows(ctx, g, ValueSource::Theirs, entry.theirs, nodes.theirs, p);
    law_insertions_keep_every_row(seqs.base, seqs.ours, seqs.theirs);
    let placed = match merged_sequence(seqs) {
        Some(list) => list,
        None => seqs.of(order_decision(ctx, r)->0),
    };
    assert(placed.no_duplicates());
    assert(forall|x: usize| #[trigger] placed.contains(x) ==> is_under(g, p, x));
    let under = rows_under(g, p, g.len() as int);
    lemma_rows_under(g, p, g.len() as int);
    lemma_with_new(placed, under);
    assert forall|x: usize| #[trigger] row_children(ctx, g, r)->0.contains(x) <==> is_under(
        g,
        p,
        x,
    ) by {
        assert(under.contains(x) <==> x < g.len() && is_under(g, p, x));
    }
}

} // verus!
